use num_bigint::BigInt;
use schoof::elliptic_curve::{ECPoint, ECPointVec, EllipticCurve};
use schoof::error::Error;

fn big(v: i64) -> BigInt {
    BigInt::from(v)
}

fn pt(x: i64, y: i64) -> ECPoint {
    ECPoint::new(&big(x), &big(y), &big(1))
}

#[test]
fn elliptic_curve_test2() {
    let ec = EllipticCurve::new(&big(1), &big(1), &big(5)).unwrap();
    assert_eq!(ec.to_string().unwrap(), "F_5: y^2 = x^3 + x + 1, cardinality:9, j:2");
    let points = ec.points();
    assert_eq!(points.len(), 9);
    assert_eq!(points[0].to_string(), "(0, 1)");
    assert_eq!(points[1].to_string(), "(0, 4)");
    assert_eq!(points[2].to_string(), "(2, 1)");
    assert_eq!(points[3].to_string(), "(2, 4)");
    assert_eq!(points[4].to_string(), "(3, 1)");
    assert_eq!(points[5].to_string(), "(3, 4)");
    assert_eq!(points[6].to_string(), "(4, 2)");
    assert_eq!(points[7].to_string(), "(4, 3)");
    assert_eq!(points[8].to_string(), "O");
}

#[test]
fn elliptic_curve_test3() {
    let ec = EllipticCurve::new(&big(1), &big(1), &big(5)).unwrap();
    assert_eq!(ec.to_string().unwrap(), "F_5: y^2 = x^3 + x + 1, cardinality:9, j:2");
    assert_eq!(ec.point_order(&ec.points[0]).unwrap().to_string(), "9");
    assert_eq!(ec.point_order(&ec.points[1]).unwrap().to_string(), "9");
    assert_eq!(ec.point_order(&ec.points[2]).unwrap().to_string(), "3");
    assert_eq!(ec.point_order(&ec.points[3]).unwrap().to_string(), "3");
    assert_eq!(ec.point_order(&ec.points[4]).unwrap().to_string(), "9");
    assert_eq!(ec.point_order(&ec.points[5]).unwrap().to_string(), "9");
    assert_eq!(ec.point_order(&ec.points[6]).unwrap().to_string(), "9");
    assert_eq!(ec.point_order(&ec.points[7]).unwrap().to_string(), "9");
    assert_eq!(ec.point_order(&ec.points[8]).unwrap().to_string(), "1");
}

#[test]
fn elliptic_curve_test4() {
    let ec = EllipticCurve::new(&big(1), &big(1), &big(29)).unwrap();
    println!("{}", ec.to_string().unwrap());
    for x in 0..ec.cardinality() {
        println!(
            "P{} {} cardinality {}",
            x + 1,
            ec.points[x].to_string(),
            ec.point_order(&ec.points[x]).unwrap()
        );
    }
}

#[test]
fn elliptic_curve_test5() {
    let mut pset = primes::Sieve::new();
    for p in primes::PrimeSet::iter(&mut pset).skip(2).take(10) {
        let ec = EllipticCurve::new(&big(1), &big(1), &BigInt::from(p)).unwrap();
        let mut line = match ec.to_string() {
            Ok(text) => text,
            Err(e) => format!("F_{}: {:?}", p, e),
        };
        if primes::is_prime(ec.cardinality() as u64) {
            line = format!("{} cardinality is prime", line);
        }
        println!("{}", line);
    }
}

#[test]
fn isogeny_test1() {
    let ec = EllipticCurve::new(&big(1), &big(1), &big(19)).unwrap();
    println!("{}", ec.to_string().unwrap());
    for x in 0..ec.cardinality() {
        let point_order = ec.point_order(&ec.points[x]).unwrap();
        println!("P{} {} order {}", x + 1, ec.points[x].to_string(), point_order);
    }
    let points2 = ec.division_points(&big(2)).unwrap();
    assert_eq!(points2.to_string(), "O");

    let points3 = ec.division_points(&big(3)).unwrap();
    assert_eq!(points3.to_string(), "(2, 7), (2, 12), O");

    let points7 = ec.division_points(&big(7)).unwrap();
    assert_eq!(
        points7.to_string(),
        "(10, 2), (10, 17), (14, 2), (14, 17), (15, 3), (15, 16), O"
    );
}

#[test]
fn curve_constructor_rejects() {
    assert_eq!(EllipticCurve::new(&big(1), &big(1), &big(1)).err(), Some(Error::DomainError));
    assert_eq!(EllipticCurve::new(&big(1), &big(1), &big(9)).err(), Some(Error::DomainError));
    assert_eq!(EllipticCurve::new(&big(1), &big(1), &big(-5)).err(), Some(Error::DomainError));
    assert_eq!(
        EllipticCurve::new(&big(1), &big(1), &big(0x1_0000_000F)).err(),
        Some(Error::DomainError)
    );
    assert_eq!(EllipticCurve::new_raw(&big(1), &big(1), &big(1)).err(), Some(Error::DomainError));
    let raw = EllipticCurve::new_raw(&big(1), &big(1), &big(9)).unwrap();
    assert_eq!(raw.cardinality(), 0);
}

#[test]
fn points_lie_on_the_curve() {
    let ec = EllipticCurve::new(&big(2), &big(1), &big(7)).unwrap();
    assert_eq!(ec.cardinality(), 5);
    assert_eq!(ECPointVec(ec.points()).to_string(), "(0, 1), (0, 6), (1, 2), (1, 5), O");
    for p in ec.points() {
        assert!(ec.is_on_curve(&p));
    }
    assert!(!ec.is_on_curve(&pt(0, 2)));
    assert!(ec.is_on_curve(&pt(7, 8)));
    assert!(ec.is_on_curve(&pt(-7, -1)));
    assert!(ec.is_on_curve(&ECPoint::infinity()));
    assert!(ECPoint::infinity().is_infinity());
    assert!(!pt(0, 1).is_infinity());
    assert_eq!(ec.canonicalize(&pt(15, -1)).to_string(), "(1, 6)");
    let ec19 = EllipticCurve::new(&big(2), &big(1), &big(19)).unwrap();
    assert_eq!(ec19.cardinality(), 27);
}

#[test]
fn group_law_on_a_small_curve() {
    let ec = EllipticCurve::new(&big(1), &big(1), &big(5)).unwrap();
    let o = ECPoint::infinity();
    let points = ec.points();
    for p in &points {
        // P + O = P, O + P = P
        assert!(ec.plus(p, &o).unwrap() == *p);
        assert!(ec.plus(&o, p).unwrap() == *p);
        // P + (-P) = O
        let minus = ec.negate(p);
        assert!(ec.is_on_curve(&minus));
        assert!(ec.plus(p, &minus).unwrap().is_infinity());
        // [order(P)] P = O
        let order = ec.point_order(p).unwrap();
        assert!(ec.multiply_scalar(p, &order).unwrap().is_infinity());
        for q in &points {
            let s = ec.plus(p, q).unwrap();
            assert!(ec.is_on_curve(&s));
            assert!(s == ec.plus(q, p).unwrap());
        }
    }
    let p = &points[0];
    for n in -12..12i64 {
        for m in -12..12i64 {
            let np = ec.multiply_scalar(p, &big(n)).unwrap();
            let mp = ec.multiply_scalar(p, &big(m)).unwrap();
            let sum = ec.multiply_scalar(p, &big(n + m)).unwrap();
            assert!(ec.plus(&np, &mp).unwrap() == sum);
        }
    }
}

#[test]
fn addition_formulas() {
    let ec = EllipticCurve::new(&big(1), &big(1), &big(5)).unwrap();
    // doubling: slope (3 x^2 + a) / (2 y)
    assert_eq!(ec.plus(&pt(0, 1), &pt(0, 1)).unwrap().to_string(), "(4, 2)");
    // chord: slope (y2 - y1) / (x2 - x1)
    assert_eq!(ec.plus(&pt(0, 1), &pt(2, 1)).unwrap().to_string(), "(3, 4)");
    assert_eq!(ec.plus(&pt(0, 1), &pt(0, 4)).unwrap().to_string(), "O");
    assert_eq!(ec.plus(&pt(5, 6), &pt(2, 1)).unwrap().to_string(), "(3, 4)");
    assert_eq!(ec.plus(&pt(0, 2), &pt(2, 1)).err(), Some(Error::DomainError));
    assert_eq!(ec.plus(&pt(2, 1), &pt(0, 2)).err(), Some(Error::DomainError));
    assert_eq!(ec.negate(&pt(0, 1)).to_string(), "(0, 4)");
    assert_eq!(ec.negate(&ECPoint::infinity()).to_string(), "O");
    assert_eq!(ec.multiply_scalar(&pt(0, 1), &big(0)).unwrap().to_string(), "O");
    assert_eq!(ec.multiply_scalar(&pt(0, 1), &big(1)).unwrap().to_string(), "(0, 1)");
    assert_eq!(ec.multiply_scalar(&pt(0, 1), &big(2)).unwrap().to_string(), "(4, 2)");
    assert_eq!(ec.multiply_scalar(&pt(0, 1), &big(-2)).unwrap().to_string(), "(4, 3)");
    assert_eq!(ec.multiply_scalar(&pt(0, 1), &big(9)).unwrap().to_string(), "O");
    assert_eq!(ec.multiply_scalar(&pt(0, 2), &big(3)).err(), Some(Error::DomainError));
    assert_eq!(ec.point_order(&pt(0, 2)).err(), Some(Error::DomainError));
}

#[test]
fn singular_curve_has_no_j_invariant() {
    // 4 a^3 + 27 b^2 = 0 (mod 31) for a = 1, b = 1
    let ec = EllipticCurve::new_raw(&big(1), &big(1), &big(31)).unwrap();
    assert_eq!(ec.j_invariant().err(), Some(Error::NonInvertible));
    assert_eq!(ec.to_string().err(), Some(Error::NonInvertible));
    let ok = EllipticCurve::new_raw(&big(1), &big(7), &big(23)).unwrap();
    assert_eq!(ok.j_invariant().unwrap(), big(18));
}

#[test]
fn isogeny_test2() {
    let ec = EllipticCurve::new(&big(1811), &big(315), &big(2003)).unwrap();
    println!("{}", ec.to_string().unwrap());

    let points2 = ec.division_points(&big(2)).unwrap();
    assert_eq!(points2.to_string(), "(1164, 0), (1222, 0), (1620, 0), O");

    let points3 = ec.division_points(&big(3)).unwrap();
    assert_eq!(points3.to_string(), "(102, 120), (102, 1883), O");

    let points4 = ec.division_points(&big(4)).unwrap();
    assert_eq!(points4.to_string(), "(1164, 0), (1222, 0), (1620, 0), O");
}

#[test]
fn sums_of_points_lie_on_the_curve() {
    let ec = EllipticCurve::new(&big(3), &big(8), &big(13)).unwrap();
    let points = ec.points();
    for p in &points {
        for q in &points {
            let s = ec.plus(p, q).unwrap();
            assert!(ec.is_on_curve(&s));
            // the sum is one of the listed points
            assert!(points.iter().any(|r| *r == s));
        }
    }
    // every listed point is listed once
    for i in 0..points.len() {
        for j in 0..i {
            assert!(points[i] != points[j]);
        }
    }
}
