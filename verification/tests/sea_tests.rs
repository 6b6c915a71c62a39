use num_bigint::BigInt;
use schoof::elliptic_curve::EllipticCurve;
use schoof::error::Error;
use schoof::schoof_elkies_atkins::sea;
use schoof::secp256k1::Secp256k1;

#[test]
fn sea_test1() {
    let p = BigInt::from(23);
    let ec = EllipticCurve::new(&BigInt::from(1), &BigInt::from(7), &p).unwrap();
    let l = 3;
    let result = sea(&ec, l).unwrap();
    assert_eq!(result.gcd.to_string(), "x^2 + 4 x + 3");

    assert_eq!(result.gcd.degree_x().unwrap(), BigInt::from(2));
    assert!(result.is_elkies_prime);
    assert_eq!(result.isogeny_j_invariants.len(), 2);
    assert_eq!(result.isogeny_j_invariants[0].to_string(), "20");
    assert_eq!(result.isogeny_j_invariants[1].to_string(), "22");
}

#[test]
fn sea_test2() {
    let p = BigInt::from(131);
    let ec = EllipticCurve::new(&BigInt::from(1), &BigInt::from(23), &p).unwrap();
    let l = 5;
    let result = sea(&ec, l).unwrap();
    assert_eq!(result.gcd.to_string(), "x^2 + 88 x + 49");
    assert_eq!(result.gcd.degree_x().unwrap(), BigInt::from(2));
    assert!(result.is_elkies_prime);
    assert_eq!(result.isogeny_j_invariants.len(), 2);
    assert_eq!(result.isogeny_j_invariants[0].to_string(), "17");
    assert_eq!(result.isogeny_j_invariants[1].to_string(), "26");
}

#[test]
fn sea_degree_and_errors() {
    let ec = EllipticCurve::new(&BigInt::from(1), &BigInt::from(7), &BigInt::from(23)).unwrap();
    let result = sea(&ec, 3).unwrap();
    assert_eq!(result.degree_of_gcd, BigInt::from(2));
    assert_eq!(sea(&ec, 4).err(), Some(Error::DomainError));
    // a singular curve has no j-invariant
    let singular = EllipticCurve::new_raw(&BigInt::from(1), &BigInt::from(1), &BigInt::from(31))
        .unwrap();
    assert_eq!(sea(&singular, 2).err(), Some(Error::NonInvertible));
}

#[test]
fn sea_atkin_prime() {
    // over F_5 the modular equation of level 2 of y^2 = x^3 + x + 1 has no root
    let ec = EllipticCurve::new(&BigInt::from(1), &BigInt::from(1), &BigInt::from(5)).unwrap();
    let result = sea(&ec, 2).unwrap();
    if result.is_elkies_prime {
        assert!(result.degree_of_gcd > BigInt::from(0));
        assert!(!result.isogeny_j_invariants.is_empty());
    } else {
        assert_eq!(result.degree_of_gcd, BigInt::from(0));
        assert!(result.isogeny_j_invariants.is_empty());
    }
}

#[test]
fn secp256k1_test1() {
    let curve = Secp256k1::new();
    let ec = curve.ec;
    let g = curve.g;

    assert!(ec.is_on_curve(&g));

    assert_eq!(ec.multiply_scalar(&g, &1.into()).unwrap().to_string(),
        "(55066263022277343669578718895168534326250603453777594175500187360389116729240, 32670510020758816978083085130507043184471273380659243275938904335757337482424)");
    assert_eq!(ec.multiply_scalar(&g, &2.into()).unwrap().to_string(),
        "(89565891926547004231252920425935692360644145829622209833684329913297188986597, 12158399299693830322967808612713398636155367887041628176798871954788371653930)");
    assert_eq!(ec.multiply_scalar(&g, &3.into()).unwrap().to_string(),
        "(112711660439710606056748659173929673102114977341539408544630613555209775888121, 25583027980570883691656905877401976406448868254816295069919888960541586679410)");
}

#[test]
fn secp256k1_base_point_has_the_known_order() {
    let curve = Secp256k1::new();
    let n: BigInt = "115792089237316195423570985008687907852837564279074904382605163141518161494337"
        .parse()
        .unwrap();
    assert_eq!(
        curve.ec.p.to_string(),
        "115792089237316195423570985008687907853269984665640564039457584007908834671663"
    );
    assert!(curve.ec.multiply_scalar(&curve.g, &n).unwrap().is_infinity());
    let minus = curve.ec.multiply_scalar(&curve.g, &BigInt::from(-1)).unwrap();
    assert!(curve.ec.plus(&curve.g, &minus).unwrap().is_infinity());
}
