use num_bigint::BigInt;
use schoof::bigint::Power;
use schoof::error::Error;
use schoof::polynomial::Polynomial;
use schoof::subscripted_variable::SubscriptedVariable;
use schoof::term::Monomial;
use schoof::term_builder::{TermBuildable, TermBuilder};

#[test]
fn polynmomial_test_zero_one() {
    assert_eq!(Polynomial::one().to_string(), "1");
}

#[test]
fn polynmomial_test() {
    let u1 = TermBuilder::new().xpow(4).ypow(2).build();
    let u2 = TermBuilder::new().coef(3).xpow(2).ypow(4).build();
    assert_eq!(u1.to_string(), "x^4 y^2");
    assert_eq!(u2.to_string(), "3 x^2 y^4");

    let p1 = u1.clone().add(&u2.clone());
    assert_eq!(p1.to_string(), "x^4 y^2 + 3 x^2 y^4");

    let p2 = u1.to_pol();
    let p3 = u2.to_pol();
    let p4 = p2.add(&p3);
    assert_eq!(p4.to_string(), "x^4 y^2 + 3 x^2 y^4");

    let u6 = u1.mul(&u1).unwrap();
    assert_eq!(u6.to_string(), "x^8 y^4");

    let p5 = p1.mul(&p4).unwrap();
    assert_eq!(p5.to_string(), "x^8 y^4 + 6 x^6 y^6 + 9 x^4 y^8");

    // Neg
    let p9 = p1.neg();
    assert_eq!(p9.to_string(), "- x^4 y^2 - 3 x^2 y^4");

    // Sub
    let p10 = p1.sub(&p2);
    assert_eq!(p10.to_string(), "3 x^2 y^4");

    let p11 = p5.sub(&p5);
    assert_eq!(p11.to_string(), "0");

    let u21 = u2.power(3i64).unwrap();
    assert_eq!(u21.to_string(), "27 x^6 y^12");

    // Modulo
    let u33 = TermBuilder::new().coef(37).xpow(2).ypow(4).build();

    let u35 = TermBuilder::new().coef(35).xpow(3).ypow(5).build();

    let u34 = u33.modulo(&BigInt::from(24)).unwrap();
    assert_eq!(u34.to_string(), "13 x^2 y^4");

    let p36 = u33.add(&u35);
    let p37 = p36.modulo(&BigInt::from(6)).unwrap();
    assert_eq!(p37.to_string(), "5 x^3 y^5 + x^2 y^4");

    let p38 = p36.modulo(&BigInt::from(5)).unwrap();
    assert_eq!(p38.to_string(), "2 x^2 y^4");

    // power
    let p39 = p38.power(2i64).unwrap();
    assert_eq!(p39.to_string(), "4 x^4 y^8");

    let p3_39 = p38.power(3i64).unwrap();
    assert_eq!(p3_39.to_string(), "8 x^6 y^12");

    let p40 = p37.power(2i64).unwrap();
    assert_eq!(p40.to_string(), "25 x^6 y^10 + 10 x^5 y^9 + x^4 y^8");

    // reduction
    let u41 = TermBuilder::new().xpow(1).ypow(3).build();
    let p41 = u41.to_pol();
    let p42 = p41.reduction(&BigInt::from(2), &BigInt::from(7));
    assert_eq!(p42.to_string(), "x^4 y + 2 x^2 y + 7 x y");

    let p422 = TermBuilder::new().coef(2).xpow(3).build().to_pol();
    assert_eq!(p422.highest_term_x().to_string(), "2 x^3");

    // rem
    let u43 = TermBuilder::new().coef(3).xpow(4).build();
    let u44 = TermBuilder::new().coef(2).xpow(1).build();
    let p47 = u43.add(&u44);

    let u45 = TermBuilder::new().coef(2).xpow(2).build();
    let u46 = TermBuilder::new().coef(3).build();
    let p48 = u45.add(&u46);
    assert_eq!(p47.to_string(), "3 x^4 + 2 x");
    assert_eq!(p48.to_string(), "2 x^2 + 3");

    // plynomial_modular
    assert_eq!(p47.polynomial_modular(&p48, &BigInt::from(19)).unwrap().to_string(), "2 x + 2");

    // *=
    let mut p49 = p47.clone();
    p49.mul_assign(&p48).unwrap();
    assert_eq!(p49.to_string(), "6 x^6 + 9 x^4 + 4 x^3 + 6 x");

    // -=
    let mut p80 = TermBuilder::new().coef(6).xpow(6).build().add(&TermBuilder::new().coef(12).xpow(4).build());
    let p81 = TermBuilder::new().coef(2).xpow(6).build().to_pol();
    p80.sub_assign(&p81);
    assert_eq!(p80.to_string(), "4 x^6 + 12 x^4");

    // /=
    let u50 = TermBuilder::new().coef(6).xpow(6).build();
    let u51 = TermBuilder::new().coef(12).xpow(4).build();
    let u52 = TermBuilder::new().coef(3).xpow(2).build();
    let mut p50 = u50.add(&u51);
    let p51 = u52.to_pol();
    p50.div_assign(&p51).unwrap();
    assert_eq!(p50.to_string(), "2 x^4 + 4 x^2");
}

#[test]
fn polynomial_minus_power_test() {
    assert_eq!(TermBuilder::new().xpow(-4).build().to_pol().to_string(), "x^-4");
    let u = TermBuilder::new()
        .coef(3)
        .xpow(-4)
        .build()
        .to_pol()
        .add(&TermBuilder::new().coef(4).xpow(-1).build().to_pol());
    assert_eq!(u.to_string(), "4 x^-1 + 3 x^-4");
}

#[test]
fn polynomial_x_polynomial_test1() {
    let a = TermBuilder::new().coef(2).qpow(-1).build().to_pol();
    let b = TermBuilder::new().coef(3).qpow(2).build().to_pol();
    let qpol = a.add(&b);
    assert_eq!(qpol.to_string(), "3 q^2 + 2 q^-1");

    let m = Monomial {
        xpow: BigInt::from(2),
        ypow: BigInt::from(3),
        qpow: BigInt::from(4),
        variable: SubscriptedVariable { i: 1, j: 2, empty: false },
    };
    let t = m.eval_x_polynomial(&qpol).unwrap();
    assert_eq!(t.to_string(), "9 y^3 q^8 c_1_2 + 12 y^3 q^5 c_1_2 + 4 y^3 q^2 c_1_2");
}

#[test]
fn polynomial_y_polynomial_test1() {
    let a = TermBuilder::new().coef(-3).qpow(-1).build().to_pol();
    let b = TermBuilder::new().coef(2).qpow(2).build().to_pol();
    let qpol = a.add(&b);
    assert_eq!(qpol.to_string(), "2 q^2 - 3 q^-1");

    let m = Monomial {
        xpow: BigInt::from(2),
        ypow: BigInt::from(3),
        qpow: BigInt::from(4),
        variable: SubscriptedVariable { i: 1, j: 2, empty: false },
    };
    let t = m.eval_y_polynomial(&qpol).unwrap();
    assert_eq!(
        t.to_string(),
        "8 x^2 q^10 c_1_2 - 36 x^2 q^7 c_1_2 + 54 x^2 q^4 c_1_2 - 27 x^2 q c_1_2"
    );
}

#[test]
fn polynomial_y_polynomial_test2() {
    let a = TermBuilder::new().coef(-3).qpow(-1).build().to_pol();
    let b = TermBuilder::new().coef(2).qpow(2).build().to_pol();
    let qpol = a.add(&b);
    assert_eq!(qpol.to_string(), "2 q^2 - 3 q^-1");

    let pol = TermBuilder::new()
        .coef(2)
        .xpow(2)
        .ypow(3)
        .qpow(4)
        .variable(SubscriptedVariable { i: 1, j: 2, empty: false })
        .build()
        .add(
            &TermBuilder::new()
                .coef(3)
                .xpow(1)
                .ypow(1)
                .qpow(4)
                .variable(SubscriptedVariable { i: 0, j: 0, empty: false })
                .build(),
        );
    let t = pol.eval_y_polynomial(&qpol).unwrap();
    assert_eq!(t.to_string(), "16 x^2 q^10 c_1_2 - 72 x^2 q^7 c_1_2 + 108 x^2 q^4 c_1_2 - 54 x^2 q c_1_2 + 6 x q^6 c_0_0 - 9 x q^3 c_0_0");
}

#[test]
fn polynomial_zero_power() {
    let qpol = TermBuilder::new().qpow(-1).build().to_pol();
    assert_eq!(qpol.power(0i64).unwrap().to_string(), "1");
}

#[test]
fn polynomial_x_polynomial_test3() {
    let pol = TermBuilder::new().xpow(3).build().add(&TermBuilder::new().ypow(3).build());
    assert_eq!(pol.to_string(), "x^3 + y^3");
    let qpol = TermBuilder::new().qpow(-1).build().to_pol();
    assert_eq!(pol.eval_x_polynomial(&qpol).unwrap().to_string(), "y^3 + q^-3");
}

#[test]
fn polynomial_x_polynomial_test4() {
    let pol = TermBuilder::new()
        .xpow(3)
        .build()
        .add(&TermBuilder::new().ypow(3).build())
        .add(&TermBuilder::new().coef(-1).xpow(2).ypow(2).build().to_pol())
        .add(&TermBuilder::new().coef(-1).xpow(1).ypow(1).build().to_pol());
    assert_eq!(pol.to_string(), "x^3 - x^2 y^2 - x y + y^3");
    let j = TermBuilder::new().qpow(-1).build().to_pol();
    let j2 = TermBuilder::new().qpow(-2).build().to_pol();
    let p1 = pol.eval_x_polynomial(&j).unwrap();
    assert_eq!(p1.to_string(), "y^3 - y^2 q^-2 - y q^-1 + q^-3");
    let p2 = p1.eval_y_polynomial(&j2).unwrap();
    assert_eq!(p2.to_string(), "0");
}

#[test]
fn power_omit_high_order_q_test1() {
    let pol = TermBuilder::new().build().add(&TermBuilder::new().qpow(1).build());
    assert_eq!(pol.power_omit_high_order_q(24, 1).unwrap().to_string(), "24 q + 1");
}

#[test]
fn isogeny_test() {
    let a = BigInt::from(1132);
    let b = BigInt::from(278);
    let pp = BigInt::from(2003);

    let e1 = TermBuilder::new().ypow(2).build().to_pol();

    let p = TermBuilder::new()
        .xpow(2)
        .build()
        .add(&TermBuilder::new().coef(301).xpow(1).build())
        .add(&TermBuilder::new().coef(527).build().to_pol());

    let q = TermBuilder::new().xpow(1).build().add(&TermBuilder::new().coef(301).build());

    let r = TermBuilder::new()
        .xpow(2)
        .build()
        .add(&TermBuilder::new().coef(602).xpow(1).build())
        .add(&TermBuilder::new().coef(1942).build().to_pol());

    let s = TermBuilder::new()
        .xpow(2)
        .build()
        .add(&TermBuilder::new().coef(602).xpow(1).build())
        .add(&TermBuilder::new().coef(466).build().to_pol());

    let r2 = r.power(2i64).unwrap();
    let q2 = q.power(2i64).unwrap();
    let q3 = q.power(3i64).unwrap();
    let p3 = p.power(3i64).unwrap();
    let s2 = s.power(2i64).unwrap();
    let c500 = TermBuilder::new().coef(500).build().to_pol();
    let c1005 = TermBuilder::new().coef(1005).build().to_pol();
    let sum = e1
        .mul(&r2)
        .unwrap()
        .mul(&q3)
        .unwrap()
        .sub(&p3.mul(&s2).unwrap())
        .sub(&c500.mul(&p).unwrap().mul(&s2).unwrap().mul(&q2).unwrap())
        .sub(&c1005.mul(&s2).unwrap().mul(&q3).unwrap());
    let sum = sum.reduction_modular(&a, &b, &pp).unwrap();
    assert_eq!(sum.to_string(), "0");
}

#[test]
fn derivative_test() {
    let p = TermBuilder::new()
        .coef(4)
        .xpow(6)
        .ypow(3)
        .qpow(3)
        .build()
        .add(&TermBuilder::new().coef(2).xpow(5).ypow(2).build());
    assert_eq!(p.to_string(), "4 x^6 y^3 q^3 + 2 x^5 y^2");
    assert_eq!(p.derivative_x().unwrap().to_string(), "24 x^5 y^3 q^3 + 10 x^4 y^2");
    assert_eq!(p.derivative_y().unwrap().to_string(), "12 x^6 y^2 q^3 + 4 x^5 y");
}

fn poly(terms: &[(i64, i64, i64)]) -> Polynomial {
    let mut p = Polynomial::new();
    for (c, x, y) in terms {
        p.add_term(TermBuilder::new().coef(BigInt::from(*c)).xpow(*x).ypow(*y).build());
    }
    p
}

#[test]
fn addition_drops_zero_terms() {
    let a = poly(&[(3, 2, 0), (5, 1, 1), (-2, 0, 0)]);
    let b = poly(&[(-3, 2, 0), (1, 1, 1), (2, 0, 0), (7, 0, 3)]);
    let s = a.add(&b);
    assert_eq!(s.to_string(), "6 x y + 7 y^3");
    assert_eq!(s.len(), 2);
    assert!(a.sub(&a).is_zero());
    assert!(Polynomial::zero().is_zero());
    assert!(a.add(&Polynomial::new()) == a);
    let mut c = a.clone();
    c.add_assign(&b);
    assert!(c == s);
}

#[test]
fn multiplication_drops_zero_terms() {
    let a = poly(&[(1, 1, 0), (1, 0, 1)]);
    let b = poly(&[(1, 1, 0), (-1, 0, 1)]);
    assert_eq!(a.mul(&b).unwrap().to_string(), "x^2 - y^2");
    assert!(a.mul(&Polynomial::new()).unwrap().is_zero());
    assert!(a.mul(&Polynomial::one()).unwrap() == a);
    let v = TermBuilder::new().variable_ij(0, 1).build().to_pol();
    assert_eq!(v.mul(&v).err(), Some(Error::VariableProduct));
    assert_eq!(v.mul(&a).unwrap().to_string(), "x c_0_1 + y c_0_1");
    let mut w = v.clone();
    assert_eq!(w.mul_assign(&v), Err(Error::VariableProduct));
    assert!(w == v);
}

#[test]
fn division_by_one_term() {
    let a = poly(&[(6, 6, 0), (13, 4, 1), (1, 0, 0)]);
    let d = poly(&[(3, 2, 0)]);
    assert_eq!(a.div(&d).unwrap().to_string(), "2 x^4 + 4 x^2 y");
    assert_eq!(a.div(&Polynomial::new()).err(), Some(Error::DomainError));
    assert_eq!(a.div(&a).err(), Some(Error::NonMonomialDivision));
    let v = TermBuilder::new().variable_ij(0, 1).build().to_pol();
    assert_eq!(a.div(&v).err(), Some(Error::DomainError));
    let mut b = a.clone();
    assert_eq!(b.div_assign(&a), Err(Error::NonMonomialDivision));
    assert!(b == a);
}

#[test]
fn modulo_reduces_into_range() {
    let a = poly(&[(-1, 3, 0), (14, 1, 0), (9, 0, 0)]);
    assert_eq!(a.modulo(&BigInt::from(7)).unwrap().to_string(), "6 x^3 + 2");
    assert_eq!(a.modulo(&BigInt::from(1)).err(), Some(Error::DomainError));
    assert_eq!(a.modulo(&BigInt::from(-7)).err(), Some(Error::DomainError));
    let mut b = a.clone();
    assert_eq!(b.modular_assign(&BigInt::from(0)), Err(Error::DomainError));
    assert!(b == a);
    assert_eq!(b.modular_assign(&BigInt::from(2)), Ok(()));
    assert_eq!(b.to_string(), "x^3 + 1");
}

#[test]
fn modulo_commutes_with_ring_operations() {
    let p = BigInt::from(7);
    let a = poly(&[(10, 3, 1), (-15, 1, 0), (9, 0, 0), (7, 0, 2)]);
    let b = poly(&[(4, 3, 1), (22, 1, 0), (-2, 0, 0), (3, 2, 2)]);
    let am = a.modulo(&p).unwrap();
    let bm = b.modulo(&p).unwrap();
    assert!(a.add(&b).modulo(&p).unwrap() == am.add(&bm).modulo(&p).unwrap());
    assert!(a.sub(&b).modulo(&p).unwrap() == am.sub(&bm).modulo(&p).unwrap());
    assert!(
        a.mul(&b).unwrap().modulo(&p).unwrap() == am.mul(&bm).unwrap().modulo(&p).unwrap()
    );
}

#[test]
fn power_modulo_agrees_with_power() {
    let a = poly(&[(3, 2, 1), (-5, 1, 0), (11, 0, 0)]);
    for p in [2i64, 5, 7, 13] {
        for n in 0..7i64 {
            let lhs = a.power(n).unwrap().modulo(&BigInt::from(p)).unwrap();
            let rhs = a.power_modulo(&BigInt::from(n), &BigInt::from(p)).unwrap();
            assert!(lhs == rhs);
        }
    }
    assert_eq!(a.power_modulo(&BigInt::from(0), &BigInt::from(5)).unwrap().to_string(), "1");
    assert_eq!(a.power_modulo(&BigInt::from(-1), &BigInt::from(5)).err(), Some(Error::DomainError));
    assert_eq!(a.power_modulo(&BigInt::from(2), &BigInt::from(1)).err(), Some(Error::DomainError));
    assert_eq!(a.power(-1i64).err(), Some(Error::DomainError));
    assert_eq!(a.square().unwrap() == a.mul(&a).unwrap(), true);
    assert_eq!(a.cube().unwrap() == a.mul(&a).unwrap().mul(&a).unwrap(), true);
    assert_eq!(
        a.power(BigInt::from(2)).unwrap().to_string(),
        "9 x^4 y^2 - 30 x^3 y + 66 x^2 y + 25 x^2 - 110 x + 121"
    );
}

#[test]
fn long_division_and_gcd() {
    let p = BigInt::from(7);
    // (x - 1)(x - 2)(x - 3) and (x - 2)(x - 3)(x - 4)
    let f = poly(&[(1, 3, 0), (-6, 2, 0), (11, 1, 0), (-6, 0, 0)]);
    let g = poly(&[(1, 3, 0), (-9, 2, 0), (26, 1, 0), (-24, 0, 0)]);
    assert_eq!(f.gcd(&g, &p).unwrap().to_string(), "x^2 + 2 x + 6");
    assert_eq!(g.gcd(&f, &p).unwrap().to_string(), "x^2 + 2 x + 6");
    assert_eq!(f.is_gcd_one(&g, &p), Ok(false));
    let h = poly(&[(1, 1, 0), (-5, 0, 0)]);
    assert_eq!(f.gcd(&h, &p).unwrap().to_string(), "1");
    assert_eq!(f.is_gcd_one(&h, &p), Ok(true));
    assert_eq!(h.is_gcd_one(&f, &p), Ok(true));
    assert_eq!(f.polynomial_modular(&h, &p).unwrap().to_string(), "3");
    assert_eq!(h.polynomial_modular(&f, &p).unwrap().to_string(), "x + 2");
    assert_eq!(f.polynomial_modular(&f, &p).unwrap().to_string(), "0");
    let c = poly(&[(3, 0, 0)]);
    assert_eq!(f.polynomial_modular(&c, &p).unwrap().to_string(), "0");
    assert_eq!(f.gcd(&c, &p).unwrap().to_string(), "1");
}

#[test]
fn long_division_rejects() {
    let p = BigInt::from(7);
    let f = poly(&[(1, 3, 0), (1, 0, 0)]);
    let y = poly(&[(1, 1, 1), (1, 0, 0)]);
    let q = TermBuilder::new().qpow(1).build().to_pol();
    let v = TermBuilder::new().variable_ij(0, 1).build().to_pol();
    let n = TermBuilder::new().xpow(-1).build().to_pol();
    assert_eq!(f.polynomial_modular(&y, &p).err(), Some(Error::NotUnivariate));
    assert_eq!(y.polynomial_modular(&f, &p).err(), Some(Error::NotUnivariate));
    assert_eq!(f.polynomial_modular(&q, &p).err(), Some(Error::NotUnivariate));
    assert_eq!(f.polynomial_modular(&v, &p).err(), Some(Error::NotUnivariate));
    assert_eq!(f.gcd(&y, &p).err(), Some(Error::NotUnivariate));
    assert_eq!(f.polynomial_modular(&n, &p).err(), Some(Error::DomainError));
    assert_eq!(f.polynomial_modular(&Polynomial::new(), &p).err(), Some(Error::DomainError));
    assert_eq!(f.polynomial_modular(&f, &BigInt::from(1)).err(), Some(Error::DomainError));
    let g = poly(&[(7, 2, 0), (1, 0, 0)]);
    assert_eq!(f.polynomial_modular(&g, &p).err(), Some(Error::NonInvertible));
    assert_eq!(f.is_gcd_one(&y, &p), Err(Error::NotUnivariate));
}

#[test]
fn to_monic_has_leading_coefficient_one() {
    let p = BigInt::from(11);
    let f = poly(&[(5, 3, 0), (3, 1, 0), (7, 0, 0)]);
    let m = f.to_monic(&p).unwrap();
    assert_eq!(m.to_string(), "x^3 + 5 x + 8");
    assert_eq!(m.highest_term_x().coef, BigInt::from(1));
    assert!(Polynomial::new().to_monic(&p).unwrap().is_zero());
    let g = poly(&[(22, 3, 0), (1, 0, 0)]);
    assert_eq!(g.to_monic(&p).err(), Some(Error::NonInvertible));
    assert_eq!(f.to_monic(&BigInt::from(0)).err(), Some(Error::DomainError));
}

#[test]
fn substitutions() {
    let a = poly(&[(2, 3, 1), (5, 1, 2), (1, 0, 0)]);
    assert_eq!(a.to_frob(&BigInt::from(3)).to_string(), "2 x^9 y^3 + 5 x^3 y^6 + 1");
    assert_eq!(a.to_y_power(&BigInt::from(2)).to_string(), "2 x^3 y^2 + 5 x y^4 + 1");
    assert_eq!(a.to_frob(&BigInt::from(0)).to_string(), "8");
    let q = TermBuilder::new().coef(3).qpow(2).build().add(&TermBuilder::new().qpow(-1).build());
    assert_eq!(q.to_q_power(3).to_string(), "3 q^6 + q^-3");
}

#[test]
fn curve_reduction() {
    let a = BigInt::from(2);
    let b = BigInt::from(7);
    let f = poly(&[(1, 0, 5), (3, 1, 2), (4, 0, 1), (1, 2, 0)]);
    // y^5 = y (x^3+2x+7)^2, 3 x y^2 = 3x (x^3+2x+7)
    assert_eq!(
        f.reduction(&a, &b).to_string(),
        "x^6 y + 4 x^4 y + 3 x^4 + 14 x^3 y + 4 x^2 y + 7 x^2 + 28 x y + 21 x + 53 y"
    );
    assert_eq!(
        f.reduction_modular(&a, &b, &BigInt::from(5)).unwrap().to_string(),
        "x^6 y + 4 x^4 y + 3 x^4 + 4 x^3 y + 4 x^2 y + 2 x^2 + 3 x y + x + 3 y"
    );
    assert_eq!(f.reduction_modular(&a, &b, &BigInt::from(1)).err(), Some(Error::DomainError));
    let g = poly(&[(1, 1, 1), (2, 0, 0)]);
    assert!(g.reduction(&a, &b) == g);
}

#[test]
fn evaluation() {
    let f = poly(&[(2, 3, 1), (5, 1, 2), (1, 0, 0)]);
    assert_eq!(f.eval_xy(&BigInt::from(2), &BigInt::from(3)).unwrap(), BigInt::from(48 + 90 + 1));
    assert_eq!(f.eval_x(&BigInt::from(2)).unwrap().to_string(), "10 y^2 + 16 y + 1");
    assert_eq!(f.eval_y(&BigInt::from(-1)).unwrap().to_string(), "- 2 x^3 + 5 x + 1");
    let n = TermBuilder::new().xpow(-1).build().to_pol();
    assert_eq!(n.eval_xy(&BigInt::from(2), &BigInt::from(3)).err(), Some(Error::DomainError));
    assert_eq!(n.eval_x(&BigInt::from(2)).err(), Some(Error::DomainError));
    assert_eq!(n.eval_y(&BigInt::from(2)).unwrap().to_string(), "x^-1");
    assert_eq!(poly(&[(9, 0, 0)]).to_scalar().unwrap(), BigInt::from(9));
    assert_eq!(Polynomial::new().to_scalar().unwrap(), BigInt::from(0));
    assert_eq!(f.to_scalar().err(), Some(Error::DomainError));
    assert_eq!(poly(&[(9, 1, 0)]).to_scalar().err(), Some(Error::DomainError));
    assert_eq!(poly(&[(9, 4, 0), (1, 0, 0)]).degree_x().unwrap(), BigInt::from(4));
    assert_eq!(Polynomial::new().degree_x().unwrap(), BigInt::from(0));
    assert_eq!(f.degree_x().err(), Some(Error::NotUnivariate));
}

#[test]
fn series_coefficients() {
    let s = TermBuilder::new()
        .coef(3)
        .qpow(2)
        .variable_ij(1, 2)
        .build()
        .add(&TermBuilder::new().coef(5).qpow(2).build())
        .add(&TermBuilder::new().coef(7).qpow(-1).variable_ij(0, 0).build().to_pol())
        .add(&TermBuilder::new().coef(9).qpow(4).build().to_pol());
    assert_eq!(s.omit_high_order_q(2).unwrap().to_string(), "3 q^2 c_1_2 + 5 q^2 + 7 q^-1 c_0_0");
    let c2 = s.to_q_power_coef(&BigInt::from(2)).unwrap();
    assert_eq!(c2.to_string(), "3 c_1_2 + 5");
    assert_eq!(
        c2.to_variable_coef(SubscriptedVariable { i: 1, j: 2, empty: false }).unwrap(),
        BigInt::from(3)
    );
    assert_eq!(c2.to_variable_coef(SubscriptedVariable::new()).unwrap(), BigInt::from(5));
    assert_eq!(
        c2.to_variable_coef(SubscriptedVariable { i: 0, j: 0, empty: false }).unwrap(),
        BigInt::from(0)
    );
    assert_eq!(
        s.to_variable_coef(SubscriptedVariable::new()).err(),
        Some(Error::DomainError)
    );
    let x = TermBuilder::new().xpow(1).build().to_pol();
    assert_eq!(x.omit_high_order_q(2).err(), Some(Error::DomainError));
    assert_eq!(x.to_q_power_coef(&BigInt::from(0)).err(), Some(Error::DomainError));
    assert!(s.has_q() && s.has_variable() && !s.has_x() && !s.has_y());
    assert!(!s.has_negative_x() && !s.has_negative_y());
}

#[test]
fn text_of_polynomials() {
    assert_eq!(Polynomial::new().to_string(), "0");
    assert_eq!(poly(&[(-1, 2, 0), (1, 1, 0), (-1, 0, 0)]).to_string(), "- x^2 + x - 1");
    assert_eq!(poly(&[(3, 4, 2), (2, 1, 0)]).to_string(), "3 x^4 y^2 + 2 x");
}

#[test]
fn multiplication_is_associative() {
    let a = poly(&[(3, 2, 1), (-5, 1, 0), (11, 0, 0)]);
    let b = poly(&[(1, 1, 1), (2, 0, 3)]);
    let c = poly(&[(7, 4, 0), (-1, 0, 0), (1, 0, 1)]);
    let left = a.mul(&b).unwrap().mul(&c).unwrap();
    let right = a.mul(&b.mul(&c).unwrap()).unwrap();
    assert!(left == right);
    assert!(Polynomial::one().mul(&a).unwrap() == a);
    // the power is the repeated product
    let mut product = Polynomial::one();
    for n in 0..6i64 {
        assert!(a.power(n).unwrap() == product);
        product = product.mul(&a).unwrap();
    }
}

#[test]
fn gcd_over_a_prime_field_is_monic() {
    let p = BigInt::from(13);
    let f = poly(&[(5, 4, 0), (3, 2, 0), (7, 1, 0), (2, 0, 0)]);
    let g = poly(&[(11, 3, 0), (1, 1, 0), (6, 0, 0)]);
    let d = f.gcd(&g, &p).unwrap();
    assert_eq!(d.highest_term_x().coef, BigInt::from(1));
    let r = f.polynomial_modular(&g, &p).unwrap();
    assert!(r.is_zero() || r.degree_x().unwrap() < g.degree_x().unwrap());
    for i in 0..r.len() {
        assert!(r.term(i).coef > BigInt::from(0) && r.term(i).coef < p);
    }
}
