use num_bigint::BigInt;
use std::cmp::Ordering;
use schoof::bigint::Power;
use schoof::error::Error;
use schoof::subscripted_variable::{SubscriptedVariable, SubscriptedVariableConverter};
use schoof::term::{Monomial, Term};
use schoof::term_builder::{TermBuildable, TermBuilder};

#[test]
fn term_unit_test() {
    let u0: Term = Default::default();
    assert_eq!(u0.to_string(), "0");

    let u1 = Term { coef: BigInt::from(3), ..Default::default() };
    assert_eq!(u1.to_string(), "3");

    let u2 = Term { coef: BigInt::from(4), ..Default::default() };
    let u3 = Term { coef: BigInt::from(3), ..Default::default() };
    assert_eq!(u2.clone().mul(&u3.clone()).unwrap().to_string(), "12");
    assert_eq!(u2.mul(&u3).unwrap().to_string(), "12");
    assert_eq!(
        TermBuilder::new().coef(20).xpow(1).build().modulo(&BigInt::from(19)).unwrap().to_string(),
        "x"
    );

    let u11 = TermBuilder::new().coef(1).xpow(4).ypow(2).build();
    let u8 = u11.neg();
    assert_eq!(u8.to_string(), "- x^4 y^2");
}

#[test]
fn subscripted_variable_test1() {
    let t1 = TermBuilder::new().variable_ij(2, 3).build().to_pol();
    assert_eq!(t1.to_string(), "c_2_3");

    let t2 = TermBuilder::new().coef(45).variable_ij(7, 8).build().to_pol();
    assert_eq!(t2.to_string(), "45 c_7_8");

    let t3 = TermBuilder::new().coef(671).variable_ij(19, 21).xpow(5).build().to_pol();
    assert_eq!(t3.to_string(), "671 x^5 c_19_21");

    let t4 = t1.add(&t2).add(&t3);
    assert_eq!(t4.to_string(), "671 x^5 c_19_21 + 45 c_7_8 + c_2_3");
}

#[test]
fn subscripted_converter_test1() {
    let converter = SubscriptedVariableConverter::new(3).unwrap();
    assert_eq!(converter.count(), 10);

    assert_eq!(converter.variable_from_index(0).to_string(), "c_0_1");
    assert_eq!(converter.variable_from_index(1).to_string(), "c_0_2");
    assert_eq!(converter.variable_from_index(2).to_string(), "c_0_3");
    assert_eq!(converter.variable_from_index(3).to_string(), "c_1_2");
    assert_eq!(converter.variable_from_index(4).to_string(), "c_1_3");
    assert_eq!(converter.variable_from_index(5).to_string(), "c_2_3");
    assert_eq!(converter.variable_from_index(6).to_string(), "c_0_0");
    assert_eq!(converter.variable_from_index(7).to_string(), "c_1_1");
    assert_eq!(converter.variable_from_index(8).to_string(), "c_2_2");
    assert_eq!(converter.variable_from_index(9).to_string(), "c_3_3");

    let v5 = converter.index_from_variable(SubscriptedVariable { i: 2, j: 3, empty: false });
    match v5 {
        Some(n) => {
            assert_eq!(n, 5);
        }
        None => {
            assert!(false);
        }
    }
}

#[test]
fn converter_is_a_bijection() {
    for p in [2i64, 3, 5, 7, 11] {
        let converter = SubscriptedVariableConverter::new(p).unwrap();
        let count = converter.count();
        assert_eq!(count as i64, p * (p + 1) / 2 + p + 1);
        for index in 0..count {
            let v = converter.variable_from_index(index);
            assert!(!v.empty);
            assert!(0 <= v.i && v.i <= v.j && v.j <= p);
            assert_eq!(converter.index_from_variable(v), Some(index));
        }
    }
}

#[test]
fn converter_rejects() {
    assert_eq!(SubscriptedVariableConverter::new(1).err(), Some(Error::DomainError));
    assert_eq!(SubscriptedVariableConverter::new(4).err(), Some(Error::DomainError));
    assert_eq!(SubscriptedVariableConverter::new(-3).err(), Some(Error::DomainError));
    assert_eq!(SubscriptedVariableConverter::new(0x1_0000_000F).err(), Some(Error::DomainError));
    let converter = SubscriptedVariableConverter::new(5).unwrap();
    assert_eq!(converter.index_from_variable(SubscriptedVariable::new()), None);
    assert_eq!(converter.index_from_variable(SubscriptedVariable { i: 3, j: 2, empty: false }), None);
    assert_eq!(converter.index_from_variable(SubscriptedVariable { i: 2, j: 6, empty: false }), None);
    assert_eq!(converter.index_from_variable(SubscriptedVariable { i: -1, j: 2, empty: false }), None);
}

#[test]
fn subscripted_variable_order_and_equality() {
    let e1 = SubscriptedVariable::new();
    let e2 = SubscriptedVariable { i: 4, j: 5, empty: true };
    let a = SubscriptedVariable { i: 1, j: 2, empty: false };
    let b = SubscriptedVariable { i: 1, j: 3, empty: false };
    let c = SubscriptedVariable { i: 2, j: 0, empty: false };
    assert!(e1 == e2);
    assert!(e1 != a);
    assert!(a != b);
    assert!(e1.precedes(&a));
    assert!(!a.precedes(&e1));
    assert!(!e1.precedes(&e2));
    assert!(a.precedes(&b));
    assert!(b.precedes(&c));
    assert!(!c.precedes(&a));
    assert_eq!(e2.to_string(), "");
    assert_eq!(SubscriptedVariable::default().to_string(), "");
}

#[test]
fn term_text_forms() {
    assert_eq!(TermBuilder::new().build().to_string(), "1");
    assert_eq!(TermBuilder::new().coef(-1).build().to_string(), "- 1");
    assert_eq!(TermBuilder::new().coef(-1).variable_ij(1, 2).build().to_string(), "- c_1_2");
    assert_eq!(TermBuilder::new().coef(-7).build().to_string(), "- 7");
    assert_eq!(TermBuilder::new().coef(-7).xpow(1).ypow(1).qpow(1).build().to_string(), "- 7 x y q");
    assert_eq!(TermBuilder::new().xpow(2).qpow(-3).build().to_string(), "x^2 q^-3");
    assert_eq!(TermBuilder::new().coef(0).xpow(2).build().to_string(), "0 x^2");
    assert_eq!(
        TermBuilder::new().coef(&BigInt::from(12)).ypow(10).variable_ij(0, 0).build().to_string(),
        "12 y^10 c_0_0"
    );
    assert_eq!(TermBuilder::new().coef(BigInt::from(5)).qpow(1).build().to_string(), "5 q");
}

#[test]
fn term_products_and_quotients() {
    let a = TermBuilder::new().coef(6).xpow(3).ypow(1).variable_ij(1, 2).build();
    let b = TermBuilder::new().coef(-4).xpow(1).qpow(2).build();
    assert_eq!(a.mul(&b).unwrap().to_string(), "- 24 x^4 y q^2 c_1_2");
    assert_eq!(b.mul(&a).unwrap().to_string(), "- 24 x^4 y q^2 c_1_2");
    assert_eq!(a.mul(&a).err(), Some(Error::VariableProduct));
    assert_eq!(a.div(&b).unwrap().to_string(), "- 2 x^2 y q^-2 c_1_2");
    assert_eq!(b.div(&a).err(), Some(Error::DomainError));
    let zero = TermBuilder::new().coef(0).build();
    assert_eq!(a.div(&zero).err(), Some(Error::DomainError));
    let seven = TermBuilder::new().coef(7).build();
    let two = TermBuilder::new().coef(-2).build();
    assert_eq!(seven.div(&two).unwrap().to_string(), "- 4");
}

#[test]
fn term_powers() {
    let t = TermBuilder::new().coef(3).xpow(2).ypow(4).build();
    assert_eq!(t.power(3i64).unwrap().to_string(), "27 x^6 y^12");
    assert_eq!(t.power(&BigInt::from(0)).unwrap().to_string(), "1");
    assert_eq!(t.power(BigInt::from(2)).unwrap().to_string(), "9 x^4 y^8");
    assert_eq!(t.power(-1i64).err(), Some(Error::DomainError));
    let v = TermBuilder::new().variable_ij(1, 1).build();
    assert_eq!(v.power(2i64).err(), Some(Error::UnreducedPower));
    assert_eq!(
        t.power_modulo(&BigInt::from(3), &BigInt::from(5)).unwrap().to_string(),
        "2 x^6 y^12"
    );
    assert_eq!(t.power_modulo(&BigInt::from(3), &BigInt::from(1)).err(), Some(Error::DomainError));
    assert_eq!(t.to_frob(&BigInt::from(5)).to_string(), "3 x^10 y^20");
    assert_eq!(t.to_y_power(&BigInt::from(2)).to_string(), "3 x^2 y^8");
    let q = TermBuilder::new().coef(3).qpow(-1).build();
    assert_eq!(q.to_q_power(4).to_string(), "3 q^-4");
}

#[test]
fn term_modulo_and_derivative() {
    let t = TermBuilder::new().coef(-7).xpow(3).ypow(1).build();
    assert_eq!(t.modulo(&BigInt::from(5)).unwrap().to_string(), "3 x^3 y");
    assert_eq!(t.modulo(&BigInt::from(0)).err(), Some(Error::DomainError));
    let mut u = t.clone();
    assert_eq!(u.modular_assign(&BigInt::from(1)), Err(Error::DomainError));
    assert_eq!(u.to_string(), "- 7 x^3 y");
    assert_eq!(u.modular_assign(&BigInt::from(4)), Ok(()));
    assert_eq!(u.to_string(), "x^3 y");
    assert_eq!(t.derivative_x().unwrap().to_string(), "- 21 x^2 y");
    assert_eq!(t.derivative_y().unwrap().to_string(), "- 7 x^3");
    assert_eq!(t.derivative_y().unwrap().derivative_y().unwrap().to_string(), "0");
    let n = TermBuilder::new().xpow(-2).build();
    assert_eq!(n.derivative_x().err(), Some(Error::DomainError));
    assert!(t.has_x() && t.has_y() && !t.has_q());
    assert!(t.is_equal_order(&TermBuilder::new().xpow(3).ypow(1).variable_ij(0, 1).build()));
    assert!(!t.is_equal_order(&TermBuilder::new().xpow(3).build()));
}

#[test]
fn term_evaluation() {
    let t = TermBuilder::new().coef(5).xpow(2).ypow(3).build();
    assert_eq!(t.eval_xy(&BigInt::from(2), &BigInt::from(3)).unwrap(), BigInt::from(5 * 4 * 27));
    assert_eq!(
        t.monomial.eval_xy(&BigInt::from(2), &BigInt::from(3)).unwrap(),
        BigInt::from(4 * 27)
    );
    let m = Monomial {
        xpow: BigInt::from(-1),
        ypow: BigInt::from(0),
        qpow: BigInt::from(3),
        variable: SubscriptedVariable::new(),
    };
    assert_eq!(m.eval_xy(&BigInt::from(2), &BigInt::from(3)).err(), Some(Error::DomainError));
    assert_eq!(m.eval_q(&BigInt::from(2)).unwrap(), BigInt::from(8));
    assert_eq!(m.to_string(), "x^-1 q^3");
}

#[test]
fn term_accessors() {
    let t = TermBuilder::new().coef(5).xpow(2).ypow(3).qpow(4).variable_ij(1, 6).build();
    assert_eq!(*t.xpow(), BigInt::from(2));
    assert_eq!(*t.ypow(), BigInt::from(3));
    assert_eq!(*t.qpow(), BigInt::from(4));
    assert!(t.variable() == SubscriptedVariable { i: 1, j: 6, empty: false });
    assert!(Term::from(&t.monomial, &t.coef) == t);
    assert!(Term::new() == Term::default());
    assert!(Term::new().is_zero());
    assert_eq!(Term::one().to_string(), "1");
    let b = TermBuilder::new()
        .xpow_big(&BigInt::from(7))
        .ypow_big(&BigInt::from(8))
        .qpow_big(&BigInt::from(9))
        .variable(SubscriptedVariable { i: 0, j: 1, empty: false })
        .build();
    assert_eq!(b.to_string(), "x^7 y^8 q^9 c_0_1");
}

#[test]
fn variables_and_monomials_compare() {
    let e = SubscriptedVariable::new();
    let a = SubscriptedVariable { i: 1, j: 2, empty: false };
    let b = SubscriptedVariable { i: 1, j: 3, empty: false };
    assert!(e < a && a < b && b > e);
    assert_eq!(a.partial_cmp(&a), Some(Ordering::Equal));
    assert_eq!(e.partial_cmp(&SubscriptedVariable { i: 9, j: 9, empty: true }), Some(Ordering::Equal));
    let m = |x: i64, y: i64, q: i64, v: SubscriptedVariable| {
        TermBuilder::new().xpow(x).ypow(y).qpow(q).variable(v).build().monomial
    };
    // lexicographic on (x, y, q, variable)
    assert!(m(1, 9, 9, b) < m(2, 0, 0, e));
    assert!(m(1, 1, 9, b) < m(1, 2, 0, e));
    assert!(m(1, 1, 1, b) < m(1, 1, 2, e));
    assert!(m(1, 1, 1, e) < m(1, 1, 1, a));
    assert!(m(1, 1, 1, a) < m(1, 1, 1, b));
    assert!(m(-1, 0, 0, e) < m(0, 0, 0, e));
    assert_eq!(m(1, 1, 1, a).partial_cmp(&m(1, 1, 1, a)), Some(Ordering::Equal));
    assert_eq!(m(2, 1, 1, a).partial_cmp(&m(1, 1, 1, a)), Some(Ordering::Greater));
    assert!(m(1, 1, 1, a).precedes(&m(1, 1, 1, b)));
    assert!(!m(1, 1, 1, b).precedes(&m(1, 1, 1, b)));
}
