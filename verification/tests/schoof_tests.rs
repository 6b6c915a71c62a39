use num_bigint::BigInt;
use schoof::bigint::chinese_remainder;
use schoof::elliptic_curve::EllipticCurve;
use schoof::error::Error;
use schoof::schoof::{curve_order, schoof, square_root_modulo, symmetric};

#[test]
fn schoof_test7() {
    let q = 7;
    let mod_result = schoof(&BigInt::from(2), &BigInt::from(1), q).unwrap();
    assert_eq!(mod_result.len(), 3);
    assert_eq!(mod_result[0].l, BigInt::from(2));
    assert_eq!(mod_result[0].r, BigInt::from(1));
    assert_eq!(mod_result[1].l, BigInt::from(3));
    assert_eq!(mod_result[1].r, BigInt::from(0));
    assert_eq!(mod_result[2].l, BigInt::from(5));
    assert_eq!(mod_result[2].r, BigInt::from(3));

    let result = chinese_remainder(&mod_result);
    assert_eq!(result.r, BigInt::from(3));
    assert_eq!(result.l, BigInt::from(30)); // 2 * 3 * 5
}

#[test]
fn schoof_test19() {
    let q = 19;
    let mod_result = schoof(&BigInt::from(2), &BigInt::from(1), q).unwrap();
    assert_eq!(mod_result.len(), 3);
    assert_eq!(mod_result[0].l, BigInt::from(2));
    assert_eq!(mod_result[0].r, BigInt::from(1));
    assert_eq!(mod_result[1].l, BigInt::from(3));
    assert_eq!(mod_result[1].r, BigInt::from(2));
    assert_eq!(mod_result[2].l, BigInt::from(5));
    assert_eq!(mod_result[2].r, BigInt::from(3));

    let result = chinese_remainder(&mod_result);
    assert_eq!(result.r, BigInt::from(23));
    assert_eq!(result.l, BigInt::from(30)); // 2 * 3 * 5
}

#[test]
fn curve_order_of_the_scenarios() {
    assert_eq!(curve_order(&BigInt::from(2), &BigInt::from(1), 7).unwrap(), BigInt::from(5));
    assert_eq!(curve_order(&BigInt::from(2), &BigInt::from(1), 19).unwrap(), BigInt::from(27));
}

#[test]
fn schoof_rejects_composite_moduli() {
    assert_eq!(schoof(&BigInt::from(2), &BigInt::from(1), 9).err(), Some(Error::DomainError));
    assert_eq!(schoof(&BigInt::from(2), &BigInt::from(1), 1).err(), Some(Error::DomainError));
    assert_eq!(schoof(&BigInt::from(2), &BigInt::from(1), -7).err(), Some(Error::DomainError));
    assert_eq!(curve_order(&BigInt::from(2), &BigInt::from(1), 15).err(), Some(Error::DomainError));
}

#[test]
fn symmetric_residues() {
    assert_eq!(symmetric(&BigInt::from(30), &BigInt::from(23)), BigInt::from(-7));
    assert_eq!(symmetric(&BigInt::from(30), &BigInt::from(3)), BigInt::from(3));
    assert_eq!(symmetric(&BigInt::from(30), &BigInt::from(15)), BigInt::from(15));
    assert_eq!(symmetric(&BigInt::from(30), &BigInt::from(-82)), BigInt::from(8));
    assert_eq!(square_root_modulo(7, 2), Some(3));
    assert_eq!(square_root_modulo(7, 3), None);
    assert_eq!(square_root_modulo(5, 0), None);
}

#[test]
fn schoof_agrees_with_counting() {
    for (a, b, p) in [(1i64, 1i64, 11i32), (3, 5, 13), (1, 7, 23)] {
        let ec = EllipticCurve::new(&BigInt::from(a), &BigInt::from(b), &BigInt::from(p)).unwrap();
        let order = curve_order(&BigInt::from(a), &BigInt::from(b), p).unwrap();
        assert_eq!(order, BigInt::from(ec.cardinality()));
    }
}

#[test]
fn schoof_where_the_frobenius_square_is_a_scalar() {
    // y^2 = x^3 + 2 over F_7 has nine points, all of them of order three.
    let mod_result = schoof(&BigInt::from(0), &BigInt::from(2), 7).unwrap();
    assert_eq!(mod_result.len(), 3);
    assert_eq!(mod_result[1].l, BigInt::from(3));
    assert_eq!(mod_result[1].r, BigInt::from(2));
    assert_eq!(curve_order(&BigInt::from(0), &BigInt::from(2), 7).unwrap(), BigInt::from(9));
    let ec = EllipticCurve::new(&BigInt::from(0), &BigInt::from(2), &BigInt::from(7)).unwrap();
    assert_eq!(ec.cardinality(), 9);
}

#[test]
fn schoof_agrees_with_counting_over_small_fields() {
    for p in [3i32, 5, 7] {
        for a in 0..(p as i64) {
            for b in 0..(p as i64) {
                if (4 * a * a * a + 27 * b * b) % (p as i64) == 0 {
                    continue;
                }
                let ec = EllipticCurve::new(&BigInt::from(a), &BigInt::from(b), &BigInt::from(p))
                    .unwrap();
                let order = curve_order(&BigInt::from(a), &BigInt::from(b), p).unwrap();
                assert_eq!(order, BigInt::from(ec.cardinality()));
            }
        }
    }
}

#[test]
fn schoof_residues_recombine() {
    for (a, b, p) in [(1i64, 1i64, 5i32), (2, 1, 7), (1, 3, 13)] {
        let list = schoof(&BigInt::from(a), &BigInt::from(b), p).unwrap();
        for (i, m) in list.iter().enumerate() {
            assert!(m.l != BigInt::from(p));
            assert!(BigInt::from(0) <= m.r && m.r < m.l);
            for n in &list[..i] {
                assert!(n.l < m.l);
            }
        }
        let all = chinese_remainder(&list);
        assert!(&all.l * &all.l > BigInt::from(16 * p));
        for m in &list {
            assert_eq!((&all.r - &m.r) % &m.l, BigInt::from(0));
        }
    }
    // over F_5 the prime five is left out
    let list = schoof(&BigInt::from(1), &BigInt::from(1), 5).unwrap();
    let moduli: Vec<BigInt> = list.iter().map(|m| m.l.clone()).collect();
    assert_eq!(moduli, vec![BigInt::from(2), BigInt::from(3), BigInt::from(7)]);
}
