use num_bigint::BigInt;
use num_integer::Integer;
use schoof::bigint::{chinese_remainder, extended_gcd, Inverse, ModResult, Power, PowerModulo};
use schoof::error::Error;

#[test]
fn bigint_power_test() {
    let q = BigInt::from(2);
    let q2 = q.power(&BigInt::from(3)).unwrap();
    assert_eq!(q2.to_string(), "8");
}

#[test]
fn bigint_power_modulo_test() {
    let p = BigInt::from(5);
    assert_eq!(BigInt::from(3).power_modulo(&BigInt::from(2), &p).unwrap().to_string(), "4");
    assert_eq!(BigInt::from(3).power_modulo(&BigInt::from(3), &p).unwrap().to_string(), "2");
    assert_eq!(BigInt::from(3).power_modulo(&BigInt::from(4), &p).unwrap().to_string(), "1");
}

#[test]
fn bigint_inverse_test() {
    let p = BigInt::from(19);
    assert_eq!(BigInt::from(1).inverse(&p).unwrap().to_string(), "1");
    assert_eq!(BigInt::from(2).inverse(&p).unwrap().to_string(), "10");
    assert_eq!(BigInt::from(3).inverse(&p).unwrap().to_string(), "13");
    assert_eq!(BigInt::from(4).inverse(&p).unwrap().to_string(), "5");
}

#[test]
fn bigint_divide_test() {
    assert_eq!((BigInt::from(7) / BigInt::from(2)).to_string(), "3");
    assert_eq!((BigInt::from(7) / BigInt::from(-2)).to_string(), "-3");
    assert_eq!((BigInt::from(-7) / BigInt::from(2)).to_string(), "-3");
    assert_eq!((BigInt::from(-7) / BigInt::from(-2)).to_string(), "3");

    assert_eq!((BigInt::from(7) % BigInt::from(3)).to_string(), "1");
    assert_eq!((BigInt::from(7) % BigInt::from(-3)).to_string(), "1");
    assert_eq!((BigInt::from(-7) % BigInt::from(3)).to_string(), "-1");
    assert_eq!((BigInt::from(-7) % BigInt::from(-3)).to_string(), "-1");

    assert_eq!(7.div_floor(&2), 3);
    assert_eq!(7.div_floor(&-2), -4);
    assert_eq!((-7).div_floor(&2), -4);
    assert_eq!((-7).div_floor(&-2), 3);

    assert_eq!(7.mod_floor(&3), 1);
    assert_eq!(7.mod_floor(&-3), -2);
    assert_eq!((-7).mod_floor(&3), 2);
    assert_eq!((-7).mod_floor(&-3), -1);

    assert_eq!((BigInt::from(7).div_floor(&BigInt::from(2))).to_string(), "3");
    assert_eq!((BigInt::from(7).div_floor(&BigInt::from(-2))).to_string(), "-4");
    assert_eq!((BigInt::from(-7).div_floor(&BigInt::from(2))).to_string(), "-4");
    assert_eq!((BigInt::from(-7).div_floor(&BigInt::from(-2))).to_string(), "3");

    assert_eq!((BigInt::from(7).mod_floor(&BigInt::from(3))).to_string(), "1");
    assert_eq!((BigInt::from(7).mod_floor(&BigInt::from(-3))).to_string(), "-2");
    assert_eq!((BigInt::from(-7).mod_floor(&BigInt::from(3))).to_string(), "2");
    assert_eq!((BigInt::from(-7).mod_floor(&BigInt::from(-3))).to_string(), "-1");
}

#[test]
fn extended_euclid_test1() {
    let (g, x, y) = extended_gcd(BigInt::from(8), BigInt::from(11));
    assert_eq!(g, BigInt::from(1));
    assert_eq!(x, BigInt::from(-4));
    assert_eq!(y, BigInt::from(3));
}

#[test]
fn extended_euclid_test2() {
    let (g, x, y) = extended_gcd(BigInt::from(11), BigInt::from(8));
    assert_eq!(g, BigInt::from(1));
    assert_eq!(x, BigInt::from(3));
    assert_eq!(y, BigInt::from(-4));
}

#[test]
fn lcm_test() {
    assert_eq!(Integer::lcm(&BigInt::from(4), &BigInt::from(6)), BigInt::from(12));
    assert_eq!(Integer::lcm(&BigInt::from(-4), &BigInt::from(6)), BigInt::from(12));
    assert_eq!(Integer::lcm(&BigInt::from(-4), &BigInt::from(-6)), BigInt::from(12));
}

#[test]
fn chinese_remainder_test() {
    let mod_result = vec![
        ModResult { l: BigInt::from(3), r: BigInt::from(2) },
        ModResult { l: BigInt::from(5), r: BigInt::from(3) },
        ModResult { l: BigInt::from(7), r: BigInt::from(2) },
    ];
    assert_eq!(
        chinese_remainder(&mod_result),
        ModResult { l: BigInt::from(3 * 5 * 7), r: BigInt::from(23 - 3 * 5 * 7) }
    );
}

#[test]
fn chinese_remainder_residues_hold() {
    let list = vec![
        ModResult { l: BigInt::from(4), r: BigInt::from(3) },
        ModResult { l: BigInt::from(9), r: BigInt::from(5) },
        ModResult { l: BigInt::from(25), r: BigInt::from(24) },
        ModResult { l: BigInt::from(7), r: BigInt::from(0) },
    ];
    let res = chinese_remainder(&list);
    assert_eq!(res.l, BigInt::from(4 * 9 * 25 * 7));
    for m in &list {
        assert_eq!(res.r.mod_floor(&m.l), m.r);
    }
}

#[test]
fn chinese_remainder_of_nothing() {
    let res = chinese_remainder(&Vec::new());
    assert_eq!(res, ModResult { l: BigInt::from(1), r: BigInt::from(1) });
}

#[test]
fn power_edge_cases() {
    assert_eq!(BigInt::from(7).power(0i64).unwrap(), BigInt::from(1));
    assert_eq!(BigInt::from(0).power(0i64).unwrap(), BigInt::from(1));
    assert_eq!(BigInt::from(-3).power(3i64).unwrap(), BigInt::from(-27));
    assert_eq!(BigInt::from(3).power(BigInt::from(5)).unwrap(), BigInt::from(243));
    assert_eq!(BigInt::from(2).power(100i64).unwrap().to_string(), "1267650600228229401496703205376");
    assert_eq!(BigInt::from(2).power(-1i64), Err(Error::DomainError));
}

#[test]
fn power_modulo_edge_cases() {
    let p = BigInt::from(7);
    assert_eq!(BigInt::from(5).power_modulo(&BigInt::from(0), &p).unwrap(), BigInt::from(1));
    assert_eq!(BigInt::from(-2).power_modulo(&BigInt::from(3), &p).unwrap(), BigInt::from(6));
    assert_eq!(BigInt::from(3).power_modulo(&BigInt::from(200), &BigInt::from(13)).unwrap(), BigInt::from(9));
    assert_eq!(BigInt::from(3).power_modulo(&BigInt::from(2), &BigInt::from(1)), Err(Error::DomainError));
    assert_eq!(BigInt::from(3).power_modulo(&BigInt::from(2), &BigInt::from(0)), Err(Error::DomainError));
    assert_eq!(BigInt::from(3).power_modulo(&BigInt::from(-2), &p), Err(Error::DomainError));
}

#[test]
fn inverse_errors() {
    assert_eq!(BigInt::from(3).inverse(&BigInt::from(1)), Err(Error::DomainError));
    assert_eq!(BigInt::from(0).inverse(&BigInt::from(7)), Err(Error::NonInvertible));
    assert_eq!(BigInt::from(14).inverse(&BigInt::from(7)), Err(Error::NonInvertible));
    assert_eq!(BigInt::from(3).inverse(&BigInt::from(7)).unwrap(), BigInt::from(5));
    assert_eq!(BigInt::from(1).inverse(&BigInt::from(2)).unwrap(), BigInt::from(1));
}

#[test]
fn extended_gcd_is_bezout() {
    for (a, b) in [(0i64, 5i64), (12, 18), (18, 12), (35, 64), (-12, 18), (12, -18), (7, 0)] {
        let (g, x, y) = extended_gcd(BigInt::from(a), BigInt::from(b));
        assert_eq!(g, BigInt::from(a) * x + BigInt::from(b) * y);
    }
    let (g, x, y) = extended_gcd(BigInt::from(0), BigInt::from(5));
    assert_eq!((g, x, y), (BigInt::from(5), BigInt::from(0), BigInt::from(1)));
    let (g, _, _) = extended_gcd(BigInt::from(12), BigInt::from(18));
    assert_eq!(g, BigInt::from(6));
}
