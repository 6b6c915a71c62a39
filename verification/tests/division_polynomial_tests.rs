use num_bigint::BigInt;
use schoof::division_polynomial::{omega, phi, psi, DivisionPolynomials};
use schoof::error::Error;

#[test]
fn division_polynomial_test_psi() {
    let one = BigInt::from(1);
    let psi0 = psi(&one, &one, &BigInt::from(0)).unwrap();
    assert_eq!(psi0.to_string(), "0");

    let psi1 = psi(&one, &one, &BigInt::from(1)).unwrap();
    assert_eq!(psi1.to_string(), "1");

    let psi2 = psi(&one, &one, &BigInt::from(2)).unwrap();
    assert_eq!(psi2.to_string(), "2 y");

    let psi3 = psi(&one, &one, &BigInt::from(3)).unwrap();
    assert_eq!(psi3.to_string(), "3 x^4 + 6 x^2 + 12 x - 1");

    let psi4 = psi(&one, &one, &BigInt::from(4)).unwrap();
    assert_eq!(psi4.to_string(), "4 x^6 y + 20 x^4 y + 80 x^3 y - 20 x^2 y - 16 x y - 36 y");

    let psi5 = psi(&one, &one, &BigInt::from(5)).unwrap();
    assert_eq!(psi5.to_string(), "5 x^12 + 62 x^10 + 380 x^9 - 105 x^8 + 240 x^7 - 540 x^6 - 696 x^5 - 2045 x^4 - 1680 x^3 - 290 x^2 - 740 x - 287");
}

#[test]
fn division_polynomial_test_phi() {
    let one = BigInt::from(1);
    let phi1 = phi(&one, &one, &BigInt::from(1)).unwrap();
    assert_eq!(phi1.to_string(), "x");

    let phi2 = phi(&one, &one, &BigInt::from(2)).unwrap();
    assert_eq!(phi2.to_string(), "x^4 - 2 x^2 - 8 x + 1");

    let phi3 = phi(&one, &one, &BigInt::from(3)).unwrap();
    assert_eq!(
        phi3.to_string(),
        "x^9 - 12 x^7 - 96 x^6 + 30 x^5 - 24 x^4 + 84 x^3 + 48 x^2 + 105 x + 72"
    );
}

#[test]
fn division_polynomial_test_omega() {
    let one = BigInt::from(1);
    let omega1 = omega(&one, &one, &BigInt::from(1)).unwrap();
    assert_eq!(omega1.to_string(), "y");

    let omega2 = omega(&one, &one, &BigInt::from(2)).unwrap();
    assert_eq!(omega2.to_string(), "x^6 + 5 x^4 + 20 x^3 - 5 x^2 - 4 x - 9");

    let omega3 = omega(&one, &one, &BigInt::from(3)).unwrap();
    assert_eq!(omega3.to_string(), "x^12 y + 22 x^10 y + 220 x^9 y - 165 x^8 y - 528 x^7 y - 1868 x^6 y + 264 x^5 y - 1145 x^4 y - 400 x^3 y - 714 x^2 y - 1028 x y - 611 y");

    let omega4 = omega(&one, &one, &BigInt::from(4)).unwrap();
    assert_eq!(omega4.to_string(), "x^24 + 68 x^22 + 1232 x^21 - 1694 x^20 - 9856 x^19 - 61964 x^18 + 10032 x^17 - 170561 x^16 - 23040 x^15 - 341752 x^14 - 632800 x^13 - 1329636 x^12 - 2539264 x^11 - 4549752 x^10 - 4618144 x^9 - 5622449 x^8 - 6799872 x^7 - 4564812 x^6 - 4212208 x^5 - 3158750 x^4 - 892544 x^3 - 248700 x^2 - 222864 x - 40879");

    let omega5 = omega(&one, &one, &BigInt::from(5)).unwrap();
    assert_eq!(omega5.to_string(), "x^36 y + 162 x^34 y + 4692 x^33 y - 10659 x^32 y - 107712 x^31 y - 902224 x^30 y + 556512 x^29 y - 3417068 x^28 y + 2557376 x^27 y - 24924744 x^26 y - 69151824 x^25 y - 257703372 x^24 y - 686331072 x^23 y - 1968515376 x^22 y - 2825185248 x^21 y - 5467087026 x^20 y - 10374222912 x^19 y - 12843672372 x^18 y - 23464263816 x^17 y - 28086809658 x^16 y - 28443733056 x^15 y - 33582134832 x^14 y - 29309513952 x^13 y - 19226935196 x^12 y - 19770442944 x^11 y - 13785051976 x^10 y - 12217620304 x^9 y - 14642004444 x^8 y - 14782274112 x^7 y - 13037393232 x^6 y - 8387833632 x^5 y - 2784562631 x^4 y + 221827904 x^3 y + 446882082 x^2 y + 112442324 x y + 30699397 y");
}

#[test]
fn division_polynomials_outside_domain() {
    let one = BigInt::from(1);
    assert_eq!(psi(&one, &one, &BigInt::from(-1)).err(), Some(Error::DomainError));
    assert_eq!(phi(&one, &one, &BigInt::from(0)).err(), Some(Error::DomainError));
    assert_eq!(omega(&one, &one, &BigInt::from(0)).err(), Some(Error::DomainError));
}

#[test]
fn division_polynomials_with_other_coefficients() {
    let a = BigInt::from(2);
    let b = BigInt::from(-3);
    assert_eq!(psi(&a, &b, &BigInt::from(3)).unwrap().to_string(), "3 x^4 + 12 x^2 - 36 x - 4");
    assert_eq!(
        psi(&a, &b, &BigInt::from(4)).unwrap().to_string(),
        "4 x^6 y + 40 x^4 y - 240 x^3 y - 80 x^2 y + 96 x y - 320 y"
    );
}

#[test]
fn division_polynomials_kept_agree_with_fresh_ones() {
    let a = BigInt::from(2);
    let b = BigInt::from(1);
    let mut d = DivisionPolynomials::new(&a, &b);
    for n in [9i64, 6, 7, 8, 9, 5, 10] {
        let kept = d.psi(&BigInt::from(n)).unwrap();
        let fresh = psi(&a, &b, &BigInt::from(n)).unwrap();
        assert!(kept == fresh);
    }
    assert!(d.phi(&BigInt::from(4)).unwrap() == phi(&a, &b, &BigInt::from(4)).unwrap());
    assert!(d.omega(&BigInt::from(4)).unwrap() == omega(&a, &b, &BigInt::from(4)).unwrap());
    // psi_6 has the factor y, and after reduction no higher power of y
    let p6 = d.psi(&BigInt::from(6)).unwrap();
    for i in 0..p6.len() {
        assert_eq!(p6.term(i).monomial.ypow, BigInt::from(1));
    }
}

#[test]
fn division_polynomials_are_reduced() {
    let a = BigInt::from(2);
    let b = BigInt::from(-3);
    let zero = BigInt::from(0);
    for n in 0..9 {
        let index = BigInt::from(n);
        let f = psi(&a, &b, &index).unwrap();
        for i in 0..f.len() {
            let m = &f.term(i).monomial;
            assert_eq!(m.ypow, BigInt::from((n + 1) % 2));
            assert!(m.xpow >= zero && m.qpow == zero && m.variable.empty);
        }
        if n >= 1 {
            let f = phi(&a, &b, &index).unwrap();
            for i in 0..f.len() {
                let m = &f.term(i).monomial;
                assert_eq!(m.ypow, zero);
                assert!(m.xpow >= zero && m.qpow == zero && m.variable.empty);
            }
            let f = omega(&a, &b, &index).unwrap();
            for i in 0..f.len() {
                let m = &f.term(i).monomial;
                assert_eq!(m.ypow, BigInt::from(n % 2));
                assert!(m.xpow >= zero && m.qpow == zero && m.variable.empty);
            }
        }
    }
}
