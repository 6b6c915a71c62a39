use schoof::delta::{delta1, delta1_inverse};
use schoof::divisor::sigma_divisor;
use schoof::eisenstein::eisenstein4;
use schoof::bigint::Power;
use schoof::j_invariant::{j_invariant, j_invariant1};

#[test]
fn delta1_test1() {
    assert_eq!(delta1(1).to_string(), "- 24 q + 1");
    assert_eq!(delta1(2).to_string(), "252 q^2 - 24 q + 1");
    assert_eq!(delta1(3).to_string(), "- 1472 q^3 + 252 q^2 - 24 q + 1");

    assert_eq!(delta1_inverse(1).to_string(), "24 q + 1");
    assert_eq!(delta1_inverse(2).to_string(), "324 q^2 + 24 q + 1");
    assert_eq!(delta1_inverse(3).to_string(), "3200 q^3 + 324 q^2 + 24 q + 1");
}

#[test]
fn sigma_divisor_test1() {
    let expect0 = [1, 2, 2, 3, 2, 4, 2, 4, 3, 4, 2, 6, 2];
    let expect1 = [1, 3, 4, 7, 6, 12, 8, 15, 13, 18, 12, 28, 14];
    let expect3 = [1, 9, 28, 73, 126, 252, 344, 585, 757, 1134, 1332, 2044, 2198];
    for n in 1..=13usize {
        assert_eq!(sigma_divisor(n as i64, 0).to_string(), expect0[n - 1].to_string());
        assert_eq!(sigma_divisor(n as i64, 1).to_string(), expect1[n - 1].to_string());
        assert_eq!(sigma_divisor(n as i64, 3).to_string(), expect3[n - 1].to_string());
    }
}

#[test]
fn sigma_divisor_outside_domain() {
    assert_eq!(sigma_divisor(6, -1).to_string(), "0");
    assert_eq!(sigma_divisor(0, 2).to_string(), "0");
    assert_eq!(sigma_divisor(-6, 2).to_string(), "0");
}

#[test]
fn eisenstein4_test1() {
    assert_eq!(eisenstein4(3).to_string(), "6720 q^3 + 2160 q^2 + 240 q + 1");
    assert_eq!(eisenstein4(4).to_string(), "17520 q^4 + 6720 q^3 + 2160 q^2 + 240 q + 1");
    assert_eq!(eisenstein4(5).to_string(), "30240 q^5 + 17520 q^4 + 6720 q^3 + 2160 q^2 + 240 q + 1");
    assert_eq!(
        eisenstein4(6).to_string(),
        "60480 q^6 + 30240 q^5 + 17520 q^4 + 6720 q^3 + 2160 q^2 + 240 q + 1"
    );

    let t3 = eisenstein4(2);
    assert_eq!(
        t3.power(3i64).unwrap().to_string(),
        "10077696000 q^6 + 3359232000 q^5 + 387244800 q^4 + 16934400 q^3 + 179280 q^2 + 720 q + 1"
    );

    let t4 = eisenstein4(3);
    assert_eq!(t4.power(3i64).unwrap().to_string(), "303464448000 q^9 + 292626432000 q^8 + 126572544000 q^7 + 31115059200 q^6 + 4607539200 q^5 + 396921600 q^4 + 16954560 q^3 + 179280 q^2 + 720 q + 1");

    let t5 = eisenstein4(4);
    assert_eq!(t5.power(3i64).unwrap().to_string(), "5377771008000 q^12 + 6188120064000 q^11 + 4362564096000 q^10 + 2050306560000 q^9 + 708308755200 q^8 + 181773158400 q^7 + 34369574400 q^6 + 4632768000 q^5 + 396974160 q^4 + 16954560 q^3 + 179280 q^2 + 720 q + 1");
}

#[test]
fn eisenstein4_of_no_order() {
    assert_eq!(eisenstein4(0).to_string(), "1");
    assert_eq!(eisenstein4(-3).to_string(), "1");
}

#[test]
fn j_invariant_test1() {
    assert_eq!(j_invariant1(2).to_string(), "196884 q^2 + 744 q + 1");
    assert_eq!(j_invariant1(3).to_string(), "21493760 q^3 + 196884 q^2 + 744 q + 1");
    assert_eq!(
        j_invariant1(4).to_string(),
        "864299970 q^4 + 21493760 q^3 + 196884 q^2 + 744 q + 1"
    );
    assert_eq!(
        j_invariant1(5).to_string(),
        "20245856256 q^5 + 864299970 q^4 + 21493760 q^3 + 196884 q^2 + 744 q + 1"
    );
    assert_eq!(
        j_invariant1(6).to_string(),
        "333202640600 q^6 + 20245856256 q^5 + 864299970 q^4 + 21493760 q^3 + 196884 q^2 + 744 q + 1"
    );
}

#[test]
fn j_invariant_test() {
    assert_eq!(j_invariant(2).to_string(), "21493760 q^2 + 196884 q + 744 + q^-1");
    assert_eq!(
        j_invariant(3).to_string(),
        "864299970 q^3 + 21493760 q^2 + 196884 q + 744 + q^-1"
    );
    assert_eq!(
        j_invariant(4).to_string(),
        "20245856256 q^4 + 864299970 q^3 + 21493760 q^2 + 196884 q + 744 + q^-1"
    );
    assert_eq!(
        j_invariant(5).to_string(),
        "333202640600 q^5 + 20245856256 q^4 + 864299970 q^3 + 21493760 q^2 + 196884 q + 744 + q^-1"
    );
    assert_eq!(j_invariant(6).to_string(), "4252023300096 q^6 + 333202640600 q^5 + 20245856256 q^4 + 864299970 q^3 + 21493760 q^2 + 196884 q + 744 + q^-1");
}
