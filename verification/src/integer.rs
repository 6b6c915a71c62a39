use num_bigint::BigInt;
use num_integer::Integer;
use num_traits::ToPrimitive;
use vstd::prelude::*;

verus! {

/// The integers of arbitrary size of num-bigint. Of a value of this type the
/// library knows the integer that it holds, `int_of`, and nothing else.
#[verifier::external_type_specification]
#[verifier::external_body]
pub struct ExBigInt(num_bigint::BigInt);

/// The mathematical integer that a `BigInt` holds.
pub uninterp spec fn int_of(b: BigInt) -> int;

/// Floor division: the quotient rounded towards minus infinity.
pub open spec fn floor_div(a: int, b: int) -> int
    recommends
        b != 0,
{
    if b > 0 {
        a / b
    } else {
        (-a) / (-b)
    }
}

/// Floor remainder: `a - floor_div(a, b) * b`, which has the sign of `b`.
pub open spec fn floor_mod(a: int, b: int) -> int
    recommends
        b != 0,
{
    if b > 0 {
        a % b
    } else {
        -((-a) % (-b))
    }
}

/// Truncated division: the quotient rounded towards zero.
pub open spec fn trunc_div(a: int, b: int) -> int
    recommends
        b != 0,
{
    if a >= 0 {
        if b > 0 {
            a / b
        } else {
            -(a / (-b))
        }
    } else {
        if b > 0 {
            -((-a) / b)
        } else {
            (-a) / (-b)
        }
    }
}

/// Truncated remainder: `a - trunc_div(a, b) * b`, which has the sign of `a`.
pub open spec fn trunc_rem(a: int, b: int) -> int
    recommends
        b != 0,
{
    a - trunc_div(a, b) * b
}

/// `BigInt::from` on an `i64`: the result holds the same integer.
#[verifier::external_body]
pub(crate) fn big_from_i64(v: i64) -> (r: BigInt)
    ensures
        int_of(r) == v,
{
    BigInt::from(v)
}

/// `BigInt::from` on a `u64`: the result holds the same integer.
#[verifier::external_body]
pub(crate) fn big_from_u64(v: u64) -> (r: BigInt)
    ensures
        int_of(r) == v,
{
    BigInt::from(v)
}

/// `BigInt::from` on a `u128`: the result holds the same integer.
#[verifier::external_body]
pub(crate) fn big_from_u128(v: u128) -> (r: BigInt)
    ensures
        int_of(r) == v,
{
    BigInt::from(v)
}

/// `BigInt::clone`: the copy holds the same integer.
pub assume_specification[ <BigInt as Clone>::clone ](a: &BigInt) -> (r: BigInt)
    ensures
        int_of(r) == int_of(*a),
;

/// `&BigInt + &BigInt`: the sum of the two integers.
#[verifier::external_body]
pub(crate) fn big_add(a: &BigInt, b: &BigInt) -> (r: BigInt)
    ensures
        int_of(r) == int_of(*a) + int_of(*b),
{
    a + b
}

/// `&BigInt - &BigInt`: the difference of the two integers.
#[verifier::external_body]
pub(crate) fn big_sub(a: &BigInt, b: &BigInt) -> (r: BigInt)
    ensures
        int_of(r) == int_of(*a) - int_of(*b),
{
    a - b
}

/// `&BigInt * &BigInt`: the product of the two integers.
#[verifier::external_body]
pub(crate) fn big_mul(a: &BigInt, b: &BigInt) -> (r: BigInt)
    ensures
        int_of(r) == int_of(*a) * int_of(*b),
{
    a * b
}

/// `&BigInt == &BigInt`: whether the two hold the same integer.
#[verifier::external_body]
pub(crate) fn big_eq(a: &BigInt, b: &BigInt) -> (r: bool)
    ensures
        r == (int_of(*a) == int_of(*b)),
{
    a == b
}

/// `&BigInt < &BigInt`: the order of the integers.
#[verifier::external_body]
pub(crate) fn big_lt(a: &BigInt, b: &BigInt) -> (r: bool)
    ensures
        r == (int_of(*a) < int_of(*b)),
{
    a < b
}

/// `Integer::div_floor` of num-integer on `BigInt`: the quotient rounded
/// towards minus infinity. It panics on a zero divisor.
#[verifier::external_body]
pub(crate) fn big_div_floor(a: &BigInt, b: &BigInt) -> (r: BigInt)
    requires
        int_of(*b) != 0,
    ensures
        int_of(r) == floor_div(int_of(*a), int_of(*b)),
{
    a.div_floor(b)
}

/// `Integer::mod_floor` of num-integer on `BigInt`: the remainder that goes
/// with `div_floor`. It panics on a zero divisor.
#[verifier::external_body]
pub(crate) fn big_mod_floor(a: &BigInt, b: &BigInt) -> (r: BigInt)
    requires
        int_of(*b) != 0,
    ensures
        int_of(r) == floor_mod(int_of(*a), int_of(*b)),
{
    a.mod_floor(b)
}

/// `&BigInt / &BigInt`: the quotient rounded towards zero. It panics on a
/// zero divisor.
#[verifier::external_body]
pub(crate) fn big_div_trunc(a: &BigInt, b: &BigInt) -> (r: BigInt)
    requires
        int_of(*b) != 0,
    ensures
        int_of(r) == trunc_div(int_of(*a), int_of(*b)),
{
    a / b
}

/// `&BigInt % &BigInt`: the remainder that goes with `/`. It panics on a
/// zero divisor.
#[verifier::external_body]
pub(crate) fn big_rem_trunc(a: &BigInt, b: &BigInt) -> (r: BigInt)
    requires
        int_of(*b) != 0,
    ensures
        int_of(r) == trunc_rem(int_of(*a), int_of(*b)),
{
    a % b
}

/// `ToPrimitive::to_u64` on `BigInt`: the integer as a `u64` where it fits,
/// `None` where it does not.
#[verifier::external_body]
pub(crate) fn big_to_u64(a: &BigInt) -> (r: Option<u64>)
    ensures
        match r {
            Some(v) => v == int_of(*a),
            None => int_of(*a) < 0 || int_of(*a) > u64::MAX,
        },
{
    a.to_u64()
}

/// Whether `a` holds zero.
pub fn big_is_zero(a: &BigInt) -> (r: bool)
    ensures
        r == (int_of(*a) == 0),
{
    let zero = big_from_i64(0);
    big_eq(a, &zero)
}

/// Whether `a` holds one.
pub fn big_is_one(a: &BigInt) -> (r: bool)
    ensures
        r == (int_of(*a) == 1),
{
    let one = big_from_i64(1);
    big_eq(a, &one)
}

/// Whether `a` is below zero.
pub fn big_is_negative(a: &BigInt) -> (r: bool)
    ensures
        r == (int_of(*a) < 0),
{
    let zero = big_from_i64(0);
    big_lt(a, &zero)
}

/// Whether `a` is odd.
pub fn big_is_odd(a: &BigInt) -> (r: bool)
    ensures
        r == (int_of(*a) % 2 == 1),
{
    let two = big_from_i64(2);
    let m = big_mod_floor(a, &two);
    big_is_one(&m)
}

/// The negative of `a`.
pub fn big_neg(a: &BigInt) -> (r: BigInt)
    ensures
        int_of(r) == -int_of(*a),
{
    let zero = big_from_i64(0);
    big_sub(&zero, a)
}

/// `a <= b`.
pub fn big_le(a: &BigInt, b: &BigInt) -> (r: bool)
    ensures
        r == (int_of(*a) <= int_of(*b)),
{
    !big_lt(b, a)
}

/// The size of an integer.
pub open spec fn magnitude(a: int) -> int {
    if a < 0 {
        -a
    } else {
        a
    }
}

/// `r` is the least common multiple of `a` and `b`: zero where one of them
/// is zero, else the least positive integer that is a multiple of both.
pub open spec fn is_lcm(a: int, b: int, r: int) -> bool {
    if a == 0 || b == 0 {
        r == 0
    } else {
        &&& r > 0
        &&& r % magnitude(a) == 0
        &&& r % magnitude(b) == 0
        &&& forall|m: int|
            m > 0 && #[trigger] (m % magnitude(a)) == 0 && m % magnitude(b) == 0 ==> r <= m
    }
}

/// The least common multiple of `a` and `b`.
pub open spec fn lcm_spec(a: int, b: int) -> int {
    choose|r: int| is_lcm(a, b, r)
}

/// A least common multiple is the least common multiple.
pub proof fn lemma_lcm_unique(a: int, b: int, r: int)
    requires
        is_lcm(a, b, r),
    ensures
        r == lcm_spec(a, b),
{
    let c = lcm_spec(a, b);
    assert(is_lcm(a, b, c));
    if a != 0 && b != 0 {
        assert(r % magnitude(a) == 0);
        assert(c % magnitude(a) == 0);
    }
}

/// `Integer::lcm` of num-integer on `BigInt`: the least common multiple of
/// the two, never negative, and zero where one of them is zero.
#[verifier::external_body]
pub(crate) fn big_lcm(a: &BigInt, b: &BigInt) -> (r: BigInt)
    ensures
        is_lcm(int_of(*a), int_of(*b), int_of(r)),
{
    a.lcm(b)
}

/// The character of a decimal digit.
pub open spec fn digit_char(d: int) -> char
    recommends
        0 <= d < 10,
{
    if d == 0 {
        '0'
    } else if d == 1 {
        '1'
    } else if d == 2 {
        '2'
    } else if d == 3 {
        '3'
    } else if d == 4 {
        '4'
    } else if d == 5 {
        '5'
    } else if d == 6 {
        '6'
    } else if d == 7 {
        '7'
    } else if d == 8 {
        '8'
    } else {
        '9'
    }
}

/// The decimal digits of a natural number, without leading zeros.
pub open spec fn digits_text(n: nat) -> Seq<char>
    decreases n,
{
    if n < 10 {
        seq![digit_char(n as int)]
    } else {
        digits_text(n / 10).push(digit_char((n % 10) as int))
    }
}

/// An integer in decimal, with a minus sign in front of a negative one.
pub open spec fn decimal_text(v: int) -> Seq<char> {
    if v < 0 {
        seq!['-'] + digits_text((-v) as nat)
    } else {
        digits_text(v as nat)
    }
}

/// `BigInt::to_string`: the integer in decimal, with a minus sign in front
/// of a negative one.
#[verifier::external_body]
pub(crate) fn big_to_string(a: &BigInt) -> (r: String)
    ensures
        r@ == decimal_text(int_of(*a)),
{
    a.to_string()
}

/// `primes::is_prime`: whether `n` is prime, by trial division by two and by
/// the odd numbers up to the square root. The bound of `requires` keeps the
/// squares that it takes from overflowing.
#[verifier::external_body]
pub(crate) fn is_prime_u64(n: u64) -> (r: bool)
    requires
        n <= 0xFFFF_FFFF,
    ensures
        r == is_prime(n as int),
{
    primes::is_prime(n)
}

/// `n` is a prime number.
pub open spec fn is_prime(n: int) -> bool {
    n >= 2 && forall|d: int| 2 <= d < n ==> #[trigger] (n % d) != 0
}

} // verus!
