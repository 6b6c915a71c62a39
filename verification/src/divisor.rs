use crate::bigint::Power;
use crate::integer::{big_add, big_from_i64, int_of};
use num_bigint::BigInt;
use vstd::arithmetic::power::pow;
use vstd::prelude::*;

verus! {

/// The sum of `d^k` over the divisors `d` of `n` that are at most `upto`.
pub open spec fn divisor_power_sum(n: int, k: nat, upto: int) -> int
    decreases upto,
{
    if upto <= 0 {
        0
    } else {
        divisor_power_sum(n, k, upto - 1) + (if n % upto == 0 {
            pow(upto, k)
        } else {
            0
        })
    }
}

/// The divisor function `sigma_k(n)`: the sum of `d^k` over the positive
/// divisors `d` of `n`; zero for a negative `k` and for `n <= 0`.
pub open spec fn sigma_spec(n: int, k: int) -> int {
    if k < 0 || n <= 0 {
        0
    } else {
        divisor_power_sum(n, k as nat, n)
    }
}

/// The sum of positive divisors function `sigma_power(n)`.
pub fn sigma_divisor(n: i64, power: i64) -> (r: BigInt)
    ensures
        int_of(r) == sigma_spec(n as int, power as int),
{
    let mut sum = big_from_i64(0);
    if power < 0 || n <= 0 {
        return sum;
    }
    let mut i: i64 = 0;
    while i < n
        invariant
            0 <= i <= n,
            power >= 0,
            int_of(sum) == divisor_power_sum(n as int, power as nat, i as int),
        decreases n - i,
    {
        i = i + 1;
        if n % i == 0 {
            match big_from_i64(i).power(power) {
                Ok(v) => {
                    sum = big_add(&sum, &v);
                },
                Err(_) => {
                    assert(false);
                },
            }
        }
    }
    sum
}

} // verus!
