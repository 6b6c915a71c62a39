use crate::bigint::Power;
use crate::elliptic_curve::{CurveModel, ECPoint, EllipticCurve, PointModel};
use crate::integer::{big_add, big_from_i64, big_from_u128, big_mul, big_sub, int_of};
use crate::poly_ops::curve_polynomial_of;
use num_bigint::BigInt;
use vstd::arithmetic::power2::{lemma2_to64, lemma_pow2};
use vstd::arithmetic::power::{lemma_pow_increases, pow};
use vstd::prelude::*;

verus! {

/// The curve secp256k1 with its base point.
pub struct Secp256k1 {
    pub ec: EllipticCurve,
    pub g: ECPoint,
}

/// The prime of secp256k1: `2^256 - 2^32 - 977`.
pub open spec fn secp256k1_prime() -> int {
    pow(2, 256) - pow(2, 32) - 977
}

/// The abscissa of the base point of secp256k1.
pub open spec fn secp256k1_gx() -> int {
    5 * pow(10, 76) + 50662630222773436695787188951685343262 * pow(10, 38)
        + 50603453777594175500187360389116729240
}

/// The ordinate of the base point of secp256k1.
pub open spec fn secp256k1_gy() -> int {
    3 * pow(10, 76) + 26705100207588169780830851305070431844 * pow(10, 38)
        + 71273380659243275938904335757337482424
}

/// `base^exponent` for a small exponent.
fn power_of(base: i64, exponent: i64) -> (r: BigInt)
    requires
        exponent >= 0,
    ensures
        int_of(r) == pow(base as int, exponent as nat),
{
    match big_from_i64(base).power(exponent) {
        Ok(v) => v,
        Err(_) => {
            assert(false);
            big_from_i64(0)
        },
    }
}

/// The prime of secp256k1 is a modulus.
proof fn lemma_prime_is_large()
    ensures
        secp256k1_prime() >= 2,
{
    lemma2_to64();
    lemma_pow2(32);
    lemma_pow2(64);
    lemma_pow_increases(2, 64, 256);
}

impl Secp256k1 {
    /// The curve `y^2 = x^3 + 7` over the field of `2^256 - 2^32 - 977` elements,
    /// without its points, and its base point.
    pub fn new() -> (r: Self)
        ensures
            r.ec.wf(),
            r.ec@ == (CurveModel { a: 0, b: 7, p: secp256k1_prime() }),
            r.ec.points@.len() == 0,
            r.g@ == (PointModel { x: secp256k1_gx(), y: secp256k1_gy(), z: 1 }),
    {
        let p = big_sub(&big_sub(&power_of(2, 256), &power_of(2, 32)), &big_from_i64(977));
        let a = big_from_i64(0);
        let b = big_from_i64(7);
        proof {
            lemma_prime_is_large();
        }
        let ec = EllipticCurve {
            pol: curve_polynomial_of(&a, &b),
            a,
            b,
            p,
            points: Vec::new(),
        };
        let gx = big_add(
            &big_add(
                &big_mul(&big_from_i64(5), &power_of(10, 76)),
                &big_mul(
                    &big_from_u128(50_662_630_222_773_436_695_787_188_951_685_343_262u128),
                    &power_of(10, 38),
                ),
            ),
            &big_from_u128(50_603_453_777_594_175_500_187_360_389_116_729_240u128),
        );
        let gy = big_add(
            &big_add(
                &big_mul(&big_from_i64(3), &power_of(10, 76)),
                &big_mul(
                    &big_from_u128(26_705_100_207_588_169_780_830_851_305_070_431_844u128),
                    &power_of(10, 38),
                ),
            ),
            &big_from_u128(71_273_380_659_243_275_938_904_335_757_337_482_424u128),
        );
        let g = ECPoint::new(&gx, &gy, &big_from_i64(1));
        Secp256k1 { ec, g }
    }
}

} // verus!
