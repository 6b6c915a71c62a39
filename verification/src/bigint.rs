use crate::error::Error;
use crate::integer::{
    big_add, big_div_floor, big_div_trunc, big_from_i64, big_is_negative, big_is_odd, big_is_one,
    big_is_zero, big_le, big_lt, big_mod_floor, big_mul, big_rem_trunc, big_sub, int_of, trunc_div,
    trunc_rem,
};
use num_bigint::BigInt;
use vstd::arithmetic::div_mod::{
    lemma_add_mod_noop, lemma_fundamental_div_mod, lemma_mod_bound, lemma_mod_multiples_basic,
    lemma_mod_multiples_vanish, lemma_mod_self_0, lemma_mul_mod_noop_general, lemma_small_mod,
};
use vstd::arithmetic::power::{
    lemma_pow0, lemma_pow1, lemma_pow_adds, lemma_pow_mod_noop, lemma_pow_multiplies, pow,
};
use vstd::prelude::*;

verus! {

/// `T^n`.
pub trait Power<T>: Sized {
    fn power(&self, n: T) -> Result<Self, Error>;
}

/// `T^n (mod p)`.
pub trait PowerModulo: Sized {
    fn power_modulo(&self, n: &BigInt, p: &BigInt) -> Result<Self, Error>;
}

/// `1/T (mod p)`.
pub trait Inverse: Sized {
    fn inverse(&self, p: &BigInt) -> Result<Self, Error>;
}

/// `pow(b * b, k) == pow(b, 2 * k)`.
pub proof fn lemma_pow_square(b: int, k: nat)
    ensures
        pow(b * b, k) == pow(b, 2 * k),
{
    lemma_pow_multiplies(b, 2, k);
    lemma_pow1(b);
    lemma_pow_adds(b, 1, 1);
}

/// What `power` on integers returns: `a^n` for a non-negative `n`.
pub open spec fn power_spec(a: int, n: int) -> Result<int, Error> {
    if n < 0 {
        Err(Error::DomainError)
    } else {
        Ok(pow(a, n as nat))
    }
}

/// What `power_modulo` on integers returns: `a^n mod p`, in `[0, p)`.
pub open spec fn power_modulo_spec(a: int, n: int, p: int) -> Result<int, Error> {
    if p <= 1 || n < 0 {
        Err(Error::DomainError)
    } else {
        Ok(pow(a, n as nat) % p)
    }
}

/// What `inverse` returns: `a^(p-2) mod p` where that is an inverse of `a`
/// modulo `p`.
pub open spec fn inverse_spec(a: int, p: int) -> Result<int, Error> {
    if p <= 1 {
        Err(Error::DomainError)
    } else if (a * (pow(a, (p - 2) as nat) % p)) % p != 1 {
        Err(Error::NonInvertible)
    } else {
        Ok(pow(a, (p - 2) as nat) % p)
    }
}

/// Whether a result of the library holds what its model says.
pub open spec fn big_result_is(r: Result<BigInt, Error>, s: Result<int, Error>) -> bool {
    match r {
        Ok(v) => s == Ok::<int, Error>(int_of(v)),
        Err(e) => s == Err::<int, Error>(e),
    }
}

impl<'a> Power<&'a BigInt> for BigInt {
    /// Exponentiation by squaring.
    fn power(&self, n: &'a BigInt) -> (r: Result<BigInt, Error>)
        ensures
            big_result_is(r, power_spec(int_of(*self), int_of(*n))),
    {
        if big_is_negative(n) {
            return Err(Error::DomainError);
        }
        if big_is_zero(n) {
            proof {
                lemma_pow0(int_of(*self));
            }
            return Ok(big_from_i64(1));
        }
        let two = big_from_i64(2);
        let one = big_from_i64(1);
        let mut e = n.clone();
        let mut b = self.clone();
        let mut r = big_from_i64(1);
        while big_lt(&one, &e)
            invariant
                int_of(e) >= 1,
                int_of(two) == 2,
                int_of(one) == 1,
                int_of(*n) >= 1,
                int_of(r) * pow(int_of(b), int_of(e) as nat) == pow(
                    int_of(*self),
                    int_of(*n) as nat,
                ),
            decreases int_of(e),
        {
            let ghost e0 = int_of(e);
            let ghost b0 = int_of(b);
            let ghost r0 = int_of(r);
            if big_is_odd(&e) {
                r = big_mul(&r, &b);
            }
            let f = big_mul(&b, &b);
            b = f;
            e = big_div_floor(&e, &two);
            proof {
                let k = e0 / 2;
                lemma_pow_square(b0, k as nat);
                if e0 % 2 == 1 {
                    assert(e0 == 2 * k + 1);
                    lemma_pow_adds(b0, 1, (2 * k) as nat);
                    lemma_pow1(b0);
                    assert(pow(b0, e0 as nat) == b0 * pow(b0 * b0, k as nat));
                    assert(r0 * b0 * pow(b0 * b0, k as nat) == r0 * (b0 * pow(b0 * b0, k as nat)))
                        by (nonlinear_arith);
                } else {
                    assert(e0 == 2 * k);
                }
            }
        }
        proof {
            lemma_pow1(int_of(b));
        }
        Ok(big_mul(&r, &b))
    }
}

impl Power<BigInt> for BigInt {
    fn power(&self, n: BigInt) -> (r: Result<BigInt, Error>)
        ensures
            big_result_is(r, power_spec(int_of(*self), int_of(n))),
    {
        self.power(&n)
    }
}

impl Power<i64> for BigInt {
    fn power(&self, n: i64) -> (r: Result<BigInt, Error>)
        ensures
            big_result_is(r, power_spec(int_of(*self), n as int)),
    {
        let e = big_from_i64(n);
        self.power(&e)
    }
}

impl PowerModulo for BigInt {
    /// Square-and-multiply, reduced modulo `p` after every multiplication.
    fn power_modulo(&self, n: &BigInt, p: &BigInt) -> (r: Result<BigInt, Error>)
        ensures
            big_result_is(r, power_modulo_spec(int_of(*self), int_of(*n), int_of(*p))),
    {
        let one = big_from_i64(1);
        if big_le(p, &one) || big_is_negative(n) {
            return Err(Error::DomainError);
        }
        let zero = big_from_i64(0);
        let two = big_from_i64(2);
        let mut e = n.clone();
        let mut b = big_mod_floor(self, p);
        let mut r = big_from_i64(1);
        proof {
            lemma_pow_mod_noop(int_of(*self), int_of(*n) as nat, int_of(*p));
            lemma_small_mod(1, int_of(*p) as nat);
            lemma_mul_mod_noop_general(1, pow(int_of(b), int_of(e) as nat), int_of(*p));
        }
        while big_lt(&zero, &e)
            invariant
                int_of(e) >= 0,
                int_of(two) == 2,
                int_of(zero) == 0,
                int_of(*p) >= 2,
                int_of(*n) >= 0,
                0 <= int_of(r) < int_of(*p),
                (int_of(r) * pow(int_of(b), int_of(e) as nat)) % int_of(*p) == pow(
                    int_of(*self),
                    int_of(*n) as nat,
                ) % int_of(*p),
            decreases int_of(e),
        {
            let ghost e0 = int_of(e);
            let ghost b0 = int_of(b);
            let ghost r0 = int_of(r);
            let ghost m = int_of(*p);
            if big_is_odd(&e) {
                let t = big_mul(&r, &b);
                r = big_mod_floor(&t, p);
            }
            let f = big_mul(&b, &b);
            b = big_mod_floor(&f, p);
            e = big_div_floor(&e, &two);
            proof {
                let k = e0 / 2;
                let sq = pow(b0 * b0, k as nat);
                lemma_pow_square(b0, k as nat);
                lemma_pow_mod_noop(b0 * b0, k as nat, m);
                lemma_mod_bound(r0 * b0, m);
                if e0 % 2 == 1 {
                    assert(e0 == 2 * k + 1);
                    lemma_pow_adds(b0, 1, (2 * k) as nat);
                    lemma_pow1(b0);
                    assert(pow(b0, e0 as nat) == b0 * sq);
                    assert(r0 * b0 * sq == r0 * (b0 * sq)) by (nonlinear_arith);
                    lemma_mul_mod_noop_general(r0 * b0, sq, m);
                    lemma_mul_mod_noop_general((r0 * b0) % m, pow((b0 * b0) % m, k as nat), m);
                    lemma_small_mod(((r0 * b0) % m) as nat, m as nat);
                } else {
                    assert(e0 == 2 * k);
                    lemma_mul_mod_noop_general(r0, sq, m);
                    lemma_mul_mod_noop_general(r0, pow((b0 * b0) % m, k as nat), m);
                }
            }
        }
        proof {
            lemma_pow0(int_of(b));
            lemma_small_mod(int_of(r) as nat, int_of(*p) as nat);
        }
        Ok(r)
    }
}

impl Inverse for BigInt {
    /// The Fermat inverse `a^(p-2) mod p`, handed out only where it is an
    /// inverse: for a prime `p` that is where `p` does not divide `a`.
    fn inverse(&self, p: &BigInt) -> (r: Result<BigInt, Error>)
        ensures
            big_result_is(r, inverse_spec(int_of(*self), int_of(*p))),
    {
        let one = big_from_i64(1);
        if big_le(p, &one) {
            return Err(Error::DomainError);
        }
        let two = big_from_i64(2);
        let e = big_sub(p, &two);
        match self.power_modulo(&e, p) {
            Err(err) => Err(err),
            Ok(inv) => {
                let t = big_mul(self, &inv);
                let c = big_mod_floor(&t, p);
                if big_is_one(&c) {
                    Ok(inv)
                } else {
                    Err(Error::NonInvertible)
                }
            },
        }
    }
}

/// What holds of an inverse that was handed out.
pub proof fn lemma_inverse_is_inverse(a: int, p: int)
    requires
        inverse_spec(a, p) is Ok,
    ensures
        p >= 2,
        0 <= inverse_spec(a, p)->Ok_0 < p,
        (a * inverse_spec(a, p)->Ok_0) % p == 1,
{
    lemma_mod_bound(pow(a, (p - 2) as nat), p);
}

/// The size of an integer.
pub open spec fn abs(a: int) -> int {
    if a < 0 {
        -a
    } else {
        a
    }
}

/// The truncated remainder is smaller than the divisor.
pub proof fn lemma_trunc_rem_bound(b: int, a: int)
    requires
        a != 0,
    ensures
        abs(trunc_rem(b, a)) < abs(a),
        b >= 0 ==> trunc_rem(b, a) >= 0,
        b <= 0 ==> trunc_rem(b, a) <= 0,
{
    if b >= 0 {
        if a > 0 {
            lemma_fundamental_div_mod(b, a);
            lemma_mod_bound(b, a);
            assert(a * (b / a) == (b / a) * a) by (nonlinear_arith);
        } else {
            lemma_fundamental_div_mod(b, -a);
            lemma_mod_bound(b, -a);
            assert((-(b / (-a))) * a == (-a) * (b / (-a))) by (nonlinear_arith);
        }
    } else {
        if a > 0 {
            lemma_fundamental_div_mod(-b, a);
            lemma_mod_bound(-b, a);
            assert((-((-b) / a)) * a == -(a * ((-b) / a))) by (nonlinear_arith);
        } else {
            lemma_fundamental_div_mod(-b, -a);
            lemma_mod_bound(-b, -a);
            assert(((-b) / (-a)) * a == -((-a) * ((-b) / (-a)))) by (nonlinear_arith);
        }
    }
}

/// The extended Euclidean algorithm on integers: `(g, x, y)` with
/// `g == a * x + b * y`, where `g` is a greatest common divisor of `a` and `b`.
pub open spec fn extended_gcd_spec(a: int, b: int) -> (int, int, int)
    decreases abs(a),
{
    if a == 0 {
        (b, 0, 1)
    } else {
        let r = trunc_rem(b, a);
        let q = trunc_div(b, a);
        if abs(r) < abs(a) {
            let (g, x, y) = extended_gcd_spec(r, a);
            (g, y - q * x, x)
        } else {
            (b, 0, 1)
        }
    }
}

/// The extended Euclidean algorithm: `(g, x, y)` with `a x + b y = g`.
pub fn extended_gcd(a: BigInt, b: BigInt) -> (res: (BigInt, BigInt, BigInt))
    ensures
        (int_of(res.0), int_of(res.1), int_of(res.2)) == extended_gcd_spec(int_of(a), int_of(b)),
        int_of(res.0) == int_of(a) * int_of(res.1) + int_of(b) * int_of(res.2),
    decreases abs(int_of(a)),
{
    if big_is_zero(&a) {
        return (b, big_from_i64(0), big_from_i64(1));
    }
    let r = big_rem_trunc(&b, &a);
    let q = big_div_trunc(&b, &a);
    proof {
        lemma_trunc_rem_bound(int_of(b), int_of(a));
    }
    let ghost av = int_of(a);
    let ghost bv = int_of(b);
    let (g, x, y) = extended_gcd(r, a);
    let t = big_mul(&q, &x);
    let x2 = big_sub(&y, &t);
    proof {
        let qv = int_of(q);
        let xv = int_of(x);
        let yv = int_of(y);
        assert(int_of(g) == (bv - qv * av) * xv + av * yv);
        assert((bv - qv * av) * xv + av * yv == av * (yv - qv * xv) + bv * xv)
            by (nonlinear_arith);
    }
    (g, x2, x)
}

/// The identity of Bezout for the result of the extended Euclidean algorithm.
pub proof fn lemma_extended_gcd_bezout(a: int, b: int)
    ensures
        extended_gcd_spec(a, b).0 == a * extended_gcd_spec(a, b).1 + b * extended_gcd_spec(a, b).2,
    decreases abs(a),
{
    if a != 0 {
        lemma_trunc_rem_bound(b, a);
        let r = trunc_rem(b, a);
        let q = trunc_div(b, a);
        lemma_extended_gcd_bezout(r, a);
        let (g, x, y) = extended_gcd_spec(r, a);
        assert((b - q * a) * x + a * y == a * (y - q * x) + b * x) by (nonlinear_arith);
    }
}

/// `x mod l = r`.
#[derive(Debug, Clone, PartialEq, Eq)]
pub struct ModResult {
    pub l: BigInt,
    pub r: BigInt,
}

impl View for ModResult {
    type V = (int, int);

    /// The modulus and the residue, as integers.
    open spec fn view(&self) -> (int, int) {
        (int_of(self.l), int_of(self.r))
    }
}

/// One step of the recombination: `(l, r)` takes in the congruence
/// `x = r_k (mod l_k)`.
pub open spec fn crt_step(acc: (int, int), next: (int, int)) -> (int, int) {
    let p = extended_gcd_spec(acc.0, next.0).1;
    (acc.0 * next.0, acc.1 + (next.1 - acc.1) * acc.0 * p)
}

/// The recombination of a list of congruences, from `(1, 1)` on.
pub open spec fn crt_spec(list: Seq<(int, int)>) -> (int, int)
    decreases list.len(),
{
    if list.len() == 0 {
        (1, 1)
    } else {
        crt_step(crt_spec(list.drop_last()), list.last())
    }
}

/// The views of a list of congruences.
pub open spec fn mod_results_view(list: Seq<ModResult>) -> Seq<(int, int)> {
    Seq::new(list.len(), |i: int| list[i]@)
}

/// Chinese remainder theorem: from `x mod l_k = r_k` for each `k` to
/// `x mod (l_1 * ... * l_n) = r`.
pub fn chinese_remainder(mod_result: &Vec<ModResult>) -> (res: ModResult)
    ensures
        res@ == crt_spec(mod_results_view(mod_result@)),
{
    let mut l = big_from_i64(1);
    let mut r = big_from_i64(1);
    let mut i: usize = 0;
    let ghost all = mod_results_view(mod_result@);
    while i < mod_result.len()
        invariant
            0 <= i <= mod_result.len(),
            all == mod_results_view(mod_result@),
            (int_of(l), int_of(r)) == crt_spec(all.take(i as int)),
        decreases mod_result.len() - i,
    {
        let res = &mod_result[i];
        let (_g, p, _y) = extended_gcd(l.clone(), res.l.clone());
        let d = big_sub(&res.r, &r);
        let dl = big_mul(&d, &l);
        let dlp = big_mul(&dl, &p);
        proof {
            assert(all.take(i + 1).drop_last() =~= all.take(i as int));
            assert(all.take(i + 1).last() == mod_result@[i as int]@);
        }
        r = big_add(&r, &dlp);
        l = big_mul(&l, &res.l);
        i = i + 1;
    }
    proof {
        assert(all.take(i as int) =~= all);
    }
    ModResult { l, r }
}

/// `d` divides `a`.
pub open spec fn divides(d: int, a: int) -> bool
    recommends
        d > 0,
{
    a % d == 0
}

/// No integer from two on divides both `a` and `b`.
pub open spec fn coprime(a: int, b: int) -> bool {
    forall|d: int| d >= 2 ==> !(#[trigger] divides(d, a) && divides(d, b))
}

/// Any two moduli of the list are coprime.
pub open spec fn pairwise_coprime(list: Seq<(int, int)>) -> bool {
    forall|i: int, j: int|
        0 <= i < j < list.len() ==> coprime(#[trigger] list[i].0, #[trigger] list[j].0)
}

/// Every congruence has a modulus `l >= 1` and a residue in `[0, l)`.
pub open spec fn residues_reduced(list: Seq<(int, int)>) -> bool {
    forall|k: int| 0 <= k < list.len() ==> 0 <= (#[trigger] list[k]).1 < list[k].0
}

/// The product of the moduli.
pub open spec fn moduli_product(list: Seq<(int, int)>) -> int
    decreases list.len(),
{
    if list.len() == 0 {
        1
    } else {
        moduli_product(list.drop_last()) * list.last().0
    }
}

proof fn lemma_divides_multiple(d: int, t: int)
    requires
        d > 0,
    ensures
        divides(d, d * t),
        divides(d, t * d),
{
    lemma_mod_multiples_basic(t, d);
    assert(d * t == t * d) by (nonlinear_arith);
}

proof fn lemma_divides_witness(d: int, a: int)
    requires
        d > 0,
        divides(d, a),
    ensures
        a == d * (a / d),
{
    lemma_fundamental_div_mod(a, d);
}

proof fn lemma_divides_sum(d: int, a: int, b: int)
    requires
        d > 0,
        divides(d, a),
        divides(d, b),
    ensures
        divides(d, a + b),
{
    lemma_add_mod_noop(a, b, d);
    lemma_small_mod(0, d as nat);
}

proof fn lemma_divides_scaled(d: int, a: int, t: int)
    requires
        d > 0,
        divides(d, a),
    ensures
        divides(d, a * t),
        divides(d, t * a),
{
    lemma_divides_witness(d, a);
    let k = a / d;
    assert(a * t == d * (k * t)) by (nonlinear_arith)
        requires
            a == d * k,
    ;
    assert(t * a == a * t) by (nonlinear_arith);
    lemma_divides_multiple(d, k * t);
}

/// On non-negative arguments that are not both zero, the first component of
/// the extended Euclidean algorithm is positive and divides both.
pub proof fn lemma_extended_gcd_divides(a: int, b: int)
    requires
        a >= 0,
        b >= 0,
        a + b > 0,
    ensures
        extended_gcd_spec(a, b).0 >= 1,
        divides(extended_gcd_spec(a, b).0, a),
        divides(extended_gcd_spec(a, b).0, b),
    decreases a,
{
    if a == 0 {
        lemma_mod_self_0(b);
        lemma_small_mod(0, b as nat);
    } else {
        lemma_trunc_rem_bound(b, a);
        let r = trunc_rem(b, a);
        let q = trunc_div(b, a);
        lemma_extended_gcd_divides(r, a);
        let g = extended_gcd_spec(r, a).0;
        lemma_divides_scaled(g, a, q);
        lemma_divides_sum(g, q * a, r);
        assert(q * a + r == b);
    }
}

/// Coprime positive integers have Bezout coefficients.
pub proof fn lemma_coprime_bezout(a: int, b: int) -> (c: (int, int))
    requires
        a >= 1,
        b >= 1,
        coprime(a, b),
    ensures
        a * c.0 + b * c.1 == 1,
        c.0 == extended_gcd_spec(a, b).1,
        c.1 == extended_gcd_spec(a, b).2,
{
    lemma_extended_gcd_divides(a, b);
    lemma_extended_gcd_bezout(a, b);
    let g = extended_gcd_spec(a, b).0;
    if g >= 2 {
        assert(divides(g, a) && divides(g, b));
    }
    (extended_gcd_spec(a, b).1, extended_gcd_spec(a, b).2)
}

/// A product of two integers coprime to `c` is coprime to `c`.
pub proof fn lemma_coprime_product(a: int, b: int, c: int)
    requires
        a >= 1,
        b >= 1,
        c >= 1,
        coprime(a, c),
        coprime(b, c),
    ensures
        coprime(a * b, c),
{
    let (x, y) = lemma_coprime_bezout(a, c);
    let (u, v) = lemma_coprime_bezout(b, c);
    assert forall|d: int| d >= 2 implies !(#[trigger] divides(d, a * b) && divides(d, c)) by {
        if divides(d, a * b) && divides(d, c) {
            let w = a * x * v + y * b * u + c * y * v;
            let ax = a * x;
            let cy = c * y;
            let bu = b * u;
            let cv = c * v;
            assert((ax + cy) * (bu + cv) == ax * bu + ax * cv + cy * bu + cy * cv)
                by (nonlinear_arith);
            assert(ax * bu == (a * b) * (x * u)) by (nonlinear_arith)
                requires
                    ax == a * x,
                    bu == b * u,
            ;
            assert(ax * cv == c * (a * x * v)) by (nonlinear_arith)
                requires
                    ax == a * x,
                    cv == c * v,
            ;
            assert(cy * bu == c * (y * b * u)) by (nonlinear_arith)
                requires
                    cy == c * y,
                    bu == b * u,
            ;
            assert(cy * cv == c * (c * y * v)) by (nonlinear_arith)
                requires
                    cy == c * y,
                    cv == c * v,
            ;
            assert(c * (a * x * v) + c * (y * b * u) + c * (c * y * v) == c * w)
                by (nonlinear_arith)
                requires
                    w == a * x * v + y * b * u + c * y * v,
            ;
            assert((a * b) * (x * u) + c * w == 1);
            lemma_divides_scaled(d, a * b, x * u);
            lemma_divides_scaled(d, c, w);
            lemma_divides_sum(d, (a * b) * (x * u), c * w);
            lemma_small_mod(1, d as nat);
        }
    }
}

proof fn lemma_one_coprime(c: int)
    ensures
        coprime(1, c),
{
    assert forall|d: int| d >= 2 implies !(#[trigger] divides(d, 1) && divides(d, c)) by {
        lemma_small_mod(1, d as nat);
    }
}

proof fn lemma_product_coprime(list: Seq<(int, int)>, c: int)
    requires
        c >= 1,
        forall|k: int| 0 <= k < list.len() ==> (#[trigger] list[k]).0 >= 1,
        forall|k: int| 0 <= k < list.len() ==> coprime((#[trigger] list[k]).0, c),
    ensures
        moduli_product(list) >= 1,
        coprime(moduli_product(list), c),
    decreases list.len(),
{
    if list.len() == 0 {
        lemma_one_coprime(c);
    } else {
        let init = list.drop_last();
        assert forall|k: int| 0 <= k < init.len() implies (#[trigger] init[k]).0 >= 1 && coprime(
            init[k].0,
            c,
        ) by {
            assert(init[k] == list[k]);
        }
        lemma_product_coprime(init, c);
        assert(list.last() == list[list.len() - 1]);
        lemma_coprime_product(moduli_product(init), list.last().0, c);
        assert(moduli_product(init) * list.last().0 >= 1) by (nonlinear_arith)
            requires
                moduli_product(init) >= 1,
                list.last().0 >= 1,
        ;
    }
}

/// The Chinese remainder theorem for `chinese_remainder`: on pairwise coprime
/// moduli the result's modulus is their product, and its residue is congruent
/// to each given residue modulo the modulus that goes with it.
pub proof fn lemma_chinese_remainder(list: Seq<(int, int)>)
    requires
        residues_reduced(list),
        pairwise_coprime(list),
    ensures
        crt_spec(list).0 == moduli_product(list),
        crt_spec(list).0 >= 1,
        forall|k: int| 0 <= k < list.len() ==> divides((#[trigger] list[k]).0, crt_spec(list).0),
        forall|k: int| 0 <= k < list.len() ==> crt_spec(list).1 % (#[trigger] list[k]).0 == list[k].1,
    decreases list.len(),
{
    if list.len() > 0 {
        let init = list.drop_last();
        let n = list.len() - 1;
        assert(list.last() == list[n]);
        assert forall|k: int| 0 <= k < init.len() implies init[k] == list[k] by {}
        assert(residues_reduced(init)) by {
            assert forall|k: int| 0 <= k < init.len() implies 0 <= (#[trigger] init[k]).1
                < init[k].0 by {
                assert(init[k] == list[k]);
            }
        }
        assert(pairwise_coprime(init)) by {
            assert forall|i: int, j: int| 0 <= i < j < init.len() implies coprime(
                #[trigger] init[i].0,
                #[trigger] init[j].0,
            ) by {
                assert(init[i] == list[i]);
                assert(init[j] == list[j]);
            }
        }
        lemma_chinese_remainder(init);
        let big_l = crt_spec(init).0;
        let big_r = crt_spec(init).1;
        let l = list.last().0;
        let r = list.last().1;
        assert forall|k: int| 0 <= k < init.len() implies (#[trigger] init[k]).0 >= 1 && coprime(
            init[k].0,
            l,
        ) by {
            assert(init[k] == list[k]);
            assert(coprime(list[k].0, list[n].0));
        }
        lemma_product_coprime(init, l);
        let (p, y) = lemma_coprime_bezout(big_l, l);
        let new_l = big_l * l;
        let new_r = big_r + (r - big_r) * big_l * p;
        assert(crt_spec(list) == (new_l, new_r));
        assert(new_l >= 1) by (nonlinear_arith)
            requires
                big_l >= 1,
                l >= 1,
                new_l == big_l * l,
        ;
        // the new congruence
        let t = -(r - big_r) * y;
        assert(new_r == l * t + r) by (nonlinear_arith)
            requires
                big_l * p + l * y == 1,
                new_r == big_r + (r - big_r) * big_l * p,
                t == -(r - big_r) * y,
        ;
        lemma_mod_multiples_vanish(t, r, l);
        lemma_small_mod(r as nat, l as nat);
        lemma_divides_multiple(l, big_l);
        // the earlier congruences
        assert forall|k: int| 0 <= k < list.len() implies divides(
            (#[trigger] list[k]).0,
            crt_spec(list).0,
        ) && crt_spec(list).1 % list[k].0 == list[k].1 by {
            if k < n {
                assert(init[k] == list[k]);
                let lk = list[k].0;
                lemma_divides_scaled(lk, big_l, l);
                lemma_divides_witness(lk, big_l);
                let c = big_l / lk;
                let s = c * (r - big_r) * p;
                assert(new_r == lk * s + big_r) by (nonlinear_arith)
                    requires
                        big_l == lk * c,
                        new_r == big_r + (r - big_r) * big_l * p,
                        s == c * (r - big_r) * p,
                ;
                lemma_mod_multiples_vanish(s, big_r, lk);
            }
        }
    }
}

} // verus!
