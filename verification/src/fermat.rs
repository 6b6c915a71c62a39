use crate::bigint::{coprime, divides, inverse_spec, lemma_coprime_bezout};
use crate::error::Error;
use crate::integer::is_prime;
use vstd::arithmetic::div_mod::{
    lemma_fundamental_div_mod, lemma_mod_bound, lemma_mod_multiples_vanish, lemma_mod_twice,
    lemma_mul_mod_noop_general, lemma_small_mod, lemma_sub_mod_noop,
};
use vstd::arithmetic::power::{lemma_pow0, lemma_pow1, lemma_pow_adds, pow};
use vstd::prelude::*;

verus! {

/// `n!`.
pub open spec fn factorial(n: nat) -> int
    decreases n,
{
    if n == 0 {
        1
    } else {
        factorial((n - 1) as nat) * n
    }
}

/// The product of the numbers of a list.
pub open spec fn product(s: Seq<int>) -> int
    decreases s.len(),
{
    if s.len() == 0 {
        1
    } else {
        product(s.drop_last()) * s.last()
    }
}

/// No number occurs twice in the list.
pub open spec fn injective(s: Seq<int>) -> bool {
    forall|i: int, j: int| 0 <= i < j < s.len() ==> #[trigger] s[i] != #[trigger] s[j]
}

/// Every number of the list lies in `[1, m]`.
pub open spec fn in_range(s: Seq<int>, m: int) -> bool {
    forall|i: int| 0 <= i < s.len() ==> 1 <= #[trigger] s[i] <= m
}

proof fn lemma_product_push(s: Seq<int>, x: int)
    ensures
        product(s.push(x)) == product(s) * x,
{
    assert(s.push(x).drop_last() =~= s);
}

/// The product of a list is one of its numbers times the product of the
/// others.
proof fn lemma_product_remove(s: Seq<int>, i: int)
    requires
        0 <= i < s.len(),
    ensures
        product(s) == s[i] * product(s.remove(i)),
    decreases s.len(),
{
    if i == s.len() - 1 {
        assert(s.remove(i) =~= s.drop_last());
        assert(product(s.drop_last()) * s.last() == s.last() * product(s.drop_last()))
            by (nonlinear_arith);
    } else {
        let d = s.drop_last();
        lemma_product_remove(d, i);
        assert(s.remove(i) =~= d.remove(i).push(s.last()));
        lemma_product_push(d.remove(i), s.last());
        assert(d[i] == s[i]);
        let x = s[i];
        let y = product(d.remove(i));
        let z = s.last();
        assert((x * y) * z == x * (y * z)) by (nonlinear_arith);
    }
}

proof fn lemma_remove_injective(s: Seq<int>, i: int, m: int)
    requires
        0 <= i < s.len(),
        injective(s),
        in_range(s, m),
        s[i] == m,
    ensures
        injective(s.remove(i)),
        in_range(s.remove(i), m - 1),
{
    let r = s.remove(i);
    assert forall|a: int, b: int| 0 <= a < b < r.len() implies #[trigger] r[a] != #[trigger] r[b] by {
        let a0 = if a < i {
            a
        } else {
            a + 1
        };
        let b0 = if b < i {
            b
        } else {
            b + 1
        };
        assert(r[a] == s[a0]);
        assert(r[b] == s[b0]);
    }
    assert forall|a: int| 0 <= a < r.len() implies 1 <= #[trigger] r[a] <= m - 1 by {
        let a0 = if a < i {
            a
        } else {
            a + 1
        };
        assert(r[a] == s[a0]);
        if a0 < i {
            assert(s[a0] != s[i]);
        } else {
            assert(s[i] != s[a0]);
        }
    }
}

/// A list without repetitions of numbers in `[1, m]` has `m` numbers at
/// most.
proof fn lemma_pigeonhole(s: Seq<int>, m: int)
    requires
        m >= 0,
        injective(s),
        in_range(s, m),
    ensures
        s.len() <= m,
    decreases m,
{
    if s.len() > 0 {
        if m == 0 {
            assert(1 <= s[0] <= 0);
        } else if exists|i: int| 0 <= i < s.len() && #[trigger] s[i] == m {
            let i = choose|i: int| 0 <= i < s.len() && #[trigger] s[i] == m;
            lemma_remove_injective(s, i, m);
            lemma_pigeonhole(s.remove(i), m - 1);
        } else {
            assert(in_range(s, m - 1));
            lemma_pigeonhole(s, m - 1);
        }
    }
}

/// The product of the numbers `1, ..., n` in any order is `n!`.
proof fn lemma_product_of_permutation(s: Seq<int>, n: nat)
    requires
        s.len() == n,
        injective(s),
        in_range(s, n as int),
    ensures
        product(s) == factorial(n),
    decreases n,
{
    if n > 0 {
        if !exists|i: int| 0 <= i < s.len() && #[trigger] s[i] == n as int {
            assert(in_range(s, n - 1));
            lemma_pigeonhole(s, n - 1);
        }
        let i = choose|i: int| 0 <= i < s.len() && #[trigger] s[i] == n as int;
        lemma_remove_injective(s, i, n as int);
        lemma_product_of_permutation(s.remove(i), (n - 1) as nat);
        lemma_product_remove(s, i);
        assert(s[i] * factorial((n - 1) as nat) == factorial((n - 1) as nat) * n)
            by (nonlinear_arith)
            requires
                s[i] == n,
        ;
    }
}

/// Modulo a prime, a number that the prime does not divide has an inverse.
pub proof fn lemma_prime_inverse(x: int, p: int) -> (u: int)
    requires
        is_prime(p),
        x % p != 0,
    ensures
        (x * u) % p == 1,
{
    let r = x % p;
    lemma_mod_bound(x, p);
    assert(coprime(r, p)) by {
        assert forall|d: int| d >= 2 implies !(#[trigger] divides(d, r) && divides(d, p)) by {
            if divides(d, r) && divides(d, p) {
                if d > p {
                    lemma_small_mod(p as nat, d as nat);
                } else if d == p {
                    lemma_small_mod(r as nat, p as nat);
                }
            }
        }
    }
    let (u, v) = lemma_coprime_bezout(r, p);
    // r u + p v = 1, so x u = 1 (mod p)
    lemma_mod_multiples_vanish(v, r * u, p);
    assert(p * v + r * u == 1);
    lemma_small_mod(1, p as nat);
    lemma_mul_mod_noop_general(x, u, p);
    lemma_mul_mod_noop_general(r, u, p);
    lemma_mod_twice(x, p);
    u
}

/// The lemma of Euclid: a prime that divides a product divides a factor.
pub proof fn lemma_prime_divides_product(x: int, y: int, p: int)
    requires
        is_prime(p),
        (x * y) % p == 0,
        x % p != 0,
    ensures
        y % p == 0,
{
    let u = lemma_prime_inverse(x, p);
    // y = y (x u) = (x y) u = 0 (mod p)
    lemma_mul_mod_noop_general(y, x * u, p);
    lemma_mod_bound(y, p);
    assert((y * (x * u)) % p == ((y % p) * 1) % p);
    assert((y % p) * 1 == y % p);
    lemma_mod_twice(y, p);
    assert(y * (x * u) == (x * y) * u) by (nonlinear_arith);
    lemma_mul_mod_noop_general(x * y, u, p);
    assert(0 * (u % p) == 0);
    lemma_small_mod(0, p as nat);
}

/// Congruent numbers, cancelled by a factor that the prime does not divide,
/// are congruent.
proof fn lemma_prime_cancel(x: int, y: int, f: int, p: int)
    requires
        is_prime(p),
        f % p != 0,
        (x * f) % p == (y * f) % p,
    ensures
        x % p == y % p,
{
    lemma_sub_mod_noop(x * f, y * f, p);
    lemma_small_mod(0, p as nat);
    assert(x * f - y * f == f * (x - y)) by (nonlinear_arith);
    lemma_prime_divides_product(f, x - y, p);
    // x - y = 0 (mod p)
    lemma_fundamental_div_mod(x - y, p);
    let k = (x - y) / p;
    assert(x == p * k + y);
    lemma_mod_multiples_vanish(k, y, p);
}

/// The residues of `a, 2 a, ..., n a` modulo `p`.
pub open spec fn multiples(a: int, p: int, n: nat) -> Seq<int> {
    Seq::new(n, |k: int| (a * (k + 1)) % p)
}

/// The residues of the first `p - 1` multiples of a number that the prime
/// `p` does not divide are the numbers `1, ..., p - 1` in some order.
proof fn lemma_multiples_permute(a: int, p: int)
    requires
        is_prime(p),
        a % p != 0,
    ensures
        injective(multiples(a, p, (p - 1) as nat)),
        in_range(multiples(a, p, (p - 1) as nat), p - 1),
{
    let s = multiples(a, p, (p - 1) as nat);
    assert forall|i: int| 0 <= i < s.len() implies 1 <= #[trigger] s[i] <= p - 1 by {
        lemma_mod_bound(a * (i + 1), p);
        if s[i] == 0 {
            lemma_prime_divides_product(a, i + 1, p);
            lemma_small_mod((i + 1) as nat, p as nat);
        }
    }
    assert forall|i: int, j: int| 0 <= i < j < s.len() implies #[trigger] s[i] != #[trigger] s[j] by {
        if s[i] == s[j] {
            assert((i + 1) * a == a * (i + 1)) by (nonlinear_arith);
            assert((j + 1) * a == a * (j + 1)) by (nonlinear_arith);
            lemma_prime_cancel(i + 1, j + 1, a, p);
            lemma_small_mod((i + 1) as nat, p as nat);
            lemma_small_mod((j + 1) as nat, p as nat);
        }
    }
}

/// The product of the residues of `a, 2 a, ..., n a` is congruent to
/// `a^n n!`.
proof fn lemma_product_of_multiples(a: int, p: int, n: nat)
    requires
        p >= 2,
    ensures
        product(multiples(a, p, n)) % p == (pow(a, n) * factorial(n)) % p,
    decreases n,
{
    if n == 0 {
        lemma_pow0(a);
    } else {
        let m = (n - 1) as nat;
        lemma_product_of_multiples(a, p, m);
        assert(multiples(a, p, n).drop_last() =~= multiples(a, p, m));
        let x = product(multiples(a, p, m));
        let y = pow(a, m) * factorial(m);
        let last = (a * n) % p;
        assert(multiples(a, p, n).last() == last);
        lemma_mul_mod_noop_general(x, a * n, p);
        lemma_mul_mod_noop_general(y, a * n, p);
        lemma_mod_twice(a * n, p);
        lemma_pow_adds(a, m, 1);
        lemma_pow1(a);
        assert(y * (a * n) == (pow(a, m) * a) * (factorial(m) * n)) by (nonlinear_arith)
            requires
                y == pow(a, m) * factorial(m),
        ;
        lemma_mul_mod_noop_general(x, last, p);
        lemma_mod_twice(last, p);
    }
}

/// A prime does not divide the factorial of a smaller number.
proof fn lemma_factorial_not_divisible(n: nat, p: int)
    requires
        is_prime(p),
        n < p,
    ensures
        factorial(n) % p != 0,
    decreases n,
{
    if n == 0 {
        lemma_small_mod(1, p as nat);
    } else {
        lemma_factorial_not_divisible((n - 1) as nat, p);
        if factorial(n) % p == 0 {
            lemma_prime_divides_product(factorial((n - 1) as nat), n as int, p);
            lemma_small_mod(n, p as nat);
        }
    }
}

/// The little theorem of Fermat: `a^(p-1) = 1 (mod p)` for a prime `p` that
/// does not divide `a`.
pub proof fn lemma_fermat(a: int, p: int)
    requires
        is_prime(p),
        a % p != 0,
    ensures
        pow(a, (p - 1) as nat) % p == 1,
{
    let n = (p - 1) as nat;
    lemma_multiples_permute(a, p);
    lemma_product_of_permutation(multiples(a, p, n), n);
    lemma_product_of_multiples(a, p, n);
    lemma_factorial_not_divisible(n, p);
    // a^(p-1) (p-1)! = (p-1)! = 1 (p-1)! (mod p)
    assert(1 * factorial(n) == factorial(n));
    lemma_prime_cancel(pow(a, n), 1, factorial(n), p);
    lemma_small_mod(1, p as nat);
}

/// Modulo a prime `p`, `a^(p-2)` is the inverse of every `a` that `p` does
/// not divide: `inverse` succeeds on exactly these.
pub proof fn lemma_inverse_modulo_prime(a: int, p: int)
    requires
        is_prime(p),
    ensures
        a % p != 0 ==> inverse_spec(a, p) is Ok,
        a % p == 0 ==> inverse_spec(a, p) == Err::<int, Error>(Error::NonInvertible),
{
    let e = (p - 2) as nat;
    lemma_mul_mod_noop_general(a, pow(a, e), p);
    lemma_mod_twice(pow(a, e), p);
    if a % p != 0 {
        lemma_fermat(a, p);
        lemma_pow_adds(a, 1, e);
        lemma_pow1(a);
    } else {
        assert(0 * (pow(a, e) % p) == 0);
        lemma_small_mod(0, p as nat);
    }
}

} // verus!
