use crate::bigint::{
    coprime, crt_spec, divides, lemma_chinese_remainder, moduli_product, pairwise_coprime,
    residues_reduced,
};
use crate::integer::is_prime;
use crate::schoof::{
    eigenvalue_residue, even_residue, odd_residue, residue_spec, schoof_from, schoof_spec,
    small_prime, small_prime_count, Field,
};
use vstd::arithmetic::div_mod::{lemma_mod_bound, lemma_small_mod};
use vstd::prelude::*;

verus! {

/// The product of the first `i` small primes.
pub open spec fn small_prime_product(i: int) -> int
    decreases i,
{
    if i <= 0 {
        1
    } else {
        small_prime_product(i - 1) * small_prime(i - 1)
    }
}

/// `l` is one of the first `i` small primes.
pub open spec fn small_prime_below(l: int, i: int) -> bool
    decreases i,
{
    if i <= 0 {
        false
    } else {
        l == small_prime(i - 1) || small_prime_below(l, i - 1)
    }
}

/// The small primes are prime.
pub proof fn lemma_small_prime(i: int)
    ensures
        is_prime(small_prime(i)),
{
    let n = small_prime(i);
    assert forall|d: int| 2 <= d < n implies #[trigger] (n % d) != 0 by {
        assert(d == 2 || d == 3 || d == 4 || d == 5 || d == 6 || d == 7 || d == 8 || d == 9 || d
            == 10 || d == 11 || d == 12 || d == 13 || d == 14 || d == 15 || d == 16 || d == 17 || d
            == 18);
    }
}

/// Two primes that differ are coprime.
pub proof fn lemma_primes_coprime(a: int, b: int)
    requires
        is_prime(a),
        is_prime(b),
        a != b,
    ensures
        coprime(a, b),
{
    assert forall|d: int| d >= 2 implies !(#[trigger] divides(d, a) && divides(d, b)) by {
        if divides(d, a) && divides(d, b) {
            if d > a {
                lemma_small_mod(a as nat, d as nat);
            }
            if d > b {
                lemma_small_mod(b as nat, d as nat);
            }
            assert(d == a);
            assert(d == b);
        }
    }
}

/// One of the first `i` small primes is a prime of at most nineteen.
pub proof fn lemma_small_prime_range(l: int, i: int)
    requires
        small_prime_below(l, i),
    ensures
        is_prime(l),
        2 <= l <= 19,
    decreases i,
{
    if l == small_prime(i - 1) {
        lemma_small_prime(i - 1);
    } else {
        lemma_small_prime_range(l, i - 1);
    }
}

/// One of the first `i` small primes is below the small prime of place `i`
/// and coprime to it.
pub proof fn lemma_small_prime_below(l: int, i: int)
    requires
        0 <= i < small_prime_count(),
        small_prime_below(l, i),
    ensures
        coprime(l, small_prime(i)),
        l < small_prime(i),
    decreases i,
{
    if l != small_prime(i - 1) {
        lemma_small_prime_below(l, i - 1);
    }
    lemma_small_prime_range(l, i);
    lemma_small_prime(i);
    lemma_primes_coprime(l, small_prime(i));
}

/// A residue of the trace modulo `l` lies in `[0, l)`.
pub proof fn lemma_residue_reduced(c: Field, l: int)
    requires
        l >= 2,
        residue_spec(c, l) is Ok,
    ensures
        0 <= residue_spec(c, l)->Ok_0 < l,
{
    reveal(even_residue);
    reveal(odd_residue);
    reveal(eigenvalue_residue);
    assert forall|v: int| 0 <= #[trigger] (v % l) < l by {
        lemma_mod_bound(v, l);
    }
}

/// What the driver returns from place `i` on, for what it has gathered so
/// far: reduced residues to pairwise coprime moduli whose product passes
/// `4 sqrt(p)`.
pub proof fn lemma_schoof_from(c: Field, i: int, product: int, acc: Seq<(int, int)>)
    requires
        0 <= i <= small_prime_count(),
        2 <= c.p < 0x8000_0000,
        product == moduli_product(acc),
        residues_reduced(acc),
        pairwise_coprime(acc),
        forall|k: int| 0 <= k < acc.len() ==> small_prime_below((#[trigger] acc[k]).0, i),
        product * (if small_prime_below(c.p, i) {
            c.p
        } else {
            1
        }) == small_prime_product(i),
        schoof_from(c, i, product, acc) is Ok,
    ensures
        residues_reduced(schoof_from(c, i, product, acc)->Ok_0),
        pairwise_coprime(schoof_from(c, i, product, acc)->Ok_0),
        moduli_product(schoof_from(c, i, product, acc)->Ok_0) * moduli_product(
            schoof_from(c, i, product, acc)->Ok_0,
        ) > 16 * c.p,
    decreases small_prime_count() - i,
{
    let l = small_prime(i);
    if i >= small_prime_count() {
        lemma_small_prime_product();
        let s = if small_prime_below(c.p, i) {
            c.p
        } else {
            1
        };
        if small_prime_below(c.p, i) {
            lemma_small_prime_range(c.p, i);
        }
        assert(product >= 510510) by (nonlinear_arith)
            requires
                product * s == 9699690,
                1 <= s <= 19,
        ;
        assert(product * product >= 510510 * 510510) by (nonlinear_arith)
            requires
                product >= 510510,
        ;
    } else if product * product > 16 * c.p {
    } else if l == c.p {
        if small_prime_below(c.p, i) {
            lemma_small_prime_below(c.p, i);
        }
        assert forall|k: int| 0 <= k < acc.len() implies small_prime_below(
            (#[trigger] acc[k]).0,
            i + 1,
        ) by {}
        lemma_schoof_from(c, i + 1, product, acc);
    } else {
        let r = residue_spec(c, l)->Ok_0;
        let acc2 = acc.push((l, r));
        lemma_small_prime(i);
        lemma_residue_reduced(c, l);
        assert(acc2.drop_last() =~= acc);
        assert(acc2.last() == (l, r));
        assert(moduli_product(acc2) == product * l);
        assert forall|k: int| 0 <= k < acc2.len() implies 0 <= (#[trigger] acc2[k]).1
            < acc2[k].0 by {
            if k < acc.len() {
                assert(acc2[k] == acc[k]);
            }
        }
        assert forall|k: int| 0 <= k < acc2.len() implies small_prime_below(
            (#[trigger] acc2[k]).0,
            i + 1,
        ) by {
            if k < acc.len() {
                assert(acc2[k] == acc[k]);
            }
        }
        assert forall|j: int, k: int| 0 <= j < k < acc2.len() implies coprime(
            (#[trigger] acc2[j]).0,
            (#[trigger] acc2[k]).0,
        ) by {
            assert(acc2[j] == acc[j]);
            if k < acc.len() {
                assert(acc2[k] == acc[k]);
            } else {
                lemma_small_prime_below(acc[j].0, i);
            }
        }
        let s = if small_prime_below(c.p, i) {
            c.p
        } else {
            1
        };
        assert((product * l) * s == (product * s) * l) by (nonlinear_arith);
        lemma_schoof_from(c, i + 1, product * l, acc2);
    }
}

/// The product of all the small primes.
proof fn lemma_small_prime_product()
    ensures
        small_prime_product(small_prime_count()) == 9699690,
{
    assert(small_prime_product(0) == 1);
    assert(small_prime_product(1) == 2);
    assert(small_prime_product(2) == 6);
    assert(small_prime_product(3) == 30);
    assert(small_prime_product(4) == 210);
    assert(small_prime_product(5) == 2310);
    assert(small_prime_product(6) == 30030);
    assert(small_prime_product(7) == 510510);
    assert(small_prime_product(8) == 9699690);
}

/// The residues that `schoof` returns for a prime `p` below `2^31` are
/// reduced, their moduli are pairwise coprime, and `chinese_remainder`
/// recombines them to a modulus above `4 sqrt(p)`, the width of the range in
/// which the trace lies, and to a residue that agrees with each of them.
pub proof fn lemma_schoof_result(a: int, b: int, p: int)
    requires
        p < 0x8000_0000,
        schoof_spec(a, b, p) is Ok,
    ensures
        residues_reduced(schoof_spec(a, b, p)->Ok_0),
        pairwise_coprime(schoof_spec(a, b, p)->Ok_0),
        crt_spec(schoof_spec(a, b, p)->Ok_0).0 == moduli_product(schoof_spec(a, b, p)->Ok_0),
        crt_spec(schoof_spec(a, b, p)->Ok_0).0 >= 1,
        crt_spec(schoof_spec(a, b, p)->Ok_0).0 * crt_spec(schoof_spec(a, b, p)->Ok_0).0 > 16 * p,
        forall|k: int|
            0 <= k < schoof_spec(a, b, p)->Ok_0.len() ==> crt_spec(schoof_spec(a, b, p)->Ok_0).1 % (
            #[trigger] schoof_spec(a, b, p)->Ok_0[k]).0 == schoof_spec(a, b, p)->Ok_0[k].1,
{
    let c = Field { a, b, p };
    let empty = Seq::<(int, int)>::empty();
    lemma_schoof_from(c, 0, 1, empty);
    lemma_chinese_remainder(schoof_spec(a, b, p)->Ok_0);
}

} // verus!
