use vstd::arithmetic::div_mod::{
    lemma_add_mod_noop, lemma_mod_equivalence, lemma_mod_twice, lemma_mul_mod_noop_general,
    lemma_small_mod, lemma_sub_mod_noop,
};
use vstd::prelude::*;

verus! {

/// `a` and `b` are congruent modulo `p`.
pub open spec fn congruent(a: int, b: int, p: int) -> bool {
    a % p == b % p
}

/// Sums of congruent numbers are congruent.
pub proof fn lemma_congruent_add(a: int, b: int, c: int, d: int, p: int)
    requires
        p >= 2,
        congruent(a, b, p),
        congruent(c, d, p),
    ensures
        congruent(a + c, b + d, p),
{
    lemma_add_mod_noop(a, c, p);
    lemma_add_mod_noop(b, d, p);
}

/// Differences of congruent numbers are congruent.
pub proof fn lemma_congruent_sub(a: int, b: int, c: int, d: int, p: int)
    requires
        p >= 2,
        congruent(a, b, p),
        congruent(c, d, p),
    ensures
        congruent(a - c, b - d, p),
{
    lemma_sub_mod_noop(a, c, p);
    lemma_sub_mod_noop(b, d, p);
}

/// Products of congruent numbers are congruent.
pub proof fn lemma_congruent_mul(a: int, b: int, c: int, d: int, p: int)
    requires
        p >= 2,
        congruent(a, b, p),
        congruent(c, d, p),
    ensures
        congruent(a * c, b * d, p),
{
    lemma_mul_mod_noop_general(a, c, p);
    lemma_mul_mod_noop_general(b, d, p);
}

/// A number is congruent to its residue.
pub proof fn lemma_congruent_residue(a: int, p: int)
    requires
        p >= 2,
    ensures
        congruent(a % p, a, p),
{
    lemma_mod_twice(a, p);
}

/// Numbers are congruent where their difference is congruent to zero.
pub proof fn lemma_congruent_difference(a: int, b: int, p: int)
    requires
        p >= 2,
    ensures
        congruent(a, b, p) <==> (a - b) % p == 0,
        congruent(a, b, p) <==> congruent(a - b, 0, p),
{
    lemma_mod_equivalence(a, b, p);
    lemma_small_mod(0, p as nat);
}

} // verus!
