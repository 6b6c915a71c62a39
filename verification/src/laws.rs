use crate::algebra::{
    cross_terms, has_variable, highest_term, mod_terms, neg_terms, poly_add, poly_mod, poly_monic,
    poly_mul, poly_mul_mod, poly_of_term, poly_one, poly_power, poly_power_modulo, poly_sub,
    power_loop, power_modulo_loop, scale_terms,
};
use crate::bigint::{inverse_spec, lemma_inverse_is_inverse};
use crate::error::Error;
use crate::model::{
    all_below, canonical, coeff, delta, lemma_canonical_unique, lemma_coeff_absent, lemma_coeff_at,
    lemma_coeff_concat, lemma_coeff_push, lemma_coeff_single, lemma_coeff_support,
    lemma_mono_lt_order, lemma_normalize_denotes, lemma_normalize_is, mono_lt, normalize, sorted,
    MonomialModel, TermModel,
};
use crate::term::{constant_term, term_mod, term_mul, term_neg};
use vstd::arithmetic::div_mod::{
    lemma_add_mod_noop, lemma_mod_twice, lemma_mul_mod_noop_general, lemma_small_mod,
    lemma_sub_mod_noop,
};
use vstd::prelude::*;

verus! {

/// `a (mod p)` for a modulus of at least two.
pub open spec fn reduce(a: Seq<TermModel>, p: int) -> Seq<TermModel> {
    normalize(mod_terms(a, p))
}

/// The coefficients of a list with all its terms negated.
pub proof fn lemma_coeff_neg_terms(s: Seq<TermModel>)
    ensures
        forall|m: MonomialModel| #[trigger] coeff(neg_terms(s), m) == -coeff(s, m),
    decreases s.len(),
{
    if s.len() == 0 {
        assert(neg_terms(s) =~= Seq::<TermModel>::empty());
    } else {
        lemma_coeff_neg_terms(s.drop_last());
        assert(neg_terms(s) =~= neg_terms(s.drop_last()).push(term_neg(s.last())));
        lemma_coeff_push(neg_terms(s.drop_last()), term_neg(s.last()));
    }
}

/// The coefficients of a polynomial in canonical form after the reduction
/// of its terms.
pub proof fn lemma_coeff_mod_terms(s: Seq<TermModel>, p: int)
    requires
        sorted(s),
        p >= 2,
    ensures
        forall|m: MonomialModel| #[trigger] coeff(mod_terms(s, p), m) == coeff(s, m) % p,
{
    let t = mod_terms(s, p);
    assert(sorted(t)) by {
        assert forall|i: int, j: int| 0 <= i < j < t.len() implies mono_lt(
            #[trigger] t[i].mono,
            #[trigger] t[j].mono,
        ) by {
            assert(t[i].mono == s[i].mono);
            assert(t[j].mono == s[j].mono);
        }
    }
    assert forall|m: MonomialModel| #[trigger] coeff(t, m) == coeff(s, m) % p by {
        if exists|i: int| 0 <= i < s.len() && (#[trigger] s[i]).mono == m {
            let i = choose|i: int| 0 <= i < s.len() && (#[trigger] s[i]).mono == m;
            lemma_coeff_at(s, i);
            lemma_coeff_at(t, i);
            assert(t[i] == term_mod(s[i], p));
        } else {
            lemma_coeff_absent(s, m);
            assert forall|i: int| 0 <= i < t.len() implies (#[trigger] t[i]).mono != m by {
                assert(t[i].mono == s[i].mono);
            }
            lemma_coeff_absent(t, m);
            lemma_small_mod(0, p as nat);
        }
    }
}

/// The coefficients of `a (mod p)` are those of `a`, reduced.
pub proof fn lemma_reduce(a: Seq<TermModel>, p: int)
    requires
        canonical(a),
        p >= 2,
    ensures
        canonical(reduce(a, p)),
        forall|m: MonomialModel| #[trigger] coeff(reduce(a, p), m) == coeff(a, m) % p,
{
    lemma_normalize_denotes(mod_terms(a, p));
    lemma_coeff_mod_terms(a, p);
    assert forall|m: MonomialModel| #[trigger] coeff(reduce(a, p), m) == coeff(a, m) % p by {
        assert(coeff(normalize(mod_terms(a, p)), m) == coeff(mod_terms(a, p), m));
    }
}

/// Polynomials in canonical form whose coefficients are congruent modulo
/// `p` are equal modulo `p`.
pub proof fn lemma_reduce_congruent(a: Seq<TermModel>, b: Seq<TermModel>, p: int)
    requires
        canonical(a),
        canonical(b),
        p >= 2,
        forall|m: MonomialModel| coeff(a, m) % p == coeff(b, m) % p,
    ensures
        reduce(a, p) == reduce(b, p),
{
    lemma_reduce(a, p);
    lemma_reduce(b, p);
    assert forall|m: MonomialModel| coeff(reduce(a, p), m) == coeff(reduce(b, p), m) by {
        assert(coeff(reduce(a, p), m) == coeff(a, m) % p);
        assert(coeff(reduce(b, p), m) == coeff(b, m) % p);
    }
    lemma_canonical_unique(reduce(a, p), reduce(b, p));
}

/// Reduction modulo `p` goes through sums:
/// `(a + b) mod p = ((a mod p) + (b mod p)) mod p`.
pub proof fn lemma_add_modulo(a: Seq<TermModel>, b: Seq<TermModel>, p: int)
    requires
        canonical(a),
        canonical(b),
        p >= 2,
    ensures
        poly_mod(poly_add(a, b), p) == poly_mod(
            poly_add(poly_mod(a, p)->Ok_0, poly_mod(b, p)->Ok_0),
            p,
        ),
{
    let ar = reduce(a, p);
    let br = reduce(b, p);
    lemma_reduce(a, p);
    lemma_reduce(b, p);
    lemma_normalize_denotes(a + b);
    lemma_normalize_denotes(ar + br);
    lemma_coeff_concat(a, b);
    lemma_coeff_concat(ar, br);
    assert forall|m: MonomialModel| coeff(poly_add(a, b), m) % p == coeff(poly_add(ar, br), m)
        % p by {
        assert(coeff(normalize(a + b), m) == coeff(a + b, m));
        assert(coeff(normalize(ar + br), m) == coeff(ar + br, m));
        assert(coeff(ar, m) == coeff(a, m) % p);
        assert(coeff(br, m) == coeff(b, m) % p);
        lemma_add_mod_noop(coeff(a, m), coeff(b, m), p);
    }
    lemma_reduce_congruent(poly_add(a, b), poly_add(ar, br), p);
}

/// Reduction modulo `p` goes through differences:
/// `(a - b) mod p = ((a mod p) - (b mod p)) mod p`.
pub proof fn lemma_sub_modulo(a: Seq<TermModel>, b: Seq<TermModel>, p: int)
    requires
        canonical(a),
        canonical(b),
        p >= 2,
    ensures
        poly_mod(poly_sub(a, b), p) == poly_mod(
            poly_sub(poly_mod(a, p)->Ok_0, poly_mod(b, p)->Ok_0),
            p,
        ),
{
    let ar = reduce(a, p);
    let br = reduce(b, p);
    lemma_reduce(a, p);
    lemma_reduce(b, p);
    lemma_normalize_denotes(a + neg_terms(b));
    lemma_normalize_denotes(ar + neg_terms(br));
    lemma_coeff_concat(a, neg_terms(b));
    lemma_coeff_concat(ar, neg_terms(br));
    lemma_coeff_neg_terms(b);
    lemma_coeff_neg_terms(br);
    assert forall|m: MonomialModel| coeff(poly_sub(a, b), m) % p == coeff(poly_sub(ar, br), m)
        % p by {
        assert(coeff(normalize(a + neg_terms(b)), m) == coeff(a + neg_terms(b), m));
        assert(coeff(normalize(ar + neg_terms(br)), m) == coeff(ar + neg_terms(br), m));
        assert(coeff(neg_terms(b), m) == -coeff(b, m));
        assert(coeff(neg_terms(br), m) == -coeff(br, m));
        assert(coeff(ar, m) == coeff(a, m) % p);
        assert(coeff(br, m) == coeff(b, m) % p);
        lemma_sub_mod_noop(coeff(a, m), coeff(b, m), p);
    }
    lemma_reduce_congruent(poly_sub(a, b), poly_sub(ar, br), p);
}

/// The terms with a coefficient other than zero.
pub open spec fn nonzero_terms(s: Seq<TermModel>) -> Seq<TermModel>
    decreases s.len(),
{
    if s.len() == 0 {
        s
    } else if s.last().coef == 0 {
        nonzero_terms(s.drop_last())
    } else {
        nonzero_terms(s.drop_last()).push(s.last())
    }
}

proof fn lemma_nonzero_terms(s: Seq<TermModel>)
    requires
        sorted(s),
    ensures
        canonical(nonzero_terms(s)),
        forall|m: MonomialModel| #[trigger] coeff(nonzero_terms(s), m) == coeff(s, m),
        forall|u: MonomialModel| all_below(s, u) ==> #[trigger] all_below(nonzero_terms(s), u),
        has_variable(nonzero_terms(s)) ==> has_variable(s),
    decreases s.len(),
{
    let f = nonzero_terms(s);
    if s.len() > 0 {
        let d = s.drop_last();
        let last = s.last();
        assert(sorted(d)) by {
            assert forall|i: int, j: int| 0 <= i < j < d.len() implies mono_lt(
                #[trigger] d[i].mono,
                #[trigger] d[j].mono,
            ) by {
                assert(d[i] == s[i] && d[j] == s[j]);
            }
        }
        assert(all_below(d, last.mono)) by {
            assert forall|i: int| 0 <= i < d.len() implies mono_lt(
                (#[trigger] d[i]).mono,
                last.mono,
            ) by {
                assert(d[i] == s[i]);
                assert(last == s[s.len() - 1]);
            }
        }
        lemma_nonzero_terms(d);
        let fd = nonzero_terms(d);
        assert(all_below(fd, last.mono));
        if last.coef != 0 {
            lemma_coeff_push(fd, last);
            assert(canonical(f)) by {
                assert forall|i: int, j: int| 0 <= i < j < f.len() implies mono_lt(
                    #[trigger] f[i].mono,
                    #[trigger] f[j].mono,
                ) by {
                    if j < fd.len() {
                        assert(f[i] == fd[i] && f[j] == fd[j]);
                    } else {
                        assert(f[i] == fd[i]);
                    }
                }
                assert forall|i: int| 0 <= i < f.len() implies (#[trigger] f[i]).coef != 0 by {
                    if i < fd.len() {
                        assert(f[i] == fd[i]);
                    }
                }
            }
        }
        assert forall|u: MonomialModel| all_below(s, u) implies #[trigger] all_below(f, u) by {
            assert(all_below(d, u)) by {
                assert forall|i: int| 0 <= i < d.len() implies mono_lt(
                    (#[trigger] d[i]).mono,
                    u,
                ) by {
                    assert(d[i] == s[i]);
                }
            }
            assert(all_below(fd, u));
            assert(mono_lt(last.mono, u)) by {
                assert(last == s[s.len() - 1]);
            }
            assert forall|i: int| 0 <= i < f.len() implies mono_lt((#[trigger] f[i]).mono, u) by {
                if i < fd.len() {
                    assert(f[i] == fd[i]);
                }
            }
        }
        if has_variable(f) {
            let i = choose|i: int| 0 <= i < f.len() && (#[trigger] f[i]).mono.var is Some;
            if i < fd.len() {
                assert(f[i] == fd[i]);
                assert(has_variable(fd));
                let j = choose|j: int| 0 <= j < d.len() && (#[trigger] d[j]).mono.var is Some;
                assert(s[j] == d[j]);
            } else {
                assert(s[s.len() - 1] == last);
            }
        }
    } else {
        assert forall|u: MonomialModel| all_below(s, u) implies #[trigger] all_below(f, u) by {}
    }
}

/// A sorted list of terms denotes what is left without its zero terms.
pub proof fn lemma_normalize_sorted(s: Seq<TermModel>)
    requires
        sorted(s),
    ensures
        normalize(s) == nonzero_terms(s),
{
    lemma_nonzero_terms(s);
    lemma_normalize_is(s, nonzero_terms(s));
}

/// The reduction of the terms keeps their order.
pub proof fn lemma_sorted_mod_terms(s: Seq<TermModel>, p: int)
    requires
        sorted(s),
    ensures
        sorted(mod_terms(s, p)),
        has_variable(mod_terms(s, p)) ==> has_variable(s),
{
    let t = mod_terms(s, p);
    assert forall|i: int, j: int| 0 <= i < j < t.len() implies mono_lt(
        #[trigger] t[i].mono,
        #[trigger] t[j].mono,
    ) by {
        assert(t[i].mono == s[i].mono);
        assert(t[j].mono == s[j].mono);
    }
    if has_variable(t) {
        let i = choose|i: int| 0 <= i < t.len() && (#[trigger] t[i]).mono.var is Some;
        assert(s[i].mono == t[i].mono);
    }
}

/// A list of terms whose coefficients are all zero has no coefficient.
pub proof fn lemma_coeff_zero_terms(s: Seq<TermModel>)
    requires
        forall|i: int| 0 <= i < s.len() ==> (#[trigger] s[i]).coef == 0,
    ensures
        forall|m: MonomialModel| #[trigger] coeff(s, m) == 0,
    decreases s.len(),
{
    if s.len() > 0 {
        let d = s.drop_last();
        assert forall|i: int| 0 <= i < d.len() implies (#[trigger] d[i]).coef == 0 by {
            assert(d[i] == s[i]);
        }
        lemma_coeff_zero_terms(d);
        assert(s.last() == s[s.len() - 1]);
        assert forall|m: MonomialModel| #[trigger] coeff(s, m) == 0 by {
            assert(coeff(d, m) == 0);
        }
    } else {
        assert forall|m: MonomialModel| #[trigger] coeff(s, m) == 0 by {}
    }
}

/// The products of a list with one more term.
pub proof fn lemma_cross_push(u: Seq<TermModel>, t: TermModel, v: Seq<TermModel>)
    ensures
        cross_terms(u.push(t), v) == cross_terms(u, v) + scale_terms(t, v),
        forall|m: MonomialModel| #[trigger]
            coeff(cross_terms(u.push(t), v), m) == coeff(cross_terms(u, v), m) + coeff(
                scale_terms(t, v),
                m,
            ),
{
    assert(u.push(t).drop_last() =~= u);
    lemma_coeff_concat(cross_terms(u, v), scale_terms(t, v));
}

/// The products of a term with a list with one more term.
pub proof fn lemma_scale_push(t: TermModel, v: Seq<TermModel>, w: TermModel)
    ensures
        scale_terms(t, v.push(w)) == scale_terms(t, v).push(term_mul(t, w)),
        forall|m: MonomialModel| #[trigger]
            coeff(scale_terms(t, v.push(w)), m) == coeff(scale_terms(t, v), m) + delta(
                term_mul(t, w),
                m,
            ),
{
    assert(scale_terms(t, v.push(w)) =~= scale_terms(t, v).push(term_mul(t, w)));
    lemma_coeff_push(scale_terms(t, v), term_mul(t, w));
}

/// Zero terms of the second factor add nothing to the products with a term.
proof fn lemma_scale_nonzero(t: TermModel, v: Seq<TermModel>)
    ensures
        forall|m: MonomialModel| #[trigger]
            coeff(scale_terms(t, nonzero_terms(v)), m) == coeff(scale_terms(t, v), m),
    decreases v.len(),
{
    if v.len() > 0 {
        let d = v.drop_last();
        let w = v.last();
        lemma_scale_nonzero(t, d);
        assert(v =~= d.push(w));
        lemma_scale_push(t, d, w);
        if w.coef != 0 {
            lemma_scale_push(t, nonzero_terms(d), w);
        }
        assert forall|m: MonomialModel| #[trigger]
            coeff(scale_terms(t, nonzero_terms(v)), m) == coeff(scale_terms(t, v), m) by {
            assert(coeff(scale_terms(t, nonzero_terms(d)), m) == coeff(scale_terms(t, d), m));
            assert(coeff(scale_terms(t, d.push(w)), m) == coeff(scale_terms(t, d), m) + delta(
                term_mul(t, w),
                m,
            ));
            if w.coef != 0 {
                assert(coeff(scale_terms(t, nonzero_terms(d).push(w)), m) == coeff(
                    scale_terms(t, nonzero_terms(d)),
                    m,
                ) + delta(term_mul(t, w), m));
            } else {
                assert(t.coef * w.coef == 0) by (nonlinear_arith)
                    requires
                        w.coef == 0,
                ;
            }
        }
    } else {
        assert forall|m: MonomialModel| #[trigger]
            coeff(scale_terms(t, nonzero_terms(v)), m) == coeff(scale_terms(t, v), m) by {}
    }
}

/// Zero terms of either factor add nothing to a product.
pub proof fn lemma_cross_nonzero(u: Seq<TermModel>, v: Seq<TermModel>)
    ensures
        forall|m: MonomialModel| #[trigger]
            coeff(cross_terms(nonzero_terms(u), nonzero_terms(v)), m) == coeff(
                cross_terms(u, v),
                m,
            ),
    decreases u.len(),
{
    if u.len() == 0 {
        assert forall|m: MonomialModel| #[trigger]
            coeff(cross_terms(nonzero_terms(u), nonzero_terms(v)), m) == coeff(
                cross_terms(u, v),
                m,
            ) by {}
    } else {
        let d = u.drop_last();
        let t = u.last();
        lemma_cross_nonzero(d, v);
        assert(u =~= d.push(t));
        lemma_cross_push(d, t, v);
        if t.coef != 0 {
            lemma_cross_push(nonzero_terms(d), t, nonzero_terms(v));
            lemma_scale_nonzero(t, v);
        } else {
            let z = scale_terms(t, v);
            assert forall|i: int| 0 <= i < z.len() implies (#[trigger] z[i]).coef == 0 by {
                assert(t.coef * v[i].coef == 0) by (nonlinear_arith)
                    requires
                        t.coef == 0,
                ;
            }
            lemma_coeff_zero_terms(z);
        }
        assert forall|m: MonomialModel| #[trigger]
            coeff(cross_terms(nonzero_terms(u), nonzero_terms(v)), m) == coeff(
                cross_terms(u, v),
                m,
            ) by {
            assert(coeff(cross_terms(nonzero_terms(d), nonzero_terms(v)), m) == coeff(
                cross_terms(d, v),
                m,
            ));
            assert(coeff(cross_terms(d.push(t), v), m) == coeff(cross_terms(d, v), m) + coeff(
                scale_terms(t, v),
                m,
            ));
            if t.coef != 0 {
                assert(coeff(cross_terms(nonzero_terms(d).push(t), nonzero_terms(v)), m) == coeff(
                    cross_terms(nonzero_terms(d), nonzero_terms(v)),
                    m,
                ) + coeff(scale_terms(t, nonzero_terms(v)), m));
                assert(coeff(scale_terms(t, nonzero_terms(v)), m) == coeff(scale_terms(t, v), m));
            } else {
                assert(coeff(scale_terms(t, v), m) == 0);
            }
        }
    }
}

proof fn lemma_mod_terms_push(v: Seq<TermModel>, w: TermModel, p: int)
    ensures
        mod_terms(v.push(w), p) == mod_terms(v, p).push(term_mod(w, p)),
{
    assert(mod_terms(v.push(w), p) =~= mod_terms(v, p).push(term_mod(w, p)));
}

/// The products of a reduced term with reduced terms are congruent to the
/// products of the terms.
proof fn lemma_scale_mod(t: TermModel, v: Seq<TermModel>, p: int)
    requires
        p >= 2,
    ensures
        forall|m: MonomialModel|
            coeff(scale_terms(term_mod(t, p), mod_terms(v, p)), m) % p == #[trigger] coeff(
                scale_terms(t, v),
                m,
            ) % p,
    decreases v.len(),
{
    if v.len() == 0 {
        assert(mod_terms(v, p) =~= v);
    } else {
        let d = v.drop_last();
        let w = v.last();
        lemma_scale_mod(t, d, p);
        assert(v =~= d.push(w));
        lemma_mod_terms_push(d, w, p);
        lemma_scale_push(t, d, w);
        lemma_scale_push(term_mod(t, p), mod_terms(d, p), term_mod(w, p));
        assert forall|m: MonomialModel|
            coeff(scale_terms(term_mod(t, p), mod_terms(v, p)), m) % p == #[trigger] coeff(
                scale_terms(t, v),
                m,
            ) % p by {
            let x = coeff(scale_terms(term_mod(t, p), mod_terms(d, p)), m);
            let y = coeff(scale_terms(t, d), m);
            let dx = delta(term_mul(term_mod(t, p), term_mod(w, p)), m);
            let dy = delta(term_mul(t, w), m);
            assert(x % p == y % p);
            assert(dx % p == dy % p) by {
                lemma_mul_mod_noop_general(t.coef, w.coef, p);
            }
            lemma_add_mod_noop(x, dx, p);
            lemma_add_mod_noop(y, dy, p);
        }
    }
}

/// The products of reduced terms are congruent to the products of the
/// terms.
pub proof fn lemma_cross_mod(u: Seq<TermModel>, v: Seq<TermModel>, p: int)
    requires
        p >= 2,
    ensures
        forall|m: MonomialModel|
            coeff(cross_terms(mod_terms(u, p), mod_terms(v, p)), m) % p == #[trigger] coeff(
                cross_terms(u, v),
                m,
            ) % p,
    decreases u.len(),
{
    if u.len() == 0 {
        assert(mod_terms(u, p) =~= u);
    } else {
        let d = u.drop_last();
        let t = u.last();
        lemma_cross_mod(d, v, p);
        assert(u =~= d.push(t));
        lemma_mod_terms_push(d, t, p);
        lemma_cross_push(d, t, v);
        lemma_cross_push(mod_terms(d, p), term_mod(t, p), mod_terms(v, p));
        lemma_scale_mod(t, v, p);
        assert forall|m: MonomialModel|
            coeff(cross_terms(mod_terms(u, p), mod_terms(v, p)), m) % p == #[trigger] coeff(
                cross_terms(u, v),
                m,
            ) % p by {
            let x = coeff(cross_terms(mod_terms(d, p), mod_terms(v, p)), m);
            let y = coeff(cross_terms(d, v), m);
            let sx = coeff(scale_terms(term_mod(t, p), mod_terms(v, p)), m);
            let sy = coeff(scale_terms(t, v), m);
            assert(x % p == y % p);
            assert(sx % p == sy % p);
            lemma_add_mod_noop(x, sx, p);
            lemma_add_mod_noop(y, sy, p);
        }
    }
}

/// A polynomial modulo `p` carries a subscripted variable only where the
/// polynomial does.
pub proof fn lemma_reduce_variable(a: Seq<TermModel>, p: int)
    requires
        canonical(a),
        has_variable(reduce(a, p)),
    ensures
        has_variable(a),
{
    lemma_sorted_mod_terms(a, p);
    lemma_normalize_sorted(mod_terms(a, p));
    lemma_nonzero_terms(mod_terms(a, p));
}

/// Reduction modulo `p` goes through products:
/// `(a * b) mod p = ((a mod p) * (b mod p)) mod p`, where `a * b` is defined.
pub proof fn lemma_mul_modulo(a: Seq<TermModel>, b: Seq<TermModel>, p: int)
    requires
        canonical(a),
        canonical(b),
        p >= 2,
        poly_mul(a, b) is Ok,
    ensures
        poly_mul_mod(a, b, p) is Ok,
        poly_mul_mod(a, b, p) == poly_mul_mod(poly_mod(a, p)->Ok_0, poly_mod(b, p)->Ok_0, p),
{
    let ar = reduce(a, p);
    let br = reduce(b, p);
    if has_variable(ar) && has_variable(br) {
        lemma_reduce_variable(a, p);
        lemma_reduce_variable(b, p);
    }
    lemma_sorted_mod_terms(a, p);
    lemma_sorted_mod_terms(b, p);
    lemma_normalize_sorted(mod_terms(a, p));
    lemma_normalize_sorted(mod_terms(b, p));
    lemma_cross_nonzero(mod_terms(a, p), mod_terms(b, p));
    lemma_cross_mod(a, b, p);
    let x = normalize(cross_terms(a, b));
    let y = normalize(cross_terms(ar, br));
    lemma_normalize_denotes(cross_terms(a, b));
    lemma_normalize_denotes(cross_terms(ar, br));
    assert forall|m: MonomialModel| coeff(x, m) % p == coeff(y, m) % p by {
        assert(coeff(x, m) == coeff(cross_terms(a, b), m));
        assert(coeff(y, m) == coeff(cross_terms(ar, br), m));
        assert(coeff(cross_terms(ar, br), m) == coeff(
            cross_terms(mod_terms(a, p), mod_terms(b, p)),
            m,
        ));
        assert(coeff(cross_terms(mod_terms(a, p), mod_terms(b, p)), m) % p == coeff(
            cross_terms(a, b),
            m,
        ) % p);
    }
    lemma_reduce_congruent(x, y, p);
}

/// A polynomial modulo `p` stays as it is modulo `p`.
pub proof fn lemma_reduce_twice(a: Seq<TermModel>, p: int)
    requires
        canonical(a),
        p >= 2,
    ensures
        reduce(reduce(a, p), p) == reduce(a, p),
{
    lemma_reduce(a, p);
    lemma_reduce(reduce(a, p), p);
    assert forall|m: MonomialModel| coeff(reduce(reduce(a, p), p), m) == coeff(reduce(a, p), m) by {
        assert(coeff(reduce(reduce(a, p), p), m) == coeff(reduce(a, p), m) % p);
        assert(coeff(reduce(a, p), m) == coeff(a, m) % p);
        lemma_mod_twice(coeff(a, m), p);
    }
    lemma_canonical_unique(reduce(reduce(a, p), p), reduce(a, p));
}

/// What is left of an exponentiation, reduced modulo `p`, is what is left of
/// the modular exponentiation of the reduced operands.
proof fn lemma_power_loop_modulo(r: Seq<TermModel>, b: Seq<TermModel>, e: int, p: int)
    requires
        canonical(r),
        canonical(b),
        p >= 2,
        power_loop(r, b, e) is Ok,
    ensures
        power_modulo_loop(reduce(r, p), reduce(b, p), e, p) == Ok::<Seq<TermModel>, Error>(
            reduce(power_loop(r, b, e)->Ok_0, p),
        ),
    decreases e,
{
    let rr = reduce(r, p);
    let br = reduce(b, p);
    lemma_reduce(r, p);
    lemma_reduce(b, p);
    if e <= 1 {
        lemma_mul_modulo(r, b, p);
    } else {
        let r2 = if e % 2 == 1 {
            poly_mul(r, b)
        } else {
            Ok(r)
        };
        if e % 2 == 1 {
            lemma_mul_modulo(r, b, p);
            lemma_normalize_denotes(cross_terms(r, b));
        }
        lemma_mul_modulo(b, b, p);
        lemma_normalize_denotes(cross_terms(b, b));
        let r3 = r2->Ok_0;
        let b3 = poly_mul(b, b)->Ok_0;
        lemma_power_loop_modulo(r3, b3, e / 2, p);
        // the operands of the next round of the modular loop are reduced already
        let rm = if e % 2 == 1 {
            poly_mul_mod(rr, br, p)->Ok_0
        } else {
            rr
        };
        let bm = poly_mul_mod(br, br, p)->Ok_0;
        assert(rm == reduce(r3, p));
        assert(bm == reduce(b3, p));
    }
}

/// `P.power(n).modulo(p) = P.power_modulo(n, p)`, where `P.power(n)` is
/// defined.
pub proof fn lemma_power_modulo(a: Seq<TermModel>, n: int, p: int)
    requires
        canonical(a),
        p >= 2,
        poly_power(a, n) is Ok,
    ensures
        poly_power_modulo(a, n, p) == poly_mod(poly_power(a, n)->Ok_0, p),
{
    if n > 0 {
        let one = poly_one();
        assert(canonical(one));
        lemma_power_loop_modulo(one, a, n, p);
        lemma_reduce(one, p);
        assert forall|m: MonomialModel| coeff(reduce(one, p), m) == coeff(one, m) by {
            assert(coeff(reduce(one, p), m) == coeff(one, m) % p);
            lemma_coeff_single(constant_term(1));
            lemma_small_mod(1, p as nat);
            lemma_small_mod(0, p as nat);
        }
        lemma_canonical_unique(reduce(one, p), one);
    }
}

/// The coefficients of the products of a polynomial with a constant.
pub proof fn lemma_cross_constant(a: Seq<TermModel>, c: int)
    ensures
        forall|m: MonomialModel| #[trigger]
            coeff(cross_terms(a, seq![constant_term(c)]), m) == coeff(a, m) * c,
    decreases a.len(),
{
    let k = seq![constant_term(c)];
    if a.len() == 0 {
        assert forall|m: MonomialModel| #[trigger] coeff(cross_terms(a, k), m) == coeff(a, m)
            * c by {
            assert(0 * c == 0);
        }
    } else {
        let d = a.drop_last();
        let t = a.last();
        lemma_cross_constant(d, c);
        assert(a =~= d.push(t));
        lemma_cross_push(d, t, k);
        lemma_coeff_push(d, t);
        let row = scale_terms(t, k);
        assert(row =~= seq![term_mul(t, constant_term(c))]);
        lemma_coeff_single(term_mul(t, constant_term(c)));
        assert(term_mul(t, constant_term(c)).mono == t.mono);
        assert forall|m: MonomialModel| #[trigger] coeff(cross_terms(a, k), m) == coeff(a, m)
            * c by {
            assert(coeff(cross_terms(a, k), m) == coeff(cross_terms(d, k), m) + coeff(row, m));
            assert(coeff(a, m) == coeff(d, m) + delta(t, m));
            assert((coeff(d, m) + delta(t, m)) * c == coeff(d, m) * c + delta(t, m) * c)
                by (nonlinear_arith);
            assert(0 * c == 0);
        }
    }
}

/// The highest term of a polynomial in canonical form, by its coefficients:
/// where the coefficient of `h` is `c != 0` and no monomial above `h` has a
/// coefficient, the highest term is `c h`.
pub proof fn lemma_highest_term(s: Seq<TermModel>, h: MonomialModel, c: int)
    requires
        canonical(s),
        coeff(s, h) == c,
        c != 0,
        forall|m: MonomialModel| mono_lt(h, m) ==> coeff(s, m) == 0,
    ensures
        highest_term(s) == (TermModel { coef: c, mono: h }),
{
    let i = lemma_coeff_support(s, h);
    let last = s.last();
    assert(last == s[s.len() - 1]);
    lemma_coeff_at(s, s.len() - 1);
    lemma_coeff_at(s, i);
    lemma_mono_lt_order(h, last.mono, h);
    if last.mono != h {
        assert(mono_lt(h, last.mono));
        assert(coeff(s, last.mono) == 0);
    }
}

/// `P.to_monic(p)` has the leading coefficient one, where it is defined and
/// `P` is not zero.
pub proof fn lemma_monic_leading_coefficient(a: Seq<TermModel>, p: int)
    requires
        canonical(a),
        a.len() > 0,
        poly_monic(a, p) is Ok,
    ensures
        highest_term(poly_monic(a, p)->Ok_0).coef == 1,
        highest_term(poly_monic(a, p)->Ok_0).mono == highest_term(a).mono,
{
    let lead = a.last();
    let inv = inverse_spec(lead.coef, p)->Ok_0;
    lemma_inverse_is_inverse(lead.coef, p);
    assert(inv != 0) by {
        if inv == 0 {
            assert(lead.coef * 0 == 0);
            lemma_small_mod(0, p as nat);
        }
    }
    let k = seq![constant_term(inv)];
    assert(poly_of_term(constant_term(inv)) == k);
    let prod = normalize(cross_terms(a, k));
    lemma_normalize_denotes(cross_terms(a, k));
    lemma_cross_constant(a, inv);
    lemma_reduce(prod, p);
    let m1 = reduce(prod, p);
    assert(poly_monic(a, p) == Ok::<Seq<TermModel>, Error>(m1));
    assert(a.last() == a[a.len() - 1]);
    lemma_coeff_at(a, a.len() - 1);
    assert(coeff(m1, lead.mono) == 1) by {
        assert(coeff(m1, lead.mono) == coeff(prod, lead.mono) % p);
        assert(coeff(prod, lead.mono) == coeff(cross_terms(a, k), lead.mono));
    }
    assert forall|m: MonomialModel| mono_lt(lead.mono, m) implies coeff(m1, m) == 0 by {
        assert forall|i: int| 0 <= i < a.len() implies (#[trigger] a[i]).mono != m by {
            lemma_mono_lt_order(a[i].mono, lead.mono, m);
        }
        lemma_coeff_absent(a, m);
        assert(coeff(m1, m) == coeff(prod, m) % p);
        assert(coeff(prod, m) == coeff(cross_terms(a, k), m));
        assert(0 * inv == 0);
        lemma_small_mod(0, p as nat);
    }
    lemma_highest_term(m1, lead.mono, 1);
}

} // verus!
