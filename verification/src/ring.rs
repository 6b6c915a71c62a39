use crate::algebra::{cross_terms, has_variable, poly_one, poly_power, power_loop, scale_terms};
use crate::error::Error;
use crate::laws::{lemma_coeff_zero_terms, lemma_cross_push, lemma_scale_push};
use crate::model::{
    canonical, canonical_insert, coeff, collect, delta, lemma_collect_denotes,
    lemma_normalize_canonical, lemma_normalize_denotes, lemma_normalize_equal, lemma_normalize_is,
    mono_lt, normalize, MonomialModel, TermModel,
};
use crate::support::{lemma_mul_variable, lemma_one_variable};
use crate::term::{constant_term, term_mul};
use vstd::prelude::*;

verus! {

/// The product of two polynomials as sums of terms: every term times every
/// term, like terms collected.
pub open spec fn times(a: Seq<TermModel>, b: Seq<TermModel>) -> Seq<TermModel> {
    normalize(cross_terms(a, b))
}

/// The products with a sum of two terms of one monomial are the products
/// with the two terms together.
proof fn lemma_scale_joined(t1: TermModel, t2: TermModel, v: Seq<TermModel>)
    requires
        t1.mono == t2.mono,
    ensures
        forall|m: MonomialModel| #[trigger]
            coeff(scale_terms(TermModel { coef: t1.coef + t2.coef, mono: t1.mono }, v), m)
                == coeff(scale_terms(t1, v), m) + coeff(scale_terms(t2, v), m),
    decreases v.len(),
{
    let t = TermModel { coef: t1.coef + t2.coef, mono: t1.mono };
    if v.len() == 0 {
        assert forall|m: MonomialModel| #[trigger]
            coeff(scale_terms(t, v), m) == coeff(scale_terms(t1, v), m) + coeff(
                scale_terms(t2, v),
                m,
            ) by {}
    } else {
        let d = v.drop_last();
        let w = v.last();
        lemma_scale_joined(t1, t2, d);
        assert(v =~= d.push(w));
        lemma_scale_push(t, d, w);
        lemma_scale_push(t1, d, w);
        lemma_scale_push(t2, d, w);
        assert((t1.coef + t2.coef) * w.coef == t1.coef * w.coef + t2.coef * w.coef)
            by (nonlinear_arith);
        assert forall|m: MonomialModel| #[trigger]
            coeff(scale_terms(t, v), m) == coeff(scale_terms(t1, v), m) + coeff(
                scale_terms(t2, v),
                m,
            ) by {
            assert(coeff(scale_terms(t, d), m) == coeff(scale_terms(t1, d), m) + coeff(
                scale_terms(t2, d),
                m,
            ));
            assert(coeff(scale_terms(t, d.push(w)), m) == coeff(scale_terms(t, d), m) + delta(
                term_mul(t, w),
                m,
            ));
            assert(coeff(scale_terms(t1, d.push(w)), m) == coeff(scale_terms(t1, d), m) + delta(
                term_mul(t1, w),
                m,
            ));
            assert(coeff(scale_terms(t2, d.push(w)), m) == coeff(scale_terms(t2, d), m) + delta(
                term_mul(t2, w),
                m,
            ));
        }
    }
}

/// The products with a term of the coefficient zero have no coefficient.
pub proof fn lemma_scale_zero(t: TermModel, v: Seq<TermModel>)
    requires
        t.coef == 0,
    ensures
        forall|m: MonomialModel| #[trigger] coeff(scale_terms(t, v), m) == 0,
{
    let z = scale_terms(t, v);
    assert forall|i: int| 0 <= i < z.len() implies (#[trigger] z[i]).coef == 0 by {
        assert(t.coef * v[i].coef == 0) by (nonlinear_arith)
            requires
                t.coef == 0,
        ;
    }
    lemma_coeff_zero_terms(z);
}

/// The products of `r + t` are the products of `r` and those of `t`.
proof fn lemma_cross_insert(r: Seq<TermModel>, t: TermModel, v: Seq<TermModel>)
    ensures
        forall|m: MonomialModel| #[trigger]
            coeff(cross_terms(canonical_insert(r, t), v), m) == coeff(cross_terms(r, v), m)
                + coeff(scale_terms(t, v), m),
    decreases r.len(),
{
    let c = canonical_insert(r, t);
    if r.len() == 0 {
        if t.coef == 0 {
            lemma_scale_zero(t, v);
        } else {
            assert(c =~= r.push(t));
            lemma_cross_push(r, t, v);
        }
        assert forall|m: MonomialModel| #[trigger]
            coeff(cross_terms(c, v), m) == coeff(cross_terms(r, v), m) + coeff(
                scale_terms(t, v),
                m,
            ) by {
            if t.coef == 0 {
                assert(coeff(scale_terms(t, v), m) == 0);
            } else {
                assert(coeff(cross_terms(r.push(t), v), m) == coeff(cross_terms(r, v), m) + coeff(
                    scale_terms(t, v),
                    m,
                ));
            }
        }
    } else {
        let last = r.last();
        let d = r.drop_last();
        assert(r =~= d.push(last));
        lemma_cross_push(d, last, v);
        if mono_lt(last.mono, t.mono) {
            if t.coef == 0 {
                lemma_scale_zero(t, v);
            } else {
                lemma_cross_push(r, t, v);
            }
            assert forall|m: MonomialModel| #[trigger]
                coeff(cross_terms(c, v), m) == coeff(cross_terms(r, v), m) + coeff(
                    scale_terms(t, v),
                    m,
                ) by {
                if t.coef == 0 {
                    assert(coeff(scale_terms(t, v), m) == 0);
                } else {
                    assert(coeff(cross_terms(r.push(t), v), m) == coeff(cross_terms(r, v), m)
                        + coeff(scale_terms(t, v), m));
                }
            }
        } else if last.mono == t.mono {
            let joined = TermModel { coef: last.coef + t.coef, mono: last.mono };
            lemma_scale_joined(last, t, v);
            if last.coef + t.coef == 0 {
                lemma_scale_zero(joined, v);
            } else {
                lemma_cross_push(d, joined, v);
            }
            assert forall|m: MonomialModel| #[trigger]
                coeff(cross_terms(c, v), m) == coeff(cross_terms(r, v), m) + coeff(
                    scale_terms(t, v),
                    m,
                ) by {
                assert(coeff(cross_terms(d.push(last), v), m) == coeff(cross_terms(d, v), m)
                    + coeff(scale_terms(last, v), m));
                assert(coeff(scale_terms(joined, v), m) == coeff(scale_terms(last, v), m) + coeff(
                    scale_terms(t, v),
                    m,
                ));
                if last.coef + t.coef == 0 {
                    assert(coeff(scale_terms(joined, v), m) == 0);
                } else {
                    assert(coeff(cross_terms(d.push(joined), v), m) == coeff(cross_terms(d, v), m)
                        + coeff(scale_terms(joined, v), m));
                }
            }
        } else {
            lemma_cross_insert(d, t, v);
            let e = canonical_insert(d, t);
            lemma_cross_push(e, last, v);
            assert forall|m: MonomialModel| #[trigger]
                coeff(cross_terms(c, v), m) == coeff(cross_terms(r, v), m) + coeff(
                    scale_terms(t, v),
                    m,
                ) by {
                assert(coeff(cross_terms(e.push(last), v), m) == coeff(cross_terms(e, v), m)
                    + coeff(scale_terms(last, v), m));
                assert(coeff(cross_terms(e, v), m) == coeff(cross_terms(d, v), m) + coeff(
                    scale_terms(t, v),
                    m,
                ));
                assert(coeff(cross_terms(d.push(last), v), m) == coeff(cross_terms(d, v), m)
                    + coeff(scale_terms(last, v), m));
            }
        }
    }
}

/// The products of a term with `r + w` are its products with `r` and its
/// product with `w`.
proof fn lemma_scale_insert(t: TermModel, r: Seq<TermModel>, w: TermModel)
    ensures
        forall|m: MonomialModel| #[trigger]
            coeff(scale_terms(t, canonical_insert(r, w)), m) == coeff(scale_terms(t, r), m)
                + delta(term_mul(t, w), m),
    decreases r.len(),
{
    let c = canonical_insert(r, w);
    if r.len() == 0 {
        if w.coef != 0 {
            assert(c =~= r.push(w));
            lemma_scale_push(t, r, w);
        }
        assert forall|m: MonomialModel| #[trigger]
            coeff(scale_terms(t, c), m) == coeff(scale_terms(t, r), m) + delta(
                term_mul(t, w),
                m,
            ) by {
            if w.coef == 0 {
                assert(t.coef * w.coef == 0) by (nonlinear_arith)
                    requires
                        w.coef == 0,
                ;
            } else {
                assert(coeff(scale_terms(t, r.push(w)), m) == coeff(scale_terms(t, r), m) + delta(
                    term_mul(t, w),
                    m,
                ));
            }
        }
    } else {
        let last = r.last();
        let d = r.drop_last();
        assert(r =~= d.push(last));
        lemma_scale_push(t, d, last);
        if mono_lt(last.mono, w.mono) {
            if w.coef != 0 {
                lemma_scale_push(t, r, w);
            }
            assert forall|m: MonomialModel| #[trigger]
                coeff(scale_terms(t, c), m) == coeff(scale_terms(t, r), m) + delta(
                    term_mul(t, w),
                    m,
                ) by {
                if w.coef == 0 {
                    assert(t.coef * w.coef == 0) by (nonlinear_arith)
                        requires
                            w.coef == 0,
                    ;
                } else {
                    assert(coeff(scale_terms(t, r.push(w)), m) == coeff(scale_terms(t, r), m)
                        + delta(term_mul(t, w), m));
                }
            }
        } else if last.mono == w.mono {
            let joined = TermModel { coef: last.coef + w.coef, mono: w.mono };
            if last.coef + w.coef != 0 {
                lemma_scale_push(t, d, joined);
            }
            assert(t.coef * (last.coef + w.coef) == t.coef * last.coef + t.coef * w.coef)
                by (nonlinear_arith);
            assert forall|m: MonomialModel| #[trigger]
                coeff(scale_terms(t, c), m) == coeff(scale_terms(t, r), m) + delta(
                    term_mul(t, w),
                    m,
                ) by {
                assert(coeff(scale_terms(t, d.push(last)), m) == coeff(scale_terms(t, d), m)
                    + delta(term_mul(t, last), m));
                assert(term_mul(t, last).mono == term_mul(t, w).mono);
                if last.coef + w.coef != 0 {
                    assert(coeff(scale_terms(t, d.push(joined)), m) == coeff(scale_terms(t, d), m)
                        + delta(term_mul(t, joined), m));
                    assert(term_mul(t, joined).mono == term_mul(t, w).mono);
                    assert(term_mul(t, joined).coef == term_mul(t, last).coef + term_mul(
                        t,
                        w,
                    ).coef);
                } else {
                    assert(term_mul(t, last).coef + term_mul(t, w).coef == 0) by (nonlinear_arith)
                        requires
                            last.coef + w.coef == 0,
                            term_mul(t, last).coef == t.coef * last.coef,
                            term_mul(t, w).coef == t.coef * w.coef,
                    ;
                }
            }
        } else {
            lemma_scale_insert(t, d, w);
            let e = canonical_insert(d, w);
            lemma_scale_push(t, e, last);
            assert forall|m: MonomialModel| #[trigger]
                coeff(scale_terms(t, c), m) == coeff(scale_terms(t, r), m) + delta(
                    term_mul(t, w),
                    m,
                ) by {
                assert(coeff(scale_terms(t, e.push(last)), m) == coeff(scale_terms(t, e), m)
                    + delta(term_mul(t, last), m));
                assert(coeff(scale_terms(t, e), m) == coeff(scale_terms(t, d), m) + delta(
                    term_mul(t, w),
                    m,
                ));
                assert(coeff(scale_terms(t, d.push(last)), m) == coeff(scale_terms(t, d), m)
                    + delta(term_mul(t, last), m));
            }
        }
    }
}

proof fn lemma_cross_collect_left(u: Seq<TermModel>, v: Seq<TermModel>)
    ensures
        forall|m: MonomialModel| #[trigger]
            coeff(cross_terms(collect(u), v), m) == coeff(cross_terms(u, v), m),
    decreases u.len(),
{
    if u.len() == 0 {
        assert forall|m: MonomialModel| #[trigger]
            coeff(cross_terms(collect(u), v), m) == coeff(cross_terms(u, v), m) by {}
    } else {
        let d = u.drop_last();
        let t = u.last();
        lemma_cross_collect_left(d, v);
        lemma_cross_insert(collect(d), t, v);
        assert(u =~= d.push(t));
        lemma_cross_push(d, t, v);
        assert forall|m: MonomialModel| #[trigger]
            coeff(cross_terms(collect(u), v), m) == coeff(cross_terms(u, v), m) by {
            assert(coeff(cross_terms(canonical_insert(collect(d), t), v), m) == coeff(
                cross_terms(collect(d), v),
                m,
            ) + coeff(scale_terms(t, v), m));
            assert(coeff(cross_terms(collect(d), v), m) == coeff(cross_terms(d, v), m));
            assert(coeff(cross_terms(d.push(t), v), m) == coeff(cross_terms(d, v), m) + coeff(
                scale_terms(t, v),
                m,
            ));
        }
    }
}

proof fn lemma_scale_collect(t: TermModel, v: Seq<TermModel>)
    ensures
        forall|m: MonomialModel| #[trigger]
            coeff(scale_terms(t, collect(v)), m) == coeff(scale_terms(t, v), m),
    decreases v.len(),
{
    if v.len() == 0 {
        assert forall|m: MonomialModel| #[trigger]
            coeff(scale_terms(t, collect(v)), m) == coeff(scale_terms(t, v), m) by {}
    } else {
        let d = v.drop_last();
        let w = v.last();
        lemma_scale_collect(t, d);
        lemma_scale_insert(t, collect(d), w);
        assert(v =~= d.push(w));
        lemma_scale_push(t, d, w);
        assert forall|m: MonomialModel| #[trigger]
            coeff(scale_terms(t, collect(v)), m) == coeff(scale_terms(t, v), m) by {
            assert(coeff(scale_terms(t, canonical_insert(collect(d), w)), m) == coeff(
                scale_terms(t, collect(d)),
                m,
            ) + delta(term_mul(t, w), m));
            assert(coeff(scale_terms(t, collect(d)), m) == coeff(scale_terms(t, d), m));
            assert(coeff(scale_terms(t, d.push(w)), m) == coeff(scale_terms(t, d), m) + delta(
                term_mul(t, w),
                m,
            ));
        }
    }
}

proof fn lemma_cross_collect_right(u: Seq<TermModel>, v: Seq<TermModel>)
    ensures
        forall|m: MonomialModel| #[trigger]
            coeff(cross_terms(u, collect(v)), m) == coeff(cross_terms(u, v), m),
    decreases u.len(),
{
    if u.len() == 0 {
        assert forall|m: MonomialModel| #[trigger]
            coeff(cross_terms(u, collect(v)), m) == coeff(cross_terms(u, v), m) by {}
    } else {
        let d = u.drop_last();
        let t = u.last();
        lemma_cross_collect_right(d, v);
        lemma_scale_collect(t, v);
        assert(u =~= d.push(t));
        lemma_cross_push(d, t, v);
        lemma_cross_push(d, t, collect(v));
        assert forall|m: MonomialModel| #[trigger]
            coeff(cross_terms(u, collect(v)), m) == coeff(cross_terms(u, v), m) by {
            assert(coeff(cross_terms(d.push(t), collect(v)), m) == coeff(
                cross_terms(d, collect(v)),
                m,
            ) + coeff(scale_terms(t, collect(v)), m));
            assert(coeff(cross_terms(d, collect(v)), m) == coeff(cross_terms(d, v), m));
            assert(coeff(scale_terms(t, collect(v)), m) == coeff(scale_terms(t, v), m));
            assert(coeff(cross_terms(d.push(t), v), m) == coeff(cross_terms(d, v), m) + coeff(
                scale_terms(t, v),
                m,
            ));
        }
    }
}

/// The coefficients of the products depend on the polynomials that the
/// factors denote alone.
pub proof fn lemma_cross_normalize(u: Seq<TermModel>, v: Seq<TermModel>)
    ensures
        forall|m: MonomialModel| #[trigger]
            coeff(cross_terms(normalize(u), v), m) == coeff(cross_terms(u, v), m),
        forall|m: MonomialModel| #[trigger]
            coeff(cross_terms(u, normalize(v)), m) == coeff(cross_terms(u, v), m),
{
    lemma_collect_denotes(u);
    lemma_collect_denotes(v);
    lemma_normalize_is(u, collect(u));
    lemma_normalize_is(v, collect(v));
    lemma_cross_collect_left(u, v);
    lemma_cross_collect_right(u, v);
}

/// The product of three terms does not depend on the brackets.
proof fn lemma_term_mul_associative(x: TermModel, y: TermModel, z: TermModel)
    ensures
        term_mul(term_mul(x, y), z) == term_mul(x, term_mul(y, z)),
{
    assert((x.coef * y.coef) * z.coef == x.coef * (y.coef * z.coef)) by (nonlinear_arith);
}

proof fn lemma_scale_scale(t: TermModel, u: TermModel, c: Seq<TermModel>)
    ensures
        scale_terms(t, scale_terms(u, c)) == scale_terms(term_mul(t, u), c),
{
    let a = scale_terms(t, scale_terms(u, c));
    let b = scale_terms(term_mul(t, u), c);
    assert forall|i: int| 0 <= i < a.len() implies a[i] == b[i] by {
        lemma_term_mul_associative(t, u, c[i]);
    }
    assert(a =~= b);
}

/// The products of a concatenation are the products of its parts.
pub proof fn lemma_cross_concat(x: Seq<TermModel>, y: Seq<TermModel>, c: Seq<TermModel>)
    ensures
        cross_terms(x + y, c) == cross_terms(x, c) + cross_terms(y, c),
    decreases y.len(),
{
    if y.len() == 0 {
        assert(x + y =~= x);
        assert(cross_terms(x, c) + cross_terms(y, c) =~= cross_terms(x, c));
    } else {
        let d = y.drop_last();
        lemma_cross_concat(x, d, c);
        assert((x + y).drop_last() =~= x + d);
        assert((x + y).last() == y.last());
        assert(cross_terms(x + y, c) =~= cross_terms(x, c) + cross_terms(y, c));
    }
}

proof fn lemma_scale_concat(t: TermModel, x: Seq<TermModel>, y: Seq<TermModel>)
    ensures
        scale_terms(t, x + y) == scale_terms(t, x) + scale_terms(t, y),
{
    assert(scale_terms(t, x + y) =~= scale_terms(t, x) + scale_terms(t, y));
}

proof fn lemma_cross_scale(t: TermModel, b: Seq<TermModel>, c: Seq<TermModel>)
    ensures
        cross_terms(scale_terms(t, b), c) == scale_terms(t, cross_terms(b, c)),
    decreases b.len(),
{
    if b.len() == 0 {
        assert(scale_terms(t, b) =~= Seq::<TermModel>::empty());
        assert(scale_terms(t, cross_terms(b, c)) =~= Seq::<TermModel>::empty());
    } else {
        let d = b.drop_last();
        let u = b.last();
        lemma_cross_scale(t, d, c);
        assert(b =~= d.push(u));
        lemma_scale_push(t, d, u);
        lemma_cross_push(scale_terms(t, d), term_mul(t, u), c);
        lemma_scale_concat(t, cross_terms(d, c), scale_terms(u, c));
        lemma_scale_scale(t, u, c);
    }
}

/// The products of three lists do not depend on the brackets.
pub proof fn lemma_cross_associative(a: Seq<TermModel>, b: Seq<TermModel>, c: Seq<TermModel>)
    ensures
        cross_terms(cross_terms(a, b), c) == cross_terms(a, cross_terms(b, c)),
    decreases a.len(),
{
    if a.len() > 0 {
        let d = a.drop_last();
        let t = a.last();
        lemma_cross_associative(d, b, c);
        lemma_cross_concat(cross_terms(d, b), scale_terms(t, b), c);
        lemma_cross_scale(t, b, c);
    } else {
        assert(cross_terms(cross_terms(a, b), c) =~= Seq::<TermModel>::empty());
    }
}

/// Multiplication of polynomials is associative: `(a b) c = a (b c)`.
pub proof fn lemma_times_associative(a: Seq<TermModel>, b: Seq<TermModel>, c: Seq<TermModel>)
    ensures
        times(times(a, b), c) == times(a, times(b, c)),
{
    lemma_cross_normalize(cross_terms(a, b), c);
    lemma_cross_normalize(a, cross_terms(b, c));
    lemma_cross_associative(a, b, c);
    assert forall|m: MonomialModel|
        coeff(cross_terms(times(a, b), c), m) == coeff(cross_terms(a, times(b, c)), m) by {
        assert(coeff(cross_terms(normalize(cross_terms(a, b)), c), m) == coeff(
            cross_terms(cross_terms(a, b), c),
            m,
        ));
        assert(coeff(cross_terms(a, normalize(cross_terms(b, c))), m) == coeff(
            cross_terms(a, cross_terms(b, c)),
            m,
        ));
    }
    lemma_normalize_equal(cross_terms(times(a, b), c), cross_terms(a, times(b, c)));
}

/// `1 a = a` and `a 1 = a` for a polynomial in canonical form.
pub proof fn lemma_times_one(a: Seq<TermModel>)
    requires
        canonical(a),
    ensures
        times(poly_one(), a) == a,
        times(a, poly_one()) == a,
{
    let one = poly_one();
    assert(one.drop_last() =~= Seq::<TermModel>::empty());
    assert(cross_terms(Seq::<TermModel>::empty(), a) =~= Seq::<TermModel>::empty());
    assert(cross_terms(one, a) =~= scale_terms(constant_term(1), a));
    assert(scale_terms(constant_term(1), a) =~= a) by {
        assert forall|i: int| 0 <= i < a.len() implies scale_terms(constant_term(1), a)[i]
            == a[i] by {
            assert(1 * a[i].coef == a[i].coef);
        }
    }
    lemma_normalize_canonical(a);
    lemma_cross_one(a);
}

proof fn lemma_cross_one(a: Seq<TermModel>)
    ensures
        cross_terms(a, poly_one()) == a,
    decreases a.len(),
{
    if a.len() > 0 {
        let d = a.drop_last();
        let t = a.last();
        lemma_cross_one(d);
        assert(scale_terms(t, poly_one()) =~= seq![t]) by {
            assert(t.coef * 1 == t.coef);
            assert(term_mul(t, constant_term(1)) == t);
        }
        assert(cross_terms(a, poly_one()) =~= d.push(t));
        assert(a =~= d.push(t));
    } else {
        assert(cross_terms(a, poly_one()) =~= a);
    }
}

/// The `n`-fold product `a a ... a`; the polynomial `1` for `n = 0`.
pub open spec fn repeated_product(a: Seq<TermModel>, n: nat) -> Seq<TermModel>
    decreases n,
{
    if n == 0 {
        poly_one()
    } else {
        times(repeated_product(a, (n - 1) as nat), a)
    }
}

proof fn lemma_repeated_product(a: Seq<TermModel>, n: nat)
    requires
        !has_variable(a),
    ensures
        canonical(repeated_product(a, n)),
        !has_variable(repeated_product(a, n)),
    decreases n,
{
    if n == 0 {
        lemma_one_variable();
    } else {
        lemma_repeated_product(a, (n - 1) as nat);
        lemma_mul_variable(repeated_product(a, (n - 1) as nat), a);
        lemma_normalize_denotes(cross_terms(repeated_product(a, (n - 1) as nat), a));
    }
}

/// `a^(j+k) = a^j a^k`.
proof fn lemma_repeated_product_adds(a: Seq<TermModel>, j: nat, k: nat)
    requires
        !has_variable(a),
    ensures
        repeated_product(a, j + k) == times(repeated_product(a, j), repeated_product(a, k)),
    decreases k,
{
    lemma_repeated_product(a, j);
    if k == 0 {
        lemma_times_one(repeated_product(a, j));
    } else {
        let k1 = (k - 1) as nat;
        lemma_repeated_product_adds(a, j, k1);
        lemma_times_associative(repeated_product(a, j), repeated_product(a, k1), a);
        assert(j + k - 1 == j + k1);
    }
}

/// What is left of the exponentiation by squaring is `r b^e`.
proof fn lemma_power_loop_is_product(r: Seq<TermModel>, b: Seq<TermModel>, e: nat)
    requires
        canonical(r),
        canonical(b),
        !has_variable(r),
        !has_variable(b),
        e >= 1,
    ensures
        power_loop(r, b, e as int) == Ok::<Seq<TermModel>, Error>(
            times(r, repeated_product(b, e)),
        ),
    decreases e,
{
    lemma_mul_variable(r, b);
    lemma_mul_variable(b, b);
    lemma_normalize_denotes(cross_terms(r, b));
    lemma_normalize_denotes(cross_terms(b, b));
    lemma_times_one(b);
    assert(repeated_product(b, 1) == b) by {
        assert(repeated_product(b, 0) == poly_one());
    }
    if e > 1 {
        let k = (e / 2) as nat;
        let b2 = times(b, b);
        // b2^k = b^(2k)
        lemma_repeated_product_square(b, k);
        if e % 2 == 1 {
            lemma_power_loop_is_product(times(r, b), b2, k);
            // (r b) b^(2k) = r (b b^(2k)) = r b^(2k+1)
            lemma_times_associative(r, b, repeated_product(b, 2 * k));
            lemma_repeated_product_adds(b, 1, 2 * k);
            assert(1 + 2 * k == e);
        } else {
            lemma_power_loop_is_product(r, b2, k);
            assert(2 * k == e);
        }
    }
}

/// `(a a)^k = a^(2k)`.
proof fn lemma_repeated_product_square(a: Seq<TermModel>, k: nat)
    requires
        !has_variable(a),
        canonical(a),
    ensures
        repeated_product(times(a, a), k) == repeated_product(a, 2 * k),
    decreases k,
{
    if k > 0 {
        let k1 = (k - 1) as nat;
        lemma_repeated_product_square(a, k1);
        lemma_times_one(a);
        assert(repeated_product(a, 1) == a) by {
            assert(repeated_product(a, 0) == poly_one());
        }
        lemma_repeated_product_adds(a, 1, 1);
        assert(repeated_product(a, 2) == times(a, a));
        lemma_repeated_product_adds(a, 2 * k1, 2);
        assert(2 * k1 + 2 == 2 * k);
    }
}

/// `P.power(n)` is the `n`-fold product of `P`, for a polynomial without
/// subscripted variables.
pub proof fn lemma_power_is_product(a: Seq<TermModel>, n: nat)
    requires
        canonical(a),
        !has_variable(a),
    ensures
        poly_power(a, n as int) == Ok::<Seq<TermModel>, Error>(repeated_product(a, n)),
{
    if n > 0 {
        lemma_one_variable();
        lemma_power_loop_is_product(poly_one(), a, n);
        lemma_repeated_product(a, n);
        lemma_times_one(repeated_product(a, n));
    }
}

} // verus!
