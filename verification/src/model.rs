use crate::subscripted_variable::variable_lt;
use vstd::prelude::*;

verus! {

/// A monomial `x^x y^y q^q c_i_j` as mathematics sees it.
pub struct MonomialModel {
    pub x: int,
    pub y: int,
    pub q: int,
    pub var: Option<(int, int)>,
}

/// A term: a coefficient times a monomial.
pub struct TermModel {
    pub coef: int,
    pub mono: MonomialModel,
}

/// The order of monomials: lexicographic on `(x, y, q, variable)`.
pub open spec fn mono_lt(a: MonomialModel, b: MonomialModel) -> bool {
    a.x < b.x || (a.x == b.x && (a.y < b.y || (a.y == b.y && (a.q < b.q || (a.q == b.q
        && variable_lt(a.var, b.var))))))
}

/// What the term `t` adds to the coefficient of the monomial `m`.
pub open spec fn delta(t: TermModel, m: MonomialModel) -> int {
    if t.mono == m {
        t.coef
    } else {
        0
    }
}

/// The coefficient of `m` in a sum of terms.
pub open spec fn coeff(s: Seq<TermModel>, m: MonomialModel) -> int
    decreases s.len(),
{
    if s.len() == 0 {
        0
    } else {
        coeff(s.drop_last(), m) + delta(s.last(), m)
    }
}

/// The monomials rise strictly.
pub open spec fn sorted(s: Seq<TermModel>) -> bool {
    forall|i: int, j: int| 0 <= i < j < s.len() ==> mono_lt(#[trigger] s[i].mono, #[trigger] s[j].mono)
}

/// The form in which a polynomial is kept: the monomials rise strictly, and
/// no coefficient is zero. Two polynomials in this form are equal where
/// their coefficients are.
pub open spec fn canonical(s: Seq<TermModel>) -> bool {
    sorted(s) && forall|i: int| 0 <= i < s.len() ==> (#[trigger] s[i]).coef != 0
}

/// `r` is the polynomial that the sum of terms `s` denotes.
pub open spec fn denotes(r: Seq<TermModel>, s: Seq<TermModel>) -> bool {
    canonical(r) && forall|m: MonomialModel| #[trigger] coeff(r, m) == coeff(s, m)
}

/// The polynomial that a sum of terms denotes: like terms collected, zero
/// terms dropped, the rest in rising order.
pub open spec fn normalize(s: Seq<TermModel>) -> Seq<TermModel> {
    choose|r: Seq<TermModel>| denotes(r, s)
}

/// The coefficients of a list with one more term.
pub proof fn lemma_coeff_push(s: Seq<TermModel>, t: TermModel)
    ensures
        forall|m: MonomialModel| #[trigger] coeff(s.push(t), m) == coeff(s, m) + delta(t, m),
{
    assert(s.push(t).drop_last() =~= s);
}

/// The empty sum has no coefficient.
pub proof fn lemma_coeff_empty()
    ensures
        forall|m: MonomialModel| #[trigger] coeff(Seq::<TermModel>::empty(), m) == 0,
{
}

/// The coefficients of one term.
pub proof fn lemma_coeff_single(t: TermModel)
    ensures
        forall|m: MonomialModel| #[trigger] coeff(seq![t], m) == delta(t, m),
{
    assert(seq![t] =~= Seq::<TermModel>::empty().push(t));
    lemma_coeff_push(Seq::<TermModel>::empty(), t);
}

/// The coefficient of `m` in a concatenation is the sum of its coefficients.
pub proof fn lemma_coeff_concat_at(a: Seq<TermModel>, b: Seq<TermModel>, m: MonomialModel)
    ensures
        coeff(a + b, m) == coeff(a, m) + coeff(b, m),
    decreases b.len(),
{
    if b.len() == 0 {
        assert(a + b =~= a);
    } else {
        assert((a + b).drop_last() =~= a + b.drop_last());
        lemma_coeff_concat_at(a, b.drop_last(), m);
    }
}

/// The coefficients of a concatenation are the sums of the coefficients.
pub proof fn lemma_coeff_concat(a: Seq<TermModel>, b: Seq<TermModel>)
    ensures
        forall|m: MonomialModel| #[trigger] coeff(a + b, m) == coeff(a, m) + coeff(b, m),
{
    assert forall|m: MonomialModel| #[trigger] coeff(a + b, m) == coeff(a, m) + coeff(b, m) by {
        lemma_coeff_concat_at(a, b, m);
    }
}

/// One more term of a list.
pub proof fn lemma_coeff_take_step(s: Seq<TermModel>, i: int)
    requires
        0 <= i < s.len(),
    ensures
        forall|m: MonomialModel| #[trigger]
            coeff(s.take(i + 1), m) == coeff(s.take(i), m) + delta(s[i], m),
{
    assert(s.take(i + 1).drop_last() =~= s.take(i));
}

/// A monomial that no term has gets the coefficient zero.
pub proof fn lemma_coeff_absent(s: Seq<TermModel>, m: MonomialModel)
    requires
        forall|i: int| 0 <= i < s.len() ==> (#[trigger] s[i]).mono != m,
    ensures
        coeff(s, m) == 0,
    decreases s.len(),
{
    if s.len() > 0 {
        let init = s.drop_last();
        assert forall|i: int| 0 <= i < init.len() implies (#[trigger] init[i]).mono != m by {
            assert(init[i] == s[i]);
        }
        lemma_coeff_absent(init, m);
        assert(s.last() == s[s.len() - 1]);
    }
}

/// A non-zero coefficient comes from some term.
pub proof fn lemma_coeff_support(s: Seq<TermModel>, m: MonomialModel) -> (i: int)
    requires
        coeff(s, m) != 0,
    ensures
        0 <= i < s.len(),
        s[i].mono == m,
    decreases s.len(),
{
    if s.last().mono == m {
        s.len() - 1
    } else {
        let i = lemma_coeff_support(s.drop_last(), m);
        assert(s.drop_last()[i] == s[i]);
        i
    }
}

/// The order of monomials is a strict total order.
pub proof fn lemma_mono_lt_order(a: MonomialModel, b: MonomialModel, c: MonomialModel)
    ensures
        !mono_lt(a, a),
        mono_lt(a, b) ==> !mono_lt(b, a),
        mono_lt(a, b) && mono_lt(b, c) ==> mono_lt(a, c),
        a == b || mono_lt(a, b) || mono_lt(b, a),
{
    if !(a == b || mono_lt(a, b) || mono_lt(b, a)) {
        assert(a.x == b.x && a.y == b.y && a.q == b.q);
        assert(a.var == b.var);
    }
}

/// In a sorted list the coefficient of a term's monomial is that term's.
pub proof fn lemma_coeff_at(s: Seq<TermModel>, i: int)
    requires
        sorted(s),
        0 <= i < s.len(),
    ensures
        coeff(s, s[i].mono) == s[i].coef,
{
    let m = s[i].mono;
    let a = s.take(i);
    let b = s.skip(i + 1);
    assert(s =~= a + seq![s[i]] + b);
    lemma_coeff_concat(a + seq![s[i]], b);
    lemma_coeff_concat(a, seq![s[i]]);
    lemma_coeff_single(s[i]);
    assert forall|k: int| 0 <= k < a.len() implies (#[trigger] a[k]).mono != m by {
        assert(a[k] == s[k]);
        lemma_mono_lt_order(s[k].mono, m, m);
    }
    assert forall|k: int| 0 <= k < b.len() implies (#[trigger] b[k]).mono != m by {
        assert(b[k] == s[k + i + 1]);
        lemma_mono_lt_order(m, s[k + i + 1].mono, m);
    }
    lemma_coeff_absent(a, m);
    lemma_coeff_absent(b, m);
}

/// Two polynomials in canonical form with the same coefficients are equal.
pub proof fn lemma_canonical_unique(a: Seq<TermModel>, b: Seq<TermModel>)
    requires
        canonical(a),
        canonical(b),
        forall|m: MonomialModel| coeff(a, m) == coeff(b, m),
    ensures
        a == b,
    decreases a.len(),
{
    if a.len() == 0 {
        if b.len() > 0 {
            lemma_coeff_at(b, 0);
            assert(coeff(a, b[0].mono) == 0);
        }
        assert(a =~= b);
    } else if b.len() == 0 {
        lemma_coeff_at(a, 0);
        assert(coeff(b, a[0].mono) == 0);
    } else {
        let la = a.last();
        let lb = b.last();
        lemma_coeff_at(a, a.len() - 1);
        lemma_coeff_at(b, b.len() - 1);
        let j = lemma_coeff_support(b, la.mono);
        let i = lemma_coeff_support(a, lb.mono);
        lemma_mono_lt_order(la.mono, lb.mono, la.mono);
        assert(la.mono == lb.mono);
        assert(la == lb);
        let a1 = a.drop_last();
        let b1 = b.drop_last();
        assert(canonical(a1)) by {
            assert forall|i: int, j: int| 0 <= i < j < a1.len() implies mono_lt(
                #[trigger] a1[i].mono,
                #[trigger] a1[j].mono,
            ) by {
                assert(a1[i] == a[i] && a1[j] == a[j]);
            }
            assert forall|i: int| 0 <= i < a1.len() implies (#[trigger] a1[i]).coef != 0 by {
                assert(a1[i] == a[i]);
            }
        }
        assert(canonical(b1)) by {
            assert forall|i: int, j: int| 0 <= i < j < b1.len() implies mono_lt(
                #[trigger] b1[i].mono,
                #[trigger] b1[j].mono,
            ) by {
                assert(b1[i] == b[i] && b1[j] == b[j]);
            }
            assert forall|i: int| 0 <= i < b1.len() implies (#[trigger] b1[i]).coef != 0 by {
                assert(b1[i] == b[i]);
            }
        }
        assert forall|m: MonomialModel| coeff(a1, m) == coeff(b1, m) by {
            assert(coeff(a, m) == coeff(b, m));
        }
        lemma_canonical_unique(a1, b1);
        assert(a =~= a1.push(la));
        assert(b =~= b1.push(lb));
    }
}

/// A polynomial in canonical form with the coefficients of `s` is
/// `normalize(s)`.
pub proof fn lemma_normalize_is(s: Seq<TermModel>, r: Seq<TermModel>)
    requires
        denotes(r, s),
    ensures
        r == normalize(s),
{
    let c = normalize(s);
    assert(denotes(c, s));
    assert forall|m: MonomialModel| coeff(r, m) == coeff(c, m) by {
        assert(coeff(r, m) == coeff(s, m));
        assert(coeff(c, m) == coeff(s, m));
    }
    lemma_canonical_unique(r, c);
}

/// The coefficients after a term went in at position `k`.
pub proof fn lemma_coeff_insert(s: Seq<TermModel>, k: int, t: TermModel)
    requires
        0 <= k <= s.len(),
    ensures
        forall|m: MonomialModel| #[trigger] coeff(s.insert(k, t), m) == coeff(s, m) + delta(t, m),
{
    let a = s.take(k);
    let b = s.skip(k);
    assert(s =~= a + b);
    assert(s.insert(k, t) =~= a + seq![t] + b);
    lemma_coeff_concat(a, b);
    lemma_coeff_concat(a + seq![t], b);
    lemma_coeff_concat(a, seq![t]);
    lemma_coeff_single(t);
}

/// The coefficients after the term at position `k` went out.
pub proof fn lemma_coeff_remove(s: Seq<TermModel>, k: int)
    requires
        0 <= k < s.len(),
    ensures
        forall|m: MonomialModel| #[trigger] coeff(s.remove(k), m) == coeff(s, m) - delta(s[k], m),
{
    let a = s.take(k);
    let b = s.skip(k + 1);
    assert(s =~= a + seq![s[k]] + b);
    assert(s.remove(k) =~= a + b);
    lemma_coeff_concat(a, b);
    lemma_coeff_concat(a + seq![s[k]], b);
    lemma_coeff_concat(a, seq![s[k]]);
    lemma_coeff_single(s[k]);
}

/// The coefficients after the term at position `k` was replaced.
pub proof fn lemma_coeff_update(s: Seq<TermModel>, k: int, t: TermModel)
    requires
        0 <= k < s.len(),
    ensures
        forall|m: MonomialModel| #[trigger]
            coeff(s.update(k, t), m) == coeff(s, m) - delta(s[k], m) + delta(t, m),
{
    let a = s.take(k);
    let b = s.skip(k + 1);
    assert(s =~= a + seq![s[k]] + b);
    assert(s.update(k, t) =~= a + seq![t] + b);
    lemma_coeff_concat(a + seq![s[k]], b);
    lemma_coeff_concat(a, seq![s[k]]);
    lemma_coeff_single(s[k]);
    lemma_coeff_concat(a + seq![t], b);
    lemma_coeff_concat(a, seq![t]);
    lemma_coeff_single(t);
}

/// The polynomial `r + t` for a polynomial `r` in canonical form: the term
/// goes to its place, joins the term of its monomial, or cancels it.
pub open spec fn canonical_insert(r: Seq<TermModel>, t: TermModel) -> Seq<TermModel>
    decreases r.len(),
{
    if r.len() == 0 {
        if t.coef == 0 {
            r
        } else {
            seq![t]
        }
    } else if mono_lt(r.last().mono, t.mono) {
        if t.coef == 0 {
            r
        } else {
            r.push(t)
        }
    } else if r.last().mono == t.mono {
        if r.last().coef + t.coef == 0 {
            r.drop_last()
        } else {
            r.drop_last().push(TermModel { coef: r.last().coef + t.coef, mono: t.mono })
        }
    } else {
        canonical_insert(r.drop_last(), t).push(r.last())
    }
}

/// Every monomial of the list is below `u`.
pub open spec fn all_below(s: Seq<TermModel>, u: MonomialModel) -> bool {
    forall|i: int| 0 <= i < s.len() ==> mono_lt((#[trigger] s[i]).mono, u)
}

proof fn lemma_canonical_drop_last(r: Seq<TermModel>)
    requires
        canonical(r),
        r.len() > 0,
    ensures
        canonical(r.drop_last()),
        all_below(r.drop_last(), r.last().mono),
{
    let d = r.drop_last();
    assert forall|i: int, j: int| 0 <= i < j < d.len() implies mono_lt(
        #[trigger] d[i].mono,
        #[trigger] d[j].mono,
    ) by {
        assert(d[i] == r[i] && d[j] == r[j]);
    }
    assert forall|i: int| 0 <= i < d.len() implies (#[trigger] d[i]).coef != 0 by {
        assert(d[i] == r[i]);
    }
    assert forall|i: int| 0 <= i < d.len() implies mono_lt((#[trigger] d[i]).mono, r.last().mono) by {
        assert(d[i] == r[i]);
        assert(r.last() == r[r.len() - 1]);
    }
}

proof fn lemma_canonical_push(r: Seq<TermModel>, t: TermModel)
    requires
        canonical(r),
        all_below(r, t.mono),
        t.coef != 0,
    ensures
        canonical(r.push(t)),
{
    let s = r.push(t);
    assert forall|i: int, j: int| 0 <= i < j < s.len() implies mono_lt(
        #[trigger] s[i].mono,
        #[trigger] s[j].mono,
    ) by {
        if j < r.len() {
            assert(s[i] == r[i] && s[j] == r[j]);
        } else {
            assert(s[i] == r[i]);
        }
    }
    assert forall|i: int| 0 <= i < s.len() implies (#[trigger] s[i]).coef != 0 by {
        if i < r.len() {
            assert(s[i] == r[i]);
        }
    }
}

proof fn lemma_all_below_weaken(s: Seq<TermModel>, u: MonomialModel, v: MonomialModel)
    requires
        all_below(s, u),
        mono_lt(u, v) || u == v,
    ensures
        all_below(s, v),
{
    assert forall|i: int| 0 <= i < s.len() implies mono_lt((#[trigger] s[i]).mono, v) by {
        lemma_mono_lt_order(s[i].mono, u, v);
    }
}

/// What `canonical_insert` makes: a polynomial in canonical form with the
/// coefficients of `r + t`, and below every bound of `r` and `t`.
pub proof fn lemma_canonical_insert(r: Seq<TermModel>, t: TermModel)
    requires
        canonical(r),
    ensures
        canonical(canonical_insert(r, t)),
        forall|m: MonomialModel| #[trigger]
            coeff(canonical_insert(r, t), m) == coeff(r, m) + delta(t, m),
        forall|u: MonomialModel|
            all_below(r, u) && mono_lt(t.mono, u) ==> #[trigger] all_below(canonical_insert(r, t), u),
    decreases r.len(),
{
    let c = canonical_insert(r, t);
    if r.len() == 0 {
        lemma_coeff_single(t);
        lemma_coeff_empty();
        if t.coef != 0 {
            lemma_canonical_push(r, t);
            assert(r.push(t) =~= seq![t]);
        }
        assert forall|u: MonomialModel| all_below(r, u) && mono_lt(t.mono, u) implies #[trigger] all_below(
            c,
            u,
        ) by {}
    } else {
        let last = r.last();
        let d = r.drop_last();
        lemma_canonical_drop_last(r);
        assert(r =~= d.push(last));
        lemma_coeff_push(d, last);
        if mono_lt(last.mono, t.mono) {
            lemma_all_below_weaken(d, last.mono, t.mono);
            assert forall|i: int| 0 <= i < r.len() implies mono_lt((#[trigger] r[i]).mono, t.mono) by {
                if i < d.len() {
                    assert(r[i] == d[i]);
                }
            }
            if t.coef != 0 {
                lemma_canonical_push(r, t);
                lemma_coeff_push(r, t);
                assert forall|u: MonomialModel|
                    all_below(r, u) && mono_lt(t.mono, u) implies #[trigger] all_below(c, u) by {
                    assert forall|i: int| 0 <= i < c.len() implies mono_lt(
                        (#[trigger] c[i]).mono,
                        u,
                    ) by {
                        if i < r.len() {
                            assert(c[i] == r[i]);
                        }
                    }
                }
            } else {
                assert forall|u: MonomialModel|
                    all_below(r, u) && mono_lt(t.mono, u) implies #[trigger] all_below(c, u) by {}
            }
        } else if last.mono == t.mono {
            if last.coef + t.coef == 0 {
                assert forall|u: MonomialModel|
                    all_below(r, u) && mono_lt(t.mono, u) implies #[trigger] all_below(c, u) by {
                    assert forall|i: int| 0 <= i < c.len() implies mono_lt(
                        (#[trigger] c[i]).mono,
                        u,
                    ) by {
                        assert(c[i] == r[i]);
                    }
                }
            } else {
                let joined = TermModel { coef: last.coef + t.coef, mono: t.mono };
                lemma_canonical_push(d, joined);
                lemma_coeff_push(d, joined);
                assert forall|u: MonomialModel|
                    all_below(r, u) && mono_lt(t.mono, u) implies #[trigger] all_below(c, u) by {
                    assert forall|i: int| 0 <= i < c.len() implies mono_lt(
                        (#[trigger] c[i]).mono,
                        u,
                    ) by {
                        if i < d.len() {
                            assert(c[i] == r[i]);
                        }
                    }
                }
            }
        } else {
            lemma_mono_lt_order(last.mono, t.mono, last.mono);
            lemma_canonical_insert(d, t);
            let e = canonical_insert(d, t);
            assert(all_below(e, last.mono));
            lemma_canonical_push(e, last);
            lemma_coeff_push(e, last);
            assert forall|u: MonomialModel|
                all_below(r, u) && mono_lt(t.mono, u) implies #[trigger] all_below(c, u) by {
                assert(all_below(d, u)) by {
                    assert forall|i: int| 0 <= i < d.len() implies mono_lt(
                        (#[trigger] d[i]).mono,
                        u,
                    ) by {
                        assert(d[i] == r[i]);
                    }
                }
                assert(all_below(e, u));
                assert(mono_lt(last.mono, u)) by {
                    assert(r.last() == r[r.len() - 1]);
                }
                assert forall|i: int| 0 <= i < c.len() implies mono_lt(
                    (#[trigger] c[i]).mono,
                    u,
                ) by {
                    if i < e.len() {
                        assert(c[i] == e[i]);
                    }
                }
            }
        }
    }
}

/// The terms collected one after the other, from the first on.
pub open spec fn collect(s: Seq<TermModel>) -> Seq<TermModel>
    decreases s.len(),
{
    if s.len() == 0 {
        Seq::empty()
    } else {
        canonical_insert(collect(s.drop_last()), s.last())
    }
}

/// The terms collected one after the other denote the polynomial of the
/// sum.
pub proof fn lemma_collect_denotes(s: Seq<TermModel>)
    ensures
        denotes(collect(s), s),
    decreases s.len(),
{
    if s.len() > 0 {
        lemma_collect_denotes(s.drop_last());
        lemma_canonical_insert(collect(s.drop_last()), s.last());
    }
}

/// Every sum of terms denotes a polynomial: `normalize(s)` is in canonical
/// form and has the coefficients of `s`.
pub proof fn lemma_normalize_denotes(s: Seq<TermModel>)
    ensures
        denotes(normalize(s), s),
        canonical(normalize(s)),
        forall|m: MonomialModel| #[trigger] coeff(normalize(s), m) == coeff(s, m),
{
    lemma_collect_denotes(s);
}

/// A polynomial in canonical form is what it denotes.
pub proof fn lemma_normalize_canonical(s: Seq<TermModel>)
    requires
        canonical(s),
    ensures
        normalize(s) == s,
{
    lemma_normalize_is(s, s);
}

/// Sums of terms with the same coefficients denote the same polynomial.
pub proof fn lemma_normalize_equal(a: Seq<TermModel>, b: Seq<TermModel>)
    requires
        forall|m: MonomialModel| coeff(a, m) == coeff(b, m),
    ensures
        normalize(a) == normalize(b),
{
    lemma_normalize_denotes(a);
    lemma_normalize_denotes(b);
    assert forall|m: MonomialModel| coeff(normalize(a), m) == coeff(normalize(b), m) by {
        assert(coeff(normalize(a), m) == coeff(a, m));
        assert(coeff(normalize(b), m) == coeff(b, m));
    }
    lemma_canonical_unique(normalize(a), normalize(b));
}

} // verus!
