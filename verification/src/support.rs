use crate::algebra::{
    cross_terms, curve_polynomial, curve_terms, div_terms, has_variable, has_x, has_y, low_q_terms,
    mod_terms, neg_terms, poly_add, poly_div, poly_mod, poly_mul, poly_mul_mod, poly_of_term,
    poly_omit_high_order_q, poly_one, poly_power, poly_power_modulo, poly_power_omit_high_order_q,
    poly_reduction, poly_reduction_modular, poly_sub, power_loop, power_modulo_loop, reduce_term,
    reduce_term_modular, reduction_modular_sum, scale_terms, term_odd_y,
};
use crate::model::{
    coeff, lemma_coeff_at, lemma_coeff_support, lemma_normalize_denotes, normalize, MonomialModel,
    TermModel,
};
use crate::term::{mono_mul, term_mul};
use vstd::prelude::*;

verus! {

/// A polynomial carries a subscripted variable only where a term of the sum
/// that it denotes does.
pub proof fn lemma_normalize_variable(s: Seq<TermModel>)
    requires
        !has_variable(s),
    ensures
        !has_variable(normalize(s)),
{
    let r = normalize(s);
    lemma_normalize_denotes(s);
    if has_variable(r) {
        let i = choose|i: int| 0 <= i < r.len() && (#[trigger] r[i]).mono.var is Some;
        lemma_coeff_at(r, i);
        assert(coeff(r, r[i].mono) == coeff(s, r[i].mono));
        let j = lemma_coeff_support(s, r[i].mono);
        assert(s[j].mono.var is Some);
    }
}

/// The polynomial of a term without a variable has none.
pub proof fn lemma_term_variable(t: TermModel)
    requires
        t.mono.var is None,
    ensures
        !has_variable(poly_of_term(t)),
{
    let s = poly_of_term(t);
    if has_variable(s) {
        let i = choose|i: int| 0 <= i < s.len() && (#[trigger] s[i]).mono.var is Some;
        assert(s[i] == t);
    }
}

/// A sum of polynomials without variables has none.
pub proof fn lemma_add_variable(a: Seq<TermModel>, b: Seq<TermModel>)
    requires
        !has_variable(a),
        !has_variable(b),
    ensures
        !has_variable(poly_add(a, b)),
{
    let s = a + b;
    if has_variable(s) {
        let i = choose|i: int| 0 <= i < s.len() && (#[trigger] s[i]).mono.var is Some;
        if i < a.len() {
            assert(a[i] == s[i]);
        } else {
            assert(b[i - a.len()] == s[i]);
        }
    }
    lemma_normalize_variable(s);
}

/// A difference of polynomials without variables has none.
pub proof fn lemma_sub_variable(a: Seq<TermModel>, b: Seq<TermModel>)
    requires
        !has_variable(a),
        !has_variable(b),
    ensures
        !has_variable(poly_sub(a, b)),
{
    let s = a + neg_terms(b);
    if has_variable(s) {
        let i = choose|i: int| 0 <= i < s.len() && (#[trigger] s[i]).mono.var is Some;
        if i < a.len() {
            assert(a[i] == s[i]);
        } else {
            assert(neg_terms(b)[i - a.len()] == s[i]);
            assert(b[i - a.len()].mono.var is Some);
        }
    }
    lemma_normalize_variable(s);
}

proof fn lemma_cross_variable(a: Seq<TermModel>, b: Seq<TermModel>)
    requires
        !has_variable(a),
        !has_variable(b),
    ensures
        !has_variable(cross_terms(a, b)),
    decreases a.len(),
{
    if a.len() > 0 {
        let d = a.drop_last();
        let t = a.last();
        if has_variable(d) {
            let i = choose|i: int| 0 <= i < d.len() && (#[trigger] d[i]).mono.var is Some;
            assert(a[i] == d[i]);
        }
        lemma_cross_variable(d, b);
        let s = cross_terms(a, b);
        let row = scale_terms(t, b);
        assert(a[a.len() - 1] == t);
        if has_variable(s) {
            let i = choose|i: int| 0 <= i < s.len() && (#[trigger] s[i]).mono.var is Some;
            if i < cross_terms(d, b).len() {
                assert(cross_terms(d, b)[i] == s[i]);
            } else {
                let j = i - cross_terms(d, b).len();
                assert(row[j] == s[i]);
                assert(row[j] == term_mul(t, b[j]));
                assert(b[j].mono.var is Some || t.mono.var is Some);
            }
        }
    } else {
        let s = cross_terms(a, b);
        if has_variable(s) {
            let i = choose|i: int| 0 <= i < s.len() && (#[trigger] s[i]).mono.var is Some;
        }
    }
}

/// A product of polynomials without variables is defined, and has none.
pub proof fn lemma_mul_variable(a: Seq<TermModel>, b: Seq<TermModel>)
    requires
        !has_variable(a),
        !has_variable(b),
    ensures
        poly_mul(a, b) is Ok,
        !has_variable(poly_mul(a, b)->Ok_0),
{
    lemma_cross_variable(a, b);
    lemma_normalize_variable(cross_terms(a, b));
}

/// What is left of a polynomial without variables modulo `p` has none.
pub proof fn lemma_mod_variable(a: Seq<TermModel>, p: int)
    requires
        !has_variable(a),
        p >= 2,
    ensures
        poly_mod(a, p) is Ok,
        !has_variable(poly_mod(a, p)->Ok_0),
{
    let s = mod_terms(a, p);
    if has_variable(s) {
        let i = choose|i: int| 0 <= i < s.len() && (#[trigger] s[i]).mono.var is Some;
        assert(a[i].mono.var is Some);
    }
    lemma_normalize_variable(s);
}

/// A quotient of a polynomial without variables by a term without a
/// variable and with a coefficient other than zero is defined, and has no
/// variable.
pub proof fn lemma_div_variable(a: Seq<TermModel>, d: TermModel)
    requires
        !has_variable(a),
        d.mono.var is None,
        d.coef != 0,
    ensures
        poly_div(a, poly_of_term(d)) is Ok,
        !has_variable(poly_div(a, poly_of_term(d))->Ok_0),
{
    let s = div_terms(a, d);
    assert(poly_of_term(d)[0] == d);
    if has_variable(s) {
        let i = choose|i: int| 0 <= i < s.len() && (#[trigger] s[i]).mono.var is Some;
        assert(a[i].mono.var is Some);
    }
    lemma_normalize_variable(s);
}

proof fn lemma_power_loop_variable(r: Seq<TermModel>, b: Seq<TermModel>, e: int)
    requires
        !has_variable(r),
        !has_variable(b),
    ensures
        power_loop(r, b, e) is Ok,
        !has_variable(power_loop(r, b, e)->Ok_0),
    decreases e,
{
    lemma_mul_variable(r, b);
    if e > 1 {
        lemma_mul_variable(b, b);
        let r2 = if e % 2 == 1 {
            poly_mul(r, b)->Ok_0
        } else {
            r
        };
        lemma_power_loop_variable(r2, poly_mul(b, b)->Ok_0, e / 2);
    }
}

/// The polynomial `1` has no variable.
pub proof fn lemma_one_variable()
    ensures
        !has_variable(poly_one()),
{
    if has_variable(poly_one()) {
        let i = choose|i: int| 0 <= i < poly_one().len() && (#[trigger] poly_one()[i]).mono.var
            is Some;
    }
}

/// A power of a polynomial without variables with an exponent that is not
/// negative is defined, and has no variable.
pub proof fn lemma_power_variable(a: Seq<TermModel>, n: int)
    requires
        !has_variable(a),
        n >= 0,
    ensures
        poly_power(a, n) is Ok,
        !has_variable(poly_power(a, n)->Ok_0),
{
    lemma_one_variable();
    if n > 0 {
        lemma_power_loop_variable(poly_one(), a, n);
    }
}

proof fn lemma_power_modulo_loop_variable(r: Seq<TermModel>, b: Seq<TermModel>, e: int, p: int)
    requires
        !has_variable(r),
        !has_variable(b),
        p >= 2,
    ensures
        power_modulo_loop(r, b, e, p) is Ok,
        !has_variable(power_modulo_loop(r, b, e, p)->Ok_0),
    decreases e,
{
    lemma_mul_variable(r, b);
    lemma_mod_variable(poly_mul(r, b)->Ok_0, p);
    if e > 1 {
        lemma_mul_variable(b, b);
        lemma_mod_variable(poly_mul(b, b)->Ok_0, p);
        let r2 = if e % 2 == 1 {
            poly_mul_mod(r, b, p)->Ok_0
        } else {
            r
        };
        lemma_power_modulo_loop_variable(r2, poly_mul_mod(b, b, p)->Ok_0, e / 2, p);
    }
}

/// A power modulo `p` of a polynomial without variables is defined for a
/// modulus of at least two and an exponent that is not negative, and has no
/// variable.
pub proof fn lemma_power_modulo_variable(a: Seq<TermModel>, n: int, p: int)
    requires
        !has_variable(a),
        n >= 0,
        p >= 2,
    ensures
        poly_power_modulo(a, n, p) is Ok,
        !has_variable(poly_power_modulo(a, n, p)->Ok_0),
{
    lemma_one_variable();
    lemma_mod_variable(poly_one(), p);
    lemma_mod_variable(a, p);
    if n > 0 {
        lemma_power_modulo_loop_variable(poly_one(), poly_mod(a, p)->Ok_0, n, p);
    }
}

proof fn lemma_curve_variable(a: int, b: int)
    ensures
        !has_variable(curve_polynomial(a, b)),
{
    let s = curve_terms(a, b);
    if has_variable(s) {
        let i = choose|i: int| 0 <= i < s.len() && (#[trigger] s[i]).mono.var is Some;
    }
    lemma_normalize_variable(s);
}

/// The reduction by the curve is defined for every polynomial.
pub proof fn lemma_reduction_defined(s: Seq<TermModel>, a: int, b: int)
    ensures
        poly_reduction(s, a, b) is Ok,
        !has_variable(s) ==> !has_variable(poly_reduction(s, a, b)->Ok_0),
    decreases s.len(),
{
    if s.len() > 0 {
        let d = s.drop_last();
        let t = s.last();
        lemma_reduction_defined(d, a, b);
        lemma_curve_variable(a, b);
        if t.mono.y >= 2 {
            lemma_power_variable(curve_polynomial(a, b), t.mono.y / 2);
        }
        assert(reduce_term(t, a, b) is Ok);
        if !has_variable(s) {
            assert(s[s.len() - 1] == t);
            if has_variable(d) {
                let i = choose|i: int| 0 <= i < d.len() && (#[trigger] d[i]).mono.var is Some;
                assert(s[i] == d[i]);
            }
            if t.mono.y >= 2 {
                lemma_term_variable(term_odd_y(t));
                lemma_mul_variable(
                    poly_of_term(term_odd_y(t)),
                    poly_power(curve_polynomial(a, b), t.mono.y / 2)->Ok_0,
                );
            } else {
                lemma_term_variable(t);
            }
            lemma_add_variable(poly_reduction(d, a, b)->Ok_0, reduce_term(t, a, b)->Ok_0);
        }
    } else {
        if has_variable(Seq::<TermModel>::empty()) {
            let i = choose|i: int|
                0 <= i < 0 && (#[trigger] Seq::<TermModel>::empty()[i]).mono.var is Some;
        }
    }
}

/// The sum of the terms reduced by the curve modulo `p` is defined for every
/// polynomial and every modulus of at least two.
pub proof fn lemma_reduction_modular_sum_defined(s: Seq<TermModel>, a: int, b: int, p: int)
    requires
        p >= 2,
    ensures
        reduction_modular_sum(s, a, b, p) is Ok,
        !has_variable(s) ==> !has_variable(reduction_modular_sum(s, a, b, p)->Ok_0),
    decreases s.len(),
{
    if s.len() > 0 {
        let d = s.drop_last();
        let t = s.last();
        lemma_reduction_modular_sum_defined(d, a, b, p);
        lemma_curve_variable(a, b);
        if t.mono.y >= 2 {
            lemma_power_modulo_variable(curve_polynomial(a, b), t.mono.y / 2, p);
        }
        assert(reduce_term_modular(t, a, b, p) is Ok);
        if !has_variable(s) {
            assert(s[s.len() - 1] == t);
            if has_variable(d) {
                let i = choose|i: int| 0 <= i < d.len() && (#[trigger] d[i]).mono.var is Some;
                assert(s[i] == d[i]);
            }
            if t.mono.y >= 2 {
                lemma_term_variable(term_odd_y(t));
                lemma_mul_variable(
                    poly_of_term(term_odd_y(t)),
                    poly_power_modulo(curve_polynomial(a, b), t.mono.y / 2, p)->Ok_0,
                );
            } else {
                lemma_term_variable(t);
            }
            lemma_add_variable(
                reduction_modular_sum(d, a, b, p)->Ok_0,
                reduce_term_modular(t, a, b, p)->Ok_0,
            );
        }
    } else {
        if has_variable(Seq::<TermModel>::empty()) {
            let i = choose|i: int|
                0 <= i < 0 && (#[trigger] Seq::<TermModel>::empty()[i]).mono.var is Some;
        }
    }
}

/// The reduction by the curve modulo `p` is defined for every polynomial
/// and every modulus of at least two.
pub proof fn lemma_reduction_modular_defined(s: Seq<TermModel>, a: int, b: int, p: int)
    requires
        p >= 2,
    ensures
        poly_reduction_modular(s, a, b, p) is Ok,
{
    lemma_reduction_modular_sum_defined(s, a, b, p);
}

/// A series in `q` alone: no `x`, no `y`, no subscripted variable.
pub open spec fn q_series(s: Seq<TermModel>) -> bool {
    forall|i: int|
        0 <= i < s.len() ==> (#[trigger] s[i]).mono.x == 0 && s[i].mono.y == 0 && s[i].mono.var
            is None
}

/// A series in `q` has no `x`, no `y` and no variable.
pub proof fn lemma_q_series(s: Seq<TermModel>)
    requires
        q_series(s),
    ensures
        !has_x(s),
        !has_y(s),
        !has_variable(s),
{
    if has_x(s) {
        let i = choose|i: int| 0 <= i < s.len() && (#[trigger] s[i]).mono.x != 0;
    }
    if has_y(s) {
        let i = choose|i: int| 0 <= i < s.len() && (#[trigger] s[i]).mono.y != 0;
    }
    if has_variable(s) {
        let i = choose|i: int| 0 <= i < s.len() && (#[trigger] s[i]).mono.var is Some;
    }
}

/// What a sum of terms in `q` alone denotes is a series in `q`.
pub proof fn lemma_normalize_q_series(s: Seq<TermModel>)
    requires
        q_series(s),
    ensures
        q_series(normalize(s)),
{
    let r = normalize(s);
    lemma_normalize_denotes(s);
    assert forall|i: int| 0 <= i < r.len() implies (#[trigger] r[i]).mono.x == 0 && r[i].mono.y
        == 0 && r[i].mono.var is None by {
        lemma_coeff_at(r, i);
        assert(coeff(r, r[i].mono) == coeff(s, r[i].mono));
        let j = lemma_coeff_support(s, r[i].mono);
        assert(s[j].mono == r[i].mono);
    }
}

/// The polynomial of a term in `q` alone is a series in `q`.
pub proof fn lemma_term_q_series(t: TermModel)
    requires
        t.mono.x == 0,
        t.mono.y == 0,
        t.mono.var is None,
    ensures
        q_series(poly_of_term(t)),
{
}

/// A sum of series in `q` is a series in `q`.
pub proof fn lemma_add_q_series(a: Seq<TermModel>, b: Seq<TermModel>)
    requires
        q_series(a),
        q_series(b),
    ensures
        q_series(poly_add(a, b)),
{
    let s = a + b;
    assert forall|i: int| 0 <= i < s.len() implies (#[trigger] s[i]).mono.x == 0 && s[i].mono.y
        == 0 && s[i].mono.var is None by {
        if i < a.len() {
            assert(s[i] == a[i]);
        } else {
            assert(s[i] == b[i - a.len()]);
        }
    }
    lemma_normalize_q_series(s);
}

/// A difference of series in `q` is a series in `q`.
pub proof fn lemma_sub_q_series(a: Seq<TermModel>, b: Seq<TermModel>)
    requires
        q_series(a),
        q_series(b),
    ensures
        q_series(poly_sub(a, b)),
{
    let s = a + neg_terms(b);
    assert forall|i: int| 0 <= i < s.len() implies (#[trigger] s[i]).mono.x == 0 && s[i].mono.y
        == 0 && s[i].mono.var is None by {
        if i < a.len() {
            assert(s[i] == a[i]);
        } else {
            assert(s[i] == neg_terms(b)[i - a.len()]);
            assert(b[i - a.len()].mono.x == 0);
        }
    }
    lemma_normalize_q_series(s);
}

proof fn lemma_cross_q_series(a: Seq<TermModel>, b: Seq<TermModel>)
    requires
        q_series(a),
        q_series(b),
    ensures
        q_series(cross_terms(a, b)),
    decreases a.len(),
{
    if a.len() > 0 {
        let d = a.drop_last();
        let t = a.last();
        assert(q_series(d)) by {
            assert forall|i: int| 0 <= i < d.len() implies (#[trigger] d[i]).mono.x == 0
                && d[i].mono.y == 0 && d[i].mono.var is None by {
                assert(d[i] == a[i]);
            }
        }
        lemma_cross_q_series(d, b);
        let s = cross_terms(a, b);
        let row = scale_terms(t, b);
        assert(a[a.len() - 1] == t);
        assert forall|i: int| 0 <= i < s.len() implies (#[trigger] s[i]).mono.x == 0
            && s[i].mono.y == 0 && s[i].mono.var is None by {
            if i < cross_terms(d, b).len() {
                assert(s[i] == cross_terms(d, b)[i]);
            } else {
                let j = i - cross_terms(d, b).len();
                assert(s[i] == row[j]);
                assert(row[j] == term_mul(t, b[j]));
                assert(b[j].mono.x == 0);
            }
        }
    }
}

/// A product of series in `q` is defined, and is a series in `q`.
pub proof fn lemma_mul_q_series(a: Seq<TermModel>, b: Seq<TermModel>)
    requires
        q_series(a),
        q_series(b),
    ensures
        poly_mul(a, b) is Ok,
        q_series(poly_mul(a, b)->Ok_0),
{
    lemma_q_series(a);
    lemma_cross_q_series(a, b);
    lemma_normalize_q_series(cross_terms(a, b));
}

/// A series in `q` is cut off to a series in `q`.
pub proof fn lemma_omit_q_series(a: Seq<TermModel>, order: int)
    requires
        q_series(a),
    ensures
        poly_omit_high_order_q(a, order) is Ok,
        q_series(poly_omit_high_order_q(a, order)->Ok_0),
{
    lemma_q_series(a);
    let s = low_q_terms(a, order);
    assert forall|i: int| 0 <= i < s.len() implies (#[trigger] s[i]).mono.x == 0 && s[i].mono.y
        == 0 && s[i].mono.var is None by {
        assert(s[i].mono == a[i].mono);
    }
    lemma_normalize_q_series(s);
}

/// The polynomial `1` is a series in `q`.
pub proof fn lemma_one_q_series()
    ensures
        q_series(poly_one()),
{
}

/// A cut-off power of a series in `q` is defined, and is a series in `q`.
pub proof fn lemma_power_omit_q_series(a: Seq<TermModel>, n: int, order: int)
    requires
        q_series(a),
    ensures
        poly_power_omit_high_order_q(a, n, order) is Ok,
        q_series(poly_power_omit_high_order_q(a, n, order)->Ok_0),
    decreases n,
{
    lemma_one_q_series();
    if n > 0 {
        lemma_power_omit_q_series(a, n - 1, order);
        let w = poly_power_omit_high_order_q(a, n - 1, order)->Ok_0;
        lemma_mul_q_series(w, a);
        lemma_omit_q_series(poly_mul(w, a)->Ok_0, order);
    }
}

proof fn lemma_power_loop_q_series(r: Seq<TermModel>, b: Seq<TermModel>, e: int)
    requires
        q_series(r),
        q_series(b),
    ensures
        power_loop(r, b, e) is Ok,
        q_series(power_loop(r, b, e)->Ok_0),
    decreases e,
{
    lemma_mul_q_series(r, b);
    if e > 1 {
        lemma_mul_q_series(b, b);
        let r2 = if e % 2 == 1 {
            poly_mul(r, b)->Ok_0
        } else {
            r
        };
        lemma_power_loop_q_series(r2, poly_mul(b, b)->Ok_0, e / 2);
    }
}

/// A power of a series in `q` with an exponent that is not negative is
/// defined, and is a series in `q`.
pub proof fn lemma_power_q_series(a: Seq<TermModel>, n: int)
    requires
        q_series(a),
        n >= 0,
    ensures
        poly_power(a, n) is Ok,
        q_series(poly_power(a, n)->Ok_0),
{
    lemma_one_q_series();
    if n > 0 {
        lemma_power_loop_q_series(poly_one(), a, n);
    }
}

/// Every monomial of the list has the property `f`.
pub open spec fn all_monomials(s: Seq<TermModel>, f: spec_fn(MonomialModel) -> bool) -> bool {
    forall|i: int| 0 <= i < s.len() ==> f((#[trigger] s[i]).mono)
}

/// The products of monomials with the property `f` have it.
pub open spec fn multiplicative(f: spec_fn(MonomialModel) -> bool) -> bool {
    forall|a: MonomialModel, b: MonomialModel| f(a) && f(b) ==> f(#[trigger] mono_mul(a, b))
}

/// What a sum of terms denotes has every property of the monomials of the
/// terms.
pub proof fn lemma_normalize_all(s: Seq<TermModel>, f: spec_fn(MonomialModel) -> bool)
    requires
        all_monomials(s, f),
    ensures
        all_monomials(normalize(s), f),
{
    let r = normalize(s);
    lemma_normalize_denotes(s);
    assert forall|i: int| 0 <= i < r.len() implies f((#[trigger] r[i]).mono) by {
        lemma_coeff_at(r, i);
        assert(coeff(r, r[i].mono) == coeff(s, r[i].mono));
        let j = lemma_coeff_support(s, r[i].mono);
        assert(f(s[j].mono));
    }
}

/// A sum of polynomials has every property of the monomials of both.
pub proof fn lemma_add_all(a: Seq<TermModel>, b: Seq<TermModel>, f: spec_fn(MonomialModel) -> bool)
    requires
        all_monomials(a, f),
        all_monomials(b, f),
    ensures
        all_monomials(poly_add(a, b), f),
{
    let s = a + b;
    assert forall|i: int| 0 <= i < s.len() implies f((#[trigger] s[i]).mono) by {
        if i < a.len() {
            assert(s[i] == a[i]);
        } else {
            assert(s[i] == b[i - a.len()]);
        }
    }
    lemma_normalize_all(s, f);
}

proof fn lemma_cross_all(a: Seq<TermModel>, b: Seq<TermModel>, f: spec_fn(MonomialModel) -> bool)
    requires
        all_monomials(a, f),
        all_monomials(b, f),
        multiplicative(f),
    ensures
        all_monomials(cross_terms(a, b), f),
    decreases a.len(),
{
    if a.len() > 0 {
        let d = a.drop_last();
        let t = a.last();
        assert(all_monomials(d, f)) by {
            assert forall|i: int| 0 <= i < d.len() implies f((#[trigger] d[i]).mono) by {
                assert(d[i] == a[i]);
            }
        }
        lemma_cross_all(d, b, f);
        let s = cross_terms(a, b);
        let row = scale_terms(t, b);
        assert(a[a.len() - 1] == t);
        assert forall|i: int| 0 <= i < s.len() implies f((#[trigger] s[i]).mono) by {
            if i < cross_terms(d, b).len() {
                assert(s[i] == cross_terms(d, b)[i]);
            } else {
                let j = i - cross_terms(d, b).len();
                assert(s[i] == row[j]);
                assert(row[j].mono == mono_mul(t.mono, b[j].mono));
                assert(f(b[j].mono));
            }
        }
    }
}

/// A product of polynomials has every property of the monomials of both
/// that products of monomials keep.
pub proof fn lemma_mul_all(a: Seq<TermModel>, b: Seq<TermModel>, f: spec_fn(MonomialModel) -> bool)
    requires
        all_monomials(a, f),
        all_monomials(b, f),
        multiplicative(f),
        poly_mul(a, b) is Ok,
    ensures
        all_monomials(poly_mul(a, b)->Ok_0, f),
{
    lemma_cross_all(a, b, f);
    lemma_normalize_all(cross_terms(a, b), f);
}

/// A series in `q` has every property of the monomial `1` that products of
/// monomials keep and that does not depend on the power of `q`.
pub proof fn lemma_q_series_all(s: Seq<TermModel>, f: spec_fn(MonomialModel) -> bool)
    requires
        q_series(s),
        forall|m: MonomialModel| m.x == 0 && m.y == 0 && m.var is None ==> #[trigger] f(m),
    ensures
        all_monomials(s, f),
{
}

} // verus!
