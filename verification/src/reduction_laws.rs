use crate::algebra::{
    cross_terms, curve_polynomial, curve_terms, div_terms, has_variable, mod_terms, poly_add,
    poly_div, poly_mod, poly_mul, poly_mul_mod, poly_of_term, poly_one, poly_power,
    poly_power_modulo, poly_reduction, poly_reduction_modular, poly_sub, power_loop,
    power_modulo_loop, reduce_term, reduce_term_modular, reduction_modular_sum, scale_terms,
    term_odd_y,
};
use crate::division_polynomial::{
    lemma_omega_defined, lemma_phi_defined, lemma_psi_defined, omega_spec, phi_spec, psi3_spec,
    psi4_factor_spec, psi_spec, xy_poly,
};
use crate::lifted::{lift_div, lift_reduction};
use crate::model::{MonomialModel, TermModel};
use crate::support::{
    all_monomials, lemma_add_all, lemma_mul_all, lemma_normalize_all, lemma_power_variable,
    lemma_reduction_defined, lemma_reduction_modular_sum_defined, multiplicative,
};
use crate::term::{mono_mul, term_div, unit_monomial};
use vstd::prelude::*;

verus! {

/// The monomials in which the exponent of `y` is at most one.
pub open spec fn low_y() -> spec_fn(MonomialModel) -> bool {
    |m: MonomialModel| m.y <= 1
}

/// The monomials without `y`.
pub open spec fn no_y() -> spec_fn(MonomialModel) -> bool {
    |m: MonomialModel| m.y == 0
}

/// The product of a monomial with the property `f` and one with the
/// property `g` has the property `h`.
pub open spec fn products_have(
    f: spec_fn(MonomialModel) -> bool,
    g: spec_fn(MonomialModel) -> bool,
    h: spec_fn(MonomialModel) -> bool,
) -> bool {
    forall|a: MonomialModel, b: MonomialModel| f(a) && g(b) ==> h(#[trigger] mono_mul(a, b))
}

proof fn lemma_cross_mixed(
    a: Seq<TermModel>,
    b: Seq<TermModel>,
    f: spec_fn(MonomialModel) -> bool,
    g: spec_fn(MonomialModel) -> bool,
    h: spec_fn(MonomialModel) -> bool,
)
    requires
        all_monomials(a, f),
        all_monomials(b, g),
        products_have(f, g, h),
    ensures
        all_monomials(cross_terms(a, b), h),
    decreases a.len(),
{
    if a.len() > 0 {
        let d = a.drop_last();
        let t = a.last();
        assert(all_monomials(d, f)) by {
            assert forall|i: int| 0 <= i < d.len() implies f((#[trigger] d[i]).mono) by {
                assert(d[i] == a[i]);
            }
        }
        lemma_cross_mixed(d, b, f, g, h);
        let s = cross_terms(a, b);
        let row = scale_terms(t, b);
        assert(a[a.len() - 1] == t);
        assert forall|i: int| 0 <= i < s.len() implies h((#[trigger] s[i]).mono) by {
            if i < cross_terms(d, b).len() {
                assert(s[i] == cross_terms(d, b)[i]);
            } else {
                let j = i - cross_terms(d, b).len();
                assert(s[i] == row[j]);
                assert(row[j].mono == mono_mul(t.mono, b[j].mono));
                assert(g(b[j].mono));
            }
        }
    }
}

/// A product of polynomials has every property that the products of the
/// monomials of the one with the monomials of the other have.
pub proof fn lemma_mul_mixed(
    a: Seq<TermModel>,
    b: Seq<TermModel>,
    f: spec_fn(MonomialModel) -> bool,
    g: spec_fn(MonomialModel) -> bool,
    h: spec_fn(MonomialModel) -> bool,
)
    requires
        all_monomials(a, f),
        all_monomials(b, g),
        products_have(f, g, h),
        poly_mul(a, b) is Ok,
    ensures
        all_monomials(poly_mul(a, b)->Ok_0, h),
{
    lemma_cross_mixed(a, b, f, g, h);
    lemma_normalize_all(cross_terms(a, b), h);
}

/// What is left of a polynomial modulo `p` has every property of its
/// monomials.
pub proof fn lemma_mod_all(s: Seq<TermModel>, p: int, f: spec_fn(MonomialModel) -> bool)
    requires
        all_monomials(s, f),
        p >= 2,
    ensures
        all_monomials(poly_mod(s, p)->Ok_0, f),
{
    let t = mod_terms(s, p);
    assert forall|i: int| 0 <= i < t.len() implies f((#[trigger] t[i]).mono) by {
        assert(t[i].mono == s[i].mono);
    }
    lemma_normalize_all(t, f);
}

/// A difference of polynomials has every property of the monomials of both.
pub proof fn lemma_sub_all(a: Seq<TermModel>, b: Seq<TermModel>, f: spec_fn(MonomialModel) -> bool)
    requires
        all_monomials(a, f),
        all_monomials(b, f),
    ensures
        all_monomials(poly_sub(a, b), f),
{
    let n = crate::algebra::neg_terms(b);
    let s = a + n;
    assert forall|i: int| 0 <= i < s.len() implies f((#[trigger] s[i]).mono) by {
        if i < a.len() {
            assert(s[i] == a[i]);
        } else {
            assert(s[i] == n[i - a.len()]);
            assert(n[i - a.len()].mono == b[i - a.len()].mono);
        }
    }
    lemma_normalize_all(s, f);
}

proof fn lemma_power_loop_all(
    r: Seq<TermModel>,
    b: Seq<TermModel>,
    e: int,
    f: spec_fn(MonomialModel) -> bool,
)
    requires
        all_monomials(r, f),
        all_monomials(b, f),
        multiplicative(f),
        power_loop(r, b, e) is Ok,
    ensures
        all_monomials(power_loop(r, b, e)->Ok_0, f),
    decreases e,
{
    if e <= 1 {
        lemma_mul_all(r, b, f);
    } else {
        lemma_mul_all(b, b, f);
        if e % 2 == 1 {
            lemma_mul_all(r, b, f);
        }
        let r2 = if e % 2 == 1 {
            poly_mul(r, b)->Ok_0
        } else {
            r
        };
        lemma_power_loop_all(r2, poly_mul(b, b)->Ok_0, e / 2, f);
    }
}

/// A power of a polynomial has every property of its monomials that the
/// monomial `1` has and that products of monomials keep.
pub proof fn lemma_power_all(a: Seq<TermModel>, n: int, f: spec_fn(MonomialModel) -> bool)
    requires
        all_monomials(a, f),
        multiplicative(f),
        f(unit_monomial()),
        poly_power(a, n) is Ok,
    ensures
        all_monomials(poly_power(a, n)->Ok_0, f),
{
    assert(all_monomials(poly_one(), f));
    if n > 0 {
        lemma_power_loop_all(poly_one(), a, n, f);
    }
}

proof fn lemma_power_modulo_loop_all(
    r: Seq<TermModel>,
    b: Seq<TermModel>,
    e: int,
    p: int,
    f: spec_fn(MonomialModel) -> bool,
)
    requires
        all_monomials(r, f),
        all_monomials(b, f),
        multiplicative(f),
        p >= 2,
        power_modulo_loop(r, b, e, p) is Ok,
    ensures
        all_monomials(power_modulo_loop(r, b, e, p)->Ok_0, f),
    decreases e,
{
    if e <= 1 {
        lemma_mul_all(r, b, f);
        lemma_mod_all(poly_mul(r, b)->Ok_0, p, f);
    } else {
        lemma_mul_all(b, b, f);
        lemma_mod_all(poly_mul(b, b)->Ok_0, p, f);
        if e % 2 == 1 {
            lemma_mul_all(r, b, f);
            lemma_mod_all(poly_mul(r, b)->Ok_0, p, f);
        }
        let r2 = if e % 2 == 1 {
            poly_mul_mod(r, b, p)->Ok_0
        } else {
            r
        };
        lemma_power_modulo_loop_all(r2, poly_mul_mod(b, b, p)->Ok_0, e / 2, p, f);
    }
}

/// A power modulo `p` of a polynomial has every property of its monomials
/// that the monomial `1` has and that products of monomials keep.
pub proof fn lemma_power_modulo_all(
    a: Seq<TermModel>,
    n: int,
    p: int,
    f: spec_fn(MonomialModel) -> bool,
)
    requires
        all_monomials(a, f),
        multiplicative(f),
        f(unit_monomial()),
        poly_power_modulo(a, n, p) is Ok,
    ensures
        all_monomials(poly_power_modulo(a, n, p)->Ok_0, f),
{
    assert(all_monomials(poly_one(), f));
    if n == 0 {
        lemma_mod_all(poly_one(), p, f);
    } else {
        lemma_mod_all(a, p, f);
        lemma_power_modulo_loop_all(poly_one(), poly_mod(a, p)->Ok_0, n, p, f);
    }
}

/// The right-hand side of the curve has no `y`.
pub proof fn lemma_curve_no_y(a: int, b: int)
    ensures
        all_monomials(curve_polynomial(a, b), no_y()),
        multiplicative(no_y()),
        products_have(low_y(), no_y(), low_y()),
        no_y()(unit_monomial()),
{
    lemma_normalize_all(curve_terms(a, b), no_y());
}

/// A term reduced by the curve has no power of `y` above the first.
pub proof fn lemma_reduce_term_low_y(t: TermModel, a: int, b: int)
    requires
        reduce_term(t, a, b) is Ok,
    ensures
        all_monomials(reduce_term(t, a, b)->Ok_0, low_y()),
{
    if t.mono.y >= 2 {
        lemma_curve_no_y(a, b);
        lemma_power_all(curve_polynomial(a, b), t.mono.y / 2, no_y());
        let w = poly_power(curve_polynomial(a, b), t.mono.y / 2)->Ok_0;
        lemma_mul_mixed(poly_of_term(term_odd_y(t)), w, low_y(), no_y(), low_y());
    }
}

/// The reduction by the curve leaves no power of `y` above the first.
pub proof fn lemma_reduction_low_y(s: Seq<TermModel>, a: int, b: int)
    ensures
        poly_reduction(s, a, b) is Ok,
        all_monomials(poly_reduction(s, a, b)->Ok_0, low_y()),
    decreases s.len(),
{
    lemma_reduction_defined(s, a, b);
    if s.len() > 0 {
        lemma_reduction_low_y(s.drop_last(), a, b);
        lemma_reduce_term_low_y(s.last(), a, b);
        lemma_add_all(
            poly_reduction(s.drop_last(), a, b)->Ok_0,
            reduce_term(s.last(), a, b)->Ok_0,
            low_y(),
        );
    }
}

proof fn lemma_reduction_modular_sum_low_y(s: Seq<TermModel>, a: int, b: int, p: int)
    requires
        p >= 2,
    ensures
        reduction_modular_sum(s, a, b, p) is Ok,
        all_monomials(reduction_modular_sum(s, a, b, p)->Ok_0, low_y()),
    decreases s.len(),
{
    lemma_reduction_modular_sum_defined(s, a, b, p);
    if s.len() > 0 {
        let t = s.last();
        lemma_reduction_modular_sum_low_y(s.drop_last(), a, b, p);
        if t.mono.y >= 2 {
            lemma_curve_no_y(a, b);
            lemma_power_modulo_all(curve_polynomial(a, b), t.mono.y / 2, p, no_y());
            let w = poly_power_modulo(curve_polynomial(a, b), t.mono.y / 2, p)->Ok_0;
            lemma_mul_mixed(poly_of_term(term_odd_y(t)), w, low_y(), no_y(), low_y());
        }
        lemma_add_all(
            reduction_modular_sum(s.drop_last(), a, b, p)->Ok_0,
            reduce_term_modular(t, a, b, p)->Ok_0,
            low_y(),
        );
    }
}

/// The reduction by the curve modulo `p` leaves no power of `y` above the
/// first.
pub proof fn lemma_reduction_modular_low_y(s: Seq<TermModel>, a: int, b: int, p: int)
    requires
        p >= 2,
    ensures
        poly_reduction_modular(s, a, b, p) is Ok,
        all_monomials(poly_reduction_modular(s, a, b, p)->Ok_0, low_y()),
{
    lemma_reduction_modular_sum_low_y(s, a, b, p);
    lemma_mod_all(reduction_modular_sum(s, a, b, p)->Ok_0, p, low_y());
}

proof fn lemma_psi4_factor_no_y(a: int, b: int)
    ensures
        all_monomials(psi4_factor_spec(a, b), no_y()),
{
    let u1 = poly_add(xy_poly(1, 6, 0), xy_poly(5 * a, 4, 0));
    lemma_add_all(xy_poly(1, 6, 0), xy_poly(5 * a, 4, 0), no_y());
    let u2 = poly_add(u1, xy_poly(20 * b, 3, 0));
    lemma_add_all(u1, xy_poly(20 * b, 3, 0), no_y());
    let u3 = poly_add(u2, xy_poly(-5 * (a * a), 2, 0));
    lemma_add_all(u2, xy_poly(-5 * (a * a), 2, 0), no_y());
    let u4 = poly_add(u3, xy_poly(-4 * a * b, 1, 0));
    lemma_add_all(u3, xy_poly(-4 * a * b, 1, 0), no_y());
    lemma_add_all(u4, xy_poly(-8 * (b * b) - a * a * a, 0, 0), no_y());
}

/// The monomials in `x` and `y` alone without a negative power of `x`: no
/// `q`, no subscripted variable.
pub open spec fn plain_in_x() -> spec_fn(MonomialModel) -> bool {
    |m: MonomialModel| m.x >= 0 && m.q == 0 && m.var is None
}

/// A polynomial in `x` and `y` alone divided by `c y` is one, for `c` other
/// than zero.
pub proof fn lemma_div_y_plain(s: Seq<TermModel>, c: int)
    requires
        all_monomials(s, plain_in_x()),
        c != 0,
    ensures
        poly_div(s, xy_poly(c, 0, 1)) is Ok,
        all_monomials(poly_div(s, xy_poly(c, 0, 1))->Ok_0, plain_in_x()),
{
    let d = xy_poly(c, 0, 1)[0];
    let t = div_terms(s, d);
    assert forall|i: int| 0 <= i < t.len() implies plain_in_x()((#[trigger] t[i]).mono) by {
        assert(t[i] == term_div(s[i], d));
        assert(plain_in_x()(s[i].mono));
    }
    lemma_normalize_all(t, plain_in_x());
}

/// The reduction by the curve of a polynomial in `x` and `y` alone is one.
pub proof fn lemma_reduction_plain(s: Seq<TermModel>, a: int, b: int)
    requires
        all_monomials(s, plain_in_x()),
    ensures
        poly_reduction(s, a, b) is Ok,
        all_monomials(poly_reduction(s, a, b)->Ok_0, plain_in_x()),
    decreases s.len(),
{
    lemma_reduction_defined(s, a, b);
    if s.len() > 0 {
        let d = s.drop_last();
        let t = s.last();
        assert(all_monomials(d, plain_in_x())) by {
            assert forall|i: int| 0 <= i < d.len() implies plain_in_x()((#[trigger] d[i]).mono) by {
                assert(d[i] == s[i]);
            }
        }
        assert(s[s.len() - 1] == t);
        assert(plain_in_x()(t.mono));
        lemma_reduction_plain(d, a, b);
        if t.mono.y >= 2 {
            lemma_normalize_all(curve_terms(a, b), plain_in_x());
            lemma_power_all(curve_polynomial(a, b), t.mono.y / 2, plain_in_x());
            let w = poly_power(curve_polynomial(a, b), t.mono.y / 2)->Ok_0;
            lemma_mul_all(poly_of_term(term_odd_y(t)), w, plain_in_x());
        }
        lemma_add_all(poly_reduction(d, a, b)->Ok_0, reduce_term(t, a, b)->Ok_0, plain_in_x());
    }
}

/// The division polynomial `psi_n` is a polynomial in `x` and `y` alone,
/// without a negative power of `x`.
pub proof fn lemma_psi_plain(a: int, b: int, n: int)
    requires
        n >= 0,
    ensures
        psi_spec(a, b, n) is Ok,
        all_monomials(psi_spec(a, b, n)->Ok_0, plain_in_x()),
    decreases n,
{
    let f = plain_in_x();
    lemma_psi_defined(a, b, n);
    if n == 3 {
        let u = poly_add(xy_poly(3, 4, 0), xy_poly(6 * a, 2, 0));
        lemma_add_all(xy_poly(3, 4, 0), xy_poly(6 * a, 2, 0), f);
        lemma_add_all(u, xy_poly(12 * b, 1, 0), f);
        lemma_add_all(poly_add(u, xy_poly(12 * b, 1, 0)), xy_poly(-(a * a), 0, 0), f);
        assert(psi_spec(a, b, n) == Ok::<Seq<TermModel>, crate::error::Error>(psi3_spec(a, b)));
    } else if n == 4 {
        lemma_psi4_factor_plain(a, b);
        lemma_mul_all(xy_poly(4, 0, 1), psi4_factor_spec(a, b), f);
    } else if n >= 5 && n % 2 == 1 {
        let m = (n - 1) / 2;
        lemma_psi_plain(a, b, m + 2);
        lemma_psi_plain(a, b, m);
        lemma_psi_plain(a, b, m - 1);
        lemma_psi_plain(a, b, m + 1);
        let t1 = lemma_product_plain(psi_spec(a, b, m + 2)->Ok_0, psi_spec(a, b, m)->Ok_0, 3);
        let t2 = lemma_product_plain(psi_spec(a, b, m - 1)->Ok_0, psi_spec(a, b, m + 1)->Ok_0, 3);
        lemma_sub_all(t1, t2, f);
        lemma_reduction_plain(poly_sub(t1, t2), a, b);
    } else if n >= 5 {
        let m = n / 2;
        lemma_psi_plain(a, b, m + 2);
        lemma_psi_plain(a, b, m);
        lemma_psi_plain(a, b, m - 1);
        lemma_psi_plain(a, b, m + 1);
        lemma_psi_plain(a, b, m - 2);
        let t1 = lemma_product_plain(psi_spec(a, b, m + 2)->Ok_0, psi_spec(a, b, m - 1)->Ok_0, 2);
        let t2 = lemma_product_plain(psi_spec(a, b, m - 2)->Ok_0, psi_spec(a, b, m + 1)->Ok_0, 2);
        lemma_sub_all(t1, t2, f);
        lemma_mul_all(psi_spec(a, b, m)->Ok_0, poly_sub(t1, t2), f);
        let u = poly_mul(psi_spec(a, b, m)->Ok_0, poly_sub(t1, t2))->Ok_0;
        lemma_div_y_plain(u, 2);
        lemma_reduction_plain(poly_div(u, xy_poly(2, 0, 1))->Ok_0, a, b);
    }
}

/// The product `u v^k` of polynomials in `x` and `y` alone is one.
proof fn lemma_product_plain(u: Seq<TermModel>, v: Seq<TermModel>, k: int) -> (r: Seq<TermModel>)
    requires
        all_monomials(u, plain_in_x()),
        all_monomials(v, plain_in_x()),
        k >= 0,
    ensures
        poly_power(v, k) is Ok,
        poly_mul(u, poly_power(v, k)->Ok_0) == Ok::<Seq<TermModel>, crate::error::Error>(r),
        all_monomials(r, plain_in_x()),
{
    lemma_plain_variable(u);
    lemma_plain_variable(v);
    lemma_power_variable(v, k);
    lemma_power_all(v, k, plain_in_x());
    lemma_mul_all(u, poly_power(v, k)->Ok_0, plain_in_x());
    poly_mul(u, poly_power(v, k)->Ok_0)->Ok_0
}

/// A polynomial in `x` and `y` alone carries no subscripted variable.
proof fn lemma_plain_variable(s: Seq<TermModel>)
    requires
        all_monomials(s, plain_in_x()),
    ensures
        !has_variable(s),
{
    if has_variable(s) {
        let i = choose|i: int| 0 <= i < s.len() && (#[trigger] s[i]).mono.var is Some;
        assert(plain_in_x()(s[i].mono));
    }
}

proof fn lemma_psi4_factor_plain(a: int, b: int)
    ensures
        all_monomials(psi4_factor_spec(a, b), plain_in_x()),
{
    let f = plain_in_x();
    let u1 = poly_add(xy_poly(1, 6, 0), xy_poly(5 * a, 4, 0));
    lemma_add_all(xy_poly(1, 6, 0), xy_poly(5 * a, 4, 0), f);
    let u2 = poly_add(u1, xy_poly(20 * b, 3, 0));
    lemma_add_all(u1, xy_poly(20 * b, 3, 0), f);
    let u3 = poly_add(u2, xy_poly(-5 * (a * a), 2, 0));
    lemma_add_all(u2, xy_poly(-5 * (a * a), 2, 0), f);
    let u4 = poly_add(u3, xy_poly(-4 * a * b, 1, 0));
    lemma_add_all(u3, xy_poly(-4 * a * b, 1, 0), f);
    lemma_add_all(u4, xy_poly(-8 * (b * b) - a * a * a, 0, 0), f);
}

/// The polynomial `phi_n` is a polynomial in `x` and `y` alone, without a
/// negative power of `x`.
pub proof fn lemma_phi_plain(a: int, b: int, n: int)
    requires
        n >= 1,
    ensures
        phi_spec(a, b, n) is Ok,
        all_monomials(phi_spec(a, b, n)->Ok_0, plain_in_x()),
{
    let f = plain_in_x();
    lemma_phi_defined(a, b, n);
    lemma_psi_plain(a, b, n);
    lemma_psi_plain(a, b, n + 1);
    lemma_psi_plain(a, b, n - 1);
    let t1 = lemma_product_plain(xy_poly(1, 1, 0), psi_spec(a, b, n)->Ok_0, 2);
    lemma_mul_all(psi_spec(a, b, n + 1)->Ok_0, psi_spec(a, b, n - 1)->Ok_0, f);
    let t2 = poly_mul(psi_spec(a, b, n + 1)->Ok_0, psi_spec(a, b, n - 1)->Ok_0)->Ok_0;
    lemma_sub_all(t1, t2, f);
    lemma_reduction_plain(poly_sub(t1, t2), a, b);
}

/// The polynomial `omega_n` is a polynomial in `x` and `y` alone, without a
/// negative power of `x`.
pub proof fn lemma_omega_plain(a: int, b: int, n: int)
    requires
        n >= 1,
    ensures
        omega_spec(a, b, n) is Ok,
        all_monomials(omega_spec(a, b, n)->Ok_0, plain_in_x()),
{
    let f = plain_in_x();
    lemma_omega_defined(a, b, n);
    if n >= 2 {
        lemma_psi_plain(a, b, n + 2);
        lemma_psi_plain(a, b, n - 1);
        lemma_psi_plain(a, b, n - 2);
        lemma_psi_plain(a, b, n + 1);
        let t1 = lemma_product_plain(psi_spec(a, b, n + 2)->Ok_0, psi_spec(a, b, n - 1)->Ok_0, 2);
        let t2 = lemma_product_plain(psi_spec(a, b, n - 2)->Ok_0, psi_spec(a, b, n + 1)->Ok_0, 2);
        lemma_sub_all(t1, t2, f);
        lemma_div_y_plain(poly_sub(t1, t2), 4);
        lemma_reduction_plain(poly_div(poly_sub(t1, t2), xy_poly(4, 0, 1))->Ok_0, a, b);
    }
}

/// The monomials whose exponent of `y` is `lo`, `lo + 2`, `lo + 4` and so
/// on.
pub open spec fn y_from(lo: int) -> spec_fn(MonomialModel) -> bool {
    |m: MonomialModel| m.y >= lo && (m.y - lo) % 2 == 0
}

/// The monomials whose exponent of `y` is `c`.
pub open spec fn y_is(c: int) -> spec_fn(MonomialModel) -> bool {
    |m: MonomialModel| m.y == c
}

/// The exponent of `y` in the division polynomials of index `n`: zero for
/// an odd index, one for an even index.
pub open spec fn psi_y(n: int) -> int {
    (n + 1) % 2
}

/// A list whose monomials have the property `f` has every property that
/// follows from `f`.
pub proof fn lemma_all_implies(
    s: Seq<TermModel>,
    f: spec_fn(MonomialModel) -> bool,
    g: spec_fn(MonomialModel) -> bool,
)
    requires
        all_monomials(s, f),
        forall|m: MonomialModel| f(m) ==> #[trigger] g(m),
    ensures
        all_monomials(s, g),
{
    assert forall|i: int| 0 <= i < s.len() implies g((#[trigger] s[i]).mono) by {
        assert(f(s[i].mono));
    }
}

/// The exponents of `y` in a product are the sums of those of its factors.
pub proof fn lemma_mul_y(u: Seq<TermModel>, v: Seq<TermModel>, a: int, b: int)
    requires
        all_monomials(u, y_from(a)),
        all_monomials(v, y_from(b)),
        poly_mul(u, v) is Ok,
    ensures
        all_monomials(poly_mul(u, v)->Ok_0, y_from(a + b)),
{
    lemma_mul_mixed(u, v, y_from(a), y_from(b), y_from(a + b));
}

/// The exponents of `y` in the product `u v^k` for `k` two or three.
proof fn lemma_product_y(u: Seq<TermModel>, v: Seq<TermModel>, k: int, a: int, b: int) -> (r: Seq<
    TermModel,
>)
    requires
        all_monomials(u, y_is(a)),
        all_monomials(v, y_is(b)),
        !has_variable(u),
        !has_variable(v),
        k == 2 || k == 3,
    ensures
        poly_power(v, k) is Ok,
        poly_mul(u, poly_power(v, k)->Ok_0) == Ok::<Seq<TermModel>, crate::error::Error>(r),
        all_monomials(r, y_from(a + k * b)),
{
    lemma_power_variable(v, k);
    lemma_all_implies(u, y_is(a), y_from(a));
    lemma_all_implies(v, y_is(b), y_from(b));
    reveal_with_fuel(power_loop, 3);
    let one = poly_one();
    assert(all_monomials(one, y_from(0)));
    let v2 = poly_mul(v, v)->Ok_0;
    lemma_mul_y(v, v, b, b);
    if k == 2 {
        assert(poly_power(v, k) == poly_mul(one, v2));
        lemma_mul_y(one, v2, 0, b + b);
    } else {
        let v1 = poly_mul(one, v)->Ok_0;
        lemma_mul_y(one, v, 0, b);
        assert(poly_power(v, k) == poly_mul(v1, v2));
        lemma_mul_y(v1, v2, b, b + b);
    }
    lemma_mul_y(u, poly_power(v, k)->Ok_0, a, k * b);
    poly_mul(u, poly_power(v, k)->Ok_0)->Ok_0
}

/// The division by `c y` takes one off the exponents of `y`.
pub proof fn lemma_div_y(s: Seq<TermModel>, c: int, lo: int)
    requires
        all_monomials(s, y_from(lo)),
        c != 0,
    ensures
        poly_div(s, xy_poly(c, 0, 1)) is Ok,
        all_monomials(poly_div(s, xy_poly(c, 0, 1))->Ok_0, y_from(lo - 1)),
{
    let d = xy_poly(c, 0, 1)[0];
    let t = div_terms(s, d);
    assert forall|i: int| 0 <= i < t.len() implies y_from(lo - 1)((#[trigger] t[i]).mono) by {
        assert(t[i] == term_div(s[i], d));
        assert(y_from(lo)(s[i].mono));
    }
    lemma_normalize_all(t, y_from(lo - 1));
}

/// The reduction by the curve keeps the parity of the exponents of `y`:
/// where they are `lo`, `lo + 2` and so on for an `lo` that is not negative,
/// they are zero after the reduction for an even `lo`, one for an odd one.
pub proof fn lemma_reduction_y(s: Seq<TermModel>, a: int, b: int, lo: int)
    requires
        all_monomials(s, y_from(lo)),
        lo >= 0,
    ensures
        poly_reduction(s, a, b) is Ok,
        all_monomials(poly_reduction(s, a, b)->Ok_0, y_is(lo % 2)),
    decreases s.len(),
{
    let f = y_is(lo % 2);
    lemma_reduction_defined(s, a, b);
    if s.len() > 0 {
        let d = s.drop_last();
        let t = s.last();
        assert(all_monomials(d, y_from(lo))) by {
            assert forall|i: int| 0 <= i < d.len() implies y_from(lo)((#[trigger] d[i]).mono) by {
                assert(d[i] == s[i]);
            }
        }
        assert(s[s.len() - 1] == t);
        assert(y_from(lo)(t.mono));
        lemma_reduction_y(d, a, b, lo);
        if t.mono.y >= 2 {
            lemma_curve_no_y(a, b);
            lemma_power_all(curve_polynomial(a, b), t.mono.y / 2, no_y());
            let w = poly_power(curve_polynomial(a, b), t.mono.y / 2)->Ok_0;
            assert(f(term_odd_y(t).mono));
            lemma_mul_mixed(poly_of_term(term_odd_y(t)), w, f, no_y(), f);
        } else {
            assert(f(t.mono));
        }
        lemma_add_all(poly_reduction(d, a, b)->Ok_0, reduce_term(t, a, b)->Ok_0, f);
    }
}

/// `psi_k` is defined, carries no subscripted variable and has the exponent
/// of `y` that goes with `k`.
#[verifier::opaque]
spec fn psi_shaped(a: int, b: int, k: int) -> bool {
    &&& psi_spec(a, b, k) is Ok
    &&& !has_variable(psi_spec(a, b, k)->Ok_0)
    &&& all_monomials(psi_spec(a, b, k)->Ok_0, y_is(psi_y(k)))
}

proof fn lemma_psi_y_odd(a: int, b: int, m: int)
    requires
        m >= 2,
        psi_shaped(a, b, m + 2),
        psi_shaped(a, b, m),
        psi_shaped(a, b, m - 1),
        psi_shaped(a, b, m + 1),
    ensures
        psi_shaped(a, b, 2 * m + 1),
{
    reveal(psi_shaped);
    lemma_psi_defined(a, b, 2 * m + 1);
    let t1 = lemma_product_y(
        psi_spec(a, b, m + 2)->Ok_0,
        psi_spec(a, b, m)->Ok_0,
        3,
        psi_y(m + 2),
        psi_y(m),
    );
    let t2 = lemma_product_y(
        psi_spec(a, b, m - 1)->Ok_0,
        psi_spec(a, b, m + 1)->Ok_0,
        3,
        psi_y(m - 1),
        psi_y(m + 1),
    );
    lemma_all_implies(t1, y_from(psi_y(m + 2) + 3 * psi_y(m)), y_from(0));
    lemma_all_implies(t2, y_from(psi_y(m - 1) + 3 * psi_y(m + 1)), y_from(0));
    lemma_sub_all(t1, t2, y_from(0));
    lemma_reduction_y(poly_sub(t1, t2), a, b, 0);
    let n = 2 * m + 1;
    assert((n - 1) / 2 == m);
    assert(psi_spec(a, b, n) == poly_reduction(poly_sub(t1, t2), a, b));
}

proof fn lemma_psi_y_even(a: int, b: int, m: int)
    requires
        m >= 3,
        psi_shaped(a, b, m + 2),
        psi_shaped(a, b, m),
        psi_shaped(a, b, m - 1),
        psi_shaped(a, b, m + 1),
        psi_shaped(a, b, m - 2),
    ensures
        psi_shaped(a, b, 2 * m),
{
    reveal(psi_shaped);
    lemma_psi_defined(a, b, 2 * m);
    let t1 = lemma_product_y(
        psi_spec(a, b, m + 2)->Ok_0,
        psi_spec(a, b, m - 1)->Ok_0,
        2,
        psi_y(m + 2),
        psi_y(m - 1),
    );
    let t2 = lemma_product_y(
        psi_spec(a, b, m - 2)->Ok_0,
        psi_spec(a, b, m + 1)->Ok_0,
        2,
        psi_y(m - 2),
        psi_y(m + 1),
    );
    let g = 2 - psi_y(m);
    lemma_all_implies(t1, y_from(psi_y(m + 2) + 2 * psi_y(m - 1)), y_from(g));
    lemma_all_implies(t2, y_from(psi_y(m - 2) + 2 * psi_y(m + 1)), y_from(g));
    lemma_sub_all(t1, t2, y_from(g));
    let d = poly_sub(t1, t2);
    lemma_all_implies(psi_spec(a, b, m)->Ok_0, y_is(psi_y(m)), y_from(psi_y(m)));
    let n = 2 * m;
    assert(n / 2 == m);
    assert(psi_spec(a, b, n) == lift_reduction(
        lift_div(poly_mul(psi_spec(a, b, m)->Ok_0, d), Ok(xy_poly(2, 0, 1))),
        a,
        b,
    ));
    lemma_mul_y(psi_spec(a, b, m)->Ok_0, d, psi_y(m), g);
    let u = poly_mul(psi_spec(a, b, m)->Ok_0, d)->Ok_0;
    lemma_div_y(u, 2, 2);
    lemma_reduction_y(poly_div(u, xy_poly(2, 0, 1))->Ok_0, a, b, 1);
}

proof fn lemma_psi_y_first(a: int, b: int, n: int)
    requires
        0 <= n <= 4,
    ensures
        psi_shaped(a, b, n),
{
    reveal(psi_shaped);
    lemma_psi_defined(a, b, n);
    if n == 0 {
        assert(all_monomials(Seq::<TermModel>::empty(), y_is(1)));
    } else if n == 1 {
        assert(all_monomials(poly_one(), y_is(0)));
    } else if n == 2 {
        assert(all_monomials(xy_poly(2, 0, 1), y_is(1)));
    } else if n == 3 {
        let f = y_is(0);
        let u = poly_add(xy_poly(3, 4, 0), xy_poly(6 * a, 2, 0));
        lemma_add_all(xy_poly(3, 4, 0), xy_poly(6 * a, 2, 0), f);
        lemma_add_all(u, xy_poly(12 * b, 1, 0), f);
        lemma_add_all(poly_add(u, xy_poly(12 * b, 1, 0)), xy_poly(-(a * a), 0, 0), f);
        assert(psi_spec(a, b, n) == Ok::<Seq<TermModel>, crate::error::Error>(psi3_spec(a, b)));
    } else {
        lemma_psi4_factor_no_y(a, b);
        lemma_mul_mixed(xy_poly(4, 0, 1), psi4_factor_spec(a, b), y_is(1), no_y(), y_is(1));
    }
}

proof fn lemma_psi_shaped(a: int, b: int, n: int)
    requires
        n >= 0,
    ensures
        psi_shaped(a, b, n),
    decreases n,
{
    if n <= 4 {
        lemma_psi_y_first(a, b, n);
    } else if n % 2 == 1 {
        let m = (n - 1) / 2;
        assert(n == 2 * m + 1);
        lemma_psi_shaped(a, b, m + 2);
        lemma_psi_shaped(a, b, m);
        lemma_psi_shaped(a, b, m - 1);
        lemma_psi_shaped(a, b, m + 1);
        lemma_psi_y_odd(a, b, m);
    } else {
        let m = n / 2;
        assert(n == 2 * m);
        lemma_psi_shaped(a, b, m + 2);
        lemma_psi_shaped(a, b, m);
        lemma_psi_shaped(a, b, m - 1);
        lemma_psi_shaped(a, b, m + 1);
        lemma_psi_shaped(a, b, m - 2);
        lemma_psi_y_even(a, b, m);
    }
}

/// In the division polynomial `psi_n` every monomial has the exponent of
/// `y` zero for an odd `n`, one for an even `n`.
pub proof fn lemma_psi_y(a: int, b: int, n: int)
    requires
        n >= 0,
    ensures
        psi_spec(a, b, n) is Ok,
        !has_variable(psi_spec(a, b, n)->Ok_0),
        all_monomials(psi_spec(a, b, n)->Ok_0, y_is(psi_y(n))),
{
    reveal(psi_shaped);
    lemma_psi_shaped(a, b, n);
}

/// The polynomial `phi_n` has no `y`.
pub proof fn lemma_phi_y(a: int, b: int, n: int)
    requires
        n >= 1,
    ensures
        phi_spec(a, b, n) is Ok,
        all_monomials(phi_spec(a, b, n)->Ok_0, y_is(0)),
{
    lemma_phi_defined(a, b, n);
    lemma_psi_y(a, b, n);
    lemma_psi_y(a, b, n + 1);
    lemma_psi_y(a, b, n - 1);
    lemma_plain_variable(xy_poly(1, 1, 0));
    let t1 = lemma_product_y(xy_poly(1, 1, 0), psi_spec(a, b, n)->Ok_0, 2, 0, psi_y(n));
    let p1 = psi_spec(a, b, n + 1)->Ok_0;
    let p2 = psi_spec(a, b, n - 1)->Ok_0;
    lemma_all_implies(p1, y_is(psi_y(n + 1)), y_from(psi_y(n + 1)));
    lemma_all_implies(p2, y_is(psi_y(n - 1)), y_from(psi_y(n - 1)));
    lemma_mul_y(p1, p2, psi_y(n + 1), psi_y(n - 1));
    let t2 = poly_mul(p1, p2)->Ok_0;
    lemma_all_implies(t1, y_from(2 * psi_y(n)), y_from(0));
    lemma_all_implies(t2, y_from(psi_y(n + 1) + psi_y(n - 1)), y_from(0));
    lemma_sub_all(t1, t2, y_from(0));
    lemma_reduction_y(poly_sub(t1, t2), a, b, 0);
}

/// In the polynomial `omega_n` every monomial has the exponent of `y` one
/// for an odd `n`, zero for an even `n`.
pub proof fn lemma_omega_y(a: int, b: int, n: int)
    requires
        n >= 1,
    ensures
        omega_spec(a, b, n) is Ok,
        all_monomials(omega_spec(a, b, n)->Ok_0, y_is(n % 2)),
{
    lemma_omega_defined(a, b, n);
    if n >= 2 {
        lemma_psi_y(a, b, n + 2);
        lemma_psi_y(a, b, n - 1);
        lemma_psi_y(a, b, n - 2);
        lemma_psi_y(a, b, n + 1);
        let t1 = lemma_product_y(
            psi_spec(a, b, n + 2)->Ok_0,
            psi_spec(a, b, n - 1)->Ok_0,
            2,
            psi_y(n + 2),
            psi_y(n - 1),
        );
        let t2 = lemma_product_y(
            psi_spec(a, b, n - 2)->Ok_0,
            psi_spec(a, b, n + 1)->Ok_0,
            2,
            psi_y(n - 2),
            psi_y(n + 1),
        );
        let g = 1 + n % 2;
        lemma_all_implies(t1, y_from(psi_y(n + 2) + 2 * psi_y(n - 1)), y_from(g));
        lemma_all_implies(t2, y_from(psi_y(n - 2) + 2 * psi_y(n + 1)), y_from(g));
        lemma_sub_all(t1, t2, y_from(g));
        lemma_div_y(poly_sub(t1, t2), 4, g);
        lemma_reduction_y(poly_div(poly_sub(t1, t2), xy_poly(4, 0, 1))->Ok_0, a, b, g - 1);
    }
}

} // verus!
