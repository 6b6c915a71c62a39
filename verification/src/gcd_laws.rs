use crate::algebra::{
    cross_terms, highest_term, mod_terms, neg_terms, poly_monic, poly_of_term, scale_terms,
};
use crate::bigint::{inverse_spec, lemma_inverse_is_inverse};
use crate::division::{
    degree, euclid_loop, euclid_measure, lemma_division_loop_identity, lemma_remainder, plain,
    poly_gcd, poly_remainder, quotient_terms,
};
use crate::laws::{
    lemma_cross_constant, lemma_cross_mod, lemma_cross_nonzero, lemma_cross_push,
    lemma_normalize_sorted, lemma_reduce, lemma_reduce_congruent, lemma_scale_push,
    lemma_sorted_mod_terms, reduce,
};
use crate::model::{
    canonical, coeff, delta, lemma_coeff_concat, lemma_normalize_denotes, normalize, MonomialModel,
    TermModel,
};
use crate::ring::{lemma_cross_associative, lemma_cross_concat, lemma_cross_normalize};
use crate::term::{constant_term, term_mul, term_neg};
use vstd::arithmetic::div_mod::{
    lemma_add_mod_noop, lemma_mod_twice, lemma_mul_mod_noop_general, lemma_small_mod,
    lemma_sub_mod_noop,
};
use vstd::prelude::*;

verus! {

/// The sums of terms `a` and `b` denote the same polynomial modulo `p`.
pub open spec fn same_modulo(a: Seq<TermModel>, b: Seq<TermModel>, p: int) -> bool {
    forall|m: MonomialModel| #[trigger] coeff(a, m) % p == coeff(b, m) % p
}

/// `d` divides `a` modulo `p`: `a = q d (mod p)` for some polynomial `q`.
pub open spec fn divides_modulo(d: Seq<TermModel>, a: Seq<TermModel>, p: int) -> bool {
    exists|q: Seq<TermModel>| same_modulo(a, #[trigger] cross_terms(q, d), p)
}

/// The products of two polynomials are those of what the two denote modulo
/// `p`, modulo `p`.
proof fn lemma_cross_reduced(u: Seq<TermModel>, v: Seq<TermModel>, p: int)
    requires
        p >= 2,
    ensures
        same_modulo(
            cross_terms(u, v),
            cross_terms(reduce(normalize(u), p), reduce(normalize(v), p)),
            p,
        ),
{
    let nu = normalize(u);
    let nv = normalize(v);
    lemma_normalize_denotes(u);
    lemma_normalize_denotes(v);
    lemma_cross_normalize(u, v);
    lemma_cross_normalize(nu, v);
    lemma_cross_mod(nu, nv, p);
    lemma_sorted_mod_terms(nu, p);
    lemma_sorted_mod_terms(nv, p);
    lemma_normalize_sorted(mod_terms(nu, p));
    lemma_normalize_sorted(mod_terms(nv, p));
    lemma_cross_nonzero(mod_terms(nu, p), mod_terms(nv, p));
    assert forall|m: MonomialModel| #[trigger]
        coeff(cross_terms(u, v), m) % p == coeff(
            cross_terms(reduce(nu, p), reduce(nv, p)),
            m,
        ) % p by {
        assert(coeff(cross_terms(nu, v), m) == coeff(cross_terms(u, v), m));
        assert(coeff(cross_terms(nu, nv), m) == coeff(cross_terms(nu, v), m));
        assert(coeff(cross_terms(mod_terms(nu, p), mod_terms(nv, p)), m) % p == coeff(
            cross_terms(nu, nv),
            m,
        ) % p);
    }
}

/// What sums of terms that are the same modulo `p` denote modulo `p` is the
/// same.
proof fn lemma_same_reduced(a: Seq<TermModel>, b: Seq<TermModel>, p: int)
    requires
        p >= 2,
        same_modulo(a, b, p),
    ensures
        reduce(normalize(a), p) == reduce(normalize(b), p),
{
    lemma_normalize_denotes(a);
    lemma_normalize_denotes(b);
    assert forall|m: MonomialModel| coeff(normalize(a), m) % p == coeff(normalize(b), m) % p by {
        assert(coeff(normalize(a), m) == coeff(a, m));
        assert(coeff(normalize(b), m) == coeff(b, m));
        assert(coeff(a, m) % p == coeff(b, m) % p);
    }
    lemma_reduce_congruent(normalize(a), normalize(b), p);
}

/// The products of polynomials that are the same modulo `p` are the same
/// modulo `p`.
pub proof fn lemma_cross_compatible(
    u: Seq<TermModel>,
    u2: Seq<TermModel>,
    v: Seq<TermModel>,
    v2: Seq<TermModel>,
    p: int,
)
    requires
        p >= 2,
        same_modulo(u, u2, p),
        same_modulo(v, v2, p),
    ensures
        same_modulo(cross_terms(u, v), cross_terms(u2, v2), p),
{
    lemma_cross_reduced(u, v, p);
    lemma_cross_reduced(u2, v2, p);
    lemma_same_reduced(u, u2, p);
    lemma_same_reduced(v, v2, p);
    let r = cross_terms(reduce(normalize(u), p), reduce(normalize(v), p));
    assert forall|m: MonomialModel| #[trigger]
        coeff(cross_terms(u, v), m) % p == coeff(cross_terms(u2, v2), m) % p by {
        assert(coeff(cross_terms(u, v), m) % p == coeff(r, m) % p);
        assert(coeff(cross_terms(u2, v2), m) % p == coeff(r, m) % p);
    }
}

proof fn lemma_same_reflexive(a: Seq<TermModel>, p: int)
    ensures
        same_modulo(a, a, p),
{
}

proof fn lemma_same_transitive(a: Seq<TermModel>, b: Seq<TermModel>, c: Seq<TermModel>, p: int)
    requires
        same_modulo(a, b, p),
        same_modulo(b, c, p),
    ensures
        same_modulo(a, c, p),
{
    assert forall|m: MonomialModel| #[trigger] coeff(a, m) % p == coeff(c, m) % p by {
        assert(coeff(a, m) % p == coeff(b, m) % p);
        assert(coeff(b, m) % p == coeff(c, m) % p);
    }
}

/// Sums of polynomials that are the same modulo `p` are the same modulo
/// `p`.
proof fn lemma_concat_compatible(
    a: Seq<TermModel>,
    a2: Seq<TermModel>,
    b: Seq<TermModel>,
    b2: Seq<TermModel>,
    p: int,
)
    requires
        p >= 2,
        same_modulo(a, a2, p),
        same_modulo(b, b2, p),
    ensures
        same_modulo(a + b, a2 + b2, p),
{
    lemma_coeff_concat(a, b);
    lemma_coeff_concat(a2, b2);
    assert forall|m: MonomialModel| #[trigger] coeff(a + b, m) % p == coeff(a2 + b2, m) % p by {
        assert(coeff(a, m) % p == coeff(a2, m) % p);
        assert(coeff(b, m) % p == coeff(b2, m) % p);
        lemma_add_mod_noop(coeff(a, m), coeff(b, m), p);
        lemma_add_mod_noop(coeff(a2, m), coeff(b2, m), p);
    }
}

/// Every polynomial divides itself.
pub proof fn lemma_divides_itself(d: Seq<TermModel>, p: int)
    ensures
        divides_modulo(d, d, p),
{
    let one = seq![constant_term(1)];
    assert(one.drop_last() =~= Seq::<TermModel>::empty());
    assert(cross_terms(Seq::<TermModel>::empty(), d) =~= Seq::<TermModel>::empty());
    assert(cross_terms(one, d) =~= scale_terms(constant_term(1), d));
    assert(scale_terms(constant_term(1), d) =~= d) by {
        assert forall|i: int| 0 <= i < d.len() implies scale_terms(constant_term(1), d)[i]
            == d[i] by {
            assert(1 * d[i].coef == d[i].coef);
        }
    }
    assert(same_modulo(d, cross_terms(one, d), p));
}

/// Every polynomial divides the zero polynomial.
pub proof fn lemma_divides_zero(d: Seq<TermModel>, p: int)
    ensures
        divides_modulo(d, Seq::<TermModel>::empty(), p),
{
    let q = Seq::<TermModel>::empty();
    assert(cross_terms(q, d) =~= Seq::<TermModel>::empty());
    assert(same_modulo(Seq::<TermModel>::empty(), cross_terms(q, d), p));
}

/// A divisor of `x` and of `y` divides `q x + y`.
pub proof fn lemma_divides_combination(
    d: Seq<TermModel>,
    x: Seq<TermModel>,
    y: Seq<TermModel>,
    q: Seq<TermModel>,
    a: Seq<TermModel>,
    p: int,
)
    requires
        p >= 2,
        divides_modulo(d, x, p),
        divides_modulo(d, y, p),
        same_modulo(a, cross_terms(q, x) + y, p),
    ensures
        divides_modulo(d, a, p),
{
    let qx = choose|qx: Seq<TermModel>| same_modulo(x, #[trigger] cross_terms(qx, d), p);
    let qy = choose|qy: Seq<TermModel>| same_modulo(y, #[trigger] cross_terms(qy, d), p);
    // q x = q (qx d) = (q qx) d
    lemma_same_reflexive(q, p);
    lemma_cross_compatible(q, q, x, cross_terms(qx, d), p);
    lemma_cross_associative(q, qx, d);
    // q x + y = (q qx) d + qy d = (q qx + qy) d
    lemma_concat_compatible(
        cross_terms(q, x),
        cross_terms(cross_terms(q, qx), d),
        y,
        cross_terms(qy, d),
        p,
    );
    lemma_cross_concat(cross_terms(q, qx), qy, d);
    let w = cross_terms(q, qx) + qy;
    lemma_same_transitive(a, cross_terms(q, x) + y, cross_terms(w, d), p);
    assert(same_modulo(a, cross_terms(w, d), p));
}

/// A divisor of a divisor of `a` divides `a`.
pub proof fn lemma_divides_transitive(
    c: Seq<TermModel>,
    d: Seq<TermModel>,
    a: Seq<TermModel>,
    p: int,
)
    requires
        p >= 2,
        divides_modulo(c, d, p),
        divides_modulo(d, a, p),
    ensures
        divides_modulo(c, a, p),
{
    let q = choose|q: Seq<TermModel>| same_modulo(a, #[trigger] cross_terms(q, d), p);
    lemma_divides_zero(c, p);
    let zero = Seq::<TermModel>::empty();
    assert(cross_terms(q, d) + zero =~= cross_terms(q, d));
    lemma_divides_combination(c, d, zero, q, a, p);
}

/// The coefficients of what is left of a polynomial times a constant,
/// modulo `p`.
proof fn lemma_scaled(b: Seq<TermModel>, c: int, p: int)
    requires
        p >= 2,
        c != 0,
        canonical(b),
    ensures
        forall|m: MonomialModel| #[trigger]
            coeff(reduce(normalize(cross_terms(b, poly_of_term(constant_term(c)))), p), m) == (
            coeff(b, m) * c) % p,
{
    let k = poly_of_term(constant_term(c));
    assert(k == seq![constant_term(c)]);
    let prod = normalize(cross_terms(b, k));
    lemma_normalize_denotes(cross_terms(b, k));
    lemma_cross_constant(b, c);
    lemma_reduce(prod, p);
    assert forall|m: MonomialModel| #[trigger]
        coeff(reduce(prod, p), m) == (coeff(b, m) * c) % p by {
        assert(coeff(reduce(prod, p), m) == coeff(prod, m) % p);
        assert(coeff(prod, m) == coeff(cross_terms(b, k), m));
    }
}

/// A polynomial and its monic form divide each other.
proof fn lemma_monic_divides(b: Seq<TermModel>, p: int)
    requires
        canonical(b),
        b.len() > 0,
        poly_monic(b, p) is Ok,
    ensures
        divides_modulo(poly_monic(b, p)->Ok_0, b, p),
        divides_modulo(b, poly_monic(b, p)->Ok_0, p),
{
    let lead = highest_term(b).coef;
    let inv = inverse_spec(lead, p)->Ok_0;
    lemma_inverse_is_inverse(lead, p);
    assert(inv != 0) by {
        if inv == 0 {
            assert(lead * 0 == 0);
            lemma_small_mod(0, p as nat);
        }
    }
    let monic = poly_monic(b, p)->Ok_0;
    lemma_scaled(b, inv, p);
    let k = poly_of_term(constant_term(inv));
    assert(poly_monic(b, p) == crate::algebra::poly_mul_mod(b, k, p));
    assert(crate::algebra::poly_mul(b, k) is Ok);
    assert(monic == reduce(normalize(cross_terms(b, k)), p));
    assert forall|m: MonomialModel| #[trigger] coeff(monic, m) == (coeff(b, m) * inv) % p by {}
    // monic = inv b: the quotient is the constant inv
    let ki = seq![constant_term(inv)];
    lemma_cross_left_constant(inv, b);
    assert(same_modulo(monic, cross_terms(ki, b), p)) by {
        assert forall|m: MonomialModel| #[trigger]
            coeff(monic, m) % p == coeff(cross_terms(ki, b), m) % p by {
            lemma_mod_twice(coeff(b, m) * inv, p);
            assert(inv * coeff(b, m) == coeff(b, m) * inv) by (nonlinear_arith);
        }
    }
    // b = lead monic: the quotient is the constant lead
    let kl = seq![constant_term(lead)];
    lemma_cross_left_constant(lead, monic);
    assert(same_modulo(b, cross_terms(kl, monic), p)) by {
        assert forall|m: MonomialModel| #[trigger]
            coeff(b, m) % p == coeff(cross_terms(kl, monic), m) % p by {
            let x = coeff(b, m);
            assert(coeff(cross_terms(kl, monic), m) == lead * ((x * inv) % p));
            lemma_mul_mod_noop_general(lead, x * inv, p);
            assert(lead * (x * inv) == x * (lead * inv)) by (nonlinear_arith);
            lemma_mul_mod_noop_general(x, lead * inv, p);
            assert((x % p) * 1 == x % p);
            lemma_mod_twice(x, p);
        }
    }
}

/// The coefficients of the products of a constant with a polynomial.
proof fn lemma_cross_left_constant(c: int, s: Seq<TermModel>)
    ensures
        forall|m: MonomialModel| #[trigger]
            coeff(cross_terms(seq![constant_term(c)], s), m) == c * coeff(s, m),
{
    let k = seq![constant_term(c)];
    assert(k.drop_last() =~= Seq::<TermModel>::empty());
    assert(cross_terms(Seq::<TermModel>::empty(), s) =~= Seq::<TermModel>::empty());
    assert(cross_terms(k, s) =~= scale_terms(constant_term(c), s));
    lemma_scale_constant(c, s);
}

proof fn lemma_scale_constant(c: int, s: Seq<TermModel>)
    ensures
        forall|m: MonomialModel| #[trigger]
            coeff(scale_terms(constant_term(c), s), m) == c * coeff(s, m),
    decreases s.len(),
{
    if s.len() == 0 {
        assert forall|m: MonomialModel| #[trigger]
            coeff(scale_terms(constant_term(c), s), m) == c * coeff(s, m) by {
            assert(c * 0 == 0);
        }
    } else {
        let d = s.drop_last();
        let w = s.last();
        lemma_scale_constant(c, d);
        assert(s =~= d.push(w));
        lemma_scale_push(constant_term(c), d, w);
        assert(term_mul(constant_term(c), w).mono == w.mono);
        assert forall|m: MonomialModel| #[trigger]
            coeff(scale_terms(constant_term(c), s), m) == c * coeff(s, m) by {
            assert(coeff(scale_terms(constant_term(c), d.push(w)), m) == coeff(
                scale_terms(constant_term(c), d),
                m,
            ) + delta(term_mul(constant_term(c), w), m));
            assert(coeff(s, m) == coeff(d, m) + delta(w, m));
            assert(c * (coeff(d, m) + delta(w, m)) == c * coeff(d, m) + c * delta(w, m))
                by (nonlinear_arith);
            assert(c * 0 == 0);
        }
    }
}

/// The dividend is the quotient times the divisor and the remainder, as
/// sums of terms.
proof fn lemma_division_terms(a: Seq<TermModel>, b: Seq<TermModel>, p: int)
    requires
        canonical(a),
        canonical(b),
        poly_remainder(a, b, p) is Ok,
    ensures
        p >= 2,
        same_modulo(
            a,
            cross_terms(quotient_terms(a, b, inverse_spec(highest_term(b).coef, p)->Ok_0, p), b)
                + poly_remainder(a, b, p)->Ok_0,
            p,
        ),
{
    lemma_remainder(a, b, p);
    let inv = inverse_spec(highest_term(b).coef, p)->Ok_0;
    lemma_inverse_is_inverse(highest_term(b).coef, p);
    lemma_division_loop_identity(a, b, inv, p);
    let q = quotient_terms(a, b, inv, p);
    let r = poly_remainder(a, b, p)->Ok_0;
    lemma_coeff_concat(cross_terms(q, b), r);
    assert forall|m: MonomialModel| #[trigger]
        coeff(a, m) % p == coeff(cross_terms(q, b) + r, m) % p by {
        assert(coeff(a, m) % p == (coeff(cross_terms(q, b), m) + coeff(r, m)) % p);
    }
}

proof fn lemma_euclid_divides(a: Seq<TermModel>, b: Seq<TermModel>, p: int)
    requires
        plain(a),
        plain(b),
        euclid_loop(a, b, p) is Ok,
    ensures
        divides_modulo(euclid_loop(a, b, p)->Ok_0, a, p),
        divides_modulo(euclid_loop(a, b, p)->Ok_0, b, p),
    decreases euclid_measure(a, b),
{
    let g = euclid_loop(a, b, p)->Ok_0;
    if degree(a) < degree(b) {
        lemma_euclid_divides(b, a, p);
    } else {
        lemma_remainder(a, b, p);
        lemma_division_terms(a, b, p);
        let r = poly_remainder(a, b, p)->Ok_0;
        let q = quotient_terms(a, b, inverse_spec(highest_term(b).coef, p)->Ok_0, p);
        if r.len() == 0 {
            lemma_monic_divides(b, p);
            lemma_divides_zero(g, p);
            assert(r =~= Seq::<TermModel>::empty());
            lemma_divides_combination(g, b, r, q, a, p);
        } else {
            lemma_euclid_divides(b, r, p);
            lemma_divides_combination(g, b, r, q, a, p);
        }
    }
}

/// The greatest common divisor divides both polynomials, modulo `p`.
pub proof fn lemma_gcd_divides(a: Seq<TermModel>, b: Seq<TermModel>, p: int)
    requires
        canonical(a),
        canonical(b),
        poly_gcd(a, b, p) is Ok,
    ensures
        divides_modulo(poly_gcd(a, b, p)->Ok_0, a, p),
        divides_modulo(poly_gcd(a, b, p)->Ok_0, b, p),
{
    lemma_euclid_divides(a, b, p);
}

proof fn lemma_scale_neg(t: TermModel, v: Seq<TermModel>)
    ensures
        forall|m: MonomialModel| #[trigger]
            coeff(scale_terms(term_neg(t), v), m) == -coeff(scale_terms(t, v), m),
    decreases v.len(),
{
    if v.len() == 0 {
        assert forall|m: MonomialModel| #[trigger]
            coeff(scale_terms(term_neg(t), v), m) == -coeff(scale_terms(t, v), m) by {}
    } else {
        let d = v.drop_last();
        let w = v.last();
        lemma_scale_neg(t, d);
        assert(v =~= d.push(w));
        lemma_scale_push(t, d, w);
        lemma_scale_push(term_neg(t), d, w);
        assert((-t.coef) * w.coef == -(t.coef * w.coef)) by (nonlinear_arith);
        assert forall|m: MonomialModel| #[trigger]
            coeff(scale_terms(term_neg(t), v), m) == -coeff(scale_terms(t, v), m) by {
            assert(coeff(scale_terms(term_neg(t), d), m) == -coeff(scale_terms(t, d), m));
            assert(coeff(scale_terms(t, d.push(w)), m) == coeff(scale_terms(t, d), m) + delta(
                term_mul(t, w),
                m,
            ));
            assert(coeff(scale_terms(term_neg(t), d.push(w)), m) == coeff(
                scale_terms(term_neg(t), d),
                m,
            ) + delta(term_mul(term_neg(t), w), m));
        }
    }
}

/// The products with a negated polynomial are the negated products.
proof fn lemma_cross_neg(u: Seq<TermModel>, v: Seq<TermModel>)
    ensures
        forall|m: MonomialModel| #[trigger]
            coeff(cross_terms(neg_terms(u), v), m) == -coeff(cross_terms(u, v), m),
    decreases u.len(),
{
    if u.len() == 0 {
        assert(neg_terms(u) =~= u);
        assert forall|m: MonomialModel| #[trigger]
            coeff(cross_terms(neg_terms(u), v), m) == -coeff(cross_terms(u, v), m) by {}
    } else {
        let d = u.drop_last();
        let t = u.last();
        lemma_cross_neg(d, v);
        assert(u =~= d.push(t));
        assert(neg_terms(u) =~= neg_terms(d).push(term_neg(t)));
        lemma_cross_push(d, t, v);
        lemma_cross_push(neg_terms(d), term_neg(t), v);
        lemma_scale_neg(t, v);
        assert forall|m: MonomialModel| #[trigger]
            coeff(cross_terms(neg_terms(u), v), m) == -coeff(cross_terms(u, v), m) by {
            assert(coeff(cross_terms(neg_terms(d), v), m) == -coeff(cross_terms(d, v), m));
            assert(coeff(scale_terms(term_neg(t), v), m) == -coeff(scale_terms(t, v), m));
            assert(coeff(cross_terms(d.push(t), v), m) == coeff(cross_terms(d, v), m) + coeff(
                scale_terms(t, v),
                m,
            ));
            assert(coeff(cross_terms(neg_terms(d).push(term_neg(t)), v), m) == coeff(
                cross_terms(neg_terms(d), v),
                m,
            ) + coeff(scale_terms(term_neg(t), v), m));
        }
    }
}

/// A divisor of the dividend and of the divisor divides the remainder.
proof fn lemma_divides_remainder(c: Seq<TermModel>, a: Seq<TermModel>, b: Seq<TermModel>, p: int)
    requires
        canonical(a),
        canonical(b),
        poly_remainder(a, b, p) is Ok,
        divides_modulo(c, a, p),
        divides_modulo(c, b, p),
    ensures
        divides_modulo(c, poly_remainder(a, b, p)->Ok_0, p),
{
    lemma_division_terms(a, b, p);
    let r = poly_remainder(a, b, p)->Ok_0;
    let q = quotient_terms(a, b, inverse_spec(highest_term(b).coef, p)->Ok_0, p);
    lemma_cross_neg(q, b);
    lemma_coeff_concat(cross_terms(q, b), r);
    lemma_coeff_concat(cross_terms(neg_terms(q), b), a);
    // r = a - q b = (-q) b + a (mod p)
    assert(same_modulo(r, cross_terms(neg_terms(q), b) + a, p)) by {
        assert forall|m: MonomialModel| #[trigger]
            coeff(r, m) % p == coeff(cross_terms(neg_terms(q), b) + a, m) % p by {
            let x = coeff(a, m);
            let y = coeff(cross_terms(q, b), m);
            let z = coeff(r, m);
            assert(coeff(cross_terms(neg_terms(q), b), m) == -y);
            assert(x % p == coeff(cross_terms(q, b) + r, m) % p);
            assert(x % p == (y + z) % p);
            // z = (y + z) - y = x - y (mod p)
            lemma_sub_mod_noop(y + z, y, p);
            lemma_sub_mod_noop(x, y, p);
        }
    }
    lemma_divides_combination(c, b, a, neg_terms(q), r, p);
}

proof fn lemma_euclid_greatest(a: Seq<TermModel>, b: Seq<TermModel>, p: int, c: Seq<TermModel>)
    requires
        plain(a),
        plain(b),
        euclid_loop(a, b, p) is Ok,
        divides_modulo(c, a, p),
        divides_modulo(c, b, p),
    ensures
        divides_modulo(c, euclid_loop(a, b, p)->Ok_0, p),
    decreases euclid_measure(a, b),
{
    if degree(a) < degree(b) {
        lemma_euclid_greatest(b, a, p, c);
    } else {
        lemma_remainder(a, b, p);
        lemma_division_terms(a, b, p);
        let r = poly_remainder(a, b, p)->Ok_0;
        if r.len() == 0 {
            lemma_monic_divides(b, p);
            lemma_divides_transitive(c, b, poly_monic(b, p)->Ok_0, p);
        } else {
            lemma_divides_remainder(c, a, b, p);
            lemma_euclid_greatest(b, r, p, c);
        }
    }
}

/// What the greatest common divisor is: a common divisor of the two
/// polynomials modulo `p` that every common divisor divides.
pub proof fn lemma_gcd_is_greatest(a: Seq<TermModel>, b: Seq<TermModel>, p: int, c: Seq<TermModel>)
    requires
        canonical(a),
        canonical(b),
        poly_gcd(a, b, p) is Ok,
        divides_modulo(c, a, p),
        divides_modulo(c, b, p),
    ensures
        divides_modulo(poly_gcd(a, b, p)->Ok_0, a, p),
        divides_modulo(poly_gcd(a, b, p)->Ok_0, b, p),
        divides_modulo(c, poly_gcd(a, b, p)->Ok_0, p),
{
    lemma_euclid_divides(a, b, p);
    lemma_euclid_greatest(a, b, p, c);
}

} // verus!
