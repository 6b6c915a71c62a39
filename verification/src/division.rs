use crate::algebra::{
    cross_terms, has_negative_x, has_q, has_variable, has_y, highest_term, neg_terms, poly_mod,
    poly_monic, poly_mul_mod, poly_of_term, poly_one, poly_sub, scale_terms,
};
use crate::bigint::{inverse_spec, lemma_inverse_is_inverse};
use crate::error::Error;
use crate::fermat::lemma_inverse_modulo_prime;
use crate::integer::is_prime;
use crate::laws::{
    lemma_coeff_neg_terms, lemma_monic_leading_coefficient, lemma_reduce, lemma_reduce_congruent,
    reduce,
};
use crate::model::{
    canonical, coeff, lemma_coeff_at, lemma_coeff_concat, lemma_coeff_empty, lemma_coeff_support,
    lemma_normalize_denotes, mono_lt, normalize, sorted, MonomialModel, TermModel,
};
use crate::ring::{lemma_cross_concat, lemma_scale_zero, times};
use vstd::arithmetic::div_mod::{
    lemma_add_mod_noop, lemma_mod_bound, lemma_mod_twice, lemma_mul_mod_noop_general,
    lemma_small_mod, lemma_sub_mod_noop,
};
use vstd::prelude::*;

verus! {

/// A polynomial in `x` alone: no `y`, no `q`, no subscripted variable.
pub open spec fn univariate(s: Seq<TermModel>) -> bool {
    !has_y(s) && !has_q(s) && !has_variable(s)
}

/// The degree in `x`: the exponent of the highest term, zero for the zero
/// polynomial.
pub open spec fn degree(s: Seq<TermModel>) -> int {
    highest_term(s).mono.x
}

/// A power of `x` with an exponent in `[0, n]`.
pub open spec fn power_of_x(m: MonomialModel, n: int) -> bool {
    m.y == 0 && m.q == 0 && m.var is None && 0 <= m.x <= n
}

/// Every term is a multiple of a power of `x` with an exponent in `[0, n]`.
pub open spec fn within_degree(s: Seq<TermModel>, n: int) -> bool {
    forall|i: int| 0 <= i < s.len() ==> power_of_x((#[trigger] s[i]).mono, n)
}

/// A polynomial in canonical form in `x` alone, without negative exponents.
pub open spec fn plain(s: Seq<TermModel>) -> bool {
    canonical(s) && univariate(s) && !has_negative_x(s)
}

/// The multiple of `g` that long division takes off `r`: the quotient of the
/// leading terms, with `inv` for the inverse of the leading coefficient of
/// `g`.
pub open spec fn division_factor(r: Seq<TermModel>, g: Seq<TermModel>, inv: int, p: int) -> TermModel {
    TermModel {
        coef: (highest_term(r).coef * inv) % p,
        mono: MonomialModel { x: degree(r) - degree(g), y: 0, q: 0, var: None },
    }
}

/// One step of long division modulo `p`.
pub open spec fn division_step(r: Seq<TermModel>, g: Seq<TermModel>, inv: int, p: int) -> Result<
    Seq<TermModel>,
    Error,
> {
    match poly_mul_mod(poly_of_term(division_factor(r, g, inv, p)), g, p) {
        Ok(d) => poly_mod(poly_sub(r, d), p),
        Err(x) => Err(x),
    }
}

/// What long division modulo `p` works on: polynomials in `x` alone, a
/// divisor other than zero, and an inverse of its leading coefficient.
pub open spec fn division_ready(r: Seq<TermModel>, g: Seq<TermModel>, inv: int, p: int) -> bool {
    &&& plain(r)
    &&& plain(g)
    &&& g.len() > 0
    &&& p >= 2
    &&& (highest_term(g).coef * inv) % p == 1
}

/// A plain polynomial lies within its degree.
pub proof fn lemma_plain_within_degree(s: Seq<TermModel>)
    requires
        plain(s),
    ensures
        within_degree(s, degree(s)),
        s.len() > 0 ==> degree(s) >= 0,
{
    assert forall|i: int| 0 <= i < s.len() implies power_of_x((#[trigger] s[i]).mono, degree(s)) by {
        assert(s[i].mono.y != 0 ==> has_y(s));
        assert(s[i].mono.q != 0 ==> has_q(s));
        assert(s[i].mono.var is Some ==> has_variable(s));
        assert(s[i].mono.x < 0 ==> has_negative_x(s));
        let last = s[s.len() - 1];
        assert(last.mono.y != 0 ==> has_y(s));
        assert(last.mono.q != 0 ==> has_q(s));
        assert(last.mono.var is Some ==> has_variable(s));
        if i < s.len() - 1 {
            assert(mono_lt(s[i].mono, last.mono));
        }
    }
    if s.len() > 0 {
        assert(power_of_x(s[s.len() - 1].mono, degree(s)));
    }
}

/// A polynomial in canonical form within a degree is plain.
pub proof fn lemma_within_degree_plain(s: Seq<TermModel>, n: int)
    requires
        canonical(s),
        within_degree(s, n),
    ensures
        plain(s),
        s.len() > 0 ==> 0 <= degree(s) <= n,
{
    if has_y(s) {
        let i = choose|i: int| 0 <= i < s.len() && (#[trigger] s[i]).mono.y != 0;
        assert(power_of_x(s[i].mono, n));
    }
    if has_q(s) {
        let i = choose|i: int| 0 <= i < s.len() && (#[trigger] s[i]).mono.q != 0;
        assert(power_of_x(s[i].mono, n));
    }
    if has_variable(s) {
        let i = choose|i: int| 0 <= i < s.len() && (#[trigger] s[i]).mono.var is Some;
        assert(power_of_x(s[i].mono, n));
    }
    if has_negative_x(s) {
        let i = choose|i: int| 0 <= i < s.len() && (#[trigger] s[i]).mono.x < 0;
        assert(power_of_x(s[i].mono, n));
    }
    if s.len() > 0 {
        assert(power_of_x(s[s.len() - 1].mono, n));
    }
}

/// A polynomial in canonical form lies within a degree where every monomial
/// with a coefficient does.
pub proof fn lemma_within_degree_by_coefficients(s: Seq<TermModel>, n: int)
    requires
        canonical(s),
        forall|m: MonomialModel| coeff(s, m) != 0 ==> power_of_x(m, n),
    ensures
        within_degree(s, n),
{
    assert forall|i: int| 0 <= i < s.len() implies power_of_x((#[trigger] s[i]).mono, n) by {
        lemma_coeff_at(s, i);
    }
}

/// A list of terms within a degree has coefficients only there.
pub proof fn lemma_coefficients_within_degree(s: Seq<TermModel>, n: int, m: MonomialModel)
    requires
        within_degree(s, n),
        coeff(s, m) != 0,
    ensures
        power_of_x(m, n),
{
    let i = lemma_coeff_support(s, m);
    assert(power_of_x(s[i].mono, n));
}

/// The remainder of a polynomial within a degree lies within that degree.
pub proof fn lemma_reduce_within_degree(s: Seq<TermModel>, p: int, n: int)
    requires
        canonical(s),
        within_degree(s, n),
        p >= 2,
    ensures
        canonical(reduce(s, p)),
        within_degree(reduce(s, p), n),
{
    lemma_reduce(s, p);
    assert forall|m: MonomialModel| coeff(reduce(s, p), m) != 0 implies power_of_x(m, n) by {
        assert(coeff(reduce(s, p), m) == coeff(s, m) % p);
        if coeff(s, m) == 0 {
            lemma_small_mod(0, p as nat);
        } else {
            lemma_coefficients_within_degree(s, n, m);
        }
    }
    lemma_within_degree_by_coefficients(reduce(s, p), n);
}

/// The products of a term in `x` alone with a sorted list are sorted.
proof fn lemma_scale_sorted(t: TermModel, g: Seq<TermModel>)
    requires
        t.mono.var is None,
        sorted(g),
    ensures
        sorted(scale_terms(t, g)),
{
    let s = scale_terms(t, g);
    assert forall|i: int, j: int| 0 <= i < j < s.len() implies mono_lt(
        #[trigger] s[i].mono,
        #[trigger] s[j].mono,
    ) by {
        assert(mono_lt(g[i].mono, g[j].mono));
    }
}

/// One step of long division takes the leading term away: the remainder is
/// zero or of lower degree.
pub proof fn lemma_division_step(r: Seq<TermModel>, g: Seq<TermModel>, inv: int, p: int)
    requires
        division_ready(r, g, inv, p),
        r.len() > 0,
        degree(r) >= degree(g),
    ensures
        division_step(r, g, inv, p) is Ok,
        division_ready(division_step(r, g, inv, p)->Ok_0, g, inv, p),
        division_step(r, g, inv, p)->Ok_0.len() == 0 || degree(division_step(r, g, inv, p)->Ok_0)
            < degree(r),
{
    let n = degree(r);
    let h = r[r.len() - 1];
    let o = g[g.len() - 1];
    lemma_plain_within_degree(r);
    lemma_plain_within_degree(g);
    assert(power_of_x(h.mono, n));
    assert(power_of_x(o.mono, degree(g)));
    let q = division_factor(r, g, inv, p);
    let qp = poly_of_term(q);
    assert(!has_variable(g));
    let list = cross_terms(qp, g);
    let row = scale_terms(q, g);
    // the multiple of the divisor lies within the degree, and leads with the
    // leading coefficient of the remainder, modulo p
    assert(within_degree(row, n)) by {
        assert forall|j: int| 0 <= j < row.len() implies power_of_x((#[trigger] row[j]).mono, n) by {
            assert(power_of_x(g[j].mono, degree(g)));
        }
    }
    lemma_scale_sorted(q, g);
    lemma_coeff_at(row, g.len() - 1);
    assert(row[g.len() - 1].mono == h.mono);
    assert(coeff(row, h.mono) == q.coef * o.coef);
    if q.coef == 0 {
        assert(list =~= Seq::<TermModel>::empty());
        lemma_coeff_empty();
        assert(0 * o.coef == 0);
    } else {
        assert(qp.drop_last() =~= Seq::<TermModel>::empty());
        assert(qp.last() == q);
        assert(cross_terms(Seq::<TermModel>::empty(), g) =~= Seq::<TermModel>::empty());
        assert(list == cross_terms(qp.drop_last(), g) + scale_terms(qp.last(), g));
        assert(list =~= row);
    }
    assert forall|m: MonomialModel| coeff(list, m) != 0 implies power_of_x(m, n) by {
        if q.coef != 0 {
            lemma_coefficients_within_degree(row, n, m);
        }
    }
    assert(coeff(list, h.mono) == q.coef * o.coef);
    let d0 = normalize(list);
    lemma_normalize_denotes(list);
    assert forall|m: MonomialModel| coeff(d0, m) != 0 implies power_of_x(m, n) by {
        assert(coeff(d0, m) == coeff(list, m));
    }
    lemma_within_degree_by_coefficients(d0, n);
    lemma_reduce(d0, p);
    lemma_reduce_within_degree(d0, p, n);
    let d = reduce(d0, p);
    assert(poly_mul_mod(qp, g, p) == Ok::<Seq<TermModel>, Error>(d));
    // the difference
    let r1 = normalize(r + neg_terms(d));
    lemma_normalize_denotes(r + neg_terms(d));
    lemma_coeff_concat(r, neg_terms(d));
    lemma_coeff_neg_terms(d);
    assert forall|m: MonomialModel| #[trigger] coeff(r1, m) == coeff(r, m) - coeff(d, m) by {
        assert(coeff(r1, m) == coeff(r + neg_terms(d), m));
        assert(coeff(neg_terms(d), m) == -coeff(d, m));
    }
    assert forall|m: MonomialModel| coeff(r1, m) != 0 implies power_of_x(m, n) by {
        if coeff(r, m) != 0 {
            lemma_coefficients_within_degree(r, n, m);
        } else {
            lemma_coefficients_within_degree(d, n, m);
        }
    }
    lemma_within_degree_by_coefficients(r1, n);
    lemma_reduce(r1, p);
    lemma_reduce_within_degree(r1, p, n);
    let r2 = reduce(r1, p);
    assert(division_step(r, g, inv, p) == Ok::<Seq<TermModel>, Error>(r2));
    // the leading coefficient is gone
    lemma_coeff_at(r, r.len() - 1);
    assert(coeff(r2, h.mono) == 0) by {
        assert(coeff(r2, h.mono) == coeff(r1, h.mono) % p);
        assert(coeff(r1, h.mono) == h.coef - coeff(d, h.mono));
        assert(coeff(d, h.mono) == (q.coef * o.coef) % p) by {
            assert(coeff(d, h.mono) == coeff(d0, h.mono) % p);
            assert(coeff(d0, h.mono) == coeff(list, h.mono));
        }
        // q.coef * o.coef = (h.coef * inv mod p) * o.coef = h.coef (mod p)
        lemma_mul_mod_noop_general(h.coef * inv, o.coef, p);
        assert((h.coef * inv) * o.coef == h.coef * (o.coef * inv)) by (nonlinear_arith);
        lemma_mul_mod_noop_general(h.coef, o.coef * inv, p);
        lemma_mod_bound(o.coef, p);
        lemma_mod_twice(o.coef, p);
        assert((q.coef * o.coef) % p == (h.coef * 1) % p) by {
            lemma_mul_mod_noop_general(q.coef, o.coef, p);
            lemma_mod_twice(h.coef * inv, p);
        }
        assert(h.coef * 1 == h.coef);
        lemma_sub_mod_noop(h.coef, (q.coef * o.coef) % p, p);
        lemma_mod_twice(q.coef * o.coef, p);
        lemma_sub_mod_noop(h.coef, h.coef, p);
        lemma_small_mod(0, p as nat);
    }
    // so the remainder lies within the degree below
    assert forall|i: int| 0 <= i < r2.len() implies power_of_x((#[trigger] r2[i]).mono, n - 1) by {
        lemma_coeff_at(r2, i);
        assert(power_of_x(r2[i].mono, n));
        if r2[i].mono.x == n {
            assert(r2[i].mono == h.mono);
        }
    }
    lemma_within_degree_plain(r2, n - 1);
}

/// Long division modulo `p` from the remainder `r` on: steps as long as `r`
/// is not zero and not of lower degree than `g`, then `r (mod p)`.
pub open spec fn division_loop(r: Seq<TermModel>, g: Seq<TermModel>, inv: int, p: int) -> Result<
    Seq<TermModel>,
    Error,
>
    decreases
        (if r.len() == 0 || degree(r) < degree(g) {
            0
        } else {
            degree(r) - degree(g) + 1
        }),
    when division_ready(r, g, inv, p)
{
    if r.len() == 0 || degree(r) < degree(g) {
        poly_mod(r, p)
    } else {
        proof {
            lemma_division_step(r, g, inv, p);
        }
        match division_step(r, g, inv, p) {
            Ok(r2) => division_loop(r2, g, inv, p),
            Err(x) => Err(x),
        }
    }
}

/// What a division or a greatest common divisor modulo `p` asks of its
/// operands, and the error where they fail it: polynomials in `x` alone,
/// without negative exponents, and a modulus of at least two.
pub open spec fn division_domain(a: Seq<TermModel>, g: Seq<TermModel>, p: int) -> Option<Error> {
    if !univariate(a) || !univariate(g) {
        Some(Error::NotUnivariate)
    } else if has_negative_x(a) || has_negative_x(g) || p <= 1 {
        Some(Error::DomainError)
    } else {
        None
    }
}

/// The remainder of `a` by `g` modulo `p`, for polynomials in canonical
/// form.
pub open spec fn poly_remainder(a: Seq<TermModel>, g: Seq<TermModel>, p: int) -> Result<
    Seq<TermModel>,
    Error,
> {
    match division_domain(a, g, p) {
        Some(e) => Err(e),
        None => if g.len() == 0 {
            Err(Error::DomainError)
        } else {
            match inverse_spec(highest_term(g).coef, p) {
                Ok(inv) => division_loop(a, g, inv, p),
                Err(x) => Err(x),
            }
        },
    }
}

/// The long division succeeds, and leaves a polynomial in `x` alone that is
/// zero or of lower degree than the divisor.
pub proof fn lemma_division_loop(r: Seq<TermModel>, g: Seq<TermModel>, inv: int, p: int)
    requires
        division_ready(r, g, inv, p),
    ensures
        division_loop(r, g, inv, p) is Ok,
        plain(division_loop(r, g, inv, p)->Ok_0),
        division_loop(r, g, inv, p)->Ok_0.len() == 0 || 0 <= degree(
            division_loop(r, g, inv, p)->Ok_0,
        ) < degree(g),
    decreases
        (if r.len() == 0 || degree(r) < degree(g) {
            0
        } else {
            degree(r) - degree(g) + 1
        }),
{
    if r.len() == 0 || degree(r) < degree(g) {
        lemma_plain_within_degree(r);
        lemma_reduce_within_degree(r, p, degree(r));
        lemma_within_degree_plain(reduce(r, p), degree(r));
        if r.len() == 0 && reduce(r, p).len() > 0 {
            lemma_reduce(r, p);
            lemma_coeff_at(reduce(r, p), 0);
            lemma_small_mod(0, p as nat);
        }
    } else {
        lemma_division_step(r, g, inv, p);
        lemma_division_loop(division_step(r, g, inv, p)->Ok_0, g, inv, p);
    }
}

/// The remainder, where there is one, is a polynomial in `x` alone that is
/// zero or of lower degree than the divisor; and there is one for operands
/// of the division domain whenever the leading coefficient of the divisor
/// has its inverse.
pub proof fn lemma_remainder(a: Seq<TermModel>, g: Seq<TermModel>, p: int)
    requires
        canonical(a),
        canonical(g),
    ensures
        poly_remainder(a, g, p) is Ok <==> division_domain(a, g, p) is None && g.len() > 0
            && inverse_spec(highest_term(g).coef, p) is Ok,
        poly_remainder(a, g, p) is Ok ==> plain(poly_remainder(a, g, p)->Ok_0) && (poly_remainder(
            a,
            g,
            p,
        )->Ok_0.len() == 0 || 0 <= degree(poly_remainder(a, g, p)->Ok_0) < degree(g)),
{
    if division_domain(a, g, p) is None && g.len() > 0 && inverse_spec(highest_term(g).coef, p)
        is Ok {
        let inv = inverse_spec(highest_term(g).coef, p)->Ok_0;
        lemma_inverse_is_inverse(highest_term(g).coef, p);
        lemma_division_loop(a, g, inv, p);
    }
}

/// The size by which the algorithm of Euclid goes down.
pub open spec fn euclid_measure(a: Seq<TermModel>, b: Seq<TermModel>) -> int {
    2 * (if b.len() == 0 || degree(b) < 0 {
        0
    } else {
        degree(b) + 1
    }) + (if degree(a) < degree(b) {
        1int
    } else {
        0int
    })
}

/// The algorithm of Euclid modulo `p` on polynomials in `x` alone.
pub open spec fn euclid_loop(a: Seq<TermModel>, b: Seq<TermModel>, p: int) -> Result<
    Seq<TermModel>,
    Error,
>
    decreases euclid_measure(a, b),
    when plain(a) && plain(b)
{
    if degree(a) < degree(b) {
        euclid_loop(b, a, p)
    } else {
        proof {
            lemma_remainder(a, b, p);
        }
        match poly_remainder(a, b, p) {
            Ok(r) => if r.len() == 0 {
                poly_monic(b, p)
            } else {
                euclid_loop(b, r, p)
            },
            Err(x) => Err(x),
        }
    }
}

/// The monic greatest common divisor of `a` and `b` modulo `p`, for
/// polynomials in canonical form.
pub open spec fn poly_gcd(a: Seq<TermModel>, b: Seq<TermModel>, p: int) -> Result<
    Seq<TermModel>,
    Error,
> {
    match division_domain(a, b, p) {
        Some(e) => Err(e),
        None => euclid_loop(a, b, p),
    }
}

/// Whether the greatest common divisor is the constant polynomial `1`.
pub open spec fn poly_is_gcd_one(a: Seq<TermModel>, b: Seq<TermModel>, p: int) -> Result<
    bool,
    Error,
> {
    match poly_gcd(a, b, p) {
        Ok(g) => Ok(g == poly_one()),
        Err(x) => Err(x),
    }
}

/// A polynomial over the field of `p` elements: every coefficient lies in
/// `[1, p)`.
pub open spec fn reduced(s: Seq<TermModel>, p: int) -> bool {
    forall|i: int| 0 <= i < s.len() ==> 1 <= (#[trigger] s[i]).coef < p
}

/// What is left of a polynomial modulo `p` is a polynomial over the field
/// of `p` elements.
pub proof fn lemma_reduce_reduced(s: Seq<TermModel>, p: int)
    requires
        canonical(s),
        p >= 2,
    ensures
        reduced(reduce(s, p), p),
{
    lemma_reduce(s, p);
    let r = reduce(s, p);
    assert forall|i: int| 0 <= i < r.len() implies 1 <= (#[trigger] r[i]).coef < p by {
        lemma_coeff_at(r, i);
        assert(coeff(r, r[i].mono) == coeff(s, r[i].mono) % p);
        lemma_mod_bound(coeff(s, r[i].mono), p);
    }
}

/// The leading coefficient of a polynomial over the field of `p` elements
/// has an inverse modulo the prime `p`.
pub proof fn lemma_leading_coefficient_invertible(s: Seq<TermModel>, p: int)
    requires
        is_prime(p),
        reduced(s, p),
        s.len() > 0,
    ensures
        inverse_spec(highest_term(s).coef, p) is Ok,
{
    let c = s[s.len() - 1].coef;
    lemma_small_mod(c as nat, p as nat);
    lemma_inverse_modulo_prime(c, p);
}

/// Over the field of `p` elements, `p` prime, the division of polynomials
/// in `x` alone by a polynomial other than zero has a remainder: a
/// polynomial over the field that is zero or of lower degree than the
/// divisor.
pub proof fn lemma_remainder_modulo_prime(a: Seq<TermModel>, g: Seq<TermModel>, p: int)
    requires
        is_prime(p),
        plain(a),
        plain(g),
        reduced(g, p),
        g.len() > 0,
    ensures
        poly_remainder(a, g, p) is Ok,
        plain(poly_remainder(a, g, p)->Ok_0),
        reduced(poly_remainder(a, g, p)->Ok_0, p),
        poly_remainder(a, g, p)->Ok_0.len() == 0 || 0 <= degree(poly_remainder(a, g, p)->Ok_0)
            < degree(g),
{
    lemma_leading_coefficient_invertible(g, p);
    lemma_remainder(a, g, p);
    let inv = inverse_spec(highest_term(g).coef, p)->Ok_0;
    lemma_inverse_is_inverse(highest_term(g).coef, p);
    lemma_division_loop_reduced(a, g, inv, p);
}

/// What the long division leaves is reduced modulo `p`.
proof fn lemma_division_loop_reduced(r: Seq<TermModel>, g: Seq<TermModel>, inv: int, p: int)
    requires
        division_ready(r, g, inv, p),
    ensures
        division_loop(r, g, inv, p) is Ok,
        reduced(division_loop(r, g, inv, p)->Ok_0, p),
    decreases
        (if r.len() == 0 || degree(r) < degree(g) {
            0
        } else {
            degree(r) - degree(g) + 1
        }),
{
    if r.len() == 0 || degree(r) < degree(g) {
        lemma_reduce_reduced(r, p);
    } else {
        lemma_division_step(r, g, inv, p);
        lemma_division_loop_reduced(division_step(r, g, inv, p)->Ok_0, g, inv, p);
    }
}

/// `P.to_monic(p)` for a polynomial `P` other than zero over the field of
/// `p` elements, `p` prime: it is defined, and its leading coefficient is
/// one.
pub proof fn lemma_monic_modulo_prime(a: Seq<TermModel>, p: int)
    requires
        is_prime(p),
        canonical(a),
        reduced(a, p),
        a.len() > 0,
    ensures
        poly_monic(a, p) is Ok,
        highest_term(poly_monic(a, p)->Ok_0).coef == 1,
        highest_term(poly_monic(a, p)->Ok_0).mono == highest_term(a).mono,
{
    lemma_leading_coefficient_invertible(a, p);
    lemma_monic_leading_coefficient(a, p);
}

/// Over the field of `p` elements, `p` prime, polynomials in `x` alone
/// other than zero have a greatest common divisor by the algorithm of
/// Euclid: a polynomial with the leading coefficient one.
pub proof fn lemma_gcd_modulo_prime(a: Seq<TermModel>, b: Seq<TermModel>, p: int)
    requires
        is_prime(p),
        plain(a),
        plain(b),
        reduced(a, p),
        reduced(b, p),
        a.len() > 0,
        b.len() > 0,
    ensures
        poly_gcd(a, b, p) is Ok,
        highest_term(poly_gcd(a, b, p)->Ok_0).coef == 1,
{
    lemma_euclid_modulo_prime(a, b, p);
}

proof fn lemma_euclid_modulo_prime(a: Seq<TermModel>, b: Seq<TermModel>, p: int)
    requires
        is_prime(p),
        plain(a),
        plain(b),
        reduced(a, p),
        reduced(b, p),
        a.len() > 0,
        b.len() > 0,
    ensures
        euclid_loop(a, b, p) is Ok,
        highest_term(euclid_loop(a, b, p)->Ok_0).coef == 1,
    decreases euclid_measure(a, b),
{
    if degree(a) < degree(b) {
        lemma_euclid_modulo_prime(b, a, p);
    } else {
        lemma_remainder_modulo_prime(a, b, p);
        let r = poly_remainder(a, b, p)->Ok_0;
        if r.len() == 0 {
            lemma_monic_modulo_prime(b, p);
        } else {
            lemma_euclid_modulo_prime(b, r, p);
        }
    }
}

/// The terms of the quotient that long division takes off `r`, one for
/// every step.
pub open spec fn quotient_terms(r: Seq<TermModel>, g: Seq<TermModel>, inv: int, p: int) -> Seq<
    TermModel,
>
    decreases
        (if r.len() == 0 || degree(r) < degree(g) {
            0
        } else {
            degree(r) - degree(g) + 1
        }),
    when division_ready(r, g, inv, p)
{
    if r.len() == 0 || degree(r) < degree(g) {
        Seq::empty()
    } else {
        proof {
            lemma_division_step(r, g, inv, p);
        }
        seq![division_factor(r, g, inv, p)] + quotient_terms(
            division_step(r, g, inv, p)->Ok_0,
            g,
            inv,
            p,
        )
    }
}

/// The quotient of `a` by `g` modulo `p`, for polynomials in canonical form
/// that have a remainder.
pub open spec fn poly_quotient(a: Seq<TermModel>, g: Seq<TermModel>, p: int) -> Seq<TermModel> {
    normalize(quotient_terms(a, g, inverse_spec(highest_term(g).coef, p)->Ok_0, p))
}

/// One step of long division takes a multiple of the divisor off, modulo
/// `p`.
proof fn lemma_division_step_identity(r: Seq<TermModel>, g: Seq<TermModel>, inv: int, p: int)
    requires
        division_ready(r, g, inv, p),
        r.len() > 0,
        degree(r) >= degree(g),
    ensures
        forall|m: MonomialModel|
            #[trigger] coeff(r, m) % p == (coeff(
                scale_terms(division_factor(r, g, inv, p), g),
                m,
            ) + coeff(division_step(r, g, inv, p)->Ok_0, m)) % p,
{
    lemma_division_step(r, g, inv, p);
    let q = division_factor(r, g, inv, p);
    let qp = poly_of_term(q);
    let list = cross_terms(qp, g);
    let row = scale_terms(q, g);
    if q.coef == 0 {
        assert(list =~= Seq::<TermModel>::empty());
        lemma_coeff_empty();
        lemma_scale_zero(q, g);
    } else {
        assert(qp.drop_last() =~= Seq::<TermModel>::empty());
        assert(qp.last() == q);
        assert(cross_terms(Seq::<TermModel>::empty(), g) =~= Seq::<TermModel>::empty());
        assert(list == cross_terms(qp.drop_last(), g) + scale_terms(qp.last(), g));
        assert(list =~= row);
    }
    let d0 = normalize(list);
    lemma_normalize_denotes(list);
    lemma_reduce(d0, p);
    let d = reduce(d0, p);
    let r1 = normalize(r + neg_terms(d));
    lemma_normalize_denotes(r + neg_terms(d));
    lemma_coeff_concat(r, neg_terms(d));
    lemma_coeff_neg_terms(d);
    lemma_reduce(r1, p);
    let r2 = reduce(r1, p);
    assert(division_step(r, g, inv, p) == Ok::<Seq<TermModel>, Error>(r2));
    assert forall|m: MonomialModel|
        #[trigger] coeff(r, m) % p == (coeff(row, m) + coeff(r2, m)) % p by {
        let x = coeff(r, m);
        let y = coeff(row, m);
        assert(coeff(list, m) == y);
        assert(coeff(d0, m) == coeff(list, m));
        assert(coeff(d, m) == y % p);
        assert(coeff(r1, m) == coeff(r + neg_terms(d), m));
        assert(coeff(neg_terms(d), m) == -coeff(d, m));
        assert(coeff(r1, m) == x - y % p);
        assert(coeff(r2, m) == (x - y % p) % p);
        // y + (x - y mod p) mod p = x (mod p)
        lemma_add_mod_noop(y, (x - y % p) % p, p);
        lemma_mod_twice(x - y % p, p);
        lemma_add_mod_noop(y, x - y % p, p);
        lemma_sub_mod_noop(x, y % p, p);
        lemma_mod_twice(y, p);
        lemma_sub_mod_noop(x, y, p);
        lemma_add_mod_noop(y, x - y, p);
    }
}

/// Long division takes multiples of the divisor off: the dividend is the
/// products of the quotient and what is left, modulo `p`.
pub proof fn lemma_division_loop_identity(r: Seq<TermModel>, g: Seq<TermModel>, inv: int, p: int)
    requires
        division_ready(r, g, inv, p),
    ensures
        division_loop(r, g, inv, p) is Ok,
        forall|m: MonomialModel|
            #[trigger] coeff(r, m) % p == (coeff(cross_terms(quotient_terms(r, g, inv, p), g), m)
                + coeff(division_loop(r, g, inv, p)->Ok_0, m)) % p,
    decreases
        (if r.len() == 0 || degree(r) < degree(g) {
            0
        } else {
            degree(r) - degree(g) + 1
        }),
{
    lemma_division_loop(r, g, inv, p);
    if r.len() == 0 || degree(r) < degree(g) {
        lemma_reduce(r, p);
        assert forall|m: MonomialModel|
            #[trigger] coeff(r, m) % p == (coeff(
                cross_terms(quotient_terms(r, g, inv, p), g),
                m,
            ) + coeff(division_loop(r, g, inv, p)->Ok_0, m)) % p by {
            assert(coeff(cross_terms(Seq::<TermModel>::empty(), g), m) == 0);
            lemma_mod_twice(coeff(r, m), p);
        }
    } else {
        lemma_division_step(r, g, inv, p);
        lemma_division_step_identity(r, g, inv, p);
        let q = division_factor(r, g, inv, p);
        let r2 = division_step(r, g, inv, p)->Ok_0;
        lemma_division_loop_identity(r2, g, inv, p);
        let rest = quotient_terms(r2, g, inv, p);
        lemma_cross_concat(seq![q], rest, g);
        assert(seq![q].drop_last() =~= Seq::<TermModel>::empty());
        assert(cross_terms(Seq::<TermModel>::empty(), g) =~= Seq::<TermModel>::empty());
        assert(cross_terms(seq![q], g) =~= scale_terms(q, g));
        lemma_coeff_concat(scale_terms(q, g), cross_terms(rest, g));
        let last = division_loop(r, g, inv, p)->Ok_0;
        assert forall|m: MonomialModel|
            #[trigger] coeff(r, m) % p == (coeff(
                cross_terms(quotient_terms(r, g, inv, p), g),
                m,
            ) + coeff(last, m)) % p by {
            let y = coeff(scale_terms(q, g), m);
            let z = coeff(cross_terms(rest, g), m);
            let w = coeff(last, m);
            assert(coeff(r, m) % p == (y + coeff(r2, m)) % p);
            assert(coeff(r2, m) % p == (z + w) % p);
            assert(coeff(cross_terms(seq![q] + rest, g), m) == y + z);
            lemma_add_mod_noop(y, coeff(r2, m), p);
            lemma_add_mod_noop(y, z + w, p);
        }
    }
}

/// What long division modulo `p` means: with the quotient `Q` and the
/// remainder `R` of `A` by `G`, `A = Q G + R (mod p)`.
pub proof fn lemma_division_identity(a: Seq<TermModel>, g: Seq<TermModel>, p: int)
    requires
        canonical(a),
        canonical(g),
        poly_remainder(a, g, p) is Ok,
    ensures
        poly_mod(a, p) == poly_mod(
            crate::algebra::poly_add(times(poly_quotient(a, g, p), g), poly_remainder(a, g, p)->Ok_0),
            p,
        ),
{
    lemma_remainder(a, g, p);
    let inv = inverse_spec(highest_term(g).coef, p)->Ok_0;
    lemma_inverse_is_inverse(highest_term(g).coef, p);
    lemma_division_loop_identity(a, g, inv, p);
    let r = poly_remainder(a, g, p)->Ok_0;
    let terms = quotient_terms(a, g, inv, p);
    let quotient = poly_quotient(a, g, p);
    crate::ring::lemma_cross_normalize(terms, g);
    lemma_normalize_denotes(cross_terms(quotient, g));
    let product = times(quotient, g);
    let sum = crate::algebra::poly_add(product, r);
    lemma_normalize_denotes(product + r);
    lemma_coeff_concat(product, r);
    assert forall|m: MonomialModel| coeff(a, m) % p == coeff(sum, m) % p by {
        assert(coeff(sum, m) == coeff(product + r, m));
        assert(coeff(product, m) == coeff(cross_terms(quotient, g), m));
        assert(coeff(cross_terms(normalize(terms), g), m) == coeff(cross_terms(terms, g), m));
        assert(coeff(a, m) % p == (coeff(cross_terms(terms, g), m) + coeff(r, m)) % p);
    }
    lemma_reduce_congruent(a, sum, p);
}

} // verus!
