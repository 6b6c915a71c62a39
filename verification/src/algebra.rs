use crate::bigint::inverse_spec;
use crate::error::Error;
use crate::model::{coeff, normalize, MonomialModel, TermModel};
use crate::term::{
    constant_term, term_derivative_x, term_derivative_y, term_div, term_frob, term_mod, term_mul,
    term_neg, term_q_power, term_y_power,
};
use vstd::arithmetic::power::pow;
use vstd::prelude::*;

verus! {

/// Some term has `x`.
pub open spec fn has_x(s: Seq<TermModel>) -> bool {
    exists|i: int| 0 <= i < s.len() && (#[trigger] s[i]).mono.x != 0
}

/// Some term has `y`.
pub open spec fn has_y(s: Seq<TermModel>) -> bool {
    exists|i: int| 0 <= i < s.len() && (#[trigger] s[i]).mono.y != 0
}

/// Some term has `q`.
pub open spec fn has_q(s: Seq<TermModel>) -> bool {
    exists|i: int| 0 <= i < s.len() && (#[trigger] s[i]).mono.q != 0
}

/// Some term carries a subscripted variable.
pub open spec fn has_variable(s: Seq<TermModel>) -> bool {
    exists|i: int| 0 <= i < s.len() && (#[trigger] s[i]).mono.var is Some
}

/// Some term has a negative exponent of `x`.
pub open spec fn has_negative_x(s: Seq<TermModel>) -> bool {
    exists|i: int| 0 <= i < s.len() && (#[trigger] s[i]).mono.x < 0
}

/// Some term has a negative exponent of `y`.
pub open spec fn has_negative_y(s: Seq<TermModel>) -> bool {
    exists|i: int| 0 <= i < s.len() && (#[trigger] s[i]).mono.y < 0
}

/// The term with the largest monomial; the zero term for the zero polynomial.
pub open spec fn highest_term(s: Seq<TermModel>) -> TermModel {
    if s.len() == 0 {
        constant_term(0)
    } else {
        s.last()
    }
}

/// The polynomial `1`.
pub open spec fn poly_one() -> Seq<TermModel> {
    seq![constant_term(1)]
}

/// The polynomial of one term; the zero polynomial for a zero coefficient.
pub open spec fn poly_of_term(t: TermModel) -> Seq<TermModel> {
    if t.coef == 0 {
        Seq::empty()
    } else {
        seq![t]
    }
}

/// `a + b`.
pub open spec fn poly_add(a: Seq<TermModel>, b: Seq<TermModel>) -> Seq<TermModel> {
    normalize(a + b)
}

/// Every term negated.
pub open spec fn neg_terms(s: Seq<TermModel>) -> Seq<TermModel> {
    Seq::new(s.len(), |i: int| term_neg(s[i]))
}

/// `-a`.
pub open spec fn poly_neg(a: Seq<TermModel>) -> Seq<TermModel> {
    normalize(neg_terms(a))
}

/// `a - b`.
pub open spec fn poly_sub(a: Seq<TermModel>, b: Seq<TermModel>) -> Seq<TermModel> {
    normalize(a + neg_terms(b))
}

/// The products of the term `t` with the terms of `b`.
pub open spec fn scale_terms(t: TermModel, b: Seq<TermModel>) -> Seq<TermModel> {
    Seq::new(b.len(), |j: int| term_mul(t, b[j]))
}

/// The products of every term of `a` with every term of `b`.
pub open spec fn cross_terms(a: Seq<TermModel>, b: Seq<TermModel>) -> Seq<TermModel>
    decreases a.len(),
{
    if a.len() == 0 {
        Seq::empty()
    } else {
        cross_terms(a.drop_last(), b) + scale_terms(a.last(), b)
    }
}

/// `a * b`, where not both carry subscripted variables.
pub open spec fn poly_mul(a: Seq<TermModel>, b: Seq<TermModel>) -> Result<Seq<TermModel>, Error> {
    if has_variable(a) && has_variable(b) {
        Err(Error::VariableProduct)
    } else {
        Ok(normalize(cross_terms(a, b)))
    }
}

/// Every term divided by the term `d`.
pub open spec fn div_terms(s: Seq<TermModel>, d: TermModel) -> Seq<TermModel> {
    Seq::new(s.len(), |i: int| term_div(s[i], d))
}

/// `a / b` for a divisor of one term without a variable.
pub open spec fn poly_div(a: Seq<TermModel>, b: Seq<TermModel>) -> Result<Seq<TermModel>, Error> {
    if b.len() == 0 {
        Err(Error::DomainError)
    } else if b.len() >= 2 {
        Err(Error::NonMonomialDivision)
    } else if b[0].mono.var is Some || b[0].coef == 0 {
        Err(Error::DomainError)
    } else {
        Ok(normalize(div_terms(a, b[0])))
    }
}

/// Every coefficient reduced into `[0, p)`.
pub open spec fn mod_terms(s: Seq<TermModel>, p: int) -> Seq<TermModel> {
    Seq::new(s.len(), |i: int| term_mod(s[i], p))
}

/// `a (mod p)` for a modulus of at least two.
pub open spec fn poly_mod(a: Seq<TermModel>, p: int) -> Result<Seq<TermModel>, Error> {
    if p <= 1 {
        Err(Error::DomainError)
    } else {
        Ok(normalize(mod_terms(a, p)))
    }
}

/// The derivative of every term with respect to `x`.
pub open spec fn derivative_x_terms(s: Seq<TermModel>) -> Seq<TermModel> {
    Seq::new(s.len(), |i: int| term_derivative_x(s[i]))
}

/// The derivative of every term with respect to `y`.
pub open spec fn derivative_y_terms(s: Seq<TermModel>) -> Seq<TermModel> {
    Seq::new(s.len(), |i: int| term_derivative_y(s[i]))
}

/// The formal derivative with respect to `x`.
pub open spec fn poly_derivative_x(a: Seq<TermModel>) -> Result<Seq<TermModel>, Error> {
    if has_negative_x(a) {
        Err(Error::DomainError)
    } else {
        Ok(normalize(derivative_x_terms(a)))
    }
}

/// The formal derivative with respect to `y`.
pub open spec fn poly_derivative_y(a: Seq<TermModel>) -> Result<Seq<TermModel>, Error> {
    if has_negative_y(a) {
        Err(Error::DomainError)
    } else {
        Ok(normalize(derivative_y_terms(a)))
    }
}

/// The Frobenius substitution in every term.
pub open spec fn frob_terms(s: Seq<TermModel>, n: int) -> Seq<TermModel> {
    Seq::new(s.len(), |i: int| term_frob(s[i], n))
}

/// `x -> x^n`, `y -> y^n`.
pub open spec fn poly_frob(a: Seq<TermModel>, n: int) -> Seq<TermModel> {
    normalize(frob_terms(a, n))
}

/// `y -> y^n` in every term.
pub open spec fn y_power_terms(s: Seq<TermModel>, n: int) -> Seq<TermModel> {
    Seq::new(s.len(), |i: int| term_y_power(s[i], n))
}

/// `y -> y^n`.
pub open spec fn poly_y_power(a: Seq<TermModel>, n: int) -> Seq<TermModel> {
    normalize(y_power_terms(a, n))
}

/// `q -> q^n` in every term.
pub open spec fn q_power_terms(s: Seq<TermModel>, n: int) -> Seq<TermModel> {
    Seq::new(s.len(), |i: int| term_q_power(s[i], n))
}

/// `q -> q^n`.
pub open spec fn poly_q_power(a: Seq<TermModel>, n: int) -> Seq<TermModel> {
    normalize(q_power_terms(a, n))
}

/// The term itself where its exponent of `q` is at most `order`, else
/// nothing.
pub open spec fn term_low_q(t: TermModel, order: int) -> TermModel {
    if t.mono.q <= order {
        t
    } else {
        TermModel { coef: 0, mono: t.mono }
    }
}

/// The terms with an exponent of `q` of at most `order`.
pub open spec fn low_q_terms(s: Seq<TermModel>, order: int) -> Seq<TermModel> {
    Seq::new(s.len(), |i: int| term_low_q(s[i], order))
}

/// The series cut off after `q^order`: a series in `q` alone is asked for.
pub open spec fn poly_omit_high_order_q(a: Seq<TermModel>, order: int) -> Result<
    Seq<TermModel>,
    Error,
> {
    if has_x(a) || has_y(a) {
        Err(Error::DomainError)
    } else {
        Ok(normalize(low_q_terms(a, order)))
    }
}

/// The term without its power of `q` where that power is `k`, else nothing.
pub open spec fn term_q_coef(t: TermModel, k: int) -> TermModel {
    if t.mono.q == k {
        TermModel { coef: t.coef, mono: MonomialModel { x: 0, y: 0, q: 0, var: t.mono.var } }
    } else {
        constant_term(0)
    }
}

/// The terms with `q^k`, without that factor.
pub open spec fn q_coef_terms(s: Seq<TermModel>, k: int) -> Seq<TermModel> {
    Seq::new(s.len(), |i: int| term_q_coef(s[i], k))
}

/// The coefficient of `q^k` in a series in `q` alone: a polynomial in the
/// subscripted variables.
pub open spec fn poly_q_power_coef(a: Seq<TermModel>, k: int) -> Result<Seq<TermModel>, Error> {
    if has_x(a) || has_y(a) {
        Err(Error::DomainError)
    } else {
        Ok(normalize(q_coef_terms(a, k)))
    }
}

/// The coefficient of the variable `v` in a polynomial in the subscripted
/// variables alone.
pub open spec fn poly_variable_coef(a: Seq<TermModel>, v: Option<(int, int)>) -> Result<
    int,
    Error,
> {
    if has_x(a) || has_y(a) || has_q(a) {
        Err(Error::DomainError)
    } else {
        Ok(coeff(a, MonomialModel { x: 0, y: 0, q: 0, var: v }))
    }
}

/// The sum of `x^x_exp * y^y_exp * coefficient` over the terms.
pub open spec fn eval_xy_sum(s: Seq<TermModel>, x: int, y: int) -> int
    decreases s.len(),
{
    if s.len() == 0 {
        0
    } else {
        eval_xy_sum(s.drop_last(), x, y) + pow(x, s.last().mono.x as nat) * pow(
            y,
            s.last().mono.y as nat,
        ) * s.last().coef
    }
}

/// The value at `(x, y)` of a polynomial without negative exponents.
pub open spec fn poly_eval_xy(a: Seq<TermModel>, x: int, y: int) -> Result<int, Error> {
    if has_negative_x(a) || has_negative_y(a) {
        Err(Error::DomainError)
    } else {
        Ok(eval_xy_sum(a, x, y))
    }
}

/// The term with `x` replaced by a number.
pub open spec fn term_eval_x(t: TermModel, x: int) -> TermModel {
    TermModel {
        coef: t.coef * pow(x, t.mono.x as nat),
        mono: MonomialModel { x: 0, y: t.mono.y, q: t.mono.q, var: t.mono.var },
    }
}

/// The term with `y` replaced by a number.
pub open spec fn term_eval_y(t: TermModel, y: int) -> TermModel {
    TermModel {
        coef: t.coef * pow(y, t.mono.y as nat),
        mono: MonomialModel { x: t.mono.x, y: 0, q: t.mono.q, var: t.mono.var },
    }
}

/// Every term with `x` replaced by a number.
pub open spec fn eval_x_terms(s: Seq<TermModel>, x: int) -> Seq<TermModel> {
    Seq::new(s.len(), |i: int| term_eval_x(s[i], x))
}

/// Every term with `y` replaced by a number.
pub open spec fn eval_y_terms(s: Seq<TermModel>, y: int) -> Seq<TermModel> {
    Seq::new(s.len(), |i: int| term_eval_y(s[i], y))
}

/// The polynomial with `x` replaced by a number.
pub open spec fn poly_eval_x(a: Seq<TermModel>, x: int) -> Result<Seq<TermModel>, Error> {
    if has_negative_x(a) {
        Err(Error::DomainError)
    } else {
        Ok(normalize(eval_x_terms(a, x)))
    }
}

/// The polynomial with `y` replaced by a number.
pub open spec fn poly_eval_y(a: Seq<TermModel>, y: int) -> Result<Seq<TermModel>, Error> {
    if has_negative_y(a) {
        Err(Error::DomainError)
    } else {
        Ok(normalize(eval_y_terms(a, y)))
    }
}

/// The one coefficient of a constant polynomial.
pub open spec fn poly_scalar(a: Seq<TermModel>) -> Result<int, Error> {
    if a.len() == 0 {
        Ok(0)
    } else if a.len() >= 2 || a[0].mono.x != 0 || a[0].mono.y != 0 || a[0].mono.q != 0 {
        Err(Error::DomainError)
    } else {
        Ok(a[0].coef)
    }
}

/// The degree in `x` of a polynomial in `x` alone; zero for the zero
/// polynomial.
pub open spec fn poly_degree_x(a: Seq<TermModel>) -> Result<int, Error> {
    if has_y(a) || has_q(a) {
        Err(Error::NotUnivariate)
    } else {
        Ok(highest_term(a).mono.x)
    }
}

/// What is left of exponentiation by squaring: `r * b^e` for `e >= 1`.
pub open spec fn power_loop(r: Seq<TermModel>, b: Seq<TermModel>, e: int) -> Result<
    Seq<TermModel>,
    Error,
>
    decreases e,
{
    if e <= 1 {
        poly_mul(r, b)
    } else {
        let r2 = if e % 2 == 1 {
            poly_mul(r, b)
        } else {
            Ok(r)
        };
        match (r2, poly_mul(b, b)) {
            (Ok(r2), Ok(b2)) => power_loop(r2, b2, e / 2),
            (Err(x), _) => Err(x),
            (_, Err(x)) => Err(x),
        }
    }
}

/// `a^n` by squaring; `1` for `n = 0`.
pub open spec fn poly_power(a: Seq<TermModel>, n: int) -> Result<Seq<TermModel>, Error> {
    if n < 0 {
        Err(Error::DomainError)
    } else if n == 0 {
        Ok(poly_one())
    } else {
        power_loop(poly_one(), a, n)
    }
}

/// `a * b (mod p)`.
pub open spec fn poly_mul_mod(a: Seq<TermModel>, b: Seq<TermModel>, p: int) -> Result<
    Seq<TermModel>,
    Error,
> {
    match poly_mul(a, b) {
        Ok(c) => poly_mod(c, p),
        Err(x) => Err(x),
    }
}

/// What is left of modular exponentiation by squaring: `r * b^e (mod p)` for
/// `e >= 1`, reduced after every multiplication.
pub open spec fn power_modulo_loop(r: Seq<TermModel>, b: Seq<TermModel>, e: int, p: int) -> Result<
    Seq<TermModel>,
    Error,
>
    decreases e,
{
    if e <= 1 {
        poly_mul_mod(r, b, p)
    } else {
        let r2 = if e % 2 == 1 {
            poly_mul_mod(r, b, p)
        } else {
            Ok(r)
        };
        match (r2, poly_mul_mod(b, b, p)) {
            (Ok(r2), Ok(b2)) => power_modulo_loop(r2, b2, e / 2, p),
            (Err(x), _) => Err(x),
            (_, Err(x)) => Err(x),
        }
    }
}

/// `a^n (mod p)` by squaring, reduced after every multiplication.
pub open spec fn poly_power_modulo(a: Seq<TermModel>, n: int, p: int) -> Result<
    Seq<TermModel>,
    Error,
> {
    if p <= 1 || n < 0 {
        Err(Error::DomainError)
    } else if n == 0 {
        poly_mod(poly_one(), p)
    } else {
        match poly_mod(a, p) {
            Ok(b) => power_modulo_loop(poly_one(), b, n, p),
            Err(x) => Err(x),
        }
    }
}

/// `a` multiplied `n` times onto `1`, cut off after `q^order` each time.
pub open spec fn poly_power_omit_high_order_q(a: Seq<TermModel>, n: int, order: int) -> Result<
    Seq<TermModel>,
    Error,
>
    decreases n,
{
    if n <= 0 {
        Ok(poly_one())
    } else {
        match poly_power_omit_high_order_q(a, n - 1, order) {
            Ok(w) => match poly_mul(w, a) {
                Ok(v) => poly_omit_high_order_q(v, order),
                Err(x) => Err(x),
            },
            Err(x) => Err(x),
        }
    }
}

/// `a` times the inverse of its leading coefficient, modulo `p`; the zero
/// polynomial as it is.
pub open spec fn poly_monic(a: Seq<TermModel>, p: int) -> Result<Seq<TermModel>, Error> {
    if a.len() == 0 {
        Ok(a)
    } else {
        match inverse_spec(highest_term(a).coef, p) {
            Ok(inv) => poly_mul_mod(a, poly_of_term(constant_term(inv)), p),
            Err(x) => Err(x),
        }
    }
}

/// The right-hand side of the curve: `x^3 + a x + b`, as a sum of terms.
pub open spec fn curve_terms(a: int, b: int) -> Seq<TermModel> {
    seq![
        TermModel { coef: 1, mono: MonomialModel { x: 3, y: 0, q: 0, var: None } },
        TermModel { coef: a, mono: MonomialModel { x: 1, y: 0, q: 0, var: None } },
        constant_term(b),
    ]
}

/// The polynomial `x^3 + a x + b`.
pub open spec fn curve_polynomial(a: int, b: int) -> Seq<TermModel> {
    normalize(curve_terms(a, b))
}

/// The term `t` without the even part `y^(2k)` of its power of `y`.
pub open spec fn term_odd_y(t: TermModel) -> TermModel {
    TermModel {
        coef: t.coef,
        mono: MonomialModel {
            x: t.mono.x,
            y: t.mono.y - 2 * (t.mono.y / 2),
            q: t.mono.q,
            var: t.mono.var,
        },
    }
}

/// One term reduced by the curve: `y^(2k)` replaced by `(x^3 + a x + b)^k`
/// where the exponent of `y` is at least two.
pub open spec fn reduce_term(t: TermModel, a: int, b: int) -> Result<Seq<TermModel>, Error> {
    if t.mono.y >= 2 {
        match poly_power(curve_polynomial(a, b), t.mono.y / 2) {
            Ok(w) => poly_mul(poly_of_term(term_odd_y(t)), w),
            Err(x) => Err(x),
        }
    } else {
        Ok(poly_of_term(t))
    }
}

/// The polynomial reduced by `y^2 = x^3 + a x + b`: the sum of its reduced
/// terms.
pub open spec fn poly_reduction(s: Seq<TermModel>, a: int, b: int) -> Result<Seq<TermModel>, Error>
    decreases s.len(),
{
    if s.len() == 0 {
        Ok(Seq::empty())
    } else {
        match (poly_reduction(s.drop_last(), a, b), reduce_term(s.last(), a, b)) {
            (Ok(u), Ok(v)) => Ok(poly_add(u, v)),
            (Err(x), _) => Err(x),
            (_, Err(x)) => Err(x),
        }
    }
}

/// One term reduced by the curve, with the power of `x^3 + a x + b` taken
/// modulo `p`.
pub open spec fn reduce_term_modular(t: TermModel, a: int, b: int, p: int) -> Result<
    Seq<TermModel>,
    Error,
> {
    if t.mono.y >= 2 {
        match poly_power_modulo(curve_polynomial(a, b), t.mono.y / 2, p) {
            Ok(w) => poly_mul(poly_of_term(term_odd_y(t)), w),
            Err(x) => Err(x),
        }
    } else {
        Ok(poly_of_term(t))
    }
}

/// The sum of the terms reduced by the curve modulo `p`, before the last
/// reduction of the coefficients.
pub open spec fn reduction_modular_sum(s: Seq<TermModel>, a: int, b: int, p: int) -> Result<
    Seq<TermModel>,
    Error,
>
    decreases s.len(),
{
    if s.len() == 0 {
        Ok(Seq::empty())
    } else {
        match (reduction_modular_sum(s.drop_last(), a, b, p), reduce_term_modular(s.last(), a, b, p)) {
            (Ok(u), Ok(v)) => Ok(poly_add(u, v)),
            (Err(x), _) => Err(x),
            (_, Err(x)) => Err(x),
        }
    }
}

/// The polynomial reduced by `y^2 = x^3 + a x + b` modulo `p`.
pub open spec fn poly_reduction_modular(s: Seq<TermModel>, a: int, b: int, p: int) -> Result<
    Seq<TermModel>,
    Error,
> {
    if p <= 1 {
        Err(Error::DomainError)
    } else {
        match reduction_modular_sum(s, a, b, p) {
            Ok(t) => poly_mod(t, p),
            Err(x) => Err(x),
        }
    }
}

/// The monomial with `x` replaced by the polynomial `f`.
pub open spec fn mono_eval_x_polynomial(m: MonomialModel, f: Seq<TermModel>) -> Result<
    Seq<TermModel>,
    Error,
> {
    match poly_power(f, m.x) {
        Ok(w) => poly_mul(
            w,
            poly_of_term(
                TermModel { coef: 1, mono: MonomialModel { x: 0, y: m.y, q: m.q, var: m.var } },
            ),
        ),
        Err(x) => Err(x),
    }
}

/// The monomial with `y` replaced by the polynomial `f`.
pub open spec fn mono_eval_y_polynomial(m: MonomialModel, f: Seq<TermModel>) -> Result<
    Seq<TermModel>,
    Error,
> {
    match poly_power(f, m.y) {
        Ok(w) => poly_mul(
            w,
            poly_of_term(
                TermModel { coef: 1, mono: MonomialModel { x: m.x, y: 0, q: m.q, var: m.var } },
            ),
        ),
        Err(x) => Err(x),
    }
}

/// The term with `x` replaced by the polynomial `f`.
pub open spec fn term_eval_x_polynomial(t: TermModel, f: Seq<TermModel>) -> Result<
    Seq<TermModel>,
    Error,
> {
    match mono_eval_x_polynomial(t.mono, f) {
        Ok(w) => poly_mul(poly_of_term(constant_term(t.coef)), w),
        Err(x) => Err(x),
    }
}

/// The term with `y` replaced by the polynomial `f`.
pub open spec fn term_eval_y_polynomial(t: TermModel, f: Seq<TermModel>) -> Result<
    Seq<TermModel>,
    Error,
> {
    match mono_eval_y_polynomial(t.mono, f) {
        Ok(w) => poly_mul(poly_of_term(constant_term(t.coef)), w),
        Err(x) => Err(x),
    }
}

/// The polynomial with `x` replaced by the polynomial `f`.
pub open spec fn poly_eval_x_polynomial(s: Seq<TermModel>, f: Seq<TermModel>) -> Result<
    Seq<TermModel>,
    Error,
>
    decreases s.len(),
{
    if s.len() == 0 {
        Ok(Seq::empty())
    } else {
        match (poly_eval_x_polynomial(s.drop_last(), f), term_eval_x_polynomial(s.last(), f)) {
            (Ok(u), Ok(v)) => Ok(poly_add(u, v)),
            (Err(x), _) => Err(x),
            (_, Err(x)) => Err(x),
        }
    }
}

/// The polynomial with `y` replaced by the polynomial `f`.
pub open spec fn poly_eval_y_polynomial(s: Seq<TermModel>, f: Seq<TermModel>) -> Result<
    Seq<TermModel>,
    Error,
>
    decreases s.len(),
{
    if s.len() == 0 {
        Ok(Seq::empty())
    } else {
        match (poly_eval_y_polynomial(s.drop_last(), f), term_eval_y_polynomial(s.last(), f)) {
            (Ok(u), Ok(v)) => Ok(poly_add(u, v)),
            (Err(x), _) => Err(x),
            (_, Err(x)) => Err(x),
        }
    }
}

} // verus!
