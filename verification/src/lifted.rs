use crate::algebra::{
    poly_add, poly_div, poly_frob, poly_mod, poly_mul, poly_neg, poly_of_term, poly_power,
    poly_reduction, poly_reduction_modular, poly_sub,
};
use crate::bigint::Power;
use crate::division::poly_remainder;
use crate::error::Error;
use crate::integer::{big_from_i64, int_of};
use crate::model::{MonomialModel, TermModel};
use crate::polynomial::Polynomial;
use crate::subscripted_variable::SubscriptedVariable;
use crate::term::{Monomial, Term};
use num_bigint::BigInt;
use vstd::prelude::*;

verus! {

/// The view of a polynomial or of the error in its place.
pub open spec fn result_view(r: Result<Polynomial, Error>) -> Result<Seq<TermModel>, Error> {
    match r {
        Ok(v) => Ok(v@),
        Err(e) => Err(e),
    }
}

/// The polynomial, where there is one, is in canonical form.
pub open spec fn result_wf(r: Result<Polynomial, Error>) -> bool {
    match r {
        Ok(v) => v.wf(),
        Err(e) => true,
    }
}

/// `x + y`, or the first error.
pub open spec fn lift_add(x: Result<Seq<TermModel>, Error>, y: Result<Seq<TermModel>, Error>) -> Result<
    Seq<TermModel>,
    Error,
> {
    match (x, y) {
        (Ok(a), Ok(b)) => Ok(poly_add(a, b)),
        (Err(e), _) => Err(e),
        (_, Err(e)) => Err(e),
    }
}

/// `x - y`, or the first error.
pub open spec fn lift_sub(x: Result<Seq<TermModel>, Error>, y: Result<Seq<TermModel>, Error>) -> Result<
    Seq<TermModel>,
    Error,
> {
    match (x, y) {
        (Ok(a), Ok(b)) => Ok(poly_sub(a, b)),
        (Err(e), _) => Err(e),
        (_, Err(e)) => Err(e),
    }
}

/// `x * y`, or the first error.
pub open spec fn lift_mul(x: Result<Seq<TermModel>, Error>, y: Result<Seq<TermModel>, Error>) -> Result<
    Seq<TermModel>,
    Error,
> {
    match (x, y) {
        (Ok(a), Ok(b)) => poly_mul(a, b),
        (Err(e), _) => Err(e),
        (_, Err(e)) => Err(e),
    }
}

/// `x / y`, or the first error.
pub open spec fn lift_div(x: Result<Seq<TermModel>, Error>, y: Result<Seq<TermModel>, Error>) -> Result<
    Seq<TermModel>,
    Error,
> {
    match (x, y) {
        (Ok(a), Ok(b)) => poly_div(a, b),
        (Err(e), _) => Err(e),
        (_, Err(e)) => Err(e),
    }
}

/// `-x`, or the error.
pub open spec fn lift_neg(x: Result<Seq<TermModel>, Error>) -> Result<Seq<TermModel>, Error> {
    match x {
        Ok(a) => Ok(poly_neg(a)),
        Err(e) => Err(e),
    }
}

/// `x^n`, or the error.
pub open spec fn lift_power(x: Result<Seq<TermModel>, Error>, n: int) -> Result<
    Seq<TermModel>,
    Error,
> {
    match x {
        Ok(a) => poly_power(a, n),
        Err(e) => Err(e),
    }
}

/// `x (mod p)`, or the error.
pub open spec fn lift_mod(x: Result<Seq<TermModel>, Error>, p: int) -> Result<Seq<TermModel>, Error> {
    match x {
        Ok(a) => poly_mod(a, p),
        Err(e) => Err(e),
    }
}

/// `x` reduced by the curve, or the error.
pub open spec fn lift_reduction(x: Result<Seq<TermModel>, Error>, a: int, b: int) -> Result<
    Seq<TermModel>,
    Error,
> {
    match x {
        Ok(s) => poly_reduction(s, a, b),
        Err(e) => Err(e),
    }
}

/// `x` reduced by the curve modulo `p`, or the error.
pub open spec fn lift_reduction_modular(
    x: Result<Seq<TermModel>, Error>,
    a: int,
    b: int,
    p: int,
) -> Result<Seq<TermModel>, Error> {
    match x {
        Ok(s) => poly_reduction_modular(s, a, b, p),
        Err(e) => Err(e),
    }
}

/// The Frobenius substitution in `x`, or the error.
pub open spec fn lift_frob(x: Result<Seq<TermModel>, Error>, n: int) -> Result<Seq<TermModel>, Error> {
    match x {
        Ok(a) => Ok(poly_frob(a, n)),
        Err(e) => Err(e),
    }
}

/// The remainder of `x` by `g` modulo `p`, or the first error.
pub open spec fn lift_remainder(
    x: Result<Seq<TermModel>, Error>,
    g: Result<Seq<TermModel>, Error>,
    p: int,
) -> Result<Seq<TermModel>, Error> {
    match (x, g) {
        (Ok(a), Ok(b)) => poly_remainder(a, b, p),
        (Err(e), _) => Err(e),
        (_, Err(e)) => Err(e),
    }
}

/// The term `c x^x y^y`.
pub open spec fn xy_term(c: int, x: int, y: int) -> TermModel {
    TermModel { coef: c, mono: MonomialModel { x, y, q: 0, var: None } }
}

/// The polynomial `c x^x y^y`.
pub fn xy_polynomial(c: &BigInt, x: &BigInt, y: &BigInt) -> (r: Result<Polynomial, Error>)
    ensures
        result_wf(r),
        result_view(r) == Ok::<Seq<TermModel>, Error>(
            poly_of_term(xy_term(int_of(*c), int_of(*x), int_of(*y))),
        ),
{
    Ok(
        Term {
            coef: c.clone(),
            monomial: Monomial {
                xpow: x.clone(),
                ypow: y.clone(),
                qpow: big_from_i64(0),
                variable: SubscriptedVariable::new(),
            },
        }.to_pol(),
    )
}

/// The polynomial `c x^x y^y` for small numbers.
pub fn xy_small(c: i64, x: i64, y: i64) -> (r: Result<Polynomial, Error>)
    ensures
        result_wf(r),
        result_view(r) == Ok::<Seq<TermModel>, Error>(
            poly_of_term(xy_term(c as int, x as int, y as int)),
        ),
{
    xy_polynomial(&big_from_i64(c), &big_from_i64(x), &big_from_i64(y))
}

/// `x + y`, or the first error.
pub fn try_add(x: &Result<Polynomial, Error>, y: &Result<Polynomial, Error>) -> (r: Result<
    Polynomial,
    Error,
>)
    requires
        result_wf(*x),
    ensures
        result_wf(r),
        result_view(r) == lift_add(result_view(*x), result_view(*y)),
{
    match x {
        Ok(a) => match y {
            Ok(b) => Ok(a.add(b)),
            Err(e) => Err(*e),
        },
        Err(e) => Err(*e),
    }
}

/// `x - y`, or the first error.
pub fn try_sub(x: &Result<Polynomial, Error>, y: &Result<Polynomial, Error>) -> (r: Result<
    Polynomial,
    Error,
>)
    requires
        result_wf(*x),
    ensures
        result_wf(r),
        result_view(r) == lift_sub(result_view(*x), result_view(*y)),
{
    match x {
        Ok(a) => match y {
            Ok(b) => Ok(a.sub(b)),
            Err(e) => Err(*e),
        },
        Err(e) => Err(*e),
    }
}

/// `x * y`, or the first error.
pub fn try_mul(x: &Result<Polynomial, Error>, y: &Result<Polynomial, Error>) -> (r: Result<
    Polynomial,
    Error,
>)
    ensures
        result_wf(r),
        result_view(r) == lift_mul(result_view(*x), result_view(*y)),
{
    match x {
        Ok(a) => match y {
            Ok(b) => a.mul(b),
            Err(e) => Err(*e),
        },
        Err(e) => Err(*e),
    }
}

/// `x / y`, or the first error.
pub fn try_div(x: &Result<Polynomial, Error>, y: &Result<Polynomial, Error>) -> (r: Result<
    Polynomial,
    Error,
>)
    requires
        result_wf(*y),
    ensures
        result_wf(r),
        result_view(r) == lift_div(result_view(*x), result_view(*y)),
{
    match x {
        Ok(a) => match y {
            Ok(b) => a.div(b),
            Err(e) => Err(*e),
        },
        Err(e) => Err(*e),
    }
}

/// `-x`, or the error.
pub fn try_neg(x: &Result<Polynomial, Error>) -> (r: Result<Polynomial, Error>)
    ensures
        result_wf(r),
        result_view(r) == lift_neg(result_view(*x)),
{
    match x {
        Ok(a) => Ok(a.neg()),
        Err(e) => Err(*e),
    }
}

/// `x^n`, or the error.
pub fn try_power(x: &Result<Polynomial, Error>, n: i64) -> (r: Result<Polynomial, Error>)
    ensures
        result_wf(r),
        result_view(r) == lift_power(result_view(*x), n as int),
{
    match x {
        Ok(a) => a.power(n),
        Err(e) => Err(*e),
    }
}

/// `x (mod p)`, or the error.
pub fn try_modulo(x: &Result<Polynomial, Error>, p: &BigInt) -> (r: Result<Polynomial, Error>)
    ensures
        result_wf(r),
        result_view(r) == lift_mod(result_view(*x), int_of(*p)),
{
    match x {
        Ok(a) => a.modulo(p),
        Err(e) => Err(*e),
    }
}

/// `x` reduced by the curve, or the error.
pub fn try_reduction(x: &Result<Polynomial, Error>, a: &BigInt, b: &BigInt) -> (r: Result<
    Polynomial,
    Error,
>)
    ensures
        result_wf(r),
        result_view(r) == lift_reduction(result_view(*x), int_of(*a), int_of(*b)),
{
    match x {
        Ok(s) => Ok(s.reduction(a, b)),
        Err(e) => Err(*e),
    }
}

/// `x` reduced by the curve modulo `p`, or the error.
pub fn try_reduction_modular(
    x: &Result<Polynomial, Error>,
    a: &BigInt,
    b: &BigInt,
    p: &BigInt,
) -> (r: Result<Polynomial, Error>)
    ensures
        result_wf(r),
        result_view(r) == lift_reduction_modular(
            result_view(*x),
            int_of(*a),
            int_of(*b),
            int_of(*p),
        ),
{
    match x {
        Ok(s) => s.reduction_modular(a, b, p),
        Err(e) => Err(*e),
    }
}

/// The Frobenius substitution in `x`, or the error.
pub fn try_frob(x: &Result<Polynomial, Error>, n: &BigInt) -> (r: Result<Polynomial, Error>)
    ensures
        result_wf(r),
        result_view(r) == lift_frob(result_view(*x), int_of(*n)),
{
    match x {
        Ok(a) => Ok(a.to_frob(n)),
        Err(e) => Err(*e),
    }
}

/// The remainder of `x` by `g` modulo `p`, or the first error.
pub fn try_remainder(x: &Result<Polynomial, Error>, g: &Result<Polynomial, Error>, p: &BigInt) -> (r:
    Result<Polynomial, Error>)
    requires
        result_wf(*x),
        result_wf(*g),
    ensures
        result_wf(r),
        result_view(r) == lift_remainder(result_view(*x), result_view(*g), int_of(*p)),
{
    match x {
        Ok(a) => match g {
            Ok(b) => a.polynomial_modular(b, p),
            Err(e) => Err(*e),
        },
        Err(e) => Err(*e),
    }
}

} // verus!
