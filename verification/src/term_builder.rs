use crate::integer::{big_from_i64, int_of};
use crate::model::{MonomialModel, TermModel};
use crate::subscripted_variable::SubscriptedVariable;
use crate::term::{Monomial, Term};
use num_bigint::BigInt;
use vstd::prelude::*;

verus! {

/// Builds a term factor by factor, from the term `1`.
#[derive(Debug)]
pub struct TermBuilder {
    coef_: BigInt,
    xpow_: BigInt,
    ypow_: BigInt,
    qpow_: BigInt,
    variable_: SubscriptedVariable,
}

impl View for TermBuilder {
    type V = TermModel;

    /// The term that `build` hands out.
    closed spec fn view(&self) -> TermModel {
        TermModel {
            coef: int_of(self.coef_),
            mono: MonomialModel {
                x: int_of(self.xpow_),
                y: int_of(self.ypow_),
                q: int_of(self.qpow_),
                var: self.variable_@,
            },
        }
    }
}

/// Sets the coefficient of a term under construction.
pub trait TermBuildable<T>: Sized {
    /// The builder with the coefficient `coef`.
    fn coef(self, coef: T) -> Self;
}

impl<'a> TermBuildable<&'a BigInt> for TermBuilder {
    fn coef(self, coef: &'a BigInt) -> (r: TermBuilder)
        ensures
            r@ == (TermModel { coef: int_of(*coef), mono: self@.mono }),
    {
        let mut b = self;
        b.coef_ = coef.clone();
        b
    }
}

impl TermBuildable<BigInt> for TermBuilder {
    fn coef(self, coef: BigInt) -> (r: TermBuilder)
        ensures
            r@ == (TermModel { coef: int_of(coef), mono: self@.mono }),
    {
        let mut b = self;
        b.coef_ = coef;
        b
    }
}

impl TermBuildable<i32> for TermBuilder {
    fn coef(self, coef: i32) -> (r: TermBuilder)
        ensures
            r@ == (TermModel { coef: coef as int, mono: self@.mono }),
    {
        let mut b = self;
        b.coef_ = big_from_i64(coef as i64);
        b
    }
}

impl TermBuilder {
    /// The builder of the term `1`.
    pub fn new() -> (r: TermBuilder)
        ensures
            r@ == crate::term::constant_term(1),
    {
        TermBuilder {
            coef_: big_from_i64(1),
            xpow_: big_from_i64(0),
            ypow_: big_from_i64(0),
            qpow_: big_from_i64(0),
            variable_: SubscriptedVariable::new(),
        }
    }

    /// The builder with the exponent `xpow` of `x`.
    pub fn xpow(self, xpow: i64) -> (r: TermBuilder)
        ensures
            r@ == (TermModel {
                coef: self@.coef,
                mono: MonomialModel { x: xpow as int, ..self@.mono },
            }),
    {
        let mut b = self;
        b.xpow_ = big_from_i64(xpow);
        b
    }

    /// The builder with the exponent `ypow` of `y`.
    pub fn ypow(self, ypow: i64) -> (r: TermBuilder)
        ensures
            r@ == (TermModel {
                coef: self@.coef,
                mono: MonomialModel { y: ypow as int, ..self@.mono },
            }),
    {
        let mut b = self;
        b.ypow_ = big_from_i64(ypow);
        b
    }

    /// The builder with the exponent `qpow` of `q`.
    pub fn qpow(self, qpow: i64) -> (r: TermBuilder)
        ensures
            r@ == (TermModel {
                coef: self@.coef,
                mono: MonomialModel { q: qpow as int, ..self@.mono },
            }),
    {
        let mut b = self;
        b.qpow_ = big_from_i64(qpow);
        b
    }

    /// The builder with the exponent `xpow` of `x`, of any size.
    pub fn xpow_big(self, xpow: &BigInt) -> (r: TermBuilder)
        ensures
            r@ == (TermModel {
                coef: self@.coef,
                mono: MonomialModel { x: int_of(*xpow), ..self@.mono },
            }),
    {
        let mut b = self;
        b.xpow_ = xpow.clone();
        b
    }

    /// The builder with the exponent `ypow` of `y`, of any size.
    pub fn ypow_big(self, ypow: &BigInt) -> (r: TermBuilder)
        ensures
            r@ == (TermModel {
                coef: self@.coef,
                mono: MonomialModel { y: int_of(*ypow), ..self@.mono },
            }),
    {
        let mut b = self;
        b.ypow_ = ypow.clone();
        b
    }

    /// The builder with the exponent `qpow` of `q`, of any size.
    pub fn qpow_big(self, qpow: &BigInt) -> (r: TermBuilder)
        ensures
            r@ == (TermModel {
                coef: self@.coef,
                mono: MonomialModel { q: int_of(*qpow), ..self@.mono },
            }),
    {
        let mut b = self;
        b.qpow_ = qpow.clone();
        b
    }

    /// The builder with the subscripted variable `variable`.
    pub fn variable(self, variable: SubscriptedVariable) -> (r: TermBuilder)
        ensures
            r@ == (TermModel {
                coef: self@.coef,
                mono: MonomialModel { var: variable@, ..self@.mono },
            }),
    {
        let mut b = self;
        b.variable_ = variable;
        b
    }

    /// The builder with the subscripted variable `c_i_j`.
    pub fn variable_ij(self, i: i64, j: i64) -> (r: TermBuilder)
        requires
            i >= 0,
            j >= 0,
        ensures
            r@ == (TermModel {
                coef: self@.coef,
                mono: MonomialModel { var: Some((i as int, j as int)), ..self@.mono },
            }),
    {
        let mut b = self;
        b.variable_ = SubscriptedVariable { i, j, empty: false };
        b
    }

    /// The term.
    pub fn build(&self) -> (r: Term)
        ensures
            r@ == self@,
    {
        Term {
            coef: self.coef_.clone(),
            monomial: Monomial {
                xpow: self.xpow_.clone(),
                ypow: self.ypow_.clone(),
                qpow: self.qpow_.clone(),
                variable: self.variable_,
            },
        }
    }
}

} // verus!
