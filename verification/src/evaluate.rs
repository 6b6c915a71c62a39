use crate::algebra::{
    eval_x_terms, eval_xy_sum, eval_y_terms, has_negative_x, has_negative_y, has_q, has_x, has_y,
    poly_degree_x, poly_eval_x, poly_eval_xy, poly_eval_y, poly_scalar, poly_variable_coef,
};
use crate::arith::poly_result_is;
use crate::bigint::{big_result_is, Power};
use crate::error::Error;
use crate::integer::{big_add, big_from_i64, big_mul, int_of};
use crate::model::{
    coeff, lemma_coeff_absent, lemma_coeff_at, lemma_coeff_take_step, lemma_normalize_is,
    MonomialModel, TermModel,
};
use crate::polynomial::Polynomial;
use crate::subscripted_variable::SubscriptedVariable;
use crate::term::{Monomial, Term};
use num_bigint::BigInt;
use vstd::prelude::*;
use vstd::std_specs::cmp::PartialEqSpecImpl;

verus! {

impl Polynomial {
    /// The value at the given `x` and `y`: the sum over the terms of
    /// `x^x_exp * y^y_exp * coefficient`.
    pub fn eval_xy(&self, x: &BigInt, y: &BigInt) -> (r: Result<BigInt, Error>)
        ensures
            big_result_is(r, poly_eval_xy(self@, int_of(*x), int_of(*y))),
    {
        if self.has_negative_x() || self.has_negative_y() {
            return Err(Error::DomainError);
        }
        let n = self.len();
        let mut sum = big_from_i64(0);
        let mut i: usize = 0;
        proof {
            assert(self@.take(0) =~= Seq::<TermModel>::empty());
        }
        while i < n
            invariant
                0 <= i <= n,
                n == self@.len(),
                !has_negative_x(self@),
                !has_negative_y(self@),
                int_of(sum) == eval_xy_sum(self@.take(i as int), int_of(*x), int_of(*y)),
            decreases n - i,
        {
            proof {
                assert(self@.take(i + 1).drop_last() =~= self@.take(i as int));
                assert(self@.take(i + 1).last() == self@[i as int]);
                assert(self@[i as int].mono.x < 0 ==> has_negative_x(self@));
                assert(self@[i as int].mono.y < 0 ==> has_negative_y(self@));
            }
            match self.term(i).eval_xy(x, y) {
                Ok(v) => {
                    sum = big_add(&sum, &v);
                },
                Err(_) => {
                    assert(false);
                },
            }
            i = i + 1;
        }
        proof {
            assert(self@.take(n as int) =~= self@);
        }
        Ok(sum)
    }

    /// The polynomial at the given `x`.
    pub fn eval_x(&self, x: &BigInt) -> (r: Result<Polynomial, Error>)
        ensures
            poly_result_is(r, poly_eval_x(self@, int_of(*x))),
    {
        if self.has_negative_x() {
            return Err(Error::DomainError);
        }
        let ghost list = eval_x_terms(self@, int_of(*x));
        let n = self.len();
        let mut res = Polynomial::new();
        let mut i: usize = 0;
        proof {
            assert(list.take(0) =~= Seq::<TermModel>::empty());
        }
        while i < n
            invariant
                0 <= i <= n,
                n == self@.len(),
                list == eval_x_terms(self@, int_of(*x)),
                !has_negative_x(self@),
                res.wf(),
                forall|m: MonomialModel| #[trigger] coeff(res@, m) == coeff(list.take(i as int), m),
            decreases n - i,
        {
            proof {
                lemma_coeff_take_step(list, i as int);
                assert(self@[i as int].mono.x < 0 ==> has_negative_x(self@));
            }
            let t = self.term(i);
            match x.power(&t.monomial.xpow) {
                Ok(v) => {
                    res.add_term(
                        Term {
                            coef: big_mul(&t.coef, &v),
                            monomial: Monomial {
                                xpow: big_from_i64(0),
                                ypow: t.monomial.ypow.clone(),
                                qpow: t.monomial.qpow.clone(),
                                variable: t.monomial.variable,
                            },
                        },
                    );
                },
                Err(_) => {
                    assert(false);
                },
            }
            i = i + 1;
        }
        proof {
            assert(list.take(n as int) =~= list);
            lemma_normalize_is(list, res@);
        }
        Ok(res)
    }

    /// The polynomial at the given `y`.
    pub fn eval_y(&self, y: &BigInt) -> (r: Result<Polynomial, Error>)
        ensures
            poly_result_is(r, poly_eval_y(self@, int_of(*y))),
    {
        if self.has_negative_y() {
            return Err(Error::DomainError);
        }
        let ghost list = eval_y_terms(self@, int_of(*y));
        let n = self.len();
        let mut res = Polynomial::new();
        let mut i: usize = 0;
        proof {
            assert(list.take(0) =~= Seq::<TermModel>::empty());
        }
        while i < n
            invariant
                0 <= i <= n,
                n == self@.len(),
                list == eval_y_terms(self@, int_of(*y)),
                !has_negative_y(self@),
                res.wf(),
                forall|m: MonomialModel| #[trigger] coeff(res@, m) == coeff(list.take(i as int), m),
            decreases n - i,
        {
            proof {
                lemma_coeff_take_step(list, i as int);
                assert(self@[i as int].mono.y < 0 ==> has_negative_y(self@));
            }
            let t = self.term(i);
            match y.power(&t.monomial.ypow) {
                Ok(v) => {
                    res.add_term(
                        Term {
                            coef: big_mul(&t.coef, &v),
                            monomial: Monomial {
                                xpow: t.monomial.xpow.clone(),
                                ypow: big_from_i64(0),
                                qpow: t.monomial.qpow.clone(),
                                variable: t.monomial.variable,
                            },
                        },
                    );
                },
                Err(_) => {
                    assert(false);
                },
            }
            i = i + 1;
        }
        proof {
            assert(list.take(n as int) =~= list);
            lemma_normalize_is(list, res@);
        }
        Ok(res)
    }

    /// The coefficient of a constant polynomial; zero for the zero
    /// polynomial. A polynomial of several terms, or with `x`, `y` or `q`,
    /// is rejected.
    pub fn to_scalar(&self) -> (r: Result<BigInt, Error>)
        ensures
            big_result_is(r, poly_scalar(self@)),
    {
        if self.len() == 0 {
            return Ok(big_from_i64(0));
        }
        if self.len() >= 2 {
            return Err(Error::DomainError);
        }
        let t = self.term(0);
        if t.has_x() || t.has_y() || t.has_q() {
            return Err(Error::DomainError);
        }
        Ok(t.coef.clone())
    }

    /// The degree in `x`; zero for the zero polynomial. A polynomial with `y`
    /// or `q` is rejected.
    pub fn degree_x(&self) -> (r: Result<BigInt, Error>)
        ensures
            big_result_is(r, poly_degree_x(self@)),
    {
        if self.has_y() || self.has_q() {
            return Err(Error::NotUnivariate);
        }
        let s = self.highest_term_x();
        Ok(s.monomial.xpow.clone())
    }

    /// The coefficient of `variable` in a polynomial in the subscripted
    /// variables alone; zero where it does not occur.
    pub fn to_variable_coef(&self, variable: SubscriptedVariable) -> (r: Result<BigInt, Error>)
        requires
            self.wf(),
        ensures
            big_result_is(r, poly_variable_coef(self@, variable@)),
    {
        if self.has_x() || self.has_y() || self.has_q() {
            return Err(Error::DomainError);
        }
        let ghost m = MonomialModel { x: 0, y: 0, q: 0, var: variable@ };
        let n = self.len();
        let mut i: usize = 0;
        while i < n
            invariant
                0 <= i <= n,
                n == self@.len(),
                self.wf(),
                !has_x(self@),
                !has_y(self@),
                !has_q(self@),
                m == (MonomialModel { x: 0, y: 0, q: 0, var: variable@ }),
                forall|k: int| 0 <= k < i ==> (#[trigger] self@[k]).mono != m,
            decreases n - i,
        {
            let t = self.term(i);
            proof {
                assert(self@[i as int].mono.x != 0 ==> has_x(self@));
                assert(self@[i as int].mono.y != 0 ==> has_y(self@));
                assert(self@[i as int].mono.q != 0 ==> has_q(self@));
            }
            if t.monomial.variable == variable {
                proof {
                    assert(self@[i as int].mono == m);
                    lemma_coeff_at(self@, i as int);
                }
                return Ok(t.coef.clone());
            }
            i = i + 1;
        }
        proof {
            lemma_coeff_absent(self@, m);
        }
        Ok(big_from_i64(0))
    }
}

impl PartialEq for Polynomial {
    fn eq(&self, other: &Self) -> (r: bool) {
        if self.len() != other.len() {
            return false;
        }
        let n = self.len();
        let mut i: usize = 0;
        while i < n
            invariant
                0 <= i <= n,
                n == self@.len(),
                n == other@.len(),
                forall|k: int| 0 <= k < i ==> self@[k] == other@[k],
            decreases n - i,
        {
            if !(*self.term(i) == *other.term(i)) {
                return false;
            }
            i = i + 1;
        }
        assert(self@ =~= other@);
        true
    }
}

impl PartialEqSpecImpl for Polynomial {
    open spec fn obeys_eq_spec() -> bool {
        true
    }

    open spec fn eq_spec(&self, other: &Self) -> bool {
        self@ == other@
    }
}

impl Eq for Polynomial {

}

} // verus!
