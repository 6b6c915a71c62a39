use crate::algebra::{
    cross_terms, derivative_x_terms, derivative_y_terms, div_terms, frob_terms, has_negative_x,
    has_negative_y, has_variable, low_q_terms, mod_terms, neg_terms, poly_add, poly_derivative_x,
    poly_derivative_y, poly_div, poly_frob, poly_mod, poly_mul, poly_neg, poly_of_term,
    poly_omit_high_order_q, poly_q_power, poly_q_power_coef, poly_sub, poly_y_power, q_coef_terms,
    q_power_terms, scale_terms, y_power_terms,
};
use crate::error::Error;
use crate::integer::{big_eq, big_from_i64, big_is_negative, big_le, int_of};
use crate::model::{
    coeff, lemma_coeff_concat, lemma_coeff_empty, lemma_coeff_single, lemma_coeff_take_step,
    lemma_normalize_is, MonomialModel, TermModel,
};
use crate::polynomial::Polynomial;
use crate::term::{Monomial, Term};
use num_bigint::BigInt;
use vstd::prelude::*;

verus! {

/// Whether a result of the library holds what its model says, and
/// is in canonical form where it is a polynomial.
pub open spec fn poly_result_is(r: Result<Polynomial, Error>, s: Result<Seq<TermModel>, Error>) -> bool {
    match r {
        Ok(v) => v.wf() && s == Ok::<Seq<TermModel>, Error>(v@),
        Err(e) => s == Err::<Seq<TermModel>, Error>(e),
    }
}

impl Term {
    /// The term as a polynomial.
    pub fn to_pol(&self) -> (r: Polynomial)
        ensures
            r.wf(),
            r@ == poly_of_term(self@),
    {
        let mut pol = Polynomial::new();
        pol.add_term(self.clone());
        proof {
            lemma_coeff_empty();
            lemma_coeff_single(self@);
            if self@.coef == 0 {
                lemma_normalize_is(Seq::<TermModel>::empty(), pol@);
                lemma_normalize_is(Seq::<TermModel>::empty(), Seq::<TermModel>::empty());
            } else {
                lemma_normalize_is(seq![self@], pol@);
                lemma_normalize_is(seq![self@], seq![self@]);
            }
        }
        pol
    }

    /// `self + other`.
    pub fn add(&self, other: &Term) -> (r: Polynomial)
        ensures
            r.wf(),
            r@ == poly_add(poly_of_term(self@), poly_of_term(other@)),
    {
        let mut pol = self.to_pol();
        let o = other.to_pol();
        pol.add_assign(&o);
        pol
    }

    /// `self - other`.
    pub fn sub(&self, other: &Term) -> (r: Polynomial)
        ensures
            r.wf(),
            r@ == poly_sub(poly_of_term(self@), poly_of_term(other@)),
    {
        let mut pol = self.to_pol();
        let o = other.to_pol();
        pol.sub_assign(&o);
        pol
    }
}

impl Polynomial {
    /// `self += other`.
    pub fn add_assign(&mut self, other: &Polynomial)
        requires
            old(self).wf(),
        ensures
            final(self).wf(),
            final(self)@ == poly_add(old(self)@, other@),
    {
        let ghost a = self@;
        let ghost b = other@;
        let n = other.len();
        let mut i: usize = 0;
        proof {
            assert(b.take(0) =~= Seq::<TermModel>::empty());
            lemma_coeff_empty();
        }
        while i < n
            invariant
                0 <= i <= n,
                n == b.len(),
                b == other@,
                self.wf(),
                forall|m: MonomialModel| #[trigger]
                    coeff(self@, m) == coeff(a, m) + coeff(b.take(i as int), m),
            decreases n - i,
        {
            proof {
                lemma_coeff_take_step(b, i as int);
            }
            self.add_term(other.term(i).clone());
            i = i + 1;
        }
        proof {
            assert(b.take(n as int) =~= b);
            lemma_coeff_concat(a, b);
            lemma_normalize_is(a + b, self@);
        }
    }

    /// `self + other`.
    pub fn add(&self, other: &Polynomial) -> (r: Polynomial)
        requires
            self.wf(),
        ensures
            r.wf(),
            r@ == poly_add(self@, other@),
    {
        let mut r = self.clone();
        r.add_assign(other);
        r
    }

    /// `self -= other`.
    pub fn sub_assign(&mut self, other: &Polynomial)
        requires
            old(self).wf(),
        ensures
            final(self).wf(),
            final(self)@ == poly_sub(old(self)@, other@),
    {
        let ghost a = self@;
        let ghost b = neg_terms(other@);
        let n = other.len();
        let mut i: usize = 0;
        proof {
            assert(b.take(0) =~= Seq::<TermModel>::empty());
            lemma_coeff_empty();
        }
        while i < n
            invariant
                0 <= i <= n,
                n == b.len(),
                b == neg_terms(other@),
                self.wf(),
                forall|m: MonomialModel| #[trigger]
                    coeff(self@, m) == coeff(a, m) + coeff(b.take(i as int), m),
            decreases n - i,
        {
            proof {
                lemma_coeff_take_step(b, i as int);
            }
            self.add_term(other.term(i).neg());
            i = i + 1;
        }
        proof {
            assert(b.take(n as int) =~= b);
            lemma_coeff_concat(a, b);
            lemma_normalize_is(a + b, self@);
        }
    }

    /// `self - other`.
    pub fn sub(&self, other: &Polynomial) -> (r: Polynomial)
        requires
            self.wf(),
        ensures
            r.wf(),
            r@ == poly_sub(self@, other@),
    {
        let mut r = self.clone();
        r.sub_assign(other);
        r
    }

    /// `-self`.
    pub fn neg(&self) -> (r: Polynomial)
        ensures
            r.wf(),
            r@ == poly_neg(self@),
    {
        let ghost list = neg_terms(self@);
        let n = self.len();
        let mut res = Polynomial::new();
        let mut i: usize = 0;
        proof {
            assert(list.take(0) =~= Seq::<TermModel>::empty());
        }
        while i < n
            invariant
                0 <= i <= n,
                n == self@.len(),
                list == neg_terms(self@),
                res.wf(),
                forall|m: MonomialModel| #[trigger] coeff(res@, m) == coeff(list.take(i as int), m),
            decreases n - i,
        {
            proof {
                lemma_coeff_take_step(list, i as int);
            }
            res.add_term(self.term(i).neg());
            i = i + 1;
        }
        proof {
            assert(list.take(n as int) =~= list);
            lemma_normalize_is(list, res@);
        }
        res
    }

    /// `self * other`: every term times every term, like terms collected.
    pub fn mul(&self, other: &Polynomial) -> (r: Result<Polynomial, Error>)
        ensures
            poly_result_is(r, poly_mul(self@, other@)),
    {
        if self.has_variable() && other.has_variable() {
            return Err(Error::VariableProduct);
        }
        let ghost a = self@;
        let ghost b = other@;
        let n = self.len();
        let k = other.len();
        let mut res = Polynomial::new();
        let mut i: usize = 0;
        proof {
            assert(a.take(0) =~= Seq::<TermModel>::empty());
        }
        while i < n
            invariant
                0 <= i <= n,
                n == a.len(),
                k == b.len(),
                a == self@,
                b == other@,
                !(has_variable(a) && has_variable(b)),
                res.wf(),
                forall|m: MonomialModel| #[trigger]
                    coeff(res@, m) == coeff(cross_terms(a.take(i as int), b), m),
            decreases n - i,
        {
            let ghost row = scale_terms(a[i as int], b);
            let ghost done = cross_terms(a.take(i as int), b);
            let mut j: usize = 0;
            proof {
                assert(row.take(0) =~= Seq::<TermModel>::empty());
                lemma_coeff_empty();
            }
            while j < k
                invariant
                    0 <= j <= k,
                    0 <= i < n,
                    n == a.len(),
                    k == b.len(),
                    a == self@,
                    b == other@,
                    row == scale_terms(a[i as int], b),
                    !(has_variable(a) && has_variable(b)),
                    res.wf(),
                    forall|m: MonomialModel| #[trigger]
                        coeff(res@, m) == coeff(done, m) + coeff(row.take(j as int), m),
                decreases k - j,
            {
                proof {
                    lemma_coeff_take_step(row, j as int);
                    assert(a[i as int].mono.var is Some ==> has_variable(a));
                    assert(b[j as int].mono.var is Some ==> has_variable(b));
                }
                match self.term(i).mul(other.term(j)) {
                    Ok(t) => {
                        res.add_term(t);
                    },
                    Err(_) => {
                        assert(false);
                    },
                }
                j = j + 1;
            }
            proof {
                assert(row.take(k as int) =~= row);
                assert(a.take(i + 1).drop_last() =~= a.take(i as int));
                assert(a.take(i + 1).last() == a[i as int]);
                lemma_coeff_concat(done, row);
            }
            i = i + 1;
        }
        proof {
            assert(a.take(n as int) =~= a);
            lemma_normalize_is(cross_terms(a, b), res@);
        }
        Ok(res)
    }

    /// `self *= other`. Where the product is rejected `self` stays as it is.
    pub fn mul_assign(&mut self, other: &Polynomial) -> (r: Result<(), Error>)
        ensures
            match r {
                Ok(_) => final(self).wf() && poly_mul(old(self)@, other@) == Ok::<
                    Seq<TermModel>,
                    Error,
                >(final(self)@),
                Err(e) => poly_mul(old(self)@, other@) == Err::<Seq<TermModel>, Error>(e)
                    && *final(self) == *old(self),
            },
    {
        match self.mul(other) {
            Ok(c) => {
                *self = c;
                Ok(())
            },
            Err(e) => Err(e),
        }
    }

    /// `self / other` for a divisor of one term without a variable: every
    /// coefficient divided with rounding down, the exponents subtracted.
    pub fn div(&self, other: &Polynomial) -> (r: Result<Polynomial, Error>)
        requires
            other.wf(),
        ensures
            poly_result_is(r, poly_div(self@, other@)),
    {
        if other.is_zero() {
            return Err(Error::DomainError);
        }
        if other.len() >= 2 {
            return Err(Error::NonMonomialDivision);
        }
        let d = other.term(0);
        if !d.monomial.variable.empty {
            return Err(Error::DomainError);
        }
        let ghost list = div_terms(self@, d@);
        let n = self.len();
        let mut res = Polynomial::new();
        let mut i: usize = 0;
        proof {
            assert(list.take(0) =~= Seq::<TermModel>::empty());
        }
        while i < n
            invariant
                0 <= i <= n,
                n == self@.len(),
                list == div_terms(self@, d@),
                d@.mono.var is None,
                d@.coef != 0,
                res.wf(),
                forall|m: MonomialModel| #[trigger] coeff(res@, m) == coeff(list.take(i as int), m),
            decreases n - i,
        {
            proof {
                lemma_coeff_take_step(list, i as int);
            }
            match self.term(i).div(d) {
                Ok(t) => {
                    res.add_term(t);
                },
                Err(_) => {
                    assert(false);
                },
            }
            i = i + 1;
        }
        proof {
            assert(list.take(n as int) =~= list);
            lemma_normalize_is(list, res@);
        }
        Ok(res)
    }

    /// `self /= other`. Where the division is rejected `self` stays as it is.
    pub fn div_assign(&mut self, other: &Polynomial) -> (r: Result<(), Error>)
        requires
            other.wf(),
        ensures
            match r {
                Ok(_) => final(self).wf() && poly_div(old(self)@, other@) == Ok::<
                    Seq<TermModel>,
                    Error,
                >(final(self)@),
                Err(e) => poly_div(old(self)@, other@) == Err::<Seq<TermModel>, Error>(e)
                    && *final(self) == *old(self),
            },
    {
        match self.div(other) {
            Ok(c) => {
                *self = c;
                Ok(())
            },
            Err(e) => Err(e),
        }
    }

    /// `self (mod p)`: every coefficient reduced into `[0, p)`.
    pub fn modulo(&self, p: &BigInt) -> (r: Result<Polynomial, Error>)
        ensures
            poly_result_is(r, poly_mod(self@, int_of(*p))),
    {
        let one = big_from_i64(1);
        if big_le(p, &one) {
            return Err(Error::DomainError);
        }
        let ghost list = mod_terms(self@, int_of(*p));
        let n = self.len();
        let mut res = Polynomial::new();
        let mut i: usize = 0;
        proof {
            assert(list.take(0) =~= Seq::<TermModel>::empty());
        }
        while i < n
            invariant
                0 <= i <= n,
                n == self@.len(),
                list == mod_terms(self@, int_of(*p)),
                int_of(*p) >= 2,
                res.wf(),
                forall|m: MonomialModel| #[trigger] coeff(res@, m) == coeff(list.take(i as int), m),
            decreases n - i,
        {
            proof {
                lemma_coeff_take_step(list, i as int);
            }
            match self.term(i).modulo(p) {
                Ok(t) => {
                    res.add_term(t);
                },
                Err(_) => {
                    assert(false);
                },
            }
            i = i + 1;
        }
        proof {
            assert(list.take(n as int) =~= list);
            lemma_normalize_is(list, res@);
        }
        Ok(res)
    }

    /// `self = self (mod p)`. On a modulus below two `self` stays as it is.
    pub fn modular_assign(&mut self, p: &BigInt) -> (r: Result<(), Error>)
        ensures
            match r {
                Ok(_) => final(self).wf() && poly_mod(old(self)@, int_of(*p)) == Ok::<
                    Seq<TermModel>,
                    Error,
                >(final(self)@),
                Err(e) => poly_mod(old(self)@, int_of(*p)) == Err::<Seq<TermModel>, Error>(e)
                    && *final(self) == *old(self),
            },
    {
        match self.modulo(p) {
            Ok(c) => {
                *self = c;
                Ok(())
            },
            Err(e) => Err(e),
        }
    }

    /// The formal derivative with respect to `x`.
    pub fn derivative_x(&self) -> (r: Result<Polynomial, Error>)
        ensures
            poly_result_is(r, poly_derivative_x(self@)),
    {
        if self.has_negative_x() {
            return Err(Error::DomainError);
        }
        let ghost list = derivative_x_terms(self@);
        let n = self.len();
        let mut res = Polynomial::new();
        let mut i: usize = 0;
        proof {
            assert(list.take(0) =~= Seq::<TermModel>::empty());
        }
        while i < n
            invariant
                0 <= i <= n,
                n == self@.len(),
                list == derivative_x_terms(self@),
                !has_negative_x(self@),
                res.wf(),
                forall|m: MonomialModel| #[trigger] coeff(res@, m) == coeff(list.take(i as int), m),
            decreases n - i,
        {
            proof {
                lemma_coeff_take_step(list, i as int);
                assert(self@[i as int].mono.x < 0 ==> has_negative_x(self@));
            }
            match self.term(i).derivative_x() {
                Ok(t) => {
                    res.add_term(t);
                },
                Err(_) => {
                    assert(false);
                },
            }
            i = i + 1;
        }
        proof {
            assert(list.take(n as int) =~= list);
            lemma_normalize_is(list, res@);
        }
        Ok(res)
    }

    /// Whether some term has a negative exponent of `y`.
    pub fn has_negative_y(&self) -> (r: bool)
        ensures
            r == has_negative_y(self@),
    {
        let mut i: usize = 0;
        while i < self.len()
            invariant
                0 <= i <= self@.len(),
                forall|k: int| 0 <= k < i ==> (#[trigger] self@[k]).mono.y >= 0,
            decreases self@.len() - i,
        {
            if big_is_negative(&self.term(i).monomial.ypow) {
                assert(self@[i as int].mono.y < 0);
                return true;
            }
            i = i + 1;
        }
        false
    }

    /// The formal derivative with respect to `y`.
    pub fn derivative_y(&self) -> (r: Result<Polynomial, Error>)
        ensures
            poly_result_is(r, poly_derivative_y(self@)),
    {
        if self.has_negative_y() {
            return Err(Error::DomainError);
        }
        let ghost list = derivative_y_terms(self@);
        let n = self.len();
        let mut res = Polynomial::new();
        let mut i: usize = 0;
        proof {
            assert(list.take(0) =~= Seq::<TermModel>::empty());
        }
        while i < n
            invariant
                0 <= i <= n,
                n == self@.len(),
                list == derivative_y_terms(self@),
                !has_negative_y(self@),
                res.wf(),
                forall|m: MonomialModel| #[trigger] coeff(res@, m) == coeff(list.take(i as int), m),
            decreases n - i,
        {
            proof {
                lemma_coeff_take_step(list, i as int);
                assert(self@[i as int].mono.y < 0 ==> has_negative_y(self@));
            }
            match self.term(i).derivative_y() {
                Ok(t) => {
                    res.add_term(t);
                },
                Err(_) => {
                    assert(false);
                },
            }
            i = i + 1;
        }
        proof {
            assert(list.take(n as int) =~= list);
            lemma_normalize_is(list, res@);
        }
        Ok(res)
    }

    /// The Frobenius map of a polynomial: `x -> x^n`, `y -> y^n`.
    pub fn to_frob(&self, n: &BigInt) -> (r: Polynomial)
        ensures
            r.wf(),
            r@ == poly_frob(self@, int_of(*n)),
    {
        let ghost list = frob_terms(self@, int_of(*n));
        let len = self.len();
        let mut res = Polynomial::new();
        let mut i: usize = 0;
        proof {
            assert(list.take(0) =~= Seq::<TermModel>::empty());
        }
        while i < len
            invariant
                0 <= i <= len,
                len == self@.len(),
                list == frob_terms(self@, int_of(*n)),
                res.wf(),
                forall|m: MonomialModel| #[trigger] coeff(res@, m) == coeff(list.take(i as int), m),
            decreases len - i,
        {
            proof {
                lemma_coeff_take_step(list, i as int);
            }
            res.add_term(self.term(i).to_frob(n));
            i = i + 1;
        }
        proof {
            assert(list.take(len as int) =~= list);
            lemma_normalize_is(list, res@);
        }
        res
    }

    /// `y -> y^n`.
    pub fn to_y_power(&self, n: &BigInt) -> (r: Polynomial)
        ensures
            r.wf(),
            r@ == poly_y_power(self@, int_of(*n)),
    {
        let ghost list = y_power_terms(self@, int_of(*n));
        let len = self.len();
        let mut res = Polynomial::new();
        let mut i: usize = 0;
        proof {
            assert(list.take(0) =~= Seq::<TermModel>::empty());
        }
        while i < len
            invariant
                0 <= i <= len,
                len == self@.len(),
                list == y_power_terms(self@, int_of(*n)),
                res.wf(),
                forall|m: MonomialModel| #[trigger] coeff(res@, m) == coeff(list.take(i as int), m),
            decreases len - i,
        {
            proof {
                lemma_coeff_take_step(list, i as int);
            }
            res.add_term(self.term(i).to_y_power(n));
            i = i + 1;
        }
        proof {
            assert(list.take(len as int) =~= list);
            lemma_normalize_is(list, res@);
        }
        res
    }

    /// `q -> q^n`.
    pub fn to_q_power(&self, n: i64) -> (r: Polynomial)
        ensures
            r.wf(),
            r@ == poly_q_power(self@, n as int),
    {
        let ghost list = q_power_terms(self@, n as int);
        let len = self.len();
        let mut res = Polynomial::new();
        let mut i: usize = 0;
        proof {
            assert(list.take(0) =~= Seq::<TermModel>::empty());
        }
        while i < len
            invariant
                0 <= i <= len,
                len == self@.len(),
                list == q_power_terms(self@, n as int),
                res.wf(),
                forall|m: MonomialModel| #[trigger] coeff(res@, m) == coeff(list.take(i as int), m),
            decreases len - i,
        {
            proof {
                lemma_coeff_take_step(list, i as int);
            }
            res.add_term(self.term(i).to_q_power(n));
            i = i + 1;
        }
        proof {
            assert(list.take(len as int) =~= list);
            lemma_normalize_is(list, res@);
        }
        res
    }

    /// The series without its terms above `q^order`. A polynomial with `x`
    /// or `y` is rejected.
    pub fn omit_high_order_q(&self, order: i64) -> (r: Result<Polynomial, Error>)
        ensures
            poly_result_is(r, poly_omit_high_order_q(self@, order as int)),
    {
        if self.has_x() || self.has_y() {
            return Err(Error::DomainError);
        }
        let bound = big_from_i64(order);
        let ghost list = low_q_terms(self@, order as int);
        let len = self.len();
        let mut res = Polynomial::new();
        let mut i: usize = 0;
        proof {
            assert(list.take(0) =~= Seq::<TermModel>::empty());
        }
        while i < len
            invariant
                0 <= i <= len,
                len == self@.len(),
                list == low_q_terms(self@, order as int),
                int_of(bound) == order,
                res.wf(),
                forall|m: MonomialModel| #[trigger] coeff(res@, m) == coeff(list.take(i as int), m),
            decreases len - i,
        {
            proof {
                lemma_coeff_take_step(list, i as int);
            }
            let t = self.term(i);
            if big_le(&t.monomial.qpow, &bound) {
                res.add_term(t.clone());
            }
            i = i + 1;
        }
        proof {
            assert(list.take(len as int) =~= list);
            lemma_normalize_is(list, res@);
        }
        Ok(res)
    }

    /// The coefficient of `q^power` in a series in `q`: a polynomial in the
    /// subscripted variables. A polynomial with `x` or `y` is rejected.
    pub fn to_q_power_coef(&self, power: &BigInt) -> (r: Result<Polynomial, Error>)
        ensures
            poly_result_is(r, poly_q_power_coef(self@, int_of(*power))),
    {
        if self.has_x() || self.has_y() {
            return Err(Error::DomainError);
        }
        let ghost list = q_coef_terms(self@, int_of(*power));
        let len = self.len();
        let mut res = Polynomial::new();
        let mut i: usize = 0;
        proof {
            assert(list.take(0) =~= Seq::<TermModel>::empty());
        }
        while i < len
            invariant
                0 <= i <= len,
                len == self@.len(),
                list == q_coef_terms(self@, int_of(*power)),
                res.wf(),
                forall|m: MonomialModel| #[trigger] coeff(res@, m) == coeff(list.take(i as int), m),
            decreases len - i,
        {
            proof {
                lemma_coeff_take_step(list, i as int);
            }
            let t = self.term(i);
            if big_eq(&t.monomial.qpow, power) {
                let u = Term {
                    coef: t.coef.clone(),
                    monomial: Monomial {
                        xpow: big_from_i64(0),
                        ypow: big_from_i64(0),
                        qpow: big_from_i64(0),
                        variable: t.monomial.variable,
                    },
                };
                res.add_term(u);
            }
            i = i + 1;
        }
        proof {
            assert(list.take(len as int) =~= list);
            lemma_normalize_is(list, res@);
        }
        Ok(res)
    }
}

} // verus!
