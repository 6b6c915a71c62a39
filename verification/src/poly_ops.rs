use crate::algebra::{
    curve_polynomial, curve_terms, has_negative_x, has_q, has_variable, has_y, highest_term,
    mono_eval_x_polynomial, mono_eval_y_polynomial, poly_eval_x_polynomial, poly_eval_y_polynomial,
    poly_monic, poly_mul_mod, poly_one, poly_power, poly_power_modulo, poly_power_omit_high_order_q,
    poly_reduction, poly_reduction_modular, power_loop, power_modulo_loop, reduction_modular_sum,
    term_eval_x_polynomial, term_eval_y_polynomial, term_odd_y,
};
use crate::arith::poly_result_is;
use crate::bigint::{inverse_spec, lemma_inverse_is_inverse, Inverse, Power};
use crate::division::{
    degree, division_domain, division_factor, division_loop, division_ready, euclid_loop,
    euclid_measure, lemma_division_step, lemma_gcd_modulo_prime, lemma_remainder, plain, poly_gcd,
    poly_is_gcd_one, poly_remainder, reduced,
};
use crate::error::Error;
use crate::integer::{
    big_div_floor, big_eq, big_from_i64, big_is_negative, big_is_odd, big_is_zero, big_le, big_lt,
    big_mod_floor, big_mul, big_sub, int_of,
};
use crate::integer::is_prime;
use crate::model::{
    coeff, delta, lemma_coeff_take_step, lemma_normalize_is, MonomialModel, TermModel,
};
use crate::polynomial::Polynomial;
use crate::ring::{lemma_power_is_product, repeated_product};
use crate::subscripted_variable::SubscriptedVariable;
use crate::support::{
    lemma_power_modulo_variable, lemma_power_omit_q_series, lemma_power_variable,
    lemma_reduction_defined, lemma_reduction_modular_defined, lemma_reduction_modular_sum_defined,
    q_series,
};
use crate::term::{constant_term, Monomial, Term};
use num_bigint::BigInt;
use vstd::prelude::*;

verus! {

impl<'a> Power<&'a BigInt> for Polynomial {
    /// `self^n` by squaring.
    fn power(&self, n: &'a BigInt) -> (r: Result<Polynomial, Error>)
        ensures
            poly_result_is(r, poly_power(self@, int_of(*n))),
            !has_variable(self@) && int_of(*n) >= 0 ==> r is Ok,
            self.wf() && !has_variable(self@) && int_of(*n) >= 0 ==> poly_power(
                self@,
                int_of(*n),
            ) == Ok::<Seq<TermModel>, Error>(repeated_product(self@, int_of(*n) as nat)),
    {
        proof {
            if !has_variable(self@) && int_of(*n) >= 0 {
                lemma_power_variable(self@, int_of(*n));
                if self.wf() {
                    lemma_power_is_product(self@, int_of(*n) as nat);
                }
            }
        }
        if big_is_negative(n) {
            return Err(Error::DomainError);
        }
        if big_is_zero(n) {
            return Ok(Polynomial::one());
        }
        let one = big_from_i64(1);
        let two = big_from_i64(2);
        let mut e = n.clone();
        let mut b = self.clone();
        let mut r = Polynomial::one();
        while big_lt(&one, &e)
            invariant
                int_of(e) >= 1,
                int_of(one) == 1,
                int_of(two) == 2,
                r.wf(),
                !has_variable(self@) && int_of(*n) >= 0 ==> poly_power(self@, int_of(*n)) is Ok,
                power_loop(r@, b@, int_of(e)) == poly_power(self@, int_of(*n)),
            decreases int_of(e),
        {
            if big_is_odd(&e) {
                match r.mul(&b) {
                    Ok(v) => {
                        r = v;
                    },
                    Err(x) => {
                        return Err(x);
                    },
                }
            }
            match b.mul(&b) {
                Ok(v) => {
                    b = v;
                },
                Err(x) => {
                    return Err(x);
                },
            }
            e = big_div_floor(&e, &two);
        }
        r.mul(&b)
    }
}

impl Power<BigInt> for Polynomial {
    fn power(&self, n: BigInt) -> (r: Result<Polynomial, Error>)
        ensures
            poly_result_is(r, poly_power(self@, int_of(n))),
            !has_variable(self@) && int_of(n) >= 0 ==> r is Ok,
    {
        self.power(&n)
    }
}

impl Power<i64> for Polynomial {
    fn power(&self, n: i64) -> (r: Result<Polynomial, Error>)
        ensures
            poly_result_is(r, poly_power(self@, n as int)),
            !has_variable(self@) && n >= 0 ==> r is Ok,
    {
        let e = big_from_i64(n);
        self.power(&e)
    }
}

impl Monomial {
    /// The monomial with `x` replaced by `polynomial`.
    pub fn eval_x_polynomial(&self, polynomial: &Polynomial) -> (r: Result<Polynomial, Error>)
        ensures
            poly_result_is(r, mono_eval_x_polynomial(self@, polynomial@)),
    {
        let t = Term {
            coef: big_from_i64(1),
            monomial: Monomial {
                xpow: big_from_i64(0),
                ypow: self.ypow.clone(),
                qpow: self.qpow.clone(),
                variable: self.variable,
            },
        }.to_pol();
        match polynomial.power(&self.xpow) {
            Ok(w) => w.mul(&t),
            Err(x) => Err(x),
        }
    }

    /// The monomial with `y` replaced by `polynomial`.
    pub fn eval_y_polynomial(&self, polynomial: &Polynomial) -> (r: Result<Polynomial, Error>)
        ensures
            poly_result_is(r, mono_eval_y_polynomial(self@, polynomial@)),
    {
        let t = Term {
            coef: big_from_i64(1),
            monomial: Monomial {
                xpow: self.xpow.clone(),
                ypow: big_from_i64(0),
                qpow: self.qpow.clone(),
                variable: self.variable,
            },
        }.to_pol();
        match polynomial.power(&self.ypow) {
            Ok(w) => w.mul(&t),
            Err(x) => Err(x),
        }
    }
}

impl Term {
    /// The term with `x` replaced by `polynomial`.
    pub fn eval_x_polynomial(&self, polynomial: &Polynomial) -> (r: Result<Polynomial, Error>)
        ensures
            poly_result_is(r, term_eval_x_polynomial(self@, polynomial@)),
    {
        let s = Term { coef: self.coef.clone(), monomial: Monomial::default() }.to_pol();
        match self.monomial.eval_x_polynomial(polynomial) {
            Ok(w) => s.mul(&w),
            Err(x) => Err(x),
        }
    }

    /// The term with `y` replaced by `polynomial`.
    pub fn eval_y_polynomial(&self, polynomial: &Polynomial) -> (r: Result<Polynomial, Error>)
        ensures
            poly_result_is(r, term_eval_y_polynomial(self@, polynomial@)),
    {
        let s = Term { coef: self.coef.clone(), monomial: Monomial::default() }.to_pol();
        match self.monomial.eval_y_polynomial(polynomial) {
            Ok(w) => s.mul(&w),
            Err(x) => Err(x),
        }
    }
}

/// The polynomial `x^3 + a x + b`.
pub fn curve_polynomial_of(a: &BigInt, b: &BigInt) -> (r: Polynomial)
    ensures
        r.wf(),
        r@ == curve_polynomial(int_of(*a), int_of(*b)),
{
    let ghost list = curve_terms(int_of(*a), int_of(*b));
    let mut pol = Polynomial::new();
    proof {
        assert(list.take(0) =~= Seq::<TermModel>::empty());
        lemma_coeff_take_step(list, 0);
        lemma_coeff_take_step(list, 1);
        lemma_coeff_take_step(list, 2);
        assert(list.take(3) =~= list);
    }
    pol.add_term(
        Term {
            coef: big_from_i64(1),
            monomial: Monomial {
                xpow: big_from_i64(3),
                ypow: big_from_i64(0),
                qpow: big_from_i64(0),
                variable: SubscriptedVariable::new(),
            },
        },
    );
    assert forall|m: MonomialModel| #[trigger] coeff(pol@, m) == coeff(list.take(1), m) by {
        assert(coeff(list.take(0), m) == 0);
        assert(coeff(Seq::<TermModel>::empty(), m) == 0);
        assert(coeff(list.take(0int + 1), m) == coeff(list.take(0), m) + delta(list[0], m));
    }
    pol.add_term(
        Term {
            coef: a.clone(),
            monomial: Monomial {
                xpow: big_from_i64(1),
                ypow: big_from_i64(0),
                qpow: big_from_i64(0),
                variable: SubscriptedVariable::new(),
            },
        },
    );
    assert forall|m: MonomialModel| #[trigger] coeff(pol@, m) == coeff(list.take(2), m) by {
        assert(coeff(list.take(1int + 1), m) == coeff(list.take(1), m) + delta(list[1], m));
    }
    pol.add_term(Term { coef: b.clone(), monomial: Monomial::default() });
    assert forall|m: MonomialModel| #[trigger] coeff(pol@, m) == coeff(list, m) by {
        assert(coeff(list.take(2int + 1), m) == coeff(list.take(2), m) + delta(list[2], m));
    }
    proof {
        lemma_normalize_is(list, pol@);
    }
    pol
}

impl Polynomial {
    /// `self^2`.
    pub fn square(&self) -> (r: Result<Polynomial, Error>)
        ensures
            poly_result_is(r, poly_power(self@, 2)),
    {
        self.power(2i64)
    }

    /// `self^3`.
    pub fn cube(&self) -> (r: Result<Polynomial, Error>)
        ensures
            poly_result_is(r, poly_power(self@, 3)),
    {
        self.power(3i64)
    }

    /// `self * other (mod p)`.
    pub fn mul_modulo(&self, other: &Polynomial, p: &BigInt) -> (r: Result<Polynomial, Error>)
        ensures
            poly_result_is(r, poly_mul_mod(self@, other@, int_of(*p))),
    {
        match self.mul(other) {
            Ok(c) => c.modulo(p),
            Err(x) => Err(x),
        }
    }

    /// `self^n (mod p)` by squaring, reduced after every multiplication.
    pub fn power_modulo(&self, n: &BigInt, p: &BigInt) -> (r: Result<Polynomial, Error>)
        ensures
            poly_result_is(r, poly_power_modulo(self@, int_of(*n), int_of(*p))),
            !has_variable(self@) && int_of(*n) >= 0 && int_of(*p) >= 2 ==> r is Ok,
    {
        proof {
            if !has_variable(self@) && int_of(*n) >= 0 && int_of(*p) >= 2 {
                lemma_power_modulo_variable(self@, int_of(*n), int_of(*p));
            }
        }
        let one = big_from_i64(1);
        if big_le(p, &one) || big_is_negative(n) {
            return Err(Error::DomainError);
        }
        if big_is_zero(n) {
            return Polynomial::one().modulo(p);
        }
        let two = big_from_i64(2);
        let mut e = n.clone();
        let mut b = match self.modulo(p) {
            Ok(v) => v,
            Err(x) => {
                return Err(x);
            },
        };
        let mut r = Polynomial::one();
        while big_lt(&one, &e)
            invariant
                int_of(e) >= 1,
                int_of(one) == 1,
                int_of(two) == 2,
                r.wf(),
                !has_variable(self@) ==> poly_power_modulo(self@, int_of(*n), int_of(*p)) is Ok,
                power_modulo_loop(r@, b@, int_of(e), int_of(*p)) == poly_power_modulo(
                    self@,
                    int_of(*n),
                    int_of(*p),
                ),
            decreases int_of(e),
        {
            if big_is_odd(&e) {
                match r.mul_modulo(&b, p) {
                    Ok(v) => {
                        r = v;
                    },
                    Err(x) => {
                        return Err(x);
                    },
                }
            }
            match b.mul_modulo(&b, p) {
                Ok(v) => {
                    b = v;
                },
                Err(x) => {
                    return Err(x);
                },
            }
            e = big_div_floor(&e, &two);
        }
        r.mul_modulo(&b, p)
    }

    /// `self` multiplied `n` times onto `1`, without the terms above
    /// `q^order` after each multiplication.
    pub fn power_omit_high_order_q(&self, n: i64, order: i64) -> (r: Result<Polynomial, Error>)
        ensures
            poly_result_is(r, poly_power_omit_high_order_q(self@, n as int, order as int)),
            q_series(self@) ==> r is Ok,
    {
        proof {
            if q_series(self@) {
                lemma_power_omit_q_series(self@, n as int, order as int);
            }
        }
        let mut pol = Polynomial::one();
        let mut i: i64 = 0;
        while i < n
            invariant
                0 <= i,
                n >= 0 ==> i <= n,
                n < 0 ==> i == 0,
                pol.wf(),
                q_series(self@) ==> poly_power_omit_high_order_q(self@, n as int, order as int)
                    is Ok,
                poly_power_omit_high_order_q(self@, i as int, order as int) == Ok::<
                    Seq<TermModel>,
                    Error,
                >(pol@),
            decreases n - i,
        {
            match pol.mul(self) {
                Ok(v) => match v.omit_high_order_q(order) {
                    Ok(w) => {
                        pol = w;
                    },
                    Err(x) => {
                        proof {
                            lemma_power_omit_error(self@, i as int + 1, n as int, order as int);
                        }
                        return Err(x);
                    },
                },
                Err(x) => {
                    proof {
                        lemma_power_omit_error(self@, i as int + 1, n as int, order as int);
                    }
                    return Err(x);
                },
            }
            i = i + 1;
        }
        Ok(pol)
    }

    /// The remainder of the long division of `self` by `other` modulo the
    /// prime `p`, for polynomials in `x` alone.
    pub fn polynomial_modular(&self, other: &Polynomial, p: &BigInt) -> (r: Result<
        Polynomial,
        Error,
    >)
        requires
            self.wf(),
            other.wf(),
        ensures
            poly_result_is(r, poly_remainder(self@, other@, int_of(*p))),
            r is Ok <==> division_domain(self@, other@, int_of(*p)) is None && other@.len() > 0
                && inverse_spec(highest_term(other@).coef, int_of(*p)) is Ok,
    {
        proof {
            lemma_remainder(self@, other@, int_of(*p));
        }
        match division_check(self, other, p) {
            Some(e) => {
                return Err(e);
            },
            None => {},
        }
        if other.is_zero() {
            return Err(Error::DomainError);
        }
        let oh = other.highest_term_x();
        let inv = match oh.coef.inverse(p) {
            Ok(v) => v,
            Err(x) => {
                return Err(x);
            },
        };
        proof {
            lemma_inverse_is_inverse(oh@.coef, int_of(*p));
        }
        let mut r = self.clone();
        let mut done = false;
        while !done
            invariant
                r.wf(),
                division_ready(r@, other@, int_of(inv), int_of(*p)),
                oh@ == highest_term(other@),
                done ==> r@.len() == 0 || degree(r@) < degree(other@),
                division_loop(r@, other@, int_of(inv), int_of(*p)) == poly_remainder(
                    self@,
                    other@,
                    int_of(*p),
                ),
            decreases
                2 * (if r@.len() == 0 || degree(r@) < degree(other@) {
                    0
                } else {
                    degree(r@) - degree(other@) + 1
                }) + (if done {
                    0int
                } else {
                    1int
                }),
        {
            let rh = r.highest_term_x();
            if r.is_zero() || big_lt(&rh.monomial.xpow, &oh.monomial.xpow) {
                done = true;
            } else {
                proof {
                    lemma_division_step(r@, other@, int_of(inv), int_of(*p));
                }
                let c = big_mul(&rh.coef, &inv);
                let q = Term {
                    coef: big_mod_floor(&c, p),
                    monomial: Monomial {
                        xpow: big_sub(&rh.monomial.xpow, &oh.monomial.xpow),
                        ypow: big_from_i64(0),
                        qpow: big_from_i64(0),
                        variable: SubscriptedVariable::new(),
                    },
                };
                assert(q@ == division_factor(r@, other@, int_of(inv), int_of(*p)));
                match q.to_pol().mul_modulo(other, p) {
                    Ok(d) => match r.sub(&d).modulo(p) {
                        Ok(r2) => {
                            r = r2;
                        },
                        Err(_) => {
                            assert(false);
                        },
                    },
                    Err(_) => {
                        assert(false);
                    },
                }
            }
        }
        r.modulo(p)
    }

    /// `self` times the inverse of its leading coefficient, modulo `p`.
    pub fn to_monic(&self, p: &BigInt) -> (r: Result<Polynomial, Error>)
        requires
            self.wf(),
        ensures
            poly_result_is(r, poly_monic(self@, int_of(*p))),
    {
        if self.is_zero() {
            return Ok(self.clone());
        }
        let s = self.highest_term_x();
        match s.coef.inverse(p) {
            Ok(inv) => {
                let t = Term { coef: inv, monomial: Monomial::default() }.to_pol();
                self.mul_modulo(&t, p)
            },
            Err(x) => Err(x),
        }
    }

    /// The monic greatest common divisor of `self` and `other` modulo the
    /// prime `p`, by the algorithm of Euclid, for polynomials in `x` alone.
    pub fn gcd(&self, other: &Polynomial, p: &BigInt) -> (r: Result<Polynomial, Error>)
        requires
            self.wf(),
            other.wf(),
        ensures
            poly_result_is(r, poly_gcd(self@, other@, int_of(*p))),
            is_prime(int_of(*p)) && plain(self@) && plain(other@) && reduced(self@, int_of(*p))
                && reduced(other@, int_of(*p)) && self@.len() > 0 && other@.len() > 0 ==> r is Ok,
    {
        proof {
            if is_prime(int_of(*p)) && plain(self@) && plain(other@) && reduced(self@, int_of(*p))
                && reduced(other@, int_of(*p)) && self@.len() > 0 && other@.len() > 0 {
                lemma_gcd_modulo_prime(self@, other@, int_of(*p));
            }
        }
        match division_check(self, other, p) {
            Some(e) => {
                return Err(e);
            },
            None => {},
        }
        let mut a = self.clone();
        let mut b = other.clone();
        loop
            invariant
                a.wf(),
                b.wf(),
                plain(a@),
                plain(b@),
                is_prime(int_of(*p)) && plain(self@) && plain(other@) && reduced(
                    self@,
                    int_of(*p),
                ) && reduced(other@, int_of(*p)) && self@.len() > 0 && other@.len() > 0
                    ==> poly_gcd(self@, other@, int_of(*p)) is Ok,
                euclid_loop(a@, b@, int_of(*p)) == poly_gcd(self@, other@, int_of(*p)),
            decreases euclid_measure(a@, b@),
        {
            let s = a.highest_term_x();
            let o = b.highest_term_x();
            if big_lt(&s.monomial.xpow, &o.monomial.xpow) {
                let t = a;
                a = b;
                b = t;
            } else {
                proof {
                    lemma_remainder(a@, b@, int_of(*p));
                }
                let r = match a.polynomial_modular(&b, p) {
                    Ok(v) => v,
                    Err(x) => {
                        return Err(x);
                    },
                };
                if r.is_zero() {
                    return b.to_monic(p);
                }
                a = b;
                b = r;
            }
        }
    }

    /// Whether the greatest common divisor of `self` and `other` modulo `p`
    /// is the constant polynomial `1`.
    pub fn is_gcd_one(&self, other: &Polynomial, p: &BigInt) -> (r: Result<bool, Error>)
        requires
            self.wf(),
            other.wf(),
        ensures
            r == poly_is_gcd_one(self@, other@, int_of(*p)),
    {
        match self.gcd(other, p) {
            Ok(g) => {
                if g.len() != 1 {
                    Ok(false)
                } else {
                    let t = g.term(0);
                    let one = big_from_i64(1);
                    let is_one = big_eq(&t.coef, &one) && big_is_zero(&t.monomial.xpow)
                        && big_is_zero(&t.monomial.ypow) && big_is_zero(&t.monomial.qpow)
                        && t.monomial.variable.empty;
                    proof {
                        if is_one {
                            assert(g@ =~= poly_one());
                        } else {
                            assert(poly_one()[0] == constant_term(1));
                        }
                    }
                    Ok(is_one)
                }
            },
            Err(x) => Err(x),
        }
    }

    /// Reduction by `y^2 = x^3 + a x + b`.
    pub fn reduction(&self, a: &BigInt, b: &BigInt) -> (r: Polynomial)
        ensures
            r.wf(),
            poly_reduction(self@, int_of(*a), int_of(*b)) == Ok::<Seq<TermModel>, Error>(r@),
    {
        let curve = curve_polynomial_of(a, b);
        let two = big_from_i64(2);
        let n = self.len();
        let mut t = Polynomial::new();
        let mut i: usize = 0;
        proof {
            assert(self@.take(0) =~= Seq::<TermModel>::empty());
        }
        while i < n
            invariant
                0 <= i <= n,
                n == self@.len(),
                int_of(two) == 2,
                curve.wf(),
                curve@ == curve_polynomial(int_of(*a), int_of(*b)),
                t.wf(),
                poly_reduction(self@.take(i as int), int_of(*a), int_of(*b)) == Ok::<
                    Seq<TermModel>,
                    Error,
                >(t@),
            decreases n - i,
        {
            let u = self.term(i);
            proof {
                assert(self@.take(i + 1).drop_last() =~= self@.take(i as int));
                assert(self@.take(i + 1).last() == self@[i as int]);
                lemma_reduction_defined(self@.take(i + 1), int_of(*a), int_of(*b));
            }
            let e = if big_le(&two, &u.monomial.ypow) {
                let yy = big_div_floor(&u.monomial.ypow, &two);
                let rest = Term {
                    coef: u.coef.clone(),
                    monomial: Monomial {
                        xpow: u.monomial.xpow.clone(),
                        ypow: big_sub(&u.monomial.ypow, &big_mul(&two, &yy)),
                        qpow: u.monomial.qpow.clone(),
                        variable: u.monomial.variable,
                    },
                };
                assert(rest@ == term_odd_y(u@));
                match curve.power(&yy) {
                    Ok(ee) => rest.to_pol().mul(&ee),
                    Err(x) => Err(x),
                }
            } else {
                Ok(u.to_pol())
            };
            match e {
                Ok(v) => {
                    t.add_assign(&v);
                },
                Err(_) => {
                    assert(false);
                },
            }
            i = i + 1;
        }
        proof {
            assert(self@.take(n as int) =~= self@);
        }
        t
    }

    /// Reduction by `y^2 = x^3 + a x + b (mod p)`.
    pub fn reduction_modular(&self, a: &BigInt, b: &BigInt, p: &BigInt) -> (r: Result<
        Polynomial,
        Error,
    >)
        ensures
            poly_result_is(r, poly_reduction_modular(self@, int_of(*a), int_of(*b), int_of(*p))),
            r is Ok <==> int_of(*p) >= 2,
    {
        let one = big_from_i64(1);
        if big_le(p, &one) {
            return Err(Error::DomainError);
        }
        proof {
            lemma_reduction_modular_defined(self@, int_of(*a), int_of(*b), int_of(*p));
        }
        let curve = curve_polynomial_of(a, b);
        let two = big_from_i64(2);
        let n = self.len();
        let mut t = Polynomial::new();
        let mut i: usize = 0;
        proof {
            assert(self@.take(0) =~= Seq::<TermModel>::empty());
        }
        while i < n
            invariant
                0 <= i <= n,
                n == self@.len(),
                int_of(two) == 2,
                int_of(*p) >= 2,
                curve.wf(),
                curve@ == curve_polynomial(int_of(*a), int_of(*b)),
                t.wf(),
                reduction_modular_sum(self@.take(i as int), int_of(*a), int_of(*b), int_of(*p))
                    == Ok::<Seq<TermModel>, Error>(t@),
            decreases n - i,
        {
            let u = self.term(i);
            proof {
                assert(self@.take(i + 1).drop_last() =~= self@.take(i as int));
                assert(self@.take(i + 1).last() == self@[i as int]);
                lemma_reduction_modular_sum_defined(
                    self@.take(i + 1),
                    int_of(*a),
                    int_of(*b),
                    int_of(*p),
                );
            }
            let e = if big_le(&two, &u.monomial.ypow) {
                let yy = big_div_floor(&u.monomial.ypow, &two);
                let rest = Term {
                    coef: u.coef.clone(),
                    monomial: Monomial {
                        xpow: u.monomial.xpow.clone(),
                        ypow: big_sub(&u.monomial.ypow, &big_mul(&two, &yy)),
                        qpow: u.monomial.qpow.clone(),
                        variable: u.monomial.variable,
                    },
                };
                assert(rest@ == term_odd_y(u@));
                match curve.power_modulo(&yy, p) {
                    Ok(ee) => rest.to_pol().mul(&ee),
                    Err(x) => Err(x),
                }
            } else {
                Ok(u.to_pol())
            };
            match e {
                Ok(v) => {
                    t.add_assign(&v);
                },
                Err(_) => {
                    assert(false);
                },
            }
            i = i + 1;
        }
        proof {
            assert(self@.take(n as int) =~= self@);
        }
        t.modulo(p)
    }

    /// The polynomial with `x` replaced by `polynomial`.
    pub fn eval_x_polynomial(&self, polynomial: &Polynomial) -> (r: Result<Polynomial, Error>)
        ensures
            poly_result_is(r, poly_eval_x_polynomial(self@, polynomial@)),
    {
        let n = self.len();
        let mut t = Polynomial::new();
        let mut i: usize = 0;
        proof {
            assert(self@.take(0) =~= Seq::<TermModel>::empty());
        }
        while i < n
            invariant
                0 <= i <= n,
                n == self@.len(),
                t.wf(),
                poly_eval_x_polynomial(self@.take(i as int), polynomial@) == Ok::<
                    Seq<TermModel>,
                    Error,
                >(t@),
            decreases n - i,
        {
            proof {
                assert(self@.take(i + 1).drop_last() =~= self@.take(i as int));
                assert(self@.take(i + 1).last() == self@[i as int]);
            }
            match self.term(i).eval_x_polynomial(polynomial) {
                Ok(v) => {
                    t.add_assign(&v);
                },
                Err(x) => {
                    proof {
                        lemma_eval_x_polynomial_error(self@, i as int + 1, polynomial@);
                    }
                    return Err(x);
                },
            }
            i = i + 1;
        }
        proof {
            assert(self@.take(n as int) =~= self@);
        }
        Ok(t)
    }

    /// The polynomial with `y` replaced by `polynomial`.
    pub fn eval_y_polynomial(&self, polynomial: &Polynomial) -> (r: Result<Polynomial, Error>)
        ensures
            poly_result_is(r, poly_eval_y_polynomial(self@, polynomial@)),
    {
        let n = self.len();
        let mut t = Polynomial::new();
        let mut i: usize = 0;
        proof {
            assert(self@.take(0) =~= Seq::<TermModel>::empty());
        }
        while i < n
            invariant
                0 <= i <= n,
                n == self@.len(),
                t.wf(),
                poly_eval_y_polynomial(self@.take(i as int), polynomial@) == Ok::<
                    Seq<TermModel>,
                    Error,
                >(t@),
            decreases n - i,
        {
            proof {
                assert(self@.take(i + 1).drop_last() =~= self@.take(i as int));
                assert(self@.take(i + 1).last() == self@[i as int]);
            }
            match self.term(i).eval_y_polynomial(polynomial) {
                Ok(v) => {
                    t.add_assign(&v);
                },
                Err(x) => {
                    proof {
                        lemma_eval_y_polynomial_error(self@, i as int + 1, polynomial@);
                    }
                    return Err(x);
                },
            }
            i = i + 1;
        }
        proof {
            assert(self@.take(n as int) =~= self@);
        }
        Ok(t)
    }
}

/// The check of the division domain.
fn division_check(a: &Polynomial, g: &Polynomial, p: &BigInt) -> (r: Option<Error>)
    ensures
        r == division_domain(a@, g@, int_of(*p)),
{
    if a.has_y() || a.has_q() || a.has_variable() || g.has_y() || g.has_q() || g.has_variable() {
        return Some(Error::NotUnivariate);
    }
    let one = big_from_i64(1);
    if a.has_negative_x() || g.has_negative_x() || big_le(p, &one) {
        return Some(Error::DomainError);
    }
    None
}

/// An error in a prefix of the multiplications is the error of the whole.
proof fn lemma_power_omit_error(a: Seq<TermModel>, k: int, n: int, order: int)
    requires
        1 <= k <= n,
        poly_power_omit_high_order_q(a, k, order) is Err,
    ensures
        poly_power_omit_high_order_q(a, n, order) == poly_power_omit_high_order_q(a, k, order),
    decreases n - k,
{
    if k < n {
        lemma_power_omit_error(a, k, n - 1, order);
    }
}

/// An error in a prefix of the terms is the error of the whole.
proof fn lemma_eval_x_polynomial_error(s: Seq<TermModel>, k: int, f: Seq<TermModel>)
    requires
        0 <= k <= s.len(),
        poly_eval_x_polynomial(s.take(k), f) is Err,
    ensures
        poly_eval_x_polynomial(s, f) == poly_eval_x_polynomial(s.take(k), f),
    decreases s.len() - k,
{
    if k < s.len() {
        assert(s.drop_last().take(k) =~= s.take(k));
        lemma_eval_x_polynomial_error(s.drop_last(), k, f);
    } else {
        assert(s.take(k) =~= s);
    }
}

/// An error in a prefix of the terms is the error of the whole.
proof fn lemma_eval_y_polynomial_error(s: Seq<TermModel>, k: int, f: Seq<TermModel>)
    requires
        0 <= k <= s.len(),
        poly_eval_y_polynomial(s.take(k), f) is Err,
    ensures
        poly_eval_y_polynomial(s, f) == poly_eval_y_polynomial(s.take(k), f),
    decreases s.len() - k,
{
    if k < s.len() {
        assert(s.drop_last().take(k) =~= s.take(k));
        lemma_eval_y_polynomial_error(s.drop_last(), k, f);
    } else {
        assert(s.take(k) =~= s);
    }
}

} // verus!
