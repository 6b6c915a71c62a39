use crate::algebra::{
    poly_add, poly_mul, poly_of_term, poly_omit_high_order_q, poly_one,
    poly_power_omit_high_order_q, poly_sub,
};
use crate::error::Error;
use crate::integer::big_from_i64;
use crate::model::{MonomialModel, TermModel};
use crate::polynomial::Polynomial;
use crate::subscripted_variable::SubscriptedVariable;
use crate::support::{
    lemma_add_q_series, lemma_mul_q_series, lemma_omit_q_series, lemma_one_q_series,
    lemma_power_omit_q_series, lemma_sub_q_series, lemma_term_q_series, q_series,
};
use crate::term::{Monomial, Term};
use vstd::prelude::*;

verus! {

/// The term `q^n`.
pub open spec fn q_term(n: int) -> TermModel {
    TermModel { coef: 1, mono: MonomialModel { x: 0, y: 0, q: n, var: None } }
}

/// The factor `(1 - q^n)^24` up to `q^order`.
pub open spec fn delta1_factor(n: int, order: int) -> Result<Seq<TermModel>, Error> {
    poly_power_omit_high_order_q(poly_sub(poly_one(), poly_of_term(q_term(n))), 24, order)
}

/// The product `pol * (1 - q^n)^24 * ... * (1 - q^order)^24`, cut off after
/// `q^order` at every factor.
pub open spec fn delta1_from(pol: Seq<TermModel>, n: int, order: int) -> Result<
    Seq<TermModel>,
    Error,
>
    decreases order - n + 1,
{
    if n > order {
        Ok(pol)
    } else {
        match delta1_factor(n, order) {
            Ok(u) => match poly_mul(pol, u) {
                Ok(v) => match poly_omit_high_order_q(v, order) {
                    Ok(w) => delta1_from(w, n + 1, order),
                    Err(x) => Err(x),
                },
                Err(x) => Err(x),
            },
            Err(x) => Err(x),
        }
    }
}

/// `(1-q)^24 * (1-q^2)^24 * .. * (1-q^order)^24` up to `q^order`.
pub open spec fn delta1_spec(order: int) -> Result<Seq<TermModel>, Error> {
    delta1_from(poly_one(), 1, order)
}

/// The sum `pol + a^n + ... + a^order`, every power cut off after `q^order`.
pub open spec fn geometric_from(pol: Seq<TermModel>, a: Seq<TermModel>, n: int, order: int) -> Result<
    Seq<TermModel>,
    Error,
>
    decreases order - n + 1,
{
    if n > order {
        Ok(pol)
    } else {
        match poly_power_omit_high_order_q(a, n, order) {
            Ok(t) => geometric_from(poly_add(pol, t), a, n + 1, order),
            Err(x) => Err(x),
        }
    }
}

/// The inverse of `delta1(order)` as a series up to `q^order`:
/// `1/d = 1 + (1-d) + (1-d)^2 + ...`.
pub open spec fn delta1_inverse_spec(order: int) -> Result<Seq<TermModel>, Error> {
    match delta1_spec(order) {
        Ok(d) => geometric_from(poly_one(), poly_sub(poly_one(), d), 1, order),
        Err(x) => Err(x),
    }
}

proof fn lemma_delta1_from(pol: Seq<TermModel>, n: int, order: int)
    requires
        q_series(pol),
    ensures
        delta1_from(pol, n, order) is Ok,
        q_series(delta1_from(pol, n, order)->Ok_0),
    decreases order - n + 1,
{
    if n <= order {
        lemma_one_q_series();
        lemma_term_q_series(q_term(n));
        lemma_sub_q_series(poly_one(), poly_of_term(q_term(n)));
        lemma_power_omit_q_series(poly_sub(poly_one(), poly_of_term(q_term(n))), 24, order);
        let u = delta1_factor(n, order)->Ok_0;
        lemma_mul_q_series(pol, u);
        lemma_omit_q_series(poly_mul(pol, u)->Ok_0, order);
        lemma_delta1_from(poly_omit_high_order_q(poly_mul(pol, u)->Ok_0, order)->Ok_0, n + 1, order);
    }
}

/// The product `delta1` is defined for every order, and is a series in `q`.
pub proof fn lemma_delta1_defined(order: int)
    ensures
        delta1_spec(order) is Ok,
        q_series(delta1_spec(order)->Ok_0),
{
    lemma_one_q_series();
    lemma_delta1_from(poly_one(), 1, order);
}

proof fn lemma_geometric_from(pol: Seq<TermModel>, a: Seq<TermModel>, n: int, order: int)
    requires
        q_series(pol),
        q_series(a),
    ensures
        geometric_from(pol, a, n, order) is Ok,
        q_series(geometric_from(pol, a, n, order)->Ok_0),
    decreases order - n + 1,
{
    if n <= order {
        lemma_power_omit_q_series(a, n, order);
        let t = poly_power_omit_high_order_q(a, n, order)->Ok_0;
        lemma_add_q_series(pol, t);
        lemma_geometric_from(poly_add(pol, t), a, n + 1, order);
    }
}

/// The inverse of `delta1` is defined for every order, and is a series in
/// `q`.
pub proof fn lemma_delta1_inverse_defined(order: int)
    ensures
        delta1_inverse_spec(order) is Ok,
        q_series(delta1_inverse_spec(order)->Ok_0),
{
    lemma_delta1_defined(order);
    lemma_one_q_series();
    lemma_sub_q_series(poly_one(), delta1_spec(order)->Ok_0);
    lemma_geometric_from(poly_one(), poly_sub(poly_one(), delta1_spec(order)->Ok_0), 1, order);
}

/// The polynomial `q^n`.
pub fn q_power(n: i64) -> (r: Polynomial)
    ensures
        r.wf(),
        r@ == poly_of_term(q_term(n as int)),
{
    Term {
        coef: big_from_i64(1),
        monomial: Monomial {
            xpow: big_from_i64(0),
            ypow: big_from_i64(0),
            qpow: big_from_i64(n),
            variable: SubscriptedVariable::new(),
        },
    }.to_pol()
}

/// `(1-q)^24 * (1-q^2)^24 * .. * (1-q^order)^24` up to `q^order`.
pub fn delta1(order: i64) -> (r: Polynomial)
    ensures
        r.wf(),
        delta1_spec(order as int) == Ok::<Seq<TermModel>, Error>(r@),
{
    proof {
        lemma_delta1_defined(order as int);
    }
    let one = Polynomial::one();
    let mut pol = Polynomial::one();
    let mut n: i64 = 0;
    while n < order
        invariant
            0 <= n,
            one.wf(),
            one@ == poly_one(),
            pol.wf(),
            delta1_spec(order as int) is Ok,
            delta1_from(pol@, n as int + 1, order as int) == delta1_spec(order as int),
        decreases order - n,
    {
        n = n + 1;
        let t = q_power(n);
        let step = match one.sub(&t).power_omit_high_order_q(24, order) {
            Ok(u) => match pol.mul(&u) {
                Ok(v) => v.omit_high_order_q(order),
                Err(x) => Err(x),
            },
            Err(x) => Err(x),
        };
        match step {
            Ok(v) => {
                pol = v;
            },
            Err(_) => {
                assert(false);
            },
        }
    }
    pol
}

/// The inverse of `delta1(order)` as a series up to `q^order`.
pub fn delta1_inverse(order: i64) -> (r: Polynomial)
    ensures
        r.wf(),
        delta1_inverse_spec(order as int) == Ok::<Seq<TermModel>, Error>(r@),
{
    proof {
        lemma_delta1_inverse_defined(order as int);
    }
    let d = delta1(order);
    let a = Polynomial::one().sub(&d);
    let mut pol = Polynomial::one();
    let mut n: i64 = 0;
    while n < order
        invariant
            0 <= n,
            pol.wf(),
            delta1_inverse_spec(order as int) is Ok,
            geometric_from(pol@, a@, n as int + 1, order as int) == delta1_inverse_spec(
                order as int,
            ),
        decreases order - n,
    {
        n = n + 1;
        match a.power_omit_high_order_q(n, order) {
            Ok(t) => {
                pol.add_assign(&t);
            },
            Err(_) => {
                assert(false);
            },
        }
    }
    pol
}

} // verus!
