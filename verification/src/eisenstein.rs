use crate::algebra::{poly_add, poly_of_term, poly_one};
use crate::divisor::{sigma_divisor, sigma_spec};
use crate::integer::{big_from_i64, big_mul};
use crate::model::{MonomialModel, TermModel};
use crate::polynomial::Polynomial;
use crate::subscripted_variable::SubscriptedVariable;
use crate::support::{lemma_add_q_series, lemma_one_q_series, lemma_term_q_series, q_series};
use crate::term::{Monomial, Term};
use vstd::prelude::*;

verus! {

/// The term `240 sigma_3(n) q^n` of the Eisenstein series.
pub open spec fn eisenstein4_term(n: int) -> TermModel {
    TermModel { coef: 240 * sigma_spec(n, 3), mono: MonomialModel { x: 0, y: 0, q: n, var: None } }
}

/// The Eisenstein series `E_4(q) = 1 + 240 sum sigma_3(n) q^n` up to
/// `q^order`.
pub open spec fn eisenstein4_spec(order: int) -> Seq<TermModel>
    decreases order,
{
    if order <= 0 {
        poly_one()
    } else {
        poly_add(eisenstein4_spec(order - 1), poly_of_term(eisenstein4_term(order)))
    }
}

/// The Eisenstein series is a series in `q`.
pub proof fn lemma_eisenstein4_q_series(order: int)
    ensures
        q_series(eisenstein4_spec(order)),
    decreases order,
{
    lemma_one_q_series();
    if order > 0 {
        lemma_eisenstein4_q_series(order - 1);
        lemma_term_q_series(eisenstein4_term(order));
        lemma_add_q_series(eisenstein4_spec(order - 1), poly_of_term(eisenstein4_term(order)));
    }
}

/// `E_4(q)` up to `q^max_q_order`.
pub fn eisenstein4(max_q_order: i64) -> (r: Polynomial)
    ensures
        r.wf(),
        r@ == eisenstein4_spec(max_q_order as int),
{
    let mut pol = Polynomial::one();
    let mut n: i64 = 0;
    while n < max_q_order
        invariant
            0 <= n,
            max_q_order >= 0 ==> n <= max_q_order,
            max_q_order < 0 ==> n == 0,
            pol.wf(),
            pol@ == eisenstein4_spec(n as int),
        decreases max_q_order - n,
    {
        n = n + 1;
        let sigma = sigma_divisor(n, 3);
        let t = Term {
            coef: big_mul(&big_from_i64(240), &sigma),
            monomial: Monomial {
                xpow: big_from_i64(0),
                ypow: big_from_i64(0),
                qpow: big_from_i64(n),
                variable: SubscriptedVariable::new(),
            },
        }.to_pol();
        pol.add_assign(&t);
    }
    pol
}

} // verus!
