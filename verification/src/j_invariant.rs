use crate::algebra::{poly_mul, poly_omit_high_order_q, poly_power};
use crate::bigint::Power;
use crate::delta::{
    delta1_inverse, delta1_inverse_spec, lemma_delta1_inverse_defined, q_power, q_term,
};
use crate::eisenstein::{eisenstein4, eisenstein4_spec, lemma_eisenstein4_q_series};
use crate::error::Error;
use crate::model::TermModel;
use crate::polynomial::Polynomial;
use crate::support::{
    lemma_mul_q_series, lemma_omit_q_series, lemma_power_q_series, lemma_term_q_series, q_series,
};
use vstd::prelude::*;

verus! {

/// `q j(q)` up to `q^order`: the cube of `E_4` over `delta1`, both as
/// series up to `q^order`.
pub open spec fn j_invariant1_spec(order: int) -> Result<Seq<TermModel>, Error> {
    match delta1_inverse_spec(order) {
        Ok(di) => match poly_power(eisenstein4_spec(order), 3) {
            Ok(c) => match poly_omit_high_order_q(c, order) {
                Ok(e4) => match poly_mul(di, e4) {
                    Ok(j) => poly_omit_high_order_q(j, order),
                    Err(x) => Err(x),
                },
                Err(x) => Err(x),
            },
            Err(x) => Err(x),
        },
        Err(x) => Err(x),
    }
}

/// `j(q) = q^-1 + 744 + 196884 q + ...` up to `q^order`.
pub open spec fn j_invariant_spec(order: int) -> Result<Seq<TermModel>, Error> {
    match j_invariant1_spec(order + 1) {
        Ok(j1) => poly_mul(j1, crate::algebra::poly_of_term(q_term(-1))),
        Err(x) => Err(x),
    }
}

/// The series `q j(q)` is defined for every order, and is a series in `q`.
pub proof fn lemma_j_invariant1_defined(order: int)
    ensures
        j_invariant1_spec(order) is Ok,
        q_series(j_invariant1_spec(order)->Ok_0),
{
    lemma_delta1_inverse_defined(order);
    lemma_eisenstein4_q_series(order);
    lemma_power_q_series(eisenstein4_spec(order), 3);
    let c = poly_power(eisenstein4_spec(order), 3)->Ok_0;
    lemma_omit_q_series(c, order);
    let e4 = poly_omit_high_order_q(c, order)->Ok_0;
    let di = delta1_inverse_spec(order)->Ok_0;
    lemma_mul_q_series(di, e4);
    lemma_omit_q_series(poly_mul(di, e4)->Ok_0, order);
}

/// The series `j(q)` is defined for every order, and is a series in `q`.
pub proof fn lemma_j_invariant_defined(order: int)
    ensures
        j_invariant_spec(order) is Ok,
        q_series(j_invariant_spec(order)->Ok_0),
{
    lemma_j_invariant1_defined(order + 1);
    lemma_term_q_series(q_term(-1));
    lemma_mul_q_series(
        j_invariant1_spec(order + 1)->Ok_0,
        crate::algebra::poly_of_term(q_term(-1)),
    );
}

/// `j_invariant * q`.
pub fn j_invariant1(order: i64) -> (r: Polynomial)
    ensures
        r.wf(),
        j_invariant1_spec(order as int) == Ok::<Seq<TermModel>, Error>(r@),
{
    proof {
        lemma_j_invariant1_defined(order as int);
    }
    let di = delta1_inverse(order);
    let j = match eisenstein4(order).power(3i64) {
        Ok(c) => match c.omit_high_order_q(order) {
            Ok(e4) => match di.mul(&e4) {
                Ok(j) => j.omit_high_order_q(order),
                Err(x) => Err(x),
            },
            Err(x) => Err(x),
        },
        Err(x) => Err(x),
    };
    match j {
        Ok(v) => v,
        Err(_) => {
            assert(false);
            Polynomial::new()
        },
    }
}

/// The q-expansion of the j-invariant up to `q^order`.
pub fn j_invariant(order: i64) -> (r: Polynomial)
    requires
        order < i64::MAX,
    ensures
        r.wf(),
        j_invariant_spec(order as int) == Ok::<Seq<TermModel>, Error>(r@),
{
    proof {
        lemma_j_invariant_defined(order as int);
    }
    let j1 = j_invariant1(order + 1);
    let t = q_power(-1);
    match j1.mul(&t) {
        Ok(v) => v,
        Err(_) => {
            assert(false);
            Polynomial::new()
        },
    }
}

} // verus!
