use crate::algebra::{poly_degree_x, poly_eval_x, poly_eval_y, poly_mod, poly_of_term, poly_sub};
use crate::division::poly_gcd;
use crate::elliptic_curve::{j_invariant_spec, CurveModel, EllipticCurve};
use crate::error::Error;
use crate::integer::{big_add, big_eq, big_from_i64, big_from_u64, big_lt, int_of};
use crate::lifted::{xy_polynomial, xy_small, xy_term};
use crate::model::TermModel;
use crate::modular_polynomial::{modular_polynomial, modular_polynomial_spec};
use crate::polynomial::Polynomial;
use num_bigint::BigInt;
use vstd::prelude::*;

verus! {

/// What the algorithm of Schoof, Elkies and Atkin finds out about a prime
/// `l`.
pub struct SEAResult {
    /// the greatest common divisor of `x^p - x` and the modular polynomial
    /// at the j-invariant of the curve
    pub gcd: Polynomial,
    pub degree_of_gcd: BigInt,
    pub is_elkies_prime: bool,
    /// the j-invariants of the curves isogenous to the curve, two at most
    pub isogeny_j_invariants: Vec<BigInt>,
}

/// The result as mathematics sees it.
pub struct SeaModel {
    pub gcd: Seq<TermModel>,
    pub degree_of_gcd: int,
    pub is_elkies_prime: bool,
    pub isogeny_j_invariants: Seq<int>,
}

/// The integers of a list.
pub open spec fn integers_view(s: Seq<BigInt>) -> Seq<int> {
    Seq::new(s.len(), |i: int| int_of(s[i]))
}

impl View for SEAResult {
    type V = SeaModel;

    open spec fn view(&self) -> SeaModel {
        SeaModel {
            gcd: self.gcd@,
            degree_of_gcd: int_of(self.degree_of_gcd),
            is_elkies_prime: self.is_elkies_prime,
            isogeny_j_invariants: integers_view(self.isogeny_j_invariants@),
        }
    }
}

/// Whether `g` vanishes at `x = j` modulo `p`.
pub open spec fn root_at(g: Seq<TermModel>, p: int, j: int) -> Result<bool, Error> {
    match poly_eval_x(g, j) {
        Ok(v) => match poly_mod(v, p) {
            Ok(t) => Ok(t.len() == 0),
            Err(e) => Err(e),
        },
        Err(e) => Err(e),
    }
}

/// The roots of `g` modulo `p` from `j` on, after `acc`: as many as the
/// degree says, and two at most.
pub open spec fn roots_from(g: Seq<TermModel>, p: int, j: int, degree: int, acc: Seq<int>) -> Result<
    Seq<int>,
    Error,
>
    decreases p - j,
{
    if j >= p {
        Ok(acc)
    } else {
        match root_at(g, p, j) {
            Ok(true) => if degree == acc.len() + 1 || acc.len() + 1 == 2 {
                Ok(acc.push(j))
            } else {
                roots_from(g, p, j + 1, degree, acc.push(j))
            },
            Ok(false) => roots_from(g, p, j + 1, degree, acc),
            Err(e) => Err(e),
        }
    }
}

/// The modular polynomial of level `l` at `y = j(E)`, modulo `p`.
pub open spec fn modular_equation(c: CurveModel, l: int) -> Result<Seq<TermModel>, Error> {
    match modular_polynomial_spec(l) {
        Ok(m) => match poly_mod(m, c.p) {
            Ok(m1) => match j_invariant_spec(c) {
                Ok(j) => match poly_eval_y(m1, j) {
                    Ok(m2) => poly_mod(m2, c.p),
                    Err(e) => Err(e),
                },
                Err(e) => Err(e),
            },
            Err(e) => Err(e),
        },
        Err(e) => Err(e),
    }
}

/// What `sea` returns: the greatest common divisor of `x^p - x` and the
/// modular equation, its degree, whether that is positive, and in that case
/// roots of the divisor.
pub open spec fn sea_spec(c: CurveModel, l: int) -> Result<SeaModel, Error> {
    match modular_equation(c, l) {
        Ok(m) => match poly_gcd(
            poly_sub(poly_of_term(xy_term(1, c.p, 0)), poly_of_term(xy_term(1, 1, 0))),
            m,
            c.p,
        ) {
            Ok(g) => match poly_degree_x(g) {
                Ok(d) => if d > 0 {
                    match roots_from(g, c.p, 0, d, Seq::empty()) {
                        Ok(r) => Ok(
                            SeaModel {
                                gcd: g,
                                degree_of_gcd: d,
                                is_elkies_prime: true,
                                isogeny_j_invariants: r,
                            },
                        ),
                        Err(e) => Err(e),
                    }
                } else {
                    Ok(
                        SeaModel {
                            gcd: g,
                            degree_of_gcd: d,
                            is_elkies_prime: false,
                            isogeny_j_invariants: Seq::empty(),
                        },
                    )
                },
                Err(e) => Err(e),
            },
            Err(e) => Err(e),
        },
        Err(e) => Err(e),
    }
}

/// The modular polynomial of level `l` at `y = j(E)`, modulo `p`.
pub fn modular_equation_of(ec: &EllipticCurve, l: u64) -> (r: Result<Polynomial, Error>)
    ensures
        crate::arith::poly_result_is(r, modular_equation(ec@, l as int)),
{
    let mpol = match modular_polynomial(l) {
        Ok(v) => v,
        Err(e) => {
            return Err(e);
        },
    };
    let mpol = match mpol.modulo(&ec.p) {
        Ok(v) => v,
        Err(e) => {
            return Err(e);
        },
    };
    let j = match ec.j_invariant() {
        Ok(v) => v,
        Err(e) => {
            return Err(e);
        },
    };
    match mpol.eval_y(&j) {
        Ok(v) => v.modulo(&ec.p),
        Err(e) => Err(e),
    }
}

/// Whether `g` vanishes at `x = j` modulo `p`.
pub fn is_root(g: &Polynomial, p: &BigInt, j: &BigInt) -> (r: Result<bool, Error>)
    ensures
        r == root_at(g@, int_of(*p), int_of(*j)),
{
    match g.eval_x(j) {
        Ok(v) => match v.modulo(p) {
            Ok(t) => Ok(t.is_zero()),
            Err(e) => Err(e),
        },
        Err(e) => Err(e),
    }
}

/// The algorithm of Schoof, Elkies and Atkin for the prime `l`: `l` is an
/// Elkies prime where the modular equation has a root in the field.
pub fn sea(ec: &EllipticCurve, l: u64) -> (r: Result<SEAResult, Error>)
    ensures
        match r {
            Ok(v) => v.gcd.wf() && sea_spec(ec@, l as int) == Ok::<SeaModel, Error>(v@),
            Err(e) => sea_spec(ec@, l as int) == Err::<SeaModel, Error>(e),
        },
{
    let mpol = match modular_equation_of(ec, l) {
        Ok(v) => v,
        Err(e) => {
            return Err(e);
        },
    };
    let one = big_from_i64(1);
    let zero = big_from_i64(0);
    let xp = match xy_polynomial(&one, &ec.p, &zero) {
        Ok(v) => v,
        Err(e) => {
            return Err(e);
        },
    };
    let x = match xy_small(1, 1, 0) {
        Ok(v) => v,
        Err(e) => {
            return Err(e);
        },
    };
    let pol = xp.sub(&x);
    let gcd = match pol.gcd(&mpol, &ec.p) {
        Ok(v) => v,
        Err(e) => {
            return Err(e);
        },
    };
    // elkies prime for degree 1, 2, l+1
    // atkins prime for degree 0
    let degree = match gcd.degree_x() {
        Ok(v) => v,
        Err(e) => {
            return Err(e);
        },
    };
    let is_elkies_prime = big_lt(&zero, &degree);
    let mut isogeny_j_invariants: Vec<BigInt> = Vec::new();
    proof {
        assert(integers_view(isogeny_j_invariants@) =~= Seq::<int>::empty());
    }
    if is_elkies_prime {
        let ghost target = roots_from(gcd@, ec@.p, 0, int_of(degree), Seq::empty());
        let ghost whole = sea_spec(ec@, l as int);
        let mut j = big_from_i64(0);
        let mut done = false;
        while big_lt(&j, &ec.p) && !done
            invariant
                int_of(one) == 1,
                isogeny_j_invariants@.len() <= 2,
                !done ==> isogeny_j_invariants@.len() < 2,
                whole == sea_spec(ec@, l as int),
                match target {
                    Ok(r) => whole == Ok::<SeaModel, Error>(
                        SeaModel {
                            gcd: gcd@,
                            degree_of_gcd: int_of(degree),
                            is_elkies_prime: true,
                            isogeny_j_invariants: r,
                        },
                    ),
                    Err(e) => whole == Err::<SeaModel, Error>(e),
                },
                done ==> target == Ok::<Seq<int>, Error>(integers_view(isogeny_j_invariants@)),
                !done ==> roots_from(
                    gcd@,
                    ec@.p,
                    int_of(j),
                    int_of(degree),
                    integers_view(isogeny_j_invariants@),
                ) == target,
            decreases ec@.p - int_of(j) + (if done { 0int } else { 1int }),
        {
            let ghost acc = integers_view(isogeny_j_invariants@);
            match is_root(&gcd, &ec.p, &j) {
                Ok(true) => {
                    isogeny_j_invariants.push(j.clone());
                    proof {
                        assert(integers_view(isogeny_j_invariants@) =~= acc.push(int_of(j)));
                    }
                    if big_eq(&degree, &big_from_u64(isogeny_j_invariants.len() as u64))
                        || isogeny_j_invariants.len() == 2 {
                        done = true;
                    } else {
                        j = big_add(&j, &one);
                    }
                },
                Ok(false) => {
                    j = big_add(&j, &one);
                },
                Err(e) => {
                    return Err(e);
                },
            }
        }
    }
    Ok(SEAResult { gcd, degree_of_gcd: degree, is_elkies_prime, isogeny_j_invariants })
}

} // verus!
