use crate::algebra::{
    has_variable, poly_add, poly_div, poly_mul, poly_of_term, poly_one, poly_power, poly_sub,
};
use crate::error::Error;
use crate::integer::{
    big_add, big_div_floor, big_eq, big_from_i64, big_is_negative, big_is_odd, big_mul, big_neg,
    big_sub, int_of,
};
use crate::lifted::{
    lift_div, lift_mul, lift_power, lift_reduction, lift_sub, result_view, result_wf, try_add,
    try_div, try_mul, try_power, try_reduction, try_sub, xy_polynomial, xy_small, xy_term,
};
use crate::model::TermModel;
use crate::polynomial::Polynomial;
use crate::support::{
    lemma_add_variable, lemma_div_variable, lemma_mul_variable, lemma_one_variable,
    lemma_power_variable, lemma_reduction_defined, lemma_sub_variable, lemma_term_variable,
};
use num_bigint::BigInt;
use vstd::prelude::*;

verus! {

/// The polynomial `c x^x y^y`.
pub open spec fn xy_poly(c: int, x: int, y: int) -> Seq<TermModel> {
    poly_of_term(xy_term(c, x, y))
}

/// `psi_3 = 3 x^4 + 6 a x^2 + 12 b x - a^2`.
pub open spec fn psi3_spec(a: int, b: int) -> Seq<TermModel> {
    poly_add(
        poly_add(poly_add(xy_poly(3, 4, 0), xy_poly(6 * a, 2, 0)), xy_poly(12 * b, 1, 0)),
        xy_poly(-(a * a), 0, 0),
    )
}

/// The second factor of `psi_4`:
/// `x^6 + 5 a x^4 + 20 b x^3 - 5 a^2 x^2 - 4 a b x - 8 b^2 - a^3`.
pub open spec fn psi4_factor_spec(a: int, b: int) -> Seq<TermModel> {
    poly_add(
        poly_add(
            poly_add(
                poly_add(
                    poly_add(xy_poly(1, 6, 0), xy_poly(5 * a, 4, 0)),
                    xy_poly(20 * b, 3, 0),
                ),
                xy_poly(-5 * (a * a), 2, 0),
            ),
            xy_poly(-4 * a * b, 1, 0),
        ),
        xy_poly(-8 * (b * b) - a * a * a, 0, 0),
    )
}

/// The division polynomial `psi_n` of the curve `y^2 = x^3 + a x + b`, by
/// the recurrence, reduced by the curve at every step.
pub open spec fn psi_spec(a: int, b: int, n: int) -> Result<Seq<TermModel>, Error>
    decreases n,
{
    if n < 0 {
        Err(Error::DomainError)
    } else if n == 0 {
        Ok(Seq::empty())
    } else if n == 1 {
        Ok(poly_one())
    } else if n == 2 {
        Ok(xy_poly(2, 0, 1))
    } else if n == 3 {
        Ok(psi3_spec(a, b))
    } else if n == 4 {
        poly_mul(xy_poly(4, 0, 1), psi4_factor_spec(a, b))
    } else if n % 2 == 1 {
        let m = (n - 1) / 2;
        lift_reduction(
            lift_sub(
                lift_mul(psi_spec(a, b, m + 2), lift_power(psi_spec(a, b, m), 3)),
                lift_mul(psi_spec(a, b, m - 1), lift_power(psi_spec(a, b, m + 1), 3)),
            ),
            a,
            b,
        )
    } else {
        let m = n / 2;
        lift_reduction(
            lift_div(
                lift_mul(
                    psi_spec(a, b, m),
                    lift_sub(
                        lift_mul(psi_spec(a, b, m + 2), lift_power(psi_spec(a, b, m - 1), 2)),
                        lift_mul(psi_spec(a, b, m - 2), lift_power(psi_spec(a, b, m + 1), 2)),
                    ),
                ),
                Ok(xy_poly(2, 0, 1)),
            ),
            a,
            b,
        )
    }
}

/// `phi_n = x psi_n^2 - psi_(n+1) psi_(n-1)`, reduced by the curve, for
/// `n >= 1`.
pub open spec fn phi_spec(a: int, b: int, n: int) -> Result<Seq<TermModel>, Error> {
    if n < 1 {
        Err(Error::DomainError)
    } else {
        lift_reduction(
            lift_sub(
                lift_mul(Ok(xy_poly(1, 1, 0)), lift_power(psi_spec(a, b, n), 2)),
                lift_mul(psi_spec(a, b, n + 1), psi_spec(a, b, n - 1)),
            ),
            a,
            b,
        )
    }
}

/// `omega_1 = y` and
/// `omega_n = (psi_(n+2) psi_(n-1)^2 - psi_(n-2) psi_(n+1)^2) / (4 y)`,
/// reduced by the curve, for `n >= 1`.
pub open spec fn omega_spec(a: int, b: int, n: int) -> Result<Seq<TermModel>, Error> {
    if n < 1 {
        Err(Error::DomainError)
    } else if n == 1 {
        Ok(xy_poly(1, 0, 1))
    } else {
        lift_reduction(
            lift_div(
                lift_sub(
                    lift_mul(psi_spec(a, b, n + 2), lift_power(psi_spec(a, b, n - 1), 2)),
                    lift_mul(psi_spec(a, b, n - 2), lift_power(psi_spec(a, b, n + 1), 2)),
                ),
                Ok(xy_poly(4, 0, 1)),
            ),
            a,
            b,
        )
    }
}

/// The division polynomials of one curve, with those `psi_n` kept that were
/// computed before.
pub struct DivisionPolynomials {
    a: BigInt,
    b: BigInt,
    known: Vec<(BigInt, Polynomial)>,
}

impl DivisionPolynomials {
    /// The coefficient `a` of the curve.
    pub closed spec fn a(&self) -> int {
        int_of(self.a)
    }

    /// The coefficient `b` of the curve.
    pub closed spec fn b(&self) -> int {
        int_of(self.b)
    }

    /// Every polynomial that is kept is the `psi_n` of its index.
    pub closed spec fn wf(&self) -> bool {
        forall|i: int|
            0 <= i < self.known@.len() ==> (#[trigger] self.known@[i]).1.wf() && psi_spec(
                int_of(self.a),
                int_of(self.b),
                int_of(self.known@[i].0),
            ) == Ok::<Seq<TermModel>, Error>(self.known@[i].1@)
    }

    /// The division polynomials of `y^2 = x^3 + a x + b`, none computed yet.
    pub fn new(a: &BigInt, b: &BigInt) -> (r: Self)
        ensures
            r.wf(),
            r.a() == int_of(*a),
            r.b() == int_of(*b),
    {
        DivisionPolynomials { a: a.clone(), b: b.clone(), known: Vec::new() }
    }

    /// Whether a polynomial is kept for the index `n`.
    pub closed spec fn keeps(&self, n: int) -> bool {
        exists|i: int| 0 <= i < self.known@.len() && int_of((#[trigger] self.known@[i]).0) == n
    }

    /// The polynomial kept for the index `n`: `psi_n`, where one is kept for
    /// that index, and nothing where none is.
    fn lookup(&self, n: &BigInt) -> (r: Option<Polynomial>)
        requires
            self.wf(),
        ensures
            match r {
                Some(p) => self.keeps(int_of(*n)) && p.wf() && psi_spec(
                    self.a(),
                    self.b(),
                    int_of(*n),
                ) == Ok::<Seq<TermModel>, Error>(p@),
                None => !self.keeps(int_of(*n)),
            },
    {
        let mut i: usize = 0;
        while i < self.known.len()
            invariant
                0 <= i <= self.known@.len(),
                self.wf(),
                forall|k: int| 0 <= k < i ==> int_of((#[trigger] self.known@[k]).0) != int_of(*n),
            decreases self.known@.len() - i,
        {
            if big_eq(&self.known[i].0, n) {
                assert(self.known@[i as int].1.wf());
                assert(int_of(self.known@[i as int].0) == int_of(*n));
                return Some(self.known[i].1.clone());
            }
            i = i + 1;
        }
        None
    }

    /// `psi_3`.
    fn psi3(&self) -> (r: Result<Polynomial, Error>)
        ensures
            result_wf(r),
            result_view(r) == Ok::<Seq<TermModel>, Error>(psi3_spec(self.a(), self.b())),
    {
        let a = &self.a;
        let b = &self.b;
        let zero = big_from_i64(0);
        let t1 = xy_small(3, 4, 0);
        let t2 = xy_polynomial(&big_mul(&big_from_i64(6), a), &big_from_i64(2), &zero);
        let t3 = xy_polynomial(&big_mul(&big_from_i64(12), b), &big_from_i64(1), &zero);
        let t4 = xy_polynomial(&big_neg(&big_mul(a, a)), &zero, &zero);
        try_add(&try_add(&try_add(&t1, &t2), &t3), &t4)
    }

    /// `psi_4`.
    fn psi4(&self) -> (r: Result<Polynomial, Error>)
        ensures
            result_wf(r),
            result_view(r) == poly_mul(xy_poly(4, 0, 1), psi4_factor_spec(self.a(), self.b())),
    {
        let a = &self.a;
        let b = &self.b;
        let zero = big_from_i64(0);
        let aa = big_mul(a, a);
        let t1 = xy_small(1, 6, 0);
        let t2 = xy_polynomial(&big_mul(&big_from_i64(5), a), &big_from_i64(4), &zero);
        let t3 = xy_polynomial(&big_mul(&big_from_i64(20), b), &big_from_i64(3), &zero);
        let t4 = xy_polynomial(&big_mul(&big_from_i64(-5), &aa), &big_from_i64(2), &zero);
        let t5 = xy_polynomial(
            &big_mul(&big_mul(&big_from_i64(-4), a), b),
            &big_from_i64(1),
            &zero,
        );
        let t6 = xy_polynomial(
            &big_sub(&big_mul(&big_from_i64(-8), &big_mul(b, b)), &big_mul(&aa, a)),
            &zero,
            &zero,
        );
        let sum = try_add(&try_add(&try_add(&try_add(&try_add(&t1, &t2), &t3), &t4), &t5), &t6);
        try_mul(&xy_small(4, 0, 1), &sum)
    }

    /// The division polynomial `psi_n`.
    pub fn psi(&mut self, n: &BigInt) -> (r: Result<Polynomial, Error>)
        requires
            old(self).wf(),
        ensures
            final(self).wf(),
            final(self).a() == old(self).a(),
            final(self).b() == old(self).b(),
            result_wf(r),
            result_view(r) == psi_spec(old(self).a(), old(self).b(), int_of(*n)),
            int_of(*n) >= 0 ==> r is Ok,
        decreases
            (if int_of(*n) < 0 {
                0
            } else {
                int_of(*n)
            }),
    {
        if big_is_negative(n) {
            return Err(Error::DomainError);
        }
        proof {
            lemma_psi_defined(self.a(), self.b(), int_of(*n));
        }
        let zero = big_from_i64(0);
        let one = big_from_i64(1);
        let two = big_from_i64(2);
        if big_eq(n, &zero) {
            return Ok(Polynomial::new());
        } else if big_eq(n, &one) {
            return Ok(Polynomial::one());
        } else if big_eq(n, &two) {
            return xy_small(2, 0, 1);
        } else if big_eq(n, &big_from_i64(3)) {
            return self.psi3();
        } else if big_eq(n, &big_from_i64(4)) {
            return self.psi4();
        }
        match self.lookup(n) {
            Some(p) => {
                return Ok(p);
            },
            None => {},
        }
        let a = self.a.clone();
        let b = self.b.clone();
        let r = if big_is_odd(n) {
            let m = big_div_floor(&big_sub(n, &one), &two);
            let e = self.psi(&big_add(&m, &two));
            let f = try_power(&self.psi(&m), 3);
            let g = self.psi(&big_sub(&m, &one));
            let h = try_power(&self.psi(&big_add(&m, &one)), 3);
            try_reduction(&try_sub(&try_mul(&e, &f), &try_mul(&g, &h)), &a, &b)
        } else {
            let m = big_div_floor(n, &two);
            let e = self.psi(&big_add(&m, &two));
            let f = try_power(&self.psi(&big_sub(&m, &one)), 2);
            let g = self.psi(&big_sub(&m, &two));
            let h = try_power(&self.psi(&big_add(&m, &one)), 2);
            let i = try_mul(&self.psi(&m), &try_sub(&try_mul(&e, &f), &try_mul(&g, &h)));
            let j = try_div(&i, &xy_small(2, 0, 1));
            try_reduction(&j, &a, &b)
        };
        match &r {
            Ok(p) => {
                let ghost before = self.known@;
                self.known.push((n.clone(), p.clone()));
                assert forall|i: int| 0 <= i < self.known@.len() implies (#[trigger] self.known@[i]).1.wf()
                    && psi_spec(int_of(self.a), int_of(self.b), int_of(self.known@[i].0)) == Ok::<
                    Seq<TermModel>,
                    Error,
                >(self.known@[i].1@) by {
                    if i < before.len() {
                        assert(self.known@[i] == before[i]);
                    }
                }
            },
            Err(_) => {},
        }
        r
    }

    /// The polynomial `phi_n`, for `n >= 1`.
    pub fn phi(&mut self, n: &BigInt) -> (r: Result<Polynomial, Error>)
        requires
            old(self).wf(),
        ensures
            final(self).wf(),
            final(self).a() == old(self).a(),
            final(self).b() == old(self).b(),
            result_wf(r),
            result_view(r) == phi_spec(old(self).a(), old(self).b(), int_of(*n)),
            int_of(*n) >= 1 ==> r is Ok,
    {
        let one = big_from_i64(1);
        if crate::integer::big_lt(n, &one) {
            return Err(Error::DomainError);
        }
        proof {
            lemma_phi_defined(self.a(), self.b(), int_of(*n));
        }
        let a = self.a.clone();
        let b = self.b.clone();
        let p0 = try_power(&self.psi(n), 2);
        let p1 = self.psi(&big_add(n, &one));
        let p2 = self.psi(&big_sub(n, &one));
        let i = try_sub(&try_mul(&xy_small(1, 1, 0), &p0), &try_mul(&p1, &p2));
        try_reduction(&i, &a, &b)
    }

    /// The polynomial `omega_n`, for `n >= 1`.
    pub fn omega(&mut self, n: &BigInt) -> (r: Result<Polynomial, Error>)
        requires
            old(self).wf(),
        ensures
            final(self).wf(),
            final(self).a() == old(self).a(),
            final(self).b() == old(self).b(),
            result_wf(r),
            result_view(r) == omega_spec(old(self).a(), old(self).b(), int_of(*n)),
            int_of(*n) >= 1 ==> r is Ok,
    {
        let one = big_from_i64(1);
        let two = big_from_i64(2);
        if crate::integer::big_lt(n, &one) {
            return Err(Error::DomainError);
        }
        proof {
            lemma_omega_defined(self.a(), self.b(), int_of(*n));
        }
        if big_eq(n, &one) {
            return xy_small(1, 0, 1);
        }
        let a = self.a.clone();
        let b = self.b.clone();
        let e = self.psi(&big_add(n, &two));
        let f = try_power(&self.psi(&big_sub(n, &one)), 2);
        let g = self.psi(&big_sub(n, &two));
        let h = try_power(&self.psi(&big_add(n, &one)), 2);
        let i = try_div(&try_sub(&try_mul(&e, &f), &try_mul(&g, &h)), &xy_small(4, 0, 1));
        try_reduction(&i, &a, &b)
    }
}

/// The division polynomial `psi_n` of `y^2 = x^3 + a x + b`.
pub fn psi(a: &BigInt, b: &BigInt, n: &BigInt) -> (r: Result<Polynomial, Error>)
    ensures
        result_wf(r),
        result_view(r) == psi_spec(int_of(*a), int_of(*b), int_of(*n)),
        int_of(*n) >= 0 ==> r is Ok,
{
    let mut d = DivisionPolynomials::new(a, b);
    d.psi(n)
}

/// The polynomial `phi_n` of `y^2 = x^3 + a x + b`.
pub fn phi(a: &BigInt, b: &BigInt, n: &BigInt) -> (r: Result<Polynomial, Error>)
    ensures
        result_wf(r),
        result_view(r) == phi_spec(int_of(*a), int_of(*b), int_of(*n)),
        int_of(*n) >= 1 ==> r is Ok,
{
    let mut d = DivisionPolynomials::new(a, b);
    d.phi(n)
}

/// The polynomial `omega_n` of `y^2 = x^3 + a x + b`.
pub fn omega(a: &BigInt, b: &BigInt, n: &BigInt) -> (r: Result<Polynomial, Error>)
    ensures
        result_wf(r),
        result_view(r) == omega_spec(int_of(*a), int_of(*b), int_of(*n)),
        int_of(*n) >= 1 ==> r is Ok,
{
    let mut d = DivisionPolynomials::new(a, b);
    d.omega(n)
}

proof fn lemma_xy_variable(c: int, x: int, y: int)
    ensures
        !has_variable(xy_poly(c, x, y)),
{
    lemma_term_variable(xy_term(c, x, y));
}

/// The division polynomial `psi_n` is defined for every `n >= 0`, and
/// carries no subscripted variable.
pub proof fn lemma_psi_defined(a: int, b: int, n: int)
    requires
        n >= 0,
    ensures
        psi_spec(a, b, n) is Ok,
        !has_variable(psi_spec(a, b, n)->Ok_0),
    decreases n,
{
    if n == 0 {
        if has_variable(Seq::<TermModel>::empty()) {
            let i = choose|i: int|
                0 <= i < 0 && (#[trigger] Seq::<TermModel>::empty()[i]).mono.var is Some;
        }
    } else if n == 1 {
        lemma_one_variable();
    } else if n == 2 {
        lemma_xy_variable(2, 0, 1);
    } else if n == 3 {
        lemma_xy_variable(3, 4, 0);
        lemma_xy_variable(6 * a, 2, 0);
        lemma_xy_variable(12 * b, 1, 0);
        lemma_xy_variable(-(a * a), 0, 0);
        lemma_add_variable(xy_poly(3, 4, 0), xy_poly(6 * a, 2, 0));
        lemma_add_variable(poly_add(xy_poly(3, 4, 0), xy_poly(6 * a, 2, 0)), xy_poly(12 * b, 1, 0));
        lemma_add_variable(
            poly_add(poly_add(xy_poly(3, 4, 0), xy_poly(6 * a, 2, 0)), xy_poly(12 * b, 1, 0)),
            xy_poly(-(a * a), 0, 0),
        );
    } else if n == 4 {
        let t1 = xy_poly(1, 6, 0);
        let t2 = xy_poly(5 * a, 4, 0);
        let t3 = xy_poly(20 * b, 3, 0);
        let t4 = xy_poly(-5 * (a * a), 2, 0);
        let t5 = xy_poly(-4 * a * b, 1, 0);
        let t6 = xy_poly(-8 * (b * b) - a * a * a, 0, 0);
        lemma_xy_variable(1, 6, 0);
        lemma_xy_variable(5 * a, 4, 0);
        lemma_xy_variable(20 * b, 3, 0);
        lemma_xy_variable(-5 * (a * a), 2, 0);
        lemma_xy_variable(-4 * a * b, 1, 0);
        lemma_xy_variable(-8 * (b * b) - a * a * a, 0, 0);
        lemma_add_variable(t1, t2);
        lemma_add_variable(poly_add(t1, t2), t3);
        lemma_add_variable(poly_add(poly_add(t1, t2), t3), t4);
        lemma_add_variable(poly_add(poly_add(poly_add(t1, t2), t3), t4), t5);
        lemma_add_variable(poly_add(poly_add(poly_add(poly_add(t1, t2), t3), t4), t5), t6);
        lemma_xy_variable(4, 0, 1);
        lemma_mul_variable(xy_poly(4, 0, 1), psi4_factor_spec(a, b));
    } else if n % 2 == 1 {
        let m = (n - 1) / 2;
        lemma_psi_defined(a, b, m + 2);
        lemma_psi_defined(a, b, m);
        lemma_psi_defined(a, b, m - 1);
        lemma_psi_defined(a, b, m + 1);
        let e = psi_spec(a, b, m + 2)->Ok_0;
        let g = psi_spec(a, b, m - 1)->Ok_0;
        lemma_power_variable(psi_spec(a, b, m)->Ok_0, 3);
        lemma_power_variable(psi_spec(a, b, m + 1)->Ok_0, 3);
        let f = poly_power(psi_spec(a, b, m)->Ok_0, 3)->Ok_0;
        let h = poly_power(psi_spec(a, b, m + 1)->Ok_0, 3)->Ok_0;
        lemma_mul_variable(e, f);
        lemma_mul_variable(g, h);
        lemma_sub_variable(poly_mul(e, f)->Ok_0, poly_mul(g, h)->Ok_0);
        lemma_reduction_defined(poly_sub(poly_mul(e, f)->Ok_0, poly_mul(g, h)->Ok_0), a, b);
    } else {
        let m = n / 2;
        lemma_psi_defined(a, b, m + 2);
        lemma_psi_defined(a, b, m);
        lemma_psi_defined(a, b, m - 1);
        lemma_psi_defined(a, b, m - 2);
        lemma_psi_defined(a, b, m + 1);
        let e = psi_spec(a, b, m + 2)->Ok_0;
        let g = psi_spec(a, b, m - 2)->Ok_0;
        lemma_power_variable(psi_spec(a, b, m - 1)->Ok_0, 2);
        lemma_power_variable(psi_spec(a, b, m + 1)->Ok_0, 2);
        let f = poly_power(psi_spec(a, b, m - 1)->Ok_0, 2)->Ok_0;
        let h = poly_power(psi_spec(a, b, m + 1)->Ok_0, 2)->Ok_0;
        lemma_mul_variable(e, f);
        lemma_mul_variable(g, h);
        let d = poly_sub(poly_mul(e, f)->Ok_0, poly_mul(g, h)->Ok_0);
        lemma_sub_variable(poly_mul(e, f)->Ok_0, poly_mul(g, h)->Ok_0);
        lemma_mul_variable(psi_spec(a, b, m)->Ok_0, d);
        let i = poly_mul(psi_spec(a, b, m)->Ok_0, d)->Ok_0;
        lemma_div_variable(i, xy_term(2, 0, 1));
        lemma_reduction_defined(poly_div(i, xy_poly(2, 0, 1))->Ok_0, a, b);
    }
}

/// The polynomial `phi_n` is defined for every `n >= 1`, and carries no
/// subscripted variable.
pub proof fn lemma_phi_defined(a: int, b: int, n: int)
    requires
        n >= 1,
    ensures
        phi_spec(a, b, n) is Ok,
        !has_variable(phi_spec(a, b, n)->Ok_0),
{
    lemma_psi_defined(a, b, n);
    lemma_psi_defined(a, b, n + 1);
    lemma_psi_defined(a, b, n - 1);
    lemma_power_variable(psi_spec(a, b, n)->Ok_0, 2);
    lemma_xy_variable(1, 1, 0);
    let s = poly_power(psi_spec(a, b, n)->Ok_0, 2)->Ok_0;
    lemma_mul_variable(xy_poly(1, 1, 0), s);
    lemma_mul_variable(psi_spec(a, b, n + 1)->Ok_0, psi_spec(a, b, n - 1)->Ok_0);
    let left = poly_mul(xy_poly(1, 1, 0), s)->Ok_0;
    let right = poly_mul(psi_spec(a, b, n + 1)->Ok_0, psi_spec(a, b, n - 1)->Ok_0)->Ok_0;
    lemma_sub_variable(left, right);
    lemma_reduction_defined(poly_sub(left, right), a, b);
}

/// The polynomial `omega_n` is defined for every `n >= 1`, and carries no
/// subscripted variable.
pub proof fn lemma_omega_defined(a: int, b: int, n: int)
    requires
        n >= 1,
    ensures
        omega_spec(a, b, n) is Ok,
        !has_variable(omega_spec(a, b, n)->Ok_0),
{
    if n == 1 {
        lemma_xy_variable(1, 0, 1);
    } else {
        lemma_psi_defined(a, b, n + 2);
        lemma_psi_defined(a, b, n - 1);
        lemma_psi_defined(a, b, n - 2);
        lemma_psi_defined(a, b, n + 1);
        let e = psi_spec(a, b, n + 2)->Ok_0;
        let g = psi_spec(a, b, n - 2)->Ok_0;
        lemma_power_variable(psi_spec(a, b, n - 1)->Ok_0, 2);
        lemma_power_variable(psi_spec(a, b, n + 1)->Ok_0, 2);
        let f = poly_power(psi_spec(a, b, n - 1)->Ok_0, 2)->Ok_0;
        let h = poly_power(psi_spec(a, b, n + 1)->Ok_0, 2)->Ok_0;
        lemma_mul_variable(e, f);
        lemma_mul_variable(g, h);
        let d = poly_sub(poly_mul(e, f)->Ok_0, poly_mul(g, h)->Ok_0);
        lemma_sub_variable(poly_mul(e, f)->Ok_0, poly_mul(g, h)->Ok_0);
        lemma_div_variable(d, xy_term(4, 0, 1));
        lemma_reduction_defined(poly_div(d, xy_poly(4, 0, 1))->Ok_0, a, b);
    }
}


} // verus!
