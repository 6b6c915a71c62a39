use crate::algebra::{curve_polynomial, has_y, poly_div, poly_sub};
use crate::bigint::{chinese_remainder, crt_spec, mod_results_view, ModResult};
use crate::division::poly_is_gcd_one;
use crate::division_polynomial::{omega_spec, phi_spec, psi_spec, xy_poly, DivisionPolynomials};
use crate::error::Error;
use crate::integer::{
    big_from_i64, big_lt, big_mod_floor, big_mul, big_sub, int_of, is_prime, is_prime_u64,
};
use crate::lifted::{
    lift_add, lift_frob, lift_mod, lift_mul, lift_neg, lift_power, lift_reduction_modular,
    lift_remainder, lift_sub, result_view, result_wf, try_add, try_frob, try_modulo, try_mul,
    try_neg, try_power, try_reduction_modular, try_remainder, try_sub, xy_polynomial, xy_small,
};
use crate::model::TermModel;
use crate::poly_ops::curve_polynomial_of;
use crate::polynomial::Polynomial;
use crate::schoof_laws::lemma_schoof_result;
use num_bigint::BigInt;
use vstd::prelude::*;

verus! {

/// The curve `y^2 = x^3 + a x + b` over the field of `p` elements, as the
/// driver sees it.
pub struct Field {
    pub a: int,
    pub b: int,
    pub p: int,
}

/// The polynomials of the multiple `[k] P = (phi / psi^2, omega / psi^3)`.
pub struct MultipleModel {
    pub psi: Result<Seq<TermModel>, Error>,
    pub phi: Result<Seq<TermModel>, Error>,
    pub omega: Result<Seq<TermModel>, Error>,
}

/// The polynomials of `[k] P`.
pub open spec fn multiple_spec(c: Field, k: int) -> MultipleModel {
    MultipleModel {
        psi: psi_spec(c.a, c.b, k),
        phi: phi_spec(c.a, c.b, k),
        omega: omega_spec(c.a, c.b, k),
    }
}

/// Reduction by the curve modulo `p`.
pub open spec fn reduced(c: Field, x: Result<Seq<TermModel>, Error>) -> Result<
    Seq<TermModel>,
    Error,
> {
    lift_reduction_modular(x, c.a, c.b, c.p)
}

/// `x^(p^2)`, the abscissa of the square of the Frobenius map.
pub open spec fn frobenius_x(c: Field) -> Result<Seq<TermModel>, Error> {
    Ok(xy_poly(1, c.p * c.p, 0))
}

/// `y^(p^2)` reduced by the curve, the ordinate of the square of the
/// Frobenius map.
pub open spec fn frobenius_y(c: Field) -> Result<Seq<TermModel>, Error> {
    reduced(c, Ok(xy_poly(1, 0, c.p * c.p)))
}

/// `omega - y^(p^2) psi^3`: the numerator of the slope of the line through
/// the Frobenius square of `P` and `[k] P`.
#[verifier::opaque]
pub open spec fn slope_numerator(c: Field, m: MultipleModel) -> Result<Seq<TermModel>, Error> {
    reduced(c, lift_sub(m.omega, lift_mul(frobenius_y(c), lift_power(m.psi, 3))))
}

/// `phi - x^(p^2) psi^2`: the denominator of that slope, but for `psi`.
#[verifier::opaque]
pub open spec fn slope_denominator(c: Field, m: MultipleModel) -> Result<Seq<TermModel>, Error> {
    reduced(c, lift_sub(m.phi, lift_mul(frobenius_x(c), lift_power(m.psi, 2))))
}

/// The numerator of the abscissa of the sum of the Frobenius square of `P`
/// and `[k] P`:
/// `(omega - y^(p^2) psi^3)^2 + (-phi - x^(p^2) psi^2) (phi - x^(p^2) psi^2)^2`.
#[verifier::opaque]
pub open spec fn sum_x_numerator(c: Field, m: MultipleModel) -> Result<Seq<TermModel>, Error> {
    reduced(
        c,
        lift_add(
            lift_power(slope_numerator(c, m), 2),
            lift_mul(
                lift_neg(lift_add(m.phi, lift_mul(frobenius_x(c), lift_power(m.psi, 2)))),
                lift_power(slope_denominator(c, m), 2),
            ),
        ),
    )
}

/// The denominator of that abscissa: `psi^2 (phi - x^(p^2) psi^2)^2`.
#[verifier::opaque]
pub open spec fn sum_x_denominator(c: Field, m: MultipleModel) -> Result<Seq<TermModel>, Error> {
    reduced(c, lift_mul(lift_power(m.psi, 2), lift_power(slope_denominator(c, m), 2)))
}

/// The numerator of the ordinate of that sum: with `d` and `f` for the
/// numerator and the denominator of the slope,
/// `d ((phi + 2 x^(p^2) psi^2) f^2 - d^2) - y^(p^2) psi^3 f^3`.
#[verifier::opaque]
pub open spec fn sum_y_numerator(c: Field, m: MultipleModel) -> Result<Seq<TermModel>, Error> {
    let d = slope_numerator(c, m);
    let f = slope_denominator(c, m);
    let e = lift_add(
        m.phi,
        lift_mul(Ok(xy_poly(2, c.p * c.p, 0)), lift_power(m.psi, 2)),
    );
    reduced(
        c,
        lift_sub(
            lift_mul(d, lift_sub(lift_mul(e, lift_power(f, 2)), lift_power(d, 2))),
            lift_mul(lift_mul(frobenius_y(c), lift_power(m.psi, 3)), lift_power(f, 3)),
        ),
    )
}

/// The denominator of that ordinate: `psi^3 f^3`.
#[verifier::opaque]
pub open spec fn sum_y_denominator(c: Field, m: MultipleModel) -> Result<Seq<TermModel>, Error> {
    reduced(c, lift_mul(lift_power(m.psi, 3), lift_power(slope_denominator(c, m), 3)))
}

/// `psi_l (mod p)`.
pub open spec fn torsion_polynomial(c: Field, l: int) -> Result<Seq<TermModel>, Error> {
    lift_mod(psi_spec(c.a, c.b, l), c.p)
}

/// The difference of the abscissas of the sum and of the Frobenius image of
/// `[j] P`, cleared of denominators, modulo `psi_l`.
#[verifier::opaque]
pub open spec fn x_difference(c: Field, l: int, k: int, j: int) -> Result<Seq<TermModel>, Error> {
    let m = multiple_spec(c, k);
    let mj = multiple_spec(c, j);
    let num2 = reduced(c, lift_frob(mj.phi, c.p));
    let den2 = reduced(c, lift_power(lift_frob(mj.psi, c.p), 2));
    lift_remainder(
        reduced(
            c,
            lift_sub(lift_mul(sum_x_numerator(c, m), den2), lift_mul(num2, sum_x_denominator(c, m))),
        ),
        torsion_polynomial(c, l),
        c.p,
    )
}

/// The polynomial without one factor `y`, where it has `y`.
pub open spec fn without_y(x: Result<Seq<TermModel>, Error>) -> Result<Seq<TermModel>, Error> {
    match x {
        Ok(s) => if has_y(s) {
            poly_div(s, xy_poly(1, 0, 1))
        } else {
            Ok(s)
        },
        Err(e) => Err(e),
    }
}

/// The difference of the ordinates of the sum and of the Frobenius image of
/// `[j] P`, cleared of denominators and of the factor `y`, modulo `psi_l`.
#[verifier::opaque]
pub open spec fn y_difference(c: Field, l: int, k: int, j: int) -> Result<Seq<TermModel>, Error> {
    let m = multiple_spec(c, k);
    let mj = multiple_spec(c, j);
    let num4 = reduced(c, lift_frob(mj.omega, c.p));
    let den4 = reduced(c, lift_power(lift_frob(mj.psi, c.p), 3));
    lift_remainder(
        lift_mod(
            without_y(
                reduced(
                    c,
                    lift_sub(
                        lift_mul(sum_y_numerator(c, m), den4),
                        lift_mul(num4, sum_y_denominator(c, m)),
                    ),
                ),
            ),
            c.p,
        ),
        torsion_polynomial(c, l),
        c.p,
    )
}

/// Whether a polynomial is zero.
pub open spec fn vanishes(x: Result<Seq<TermModel>, Error>) -> Result<bool, Error> {
    match x {
        Ok(s) => Ok(s.len() == 0),
        Err(e) => Err(e),
    }
}

/// The first `j` in `[j, j_max]` for which the abscissas agree on the
/// `l`-torsion, if there is one.
pub open spec fn find_multiple(c: Field, l: int, k: int, j: int, j_max: int) -> Result<
    Option<int>,
    Error,
>
    decreases j_max - j + 1,
{
    if j > j_max {
        Ok(None)
    } else {
        match vanishes(x_difference(c, l, k, j)) {
            Ok(true) => Ok(Some(j)),
            Ok(false) => find_multiple(c, l, k, j + 1, j_max),
            Err(e) => Err(e),
        }
    }
}

/// The least `w` in `[w, l)` with `w^2 = k (mod l)`, if there is one.
pub open spec fn find_square_root(l: int, k: int, w: int) -> Option<int>
    decreases l - w,
{
    if w >= l {
        None
    } else if (w * w) % l == k {
        Some(w)
    } else {
        find_square_root(l, k, w + 1)
    }
}

/// The trace modulo `l` where the Frobenius map may act on the `l`-torsion
/// as `w` or `-w`, with `w^2 = p (mod l)`: zero unless `x^p psi_w^2 - phi_w`
/// vanishes on the `l`-torsion, else `-2 w` or `2 w` as
/// `y^p psi_w^3 - omega_w`, without its factor `y`, is coprime to `psi_l` or
/// not.
#[verifier::opaque]
pub open spec fn eigenvalue_residue(c: Field, l: int, w: int) -> Result<int, Error> {
    let m = multiple_spec(c, w);
    let dx = lift_remainder(
        reduced(c, lift_sub(lift_mul(Ok(xy_poly(1, c.p, 0)), lift_power(m.psi, 2)), m.phi)),
        torsion_polynomial(c, l),
        c.p,
    );
    match vanishes(dx) {
        Ok(false) => Ok(0),
        Ok(true) => {
            let dy = without_y(
                reduced(
                    c,
                    lift_sub(lift_mul(Ok(xy_poly(1, 0, c.p)), lift_power(m.psi, 3)), m.omega),
                ),
            );
            match (dy, torsion_polynomial(c, l)) {
                (Ok(u), Ok(v)) => match poly_is_gcd_one(u, v, c.p) {
                    Ok(true) => Ok((-2 * w) % l),
                    Ok(false) => Ok((2 * w) % l),
                    Err(e) => Err(e),
                },
                (Err(e), _) => Err(e),
                (_, Err(e)) => Err(e),
            }
        },
        Err(e) => Err(e),
    }
}

/// Whether the square of the Frobenius map and the multiplication by `k`
/// agree in the abscissa on all of the `l`-torsion: whether
/// `phi_k - x^(p^2) psi_k^2` vanishes modulo `psi_l`.
#[verifier::opaque]
pub open spec fn same_abscissa(c: Field, l: int, k: int) -> Result<bool, Error> {
    vanishes(
        lift_remainder(
            slope_denominator(c, multiple_spec(c, k)),
            torsion_polynomial(c, l),
            c.p,
        ),
    )
}

/// The trace modulo `l` by the square roots of `k = p mod l`: zero where
/// there is none, else by the least.
pub open spec fn square_root_residue(c: Field, l: int, k: int) -> Result<int, Error> {
    match find_square_root(l, k, 1) {
        None => Ok(0),
        Some(w) => eigenvalue_residue(c, l, w),
    }
}

/// The trace of Frobenius modulo the odd prime `l`, in `[0, l)`. Where the
/// square of the Frobenius map agrees with the multiplication by `p` in the
/// abscissa on all of the `l`-torsion, the trace is zero or twice a square
/// root of `p`; else it is `j` or `-j` for the `j` whose multiple of the
/// Frobenius image has the abscissa of the sum.
#[verifier::opaque]
pub open spec fn odd_residue(c: Field, l: int) -> Result<int, Error> {
    let k = c.p % l;
    match same_abscissa(c, l, k) {
        Ok(true) => square_root_residue(c, l, k),
        Ok(false) => match find_multiple(c, l, k, 1, (l - 1) / 2) {
            Ok(Some(j)) => match vanishes(y_difference(c, l, k, j)) {
                Ok(true) => Ok(j % l),
                Ok(false) => Ok((-j) % l),
                Err(e) => Err(e),
            },
            Ok(None) => square_root_residue(c, l, k),
            Err(e) => Err(e),
        },
        Err(e) => Err(e),
    }
}

/// The trace of Frobenius modulo two: one where `x^3 + a x + b` has no root
/// in the field, else zero.
#[verifier::opaque]
pub open spec fn even_residue(c: Field) -> Result<int, Error> {
    match poly_is_gcd_one(
        curve_polynomial(c.a, c.b),
        poly_sub(xy_poly(1, c.p, 0), xy_poly(1, 1, 0)),
        c.p,
    ) {
        Ok(true) => Ok(1),
        Ok(false) => Ok(0),
        Err(e) => Err(e),
    }
}

/// The trace of Frobenius modulo the prime `l`.
pub open spec fn residue_spec(c: Field, l: int) -> Result<int, Error> {
    if l == 2 {
        even_residue(c)
    } else {
        odd_residue(c, l)
    }
}

/// The small primes of the driver, by their place.
pub open spec fn small_prime(i: int) -> int {
    if i == 0 {
        2
    } else if i == 1 {
        3
    } else if i == 2 {
        5
    } else if i == 3 {
        7
    } else if i == 4 {
        11
    } else if i == 5 {
        13
    } else if i == 6 {
        17
    } else {
        19
    }
}

/// The number of small primes of the driver.
pub open spec fn small_prime_count() -> int {
    8
}

/// The residues of the trace from the `i`-th small prime on, after `acc`:
/// primes other than `p` are taken until the square of their product passes
/// `16 p`, that is until the product passes `4 sqrt(p)`.
pub open spec fn schoof_from(c: Field, i: int, product: int, acc: Seq<(int, int)>) -> Result<
    Seq<(int, int)>,
    Error,
>
    decreases small_prime_count() - i,
{
    if i < 0 || i >= small_prime_count() || product * product > 16 * c.p {
        Ok(acc)
    } else if small_prime(i) == c.p {
        schoof_from(c, i + 1, product, acc)
    } else {
        match residue_spec(c, small_prime(i)) {
            Ok(r) => schoof_from(c, i + 1, product * small_prime(i), acc.push((small_prime(i), r))),
            Err(e) => Err(e),
        }
    }
}

/// What `schoof` returns: for a prime `p` the residues of the trace modulo
/// small primes.
pub open spec fn schoof_spec(a: int, b: int, p: int) -> Result<Seq<(int, int)>, Error> {
    if !is_prime(p) {
        Err(Error::DomainError)
    } else {
        schoof_from(Field { a, b, p }, 0, 1, Seq::empty())
    }
}

/// The representative of least size of `r` modulo `l`.
pub open spec fn symmetric_residue(l: int, r: int) -> int {
    if 2 * (r % l) > l {
        r % l - l
    } else {
        r % l
    }
}

/// What `curve_order` returns: `p + 1 - t` for the trace `t` that the
/// residues give.
pub open spec fn curve_order_spec(a: int, b: int, p: int) -> Result<int, Error> {
    match schoof_spec(a, b, p) {
        Ok(list) => {
            let (l, r) = crt_spec(list);
            Ok(p + 1 - symmetric_residue(l, r))
        },
        Err(e) => Err(e),
    }
}

/// The polynomials of a multiple `[k] P`.
pub struct Multiple {
    pub psi: Result<Polynomial, Error>,
    pub phi: Result<Polynomial, Error>,
    pub omega: Result<Polynomial, Error>,
}

impl View for Multiple {
    type V = MultipleModel;

    open spec fn view(&self) -> MultipleModel {
        MultipleModel {
            psi: result_view(self.psi),
            phi: result_view(self.phi),
            omega: result_view(self.omega),
        }
    }
}

impl Multiple {
    /// The polynomials, where there are any, are in canonical form.
    pub open spec fn wf(&self) -> bool {
        result_wf(self.psi) && result_wf(self.phi) && result_wf(self.omega)
    }
}

/// The state of one run of the driver: the curve, the prime, and the
/// division polynomials computed so far.
pub struct Driver {
    pub a: BigInt,
    pub b: BigInt,
    pub p: BigInt,
    pub division: DivisionPolynomials,
}

impl View for Driver {
    type V = Field;

    open spec fn view(&self) -> Field {
        Field { a: int_of(self.a), b: int_of(self.b), p: int_of(self.p) }
    }
}

impl Driver {
    /// The division polynomials are those of the driver's curve.
    pub open spec fn wf(&self) -> bool {
        self.division.wf() && self.division.a() == self@.a && self.division.b() == self@.b
    }

    /// A driver for `y^2 = x^3 + a x + b` over the field of `p` elements.
    pub fn new(a: &BigInt, b: &BigInt, p: &BigInt) -> (r: Driver)
        ensures
            r.wf(),
            r@ == (Field { a: int_of(*a), b: int_of(*b), p: int_of(*p) }),
    {
        Driver { a: a.clone(), b: b.clone(), p: p.clone(), division: DivisionPolynomials::new(a, b) }
    }

    /// The polynomials of `[k] P`.
    pub fn multiple(&mut self, k: i64) -> (r: Multiple)
        requires
            old(self).wf(),
        ensures
            final(self).wf(),
            final(self)@ == old(self)@,
            r.wf(),
            r@ == multiple_spec(old(self)@, k as int),
    {
        let n = big_from_i64(k);
        let psi = self.division.psi(&n);
        let phi = self.division.phi(&n);
        let omega = self.division.omega(&n);
        Multiple { psi, phi, omega }
    }

    /// Reduction by the curve modulo `p`.
    pub fn reduce(&self, x: &Result<Polynomial, Error>) -> (r: Result<Polynomial, Error>)
        ensures
            result_wf(r),
            result_view(r) == reduced(self@, result_view(*x)),
    {
        try_reduction_modular(x, &self.a, &self.b, &self.p)
    }

    /// `x^(p^2)`.
    pub fn frobenius_x(&self) -> (r: Result<Polynomial, Error>)
        ensures
            result_wf(r),
            result_view(r) == frobenius_x(self@),
    {
        xy_polynomial(&big_from_i64(1), &big_mul(&self.p, &self.p), &big_from_i64(0))
    }

    /// `y^(p^2)` reduced by the curve.
    pub fn frobenius_y(&self) -> (r: Result<Polynomial, Error>)
        ensures
            result_wf(r),
            result_view(r) == frobenius_y(self@),
    {
        self.reduce(&xy_polynomial(&big_from_i64(1), &big_from_i64(0), &big_mul(&self.p, &self.p)))
    }

    /// `omega - y^(p^2) psi^3`.
    pub fn slope_numerator(&self, m: &Multiple) -> (r: Result<Polynomial, Error>)
        requires
            m.wf(),
        ensures
            result_wf(r),
            result_view(r) == slope_numerator(self@, m@),
    {
        proof {
            reveal(slope_numerator);
        }
        self.reduce(&try_sub(&m.omega, &try_mul(&self.frobenius_y(), &try_power(&m.psi, 3))))
    }

    /// `phi - x^(p^2) psi^2`.
    pub fn slope_denominator(&self, m: &Multiple) -> (r: Result<Polynomial, Error>)
        requires
            m.wf(),
        ensures
            result_wf(r),
            result_view(r) == slope_denominator(self@, m@),
    {
        proof {
            reveal(slope_denominator);
        }
        self.reduce(&try_sub(&m.phi, &try_mul(&self.frobenius_x(), &try_power(&m.psi, 2))))
    }

    /// The numerator of the abscissa of the sum of the Frobenius square of
    /// `P` and `[k] P`.
    pub fn sum_x_numerator(&self, m: &Multiple) -> (r: Result<Polynomial, Error>)
        requires
            m.wf(),
        ensures
            result_wf(r),
            result_view(r) == sum_x_numerator(self@, m@),
    {
        proof {
            reveal(sum_x_numerator);
        }
        let d2 = try_power(&self.slope_numerator(m), 2);
        let f2 = try_power(&self.slope_denominator(m), 2);
        let s = try_neg(&try_add(&m.phi, &try_mul(&self.frobenius_x(), &try_power(&m.psi, 2))));
        self.reduce(&try_add(&d2, &try_mul(&s, &f2)))
    }

    /// The denominator of that abscissa.
    pub fn sum_x_denominator(&self, m: &Multiple) -> (r: Result<Polynomial, Error>)
        requires
            m.wf(),
        ensures
            result_wf(r),
            result_view(r) == sum_x_denominator(self@, m@),
    {
        proof {
            reveal(sum_x_denominator);
        }
        self.reduce(&try_mul(&try_power(&m.psi, 2), &try_power(&self.slope_denominator(m), 2)))
    }

    /// The numerator of the ordinate of that sum.
    pub fn sum_y_numerator(&self, m: &Multiple) -> (r: Result<Polynomial, Error>)
        requires
            m.wf(),
        ensures
            result_wf(r),
            result_view(r) == sum_y_numerator(self@, m@),
    {
        proof {
            reveal(sum_y_numerator);
        }
        let d = self.slope_numerator(m);
        let f = self.slope_denominator(m);
        let xx2 = xy_polynomial(&big_from_i64(2), &big_mul(&self.p, &self.p), &big_from_i64(0));
        let e = try_add(&m.phi, &try_mul(&xx2, &try_power(&m.psi, 2)));
        let left = try_mul(&d, &try_sub(&try_mul(&e, &try_power(&f, 2)), &try_power(&d, 2)));
        let right = try_mul(&try_mul(&self.frobenius_y(), &try_power(&m.psi, 3)), &try_power(&f, 3));
        self.reduce(&try_sub(&left, &right))
    }

    /// The denominator of that ordinate.
    pub fn sum_y_denominator(&self, m: &Multiple) -> (r: Result<Polynomial, Error>)
        requires
            m.wf(),
        ensures
            result_wf(r),
            result_view(r) == sum_y_denominator(self@, m@),
    {
        proof {
            reveal(sum_y_denominator);
        }
        self.reduce(&try_mul(&try_power(&m.psi, 3), &try_power(&self.slope_denominator(m), 3)))
    }

    /// `psi_l (mod p)`.
    pub fn torsion_polynomial(&mut self, l: i64) -> (r: Result<Polynomial, Error>)
        requires
            old(self).wf(),
        ensures
            final(self).wf(),
            final(self)@ == old(self)@,
            result_wf(r),
            result_view(r) == torsion_polynomial(old(self)@, l as int),
    {
        let psi = self.division.psi(&big_from_i64(l));
        try_modulo(&psi, &self.p)
    }
}

/// Whether a polynomial is zero.
pub fn vanishes_of(x: &Result<Polynomial, Error>) -> (r: Result<bool, Error>)
    ensures
        r == vanishes(result_view(*x)),
{
    match x {
        Ok(s) => Ok(s.is_zero()),
        Err(e) => Err(*e),
    }
}

/// The polynomial without one factor `y`, where it has `y`.
pub fn without_y_of(x: &Result<Polynomial, Error>) -> (r: Result<Polynomial, Error>)
    requires
        result_wf(*x),
    ensures
        result_wf(r),
        result_view(r) == without_y(result_view(*x)),
{
    match x {
        Ok(s) => {
            if s.has_y() {
                match xy_small(1, 0, 1) {
                    Ok(y) => s.div(&y),
                    Err(e) => Err(e),
                }
            } else {
                Ok(s.clone())
            }
        },
        Err(e) => Err(*e),
    }
}

/// The small primes of the driver, by their place.
pub fn small_prime_at(i: usize) -> (r: i64)
    ensures
        r == small_prime(i as int),
{
    if i == 0 {
        2
    } else if i == 1 {
        3
    } else if i == 2 {
        5
    } else if i == 3 {
        7
    } else if i == 4 {
        11
    } else if i == 5 {
        13
    } else if i == 6 {
        17
    } else {
        19
    }
}

/// The least `w` in `[1, l)` with `w^2 = k (mod l)`, if there is one.
pub fn square_root_modulo(l: i64, k: i64) -> (r: Option<i64>)
    requires
        2 <= l <= 0xFFFF,
    ensures
        match r {
            Some(w) => find_square_root(l as int, k as int, 1) == Some(w as int) && 1 <= w < l,
            None => find_square_root(l as int, k as int, 1) is None,
        },
{
    let mut w: i64 = 1;
    while w < l
        invariant
            1 <= w <= l <= 0xFFFF,
            find_square_root(l as int, k as int, w as int) == find_square_root(
                l as int,
                k as int,
                1,
            ),
        decreases l - w,
    {
        assert(w * w <= 0xFFFF * 0xFFFF) by (nonlinear_arith)
            requires
                1 <= w <= 0xFFFF,
        ;
        if (w * w) % l == k {
            return Some(w);
        }
        w = w + 1;
    }
    None
}

/// `x` reduced into `[0, l)`.
fn residue_of(x: i64, l: i64) -> (r: BigInt)
    requires
        l >= 2,
    ensures
        int_of(r) == (x as int) % (l as int),
{
    big_mod_floor(&big_from_i64(x), &big_from_i64(l))
}

impl Driver {
    /// The difference of the abscissas of the sum and of the Frobenius image
    /// of `[j] P`, modulo `psi_l`.
    pub fn x_difference(
        &mut self,
        num1: &Result<Polynomial, Error>,
        den1: &Result<Polynomial, Error>,
        psi_l: &Result<Polynomial, Error>,
        l: i64,
        k: i64,
        j: i64,
    ) -> (r: Result<Polynomial, Error>)
        requires
            old(self).wf(),
            result_view(*num1) == sum_x_numerator(old(self)@, multiple_spec(old(self)@, k as int)),
            result_view(*den1) == sum_x_denominator(old(self)@, multiple_spec(old(self)@, k as int)),
            result_wf(*psi_l),
            result_view(*psi_l) == torsion_polynomial(old(self)@, l as int),
        ensures
            final(self).wf(),
            final(self)@ == old(self)@,
            result_wf(r),
            result_view(r) == x_difference(old(self)@, l as int, k as int, j as int),
    {
        proof {
            reveal(x_difference);
        }
        let mj = self.multiple(j);
        let num2 = self.reduce(&try_frob(&mj.phi, &self.p));
        let den2 = self.reduce(&try_power(&try_frob(&mj.psi, &self.p), 2));
        let p1 = self.reduce(&try_sub(&try_mul(num1, &den2), &try_mul(&num2, den1)));
        try_remainder(&p1, psi_l, &self.p)
    }

    /// The difference of the ordinates of the sum and of the Frobenius image
    /// of `[j] P`, without the factor `y`, modulo `psi_l`.
    pub fn y_difference(
        &mut self,
        psi_l: &Result<Polynomial, Error>,
        l: i64,
        k: i64,
        j: i64,
    ) -> (r: Result<Polynomial, Error>)
        requires
            old(self).wf(),
            result_wf(*psi_l),
            result_view(*psi_l) == torsion_polynomial(old(self)@, l as int),
        ensures
            final(self).wf(),
            final(self)@ == old(self)@,
            result_wf(r),
            result_view(r) == y_difference(old(self)@, l as int, k as int, j as int),
    {
        proof {
            reveal(y_difference);
        }
        let m = self.multiple(k);
        let mj = self.multiple(j);
        let num3 = self.sum_y_numerator(&m);
        let den3 = self.sum_y_denominator(&m);
        let num4 = self.reduce(&try_frob(&mj.omega, &self.p));
        let den4 = self.reduce(&try_power(&try_frob(&mj.psi, &self.p), 3));
        let p8 = self.reduce(&try_sub(&try_mul(&num3, &den4), &try_mul(&num4, &den3)));
        let p9 = try_modulo(&without_y_of(&p8), &self.p);
        try_remainder(&p9, psi_l, &self.p)
    }

    /// The first `j` in `[1, j_max]` for which the abscissas agree on the
    /// `l`-torsion, if there is one.
    pub fn find_multiple(
        &mut self,
        psi_l: &Result<Polynomial, Error>,
        l: i64,
        k: i64,
        j_max: i64,
    ) -> (r: Result<Option<i64>, Error>)
        requires
            old(self).wf(),
            j_max < i64::MAX,
            result_wf(*psi_l),
            result_view(*psi_l) == torsion_polynomial(old(self)@, l as int),
        ensures
            final(self).wf(),
            final(self)@ == old(self)@,
            match r {
                Ok(Some(j)) => find_multiple(old(self)@, l as int, k as int, 1, j_max as int) == Ok::<
                    Option<int>,
                    Error,
                >(Some(j as int)) && 1 <= j <= j_max,
                Ok(None) => find_multiple(old(self)@, l as int, k as int, 1, j_max as int) == Ok::<
                    Option<int>,
                    Error,
                >(None),
                Err(e) => find_multiple(old(self)@, l as int, k as int, 1, j_max as int) == Err::<
                    Option<int>,
                    Error,
                >(e),
            },
    {
        let m = self.multiple(k);
        let num1 = self.sum_x_numerator(&m);
        let den1 = self.sum_x_denominator(&m);
        let ghost c = self@;
        let mut j: i64 = 1;
        while j <= j_max
            invariant
                1 <= j,
                j_max < i64::MAX,
                self.wf(),
                self@ == c,
                c == old(self)@,
                result_view(num1) == sum_x_numerator(c, multiple_spec(c, k as int)),
                result_view(den1) == sum_x_denominator(c, multiple_spec(c, k as int)),
                result_wf(*psi_l),
                result_view(*psi_l) == torsion_polynomial(c, l as int),
                find_multiple(c, l as int, k as int, j as int, j_max as int) == find_multiple(
                    c,
                    l as int,
                    k as int,
                    1,
                    j_max as int,
                ),
            decreases j_max - j + 1,
        {
            let p1 = self.x_difference(&num1, &den1, psi_l, l, k, j);
            match vanishes_of(&p1) {
                Ok(true) => {
                    return Ok(Some(j));
                },
                Ok(false) => {},
                Err(e) => {
                    return Err(e);
                },
            }
            j = j + 1;
        }
        Ok(None)
    }

    /// The trace modulo `l` where the Frobenius map acts on some `l`-torsion
    /// point as `w` or `-w`.
    pub fn eigenvalue_residue(&mut self, psi_l: &Result<Polynomial, Error>, l: i64, w: i64) -> (r:
        Result<BigInt, Error>)
        requires
            old(self).wf(),
            2 <= l <= 0xFFFF,
            1 <= w < l,
            result_wf(*psi_l),
            result_view(*psi_l) == torsion_polynomial(old(self)@, l as int),
        ensures
            final(self).wf(),
            final(self)@ == old(self)@,
            crate::bigint::big_result_is(r, eigenvalue_residue(old(self)@, l as int, w as int)),
    {
        proof {
            reveal(eigenvalue_residue);
        }
        let m = self.multiple(w);
        let one = big_from_i64(1);
        let zero = big_from_i64(0);
        let xp = xy_polynomial(&one, &self.p, &zero);
        let dx0 = self.reduce(&try_sub(&try_mul(&xp, &try_power(&m.psi, 2)), &m.phi));
        let dx = try_remainder(&dx0, psi_l, &self.p);
        match vanishes_of(&dx) {
            Ok(false) => Ok(big_from_i64(0)),
            Ok(true) => {
                let yp = xy_polynomial(&one, &zero, &self.p);
                let dy = without_y_of(
                    &self.reduce(&try_sub(&try_mul(&yp, &try_power(&m.psi, 3)), &m.omega)),
                );
                match dy {
                    Ok(u) => match psi_l {
                        Ok(v) => match u.is_gcd_one(v, &self.p) {
                            Ok(true) => Ok(residue_of(-2 * w, l)),
                            Ok(false) => Ok(residue_of(2 * w, l)),
                            Err(e) => Err(e),
                        },
                        Err(e) => Err(*e),
                    },
                    Err(e) => Err(e),
                }
            },
            Err(e) => Err(e),
        }
    }

    /// The trace of Frobenius modulo the odd prime `l`.
    pub fn odd_residue(&mut self, l: i64) -> (r: Result<BigInt, Error>)
        requires
            old(self).wf(),
            3 <= l <= 0xFFFF,
        ensures
            final(self).wf(),
            final(self)@ == old(self)@,
            crate::bigint::big_result_is(r, odd_residue(old(self)@, l as int)),
    {
        proof {
            reveal(odd_residue);
        }
        let kb = big_mod_floor(&self.p, &big_from_i64(l));
        let k = match crate::integer::big_to_u64(&kb) {
            Some(v) => v as i64,
            None => {
                assert(false);
                0
            },
        };
        let psi_l = self.torsion_polynomial(l);
        match self.same_abscissa(&psi_l, l, k) {
            Ok(true) => self.square_root_residue(&psi_l, l, k),
            Ok(false) => match self.find_multiple(&psi_l, l, k, (l - 1) / 2) {
                Ok(Some(j)) => {
                    let dy = self.y_difference(&psi_l, l, k, j);
                    match vanishes_of(&dy) {
                        Ok(true) => Ok(residue_of(j, l)),
                        Ok(false) => Ok(residue_of(-j, l)),
                        Err(e) => Err(e),
                    }
                },
                Ok(None) => self.square_root_residue(&psi_l, l, k),
                Err(e) => Err(e),
            },
            Err(e) => Err(e),
        }
    }

    /// Whether the square of the Frobenius map and the multiplication by `k`
    /// agree in the abscissa on all of the `l`-torsion.
    pub fn same_abscissa(&mut self, psi_l: &Result<Polynomial, Error>, l: i64, k: i64) -> (r:
        Result<bool, Error>)
        requires
            old(self).wf(),
            result_wf(*psi_l),
            result_view(*psi_l) == torsion_polynomial(old(self)@, l as int),
        ensures
            final(self).wf(),
            final(self)@ == old(self)@,
            r == same_abscissa(old(self)@, l as int, k as int),
    {
        proof {
            reveal(same_abscissa);
        }
        let m = self.multiple(k);
        let f = self.slope_denominator(&m);
        vanishes_of(&try_remainder(&f, psi_l, &self.p))
    }

    /// The trace modulo `l` by the square roots of `k = p mod l`.
    pub fn square_root_residue(&mut self, psi_l: &Result<Polynomial, Error>, l: i64, k: i64) -> (r:
        Result<BigInt, Error>)
        requires
            old(self).wf(),
            2 <= l <= 0xFFFF,
            result_wf(*psi_l),
            result_view(*psi_l) == torsion_polynomial(old(self)@, l as int),
        ensures
            final(self).wf(),
            final(self)@ == old(self)@,
            crate::bigint::big_result_is(r, square_root_residue(old(self)@, l as int, k as int)),
    {
        match square_root_modulo(l, k) {
            None => Ok(big_from_i64(0)),
            Some(w) => self.eigenvalue_residue(psi_l, l, w),
        }
    }

    /// The trace of Frobenius modulo two.
    pub fn even_residue(&self) -> (r: Result<BigInt, Error>)
        ensures
            crate::bigint::big_result_is(r, even_residue(self@)),
    {
        proof {
            reveal(even_residue);
        }
        let one = big_from_i64(1);
        let zero = big_from_i64(0);
        let pol_standard = curve_polynomial_of(&self.a, &self.b);
        let xp = xy_polynomial(&one, &self.p, &zero);
        let x = xy_small(1, 1, 0);
        match try_sub(&xp, &x) {
            Ok(pol_l2) => match pol_standard.is_gcd_one(&pol_l2, &self.p) {
                Ok(true) => Ok(big_from_i64(1)),
                Ok(false) => Ok(big_from_i64(0)),
                Err(e) => Err(e),
            },
            Err(e) => Err(e),
        }
    }

    /// The trace of Frobenius modulo the `i`-th small prime.
    pub fn residue(&mut self, i: usize) -> (r: Result<BigInt, Error>)
        requires
            old(self).wf(),
            i < small_prime_count(),
        ensures
            final(self).wf(),
            final(self)@ == old(self)@,
            crate::bigint::big_result_is(r, residue_spec(old(self)@, small_prime(i as int))),
    {
        if i == 0 {
            self.even_residue()
        } else {
            self.odd_residue(small_prime_at(i))
        }
    }
}

/// The residues of the trace of Frobenius of `y^2 = x^3 + a x + b` over the
/// field of `q` elements, `q` prime, modulo small primes whose product
/// passes `4 sqrt(q)`: the algorithm of Schoof.
pub fn schoof(a: &BigInt, b: &BigInt, q: i32) -> (r: Result<Vec<ModResult>, Error>)
    ensures
        match r {
            Ok(v) => schoof_spec(int_of(*a), int_of(*b), q as int) == Ok::<Seq<(int, int)>, Error>(
                mod_results_view(v@),
            ),
            Err(e) => schoof_spec(int_of(*a), int_of(*b), q as int) == Err::<
                Seq<(int, int)>,
                Error,
            >(e),
        },
{
    if q < 2 {
        return Err(Error::DomainError);
    }
    if !is_prime_u64(q as u64) {
        return Err(Error::DomainError);
    }
    let qq = big_from_i64(q as i64);
    let bound = big_mul(&big_from_i64(16), &qq);
    let mut driver = Driver::new(a, b, &qq);
    let ghost c = driver@;
    let mut mod_result: Vec<ModResult> = Vec::new();
    let mut product = big_from_i64(1);
    let mut i: usize = 0;
    let mut enough = false;
    proof {
        assert(mod_results_view(mod_result@) =~= Seq::<(int, int)>::empty());
    }
    while i < 8 && !enough
        invariant
            0 <= i <= 8,
            driver.wf(),
            driver@ == c,
            int_of(qq) == q,
            c == (Field { a: int_of(*a), b: int_of(*b), p: q as int }),
            is_prime(q as int),
            int_of(bound) == 16 * q,
            enough ==> int_of(product) * int_of(product) > 16 * c.p,
            schoof_from(c, i as int, int_of(product), mod_results_view(mod_result@)) == schoof_from(
                c,
                0,
                1,
                Seq::empty(),
            ),
        decreases 8 - i + (if enough { 0int } else { 1int }),
    {
        if big_lt(&bound, &big_mul(&product, &product)) {
            enough = true;
        } else {
            let l = small_prime_at(i);
            if l != q as i64 {
                let ghost acc = mod_results_view(mod_result@);
                match driver.residue(i) {
                    Ok(r) => {
                        let lb = big_from_i64(l);
                        product = big_mul(&product, &lb);
                        mod_result.push(ModResult { l: lb, r });
                        proof {
                            assert(mod_results_view(mod_result@) =~= acc.push(
                                (small_prime(i as int), int_of(r)),
                            ));
                        }
                    },
                    Err(e) => {
                        return Err(e);
                    },
                }
            }
            i = i + 1;
        }
    }
    Ok(mod_result)
}

/// The number of points of `y^2 = x^3 + a x + b` over the field of `p`
/// elements: `p + 1 - t` for the trace `t` of least size that the residues
/// of `schoof` give.
pub fn curve_order(a: &BigInt, b: &BigInt, p: i32) -> (r: Result<BigInt, Error>)
    ensures
        crate::bigint::big_result_is(r, curve_order_spec(int_of(*a), int_of(*b), p as int)),
{
    let list = match schoof(a, b, p) {
        Ok(v) => v,
        Err(e) => {
            return Err(e);
        },
    };
    let m = chinese_remainder(&list);
    proof {
        lemma_schoof_result(int_of(*a), int_of(*b), p as int);
    }
    let t = symmetric(&m.l, &m.r);
    Ok(big_sub(&big_from_i64(p as i64 + 1), &t))
}

/// The representative of least size of `r` modulo `l`.
pub fn symmetric(l: &BigInt, r: &BigInt) -> (t: BigInt)
    requires
        int_of(*l) >= 1,
    ensures
        int_of(t) == symmetric_residue(int_of(*l), int_of(*r)),
{
    let m = big_mod_floor(r, l);
    if big_lt(l, &big_mul(&big_from_i64(2), &m)) {
        big_sub(&m, l)
    } else {
        m
    }
}

} // verus!
