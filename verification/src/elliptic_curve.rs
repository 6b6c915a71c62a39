use crate::algebra::curve_polynomial;
use crate::bigint::{big_result_is, inverse_spec, Inverse};
use crate::error::Error;
use crate::integer::{
    big_add, big_div_floor, big_eq, big_from_i64, big_from_u64, big_is_negative, big_is_odd,
    big_is_zero, big_le, big_lt, big_mod_floor, big_mul, big_neg, big_sub, big_to_string,
    big_to_u64, decimal_text, int_of, is_prime, is_prime_u64,
};
use crate::poly_ops::curve_polynomial_of;
use crate::polynomial::{polynomial_text, Polynomial};
use num_bigint::BigInt;
use vstd::prelude::*;
use vstd::std_specs::cmp::PartialEqSpecImpl;
use vstd::string::StringExecFns;

verus! {

/// A point as mathematics sees it: `z = 0` for the point at infinity, else
/// the affine point `(x, y)`.
pub struct PointModel {
    pub x: int,
    pub y: int,
    pub z: int,
}

/// The curve `y^2 = x^3 + a x + b` over the integers modulo `p`.
pub struct CurveModel {
    pub a: int,
    pub b: int,
    pub p: int,
}

/// The point at infinity.
pub open spec fn infinity_point() -> PointModel {
    PointModel { x: 0, y: 1, z: 0 }
}

/// The right-hand side of the curve at `x`.
pub open spec fn curve_rhs(c: CurveModel, x: int) -> int {
    x * x * x + c.a * x + c.b
}

/// The point lies on the curve: it is the point at infinity, or
/// `y^2 = x^3 + a x + b (mod p)`.
pub open spec fn on_curve(c: CurveModel, pt: PointModel) -> bool {
    pt.z == 0 || (curve_rhs(c, pt.x) % c.p - (pt.y * pt.y) % c.p) % c.p == 0
}

/// The coordinates reduced into `[0, p)`.
pub open spec fn canonical_point(c: CurveModel, pt: PointModel) -> PointModel {
    PointModel { x: pt.x % c.p, y: pt.y % c.p, z: pt.z % c.p }
}

/// The negative of a point: `(x, -y mod p)`; the point at infinity is its
/// own negative.
pub open spec fn negate_point(c: CurveModel, pt: PointModel) -> PointModel {
    if pt.z == 0 {
        pt
    } else {
        PointModel { x: pt.x, y: (-pt.y) % c.p, z: pt.z }
    }
}

/// The third point of the line of slope `m` through `(x1, y1)` and a point
/// with the abscissa `x2`, reflected.
pub open spec fn chord_point(c: CurveModel, m: int, x1: int, y1: int, x2: int) -> PointModel {
    let x3 = m * m - x1 - x2;
    PointModel { x: x3 % c.p, y: (m * (x1 - x3) - y1) % c.p, z: 1 }
}

/// The sum of two points of the curve by the affine formulas.
pub open spec fn plus_spec(c: CurveModel, p1: PointModel, p2: PointModel) -> Result<
    PointModel,
    Error,
> {
    if !on_curve(c, p1) || !on_curve(c, p2) {
        Err(Error::DomainError)
    } else if p1.z == 0 {
        Ok(p2)
    } else if p2.z == 0 {
        Ok(p1)
    } else {
        let x1 = p1.x % c.p;
        let y1 = p1.y % c.p;
        let x2 = p2.x % c.p;
        let y2 = p2.y % c.p;
        if x1 != x2 {
            match inverse_spec(x2 - x1, c.p) {
                Ok(inv) => Ok(chord_point(c, (y2 - y1) * inv, x1, y1, x2)),
                Err(e) => Err(e),
            }
        } else if y1 != y2 || y1 == 0 {
            Ok(infinity_point())
        } else {
            match inverse_spec(2 * y1, c.p) {
                Ok(inv) => Ok(chord_point(c, (3 * (x1 * x1) + c.a) * inv, x1, y1, x1)),
                Err(e) => Err(e),
            }
        }
    }
}

/// The j-invariant `1728 * 4 a^3 / (4 a^3 + 27 b^2) (mod p)`.
pub open spec fn j_invariant_spec(c: CurveModel) -> Result<int, Error> {
    let n = 4 * (c.a * c.a * c.a);
    let d = n + 27 * (c.b * c.b);
    match inverse_spec(d, c.p) {
        Ok(inv) => Ok((1728 * n * inv) % c.p),
        Err(e) => Err(e),
    }
}

/// How a point is written: `O`, or `(x, y)`.
pub open spec fn point_text(pt: PointModel) -> Seq<char> {
    if pt.z == 0 {
        seq!['O']
    } else {
        seq!['('] + decimal_text(pt.x) + seq![',', ' '] + decimal_text(pt.y) + seq![')']
    }
}

/// A point `(x, y, z)`: the point at infinity for `z = 0`, else `(x, y)`.
#[derive(Debug)]
pub struct ECPoint {
    pub x: BigInt,
    pub y: BigInt,
    pub z: BigInt,
}

impl View for ECPoint {
    type V = PointModel;

    open spec fn view(&self) -> PointModel {
        PointModel { x: int_of(self.x), y: int_of(self.y), z: int_of(self.z) }
    }
}

impl Clone for ECPoint {
    fn clone(&self) -> (r: Self)
        ensures
            r@ == self@,
    {
        ECPoint { x: self.x.clone(), y: self.y.clone(), z: self.z.clone() }
    }
}

impl PartialEq for ECPoint {
    fn eq(&self, other: &Self) -> (r: bool) {
        big_eq(&self.x, &other.x) && big_eq(&self.y, &other.y) && big_eq(&self.z, &other.z)
    }
}

impl PartialEqSpecImpl for ECPoint {
    open spec fn obeys_eq_spec() -> bool {
        true
    }

    open spec fn eq_spec(&self, other: &Self) -> bool {
        self@ == other@
    }
}

impl Eq for ECPoint {

}

impl ECPoint {
    /// The point `(x, y, z)`.
    pub fn new(x: &BigInt, y: &BigInt, z: &BigInt) -> (r: ECPoint)
        ensures
            r@ == (PointModel { x: int_of(*x), y: int_of(*y), z: int_of(*z) }),
    {
        ECPoint { x: x.clone(), y: y.clone(), z: z.clone() }
    }

    /// The point at infinity.
    pub fn infinity() -> (r: ECPoint)
        ensures
            r@ == infinity_point(),
    {
        ECPoint { x: big_from_i64(0), y: big_from_i64(1), z: big_from_i64(0) }
    }

    /// Whether this is the point at infinity.
    pub fn is_infinity(&self) -> (r: bool)
        ensures
            r == (self@.z == 0),
    {
        big_is_zero(&self.z)
    }

    /// The point as text.
    pub fn to_string(&self) -> (r: String)
        ensures
            r@ == point_text(self@),
    {
        let mut st = String::new();
        proof {
            reveal_strlit("O");
            reveal_strlit("(");
            reveal_strlit(", ");
            reveal_strlit(")");
        }
        if self.is_infinity() {
            st.append("O");
            assert(st@ =~= seq!['O']);
        } else {
            st.append("(");
            let x = big_to_string(&self.x);
            st.append(x.as_str());
            st.append(", ");
            let y = big_to_string(&self.y);
            st.append(y.as_str());
            st.append(")");
            assert(st@ =~= point_text(self@));
        }
        st
    }
}

/// `y^2 = x^3 + a x + b` over `GF(p)`.
pub struct EllipticCurve {
    pub a: BigInt,
    pub b: BigInt,
    pub p: BigInt,
    /// `x^3 + a x + b`
    pub pol: Polynomial,
    /// rational points
    pub points: Vec<ECPoint>,
}

impl View for EllipticCurve {
    type V = CurveModel;

    open spec fn view(&self) -> CurveModel {
        CurveModel { a: int_of(self.a), b: int_of(self.b), p: int_of(self.p) }
    }
}

impl EllipticCurve {
    /// The invariant of the type: a modulus of at least two, and the
    /// defining polynomial of `a` and `b`.
    pub open spec fn wf(&self) -> bool {
        &&& self@.p >= 2
        &&& self.pol.wf()
        &&& self.pol@ == curve_polynomial(self@.a, self@.b)
    }

    /// The curve without its points, for a modulus too large to list them.
    /// A modulus below two is rejected.
    pub fn new_raw(a: &BigInt, b: &BigInt, p: &BigInt) -> (r: Result<EllipticCurve, Error>)
        ensures
            match r {
                Ok(c) => c.wf() && c@ == (CurveModel { a: int_of(*a), b: int_of(*b), p: int_of(*p) })
                    && c.points@.len() == 0,
                Err(e) => e == Error::DomainError && int_of(*p) < 2,
            },
    {
        let two = big_from_i64(2);
        if big_lt(p, &two) {
            return Err(Error::DomainError);
        }
        Ok(
            EllipticCurve {
                a: a.clone(),
                b: b.clone(),
                p: p.clone(),
                pol: curve_polynomial_of(a, b),
                points: Vec::new(),
            },
        )
    }

    /// `x^3 + a x + b` at `x`.
    fn rhs(&self, x: &BigInt) -> (r: BigInt)
        ensures
            int_of(r) == curve_rhs(self@, int_of(*x)),
    {
        let x3 = big_mul(&big_mul(x, x), x);
        big_add(&big_add(&x3, &big_mul(&self.a, x)), &self.b)
    }

    /// The j-invariant of the curve.
    pub fn j_invariant(&self) -> (r: Result<BigInt, Error>)
        ensures
            big_result_is(r, j_invariant_spec(self@)),
    {
        let a3 = big_mul(&big_mul(&self.a, &self.a), &self.a);
        let n = big_mul(&big_from_i64(4), &a3);
        let d = big_add(&n, &big_mul(&big_from_i64(27), &big_mul(&self.b, &self.b)));
        match d.inverse(&self.p) {
            Ok(inv) => {
                let j = big_mul(&big_mul(&big_from_i64(1728), &n), &inv);
                Ok(big_mod_floor(&j, &self.p))
            },
            Err(e) => Err(e),
        }
    }

    /// Whether the point lies on the curve.
    pub fn is_on_curve(&self, ecpoint: &ECPoint) -> (r: bool)
        requires
            self.wf(),
        ensures
            r == on_curve(self@, ecpoint@),
    {
        if ecpoint.is_infinity() {
            return true;
        }
        let c = self.rhs(&ecpoint.x);
        let cc = big_mod_floor(&c, &self.p);
        let d = big_mul(&ecpoint.y, &ecpoint.y);
        let dd = big_mod_floor(&d, &self.p);
        let diff = big_sub(&cc, &dd);
        let r = big_mod_floor(&diff, &self.p);
        big_is_zero(&r)
    }

    /// The point with its coordinates reduced into `[0, p)`.
    pub fn canonicalize(&self, point: &ECPoint) -> (r: ECPoint)
        requires
            self.wf(),
        ensures
            r@ == canonical_point(self@, point@),
    {
        ECPoint {
            x: big_mod_floor(&point.x, &self.p),
            y: big_mod_floor(&point.y, &self.p),
            z: big_mod_floor(&point.z, &self.p),
        }
    }

    /// The third point of the line of slope `m`.
    fn chord(&self, m: &BigInt, x1: &BigInt, y1: &BigInt, x2: &BigInt) -> (r: ECPoint)
        requires
            self.wf(),
        ensures
            r@ == chord_point(self@, int_of(*m), int_of(*x1), int_of(*y1), int_of(*x2)),
    {
        let x3 = big_sub(&big_sub(&big_mul(m, m), x1), x2);
        let y3 = big_sub(&big_mul(m, &big_sub(x1, &x3)), y1);
        ECPoint {
            x: big_mod_floor(&x3, &self.p),
            y: big_mod_floor(&y3, &self.p),
            z: big_from_i64(1),
        }
    }

    /// Elliptic curve point addition. Points that are not on the curve are
    /// rejected.
    pub fn plus(&self, point1: &ECPoint, point2: &ECPoint) -> (r: Result<ECPoint, Error>)
        requires
            self.wf(),
        ensures
            point_result_is(r, plus_spec(self@, point1@, point2@)),
            is_prime(self@.p) && self@.p >= 3 && on_curve(self@, point1@) && on_curve(
                self@,
                point2@,
            ) ==> r is Ok,
    {
        proof {
            if is_prime(self@.p) && self@.p >= 3 && on_curve(self@, point1@) && on_curve(
                self@,
                point2@,
            ) {
                crate::curve_laws::lemma_plus_defined(self@, point1@, point2@);
            }
        }
        if !self.is_on_curve(point1) || !self.is_on_curve(point2) {
            return Err(Error::DomainError);
        }
        if point1.is_infinity() {
            return Ok(point2.clone());
        } else if point2.is_infinity() {
            return Ok(point1.clone());
        }
        let p1 = self.canonicalize(point1);
        let p2 = self.canonicalize(point2);
        if !big_eq(&p1.x, &p2.x) {
            match big_sub(&p2.x, &p1.x).inverse(&self.p) {
                Ok(inv) => {
                    let m = big_mul(&big_sub(&p2.y, &p1.y), &inv);
                    Ok(self.chord(&m, &p1.x, &p1.y, &p2.x))
                },
                Err(e) => Err(e),
            }
        } else if !big_eq(&p1.y, &p2.y) || big_is_zero(&p1.y) {
            Ok(ECPoint::infinity())
        } else {
            match big_mul(&big_from_i64(2), &p1.y).inverse(&self.p) {
                Ok(inv) => {
                    let n = big_add(&big_mul(&big_from_i64(3), &big_mul(&p1.x, &p1.x)), &self.a);
                    let m = big_mul(&n, &inv);
                    Ok(self.chord(&m, &p1.x, &p1.y, &p1.x))
                },
                Err(e) => Err(e),
            }
        }
    }

    /// Point negation: `-P`.
    pub fn negate(&self, point: &ECPoint) -> (r: ECPoint)
        requires
            self.wf(),
        ensures
            r@ == negate_point(self@, point@),
    {
        if point.is_infinity() {
            return point.clone();
        }
        ECPoint {
            x: point.x.clone(),
            y: big_mod_floor(&big_neg(&point.y), &self.p),
            z: point.z.clone(),
        }
    }
}

/// Whether a result of the library holds what its model says.
pub open spec fn point_result_is(r: Result<ECPoint, Error>, s: Result<PointModel, Error>) -> bool {
    match r {
        Ok(v) => s == Ok::<PointModel, Error>(v@),
        Err(e) => s == Err::<PointModel, Error>(e),
    }
}

/// The models of a list of points.
pub open spec fn points_view(s: Seq<ECPoint>) -> Seq<PointModel> {
    Seq::new(s.len(), |i: int| s[i]@)
}

/// The least `y` in `[y, p)` with `y^2 = r (mod p)`, if there is one.
pub open spec fn first_root(r: int, p: int, y: int) -> Option<int>
    decreases p - y,
{
    if y >= p {
        None
    } else if (y * y) % p == r {
        Some(y)
    } else {
        first_root(r, p, y + 1)
    }
}

/// The points of the curve with the abscissa `x`: the one with the least
/// ordinate, then its negative where that is another point.
pub open spec fn points_of_x(c: CurveModel, x: int) -> Seq<PointModel> {
    match first_root(curve_rhs(c, x) % c.p, c.p, 0) {
        None => Seq::empty(),
        Some(y) => {
            let pt = PointModel { x, y, z: 1 };
            if negate_point(c, pt) != pt {
                seq![pt, negate_point(c, pt)]
            } else {
                seq![pt]
            }
        },
    }
}

/// The affine points with an abscissa below `x_end`, by rising abscissa.
pub open spec fn affine_points(c: CurveModel, x_end: int) -> Seq<PointModel>
    decreases x_end,
{
    if x_end <= 0 {
        Seq::empty()
    } else {
        affine_points(c, x_end - 1) + points_of_x(c, x_end - 1)
    }
}

/// The rational points of the curve: the affine ones, then the point at
/// infinity.
pub open spec fn curve_points(c: CurveModel) -> Seq<PointModel> {
    affine_points(c, c.p).push(infinity_point())
}

/// What is left of double-and-add: `acc + [n] base`.
pub open spec fn double_and_add(c: CurveModel, acc: PointModel, base: PointModel, n: int) -> Result<
    PointModel,
    Error,
>
    decreases n,
{
    if n <= 0 {
        Ok(acc)
    } else {
        let acc2 = if n % 2 == 1 {
            plus_spec(c, acc, base)
        } else {
            Ok(acc)
        };
        match acc2 {
            Err(e) => Err(e),
            Ok(a2) => if n / 2 == 0 {
                Ok(a2)
            } else {
                match plus_spec(c, base, base) {
                    Ok(b2) => double_and_add(c, a2, b2, n / 2),
                    Err(e) => Err(e),
                }
            },
        }
    }
}

/// `[n] P` by double-and-add; `-[|n|] P` for a negative `n`.
pub open spec fn multiply_spec(c: CurveModel, pt: PointModel, n: int) -> Result<PointModel, Error> {
    if n == 0 {
        Ok(infinity_point())
    } else if n < 0 {
        match double_and_add(c, infinity_point(), pt, -n) {
            Ok(r) => Ok(negate_point(c, r)),
            Err(e) => Err(e),
        }
    } else {
        double_and_add(c, infinity_point(), pt, n)
    }
}

/// `P + (P + (... + P))` with `k` summands.
pub open spec fn repeated_sum(c: CurveModel, pt: PointModel, k: int) -> Result<PointModel, Error>
    decreases k,
{
    if k <= 1 {
        Ok(pt)
    } else {
        match repeated_sum(c, pt, k - 1) {
            Ok(r) => plus_spec(c, pt, r),
            Err(e) => Err(e),
        }
    }
}

/// The search for the order from the sum `r` of `k - 1` summands on: the
/// first `k` whose sum is the point at infinity. No group on the curve has
/// more than `bound = 2 p + 1` points.
pub open spec fn order_from(c: CurveModel, pt: PointModel, r: PointModel, k: int, bound: int) -> Result<
    int,
    Error,
>
    decreases bound - k + 1,
{
    if k > bound {
        Err(Error::DomainError)
    } else {
        match plus_spec(c, pt, r) {
            Ok(r2) => if r2.z == 0 {
                Ok(k)
            } else {
                order_from(c, pt, r2, k + 1, bound)
            },
            Err(e) => Err(e),
        }
    }
}

/// The order of a point: the least `k >= 1` for which the sum of `k` copies
/// is the point at infinity.
pub open spec fn point_order_spec(c: CurveModel, pt: PointModel) -> Result<int, Error> {
    if pt.z == 0 {
        Ok(1)
    } else {
        order_from(c, pt, pt, 2, 2 * c.p + 1)
    }
}

/// The points among `pts[i..]` with `[n] P = O`, after `acc`.
pub open spec fn division_from(
    c: CurveModel,
    pts: Seq<PointModel>,
    i: int,
    acc: Seq<PointModel>,
    n: int,
) -> Result<Seq<PointModel>, Error>
    decreases pts.len() - i,
{
    if i < 0 || i >= pts.len() {
        Ok(acc)
    } else {
        match multiply_spec(c, pts[i], n) {
            Ok(m) => division_from(
                c,
                pts,
                i + 1,
                if m == infinity_point() {
                    acc.push(pts[i])
                } else {
                    acc
                },
                n,
            ),
            Err(e) => Err(e),
        }
    }
}

/// The points of the list with `[n] P = O`.
pub open spec fn division_points_spec(c: CurveModel, pts: Seq<PointModel>, n: int) -> Result<
    Seq<PointModel>,
    Error,
> {
    division_from(c, pts, 0, Seq::empty(), n)
}

/// How a list of points is written: the points with `, ` between them.
pub open spec fn points_text(s: Seq<PointModel>) -> Seq<char>
    decreases s.len(),
{
    if s.len() == 0 {
        Seq::empty()
    } else if s.len() == 1 {
        point_text(s[0])
    } else {
        points_text(s.drop_last()) + seq![',', ' '] + point_text(s.last())
    }
}

/// How a curve is written.
pub open spec fn curve_text(p: int, pol: Seq<char>, cardinality: int, j: int) -> Seq<char> {
    seq!['F', '_'] + decimal_text(p) + seq![':', ' ', 'y', '^', '2', ' ', '=', ' '] + pol + seq![
        ',',
        ' ',
        'c',
        'a',
        'r',
        'd',
        'i',
        'n',
        'a',
        'l',
        'i',
        't',
        'y',
        ':',
    ] + decimal_text(cardinality) + seq![',', ' ', 'j', ':'] + decimal_text(j)
}

/// A list of points.
pub struct ECPointVec(pub Vec<ECPoint>);

impl ECPointVec {
    /// The number of points.
    pub fn len(&self) -> (r: usize)
        ensures
            r == self.0@.len(),
    {
        self.0.len()
    }

    /// The points as text, with `, ` between them.
    pub fn to_string(&self) -> (r: String)
        ensures
            r@ == points_text(points_view(self.0@)),
    {
        let ghost pts = points_view(self.0@);
        let mut st = String::new();
        let mut i: usize = 0;
        proof {
            assert(pts.take(0) =~= Seq::<PointModel>::empty());
        }
        while i < self.0.len()
            invariant
                0 <= i <= self.0@.len(),
                pts == points_view(self.0@),
                st@ == points_text(pts.take(i as int)),
            decreases self.0@.len() - i,
        {
            proof {
                reveal_strlit(", ");
                assert(pts.take(i + 1).drop_last() =~= pts.take(i as int));
                assert(pts.take(i + 1).last() == pts[i as int]);
                assert(pts.take(i + 1)[0] == pts[0]);
            }
            let ghost before = st@;
            if i > 0 {
                st.append(", ");
            }
            let s = self.0[i].to_string();
            st.append(s.as_str());
            proof {
                if i > 0 {
                    assert(st@ =~= before + seq![',', ' '] + point_text(pts[i as int]));
                } else {
                    assert(before =~= Seq::<char>::empty());
                    assert(st@ =~= point_text(pts[0]));
                }
            }
            i = i + 1;
        }
        proof {
            assert(pts.take(i as int) =~= pts);
        }
        st
    }
}

impl EllipticCurve {
    /// The curve with its rational points. A modulus that is no prime below
    /// `2^32` is rejected.
    pub fn new(a: &BigInt, b: &BigInt, p: &BigInt) -> (r: Result<EllipticCurve, Error>)
        ensures
            match r {
                Ok(c) => c.wf() && c@ == (CurveModel { a: int_of(*a), b: int_of(*b), p: int_of(*p) })
                    && is_prime(int_of(*p)) && points_view(c.points@) == curve_points(c@),
                Err(e) => e == Error::DomainError && !(2 <= int_of(*p) <= 0xFFFF_FFFF && is_prime(
                    int_of(*p),
                )),
            },
    {
        let small = match big_to_u64(p) {
            Some(v) => v,
            None => {
                return Err(Error::DomainError);
            },
        };
        if small < 2 || small > 0xFFFF_FFFF {
            return Err(Error::DomainError);
        }
        if !is_prime_u64(small) {
            return Err(Error::DomainError);
        }
        let mut ec = match EllipticCurve::new_raw(a, b, p) {
            Ok(c) => c,
            Err(e) => {
                return Err(e);
            },
        };
        ec.create_points();
        assert(points_view(ec.points@) =~= curve_points(ec@));
        Ok(ec)
    }

    /// The least `y` in `[0, p)` with `y^2 = r (mod p)`, if there is one.
    fn find_root(&self, r: &BigInt) -> (res: Option<BigInt>)
        requires
            self.wf(),
        ensures
            match res {
                Some(y) => first_root(int_of(*r), self@.p, 0) == Some(int_of(y)),
                None => first_root(int_of(*r), self@.p, 0) is None,
            },
    {
        let one = big_from_i64(1);
        let mut y = big_from_i64(0);
        while big_lt(&y, &self.p)
            invariant
                0 <= int_of(y),
                int_of(one) == 1,
                self.wf(),
                first_root(int_of(*r), self@.p, int_of(y)) == first_root(int_of(*r), self@.p, 0),
            decreases self@.p - int_of(y),
        {
            let ypol = big_mod_floor(&big_mul(&y, &y), &self.p);
            if big_eq(&ypol, r) {
                return Some(y);
            }
            y = big_add(&y, &one);
        }
        None
    }

    /// Appends the rational points of the curve to its list of points.
    pub fn create_points(&mut self)
        requires
            old(self).wf(),
        ensures
            final(self).wf(),
            final(self)@ == old(self)@,
            final(self).pol == old(self).pol,
            points_view(final(self).points@) == points_view(old(self).points@) + curve_points(
                old(self)@,
            ),
    {
        let one = big_from_i64(1);
        let mut x = big_from_i64(0);
        let ghost c = self@;
        let ghost before = points_view(self.points@);
        proof {
            assert(points_view(self.points@) =~= before + affine_points(c, 0));
        }
        while big_lt(&x, &self.p)
            invariant
                0 <= int_of(x) <= c.p,
                int_of(one) == 1,
                self.wf(),
                self@ == c,
                self.pol == old(self).pol,
                points_view(self.points@) == before + affine_points(c, int_of(x)),
            decreases c.p - int_of(x),
        {
            let xpol = big_mod_floor(&self.rhs(&x), &self.p);
            let ghost so_far = points_view(self.points@);
            match self.find_root(&xpol) {
                Some(y) => {
                    let point = ECPoint { x: x.clone(), y, z: big_from_i64(1) };
                    let minus_point = self.negate(&point);
                    let ghost pm = point@;
                    let ghost mm = minus_point@;
                    let differ = !(minus_point == point);
                    self.points.push(point);
                    if differ {
                        self.points.push(minus_point);
                        assert(points_view(self.points@) =~= so_far + seq![pm, mm]);
                    } else {
                        assert(points_view(self.points@) =~= so_far + seq![pm]);
                    }
                },
                None => {
                    assert(so_far + Seq::<PointModel>::empty() =~= so_far);
                },
            }
            proof {
                let nx = int_of(x) + 1;
                assert(affine_points(c, nx) == affine_points(c, nx - 1) + points_of_x(c, nx - 1));
                assert(before + affine_points(c, nx) =~= (before + affine_points(c, nx - 1))
                    + points_of_x(c, nx - 1));
            }
            x = big_add(&x, &one);
        }
        let ghost affine = points_view(self.points@);
        self.points.push(ECPoint::infinity());
        proof {
            assert(int_of(x) == c.p);
            assert(points_view(self.points@) =~= affine.push(infinity_point()));
            assert(affine.push(infinity_point()) =~= before + curve_points(c));
        }
    }

    /// All rational points.
    pub fn points(&self) -> (r: Vec<ECPoint>)
        ensures
            points_view(r@) == points_view(self.points@),
    {
        let mut out: Vec<ECPoint> = Vec::new();
        let mut i: usize = 0;
        while i < self.points.len()
            invariant
                0 <= i <= self.points@.len(),
                out@.len() == i,
                forall|k: int| 0 <= k < i ==> (#[trigger] out@[k])@ == self.points@[k]@,
            decreases self.points@.len() - i,
        {
            out.push(self.points[i].clone());
            i = i + 1;
        }
        assert(points_view(out@) =~= points_view(self.points@));
        out
    }

    /// The number of points in the list of the curve.
    pub fn cardinality(&self) -> (r: usize)
        ensures
            r == self.points@.len(),
    {
        self.points.len()
    }

    /// `n * P` by double-and-add.
    pub fn multiply_scalar(&self, point: &ECPoint, n: &BigInt) -> (r: Result<ECPoint, Error>)
        requires
            self.wf(),
        ensures
            point_result_is(r, multiply_spec(self@, point@, int_of(*n))),
            is_prime(self@.p) && self@.p >= 3 && on_curve(self@, point@) ==> r is Ok,
    {
        proof {
            if is_prime(self@.p) && self@.p >= 3 && on_curve(self@, point@) {
                crate::curve_closure::lemma_multiply_closed(self@, point@, int_of(*n));
            }
        }
        if big_is_zero(n) {
            return Ok(ECPoint::infinity());
        }
        let negative = big_is_negative(n);
        let zero = big_from_i64(0);
        let two = big_from_i64(2);
        let mut e = if negative {
            big_neg(n)
        } else {
            n.clone()
        };
        let mut acc = ECPoint::infinity();
        let mut base = point.clone();
        let ghost target = double_and_add(self@, infinity_point(), point@, int_of(e));
        while big_lt(&zero, &e)
            invariant
                int_of(e) >= 0,
                int_of(zero) == 0,
                int_of(two) == 2,
                self.wf(),
                int_of(*n) != 0,
                is_prime(self@.p) && self@.p >= 3 && on_curve(self@, point@) ==> multiply_spec(
                    self@,
                    point@,
                    int_of(*n),
                ) is Ok,
                negative == (int_of(*n) < 0),
                target == double_and_add(
                    self@,
                    infinity_point(),
                    point@,
                    if negative {
                        -int_of(*n)
                    } else {
                        int_of(*n)
                    },
                ),
                double_and_add(self@, acc@, base@, int_of(e)) == target,
            decreases int_of(e),
        {
            if big_is_odd(&e) {
                acc = match self.plus(&acc, &base) {
                    Ok(v) => v,
                    Err(x) => {
                        return Err(x);
                    },
                };
            }
            e = big_div_floor(&e, &two);
            if !big_is_zero(&e) {
                base = match self.plus(&base, &base) {
                    Ok(v) => v,
                    Err(x) => {
                        return Err(x);
                    },
                };
            }
        }
        if negative {
            Ok(self.negate(&acc))
        } else {
            Ok(acc)
        }
    }

    /// The order of `P`: the least number of copies of `P` that add up to
    /// the point at infinity.
    pub fn point_order(&self, point: &ECPoint) -> (r: Result<BigInt, Error>)
        requires
            self.wf(),
        ensures
            big_result_is(r, point_order_spec(self@, point@)),
    {
        if point.is_infinity() {
            return Ok(big_from_i64(1));
        }
        let one = big_from_i64(1);
        let bound = big_add(&big_mul(&big_from_i64(2), &self.p), &one);
        let mut x = big_from_i64(2);
        let mut r_point = point.clone();
        while big_le(&x, &bound)
            invariant
                int_of(x) >= 2,
                int_of(one) == 1,
                int_of(bound) == 2 * self@.p + 1,
                self.wf(),
                order_from(self@, point@, r_point@, int_of(x), int_of(bound)) == point_order_spec(
                    self@,
                    point@,
                ),
            decreases int_of(bound) - int_of(x) + 1,
        {
            r_point = match self.plus(point, &r_point) {
                Ok(v) => v,
                Err(e) => {
                    return Err(e);
                },
            };
            if r_point.is_infinity() {
                return Ok(x);
            }
            x = big_add(&x, &one);
        }
        Err(Error::DomainError)
    }

    /// The points of the curve's list with `[order] P = O`.
    pub fn division_points(&self, order: &BigInt) -> (r: Result<ECPointVec, Error>)
        requires
            self.wf(),
        ensures
            match r {
                Ok(v) => division_points_spec(self@, points_view(self.points@), int_of(*order))
                    == Ok::<Seq<PointModel>, Error>(points_view(v.0@)),
                Err(e) => division_points_spec(self@, points_view(self.points@), int_of(*order))
                    == Err::<Seq<PointModel>, Error>(e),
            },
            is_prime(self@.p) && self@.p >= 3 && (forall|k: int|
                0 <= k < self.points@.len() ==> on_curve(self@, (#[trigger] self.points@[k])@))
                ==> r is Ok,
    {
        proof {
            if is_prime(self@.p) && self@.p >= 3 && (forall|k: int|
                0 <= k < self.points@.len() ==> on_curve(self@, (#[trigger] self.points@[k])@)) {
                let pts = points_view(self.points@);
                assert forall|k: int| 0 <= k < pts.len() implies on_curve(self@, #[trigger] pts[k]) by {
                    assert(pts[k] == self.points@[k]@);
                }
                crate::curve_closure::lemma_division_points_defined(self@, pts, int_of(*order));
            }
        }
        let ghost pts = points_view(self.points@);
        let mut vec: Vec<ECPoint> = Vec::new();
        let mut i: usize = 0;
        proof {
            assert(points_view(vec@) =~= Seq::<PointModel>::empty());
        }
        while i < self.points.len()
            invariant
                0 <= i <= self.points@.len(),
                pts == points_view(self.points@),
                self.wf(),
                is_prime(self@.p) && self@.p >= 3 && (forall|k: int|
                    0 <= k < self.points@.len() ==> on_curve(
                        self@,
                        (#[trigger] self.points@[k])@,
                    )) ==> division_points_spec(self@, pts, int_of(*order)) is Ok,
                division_from(self@, pts, i as int, points_view(vec@), int_of(*order))
                    == division_points_spec(self@, pts, int_of(*order)),
            decreases self.points@.len() - i,
        {
            let point = &self.points[i];
            let ghost acc = points_view(vec@);
            match self.multiply_scalar(point, order) {
                Ok(m) => {
                    if m == ECPoint::infinity() {
                        vec.push(point.clone());
                        assert(points_view(vec@) =~= acc.push(pts[i as int]));
                    }
                },
                Err(e) => {
                    return Err(e);
                },
            }
            i = i + 1;
        }
        Ok(ECPointVec(vec))
    }

    /// The curve as text: its field, its equation, the number of its listed
    /// points and its j-invariant.
    pub fn to_string(&self) -> (r: Result<String, Error>)
        ensures
            match r {
                Ok(s) => j_invariant_spec(self@) is Ok && s@ == curve_text(
                    self@.p,
                    polynomial_text(self.pol@),
                    self.points@.len() as int,
                    j_invariant_spec(self@)->Ok_0,
                ),
                Err(e) => j_invariant_spec(self@) == Err::<int, Error>(e),
            },
    {
        let j = match self.j_invariant() {
            Ok(v) => v,
            Err(e) => {
                return Err(e);
            },
        };
        proof {
            reveal_strlit("F_");
            reveal_strlit(": y^2 = ");
            reveal_strlit(", cardinality:");
            reveal_strlit(", j:");
        }
        let mut st = String::new();
        st.append("F_");
        st.append(big_to_string(&self.p).as_str());
        st.append(": y^2 = ");
        st.append(self.pol.to_string().as_str());
        st.append(", cardinality:");
        st.append(big_to_string(&big_from_u64(self.points.len() as u64)).as_str());
        st.append(", j:");
        st.append(big_to_string(&j).as_str());
        assert(st@ =~= curve_text(
            self@.p,
            polynomial_text(self.pol@),
            self.points@.len() as int,
            int_of(j),
        ));
        Ok(st)
    }
}

} // verus!
