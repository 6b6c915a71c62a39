use crate::bigint::{inverse_spec, lemma_inverse_is_inverse};
use crate::congruence::{
    congruent, lemma_congruent_add, lemma_congruent_difference, lemma_congruent_mul,
    lemma_congruent_residue, lemma_congruent_sub,
};
use crate::curve_laws::{lemma_negate_on_curve, lemma_plus_defined};
use crate::curve_laws::same_point;
use crate::elliptic_curve::{
    chord_point, curve_rhs, division_from, division_points_spec, double_and_add, infinity_point,
    multiply_spec, on_curve, plus_spec, repeated_sum, CurveModel, PointModel,
};
use crate::integer::is_prime;
use vstd::arithmetic::div_mod::lemma_small_mod;
use vstd::arithmetic::power::{lemma_pow0, pow};
use vstd::prelude::*;

verus! {

/// A point lies on the curve where the square of its ordinate is congruent
/// to the right-hand side at its abscissa.
pub proof fn lemma_on_curve_congruent(c: CurveModel, pt: PointModel)
    requires
        c.p >= 2,
        pt.z != 0,
    ensures
        on_curve(c, pt) <==> congruent(pt.y * pt.y, curve_rhs(c, pt.x), c.p),
{
    let r = curve_rhs(c, pt.x);
    let s = pt.y * pt.y;
    lemma_congruent_residue(r, c.p);
    lemma_congruent_residue(s, c.p);
    lemma_congruent_difference(r % c.p, s % c.p, c.p);
    lemma_congruent_residue(r % c.p, c.p);
    lemma_congruent_residue(s % c.p, c.p);
}

/// The right-hand sides at congruent abscissas are congruent.
proof fn lemma_rhs_congruent(c: CurveModel, x: int, z: int)
    requires
        c.p >= 2,
        congruent(x, z, c.p),
    ensures
        congruent(curve_rhs(c, x), curve_rhs(c, z), c.p),
{
    lemma_congruent_mul(x, z, x, z, c.p);
    lemma_congruent_mul(x * x, z * z, x, z, c.p);
    lemma_congruent_mul(c.a, c.a, x, z, c.p);
    lemma_congruent_add(x * x * x, z * z * z, c.a * x, c.a * z, c.p);
    lemma_congruent_add(x * x * x + c.a * x, z * z * z + c.a * z, c.b, c.b, c.p);
}

/// A point of the curve with its coordinates reduced is a point of the
/// curve.
proof fn lemma_residues_on_curve(c: CurveModel, pt: PointModel)
    requires
        c.p >= 2,
        pt.z != 0,
        on_curve(c, pt),
    ensures
        congruent((pt.y % c.p) * (pt.y % c.p), curve_rhs(c, pt.x % c.p), c.p),
{
    lemma_on_curve_congruent(c, pt);
    lemma_congruent_residue(pt.x, c.p);
    lemma_congruent_residue(pt.y, c.p);
    lemma_rhs_congruent(c, pt.x % c.p, pt.x);
    lemma_congruent_mul(pt.y % c.p, pt.y, pt.y % c.p, pt.y, c.p);
}

/// The third point of a line through a point of the curve lies on the curve
/// where the slope `m` of the line satisfies
/// `x1^2 + x1 x2 + x2^2 + a = 2 m y1 + m^2 (x2 - x1) (mod p)`: the condition
/// of a chord through a second point with the abscissa `x2`, and, for
/// `x2 = x1`, of the tangent.
proof fn lemma_chord_on_curve(c: CurveModel, m: int, x1: int, y1: int, x2: int)
    requires
        c.p >= 2,
        congruent(y1 * y1, curve_rhs(c, x1), c.p),
        congruent(x1 * x1 + x1 * x2 + x2 * x2 + c.a, 2 * m * y1 + m * m * (x2 - x1), c.p),
    ensures
        on_curve(c, chord_point(c, m, x1, y1, x2)),
{
    let p = c.p;
    let x3 = m * m - x1 - x2;
    let w = x1 - x3;
    let y3 = m * w - y1;
    let t = x1 * x1 + x1 * x2 + x2 * x2 + c.a;
    let s = 2 * m * y1 + m * m * (x2 - x1);
    let e = m * m * w - 2 * m * y1 + x3 * x3 + x1 * x3 + x1 * x1 + c.a;
    // e = t - s, so e = 0 (mod p)
    assert(e == t - s) by {
        let mm = m * m;
        assert(x3 * x3 == mm * mm - 2 * (mm * x1) - 2 * (mm * x2) + x1 * x1 + 2 * (x1 * x2) + x2
            * x2) by (nonlinear_arith)
            requires
                x3 == mm - x1 - x2,
        ;
        assert(x1 * x3 == mm * x1 - x1 * x1 - x1 * x2) by (nonlinear_arith)
            requires
                x3 == mm - x1 - x2,
        ;
        assert(mm * w == 2 * (mm * x1) + mm * x2 - mm * mm) by (nonlinear_arith)
            requires
                w == 2 * x1 + x2 - mm,
        ;
        assert(mm * (x2 - x1) == mm * x2 - mm * x1) by (nonlinear_arith);
    }
    lemma_congruent_difference(t, s, p);
    assert(congruent(e, 0, p));
    // y3^2 - rhs(x3) = (y1^2 - rhs(x1)) + w e
    let r1 = curve_rhs(c, x1);
    let r3 = curve_rhs(c, x3);
    assert(y3 * y3 - r3 == (y1 * y1 - r1) + w * e) by {
        let mm = m * m;
        let mw = m * w;
        assert(y3 * y3 == mw * mw - 2 * (mw * y1) + y1 * y1) by (nonlinear_arith)
            requires
                y3 == mw - y1,
        ;
        assert(mw * mw == (mm * w) * w) by (nonlinear_arith)
            requires
                mw == m * w,
                mm == m * m,
        ;
        assert(mw * y1 == (m * y1) * w) by (nonlinear_arith)
            requires
                mw == m * w,
        ;
        let q = x3 * x3 + x1 * x3 + x1 * x1;
        assert(x1 * x1 * x1 - x3 * x3 * x3 == w * q) by (nonlinear_arith)
            requires
                w == x1 - x3,
                q == x3 * x3 + x1 * x3 + x1 * x1,
        ;
        assert(c.a * x1 - c.a * x3 == c.a * w) by (nonlinear_arith)
            requires
                w == x1 - x3,
        ;
        assert(w * e == (mm * w) * w - 2 * ((m * y1) * w) + w * q + c.a * w) by (nonlinear_arith)
            requires
                e == mm * w - 2 * m * y1 + q + c.a,
        ;
    }
    lemma_congruent_difference(y1 * y1, r1, p);
    lemma_congruent_mul(w, w, e, 0, p);
    assert(w * 0 == 0);
    lemma_congruent_add(y1 * y1 - r1, 0, w * e, 0, p);
    lemma_congruent_difference(y3 * y3, r3, p);
    assert(congruent(y3 * y3, r3, p));
    // the coordinates of the point are the residues of x3 and y3
    let pt = chord_point(c, m, x1, y1, x2);
    assert(pt.x == x3 % p);
    assert(pt.y == y3 % p) by {
        assert(m * (x1 - x3) - y1 == y3);
    }
    lemma_congruent_residue(x3, p);
    lemma_congruent_residue(y3, p);
    lemma_rhs_congruent(c, x3 % p, x3);
    lemma_congruent_mul(y3 % p, y3, y3 % p, y3, p);
    lemma_on_curve_congruent(c, pt);
}

/// The slope of the chord through two points of the curve with different
/// abscissas satisfies the condition of `lemma_chord_on_curve`.
proof fn lemma_chord_slope(c: CurveModel, x1: int, y1: int, x2: int, y2: int, inv: int)
    requires
        c.p >= 2,
        congruent(y1 * y1, curve_rhs(c, x1), c.p),
        congruent(y2 * y2, curve_rhs(c, x2), c.p),
        ((x2 - x1) * inv) % c.p == 1,
    ensures
        congruent(
            x1 * x1 + x1 * x2 + x2 * x2 + c.a,
            2 * ((y2 - y1) * inv) * y1 + ((y2 - y1) * inv) * ((y2 - y1) * inv) * (x2 - x1),
            c.p,
        ),
{
    let p = c.p;
    let u = x2 - x1;
    let v = y2 - y1;
    let m = v * inv;
    let t = x1 * x1 + x1 * x2 + x2 * x2 + c.a;
    lemma_small_mod(1, p as nat);
    assert(congruent(u * inv, 1, p));
    // m u = v (mod p)
    assert(m * u == v * (u * inv)) by (nonlinear_arith)
        requires
            m == v * inv,
    ;
    lemma_congruent_mul(v, v, u * inv, 1, p);
    assert(v * 1 == v);
    assert(congruent(m * u, v, p));
    // v (y1 + y2) = u t (mod p), from the two equations of the curve
    let r1 = curve_rhs(c, x1);
    let r2 = curve_rhs(c, x2);
    lemma_congruent_sub(y2 * y2, r2, y1 * y1, r1, p);
    assert(y2 * y2 - y1 * y1 == v * (y1 + y2)) by (nonlinear_arith)
        requires
            v == y2 - y1,
    ;
    assert(r2 - r1 == u * t) by {
        assert(x2 * x2 * x2 - x1 * x1 * x1 == u * (x1 * x1 + x1 * x2 + x2 * x2))
            by (nonlinear_arith)
            requires
                u == x2 - x1,
        ;
        assert(c.a * x2 - c.a * x1 == u * c.a) by (nonlinear_arith)
            requires
                u == x2 - x1,
        ;
        assert(u * t == u * (x1 * x1 + x1 * x2 + x2 * x2) + u * c.a) by (nonlinear_arith)
            requires
                t == x1 * x1 + x1 * x2 + x2 * x2 + c.a,
        ;
    }
    assert(congruent(v * (y1 + y2), u * t, p));
    // multiplied by the inverse of u: m (y1 + y2) = t (mod p)
    lemma_congruent_mul(inv, inv, v * (y1 + y2), u * t, p);
    assert(inv * (v * (y1 + y2)) == m * (y1 + y2)) by (nonlinear_arith)
        requires
            m == v * inv,
    ;
    assert(inv * (u * t) == (u * inv) * t) by (nonlinear_arith);
    lemma_congruent_mul(u * inv, 1, t, t, p);
    assert(1 * t == t);
    assert(congruent(m * (y1 + y2), t, p));
    // m (y1 + y2) = 2 m y1 + m v = 2 m y1 + m^2 u (mod p)
    assert(m * (y1 + y2) == 2 * m * y1 + m * v) by (nonlinear_arith)
        requires
            v == y2 - y1,
    ;
    lemma_congruent_mul(m, m, v, m * u, p);
    assert(m * (m * u) == m * m * u) by (nonlinear_arith);
    lemma_congruent_add(2 * m * y1, 2 * m * y1, m * v, m * m * u, p);
}

/// The slope of the tangent in a point of the curve satisfies the condition
/// of `lemma_chord_on_curve`.
proof fn lemma_tangent_slope(c: CurveModel, x1: int, y1: int, inv: int)
    requires
        c.p >= 2,
        ((2 * y1) * inv) % c.p == 1,
    ensures
        congruent(
            x1 * x1 + x1 * x1 + x1 * x1 + c.a,
            2 * ((3 * (x1 * x1) + c.a) * inv) * y1 + ((3 * (x1 * x1) + c.a) * inv) * ((3 * (x1
                * x1) + c.a) * inv) * (x1 - x1),
            c.p,
        ),
{
    let p = c.p;
    let n = 3 * (x1 * x1) + c.a;
    let m = n * inv;
    lemma_small_mod(1, p as nat);
    assert(congruent((2 * y1) * inv, 1, p));
    assert(2 * m * y1 == n * ((2 * y1) * inv)) by (nonlinear_arith)
        requires
            m == n * inv,
    ;
    lemma_congruent_mul(n, n, (2 * y1) * inv, 1, p);
    assert(n * 1 == n);
    assert(m * m * (x1 - x1) == 0) by (nonlinear_arith);
}

/// The sum of two points of the curve lies on the curve.
pub proof fn lemma_plus_on_curve(c: CurveModel, p1: PointModel, p2: PointModel)
    requires
        c.p >= 2,
        plus_spec(c, p1, p2) is Ok,
    ensures
        on_curve(c, p1),
        on_curve(c, p2),
        on_curve(c, plus_spec(c, p1, p2)->Ok_0),
{
    if p1.z != 0 && p2.z != 0 {
        let x1 = p1.x % c.p;
        let y1 = p1.y % c.p;
        let x2 = p2.x % c.p;
        let y2 = p2.y % c.p;
        lemma_residues_on_curve(c, p1);
        lemma_residues_on_curve(c, p2);
        if x1 != x2 {
            let inv = inverse_spec(x2 - x1, c.p)->Ok_0;
            lemma_inverse_is_inverse(x2 - x1, c.p);
            lemma_chord_slope(c, x1, y1, x2, y2, inv);
            lemma_chord_on_curve(c, (y2 - y1) * inv, x1, y1, x2);
        } else if !(y1 != y2 || y1 == 0) {
            let inv = inverse_spec(2 * y1, c.p)->Ok_0;
            lemma_inverse_is_inverse(2 * y1, c.p);
            lemma_tangent_slope(c, x1, y1, inv);
            lemma_chord_on_curve(c, (3 * (x1 * x1) + c.a) * inv, x1, y1, x1);
        }
    }
}

/// Over a prime field of odd characteristic the points of the curve are
/// closed under addition: the sum of two of them is defined, and is one of
/// them.
pub proof fn lemma_plus_closed(c: CurveModel, p1: PointModel, p2: PointModel)
    requires
        is_prime(c.p),
        c.p >= 3,
        on_curve(c, p1),
        on_curve(c, p2),
    ensures
        plus_spec(c, p1, p2) is Ok,
        on_curve(c, plus_spec(c, p1, p2)->Ok_0),
{
    lemma_plus_defined(c, p1, p2);
    lemma_plus_on_curve(c, p1, p2);
}

proof fn lemma_double_and_add_closed(c: CurveModel, acc: PointModel, base: PointModel, n: int)
    requires
        is_prime(c.p),
        c.p >= 3,
        on_curve(c, acc),
        on_curve(c, base),
    ensures
        double_and_add(c, acc, base, n) is Ok,
        on_curve(c, double_and_add(c, acc, base, n)->Ok_0),
    decreases n,
{
    if n > 0 {
        lemma_plus_closed(c, acc, base);
        lemma_plus_closed(c, base, base);
        let a2 = if n % 2 == 1 {
            plus_spec(c, acc, base)->Ok_0
        } else {
            acc
        };
        if n / 2 != 0 {
            lemma_double_and_add_closed(c, a2, plus_spec(c, base, base)->Ok_0, n / 2);
        }
    }
}

/// Over a prime field of odd characteristic every multiple of a point of
/// the curve is defined, and is a point of the curve.
pub proof fn lemma_multiply_closed(c: CurveModel, pt: PointModel, n: int)
    requires
        is_prime(c.p),
        c.p >= 3,
        on_curve(c, pt),
    ensures
        multiply_spec(c, pt, n) is Ok,
        on_curve(c, multiply_spec(c, pt, n)->Ok_0),
{
    if n > 0 {
        lemma_double_and_add_closed(c, infinity_point(), pt, n);
    } else if n < 0 {
        lemma_double_and_add_closed(c, infinity_point(), pt, -n);
        lemma_negate_on_curve(c, double_and_add(c, infinity_point(), pt, -n)->Ok_0);
    }
}

/// Over a prime field of odd characteristic every sum of copies of a point
/// of the curve is defined, and is a point of the curve.
pub proof fn lemma_repeated_sum_closed(c: CurveModel, pt: PointModel, k: int)
    requires
        is_prime(c.p),
        c.p >= 3,
        on_curve(c, pt),
    ensures
        repeated_sum(c, pt, k) is Ok,
        on_curve(c, repeated_sum(c, pt, k)->Ok_0),
    decreases k,
{
    if k > 1 {
        lemma_repeated_sum_closed(c, pt, k - 1);
        lemma_plus_closed(c, pt, repeated_sum(c, pt, k - 1)->Ok_0);
    }
}

proof fn lemma_division_from_defined(
    c: CurveModel,
    pts: Seq<PointModel>,
    i: int,
    acc: Seq<PointModel>,
    n: int,
)
    requires
        is_prime(c.p),
        c.p >= 3,
        0 <= i,
        forall|k: int| 0 <= k < pts.len() ==> on_curve(c, #[trigger] pts[k]),
    ensures
        division_from(c, pts, i, acc, n) is Ok,
    decreases pts.len() - i,
{
    if i < pts.len() {
        lemma_multiply_closed(c, pts[i], n);
        let m = multiply_spec(c, pts[i], n)->Ok_0;
        lemma_division_from_defined(
            c,
            pts,
            i + 1,
            if m == infinity_point() {
                acc.push(pts[i])
            } else {
                acc
            },
            n,
        );
    }
}

/// Over a prime field of odd characteristic the division points of a list
/// of points of the curve are defined.
pub proof fn lemma_division_points_defined(c: CurveModel, pts: Seq<PointModel>, n: int)
    requires
        is_prime(c.p),
        c.p >= 3,
        forall|k: int| 0 <= k < pts.len() ==> on_curve(c, #[trigger] pts[k]),
    ensures
        division_points_spec(c, pts, n) is Ok,
{
    lemma_division_from_defined(c, pts, 0, Seq::empty(), n);
}

/// A power of `-d` is the power of `d`, negated where the exponent is odd.
proof fn lemma_pow_negative(d: int, n: nat)
    ensures
        pow(-d, n) == (if n % 2 == 0 {
            pow(d, n)
        } else {
            -pow(d, n)
        }),
    decreases n,
{
    if n == 0 {
        lemma_pow0(d);
        lemma_pow0(-d);
    } else {
        lemma_pow_negative(d, (n - 1) as nat);
        let x = pow(d, (n - 1) as nat);
        assert(pow(d, n) == d * x) by {
            vstd::arithmetic::power::lemma_pow_adds(d, 1, (n - 1) as nat);
            vstd::arithmetic::power::lemma_pow1(d);
        }
        assert(pow(-d, n) == (-d) * pow(-d, (n - 1) as nat)) by {
            vstd::arithmetic::power::lemma_pow_adds(-d, 1, (n - 1) as nat);
            vstd::arithmetic::power::lemma_pow1(-d);
        }
        assert((-d) * x == -(d * x)) by (nonlinear_arith);
        assert((-d) * (-x) == d * x) by (nonlinear_arith);
    }
}

/// Modulo two or an odd number, `-d` has an inverse where `d` has one: the
/// negative of that of `d`.
proof fn lemma_inverse_of_negative(d: int, p: int)
    requires
        p == 2 || p % 2 == 1,
        inverse_spec(d, p) is Ok,
    ensures
        inverse_spec(-d, p) is Ok,
        congruent(inverse_spec(-d, p)->Ok_0, -inverse_spec(d, p)->Ok_0, p),
{
    lemma_inverse_is_inverse(d, p);
    let e = (p - 2) as nat;
    let x = pow(d, e);
    let inv = x % p;
    lemma_pow_negative(d, e);
    lemma_congruent_residue(x, p);
    if p == 2 {
        // the power is one, and -d = d (mod 2)
        lemma_pow0(d);
        lemma_pow0(-d);
        lemma_small_mod(1, 2);
        assert((-d) % 2 == d % 2);
        assert((-d) * 1 == -d);
        assert(d * 1 == d);
        assert((-1int) % 2 == 1);
    } else {
        let y = pow(-d, e);
        assert(y == -x);
        let inv2 = y % p;
        lemma_congruent_residue(y, p);
        // (-d) ((-x) mod p) = (-d) (-x) = d x = d (x mod p) = 1 (mod p)
        lemma_congruent_mul(-d, -d, inv2, y, p);
        assert((-d) * y == d * x) by (nonlinear_arith)
            requires
                y == -x,
        ;
        lemma_congruent_mul(d, d, inv, x, p);
        lemma_small_mod(1, p as nat);
        assert(((-d) * inv2) % p == 1);
        // (-x) mod p = -(x mod p) (mod p)
        lemma_congruent_sub(0, 0, x, inv, p);
    }
}

/// The sum of two points does not depend on their order.
pub proof fn lemma_plus_commutative(c: CurveModel, p1: PointModel, p2: PointModel)
    requires
        c.p == 2 || (c.p >= 3 && c.p % 2 == 1),
        plus_spec(c, p1, p2) is Ok,
    ensures
        plus_spec(c, p2, p1) is Ok,
        same_point(plus_spec(c, p1, p2)->Ok_0, plus_spec(c, p2, p1)->Ok_0),
{
    if p1.z != 0 && p2.z != 0 {
        let p = c.p;
        let x1 = p1.x % p;
        let y1 = p1.y % p;
        let x2 = p2.x % p;
        let y2 = p2.y % p;
        if x1 != x2 {
            let inv = inverse_spec(x2 - x1, p)->Ok_0;
            lemma_inverse_is_inverse(x2 - x1, p);
            lemma_inverse_of_negative(x2 - x1, p);
            assert(-(x2 - x1) == x1 - x2);
            let inv2 = inverse_spec(x1 - x2, p)->Ok_0;
            let m = (y2 - y1) * inv;
            let m2 = (y1 - y2) * inv2;
            // the slopes are congruent
            lemma_congruent_mul(y1 - y2, y1 - y2, inv2, -inv, p);
            assert((y1 - y2) * (-inv) == m) by (nonlinear_arith)
                requires
                    m == (y2 - y1) * inv,
            ;
            assert(congruent(m2, m, p));
            // so are the abscissas of the third points
            lemma_congruent_mul(m2, m, m2, m, p);
            lemma_congruent_sub(m2 * m2, m * m, x2, x2, p);
            lemma_congruent_sub(m2 * m2 - x2, m * m - x2, x1, x1, p);
            let x3 = m * m - x1 - x2;
            let x4 = m2 * m2 - x2 - x1;
            assert(m * m - x2 - x1 == x3);
            assert(congruent(x4, x3, p));
            // and the ordinates: m (x2 - x3) - y2 = m (x1 - x3) - y1 as m (x2 - x1) = y2 - y1
            lemma_small_mod(1, p as nat);
            assert(congruent((x2 - x1) * inv, 1, p));
            lemma_congruent_mul(y2 - y1, y2 - y1, (x2 - x1) * inv, 1, p);
            assert((y2 - y1) * ((x2 - x1) * inv) == m * (x2 - x1)) by (nonlinear_arith)
                requires
                    m == (y2 - y1) * inv,
            ;
            assert((y2 - y1) * 1 == y2 - y1);
            assert(congruent(m * (x2 - x1), y2 - y1, p));
            lemma_congruent_sub(x2, x2, x4, x3, p);
            lemma_congruent_mul(m2, m, x2 - x4, x2 - x3, p);
            lemma_congruent_sub(m2 * (x2 - x4), m * (x2 - x3), y2, y2, p);
            let y3 = m * (x1 - x3) - y1;
            let y4 = m2 * (x2 - x4) - y2;
            assert(m * (x2 - x3) - y2 == y3 + (m * (x2 - x1) - (y2 - y1))) by (nonlinear_arith)
                requires
                    y3 == m * (x1 - x3) - y1,
            ;
            lemma_congruent_sub(m * (x2 - x1), y2 - y1, y2 - y1, y2 - y1, p);
            lemma_congruent_add(y3, y3, m * (x2 - x1) - (y2 - y1), (y2 - y1) - (y2 - y1), p);
            assert(congruent(y4, y3, p));
        }
    }
}

} // verus!
