use crate::elliptic_curve::{
    affine_points, curve_points, curve_rhs, division_from, division_points_spec, first_root,
    infinity_point, multiply_spec, negate_point, on_curve, order_from, plus_spec, point_order_spec,
    points_of_x, repeated_sum, CurveModel, PointModel,
};
use crate::error::Error;
use crate::fermat::{lemma_inverse_modulo_prime, lemma_prime_divides_product};
use crate::integer::is_prime;
use vstd::arithmetic::div_mod::{
    lemma_fundamental_div_mod, lemma_fundamental_div_mod_converse, lemma_mod_bound, lemma_mod_twice,
    lemma_mul_mod_noop_general, lemma_small_mod, lemma_sub_mod_noop,
};
use vstd::prelude::*;

verus! {

/// Two values stand for the same point: both for the point at infinity, or
/// they are equal.
pub open spec fn same_point(a: PointModel, b: PointModel) -> bool {
    (a.z == 0 && b.z == 0) || a == b
}

/// `P + O = P` and `O + P = P` for a point `P` of the curve.
pub proof fn lemma_plus_infinity(c: CurveModel, pt: PointModel)
    requires
        on_curve(c, pt),
    ensures
        plus_spec(c, pt, infinity_point()) is Ok,
        same_point(plus_spec(c, pt, infinity_point())->Ok_0, pt),
        plus_spec(c, infinity_point(), pt) == Ok::<PointModel, Error>(pt),
        pt.z != 0 ==> plus_spec(c, pt, infinity_point()) == Ok::<PointModel, Error>(pt),
{
}

/// The residue of `-y` modulo `p`.
proof fn lemma_negative_residue(y: int, p: int)
    requires
        p >= 2,
    ensures
        y % p == 0 ==> (-y) % p == 0,
        y % p != 0 ==> (-y) % p == p - y % p,
{
    lemma_fundamental_div_mod(y, p);
    lemma_mod_bound(y, p);
    let q = y / p;
    let r = y % p;
    if r == 0 {
        assert(-y == (-q) * p + 0) by (nonlinear_arith)
            requires
                y == p * q + r,
                r == 0,
        ;
        lemma_fundamental_div_mod_converse(-y, p, -q, 0);
    } else {
        assert(-y == (-q - 1) * p + (p - r)) by (nonlinear_arith)
            requires
                y == p * q + r,
        ;
        lemma_fundamental_div_mod_converse(-y, p, -q - 1, p - r);
    }
}

/// The square of the residue of `-y` is congruent to the square of `y`.
proof fn lemma_negative_square(y: int, p: int)
    requires
        p >= 2,
    ensures
        (((-y) % p) * ((-y) % p)) % p == (y * y) % p,
{
    lemma_mul_mod_noop_general(-y, -y, p);
    assert((-y) * (-y) == y * y) by (nonlinear_arith);
}

/// The negative of a point of the curve lies on the curve.
pub proof fn lemma_negate_on_curve(c: CurveModel, pt: PointModel)
    requires
        c.p >= 2,
        on_curve(c, pt),
    ensures
        on_curve(c, negate_point(c, pt)),
{
    if pt.z != 0 {
        lemma_negative_square(pt.y, c.p);
    }
}

/// `P + (-P) = O` for a point `P` of a curve over a field of odd
/// characteristic.
pub proof fn lemma_plus_negative(c: CurveModel, pt: PointModel)
    requires
        c.p >= 3,
        c.p % 2 == 1,
        on_curve(c, pt),
    ensures
        plus_spec(c, pt, negate_point(c, pt)) is Ok,
        plus_spec(c, pt, negate_point(c, pt))->Ok_0.z == 0,
{
    let neg = negate_point(c, pt);
    lemma_negate_on_curve(c, pt);
    if pt.z != 0 {
        let y1 = pt.y % c.p;
        let y2 = neg.y % c.p;
        lemma_negative_residue(pt.y, c.p);
        lemma_mod_bound(pt.y, c.p);
        lemma_mod_twice(-pt.y, c.p);
        assert(y2 == (-pt.y) % c.p);
        if y1 != 0 {
            assert(y2 == c.p - y1);
            if y1 == y2 {
                assert(c.p == 2 * y1);
            }
        }
    }
}

/// What `first_root` finds is a root.
proof fn lemma_first_root(r: int, p: int, y0: int)
    requires
        first_root(r, p, y0) is Some,
    ensures
        y0 <= first_root(r, p, y0)->Some_0 < p,
        (first_root(r, p, y0)->Some_0 * first_root(r, p, y0)->Some_0) % p == r,
    decreases p - y0,
{
    if y0 < p && (y0 * y0) % p != r {
        lemma_first_root(r, p, y0 + 1);
    }
}

/// The points found for one abscissa lie on the curve.
proof fn lemma_points_of_x_on_curve(c: CurveModel, x: int)
    requires
        c.p >= 2,
    ensures
        forall|i: int| 0 <= i < points_of_x(c, x).len() ==> on_curve(c, #[trigger] points_of_x(c, x)[i]),
{
    let r = curve_rhs(c, x) % c.p;
    if first_root(r, c.p, 0) is Some {
        lemma_first_root(r, c.p, 0);
        let y = first_root(r, c.p, 0)->Some_0;
        let pt = PointModel { x, y, z: 1 };
        lemma_small_mod(0, c.p as nat);
        assert(on_curve(c, pt));
        lemma_negate_on_curve(c, pt);
    }
}

proof fn lemma_affine_points_on_curve(c: CurveModel, x_end: int)
    requires
        c.p >= 2,
    ensures
        forall|i: int|
            0 <= i < affine_points(c, x_end).len() ==> on_curve(
                c,
                #[trigger] affine_points(c, x_end)[i],
            ),
    decreases x_end,
{
    if x_end > 0 {
        lemma_affine_points_on_curve(c, x_end - 1);
        lemma_points_of_x_on_curve(c, x_end - 1);
        let a = affine_points(c, x_end - 1);
        let b = points_of_x(c, x_end - 1);
        assert forall|i: int| 0 <= i < (a + b).len() implies on_curve(c, #[trigger] (a + b)[i]) by {
            if i < a.len() {
                assert((a + b)[i] == a[i]);
            } else {
                assert((a + b)[i] == b[i - a.len()]);
            }
        }
    }
}

/// Every point that the enumeration lists lies on the curve.
pub proof fn lemma_curve_points_on_curve(c: CurveModel)
    requires
        c.p >= 2,
    ensures
        forall|i: int|
            0 <= i < curve_points(c).len() ==> on_curve(c, #[trigger] curve_points(c)[i]),
{
    lemma_affine_points_on_curve(c, c.p);
    let a = affine_points(c, c.p);
    assert forall|i: int| 0 <= i < curve_points(c).len() implies on_curve(
        c,
        #[trigger] curve_points(c)[i],
    ) by {
        if i < a.len() {
            assert(curve_points(c)[i] == a[i]);
        }
    }
}

/// The sums of `1, ..., k - 1` copies of the point are points other than the
/// point at infinity.
pub open spec fn no_smaller_order(c: CurveModel, pt: PointModel, k: int) -> bool {
    forall|j: int|
        1 <= j < k ==> (#[trigger] repeated_sum(c, pt, j)) is Ok && repeated_sum(c, pt, j)->Ok_0.z
            != 0
}

proof fn lemma_order_from(c: CurveModel, pt: PointModel, r: PointModel, i: int, bound: int)
    requires
        i >= 2,
        repeated_sum(c, pt, i - 1) == Ok::<PointModel, Error>(r),
        no_smaller_order(c, pt, i),
        order_from(c, pt, r, i, bound) is Ok,
    ensures
        i <= order_from(c, pt, r, i, bound)->Ok_0 <= bound,
        repeated_sum(c, pt, order_from(c, pt, r, i, bound)->Ok_0) is Ok,
        repeated_sum(c, pt, order_from(c, pt, r, i, bound)->Ok_0)->Ok_0.z == 0,
        no_smaller_order(c, pt, order_from(c, pt, r, i, bound)->Ok_0),
    decreases bound - i + 1,
{
    let r2 = plus_spec(c, pt, r)->Ok_0;
    assert(repeated_sum(c, pt, i) == Ok::<PointModel, Error>(r2));
    if r2.z != 0 {
        assert(no_smaller_order(c, pt, i + 1)) by {
            assert forall|j: int| 1 <= j < i + 1 implies (#[trigger] repeated_sum(c, pt, j)) is Ok
                && repeated_sum(c, pt, j)->Ok_0.z != 0 by {
                if j < i {
                    assert(repeated_sum(c, pt, j) is Ok);
                }
            }
        }
        lemma_order_from(c, pt, r2, i + 1, bound);
    }
}

/// The order of a point other than the point at infinity is the least
/// number of its copies that add up to the point at infinity:
/// `[order(P)] P = O` for the sum `P + (P + (... + P))`.
pub proof fn lemma_point_order(c: CurveModel, pt: PointModel)
    requires
        pt.z != 0,
        point_order_spec(c, pt) is Ok,
    ensures
        2 <= point_order_spec(c, pt)->Ok_0 <= 2 * c.p + 1,
        repeated_sum(c, pt, point_order_spec(c, pt)->Ok_0) is Ok,
        repeated_sum(c, pt, point_order_spec(c, pt)->Ok_0)->Ok_0.z == 0,
        no_smaller_order(c, pt, point_order_spec(c, pt)->Ok_0),
{
    assert(repeated_sum(c, pt, 1) == Ok::<PointModel, Error>(pt));
    assert(no_smaller_order(c, pt, 2)) by {
        assert forall|j: int| 1 <= j < 2 implies (#[trigger] repeated_sum(c, pt, j)) is Ok
            && repeated_sum(c, pt, j)->Ok_0.z != 0 by {
            assert(j == 1);
        }
    }
    lemma_order_from(c, pt, pt, 2, 2 * c.p + 1);
}

/// `P` is a point of the list from `i` on with `[n] P = O`.
pub open spec fn is_division_point(c: CurveModel, pts: Seq<PointModel>, i: int, n: int, pt: PointModel) -> bool {
    exists|j: int|
        i <= j < pts.len() && #[trigger] pts[j] == pt && multiply_spec(c, pts[j], n) == Ok::<
            PointModel,
            Error,
        >(infinity_point())
}

proof fn lemma_division_from(c: CurveModel, pts: Seq<PointModel>, i: int, acc: Seq<PointModel>, n: int)
    requires
        0 <= i <= pts.len(),
        division_from(c, pts, i, acc, n) is Ok,
    ensures
        forall|pt: PointModel| #[trigger]
            division_from(c, pts, i, acc, n)->Ok_0.contains(pt) <==> acc.contains(pt)
                || is_division_point(c, pts, i, n, pt),
    decreases pts.len() - i,
{
    let res = division_from(c, pts, i, acc, n)->Ok_0;
    if i >= pts.len() {
        assert forall|pt: PointModel| #[trigger]
            res.contains(pt) <==> acc.contains(pt) || is_division_point(c, pts, i, n, pt) by {}
    } else {
        let m = multiply_spec(c, pts[i], n)->Ok_0;
        let acc2 = if m == infinity_point() {
            acc.push(pts[i])
        } else {
            acc
        };
        lemma_division_from(c, pts, i + 1, acc2, n);
        assert forall|pt: PointModel| #[trigger]
            res.contains(pt) <==> acc.contains(pt) || is_division_point(c, pts, i, n, pt) by {
            if res.contains(pt) {
                if acc2.contains(pt) {
                    if !acc.contains(pt) {
                        let k = choose|k: int| 0 <= k < acc2.len() && acc2[k] == pt;
                        if k < acc.len() {
                            assert(acc[k] == pt);
                        }
                        assert(pts[i] == pt);
                    }
                } else {
                    let j = choose|j: int|
                        i + 1 <= j < pts.len() && #[trigger] pts[j] == pt && multiply_spec(
                            c,
                            pts[j],
                            n,
                        ) == Ok::<PointModel, Error>(infinity_point());
                    assert(pts[j] == pt);
                }
            }
            if acc.contains(pt) {
                let k = choose|k: int| 0 <= k < acc.len() && acc[k] == pt;
                assert(acc2[k] == pt);
                assert(acc2.contains(pt));
            }
            if is_division_point(c, pts, i, n, pt) {
                let j = choose|j: int|
                    i <= j < pts.len() && #[trigger] pts[j] == pt && multiply_spec(c, pts[j], n)
                        == Ok::<PointModel, Error>(infinity_point());
                if j == i {
                    assert(acc2[acc2.len() - 1] == pt);
                    assert(acc2.contains(pt));
                } else {
                    assert(pts[j] == pt);
                    assert(is_division_point(c, pts, i + 1, n, pt));
                }
            }
        }
    }
}

/// The `n`-division points are the points of the list with `[n] P = O`.
pub proof fn lemma_division_points(c: CurveModel, pts: Seq<PointModel>, n: int)
    requires
        division_points_spec(c, pts, n) is Ok,
    ensures
        forall|pt: PointModel| #[trigger]
            division_points_spec(c, pts, n)->Ok_0.contains(pt) <==> is_division_point(
                c,
                pts,
                0,
                n,
                pt,
            ),
{
    lemma_division_from(c, pts, 0, Seq::empty(), n);
    assert forall|pt: PointModel| #[trigger]
        division_points_spec(c, pts, n)->Ok_0.contains(pt) <==> is_division_point(
            c,
            pts,
            0,
            n,
            pt,
        ) by {
        assert(!Seq::<PointModel>::empty().contains(pt));
    }
}

/// Over a prime field of odd characteristic the sum of two points of the
/// curve is defined: the inverses that the formulas ask for exist.
pub proof fn lemma_plus_defined(c: CurveModel, p1: PointModel, p2: PointModel)
    requires
        is_prime(c.p),
        c.p >= 3,
        on_curve(c, p1),
        on_curve(c, p2),
    ensures
        plus_spec(c, p1, p2) is Ok,
{
    if p1.z != 0 && p2.z != 0 {
        let x1 = p1.x % c.p;
        let y1 = p1.y % c.p;
        let x2 = p2.x % c.p;
        let y2 = p2.y % c.p;
        lemma_mod_bound(p1.x, c.p);
        lemma_mod_bound(p2.x, c.p);
        lemma_mod_bound(p1.y, c.p);
        if x1 != x2 {
            // the difference of two residues is no multiple of p
            if x2 > x1 {
                lemma_small_mod((x2 - x1) as nat, c.p as nat);
            } else {
                lemma_small_mod((x1 - x2) as nat, c.p as nat);
                lemma_negative_residue(x1 - x2, c.p);
            }
            lemma_inverse_modulo_prime(x2 - x1, c.p);
        } else if !(y1 != y2 || y1 == 0) {
            // p divides neither 2 nor y1
            lemma_small_mod(2, c.p as nat);
            lemma_small_mod(y1 as nat, c.p as nat);
            if (2 * y1) % c.p == 0 {
                lemma_prime_divides_product(2, y1, c.p);
            }
            lemma_inverse_modulo_prime(2 * y1, c.p);
        }
    }
}

/// An affine point with coordinates in `[0, p)`.
pub open spec fn affine_canonical(c: CurveModel, pt: PointModel) -> bool {
    pt.z == 1 && 0 <= pt.x < c.p && 0 <= pt.y < c.p
}

/// Where there is a root from `y0` on, `first_root` finds the least.
proof fn lemma_first_root_finds(r: int, p: int, y0: int, y: int)
    requires
        0 <= y0 <= y < p,
        (y * y) % p == r,
    ensures
        first_root(r, p, y0) is Some,
        y0 <= first_root(r, p, y0)->Some_0 <= y,
    decreases p - y0,
{
    if (y0 * y0) % p != r {
        lemma_first_root_finds(r, p, y0 + 1, y);
    }
}

/// Modulo a prime, a number in `[0, p)` whose square is that of `y0` is `y0`
/// or `-y0`.
proof fn lemma_square_roots(y: int, y0: int, p: int)
    requires
        is_prime(p),
        0 <= y0 <= y < p,
        (y * y) % p == (y0 * y0) % p,
    ensures
        y == y0 || y == p - y0,
{
    lemma_sub_mod_noop(y * y, y0 * y0, p);
    lemma_small_mod(0, p as nat);
    assert((y * y - y0 * y0) % p == 0);
    assert(y * y - y0 * y0 == (y - y0) * (y + y0)) by (nonlinear_arith);
    assert(((y - y0) * (y + y0)) % p == 0);
    if (y - y0) % p != 0 {
        lemma_prime_divides_product(y - y0, y + y0, p);
        assert((y + y0) % p == 0);
        // p divides y + y0, which lies in [0, 2p)
        if y + y0 < p {
            lemma_small_mod((y + y0) as nat, p as nat);
        } else {
            lemma_fundamental_div_mod(y + y0, p);
            let k = (y + y0) / p;
            assert(p * k == y + y0);
            if k >= 2 {
                assert(p * k >= 2 * p) by (nonlinear_arith)
                    requires
                        k >= 2,
                        p >= 2,
                ;
            }
            if k <= 0 {
                assert(p * k <= 0) by (nonlinear_arith)
                    requires
                        k <= 0,
                        p >= 2,
                ;
            }
            assert(k == 1);
            assert(p * 1 == p);
            assert(y + y0 == p);
        }
    } else {
        lemma_small_mod((y - y0) as nat, p as nat);
    }
}

/// The points found for an abscissa are all the affine points of the curve
/// with that abscissa and coordinates in `[0, p)`.
proof fn lemma_points_of_x_complete(c: CurveModel, pt: PointModel)
    requires
        is_prime(c.p),
        on_curve(c, pt),
        affine_canonical(c, pt),
    ensures
        points_of_x(c, pt.x).contains(pt),
{
    let p = c.p;
    let r = curve_rhs(c, pt.x) % p;
    let y = pt.y;
    lemma_mod_bound(curve_rhs(c, pt.x), p);
    lemma_mod_bound(y * y, p);
    // the two residues differ by a multiple of p, so they are equal
    let d = r - (y * y) % p;
    if d > 0 {
        lemma_small_mod(d as nat, p as nat);
    } else if d < 0 {
        lemma_small_mod((-d) as nat, p as nat);
        lemma_negative_residue(-d, p);
    }
    assert((y * y) % p == r);
    lemma_first_root_finds(r, p, 0, y);
    lemma_first_root(r, p, 0);
    let y0 = first_root(r, p, 0)->Some_0;
    lemma_square_roots(y, y0, p);
    let first = PointModel { x: pt.x, y: y0, z: 1 };
    let list = points_of_x(c, pt.x);
    if y == y0 {
        assert(list[0] == pt);
    } else {
        if y0 == 0 {
            assert(false);
        }
        lemma_small_mod(y0 as nat, p as nat);
        lemma_negative_residue(y0, p);
        assert(negate_point(c, first) == pt);
        assert(list[1] == pt);
    }
}

proof fn lemma_affine_points_contain(c: CurveModel, x_end: int, pt: PointModel)
    requires
        0 <= pt.x < x_end,
        points_of_x(c, pt.x).contains(pt),
    ensures
        affine_points(c, x_end).contains(pt),
    decreases x_end,
{
    let a = affine_points(c, x_end - 1);
    let b = points_of_x(c, x_end - 1);
    if pt.x == x_end - 1 {
        let i = choose|i: int| 0 <= i < b.len() && b[i] == pt;
        assert((a + b)[a.len() + i] == pt);
    } else {
        lemma_affine_points_contain(c, x_end - 1, pt);
        let i = choose|i: int| 0 <= i < a.len() && a[i] == pt;
        assert((a + b)[i] == pt);
    }
}

/// Over a prime field the enumeration lists every rational point: the point
/// at infinity and every affine point of the curve with coordinates in
/// `[0, p)`.
pub proof fn lemma_curve_points_complete(c: CurveModel, pt: PointModel)
    requires
        is_prime(c.p),
        on_curve(c, pt),
        affine_canonical(c, pt) || pt == infinity_point(),
    ensures
        curve_points(c).contains(pt),
{
    let a = affine_points(c, c.p);
    let all = curve_points(c);
    if pt == infinity_point() {
        assert(all[a.len() as int] == pt);
    } else {
        lemma_points_of_x_complete(c, pt);
        lemma_affine_points_contain(c, c.p, pt);
        let i = choose|i: int| 0 <= i < a.len() && a[i] == pt;
        assert(all[i] == pt);
    }
}

/// The points found for an abscissa in `[0, p)` have that abscissa and
/// coordinates in `[0, p)`, and are different points.
proof fn lemma_points_of_x_canonical(c: CurveModel, x: int)
    requires
        c.p >= 2,
        0 <= x < c.p,
    ensures
        forall|i: int|
            0 <= i < points_of_x(c, x).len() ==> affine_canonical(
                c,
                #[trigger] points_of_x(c, x)[i],
            ) && points_of_x(c, x)[i].x == x,
        forall|i: int, j: int|
            0 <= i < j < points_of_x(c, x).len() ==> #[trigger] points_of_x(c, x)[i]
                != #[trigger] points_of_x(c, x)[j],
{
    let r = curve_rhs(c, x) % c.p;
    if first_root(r, c.p, 0) is Some {
        lemma_first_root(r, c.p, 0);
        let y = first_root(r, c.p, 0)->Some_0;
        lemma_mod_bound(-y, c.p);
    }
}

proof fn lemma_affine_points_canonical(c: CurveModel, x_end: int)
    requires
        c.p >= 2,
        x_end <= c.p,
    ensures
        forall|i: int|
            0 <= i < affine_points(c, x_end).len() ==> affine_canonical(
                c,
                #[trigger] affine_points(c, x_end)[i],
            ) && affine_points(c, x_end)[i].x < x_end,
        forall|i: int, j: int|
            0 <= i < j < affine_points(c, x_end).len() ==> #[trigger] affine_points(c, x_end)[i]
                != #[trigger] affine_points(c, x_end)[j],
    decreases x_end,
{
    if x_end > 0 {
        lemma_affine_points_canonical(c, x_end - 1);
        lemma_points_of_x_canonical(c, x_end - 1);
        let a = affine_points(c, x_end - 1);
        let b = points_of_x(c, x_end - 1);
        let s = a + b;
        assert forall|i: int| 0 <= i < s.len() implies affine_canonical(c, #[trigger] s[i]) && s[i].x
            < x_end by {
            if i < a.len() {
                assert(s[i] == a[i]);
            } else {
                assert(s[i] == b[i - a.len()]);
            }
        }
        assert forall|i: int, j: int| 0 <= i < j < s.len() implies #[trigger] s[i] != #[trigger] s[j] by {
            if j < a.len() {
                assert(s[i] == a[i] && s[j] == a[j]);
            } else if i < a.len() {
                assert(s[i] == a[i] && s[j] == b[j - a.len()]);
            } else {
                assert(s[i] == b[i - a.len()] && s[j] == b[j - a.len()]);
            }
        }
    }
}

/// The enumeration lists canonical points, and none twice: its length is
/// the number of rational points.
pub proof fn lemma_curve_points_distinct(c: CurveModel)
    requires
        c.p >= 2,
    ensures
        forall|i: int|
            0 <= i < curve_points(c).len() ==> affine_canonical(c, #[trigger] curve_points(c)[i])
                || curve_points(c)[i] == infinity_point(),
        forall|i: int, j: int|
            0 <= i < j < curve_points(c).len() ==> #[trigger] curve_points(c)[i]
                != #[trigger] curve_points(c)[j],
{
    lemma_affine_points_canonical(c, c.p);
    let a = affine_points(c, c.p);
    let all = curve_points(c);
    assert forall|i: int| 0 <= i < all.len() implies affine_canonical(c, #[trigger] all[i])
        || all[i] == infinity_point() by {
        if i < a.len() {
            assert(all[i] == a[i]);
        }
    }
    assert forall|i: int, j: int| 0 <= i < j < all.len() implies #[trigger] all[i] != #[trigger] all[j] by {
        if j < a.len() {
            assert(all[i] == a[i] && all[j] == a[j]);
        } else {
            assert(all[i] == a[i]);
            assert(affine_canonical(c, a[i]));
        }
    }
}

} // verus!
