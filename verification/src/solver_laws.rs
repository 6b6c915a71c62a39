use crate::error::Error;
use crate::integer::{is_lcm, lcm_spec, magnitude, trunc_div};
use crate::simultaneous_equation::{
    arrange, backward_from, eliminate_from, eliminate_row, find_pivot, forward_from,
    identity_places, normalize_row, places_valid, rectangular, row_combine, solve_spec,
    substitute_from, substitute_row, swap_places,
};
use vstd::arithmetic::div_mod::{
    lemma_div_multiples_vanish, lemma_fundamental_div_mod, lemma_mod_multiples_basic,
};
use vstd::prelude::*;

verus! {

/// The left-hand side of an equation at `x`: the sum of the first `n`
/// entries of the row, each times its unknown.
pub open spec fn dot(r: Seq<int>, x: Seq<int>, n: int) -> int
    decreases n,
{
    if n <= 0 {
        0
    } else {
        dot(r, x, n - 1) + r[n - 1] * x[n - 1]
    }
}

/// `x` solves the equation of the row, whose right-hand side stands in
/// column `n`.
pub open spec fn solves_row(r: Seq<int>, x: Seq<int>, n: int) -> bool {
    dot(r, x, n) == r[n]
}

/// `x` solves every equation of the matrix.
pub open spec fn solves(a: Seq<Seq<int>>, x: Seq<int>, n: int) -> bool {
    forall|i: int| 0 <= i < a.len() ==> solves_row(#[trigger] a[i], x, n)
}

/// The left-hand side is linear in the row.
proof fn lemma_dot_combine(u: Seq<int>, cu: int, v: Seq<int>, cv: int, x: Seq<int>, n: int)
    requires
        0 <= n <= u.len(),
        n <= v.len(),
    ensures
        dot(row_combine(u, cu, v, cv), x, n) == cu * dot(u, x, n) - cv * dot(v, x, n),
    decreases n,
{
    if n > 0 {
        lemma_dot_combine(u, cu, v, cv, x, n - 1);
        let a = dot(u, x, n - 1);
        let b = dot(v, x, n - 1);
        let s = u[n - 1];
        let t = v[n - 1];
        let y = x[n - 1];
        assert(row_combine(u, cu, v, cv)[n - 1] == cu * s - cv * t);
        assert((cu * s - cv * t) * y == cu * (s * y) - cv * (t * y)) by (nonlinear_arith);
        assert(cu * (a + s * y) == cu * a + cu * (s * y)) by (nonlinear_arith);
        assert(cv * (b + t * y) == cv * b + cv * (t * y)) by (nonlinear_arith);
    } else {
        assert(cu * 0 - cv * 0 == 0);
    }
}

/// The left-hand side does not depend on the entries from column `n` on.
proof fn lemma_dot_update_outside(r: Seq<int>, c: int, val: int, x: Seq<int>, n: int)
    requires
        0 <= n <= c < r.len(),
    ensures
        dot(r.update(c, val), x, n) == dot(r, x, n),
    decreases n,
{
    if n > 0 {
        lemma_dot_update_outside(r, c, val, x, n - 1);
    }
}

/// The left-hand side after one entry changed.
proof fn lemma_dot_update(r: Seq<int>, c: int, val: int, x: Seq<int>, n: int)
    requires
        0 <= c < r.len(),
        0 <= n <= r.len(),
    ensures
        dot(r.update(c, val), x, n) == dot(r, x, n) + (if c < n {
            (val - r[c]) * x[c]
        } else {
            0
        }),
    decreases n,
{
    if n > 0 {
        lemma_dot_update(r, c, val, x, n - 1);
        if c == n - 1 {
            assert(val * x[c] == r[c] * x[c] + (val - r[c]) * x[c]) by (nonlinear_arith);
        }
    }
}

/// The left-hand side of a row with one entry other than zero.
proof fn lemma_dot_single(r: Seq<int>, k: int, x: Seq<int>, n: int)
    requires
        0 <= n <= r.len(),
        forall|c: int| 0 <= c < n && c != k ==> #[trigger] r[c] == 0,
    ensures
        dot(r, x, n) == (if 0 <= k < n {
            r[k] * x[k]
        } else {
            0
        }),
    decreases n,
{
    if n > 0 {
        lemma_dot_single(r, k, x, n - 1);
        if k != n - 1 {
            assert(r[n - 1] == 0);
            assert(0 * x[n - 1] == 0);
        }
    }
}

/// The quotient of a multiple of `d` by `d`.
proof fn lemma_trunc_div_product(x: int, d: int)
    requires
        d != 0,
    ensures
        trunc_div(d * x, d) == x,
{
    let l = d * x;
    if d > 0 {
        if l >= 0 {
            lemma_div_multiples_vanish(x, d);
        } else {
            assert(-l == d * (-x)) by (nonlinear_arith)
                requires
                    l == d * x,
            ;
            lemma_div_multiples_vanish(-x, d);
        }
    } else {
        if l >= 0 {
            assert(l == (-d) * (-x)) by (nonlinear_arith)
                requires
                    l == d * x,
            ;
            lemma_div_multiples_vanish(-x, -d);
        } else {
            assert(-l == (-d) * x) by (nonlinear_arith)
                requires
                    l == d * x,
            ;
            lemma_div_multiples_vanish(x, -d);
        }
    }
}

/// The least common multiple of the positive numbers `x` and `y` among the
/// numbers from `k` up to `bound`.
spec fn common_multiple_from(x: int, y: int, k: int, bound: int) -> int
    decreases bound - k,
{
    if k >= bound {
        bound
    } else if k % x == 0 && k % y == 0 {
        k
    } else {
        common_multiple_from(x, y, k + 1, bound)
    }
}

proof fn lemma_common_multiple_from(x: int, y: int, k: int, bound: int)
    requires
        x >= 1,
        y >= 1,
        1 <= k <= bound,
        bound % x == 0,
        bound % y == 0,
    ensures
        k <= common_multiple_from(x, y, k, bound) <= bound,
        common_multiple_from(x, y, k, bound) % x == 0,
        common_multiple_from(x, y, k, bound) % y == 0,
        forall|m: int|
            k <= m && #[trigger] (m % x) == 0 && m % y == 0 ==> common_multiple_from(
                x,
                y,
                k,
                bound,
            ) <= m,
    decreases bound - k,
{
    if k < bound && !(k % x == 0 && k % y == 0) {
        lemma_common_multiple_from(x, y, k + 1, bound);
    }
}

/// Two numbers have a least common multiple.
pub proof fn lemma_lcm_exists(a: int, b: int)
    ensures
        is_lcm(a, b, lcm_spec(a, b)),
{
    if a == 0 || b == 0 {
        assert(is_lcm(a, b, 0));
    } else {
        let x = magnitude(a);
        let y = magnitude(b);
        let bound = x * y;
        assert(bound >= 1) by (nonlinear_arith)
            requires
                x >= 1,
                y >= 1,
                bound == x * y,
        ;
        lemma_mod_multiples_basic(y, x);
        assert(y * x == x * y) by (nonlinear_arith);
        lemma_mod_multiples_basic(x, y);
        lemma_common_multiple_from(x, y, 1, bound);
        let r = common_multiple_from(x, y, 1, bound);
        assert(is_lcm(a, b, r));
    }
}

/// The least common multiple is the quotient by either number, times that
/// number.
proof fn lemma_lcm_exact(a: int, b: int)
    requires
        a != 0,
        b != 0,
    ensures
        trunc_div(lcm_spec(a, b), a) * a == lcm_spec(a, b),
        trunc_div(lcm_spec(a, b), b) * b == lcm_spec(a, b),
{
    lemma_lcm_exists(a, b);
    let l = lcm_spec(a, b);
    lemma_multiple_of_magnitude(l, a);
    lemma_multiple_of_magnitude(l, b);
}

/// A multiple of the size of `d` is its quotient by `d`, times `d`.
proof fn lemma_multiple_of_magnitude(l: int, d: int)
    requires
        d != 0,
        l % magnitude(d) == 0,
    ensures
        trunc_div(l, d) * d == l,
{
    let x = magnitude(d);
    lemma_fundamental_div_mod(l, x);
    let k = l / x;
    assert(l == x * k);
    if d > 0 {
        lemma_trunc_div_product(k, d);
        assert(k * d == d * k) by (nonlinear_arith);
    } else {
        assert(l == d * (-k)) by (nonlinear_arith)
            requires
                l == x * k,
                x == -d,
        ;
        lemma_trunc_div_product(-k, d);
        assert((-k) * d == d * (-k)) by (nonlinear_arith);
    }
}

/// The entry in column `c` of the row at place `j`.
pub open spec fn entry(a: Seq<Seq<int>>, row: Seq<int>, j: int, c: int) -> int {
    a[row[j]][c]
}

/// The places are those of `rows` rows, each once.
pub open spec fn arrangement(row: Seq<int>, rows: int) -> bool {
    &&& row.len() == rows
    &&& places_valid(row, rows)
    &&& forall|i: int, j: int| 0 <= i < j < rows ==> #[trigger] row[i] != #[trigger] row[j]
}

/// A matrix of `rows` rows for `n` unknowns.
pub open spec fn shaped(a: Seq<Seq<int>>, rows: int, n: int) -> bool {
    a.len() == rows && rectangular(a, n + 1)
}

/// The columns before `i` are zero below the diagonal.
pub open spec fn cleared_below(a: Seq<Seq<int>>, row: Seq<int>, i: int) -> bool {
    forall|c: int, j: int| 0 <= c < i && c < j < row.len() ==> #[trigger] entry(a, row, j, c) == 0
}

/// Column `i` is zero at the places after `i` and before `j_end`.
pub open spec fn column_cleared(a: Seq<Seq<int>>, row: Seq<int>, i: int, j_end: int) -> bool {
    forall|j: int| i < j < j_end ==> #[trigger] entry(a, row, j, i) == 0
}

proof fn lemma_eliminate_row(
    a: Seq<Seq<int>>,
    row: Seq<int>,
    i: int,
    j: int,
    rows: int,
    n: int,
    x: Seq<int>,
)
    requires
        shaped(a, rows, n),
        arrangement(row, rows),
        0 <= i < n,
        i < j < rows,
        entry(a, row, i, i) != 0,
        cleared_below(a, row, i),
        column_cleared(a, row, i, j),
        solves(a, x, n),
    ensures
        shaped(eliminate_row(a, row, i, j), rows, n),
        entry(eliminate_row(a, row, i, j), row, i, i) == entry(a, row, i, i),
        cleared_below(eliminate_row(a, row, i, j), row, i),
        column_cleared(eliminate_row(a, row, i, j), row, i, j + 1),
        solves(eliminate_row(a, row, i, j), x, n),
{
    let a2 = eliminate_row(a, row, i, j);
    let c1 = a[row[i]][i];
    let c2 = a[row[j]][i];
    assert(row[i] != row[j]);
    assert(a[row[i]].len() == n + 1);
    assert(a[row[j]].len() == n + 1);
    if c2 != 0 {
        let l = lcm_spec(c1, c2);
        let cu = trunc_div(l, c2);
        let cv = trunc_div(l, c1);
        let u = a[row[j]];
        let v = a[row[i]];
        let fresh = row_combine(u, cu, v, cv);
        assert(a2 == a.update(row[j], fresh));
        lemma_lcm_exact(c1, c2);
        assert(fresh[i] == 0) by {
            assert(fresh[i] == cu * c2 - cv * c1);
        }
        assert forall|k: int| 0 <= k < rows && k != j implies a2[row[k]] == a[row[k]] by {
            if k < j {
                assert(row[k] != row[j]);
            } else {
                assert(row[j] != row[k]);
            }
        }
        assert(a2[row[j]] == fresh);
        assert(rectangular(a2, n + 1)) by {
            assert forall|k: int| 0 <= k < a2.len() implies (#[trigger] a2[k]).len() == n + 1 by {
                if k != row[j] {
                    assert(a2[k] == a[k]);
                }
            }
        }
        assert(cleared_below(a2, row, i)) by {
            assert forall|c: int, k: int| 0 <= c < i && c < k < row.len() implies #[trigger] entry(
                a2,
                row,
                k,
                c,
            ) == 0 by {
                if k == j {
                    assert(entry(a, row, j, c) == 0);
                    assert(entry(a, row, i, c) == 0);
                    assert(fresh[c] == cu * u[c] - cv * v[c]);
                    assert(cu * 0 - cv * 0 == 0);
                } else {
                    assert(entry(a, row, k, c) == 0);
                }
            }
        }
        assert(column_cleared(a2, row, i, j + 1)) by {
            assert forall|k: int| i < k < j + 1 implies #[trigger] entry(a2, row, k, i) == 0 by {
                if k != j {
                    assert(entry(a, row, k, i) == 0);
                }
            }
        }
        assert(solves(a2, x, n)) by {
            assert forall|k: int| 0 <= k < a2.len() implies solves_row(#[trigger] a2[k], x, n) by {
                if k == row[j] {
                    lemma_dot_combine(u, cu, v, cv, x, n);
                    assert(solves_row(a[row[j]], x, n));
                    assert(solves_row(a[row[i]], x, n));
                    assert(fresh[n] == cu * u[n] - cv * v[n]);
                } else {
                    assert(a2[k] == a[k]);
                    assert(solves_row(a[k], x, n));
                }
            }
        }
    } else {
        assert(column_cleared(a2, row, i, j + 1)) by {
            assert forall|k: int| i < k < j + 1 implies #[trigger] entry(a2, row, k, i) == 0 by {
                if k != j {
                    assert(entry(a, row, k, i) == 0);
                }
            }
        }
    }
}

proof fn lemma_eliminate_from(
    a: Seq<Seq<int>>,
    row: Seq<int>,
    i: int,
    j: int,
    rows: int,
    n: int,
    x: Seq<int>,
)
    requires
        shaped(a, rows, n),
        arrangement(row, rows),
        0 <= i < n,
        i < j <= rows,
        entry(a, row, i, i) != 0,
        cleared_below(a, row, i),
        column_cleared(a, row, i, j),
        solves(a, x, n),
    ensures
        shaped(eliminate_from(a, row, i, j), rows, n),
        cleared_below(eliminate_from(a, row, i, j), row, i + 1),
        solves(eliminate_from(a, row, i, j), x, n),
    decreases rows - j,
{
    if j < rows {
        lemma_eliminate_row(a, row, i, j, rows, n, x);
        lemma_eliminate_from(eliminate_row(a, row, i, j), row, i, j + 1, rows, n, x);
    } else {
        assert forall|c: int, k: int| 0 <= c < i + 1 && c < k < row.len() implies #[trigger] entry(
            a,
            row,
            k,
            c,
        ) == 0 by {
            if c == i {
                assert(entry(a, row, k, i) == 0);
            } else {
                assert(entry(a, row, k, c) == 0);
            }
        }
    }
}

proof fn lemma_find_pivot(a: Seq<Seq<int>>, row: Seq<int>, i: int, j: int)
    requires
        0 <= j,
        find_pivot(a, row, i, j) is Some,
    ensures
        j <= find_pivot(a, row, i, j)->Some_0 < row.len(),
        entry(a, row, find_pivot(a, row, i, j)->Some_0, i) != 0,
    decreases row.len() - j,
{
    if j < row.len() && a[row[j]][i] == 0 {
        lemma_find_pivot(a, row, i, j + 1);
    }
}

proof fn lemma_swap_places(a: Seq<Seq<int>>, row: Seq<int>, i: int, j: int, rows: int)
    requires
        arrangement(row, rows),
        0 <= i <= j < rows,
        cleared_below(a, row, i),
    ensures
        arrangement(swap_places(row, i, j), rows),
        cleared_below(a, swap_places(row, i, j), i),
        swap_places(row, i, j)[i] == row[j],
{
    let r2 = swap_places(row, i, j);
    assert forall|k: int| 0 <= k < rows implies r2[k] == (if k == i {
        row[j]
    } else if k == j {
        row[i]
    } else {
        row[k]
    }) by {}
    assert forall|k: int| 0 <= k < r2.len() implies 0 <= #[trigger] r2[k] < rows by {
        assert(0 <= row[k] < rows);
        assert(0 <= row[i] < rows);
        assert(0 <= row[j] < rows);
    }
    assert forall|k: int, l: int| 0 <= k < l < rows implies #[trigger] r2[k] != #[trigger] r2[l] by {
        let k0 = if k == i {
            j
        } else if k == j {
            i
        } else {
            k
        };
        let l0 = if l == i {
            j
        } else if l == j {
            i
        } else {
            l
        };
        assert(r2[k] == row[k0]);
        assert(r2[l] == row[l0]);
        if k0 < l0 {
            assert(row[k0] != row[l0]);
        } else {
            assert(row[l0] != row[k0]);
        }
    }
    assert forall|c: int, k: int| 0 <= c < i && c < k < r2.len() implies #[trigger] entry(
        a,
        r2,
        k,
        c,
    ) == 0 by {
        let k0 = if k == i {
            j
        } else if k == j {
            i
        } else {
            k
        };
        assert(r2[k] == row[k0]);
        assert(entry(a, row, k0, c) == 0);
    }
}

proof fn lemma_forward_from(
    a: Seq<Seq<int>>,
    row: Seq<int>,
    i: int,
    rows: int,
    n: int,
    x: Seq<int>,
)
    requires
        shaped(a, rows, n),
        arrangement(row, rows),
        0 <= i <= n <= rows,
        cleared_below(a, row, i),
        solves(a, x, n),
        forward_from(a, row, i, n) is Ok,
    ensures
        shaped(forward_from(a, row, i, n)->Ok_0.0, rows, n),
        arrangement(forward_from(a, row, i, n)->Ok_0.1, rows),
        cleared_below(forward_from(a, row, i, n)->Ok_0.0, forward_from(a, row, i, n)->Ok_0.1, n),
        solves(forward_from(a, row, i, n)->Ok_0.0, x, n),
    decreases n - i,
{
    if i < n {
        lemma_find_pivot(a, row, i, i);
        let j = find_pivot(a, row, i, i)->Some_0;
        let row2 = swap_places(row, i, j);
        lemma_swap_places(a, row, i, j, rows);
        assert(entry(a, row2, i, i) == entry(a, row, j, i));
        assert(column_cleared(a, row2, i, i + 1));
        lemma_eliminate_from(a, row2, i, i + 1, rows, n, x);
        lemma_forward_from(eliminate_from(a, row2, i, i + 1), row2, i + 1, rows, n, x);
    }
}

/// The columns from `i` on are zero above the diagonal.
pub open spec fn cleared_above(a: Seq<Seq<int>>, row: Seq<int>, i: int, n: int) -> bool {
    forall|c: int, j: int| i <= c < n && 0 <= j < c ==> #[trigger] entry(a, row, j, c) == 0
}

/// The diagonal is one from column `i` on.
pub open spec fn unit_diagonal(a: Seq<Seq<int>>, row: Seq<int>, i: int, n: int) -> bool {
    forall|c: int| i <= c < n ==> #[trigger] entry(a, row, c, c) == 1
}

/// The rows from place `i` on hold their unknowns in the last column.
pub open spec fn read_off(a: Seq<Seq<int>>, row: Seq<int>, i: int, n: int, x: Seq<int>) -> bool {
    forall|c: int| i <= c < n ==> #[trigger] entry(a, row, c, n) == x[c]
}

/// Column `k` is zero at the places before `j_end`.
pub open spec fn column_cleared_above(a: Seq<Seq<int>>, row: Seq<int>, k: int, j_end: int) -> bool {
    forall|j: int| 0 <= j < j_end ==> #[trigger] entry(a, row, j, k) == 0
}

/// What the back-substitution keeps, with the unknowns from `i` on done.
pub open spec fn substituted(
    a: Seq<Seq<int>>,
    row: Seq<int>,
    i: int,
    rows: int,
    n: int,
    x: Seq<int>,
) -> bool {
    &&& shaped(a, rows, n)
    &&& arrangement(row, rows)
    &&& cleared_below(a, row, n)
    &&& cleared_above(a, row, i, n)
    &&& unit_diagonal(a, row, i, n)
    &&& read_off(a, row, i, n, x)
    &&& solves(a, x, n)
}

proof fn lemma_other_rows(a: Seq<Seq<int>>, row: Seq<int>, k: int, fresh: Seq<int>, rows: int)
    requires
        a.len() == rows,
        arrangement(row, rows),
        0 <= k < rows,
    ensures
        a.update(row[k], fresh)[row[k]] == fresh,
        forall|j: int| 0 <= j < rows && j != k ==> a.update(row[k], fresh)[#[trigger] row[j]] == a[row[j]],
{
    assert forall|j: int| 0 <= j < rows && j != k implies a.update(row[k], fresh)[#[trigger] row[j]]
        == a[row[j]] by {
        if j < k {
            assert(row[j] != row[k]);
        } else {
            assert(row[k] != row[j]);
        }
    }
}

/// What holds between the two halves of a step of the back-substitution:
/// the row of the unknown `k` is divided by its pivot, and the column `k` is
/// zero at the places before `j`.
pub open spec fn normalized(
    a: Seq<Seq<int>>,
    row: Seq<int>,
    k: int,
    j: int,
    rows: int,
    n: int,
    x: Seq<int>,
) -> bool {
    &&& shaped(a, rows, n)
    &&& arrangement(row, rows)
    &&& cleared_below(a, row, n)
    &&& cleared_above(a, row, k + 1, n)
    &&& column_cleared_above(a, row, k, j)
    &&& unit_diagonal(a, row, k, n)
    &&& read_off(a, row, k, n, x)
    &&& solves(a, x, n)
}

proof fn lemma_normalize_row(
    a: Seq<Seq<int>>,
    row: Seq<int>,
    k: int,
    rows: int,
    n: int,
    x: Seq<int>,
)
    requires
        0 <= k < n <= rows,
        x.len() == n,
        substituted(a, row, k + 1, rows, n, x),
        entry(a, row, k, k) != 0,
    ensures
        normalized(a.update(row[k], normalize_row(a[row[k]], k, n)), row, k, 0, rows, n, x),
{
    let r = a[row[k]];
    let fresh = normalize_row(r, k, n);
    let a2 = a.update(row[k], fresh);
    assert(r.len() == n + 1);
    lemma_other_rows(a, row, k, fresh, rows);
    // the row says r[k] x[k] = r[n]
    assert forall|c: int| 0 <= c < n && c != k implies #[trigger] r[c] == 0 by {
        assert(entry(a, row, k, c) == 0);
    }
    lemma_dot_single(r, k, x, n);
    assert(solves_row(a[row[k]], x, n));
    assert(r[k] * x[k] == r[n]);
    if r[k] != 1 {
        lemma_trunc_div_product(x[k], r[k]);
        assert forall|c: int| 0 <= c < n && c != k implies #[trigger] fresh[c] == 0 by {
            assert(fresh[c] == r[c]);
        }
        lemma_dot_single(fresh, k, x, n);
    }
    assert(1 * x[k] == x[k]);
    assert(fresh.len() == n + 1);
    assert(fresh[k] == 1);
    assert(fresh[n] == x[k]);
    assert(solves_row(fresh, x, n));
    assert forall|c: int| 0 <= c < n && c != k implies #[trigger] fresh[c] == r[c] by {}
    assert(rectangular(a2, n + 1)) by {
        assert forall|j: int| 0 <= j < a2.len() implies (#[trigger] a2[j]).len() == n + 1 by {
            if j != row[k] {
                assert(a2[j] == a[j]);
            }
        }
    }
    assert(cleared_below(a2, row, n)) by {
        assert forall|c: int, j: int| 0 <= c < n && c < j < row.len() implies #[trigger] entry(
            a2,
            row,
            j,
            c,
        ) == 0 by {
            assert(entry(a, row, j, c) == 0);
            if j == k {
                assert(fresh[c] == r[c]);
            }
        }
    }
    assert(cleared_above(a2, row, k + 1, n)) by {
        assert forall|c: int, j: int| k + 1 <= c < n && 0 <= j < c implies #[trigger] entry(
            a2,
            row,
            j,
            c,
        ) == 0 by {
            assert(entry(a, row, j, c) == 0);
            if j == k {
                assert(fresh[c] == r[c]);
            }
        }
    }
    assert(unit_diagonal(a2, row, k, n)) by {
        assert forall|c: int| k <= c < n implies #[trigger] entry(a2, row, c, c) == 1 by {
            if c != k {
                assert(entry(a, row, c, c) == 1);
            }
        }
    }
    assert(read_off(a2, row, k, n, x)) by {
        assert forall|c: int| k <= c < n implies #[trigger] entry(a2, row, c, n) == x[c] by {
            if c != k {
                assert(entry(a, row, c, n) == x[c]);
            }
        }
    }
    assert(solves(a2, x, n)) by {
        assert forall|j: int| 0 <= j < a2.len() implies solves_row(#[trigger] a2[j], x, n) by {
            if j != row[k] {
                assert(a2[j] == a[j]);
                assert(solves_row(a[j], x, n));
            }
        }
    }
}

proof fn lemma_substitute_from(
    a: Seq<Seq<int>>,
    row: Seq<int>,
    k: int,
    j: int,
    rows: int,
    n: int,
    x: Seq<int>,
)
    requires
        0 <= j <= k < n <= rows,
        x.len() == n,
        normalized(a, row, k, j, rows, n, x),
    ensures
        substituted(substitute_from(a, row, k, j, n, x[k]), row, k, rows, n, x),
    decreases k - j,
{
    if j < k {
        let r = a[row[j]];
        let val = x[k];
        let fresh = substitute_row(r, k, n, val);
        let a2 = a.update(row[j], fresh);
        assert(r.len() == n + 1);
        lemma_other_rows(a, row, j, fresh, rows);
        // the new row: the entry in column k is gone to the right-hand side
        assert(fresh.len() == n + 1);
        assert(fresh[k] == 0);
        assert(fresh[n] == r[n] - r[k] * val);
        assert forall|c: int| 0 <= c < n && c != k implies #[trigger] fresh[c] == r[c] by {}
        lemma_dot_update_outside(r, n, r[n] - r[k] * val, x, n);
        lemma_dot_update(r.update(n, r[n] - r[k] * val), k, 0, x, n);
        assert(solves_row(a[row[j]], x, n));
        assert((0 - r[k]) * x[k] == -(r[k] * val)) by (nonlinear_arith)
            requires
                val == x[k],
        ;
        assert(solves_row(fresh, x, n));
        assert(rectangular(a2, n + 1)) by {
            assert forall|i: int| 0 <= i < a2.len() implies (#[trigger] a2[i]).len() == n + 1 by {
                if i != row[j] {
                    assert(a2[i] == a[i]);
                }
            }
        }
        assert(cleared_below(a2, row, n)) by {
            assert forall|c: int, i: int| 0 <= c < n && c < i < row.len() implies #[trigger] entry(
                a2,
                row,
                i,
                c,
            ) == 0 by {
                assert(entry(a, row, i, c) == 0);
                if i == j {
                    assert(fresh[c] == r[c]);
                }
            }
        }
        assert(cleared_above(a2, row, k + 1, n)) by {
            assert forall|c: int, i: int| k + 1 <= c < n && 0 <= i < c implies #[trigger] entry(
                a2,
                row,
                i,
                c,
            ) == 0 by {
                assert(entry(a, row, i, c) == 0);
                if i == j {
                    assert(fresh[c] == r[c]);
                }
            }
        }
        assert(column_cleared_above(a2, row, k, j + 1)) by {
            assert forall|i: int| 0 <= i < j + 1 implies #[trigger] entry(a2, row, i, k) == 0 by {
                if i != j {
                    assert(entry(a, row, i, k) == 0);
                }
            }
        }
        assert(unit_diagonal(a2, row, k, n)) by {
            assert forall|c: int| k <= c < n implies #[trigger] entry(a2, row, c, c) == 1 by {
                assert(entry(a, row, c, c) == 1);
            }
        }
        assert(read_off(a2, row, k, n, x)) by {
            assert forall|c: int| k <= c < n implies #[trigger] entry(a2, row, c, n) == x[c] by {
                assert(entry(a, row, c, n) == x[c]);
            }
        }
        assert(solves(a2, x, n)) by {
            assert forall|i: int| 0 <= i < a2.len() implies solves_row(#[trigger] a2[i], x, n) by {
                if i != row[j] {
                    assert(a2[i] == a[i]);
                    assert(solves_row(a[i], x, n));
                }
            }
        }
        lemma_substitute_from(a2, row, k, j + 1, rows, n, x);
    } else {
        assert(cleared_above(a, row, k, n)) by {
            assert forall|c: int, i: int| k <= c < n && 0 <= i < c implies #[trigger] entry(
                a,
                row,
                i,
                c,
            ) == 0 by {
                if c == k {
                    assert(entry(a, row, i, k) == 0);
                } else {
                    assert(entry(a, row, i, c) == 0);
                }
            }
        }
    }
}

proof fn lemma_backward_from(
    a: Seq<Seq<int>>,
    row: Seq<int>,
    i: int,
    rows: int,
    n: int,
    x: Seq<int>,
)
    requires
        0 <= i <= n <= rows,
        x.len() == n,
        substituted(a, row, i, rows, n, x),
        backward_from(a, row, i, n) is Ok,
    ensures
        substituted(backward_from(a, row, i, n)->Ok_0, row, 0, rows, n, x),
    decreases i,
{
    if i > 0 {
        let k = i - 1;
        lemma_normalize_row(a, row, k, rows, n, x);
        let a2 = a.update(row[k], normalize_row(a[row[k]], k, n));
        assert(entry(a2, row, k, n) == x[k]);
        lemma_substitute_from(a2, row, k, 0, rows, n, x);
        lemma_backward_from(substitute_from(a2, row, k, 0, n, x[k]), row, k, rows, n, x);
    }
}

/// What `solve` finds out: every solution `x` of the system of equations
/// stands in the last column of the result, the unknown `i` in row `i`. So
/// a system that `solve` accepts has one solution in integers at most, and
/// the result holds it.
pub proof fn lemma_solve_sound(m: Seq<Seq<int>>, x: Seq<int>)
    requires
        solve_spec(m) is Ok,
        x.len() == m[0].len() - 1,
        solves(m, x, m[0].len() - 1),
    ensures
        forall|i: int|
            0 <= i < m[0].len() - 1 ==> (#[trigger] solve_spec(m)->Ok_0[i])[m[0].len() - 1]
                == x[i],
{
    let n = m[0].len() - 1;
    let rows = m.len() as int;
    let start = identity_places(rows);
    assert(arrangement(start, rows));
    assert(cleared_below(m, start, 0));
    lemma_forward_from(m, start, 0, rows, n, x);
    let (a, row) = forward_from(m, start, 0, n)->Ok_0;
    assert(substituted(a, row, n, rows, n, x));
    lemma_backward_from(a, row, n, rows, n, x);
    let b = backward_from(a, row, n, n)->Ok_0;
    assert forall|i: int| 0 <= i < n implies (#[trigger] solve_spec(m)->Ok_0[i])[n] == x[i] by {
        assert(arrange(b, row)[i] == b[row[i]]);
        assert(entry(b, row, i, n) == x[i]);
    }
}

proof fn lemma_forward_error(a: Seq<Seq<int>>, row: Seq<int>, i: int, n: int)
    ensures
        forward_from(a, row, i, n) is Err ==> forward_from(a, row, i, n) == Err::<
            (Seq<Seq<int>>, Seq<int>),
            Error,
        >(Error::Unsolvable),
    decreases n - i,
{
    if i < n && find_pivot(a, row, i, i) is Some {
        let j = find_pivot(a, row, i, i)->Some_0;
        let row2 = swap_places(row, i, j);
        lemma_forward_error(eliminate_from(a, row2, i, i + 1), row2, i + 1, n);
    }
}

proof fn lemma_backward_error(a: Seq<Seq<int>>, row: Seq<int>, i: int, n: int)
    ensures
        backward_from(a, row, i, n) is Err ==> backward_from(a, row, i, n) == Err::<
            Seq<Seq<int>>,
            Error,
        >(Error::Unsolvable),
    decreases i,
{
    if i > 0 {
        let k = i - 1;
        if a[row[k]][k] != 0 {
            let a2 = a.update(row[k], normalize_row(a[row[k]], k, n));
            lemma_backward_error(substitute_from(a2, row, k, 0, n, a2[row[k]][n]), row, k, n);
        }
    }
}

/// When `solve` rejects a matrix: one without rows, without columns or with
/// rows of different lengths is out of its domain; any other it rejects as
/// unsolvable.
pub proof fn lemma_solve_errors(m: Seq<Seq<int>>)
    requires
        solve_spec(m) is Err,
    ensures
        solve_spec(m)->Err_0 == Error::DomainError || solve_spec(m)->Err_0 == Error::Unsolvable,
        solve_spec(m)->Err_0 == Error::DomainError <==> m.len() == 0 || m[0].len() == 0
            || !rectangular(m, m[0].len() as int),
{
    if !(m.len() == 0 || m[0].len() == 0 || !rectangular(m, m[0].len() as int)) {
        let n = m[0].len() - 1;
        if m.len() >= n {
            lemma_forward_error(m, identity_places(m.len() as int), 0, n);
            if forward_from(m, identity_places(m.len() as int), 0, n) is Ok {
                let (a, row) = forward_from(m, identity_places(m.len() as int), 0, n)->Ok_0;
                lemma_backward_error(a, row, n, n);
            }
        }
    }
}

} // verus!
