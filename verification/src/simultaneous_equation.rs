use crate::error::Error;
use crate::integer::{
    big_div_trunc, big_from_i64, big_is_one, big_is_zero, big_lcm, big_mul, big_sub, int_of,
    lcm_spec, lemma_lcm_unique, trunc_div,
};
use num_bigint::BigInt;
use vstd::pervasive::VecAdditionalExecFns;
use vstd::prelude::*;

verus! {

/// The integers of a row.
pub open spec fn row_view(r: Vec<BigInt>) -> Seq<int> {
    Seq::new(r@.len(), |k: int| int_of(r@[k]))
}

/// The integers of a matrix, row by row.
pub open spec fn matrix_view(a: Seq<Vec<BigInt>>) -> Seq<Seq<int>> {
    Seq::new(a.len(), |i: int| row_view(a[i]))
}

/// The places of the rows.
pub open spec fn order_view(row: Seq<usize>) -> Seq<int> {
    Seq::new(row.len(), |i: int| row[i] as int)
}

/// Every row has `cols` entries.
pub open spec fn rectangular(a: Seq<Seq<int>>, cols: int) -> bool {
    forall|i: int| 0 <= i < a.len() ==> (#[trigger] a[i]).len() == cols
}

/// Every place is the place of a row.
pub open spec fn places_valid(row: Seq<int>, rows: int) -> bool {
    forall|i: int| 0 <= i < row.len() ==> 0 <= #[trigger] row[i] < rows
}

/// The row `cu * u - cv * v`.
pub open spec fn row_combine(u: Seq<int>, cu: int, v: Seq<int>, cv: int) -> Seq<int> {
    Seq::new(u.len(), |k: int| cu * u[k] - cv * v[k])
}

/// The first `j` from `j` on whose row has a non-zero entry in column `i`.
pub open spec fn find_pivot(a: Seq<Seq<int>>, row: Seq<int>, i: int, j: int) -> Option<int>
    decreases row.len() - j,
{
    if j < 0 || j >= row.len() {
        None
    } else if a[row[j]][i] != 0 {
        Some(j)
    } else {
        find_pivot(a, row, i, j + 1)
    }
}

/// The places with those at `i` and `j` exchanged.
pub open spec fn swap_places(row: Seq<int>, i: int, j: int) -> Seq<int> {
    row.update(i, row[j]).update(j, row[i])
}

/// The row at place `j` without its entry in column `i`: with `l` for the
/// least common multiple of that entry `c2` and of the pivot `c1`, it
/// becomes `(l / c2) row_j - (l / c1) row_i`. A row whose entry is zero
/// stays as it is.
pub open spec fn eliminate_row(a: Seq<Seq<int>>, row: Seq<int>, i: int, j: int) -> Seq<Seq<int>> {
    let c1 = a[row[i]][i];
    let c2 = a[row[j]][i];
    if c1 != 0 && c2 != 0 {
        let l = lcm_spec(c1, c2);
        a.update(row[j], row_combine(a[row[j]], trunc_div(l, c2), a[row[i]], trunc_div(l, c1)))
    } else {
        a
    }
}

/// Column `i` cleared in the rows from place `j` on.
pub open spec fn eliminate_from(a: Seq<Seq<int>>, row: Seq<int>, i: int, j: int) -> Seq<Seq<int>>
    decreases row.len() - j,
{
    if j < 0 || j >= row.len() {
        a
    } else {
        eliminate_from(eliminate_row(a, row, i, j), row, i, j + 1)
    }
}

/// The forward elimination from column `i` on, for `n` unknowns. It fails
/// where a column has no pivot.
pub open spec fn forward_from(a: Seq<Seq<int>>, row: Seq<int>, i: int, n: int) -> Result<
    (Seq<Seq<int>>, Seq<int>),
    Error,
>
    decreases n - i,
{
    if i >= n {
        Ok((a, row))
    } else {
        match find_pivot(a, row, i, i) {
            None => Err(Error::Unsolvable),
            Some(j) => {
                let row2 = swap_places(row, i, j);
                forward_from(eliminate_from(a, row2, i, i + 1), row2, i + 1, n)
            },
        }
    }
}

/// The row with the value `val` of the unknown `i` taken to the right-hand
/// side, which stands in column `n`.
pub open spec fn substitute_row(r: Seq<int>, i: int, n: int, val: int) -> Seq<int> {
    r.update(n, r[n] - r[i] * val).update(i, 0)
}

/// The value of the unknown `i` substituted in the rows at the places from
/// `j` up to `i`.
pub open spec fn substitute_from(
    a: Seq<Seq<int>>,
    row: Seq<int>,
    i: int,
    j: int,
    n: int,
    val: int,
) -> Seq<Seq<int>>
    decreases i - j,
{
    if j < 0 || j >= i {
        a
    } else {
        substitute_from(
            a.update(row[j], substitute_row(a[row[j]], i, n, val)),
            row,
            i,
            j + 1,
            n,
            val,
        )
    }
}

/// The row of the unknown `i` divided by its pivot.
pub open spec fn normalize_row(r: Seq<int>, i: int, n: int) -> Seq<int> {
    if r[i] != 1 {
        r.update(i, 1).update(n, trunc_div(r[n], r[i]))
    } else {
        r
    }
}

/// The back-substitution of the unknowns below `i`, from the last down. It
/// fails on a zero pivot.
pub open spec fn backward_from(a: Seq<Seq<int>>, row: Seq<int>, i: int, n: int) -> Result<
    Seq<Seq<int>>,
    Error,
>
    decreases i,
{
    if i <= 0 {
        Ok(a)
    } else {
        let k = i - 1;
        if a[row[k]][k] == 0 {
            Err(Error::Unsolvable)
        } else {
            let a2 = a.update(row[k], normalize_row(a[row[k]], k, n));
            backward_from(substitute_from(a2, row, k, 0, n, a2[row[k]][n]), row, k, n)
        }
    }
}

/// The places `0, 1, ..., rows - 1`.
pub open spec fn identity_places(rows: int) -> Seq<int> {
    Seq::new(rows as nat, |i: int| i)
}

/// The rows of `a` by their places.
pub open spec fn arrange(a: Seq<Seq<int>>, row: Seq<int>) -> Seq<Seq<int>> {
    Seq::new(row.len(), |i: int| a[row[i]])
}

/// What `solve` returns for an augmented matrix of `n + 1` columns: the
/// matrix after elimination with least common multiples and
/// back-substitution, whose row `i`, for `i < n`, holds the unknown `i` in
/// its last column.
pub open spec fn solve_spec(m: Seq<Seq<int>>) -> Result<Seq<Seq<int>>, Error> {
    if m.len() == 0 || m[0].len() == 0 || !rectangular(m, m[0].len() as int) {
        Err(Error::DomainError)
    } else {
        let n = m[0].len() - 1;
        if m.len() < n {
            Err(Error::Unsolvable)
        } else {
            match forward_from(m, identity_places(m.len() as int), 0, n) {
                Ok((a, row)) => match backward_from(a, row, n, n) {
                    Ok(b) => Ok(arrange(b, row)),
                    Err(e) => Err(e),
                },
                Err(e) => Err(e),
            }
        }
    }
}

/// A copy of a row.
fn copy_row(r: &Vec<BigInt>) -> (out: Vec<BigInt>)
    ensures
        out@.len() == r@.len(),
        row_view(out) == row_view(*r),
{
    let mut out: Vec<BigInt> = Vec::new();
    let mut k: usize = 0;
    while k < r.len()
        invariant
            0 <= k <= r@.len(),
            out@.len() == k,
            forall|t: int| 0 <= t < k ==> int_of(#[trigger] out@[t]) == int_of(r@[t]),
        decreases r@.len() - k,
    {
        out.push(r[k].clone());
        k = k + 1;
    }
    assert(row_view(out) =~= row_view(*r));
    out
}

/// A copy of a row with the entry `v` in column `c`.
fn row_with(r: &Vec<BigInt>, c: usize, v: BigInt) -> (out: Vec<BigInt>)
    requires
        c < r@.len(),
    ensures
        out@.len() == r@.len(),
        row_view(out) == row_view(*r).update(c as int, int_of(v)),
{
    let mut out = copy_row(r);
    let ghost before = row_view(out);
    out.set(c, v);
    assert(row_view(out) =~= before.update(c as int, int_of(v)));
    out
}

/// The row `cu * u - cv * v`.
fn combine_rows(u: &Vec<BigInt>, cu: &BigInt, v: &Vec<BigInt>, cv: &BigInt) -> (out: Vec<BigInt>)
    requires
        u@.len() == v@.len(),
    ensures
        out@.len() == u@.len(),
        row_view(out) == row_combine(row_view(*u), int_of(*cu), row_view(*v), int_of(*cv)),
{
    let mut out: Vec<BigInt> = Vec::new();
    let mut k: usize = 0;
    while k < u.len()
        invariant
            0 <= k <= u@.len(),
            u@.len() == v@.len(),
            out@.len() == k,
            forall|t: int|
                0 <= t < k ==> int_of(#[trigger] out@[t]) == int_of(*cu) * int_of(u@[t]) - int_of(
                    *cv,
                ) * int_of(v@[t]),
        decreases u@.len() - k,
    {
        out.push(big_sub(&big_mul(cu, &u[k]), &big_mul(cv, &v[k])));
        k = k + 1;
    }
    assert(row_view(out) =~= row_combine(
        row_view(*u),
        int_of(*cu),
        row_view(*v),
        int_of(*cv),
    ));
    out
}

/// Puts the row `r` at the place `at` of the matrix.
fn put_row(a: &mut Vec<Vec<BigInt>>, at: usize, r: Vec<BigInt>)
    requires
        at < old(a)@.len(),
    ensures
        matrix_view(final(a)@) == matrix_view(old(a)@).update(at as int, row_view(r)),
{
    let ghost before = matrix_view(a@);
    a.set(at, r);
    assert(matrix_view(a@) =~= before.update(at as int, row_view(r)));
}

/// Solves a system of linear equations over the integers. The matrix is
/// augmented: its last column holds the right-hand sides.
pub fn solve(matrix: &Vec<Vec<BigInt>>) -> (res: Result<Vec<Vec<BigInt>>, Error>)
    ensures
        match res {
            Ok(b) => solve_spec(matrix_view(matrix@)) == Ok::<Seq<Seq<int>>, Error>(
                matrix_view(b@),
            ) && b@.len() == matrix@.len() && matrix@.len() + 1 >= matrix@[0]@.len()
                && rectangular(matrix_view(b@), matrix@[0]@.len() as int),
            Err(e) => solve_spec(matrix_view(matrix@)) == Err::<Seq<Seq<int>>, Error>(e),
        },
{
    let row_count = matrix.len();
    if row_count == 0 {
        return Err(Error::DomainError);
    }
    let col_count = matrix[0].len();
    if col_count == 0 {
        return Err(Error::DomainError);
    }
    let ghost m = matrix_view(matrix@);
    // a copy of the matrix, rejected where it is not rectangular
    let mut a: Vec<Vec<BigInt>> = Vec::new();
    let mut row: Vec<usize> = Vec::new();
    let mut r: usize = 0;
    while r < row_count
        invariant
            0 <= r <= row_count,
            row_count == matrix@.len(),
            col_count == m[0].len(),
            m == matrix_view(matrix@),
            a@.len() == r,
            row@.len() == r,
            forall|t: int| 0 <= t < r ==> (#[trigger] m[t]).len() == col_count,
            forall|t: int| 0 <= t < r ==> row_view(#[trigger] a@[t]) == m[t],
            forall|t: int| 0 <= t < r ==> (#[trigger] row@[t]) == t,
        decreases row_count - r,
    {
        if matrix[r].len() != col_count {
            assert(m[r as int].len() != col_count);
            return Err(Error::DomainError);
        }
        a.push(copy_row(&matrix[r]));
        row.push(r);
        r = r + 1;
    }
    assert(rectangular(m, col_count as int));
    assert(matrix_view(a@) =~= m);
    assert(order_view(row@) =~= identity_places(row_count as int));
    let n = col_count - 1;
    if row_count < n {
        return Err(Error::Unsolvable);
    }
    // forward elimination
    let ghost target = solve_spec(m);
    let mut i: usize = 0;
    while i < n
        invariant
            0 <= i <= n,
            n + 1 == col_count,
            n <= row_count,
            a@.len() == row_count,
            row@.len() == row_count,
            target == solve_spec(matrix_view(matrix@)),
            rectangular(matrix_view(a@), col_count as int),
            places_valid(order_view(row@), row_count as int),
            match forward_from(matrix_view(a@), order_view(row@), i as int, n as int) {
                Ok((a2, row2)) => match backward_from(a2, row2, n as int, n as int) {
                    Ok(b) => target == Ok::<Seq<Seq<int>>, Error>(arrange(b, row2)),
                    Err(e) => target == Err::<Seq<Seq<int>>, Error>(e),
                },
                Err(e) => target == Err::<Seq<Seq<int>>, Error>(e),
            },
        decreases n - i,
    {
        // the pivot
        let mut j: usize = i;
        let mut found = false;
        while j < row_count && !found
            invariant
                i <= j <= row_count,
                i < n,
                n + 1 == col_count,
                a@.len() == row_count,
                row@.len() == row_count,
                rectangular(matrix_view(a@), col_count as int),
                places_valid(order_view(row@), row_count as int),
                found ==> j < row_count && matrix_view(a@)[order_view(row@)[j as int]][i as int]
                    != 0,
                find_pivot(matrix_view(a@), order_view(row@), i as int, j as int) == find_pivot(
                    matrix_view(a@),
                    order_view(row@),
                    i as int,
                    i as int,
                ),
            decreases row_count - j + (if found { 0int } else { 1int }),
        {
            assert(order_view(row@)[j as int] == row@[j as int]);
            assert(matrix_view(a@)[row@[j as int] as int].len() == col_count);
            if !big_is_zero(&a[row[j]][i]) {
                found = true;
            } else {
                j = j + 1;
            }
        }
        if !found {
            proof {
                assert(find_pivot(matrix_view(a@), order_view(row@), i as int, j as int) is None);
            }
            return Err(Error::Unsolvable);
        }
        proof {
            assert(find_pivot(matrix_view(a@), order_view(row@), i as int, j as int) == Some(
                j as int,
            ));
        }
        let ghost places_before = order_view(row@);
        let ri = row[i];
        let rj = row[j];
        row.set(i, rj);
        row.set(j, ri);
        proof {
            assert(order_view(row@) =~= swap_places(places_before, i as int, j as int));
            assert(places_before[i as int] == ri);
            assert(places_before[j as int] == rj);
        }
        let pivot_row = row[i];
        // the rows below
        let mut j: usize = i + 1;
        while j < row_count
            invariant
                i < j <= row_count,
                i < n,
                n + 1 == col_count,
                n <= row_count,
                a@.len() == row_count,
                row@.len() == row_count,
                pivot_row == row@[i as int],
                rectangular(matrix_view(a@), col_count as int),
                places_valid(order_view(row@), row_count as int),
                match forward_from(
                    eliminate_from(matrix_view(a@), order_view(row@), i as int, j as int),
                    order_view(row@),
                    i as int + 1,
                    n as int,
                ) {
                    Ok((a2, row2)) => match backward_from(a2, row2, n as int, n as int) {
                        Ok(b) => target == Ok::<Seq<Seq<int>>, Error>(arrange(b, row2)),
                        Err(e) => target == Err::<Seq<Seq<int>>, Error>(e),
                    },
                    Err(e) => target == Err::<Seq<Seq<int>>, Error>(e),
                },
            decreases row_count - j,
        {
            let at = row[j];
            proof {
                assert(order_view(row@)[j as int] == at);
                assert(order_view(row@)[i as int] == pivot_row);
                assert(matrix_view(a@)[at as int].len() == col_count);
                assert(matrix_view(a@)[pivot_row as int].len() == col_count);
            }
            let c1 = a[pivot_row][i].clone();
            let c2 = a[at][i].clone();
            if !big_is_zero(&c1) && !big_is_zero(&c2) {
                let lcm = big_lcm(&c1, &c2);
                proof {
                    lemma_lcm_unique(int_of(c1), int_of(c2), int_of(lcm));
                }
                let cc1 = big_div_trunc(&lcm, &c1);
                let cc2 = big_div_trunc(&lcm, &c2);
                let combined = combine_rows(&a[at], &cc2, &a[pivot_row], &cc1);
                put_row(&mut a, at, combined);
                proof {
                    assert(rectangular(matrix_view(a@), col_count as int)) by {
                        assert forall|t: int| 0 <= t < matrix_view(a@).len() implies (
                        #[trigger] matrix_view(a@)[t]).len() == col_count by {}
                    }
                }
            }
            j = j + 1;
        }
        i = i + 1;
    }
    // back-substitution
    let mut i: usize = n;
    while i > 0
        invariant
            0 <= i <= n,
            n + 1 == col_count,
            n <= row_count,
            a@.len() == row_count,
            row@.len() == row_count,
            target == solve_spec(matrix_view(matrix@)),
            rectangular(matrix_view(a@), col_count as int),
            places_valid(order_view(row@), row_count as int),
            match backward_from(matrix_view(a@), order_view(row@), i as int, n as int) {
                Ok(b) => target == Ok::<Seq<Seq<int>>, Error>(arrange(b, order_view(row@))),
                Err(e) => target == Err::<Seq<Seq<int>>, Error>(e),
            },
        decreases i,
    {
        let k = i - 1;
        let at = row[k];
        proof {
            assert(order_view(row@)[k as int] == at);
            assert(matrix_view(a@)[at as int].len() == col_count);
        }
        let diag = a[at][k].clone();
        proof {
            assert(matrix_view(a@)[order_view(row@)[k as int]][k as int] == int_of(diag));
        }
        if big_is_zero(&diag) {
            return Err(Error::Unsolvable);
        }
        if !big_is_one(&diag) {
            let prim = a[at][n].clone();
            let r1 = row_with(&a[at], k, big_from_i64(1));
            let r2 = row_with(&r1, n, big_div_trunc(&prim, &diag));
            put_row(&mut a, at, r2);
        } else {
            proof {
                assert(matrix_view(a@) =~= matrix_view(a@).update(
                    at as int,
                    matrix_view(a@)[at as int],
                ));
            }
        }
        proof {
            assert(rectangular(matrix_view(a@), col_count as int)) by {
                assert forall|t: int| 0 <= t < matrix_view(a@).len() implies (
                #[trigger] matrix_view(a@)[t]).len() == col_count by {}
            }
        }
        let val = a[at][n].clone();
        let mut j: usize = 0;
        while j < k
            invariant
                0 <= j <= k < n,
                i == k + 1,
                n + 1 == col_count,
                n <= row_count,
                a@.len() == row_count,
                row@.len() == row_count,
                rectangular(matrix_view(a@), col_count as int),
                places_valid(order_view(row@), row_count as int),
                match backward_from(
                    substitute_from(
                        matrix_view(a@),
                        order_view(row@),
                        k as int,
                        j as int,
                        n as int,
                        int_of(val),
                    ),
                    order_view(row@),
                    k as int,
                    n as int,
                ) {
                    Ok(b) => target == Ok::<Seq<Seq<int>>, Error>(arrange(b, order_view(row@))),
                    Err(e) => target == Err::<Seq<Seq<int>>, Error>(e),
                },
            decreases k - j,
        {
            let up = row[j];
            proof {
                assert(order_view(row@)[j as int] == up);
                assert(matrix_view(a@)[up as int].len() == col_count);
            }
            let t_val = a[up][k].clone();
            let rhs = big_sub(&a[up][n], &big_mul(&t_val, &val));
            let r1 = row_with(&a[up], n, rhs);
            let r2 = row_with(&r1, k, big_from_i64(0));
            put_row(&mut a, up, r2);
            proof {
                assert(rectangular(matrix_view(a@), col_count as int)) by {
                    assert forall|t: int| 0 <= t < matrix_view(a@).len() implies (
                    #[trigger] matrix_view(a@)[t]).len() == col_count by {}
                }
            }
            j = j + 1;
        }
        i = k;
    }
    // the rows by their places
    let mut b: Vec<Vec<BigInt>> = Vec::new();
    let mut t: usize = 0;
    while t < row_count
        invariant
            0 <= t <= row_count,
            a@.len() == row_count,
            row@.len() == row_count,
            places_valid(order_view(row@), row_count as int),
            b@.len() == t,
            rectangular(matrix_view(a@), col_count as int),
            forall|s: int|
                0 <= s < t ==> row_view(#[trigger] b@[s]) == matrix_view(a@)[order_view(row@)[s]],
        decreases row_count - t,
    {
        proof {
            assert(order_view(row@)[t as int] == row@[t as int]);
        }
        b.push(copy_row(&a[row[t]]));
        t = t + 1;
    }
    proof {
        assert(matrix_view(b@) =~= arrange(matrix_view(a@), order_view(row@)));
        assert forall|s: int| 0 <= s < matrix_view(b@).len() implies (#[trigger] matrix_view(
            b@,
        )[s]).len() == col_count by {
            assert(matrix_view(b@)[s] == matrix_view(a@)[order_view(row@)[s]]);
        }
    }
    Ok(b)
}

} // verus!
