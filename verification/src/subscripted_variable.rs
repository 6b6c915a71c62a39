use crate::error::Error;
use crate::integer::{big_from_i64, big_to_string, decimal_text, is_prime, is_prime_u64};
use std::cmp::Ordering;
use vstd::prelude::*;
use vstd::std_specs::cmp::{PartialEqSpecImpl, PartialOrdSpecImpl};
use vstd::string::StringExecFns;

verus! {

/// A subscripted variable `c_i_j`, or the empty factor `1`.
#[derive(Debug, Clone, Copy)]
pub struct SubscriptedVariable {
    pub i: i64,
    pub j: i64,
    pub empty: bool,
}

impl View for SubscriptedVariable {
    type V = Option<(int, int)>;

    /// `None` for the empty factor, else the two subscripts.
    open spec fn view(&self) -> Option<(int, int)> {
        if self.empty {
            None
        } else {
            Some((self.i as int, self.j as int))
        }
    }
}

/// The order of variables: the empty one first, then by `(i, j)`.
pub open spec fn variable_lt(a: Option<(int, int)>, b: Option<(int, int)>) -> bool {
    match (a, b) {
        (None, None) => false,
        (None, Some(_)) => true,
        (Some(_), None) => false,
        (Some(u), Some(v)) => u.0 < v.0 || (u.0 == v.0 && u.1 < v.1),
    }
}

/// How a variable is written: nothing for the empty one, else `c_i_j`.
pub open spec fn variable_text(v: Option<(int, int)>) -> Seq<char> {
    match v {
        None => Seq::empty(),
        Some(u) => seq!['c', '_'] + decimal_text(u.0) + seq!['_'] + decimal_text(u.1),
    }
}

impl SubscriptedVariable {
    /// The empty variable: the factor `1`.
    pub fn new() -> (r: Self)
        ensures
            r@ is None,
            r.i == 0,
            r.j == 0,
    {
        Self { i: 0, j: 0, empty: true }
    }

    /// Whether `self` comes before `other` in the order of variables.
    pub fn precedes(&self, other: &Self) -> (r: bool)
        ensures
            r == variable_lt(self@, other@),
    {
        if self.empty {
            !other.empty
        } else if other.empty {
            false
        } else {
            self.i < other.i || (self.i == other.i && self.j < other.j)
        }
    }

    /// The variable as text.
    pub fn to_string(&self) -> (r: String)
        ensures
            r@ == variable_text(self@),
    {
        let mut st = String::new();
        if !self.empty {
            proof {
                reveal_strlit("c_");
                reveal_strlit("_");
            }
            st.append("c_");
            assert(st@ =~= seq!['c', '_']);
            let i = big_to_string(&big_from_i64(self.i));
            st.append(i.as_str());
            st.append("_");
            let j = big_to_string(&big_from_i64(self.j));
            st.append(j.as_str());
            assert(st@ =~= variable_text(self@));
        }
        st
    }
}

impl Default for SubscriptedVariable {
    fn default() -> (r: Self)
        ensures
            r@ is None,
    {
        Self { i: 0, j: 0, empty: true }
    }
}

impl PartialEq for SubscriptedVariable {
    fn eq(&self, other: &Self) -> (r: bool) {
        if self.empty != other.empty {
            return false;
        }
        if self.empty && other.empty {
            return true;
        }
        self.i == other.i && self.j == other.j
    }
}

impl PartialEqSpecImpl for SubscriptedVariable {
    open spec fn obeys_eq_spec() -> bool {
        true
    }

    open spec fn eq_spec(&self, other: &Self) -> bool {
        self@ == other@
    }
}

impl Eq for SubscriptedVariable {

}

impl PartialOrd for SubscriptedVariable {
    /// The order of variables: the empty one first, then by `(i, j)`.
    fn partial_cmp(&self, other: &Self) -> (r: Option<Ordering>) {
        if self.precedes(other) {
            Some(Ordering::Less)
        } else if other.precedes(self) {
            Some(Ordering::Greater)
        } else {
            Some(Ordering::Equal)
        }
    }
}

impl PartialOrdSpecImpl for SubscriptedVariable {
    open spec fn obeys_partial_cmp_spec() -> bool {
        true
    }

    open spec fn partial_cmp_spec(&self, other: &Self) -> Option<Ordering> {
        if variable_lt(self@, other@) {
            Some(Ordering::Less)
        } else if variable_lt(other@, self@) {
            Some(Ordering::Greater)
        } else {
            Some(Ordering::Equal)
        }
    }
}

/// The numbering of the variables `c_i_j` with `0 <= i <= j <= p`.
#[derive(Debug)]
pub struct SubscriptedVariableConverter {
    pub p: i64,
}

/// The number of pairs `(i', j)` with `i' < i` and `i' < j <= p`.
pub open spec fn row_start(p: int, i: int) -> int
    decreases i,
{
    if i <= 0 {
        0
    } else {
        row_start(p, i - 1) + (p - (i - 1))
    }
}

/// The number of variables: `p (p + 1) / 2` pairs above the diagonal and
/// `p + 1` on it.
pub open spec fn variable_count(p: int) -> int {
    p * (p + 1) / 2 + (p + 1)
}

/// The index of a variable: the pairs above the diagonal in lexicographic
/// order, then the diagonal. `None` where the variable has no index.
pub open spec fn index_spec(p: int, v: Option<(int, int)>) -> Option<int> {
    match v {
        None => None,
        Some(u) => if 0 <= u.0 < u.1 <= p {
            Some(row_start(p, u.0) + (u.1 - u.0 - 1))
        } else if 0 <= u.0 == u.1 <= p {
            Some(row_start(p, p + 1) + u.0)
        } else {
            None
        },
    }
}

/// The pair above the diagonal with the index `index`, sought from row `i`
/// on.
pub open spec fn find_row(p: int, i: int, index: int) -> Option<(int, int)>
    decreases p - i,
{
    if index < row_start(p, i + 1) {
        Some((i, i + 1 + index - row_start(p, i)))
    } else if i >= p {
        None
    } else {
        find_row(p, i + 1, index)
    }
}

/// The variable with the index `index`.
pub open spec fn variable_of_index(p: int, index: int) -> Option<(int, int)> {
    if index >= row_start(p, p + 1) {
        Some((index - row_start(p, p + 1), index - row_start(p, p + 1)))
    } else {
        find_row(p, 0, index)
    }
}

/// `row_start` in closed form, and its growth.
pub proof fn lemma_row_start(p: int, i: int)
    requires
        0 <= i <= p + 1,
    ensures
        2 * row_start(p, i) == 2 * i * p - i * (i - 1),
        0 <= row_start(p, i) <= i * p,
        i <= p ==> row_start(p, i + 1) == row_start(p, i) + (p - i),
    decreases i,
{
    if i > 0 {
        lemma_row_start(p, i - 1);
        assert(2 * (i - 1) * p - (i - 1) * (i - 2) + 2 * (p - (i - 1)) == 2 * i * p - i * (i - 1))
            by (nonlinear_arith);
        assert((i - 1) * p + (p - (i - 1)) <= i * p) by (nonlinear_arith)
            requires
                i >= 1,
        ;
    } else {
        assert(0 * p == 0);
    }
}

/// The number of pairs above the diagonal is `p (p + 1) / 2`.
pub proof fn lemma_row_start_total(p: int)
    requires
        p >= 0,
    ensures
        row_start(p, p + 1) == p * (p + 1) / 2,
{
    lemma_row_start(p, p + 1);
    assert(2 * (p + 1) * p - (p + 1) * p == p * (p + 1)) by (nonlinear_arith);
}

/// `row_start` does not fall.
pub proof fn lemma_row_start_rises(p: int, i: int, k: int)
    requires
        0 <= i <= k <= p + 1,
    ensures
        row_start(p, i) <= row_start(p, k),
    decreases k - i,
{
    if i < k {
        lemma_row_start(p, i);
        lemma_row_start_rises(p, i + 1, k);
    }
}

/// Every index lies below the number of variables.
pub proof fn lemma_index_in_range(p: int, v: Option<(int, int)>)
    requires
        p >= 0,
        index_spec(p, v) is Some,
    ensures
        0 <= index_spec(p, v)->Some_0 < variable_count(p),
{
    let u = v->Some_0;
    lemma_row_start_total(p);
    lemma_row_start(p, p + 1);
    if u.0 < u.1 {
        lemma_row_start(p, u.0);
        lemma_row_start_rises(p, u.0 + 1, p + 1);
    }
}

/// No two variables share an index: with `variable_from_index`, which
/// reaches every index below the count, the numbering is one to one between
/// the variables `c_i_j`, `0 <= i <= j <= p`, and the indices below
/// `variable_count(p)`.
pub proof fn lemma_index_one_to_one(p: int, v: Option<(int, int)>, w: Option<(int, int)>)
    requires
        p >= 0,
        index_spec(p, v) is Some,
        index_spec(p, v) == index_spec(p, w),
    ensures
        v == w,
{
    let a = v->Some_0;
    let b = w->Some_0;
    lemma_row_start(p, a.0);
    lemma_row_start(p, b.0);
    if a.0 < a.1 {
        lemma_row_start_rises(p, a.0 + 1, p + 1);
    }
    if b.0 < b.1 {
        lemma_row_start_rises(p, b.0 + 1, p + 1);
    }
    if a.0 < a.1 && b.0 < b.1 {
        if a.0 < b.0 {
            lemma_row_start_rises(p, a.0 + 1, b.0);
        } else if b.0 < a.0 {
            lemma_row_start_rises(p, b.0 + 1, a.0);
        }
    }
}

/// The index of a variable leads back to the variable.
pub proof fn lemma_index_round_trip(p: int, v: Option<(int, int)>)
    requires
        p >= 0,
        index_spec(p, v) is Some,
    ensures
        variable_of_index(p, index_spec(p, v)->Some_0) == v,
{
    let k = index_spec(p, v)->Some_0;
    let u = v->Some_0;
    lemma_row_start(p, p + 1);
    if u.0 < u.1 {
        lemma_row_start(p, u.0);
        lemma_row_start_rises(p, u.0 + 1, p + 1);
        lemma_find_row(p, 0, u.0, k);
    }
}

/// The search for the row of `index` from row `i` ends in row `r`, where
/// the index lies.
proof fn lemma_find_row(p: int, i: int, r: int, index: int)
    requires
        0 <= i <= r < p,
        row_start(p, r) <= index < row_start(p, r + 1),
    ensures
        find_row(p, i, index) == Some((r, r + 1 + index - row_start(p, r))),
    decreases r - i,
{
    if i < r {
        lemma_row_start_rises(p, i + 1, r);
        lemma_find_row(p, i + 1, r, index);
    }
}

/// The variable of an index below the count has that index.
pub proof fn lemma_variable_of_index(p: int, index: int)
    requires
        p >= 0,
        0 <= index < variable_count(p),
    ensures
        index_spec(p, variable_of_index(p, index)) == Some(index),
{
    lemma_row_start_total(p);
    lemma_row_start(p, p + 1);
    if index < row_start(p, p + 1) {
        lemma_find_row_index(p, 0, index);
    }
}

/// The pair that the search from row `i` finds has the index sought.
proof fn lemma_find_row_index(p: int, i: int, index: int)
    requires
        0 <= i <= p,
        row_start(p, i) <= index < row_start(p, p + 1),
    ensures
        index_spec(p, find_row(p, i, index)) == Some(index),
    decreases p - i,
{
    lemma_row_start(p, i);
    if index >= row_start(p, i + 1) {
        if i >= p {
            lemma_row_start(p, p + 1);
        } else {
            lemma_find_row_index(p, i + 1, index);
        }
    }
}

impl SubscriptedVariableConverter {
    /// The converter's prime lies in `[2, 2^32)`.
    pub open spec fn wf(&self) -> bool {
        2 <= self.p <= 0xFFFF_FFFF && is_prime(self.p as int)
    }

    /// A converter for the prime `p`; a `p` that is no prime below `2^32` is
    /// rejected.
    pub fn new(p: i64) -> (r: Result<Self, Error>)
        ensures
            match r {
                Ok(c) => c.p == p && c.wf(),
                Err(e) => e == Error::DomainError && !(2 <= p <= 0xFFFF_FFFF && is_prime(p as int)),
            },
    {
        if p < 2 || p > 0xFFFF_FFFF {
            return Err(Error::DomainError);
        }
        if !is_prime_u64(p as u64) {
            return Err(Error::DomainError);
        }
        Ok(SubscriptedVariableConverter { p })
    }

    /// The number of variables.
    pub fn count(&self) -> (r: u64)
        requires
            self.wf(),
        ensures
            r == variable_count(self.p as int),
    {
        let p = self.p as u64;
        proof {
            assert(0 <= p * (p + 1) <= 0xFFFF_FFFF * 0x1_0000_0000) by (nonlinear_arith)
                requires
                    0 <= p <= 0xFFFF_FFFF,
            ;
        }
        p * (p + 1) / 2 + (p + 1)
    }

    /// The index of `variable`, where it has one.
    pub fn index_from_variable(&self, variable: SubscriptedVariable) -> (r: Option<u64>)
        requires
            self.wf(),
        ensures
            match r {
                Some(n) => index_spec(self.p as int, variable@) == Some(n as int),
                None => index_spec(self.p as int, variable@) is None,
            },
    {
        if variable.empty {
            return None;
        }
        let p = self.p;
        let i = variable.i;
        let j = variable.j;
        if 0 <= i && i < j && j <= p {
            let start = self.row_offset(i);
            let d = (j - i - 1) as u64;
            Some(start + d)
        } else if 0 <= i && i == j && j <= p {
            let start = self.row_offset(p + 1);
            Some(start + (i as u64))
        } else {
            None
        }
    }

    /// The number of pairs above the diagonal in the rows before row `i`.
    fn row_offset(&self, i: i64) -> (r: u64)
        requires
            self.wf(),
            0 <= i <= self.p + 1,
        ensures
            r == row_start(self.p as int, i as int),
            r <= 0xFFFF_FFFF * 0x1_0000_0000,
    {
        let p = self.p as u64;
        let mut k: u64 = 0;
        let mut start: u64 = 0;
        let n = i as u64;
        while k < n
            invariant
                0 <= k <= n <= p + 1,
                p == self.p,
                p <= 0xFFFF_FFFF,
                start == row_start(p as int, k as int),
                start <= k * p,
            decreases n - k,
        {
            proof {
                lemma_row_start(p as int, k as int);
                lemma_row_start(p as int, k as int + 1);
                assert(k * p <= 0xFFFF_FFFF * 0xFFFF_FFFF) by (nonlinear_arith)
                    requires
                        k <= 0xFFFF_FFFF,
                        p <= 0xFFFF_FFFF,
                ;
            }
            start = start + (p - k);
            k = k + 1;
        }
        proof {
            assert(k * p <= 0x1_0000_0000 * 0xFFFF_FFFF) by (nonlinear_arith)
                requires
                    k <= 0x1_0000_0000,
                    p <= 0xFFFF_FFFF,
            ;
        }
        start
    }

    /// The variable with the given index.
    pub fn variable_from_index(&self, index: u64) -> (r: SubscriptedVariable)
        requires
            self.wf(),
            index < variable_count(self.p as int),
        ensures
            index_spec(self.p as int, r@) == Some(index as int),
            r@ == variable_of_index(self.p as int, index as int),
            !r.empty,
            0 <= r.i <= r.j <= self.p,
    {
        let p = self.p as u64;
        proof {
            lemma_row_start_total(p as int);
            lemma_row_start(p as int, p as int + 1);
        }
        let total = self.row_offset(self.p + 1);
        if index >= total {
            let i = (index - total) as i64;
            return SubscriptedVariable { i, j: i, empty: false };
        }
        let mut i: u64 = 0;
        let mut start: u64 = 0;
        while index >= start + (p - i)
            invariant
                0 <= i <= p,
                p == self.p,
                p <= 0xFFFF_FFFF,
                start == row_start(p as int, i as int),
                start <= index < total,
                find_row(p as int, i as int, index as int) == find_row(p as int, 0, index as int),
                total == row_start(p as int, p as int + 1),
                total <= 0xFFFF_FFFF * 0x1_0000_0000,
            decreases p - i,
        {
            proof {
                lemma_row_start(p as int, i as int);
                if i == p {
                    assert(false);
                }
                lemma_row_start(p as int, i as int + 1);
            }
            start = start + (p - i);
            i = i + 1;
        }
        let j = i + 1 + (index - start);
        SubscriptedVariable { i: i as i64, j: j as i64, empty: false }
    }
}

} // verus!
