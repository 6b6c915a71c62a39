use crate::algebra::{has_negative_x, has_q, has_variable, has_x, has_y, highest_term};
use crate::integer::{big_add, big_from_i64, big_is_negative, big_is_zero};
use crate::model::{
    canonical, coeff, delta, lemma_coeff_insert, lemma_coeff_remove, lemma_coeff_update,
    lemma_mono_lt_order, mono_lt, MonomialModel, TermModel,
};
use crate::term::{constant_term, term_text, Term};
use vstd::pervasive::VecAdditionalExecFns;
use vstd::prelude::*;
use vstd::string::StringExecFns;

verus! {

/// A polynomial in `x`, `y`, `q` and the subscripted variables: its terms by
/// rising monomial, none with the coefficient zero.
#[derive(Debug)]
pub struct Polynomial {
    terms: Vec<Term>,
}

/// The models of a list of terms.
pub open spec fn terms_view(s: Seq<Term>) -> Seq<TermModel> {
    Seq::new(s.len(), |i: int| s[i]@)
}

impl View for Polynomial {
    type V = Seq<TermModel>;

    /// The terms, by rising monomial.
    closed spec fn view(&self) -> Seq<TermModel> {
        terms_view(self.terms@)
    }
}

/// The terms after the first, each after a blank and, where its coefficient
/// is positive, after `+ `; from the highest down.
pub open spec fn rest_text(s: Seq<TermModel>) -> Seq<char>
    decreases s.len(),
{
    if s.len() == 0 {
        Seq::empty()
    } else {
        seq![' '] + (if s.last().coef > 0 {
            seq!['+', ' ']
        } else {
            Seq::empty()
        }) + term_text(s.last()) + rest_text(s.drop_last())
    }
}

/// How a polynomial is written: the highest term first, `0` for the zero
/// polynomial.
pub open spec fn polynomial_text(s: Seq<TermModel>) -> Seq<char> {
    if s.len() == 0 {
        seq!['0']
    } else {
        term_text(s.last()) + rest_text(s.drop_last())
    }
}

impl Polynomial {
    /// The invariant of the type: the terms are in canonical form.
    pub open spec fn wf(&self) -> bool {
        canonical(self@)
    }

    /// The zero polynomial.
    pub fn new() -> (r: Self)
        ensures
            r.wf(),
            r@ == Seq::<TermModel>::empty(),
    {
        let r = Polynomial { terms: Vec::new() };
        assert(r@ =~= Seq::<TermModel>::empty());
        r
    }

    /// The zero polynomial.
    pub fn zero() -> (r: Self)
        ensures
            r.wf(),
            r@ == Seq::<TermModel>::empty(),
    {
        Polynomial::new()
    }

    /// Whether this is the zero polynomial.
    pub fn is_zero(&self) -> (r: bool)
        ensures
            r == (self@.len() == 0),
    {
        self.terms.len() == 0
    }

    /// The polynomial `1`.
    pub fn one() -> (r: Self)
        ensures
            r.wf(),
            r@ == seq![constant_term(1)],
    {
        let mut terms = Vec::new();
        terms.push(Term::one());
        let r = Polynomial { terms };
        assert(r@ =~= seq![constant_term(1)]);
        r
    }

    /// The number of terms.
    pub fn len(&self) -> (r: usize)
        ensures
            r == self@.len(),
    {
        self.terms.len()
    }

    /// The term at position `i`, counted from the lowest monomial.
    pub fn term(&self, i: usize) -> (r: &Term)
        requires
            i < self@.len(),
        ensures
            r@ == self@[i as int],
    {
        &self.terms[i]
    }

    /// Adds one term: `self += t`.
    pub fn add_term(&mut self, t: Term)
        requires
            old(self).wf(),
        ensures
            final(self).wf(),
            forall|m: MonomialModel| #[trigger]
                coeff(final(self)@, m) == coeff(old(self)@, m) + delta(t@, m),
    {
        if t.is_zero() {
            return ;
        }
        let n = self.terms.len();
        let ghost before = self@;
        let mut lo: usize = 0;
        let mut hi: usize = n;
        while lo < hi
            invariant
                0 <= lo <= hi <= n,
                n == self.terms.len(),
                self@ == before,
                canonical(before),
                forall|j: int| 0 <= j < lo ==> mono_lt((#[trigger] before[j]).mono, t@.mono),
                forall|j: int| hi <= j < n ==> !mono_lt((#[trigger] before[j]).mono, t@.mono),
            decreases hi - lo,
        {
            let mid = lo + (hi - lo) / 2;
            if self.terms[mid].monomial.precedes(&t.monomial) {
                proof {
                    assert forall|j: int| 0 <= j < mid + 1 implies mono_lt(
                        (#[trigger] before[j]).mono,
                        t@.mono,
                    ) by {
                        if j < mid {
                            lemma_mono_lt_order(before[j].mono, before[mid as int].mono, t@.mono);
                        }
                    }
                }
                lo = mid + 1;
            } else {
                proof {
                    assert forall|j: int| mid <= j < n implies !mono_lt(
                        (#[trigger] before[j]).mono,
                        t@.mono,
                    ) by {
                        if j > mid {
                            lemma_mono_lt_order(before[mid as int].mono, before[j].mono, t@.mono);
                        }
                    }
                }
                hi = mid;
            }
        }
        let k = lo;
        if k < n && self.terms[k].monomial == t.monomial {
            let c = big_add(&self.terms[k].coef, &t.coef);
            if big_is_zero(&c) {
                self.terms.remove(k);
                proof {
                    assert(self@ =~= before.remove(k as int));
                    lemma_coeff_remove(before, k as int);
                    assert(canonical(self@)) by {
                        assert forall|i: int, j: int| 0 <= i < j < self@.len() implies mono_lt(
                            #[trigger] self@[i].mono,
                            #[trigger] self@[j].mono,
                        ) by {
                            let i0 = if i < k {
                                i
                            } else {
                                i + 1
                            };
                            let j0 = if j < k {
                                j
                            } else {
                                j + 1
                            };
                            assert(self@[i] == before[i0]);
                            assert(self@[j] == before[j0]);
                        }
                        assert forall|i: int| 0 <= i < self@.len() implies (#[trigger] self@[i]).coef
                            != 0 by {
                            let i0 = if i < k {
                                i
                            } else {
                                i + 1
                            };
                            assert(self@[i] == before[i0]);
                        }
                    }
                }
            } else {
                let u = Term { coef: c, monomial: t.monomial };
                let ghost um = u@;
                self.terms.set(k, u);
                proof {
                    assert(self@ =~= before.update(k as int, um));
                    lemma_coeff_update(before, k as int, um);
                    assert(canonical(self@)) by {
                        assert forall|i: int, j: int| 0 <= i < j < self@.len() implies mono_lt(
                            #[trigger] self@[i].mono,
                            #[trigger] self@[j].mono,
                        ) by {
                            assert(self@[i].mono == before[i].mono);
                            assert(self@[j].mono == before[j].mono);
                        }
                        assert forall|i: int| 0 <= i < self@.len() implies (#[trigger] self@[i]).coef
                            != 0 by {
                            if i != k {
                                assert(self@[i] == before[i]);
                            }
                        }
                    }
                }
            }
        } else {
            let ghost tm = t@;
            self.terms.insert(k, t);
            proof {
                assert(self@ =~= before.insert(k as int, tm));
                lemma_coeff_insert(before, k as int, tm);
                assert(canonical(self@)) by {
                    assert forall|i: int, j: int| 0 <= i < j < self@.len() implies mono_lt(
                        #[trigger] self@[i].mono,
                        #[trigger] self@[j].mono,
                    ) by {
                        let i0 = if i < k {
                            i
                        } else {
                            i - 1
                        };
                        let j0 = if j < k {
                            j
                        } else {
                            j - 1
                        };
                        if i != k {
                            assert(self@[i] == before[i0]);
                        }
                        if j != k {
                            assert(self@[j] == before[j0]);
                        }
                        if k < n {
                            lemma_mono_lt_order(before[k as int].mono, tm.mono, tm.mono);
                            if j > k + 1 {
                                lemma_mono_lt_order(tm.mono, before[k as int].mono, before[j0].mono);
                            }
                        }
                    }
                    assert forall|i: int| 0 <= i < self@.len() implies (#[trigger] self@[i]).coef
                        != 0 by {
                        let i0 = if i < k {
                            i
                        } else {
                            i - 1
                        };
                        if i != k {
                            assert(self@[i] == before[i0]);
                        }
                    }
                }
            }
        }
    }

    /// The term with the largest monomial; the zero term for the zero
    /// polynomial.
    pub fn highest_term_x(&self) -> (r: Term)
        ensures
            r@ == highest_term(self@),
    {
        if self.terms.len() == 0 {
            return Term::new();
        }
        self.terms[self.terms.len() - 1].clone()
    }

    /// Whether some term has `x`.
    pub fn has_x(&self) -> (r: bool)
        ensures
            r == has_x(self@),
    {
        let mut i: usize = 0;
        while i < self.terms.len()
            invariant
                0 <= i <= self.terms.len(),
                forall|k: int| 0 <= k < i ==> (#[trigger] self@[k]).mono.x == 0,
            decreases self.terms.len() - i,
        {
            if self.terms[i].has_x() {
                assert(self@[i as int].mono.x != 0);
                return true;
            }
            i = i + 1;
        }
        false
    }

    /// Whether some term has `y`.
    pub fn has_y(&self) -> (r: bool)
        ensures
            r == has_y(self@),
    {
        let mut i: usize = 0;
        while i < self.terms.len()
            invariant
                0 <= i <= self.terms.len(),
                forall|k: int| 0 <= k < i ==> (#[trigger] self@[k]).mono.y == 0,
            decreases self.terms.len() - i,
        {
            if self.terms[i].has_y() {
                assert(self@[i as int].mono.y != 0);
                return true;
            }
            i = i + 1;
        }
        false
    }

    /// Whether some term has `q`.
    pub fn has_q(&self) -> (r: bool)
        ensures
            r == has_q(self@),
    {
        let mut i: usize = 0;
        while i < self.terms.len()
            invariant
                0 <= i <= self.terms.len(),
                forall|k: int| 0 <= k < i ==> (#[trigger] self@[k]).mono.q == 0,
            decreases self.terms.len() - i,
        {
            if self.terms[i].has_q() {
                assert(self@[i as int].mono.q != 0);
                return true;
            }
            i = i + 1;
        }
        false
    }

    /// Whether some term carries a subscripted variable.
    pub fn has_variable(&self) -> (r: bool)
        ensures
            r == has_variable(self@),
    {
        let mut i: usize = 0;
        while i < self.terms.len()
            invariant
                0 <= i <= self.terms.len(),
                forall|k: int| 0 <= k < i ==> (#[trigger] self@[k]).mono.var is None,
            decreases self.terms.len() - i,
        {
            if !self.terms[i].monomial.variable.empty {
                assert(self@[i as int].mono.var is Some);
                return true;
            }
            i = i + 1;
        }
        false
    }

    /// Whether some term has a negative exponent of `x`.
    pub fn has_negative_x(&self) -> (r: bool)
        ensures
            r == has_negative_x(self@),
    {
        let mut i: usize = 0;
        while i < self.terms.len()
            invariant
                0 <= i <= self.terms.len(),
                forall|k: int| 0 <= k < i ==> (#[trigger] self@[k]).mono.x >= 0,
            decreases self.terms.len() - i,
        {
            if big_is_negative(&self.terms[i].monomial.xpow) {
                assert(self@[i as int].mono.x < 0);
                return true;
            }
            i = i + 1;
        }
        false
    }

    /// The polynomial as text.
    pub fn to_string(&self) -> (r: String)
        ensures
            r@ == polynomial_text(self@),
    {
        let n = self.terms.len();
        let mut st = String::new();
        proof {
            reveal_strlit("0");
            reveal_strlit(" ");
            reveal_strlit("+ ");
        }
        if n == 0 {
            st.append("0");
            assert(st@ =~= seq!['0']);
            return st;
        }
        let first = self.terms[n - 1].to_string();
        st.append(first.as_str());
        let mut i = n - 1;
        assert(self@.drop_last() =~= self@.take(i as int));
        while i > 0
            invariant
                0 <= i < n,
                n == self.terms.len(),
                st@ + rest_text(self@.take(i as int)) == polynomial_text(self@),
            decreases i,
        {
            let ghost st0 = st@;
            let ghost rest = self@.take(i as int);
            assert(rest.last() == self@[i - 1]);
            assert(rest.drop_last() =~= self@.take(i - 1));
            i = i - 1;
            proof {
                reveal_strlit(" ");
                reveal_strlit("+ ");
            }
            st.append(" ");
            let zero = big_from_i64(0);
            let positive = crate::integer::big_lt(&zero, &self.terms[i].coef);
            if positive {
                st.append("+ ");
            }
            let ghost sign = if positive {
                seq!['+', ' ']
            } else {
                Seq::<char>::empty()
            };
            assert(st@ =~= st0 + seq![' '] + sign);
            let s = self.terms[i].to_string();
            st.append(s.as_str());
            assert(rest_text(rest) == seq![' '] + sign + term_text(self@[i as int]) + rest_text(
                self@.take(i as int),
            ));
            assert(st@ + rest_text(self@.take(i as int)) =~= st0 + rest_text(rest));
        }
        assert(rest_text(self@.take(0)) =~= Seq::<char>::empty());
        assert(st@ + Seq::<char>::empty() =~= st@);
        st
    }
}

impl Clone for Polynomial {
    fn clone(&self) -> (r: Self)
        ensures
            r@ == self@,
    {
        let mut terms: Vec<Term> = Vec::new();
        let mut i: usize = 0;
        while i < self.terms.len()
            invariant
                0 <= i <= self.terms.len(),
                terms@.len() == i,
                forall|k: int| 0 <= k < i ==> (#[trigger] terms@[k])@ == self.terms@[k]@,
            decreases self.terms.len() - i,
        {
            terms.push(self.terms[i].clone());
            i = i + 1;
        }
        let r = Polynomial { terms };
        assert(r@ =~= self@);
        r
    }
}

} // verus!
