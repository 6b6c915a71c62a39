use crate::bigint::{power_spec, Power, PowerModulo};
use crate::error::Error;
use crate::integer::{
    big_add, big_div_floor, big_eq, big_from_i64, big_is_negative, big_is_one, big_is_zero, big_le,
    big_lt, big_mod_floor, big_mul, big_neg, big_sub, big_to_string, decimal_text, floor_div,
    int_of,
};
use crate::model::{mono_lt, MonomialModel, TermModel};
use crate::subscripted_variable::{variable_text, SubscriptedVariable};
use num_bigint::BigInt;
use std::cmp::Ordering;
use vstd::arithmetic::power::pow;
use vstd::prelude::*;
use vstd::std_specs::cmp::{PartialEqSpecImpl, PartialOrdSpecImpl};
use vstd::string::StringExecFns;

verus! {

/// `coef * monomial`.
#[derive(Debug)]
pub struct Term {
    pub coef: BigInt,
    pub monomial: Monomial,
}

/// `x^xpow * y^ypow * q^qpow * c_i_j`.
#[derive(Debug)]
pub struct Monomial {
    pub xpow: BigInt,
    pub ypow: BigInt,
    pub qpow: BigInt,
    pub variable: SubscriptedVariable,
}

impl View for Monomial {
    type V = MonomialModel;

    open spec fn view(&self) -> MonomialModel {
        MonomialModel {
            x: int_of(self.xpow),
            y: int_of(self.ypow),
            q: int_of(self.qpow),
            var: self.variable@,
        }
    }
}

impl View for Term {
    type V = TermModel;

    open spec fn view(&self) -> TermModel {
        TermModel { coef: int_of(self.coef), mono: self.monomial@ }
    }
}

/// The monomial `1`.
pub open spec fn unit_monomial() -> MonomialModel {
    MonomialModel { x: 0, y: 0, q: 0, var: None }
}

/// The constant term `c`.
pub open spec fn constant_term(c: int) -> TermModel {
    TermModel { coef: c, mono: unit_monomial() }
}

/// The product of two monomials, of which at most one carries a variable.
pub open spec fn mono_mul(a: MonomialModel, b: MonomialModel) -> MonomialModel {
    MonomialModel {
        x: a.x + b.x,
        y: a.y + b.y,
        q: a.q + b.q,
        var: if a.var is Some {
            a.var
        } else {
            b.var
        },
    }
}

/// The product of two terms, of which at most one carries a variable.
pub open spec fn term_mul(a: TermModel, b: TermModel) -> TermModel {
    TermModel { coef: a.coef * b.coef, mono: mono_mul(a.mono, b.mono) }
}

/// What `Term::mul` returns.
pub open spec fn term_mul_spec(a: TermModel, b: TermModel) -> Result<TermModel, Error> {
    if a.mono.var is Some && b.mono.var is Some {
        Err(Error::VariableProduct)
    } else {
        Ok(term_mul(a, b))
    }
}

/// The quotient of a term by a term without a variable: the coefficients
/// divided with rounding down, the exponents subtracted.
pub open spec fn term_div(a: TermModel, b: TermModel) -> TermModel {
    TermModel {
        coef: floor_div(a.coef, b.coef),
        mono: MonomialModel {
            x: a.mono.x - b.mono.x,
            y: a.mono.y - b.mono.y,
            q: a.mono.q - b.mono.q,
            var: a.mono.var,
        },
    }
}

/// What `Term::div` returns.
pub open spec fn term_div_spec(a: TermModel, b: TermModel) -> Result<TermModel, Error> {
    if b.mono.var is Some || b.coef == 0 {
        Err(Error::DomainError)
    } else {
        Ok(term_div(a, b))
    }
}

/// The negative of a term.
pub open spec fn term_neg(a: TermModel) -> TermModel {
    TermModel { coef: -a.coef, mono: a.mono }
}

/// The exponents of `x`, `y` and `q` times `n`.
pub open spec fn mono_scale(m: MonomialModel, n: int) -> MonomialModel {
    MonomialModel { x: m.x * n, y: m.y * n, q: m.q * n, var: m.var }
}

/// What `Term::power` returns.
pub open spec fn term_power_spec(a: TermModel, n: int) -> Result<TermModel, Error> {
    if a.mono.var is Some {
        Err(Error::UnreducedPower)
    } else if n < 0 {
        Err(Error::DomainError)
    } else {
        Ok(TermModel { coef: pow(a.coef, n as nat), mono: mono_scale(a.mono, n) })
    }
}

/// What `Term::power_modulo` returns.
pub open spec fn term_power_modulo_spec(a: TermModel, n: int, p: int) -> Result<TermModel, Error> {
    if p <= 1 || n < 0 {
        Err(Error::DomainError)
    } else {
        Ok(TermModel { coef: pow(a.coef, n as nat) % p, mono: mono_scale(a.mono, n) })
    }
}

/// The Frobenius substitution `x -> x^n`, `y -> y^n`.
pub open spec fn term_frob(a: TermModel, n: int) -> TermModel {
    TermModel {
        coef: a.coef,
        mono: MonomialModel { x: a.mono.x * n, y: a.mono.y * n, q: a.mono.q, var: a.mono.var },
    }
}

/// The substitution `y -> y^n`.
pub open spec fn term_y_power(a: TermModel, n: int) -> TermModel {
    TermModel {
        coef: a.coef,
        mono: MonomialModel { x: a.mono.x, y: a.mono.y * n, q: a.mono.q, var: a.mono.var },
    }
}

/// The substitution `q -> q^n`.
pub open spec fn term_q_power(a: TermModel, n: int) -> TermModel {
    TermModel {
        coef: a.coef,
        mono: MonomialModel { x: a.mono.x, y: a.mono.y, q: a.mono.q * n, var: a.mono.var },
    }
}

/// The coefficient reduced into `[0, p)`.
pub open spec fn term_mod(a: TermModel, p: int) -> TermModel {
    TermModel { coef: a.coef % p, mono: a.mono }
}

/// The formal derivative with respect to `x`.
pub open spec fn term_derivative_x(a: TermModel) -> TermModel {
    if a.mono.x > 0 {
        TermModel {
            coef: a.coef * a.mono.x,
            mono: MonomialModel { x: a.mono.x - 1, y: a.mono.y, q: a.mono.q, var: a.mono.var },
        }
    } else {
        constant_term(0)
    }
}

/// The formal derivative with respect to `y`.
pub open spec fn term_derivative_y(a: TermModel) -> TermModel {
    if a.mono.y > 0 {
        TermModel {
            coef: a.coef * a.mono.y,
            mono: MonomialModel { x: a.mono.x, y: a.mono.y - 1, q: a.mono.q, var: a.mono.var },
        }
    } else {
        constant_term(0)
    }
}

/// What `Monomial::eval_xy` returns: `x^x_exp * y^y_exp`.
pub open spec fn mono_eval_xy_spec(m: MonomialModel, x: int, y: int) -> Result<int, Error> {
    if m.x < 0 || m.y < 0 {
        Err(Error::DomainError)
    } else {
        Ok(pow(x, m.x as nat) * pow(y, m.y as nat))
    }
}

/// What `Term::eval_xy` returns: `x^x_exp * y^y_exp * coefficient`.
pub open spec fn term_eval_xy_spec(t: TermModel, x: int, y: int) -> Result<int, Error> {
    if t.mono.x < 0 || t.mono.y < 0 {
        Err(Error::DomainError)
    } else {
        Ok(pow(x, t.mono.x as nat) * pow(y, t.mono.y as nat) * t.coef)
    }
}

/// Whether a result of the library holds what its model says.
pub open spec fn term_result_is(r: Result<Term, Error>, s: Result<TermModel, Error>) -> bool {
    match r {
        Ok(v) => s == Ok::<TermModel, Error>(v@),
        Err(e) => s == Err::<TermModel, Error>(e),
    }
}

/// Two texts with a blank between them, where neither is empty.
pub open spec fn join_text(a: Seq<char>, b: Seq<char>) -> Seq<char> {
    if a.len() == 0 {
        b
    } else if b.len() == 0 {
        a
    } else {
        a + seq![' '] + b
    }
}

/// How a power of an indeterminate is written: nothing for the exponent 0,
/// the bare name for 1, else the name, `^` and the exponent.
pub open spec fn factor_text(name: char, e: int) -> Seq<char> {
    if e == 0 {
        Seq::empty()
    } else if e == 1 {
        seq![name]
    } else {
        seq![name, '^'] + decimal_text(e)
    }
}

/// How a monomial is written.
pub open spec fn monomial_text(m: MonomialModel) -> Seq<char> {
    join_text(
        join_text(join_text(factor_text('x', m.x), factor_text('y', m.y)), factor_text('q', m.q)),
        variable_text(m.var),
    )
}

/// How a coefficient is written in front of a monomial: its size, after
/// `- ` where it is negative.
pub open spec fn coef_text(c: int) -> Seq<char> {
    if c >= 0 {
        decimal_text(c)
    } else {
        seq!['-', ' '] + decimal_text(-c)
    }
}

/// How a term is written: a coefficient 1 or -1 in front of a monomial is
/// left out but for its sign.
pub open spec fn term_text(t: TermModel) -> Seq<char> {
    let m = monomial_text(t.mono);
    if t.coef == 1 {
        if m.len() == 0 {
            seq!['1']
        } else {
            m
        }
    } else if t.coef == -1 {
        if m.len() == 0 {
            seq!['-', ' ', '1']
        } else {
            seq!['-', ' '] + m
        }
    } else {
        join_text(coef_text(t.coef), m)
    }
}

/// Appends `part` to `st`, after a blank where neither is empty.
fn push_part(st: &mut String, part: &str)
    ensures
        final(st)@ == join_text(old(st)@, part@),
{
    if part.is_empty() {
        return ;
    }
    if !st.as_str().is_empty() {
        proof {
            reveal_strlit(" ");
        }
        st.append(" ");
        assert(st@ =~= old(st)@ + seq![' ']);
    }
    st.append(part);
    assert(st@ =~= join_text(old(st)@, part@));
}

/// A power of an indeterminate as text.
fn factor_string(name: char, e: &BigInt) -> (r: String)
    requires
        name == 'x' || name == 'y' || name == 'q',
    ensures
        r@ == factor_text(name, int_of(*e)),
{
    let mut st = String::new();
    if big_is_zero(e) {
        return st;
    }
    proof {
        reveal_strlit("x");
        reveal_strlit("y");
        reveal_strlit("q");
        reveal_strlit("^");
    }
    if name == 'x' {
        st.append("x");
    } else if name == 'y' {
        st.append("y");
    } else {
        st.append("q");
    }
    assert(st@ =~= seq![name]);
    if !big_is_one(e) {
        st.append("^");
        let d = big_to_string(e);
        st.append(d.as_str());
        assert(st@ =~= seq![name, '^'] + decimal_text(int_of(*e)));
    }
    st
}

impl Clone for Monomial {
    fn clone(&self) -> (r: Self)
        ensures
            r@ == self@,
    {
        Monomial {
            xpow: self.xpow.clone(),
            ypow: self.ypow.clone(),
            qpow: self.qpow.clone(),
            variable: self.variable,
        }
    }
}

impl Clone for Term {
    fn clone(&self) -> (r: Self)
        ensures
            r@ == self@,
    {
        Term { coef: self.coef.clone(), monomial: self.monomial.clone() }
    }
}

impl Default for Monomial {
    fn default() -> (r: Self)
        ensures
            r@ == unit_monomial(),
    {
        Monomial {
            xpow: big_from_i64(0),
            ypow: big_from_i64(0),
            qpow: big_from_i64(0),
            variable: SubscriptedVariable::new(),
        }
    }
}

impl Default for Term {
    fn default() -> (r: Self)
        ensures
            r@ == constant_term(0),
    {
        Term { coef: big_from_i64(0), monomial: Monomial::default() }
    }
}

impl PartialEq for Monomial {
    fn eq(&self, other: &Self) -> (r: bool) {
        big_eq(&self.xpow, &other.xpow) && big_eq(&self.ypow, &other.ypow) && big_eq(
            &self.qpow,
            &other.qpow,
        ) && self.variable == other.variable
    }
}

impl PartialEqSpecImpl for Monomial {
    open spec fn obeys_eq_spec() -> bool {
        true
    }

    open spec fn eq_spec(&self, other: &Self) -> bool {
        self@ == other@
    }
}

impl Eq for Monomial {

}

impl PartialOrd for Monomial {
    /// The order of monomials: lexicographic on `(x, y, q, variable)`.
    fn partial_cmp(&self, other: &Self) -> (r: Option<Ordering>) {
        if self.precedes(other) {
            Some(Ordering::Less)
        } else if other.precedes(self) {
            Some(Ordering::Greater)
        } else {
            Some(Ordering::Equal)
        }
    }
}

impl PartialOrdSpecImpl for Monomial {
    open spec fn obeys_partial_cmp_spec() -> bool {
        true
    }

    open spec fn partial_cmp_spec(&self, other: &Self) -> Option<Ordering> {
        if mono_lt(self@, other@) {
            Some(Ordering::Less)
        } else if mono_lt(other@, self@) {
            Some(Ordering::Greater)
        } else {
            Some(Ordering::Equal)
        }
    }
}

impl PartialEq for Term {
    fn eq(&self, other: &Self) -> (r: bool) {
        big_eq(&self.coef, &other.coef) && self.monomial == other.monomial
    }
}

impl PartialEqSpecImpl for Term {
    open spec fn obeys_eq_spec() -> bool {
        true
    }

    open spec fn eq_spec(&self, other: &Self) -> bool {
        self@ == other@
    }
}

impl Eq for Term {

}

impl Monomial {
    /// Whether `self` comes before `other` in the order of monomials.
    pub fn precedes(&self, other: &Self) -> (r: bool)
        ensures
            r == mono_lt(self@, other@),
    {
        if big_lt(&self.xpow, &other.xpow) {
            return true;
        } else if big_lt(&other.xpow, &self.xpow) {
            return false;
        }
        if big_lt(&self.ypow, &other.ypow) {
            return true;
        } else if big_lt(&other.ypow, &self.ypow) {
            return false;
        }
        if big_lt(&self.qpow, &other.qpow) {
            return true;
        } else if big_lt(&other.qpow, &self.qpow) {
            return false;
        }
        self.variable.precedes(&other.variable)
    }

    /// `x^xpow * y^ypow` at the given `x` and `y`; the factors in `q` and in
    /// the variable are left out.
    pub fn eval_xy(&self, x: &BigInt, y: &BigInt) -> (r: Result<BigInt, Error>)
        ensures
            crate::bigint::big_result_is(r, mono_eval_xy_spec(self@, int_of(*x), int_of(*y))),
    {
        if big_is_negative(&self.xpow) || big_is_negative(&self.ypow) {
            return Err(Error::DomainError);
        }
        match x.power(&self.xpow) {
            Err(e) => Err(e),
            Ok(xp) => match y.power(&self.ypow) {
                Err(e) => Err(e),
                Ok(yp) => Ok(big_mul(&xp, &yp)),
            },
        }
    }

    /// `q^qpow` at the given `q`.
    pub fn eval_q(&self, q: &BigInt) -> (r: Result<BigInt, Error>)
        ensures
            crate::bigint::big_result_is(r, power_spec(int_of(*q), self@.q)),
    {
        q.power(&self.qpow)
    }

    /// The monomial as text.
    pub fn to_string(&self) -> (r: String)
        ensures
            r@ == monomial_text(self@),
    {
        let mut st = factor_string('x', &self.xpow);
        let fy = factor_string('y', &self.ypow);
        push_part(&mut st, fy.as_str());
        let fq = factor_string('q', &self.qpow);
        push_part(&mut st, fq.as_str());
        let fv = self.variable.to_string();
        push_part(&mut st, fv.as_str());
        st
    }
}

impl Term {
    /// The term `coef * monomial`.
    pub fn from(monomial: &Monomial, coef: &BigInt) -> (r: Self)
        ensures
            r@ == (TermModel { coef: int_of(*coef), mono: monomial@ }),
    {
        Term { coef: coef.clone(), monomial: monomial.clone() }
    }

    /// The exponent of `x`.
    pub fn xpow(&self) -> (r: &BigInt)
        ensures
            *r == self.monomial.xpow,
    {
        &self.monomial.xpow
    }

    /// The exponent of `y`.
    pub fn ypow(&self) -> (r: &BigInt)
        ensures
            *r == self.monomial.ypow,
    {
        &self.monomial.ypow
    }

    /// The exponent of `q`.
    pub fn qpow(&self) -> (r: &BigInt)
        ensures
            *r == self.monomial.qpow,
    {
        &self.monomial.qpow
    }

    /// The subscripted variable.
    pub fn variable(&self) -> (r: SubscriptedVariable)
        ensures
            r == self.monomial.variable,
    {
        self.monomial.variable
    }

    /// The zero term.
    pub fn new() -> (r: Term)
        ensures
            r@ == constant_term(0),
    {
        Term::default()
    }

    /// The term `1`.
    pub fn one() -> (r: Term)
        ensures
            r@ == constant_term(1),
    {
        Term { coef: big_from_i64(1), monomial: Monomial::default() }
    }

    /// Whether the coefficient is zero.
    pub fn is_zero(&self) -> (r: bool)
        ensures
            r == (self@.coef == 0),
    {
        big_is_zero(&self.coef)
    }

    /// Whether the exponents of `x`, `y` and `q` are those of `other`.
    pub fn is_equal_order(&self, other: &Self) -> (r: bool)
        ensures
            r == (self@.mono.x == other@.mono.x && self@.mono.y == other@.mono.y && self@.mono.q
                == other@.mono.q),
    {
        big_eq(&self.monomial.xpow, &other.monomial.xpow) && big_eq(
            &self.monomial.ypow,
            &other.monomial.ypow,
        ) && big_eq(&self.monomial.qpow, &other.monomial.qpow)
    }

    /// `self * other`: the coefficients multiplied, the exponents added.
    pub fn mul(&self, other: &Term) -> (r: Result<Term, Error>)
        ensures
            term_result_is(r, term_mul_spec(self@, other@)),
    {
        if !self.monomial.variable.empty && !other.monomial.variable.empty {
            return Err(Error::VariableProduct);
        }
        Ok(
            Term {
                coef: big_mul(&self.coef, &other.coef),
                monomial: Monomial {
                    xpow: big_add(&self.monomial.xpow, &other.monomial.xpow),
                    ypow: big_add(&self.monomial.ypow, &other.monomial.ypow),
                    qpow: big_add(&self.monomial.qpow, &other.monomial.qpow),
                    variable: if !self.monomial.variable.empty {
                        self.monomial.variable
                    } else {
                        other.monomial.variable
                    },
                },
            },
        )
    }

    /// `self / other`: the coefficients divided with rounding down, the
    /// exponents subtracted. The divisor is non-zero and carries no variable.
    pub fn div(&self, other: &Term) -> (r: Result<Term, Error>)
        ensures
            term_result_is(r, term_div_spec(self@, other@)),
    {
        if !other.monomial.variable.empty || big_is_zero(&other.coef) {
            return Err(Error::DomainError);
        }
        Ok(
            Term {
                coef: big_div_floor(&self.coef, &other.coef),
                monomial: Monomial {
                    xpow: big_sub(&self.monomial.xpow, &other.monomial.xpow),
                    ypow: big_sub(&self.monomial.ypow, &other.monomial.ypow),
                    qpow: big_sub(&self.monomial.qpow, &other.monomial.qpow),
                    variable: self.monomial.variable,
                },
            },
        )
    }

    /// `-self`.
    pub fn neg(&self) -> (r: Term)
        ensures
            r@ == term_neg(self@),
    {
        Term { coef: big_neg(&self.coef), monomial: self.monomial.clone() }
    }

    /// `self^n (mod p)`: the coefficient by modular exponentiation, the
    /// exponents times `n`.
    pub fn power_modulo(&self, n: &BigInt, p: &BigInt) -> (r: Result<Term, Error>)
        ensures
            term_result_is(r, term_power_modulo_spec(self@, int_of(*n), int_of(*p))),
    {
        match self.coef.power_modulo(n, p) {
            Err(e) => Err(e),
            Ok(c) => Ok(
                Term {
                    coef: c,
                    monomial: Monomial {
                        xpow: big_mul(&self.monomial.xpow, n),
                        ypow: big_mul(&self.monomial.ypow, n),
                        qpow: big_mul(&self.monomial.qpow, n),
                        variable: self.monomial.variable,
                    },
                },
            ),
        }
    }

    /// The Frobenius map of a term: `x -> x^n`, `y -> y^n`.
    pub fn to_frob(&self, n: &BigInt) -> (r: Term)
        ensures
            r@ == term_frob(self@, int_of(*n)),
    {
        Term {
            coef: self.coef.clone(),
            monomial: Monomial {
                xpow: big_mul(&self.monomial.xpow, n),
                ypow: big_mul(&self.monomial.ypow, n),
                qpow: self.monomial.qpow.clone(),
                variable: self.monomial.variable,
            },
        }
    }

    /// `y -> y^n`.
    pub fn to_y_power(&self, n: &BigInt) -> (r: Term)
        ensures
            r@ == term_y_power(self@, int_of(*n)),
    {
        Term {
            coef: self.coef.clone(),
            monomial: Monomial {
                xpow: self.monomial.xpow.clone(),
                ypow: big_mul(&self.monomial.ypow, n),
                qpow: self.monomial.qpow.clone(),
                variable: self.monomial.variable,
            },
        }
    }

    /// `q -> q^n`.
    pub fn to_q_power(&self, n: i64) -> (r: Term)
        ensures
            r@ == term_q_power(self@, n as int),
    {
        let e = big_from_i64(n);
        Term {
            coef: self.coef.clone(),
            monomial: Monomial {
                xpow: self.monomial.xpow.clone(),
                ypow: self.monomial.ypow.clone(),
                qpow: big_mul(&self.monomial.qpow, &e),
                variable: self.monomial.variable,
            },
        }
    }

    /// `self (mod n)`: the coefficient reduced into `[0, n)`.
    pub fn modulo(&self, n: &BigInt) -> (r: Result<Term, Error>)
        ensures
            match r {
                Ok(t) => int_of(*n) >= 2 && t@ == term_mod(self@, int_of(*n)),
                Err(e) => int_of(*n) <= 1 && e == Error::DomainError,
            },
    {
        let one = big_from_i64(1);
        if big_le(n, &one) {
            return Err(Error::DomainError);
        }
        Ok(Term { coef: big_mod_floor(&self.coef, n), monomial: self.monomial.clone() })
    }

    /// `self = self (mod n)`. On a modulus below two `self` stays as it is.
    pub fn modular_assign(&mut self, n: &BigInt) -> (r: Result<(), Error>)
        ensures
            match r {
                Ok(_) => int_of(*n) >= 2 && final(self)@ == term_mod(old(self)@, int_of(*n)),
                Err(e) => int_of(*n) <= 1 && e == Error::DomainError && *final(self) == *old(self),
            },
    {
        let one = big_from_i64(1);
        if big_le(n, &one) {
            return Err(Error::DomainError);
        }
        self.coef = big_mod_floor(&self.coef, n);
        Ok(())
    }

    /// Whether the term has `x`.
    pub fn has_x(&self) -> (r: bool)
        ensures
            r == (self@.mono.x != 0),
    {
        !big_is_zero(&self.monomial.xpow)
    }

    /// Whether the term has `y`.
    pub fn has_y(&self) -> (r: bool)
        ensures
            r == (self@.mono.y != 0),
    {
        !big_is_zero(&self.monomial.ypow)
    }

    /// Whether the term has `q`.
    pub fn has_q(&self) -> (r: bool)
        ensures
            r == (self@.mono.q != 0),
    {
        !big_is_zero(&self.monomial.qpow)
    }

    /// The formal derivative with respect to `x`; a negative exponent of `x`
    /// is rejected.
    pub fn derivative_x(&self) -> (r: Result<Term, Error>)
        ensures
            match r {
                Ok(t) => self@.mono.x >= 0 && t@ == term_derivative_x(self@),
                Err(e) => self@.mono.x < 0 && e == Error::DomainError,
            },
    {
        if big_is_negative(&self.monomial.xpow) {
            return Err(Error::DomainError);
        }
        if big_is_zero(&self.monomial.xpow) {
            return Ok(Term::new());
        }
        let one = big_from_i64(1);
        Ok(
            Term {
                coef: big_mul(&self.coef, &self.monomial.xpow),
                monomial: Monomial {
                    xpow: big_sub(&self.monomial.xpow, &one),
                    ypow: self.monomial.ypow.clone(),
                    qpow: self.monomial.qpow.clone(),
                    variable: self.monomial.variable,
                },
            },
        )
    }

    /// The formal derivative with respect to `y`; a negative exponent of `y`
    /// is rejected.
    pub fn derivative_y(&self) -> (r: Result<Term, Error>)
        ensures
            match r {
                Ok(t) => self@.mono.y >= 0 && t@ == term_derivative_y(self@),
                Err(e) => self@.mono.y < 0 && e == Error::DomainError,
            },
    {
        if big_is_negative(&self.monomial.ypow) {
            return Err(Error::DomainError);
        }
        if big_is_zero(&self.monomial.ypow) {
            return Ok(Term::new());
        }
        let one = big_from_i64(1);
        Ok(
            Term {
                coef: big_mul(&self.coef, &self.monomial.ypow),
                monomial: Monomial {
                    xpow: self.monomial.xpow.clone(),
                    ypow: big_sub(&self.monomial.ypow, &one),
                    qpow: self.monomial.qpow.clone(),
                    variable: self.monomial.variable,
                },
            },
        )
    }

    /// `x^x_exp * y^y_exp * coefficient` at the given `x` and `y`.
    pub fn eval_xy(&self, x: &BigInt, y: &BigInt) -> (r: Result<BigInt, Error>)
        ensures
            crate::bigint::big_result_is(r, term_eval_xy_spec(self@, int_of(*x), int_of(*y))),
    {
        match self.monomial.eval_xy(x, y) {
            Err(e) => Err(e),
            Ok(v) => Ok(big_mul(&v, &self.coef)),
        }
    }

    /// The term as text.
    pub fn to_string(&self) -> (r: String)
        ensures
            r@ == term_text(self@),
    {
        let m = self.monomial.to_string();
        let minus_one = big_from_i64(-1);
        proof {
            reveal_strlit("1");
            reveal_strlit("- 1");
            reveal_strlit("- ");
        }
        if big_is_one(&self.coef) {
            if m.as_str().is_empty() {
                let mut st = String::new();
                st.append("1");
                assert(st@ =~= seq!['1']);
                st
            } else {
                m
            }
        } else if big_eq(&self.coef, &minus_one) {
            let mut st = String::new();
            if m.as_str().is_empty() {
                st.append("- 1");
                assert(st@ =~= seq!['-', ' ', '1']);
            } else {
                st.append("- ");
                st.append(m.as_str());
                assert(st@ =~= seq!['-', ' '] + m@);
            }
            st
        } else {
            let mut st = String::new();
            if big_is_negative(&self.coef) {
                st.append("- ");
                let a = big_neg(&self.coef);
                let d = big_to_string(&a);
                st.append(d.as_str());
                assert(st@ =~= coef_text(self@.coef));
            } else {
                let d = big_to_string(&self.coef);
                st.append(d.as_str());
                assert(st@ =~= coef_text(self@.coef));
            }
            push_part(&mut st, m.as_str());
            st
        }
    }
}

impl<'a> Power<&'a BigInt> for Term {
    /// `self^n`: the coefficient to the power `n`, the exponents times `n`.
    fn power(&self, n: &'a BigInt) -> (r: Result<Term, Error>)
        ensures
            term_result_is(r, term_power_spec(self@, int_of(*n))),
    {
        if !self.monomial.variable.empty {
            return Err(Error::UnreducedPower);
        }
        match self.coef.power(n) {
            Err(e) => Err(e),
            Ok(c) => Ok(
                Term {
                    coef: c,
                    monomial: Monomial {
                        xpow: big_mul(&self.monomial.xpow, n),
                        ypow: big_mul(&self.monomial.ypow, n),
                        qpow: big_mul(&self.monomial.qpow, n),
                        variable: self.monomial.variable,
                    },
                },
            ),
        }
    }
}

impl Power<BigInt> for Term {
    fn power(&self, n: BigInt) -> (r: Result<Term, Error>)
        ensures
            term_result_is(r, term_power_spec(self@, int_of(n))),
    {
        self.power(&n)
    }
}

impl Power<i64> for Term {
    fn power(&self, n: i64) -> (r: Result<Term, Error>)
        ensures
            term_result_is(r, term_power_spec(self@, n as int)),
    {
        let e = big_from_i64(n);
        self.power(&e)
    }
}

} // verus!
