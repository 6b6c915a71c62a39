use crate::algebra::{
    poly_add, poly_eval_x_polynomial, poly_eval_y_polynomial, poly_of_term, poly_omit_high_order_q,
    poly_q_power, poly_q_power_coef, poly_variable_coef,
};
use crate::algebra::{
    has_q, has_x, has_y, low_q_terms, mono_eval_x_polynomial, mono_eval_y_polynomial, poly_mul,
    poly_power, q_coef_terms, q_power_terms, term_eval_x_polynomial, term_eval_y_polynomial,
};
use crate::arith::poly_result_is;
use crate::error::Error;
use crate::integer::{big_from_i64, big_neg, int_of, is_prime, is_prime_u64};
use crate::j_invariant::{j_invariant, j_invariant_spec};
use crate::j_invariant::lemma_j_invariant_defined;
use crate::lifted::xy_term;
use crate::model::{MonomialModel, TermModel};
use crate::model::normalize;
use crate::polynomial::Polynomial;
use crate::simultaneous_equation::{matrix_view, rectangular, row_view, solve, solve_spec};
use crate::subscripted_variable::{
    variable_count, variable_of_index, SubscriptedVariable, SubscriptedVariableConverter,
};
use crate::support::{
    all_monomials, lemma_add_all, lemma_mul_all, lemma_normalize_all, lemma_normalize_q_series,
    lemma_power_q_series, lemma_q_series, lemma_q_series_all, lemma_term_variable, multiplicative,
    q_series,
};
use crate::term::{Monomial, Term};
use crate::term::constant_term;
use num_bigint::BigInt;
use vstd::prelude::*;

verus! {

/// The levels for which the modular polynomial is computed: the primes
/// below `2^31`.
pub open spec fn level_in_domain(p: int) -> bool {
    2 <= p <= 0x7FFF_FFFF && is_prime(p)
}

/// The term `c_i_j x^x y^y`.
pub open spec fn variable_term(i: int, j: int, x: int, y: int) -> TermModel {
    TermModel { coef: 1, mono: MonomialModel { x, y, q: 0, var: Some((i, j)) } }
}

/// `pol` and the diagonal terms `c_i_i x^i y^i` from `i` up to `p`.
pub open spec fn diagonal_from(pol: Seq<TermModel>, i: int, p: int) -> Seq<TermModel>
    decreases p - i + 1,
{
    if i > p {
        pol
    } else {
        diagonal_from(poly_add(pol, poly_of_term(variable_term(i, i, i, i))), i + 1, p)
    }
}

/// `pol` and the symmetric pairs `c_i_j (x^i y^j + x^j y^i)` of row `i` from
/// `j` up to `p`.
pub open spec fn pairs_from(pol: Seq<TermModel>, i: int, j: int, p: int) -> Seq<TermModel>
    decreases p - j + 1,
{
    if j > p {
        pol
    } else {
        pairs_from(
            poly_add(
                poly_add(pol, poly_of_term(variable_term(i, j, i, j))),
                poly_of_term(variable_term(i, j, j, i)),
            ),
            i,
            j + 1,
            p,
        )
    }
}

/// `pol` and the symmetric pairs of the rows from `i` up to `p`.
pub open spec fn rows_from(pol: Seq<TermModel>, i: int, p: int) -> Seq<TermModel>
    decreases p - i + 1,
{
    if i > p {
        pol
    } else {
        rows_from(pairs_from(pol, i, i + 1, p), i + 1, p)
    }
}

/// The modular polynomial of level `p` with unknown coefficients:
/// `x^(p+1) + y^(p+1) + sum c_i_i x^i y^i + sum c_i_j (x^i y^j + x^j y^i)`.
pub open spec fn template_spec(p: int) -> Result<Seq<TermModel>, Error> {
    if !level_in_domain(p) {
        Err(Error::DomainError)
    } else {
        Ok(
            rows_from(
                diagonal_from(
                    poly_add(
                        poly_of_term(xy_term(1, p + 1, 0)),
                        poly_of_term(xy_term(1, 0, p + 1)),
                    ),
                    0,
                    p,
                ),
                0,
                p,
            ),
        )
    }
}

/// The template at `x = j(q)`, `y = j(q^p)`, up to `q^0`.
pub open spec fn template_q_spec(p: int) -> Result<Seq<TermModel>, Error> {
    match template_spec(p) {
        Ok(pol) => match j_invariant_spec(p * p + p) {
            Ok(j) => match poly_eval_x_polynomial(pol, j) {
                Ok(pol1) => match poly_eval_y_polynomial(pol1, poly_q_power(j, p)) {
                    Ok(pol2) => poly_omit_high_order_q(pol2, 0),
                    Err(e) => Err(e),
                },
                Err(e) => Err(e),
            },
            Err(e) => Err(e),
        },
        Err(e) => Err(e),
    }
}

/// The coefficients of `q^i`, ..., `q^0` in `pol`, after `acc`.
pub open spec fn equations_from(pol: Seq<TermModel>, i: int, acc: Seq<Seq<TermModel>>) -> Result<
    Seq<Seq<TermModel>>,
    Error,
>
    decreases 1 - i,
{
    if i > 0 {
        Ok(acc)
    } else {
        match poly_q_power_coef(pol, i) {
            Ok(c) => equations_from(pol, i + 1, acc.push(c)),
            Err(e) => Err(e),
        }
    }
}

/// The equations that the coefficients of the modular polynomial satisfy:
/// one for each power of `q` from `q^(-p^2-p)` to `q^0`.
pub open spec fn equations_spec(p: int) -> Result<Seq<Seq<TermModel>>, Error> {
    match template_q_spec(p) {
        Ok(pol) => equations_from(pol, -(p * p + p), Seq::empty()),
        Err(e) => Err(e),
    }
}

/// The row of an equation: the coefficients of the variables from the index
/// `c` on, then the constant, after `acc`.
pub open spec fn coefficients_from(
    s: Seq<TermModel>,
    p: int,
    c: int,
    count: int,
    acc: Seq<int>,
) -> Result<Seq<int>, Error>
    decreases count - c,
{
    if c >= count {
        match poly_variable_coef(s, None) {
            Ok(v) => Ok(acc.push(v)),
            Err(e) => Err(e),
        }
    } else {
        match poly_variable_coef(s, variable_of_index(p, c)) {
            Ok(v) => coefficients_from(s, p, c + 1, count, acc.push(v)),
            Err(e) => Err(e),
        }
    }
}

/// The augmented matrix of the equations from the `r`-th on, after `acc`.
pub open spec fn matrix_from(
    list: Seq<Seq<TermModel>>,
    p: int,
    r: int,
    count: int,
    acc: Seq<Seq<int>>,
) -> Result<Seq<Seq<int>>, Error>
    decreases list.len() - r,
{
    if r < 0 || r >= list.len() {
        Ok(acc)
    } else {
        match coefficients_from(list[r], p, 0, count, Seq::empty()) {
            Ok(row) => matrix_from(list, p, r + 1, count, acc.push(row)),
            Err(e) => Err(e),
        }
    }
}

/// The polynomial `c x^x y^y`.
pub open spec fn xy_poly(c: int, x: int, y: int) -> Seq<TermModel> {
    poly_of_term(xy_term(c, x, y))
}

/// `pol` and the terms of the solved coefficients from the index `i` on,
/// then `x^(p+1) + y^(p+1)`: the unknown `c_i_j` stands, negated, in the
/// last column of row `index(i, j)` of `b`.
pub open spec fn assemble_from(
    b: Seq<Seq<int>>,
    p: int,
    i: int,
    count: int,
    pol: Seq<TermModel>,
) -> Seq<TermModel>
    decreases count - i,
{
    if i >= count {
        poly_add(poly_add(pol, xy_poly(1, p + 1, 0)), xy_poly(1, 0, p + 1))
    } else {
        match variable_of_index(p, i) {
            Some(v) => {
                let val = -b[i][count];
                let pol2 = poly_add(pol, xy_poly(val, v.0, v.1));
                assemble_from(
                    b,
                    p,
                    i + 1,
                    count,
                    if v.0 != v.1 {
                        poly_add(pol2, xy_poly(val, v.1, v.0))
                    } else {
                        pol2
                    },
                )
            },
            None => assemble_from(b, p, i + 1, count, pol),
        }
    }
}

/// The modular polynomial of level `p`: its coefficients are the solution of
/// the equations of `equations_spec`.
pub open spec fn modular_polynomial_spec(p: int) -> Result<Seq<TermModel>, Error> {
    match equations_spec(p) {
        Ok(list) => match matrix_from(list, p, 0, variable_count(p), Seq::empty()) {
            Ok(m) => match solve_spec(m) {
                Ok(b) => Ok(assemble_from(b, p, 0, variable_count(p), Seq::empty())),
                Err(e) => Err(e),
            },
            Err(e) => Err(e),
        },
        Err(e) => Err(e),
    }
}

/// The views of a list of polynomials.
pub open spec fn polynomials_view(s: Seq<Polynomial>) -> Seq<Seq<TermModel>> {
    Seq::new(s.len(), |i: int| s[i]@)
}

/// The polynomial `c x^x y^y`.
fn xy_monomial(c: &BigInt, x: i64, y: i64) -> (r: Polynomial)
    ensures
        r.wf(),
        r@ == xy_poly(int_of(*c), x as int, y as int),
{
    Term {
        coef: c.clone(),
        monomial: Monomial {
            xpow: big_from_i64(x),
            ypow: big_from_i64(y),
            qpow: big_from_i64(0),
            variable: SubscriptedVariable::new(),
        },
    }.to_pol()
}

/// The polynomial `c_i_j x^x y^y`.
fn variable_monomial(i: i64, j: i64, x: i64, y: i64) -> (r: Polynomial)
    ensures
        r.wf(),
        r@ == poly_of_term(variable_term(i as int, j as int, x as int, y as int)),
{
    Term {
        coef: big_from_i64(1),
        monomial: Monomial {
            xpow: big_from_i64(x),
            ypow: big_from_i64(y),
            qpow: big_from_i64(0),
            variable: SubscriptedVariable { i, j, empty: false },
        },
    }.to_pol()
}

/// Whether `p` is a level for which the modular polynomial is computed.
fn check_level(p: u64) -> (r: bool)
    ensures
        r == level_in_domain(p as int),
{
    if p < 2 || p > 0x7FFF_FFFF {
        return false;
    }
    is_prime_u64(p)
}

/// The modular polynomial of level `p` with subscripted variables for its
/// unknown coefficients.
pub fn subscripted_variable_modular_polynomial(p: u64) -> (r: Result<Polynomial, Error>)
    ensures
        poly_result_is(r, template_spec(p as int)),
        r is Ok <==> level_in_domain(p as int),
{
    if !check_level(p) {
        return Err(Error::DomainError);
    }
    let n = p as i64;
    let one = big_from_i64(1);
    let mut pol = xy_monomial(&one, n + 1, 0);
    pol.add_assign(&xy_monomial(&one, 0, n + 1));
    let ghost start = pol@;
    let mut i: i64 = 0;
    while i <= n
        invariant
            0 <= i <= n + 1,
            n <= 0x7FFF_FFFF,
            pol.wf(),
            diagonal_from(pol@, i as int, n as int) == diagonal_from(start, 0, n as int),
        decreases n - i + 1,
    {
        pol.add_assign(&variable_monomial(i, i, i, i));
        i = i + 1;
    }
    let ghost diagonal = pol@;
    let mut i: i64 = 0;
    while i <= n
        invariant
            0 <= i <= n + 1,
            n <= 0x7FFF_FFFF,
            pol.wf(),
            rows_from(pol@, i as int, n as int) == rows_from(diagonal, 0, n as int),
        decreases n - i + 1,
    {
        let mut j: i64 = i + 1;
        while j <= n
            invariant
                0 <= i <= n,
                i + 1 <= j <= n + 1,
                n <= 0x7FFF_FFFF,
                pol.wf(),
                rows_from(pairs_from(pol@, i as int, j as int, n as int), i as int + 1, n as int)
                    == rows_from(diagonal, 0, n as int),
            decreases n - j + 1,
        {
            pol.add_assign(&variable_monomial(i, j, i, j));
            pol.add_assign(&variable_monomial(i, j, j, i));
            j = j + 1;
        }
        i = i + 1;
    }
    Ok(pol)
}

/// The template at `x = j(q)`, `y = j(q^p)`, up to `q^0`.
pub fn subscripted_variable_modular_polynomial_q(p: u64) -> (r: Result<Polynomial, Error>)
    ensures
        poly_result_is(r, template_q_spec(p as int)),
        r is Ok <==> level_in_domain(p as int),
{
    proof {
        if level_in_domain(p as int) {
            lemma_template_q_defined(p as int);
        }
    }
    let pol = match subscripted_variable_modular_polynomial(p) {
        Ok(v) => v,
        Err(e) => {
            return Err(e);
        },
    };
    let n = p as i64;
    assert(n * n + n <= 0x7FFF_FFFF * 0x7FFF_FFFF + 0x7FFF_FFFF) by (nonlinear_arith)
        requires
            0 <= n <= 0x7FFF_FFFF,
    ;
    // j-invariant q order needs p^2 + p
    let j_order = n * n + n;
    let j = j_invariant(j_order);
    let j_q_power = j.to_q_power(n);
    let pol1 = match pol.eval_x_polynomial(&j) {
        Ok(v) => v,
        Err(e) => {
            return Err(e);
        },
    };
    let pol2 = match pol1.eval_y_polynomial(&j_q_power) {
        Ok(v) => v,
        Err(e) => {
            return Err(e);
        },
    };
    pol2.omit_high_order_q(0)
}

/// The equations that the coefficients of the modular polynomial satisfy.
pub fn subscripted_variable_modular_polynomial_list(p: u64) -> (r: Result<Vec<Polynomial>, Error>)
    ensures
        match r {
            Ok(v) => equations_spec(p as int) == Ok::<Seq<Seq<TermModel>>, Error>(
                polynomials_view(v@),
            ) && level_in_domain(p as int) && forall|i: int|
                0 <= i < v@.len() ==> (#[trigger] v@[i]).wf(),
            Err(e) => equations_spec(p as int) == Err::<Seq<Seq<TermModel>>, Error>(e),
        },
        r is Ok <==> level_in_domain(p as int),
{
    proof {
        if level_in_domain(p as int) {
            lemma_modular_polynomial_defined(p as int);
        }
    }
    let pol_q = match subscripted_variable_modular_polynomial_q(p) {
        Ok(v) => v,
        Err(e) => {
            return Err(e);
        },
    };
    let n = p as i64;
    assert(n * n + n <= 0x7FFF_FFFF * 0x7FFF_FFFF + 0x7FFF_FFFF) by (nonlinear_arith)
        requires
            0 <= n <= 0x7FFF_FFFF,
    ;
    let min = -(n * n + n);
    let mut v: Vec<Polynomial> = Vec::new();
    let mut i: i64 = min;
    proof {
        assert(polynomials_view(v@) =~= Seq::<Seq<TermModel>>::empty());
    }
    while i <= 0
        invariant
            i <= 1,
            level_in_domain(p as int),
            equations_spec(p as int) is Ok,
            forall|k: int| 0 <= k < v@.len() ==> (#[trigger] v@[k]).wf(),
            equations_from(pol_q@, i as int, polynomials_view(v@)) == equations_spec(p as int),
        decreases 1 - i,
    {
        let ghost acc = polynomials_view(v@);
        match pol_q.to_q_power_coef(&big_from_i64(i)) {
            Ok(c) => {
                let ghost cm = c@;
                v.push(c);
                proof {
                    assert(polynomials_view(v@) =~= acc.push(cm));
                }
            },
            Err(e) => {
                return Err(e);
            },
        }
        i = i + 1;
    }
    Ok(v)
}

/// The row of one equation in the augmented matrix.
fn coefficient_row(
    equation: &Polynomial,
    converter: &SubscriptedVariableConverter,
    count: u64,
) -> (r: Result<Vec<BigInt>, Error>)
    requires
        equation.wf(),
        converter.wf(),
        count == variable_count(converter.p as int),
    ensures
        match r {
            Ok(v) => coefficients_from(
                equation@,
                converter.p as int,
                0,
                count as int,
                Seq::empty(),
            ) == Ok::<Seq<int>, Error>(row_view(v)) && v@.len() == count + 1,
            Err(e) => coefficients_from(equation@, converter.p as int, 0, count as int, Seq::empty())
                == Err::<Seq<int>, Error>(e),
        },
{
    let mut row: Vec<BigInt> = Vec::new();
    let mut c: u64 = 0;
    proof {
        assert(row_view(row) =~= Seq::<int>::empty());
    }
    while c < count
        invariant
            0 <= c <= count,
            row@.len() == c,
            equation.wf(),
            converter.wf(),
            count == variable_count(converter.p as int),
            coefficients_from(equation@, converter.p as int, c as int, count as int, row_view(row))
                == coefficients_from(equation@, converter.p as int, 0, count as int, Seq::empty()),
        decreases count - c,
    {
        let variable = converter.variable_from_index(c);
        let ghost acc = row_view(row);
        match equation.to_variable_coef(variable) {
            Ok(v) => {
                let ghost vi = int_of(v);
                row.push(v);
                proof {
                    assert(row_view(row) =~= acc.push(vi));
                }
            },
            Err(e) => {
                return Err(e);
            },
        }
        c = c + 1;
    }
    let ghost acc = row_view(row);
    match equation.to_variable_coef(SubscriptedVariable::new()) {
        Ok(v) => {
            let ghost vi = int_of(v);
            row.push(v);
            proof {
                assert(row_view(row) =~= acc.push(vi));
            }
            Ok(row)
        },
        Err(e) => Err(e),
    }
}

/// The modular polynomial of level `p`.
pub fn modular_polynomial(p: u64) -> (r: Result<Polynomial, Error>)
    ensures
        poly_result_is(r, modular_polynomial_spec(p as int)),
        match r {
            Ok(_) => level_in_domain(p as int),
            Err(e) => if level_in_domain(p as int) {
                e == Error::Unsolvable
            } else {
                e == Error::DomainError
            },
        },
{
    proof {
        if level_in_domain(p as int) {
            lemma_modular_polynomial_defined(p as int);
        }
    }
    let list = match subscripted_variable_modular_polynomial_list(p) {
        Ok(v) => v,
        Err(e) => {
            return Err(e);
        },
    };
    let converter = match SubscriptedVariableConverter::new(p as i64) {
        Ok(c) => c,
        Err(e) => {
            assert(false);
            return Err(e);
        },
    };
    let count = converter.count();
    let ghost equations = polynomials_view(list@);
    let mut a: Vec<Vec<BigInt>> = Vec::new();
    let mut row: usize = 0;
    proof {
        assert(matrix_view(a@) =~= Seq::<Seq<int>>::empty());
    }
    while row < list.len()
        invariant
            0 <= row <= list@.len(),
            a@.len() == row,
            forall|i: int| 0 <= i < a@.len() ==> (#[trigger] a@[i])@.len() == count + 1,
            converter.wf(),
            converter.p == p,
            count == variable_count(p as int),
            equations == polynomials_view(list@),
            level_in_domain(p as int),
            modular_polynomial_spec(p as int) is Ok || modular_polynomial_spec(p as int) == Err::<
                Seq<TermModel>,
                Error,
            >(Error::Unsolvable),
            equations_spec(p as int) == Ok::<Seq<Seq<TermModel>>, Error>(equations),
            forall|i: int| 0 <= i < list@.len() ==> (#[trigger] list@[i]).wf(),
            matrix_from(equations, p as int, row as int, count as int, matrix_view(a@))
                == matrix_from(equations, p as int, 0, count as int, Seq::empty()),
        decreases list@.len() - row,
    {
        let ghost acc = matrix_view(a@);
        match coefficient_row(&list[row], &converter, count) {
            Ok(v) => {
                let ghost vm = row_view(v);
                a.push(v);
                proof {
                    assert(matrix_view(a@) =~= acc.push(vm));
                }
            },
            Err(e) => {
                return Err(e);
            },
        }
        row = row + 1;
    }
    let b = match solve(&a) {
        Ok(v) => v,
        Err(e) => {
            return Err(e);
        },
    };
    let one = big_from_i64(1);
    assert(a@[0]@.len() == count + 1);
    let n = a[0].len() - 1;
    let mut pol = Polynomial::new();
    let mut i: usize = 0;
    while i < n
        invariant
            0 <= i <= n,
            n == count,
            n <= b@.len(),
            converter.wf(),
            converter.p == p,
            count == variable_count(p as int),
            rectangular(matrix_view(b@), n + 1),
            pol.wf(),
            assemble_from(matrix_view(b@), p as int, i as int, n as int, pol@) == assemble_from(
                matrix_view(b@),
                p as int,
                0,
                n as int,
                Seq::empty(),
            ),
        decreases n - i,
    {
        let variable = converter.variable_from_index(i as u64);
        proof {
            assert(matrix_view(b@)[i as int].len() == n + 1);
        }
        let val = big_neg(&b[i][n]);
        pol.add_assign(&xy_monomial(&val, variable.i, variable.j));
        if variable.i != variable.j {
            pol.add_assign(&xy_monomial(&val, variable.j, variable.i));
        }
        i = i + 1;
    }
    pol.add_assign(&xy_monomial(&one, p as i64 + 1, 0));
    pol.add_assign(&xy_monomial(&one, 0, p as i64 + 1));
    Ok(pol)
}

/// A monomial in `x` and `y` with exponents that are not negative, and a
/// variable.
pub open spec fn in_x_and_y() -> spec_fn(MonomialModel) -> bool {
    |m: MonomialModel| m.x >= 0 && m.y >= 0 && m.q == 0
}

/// A monomial without `x` and with an exponent of `y` that is not negative.
pub open spec fn without_x() -> spec_fn(MonomialModel) -> bool {
    |m: MonomialModel| m.x == 0 && m.y >= 0
}

/// A monomial without `x` and `y`.
pub open spec fn without_x_and_y() -> spec_fn(MonomialModel) -> bool {
    |m: MonomialModel| m.x == 0 && m.y == 0
}

proof fn lemma_term_all(t: TermModel, f: spec_fn(MonomialModel) -> bool)
    requires
        f(t.mono),
    ensures
        all_monomials(poly_of_term(t), f),
{
}

proof fn lemma_diagonal_from(pol: Seq<TermModel>, i: int, p: int)
    requires
        0 <= i,
        all_monomials(pol, in_x_and_y()),
    ensures
        all_monomials(diagonal_from(pol, i, p), in_x_and_y()),
    decreases p - i + 1,
{
    if i <= p {
        lemma_term_all(variable_term(i, i, i, i), in_x_and_y());
        lemma_add_all(pol, poly_of_term(variable_term(i, i, i, i)), in_x_and_y());
        lemma_diagonal_from(poly_add(pol, poly_of_term(variable_term(i, i, i, i))), i + 1, p);
    }
}

proof fn lemma_pairs_from(pol: Seq<TermModel>, i: int, j: int, p: int)
    requires
        0 <= i < j,
        all_monomials(pol, in_x_and_y()),
    ensures
        all_monomials(pairs_from(pol, i, j, p), in_x_and_y()),
    decreases p - j + 1,
{
    if j <= p {
        let f = in_x_and_y();
        lemma_term_all(variable_term(i, j, i, j), f);
        lemma_term_all(variable_term(i, j, j, i), f);
        lemma_add_all(pol, poly_of_term(variable_term(i, j, i, j)), f);
        let pol2 = poly_add(pol, poly_of_term(variable_term(i, j, i, j)));
        lemma_add_all(pol2, poly_of_term(variable_term(i, j, j, i)), f);
        lemma_pairs_from(poly_add(pol2, poly_of_term(variable_term(i, j, j, i))), i, j + 1, p);
    }
}

proof fn lemma_rows_from(pol: Seq<TermModel>, i: int, p: int)
    requires
        0 <= i,
        all_monomials(pol, in_x_and_y()),
    ensures
        all_monomials(rows_from(pol, i, p), in_x_and_y()),
    decreases p - i + 1,
{
    if i <= p {
        lemma_pairs_from(pol, i, i + 1, p);
        lemma_rows_from(pairs_from(pol, i, i + 1, p), i + 1, p);
    }
}

/// The polynomial with unknown coefficients is a polynomial in `x` and `y`
/// with exponents that are not negative.
proof fn lemma_template(p: int)
    requires
        level_in_domain(p),
    ensures
        template_spec(p) is Ok,
        all_monomials(template_spec(p)->Ok_0, in_x_and_y()),
{
    let f = in_x_and_y();
    lemma_term_all(xy_term(1, p + 1, 0), f);
    lemma_term_all(xy_term(1, 0, p + 1), f);
    lemma_add_all(poly_of_term(xy_term(1, p + 1, 0)), poly_of_term(xy_term(1, 0, p + 1)), f);
    let start = poly_add(poly_of_term(xy_term(1, p + 1, 0)), poly_of_term(xy_term(1, 0, p + 1)));
    lemma_diagonal_from(start, 0, p);
    lemma_rows_from(diagonal_from(start, 0, p), 0, p);
}

proof fn lemma_multiplicative()
    ensures
        multiplicative(without_x()),
        multiplicative(without_x_and_y()),
{
}

/// A term with `x` replaced by a series in `q` has no `x`.
proof fn lemma_term_eval_x(t: TermModel, j: Seq<TermModel>)
    requires
        t.mono.x >= 0,
        t.mono.y >= 0,
        q_series(j),
    ensures
        term_eval_x_polynomial(t, j) is Ok,
        all_monomials(term_eval_x_polynomial(t, j)->Ok_0, without_x()),
{
    let f = without_x();
    lemma_multiplicative();
    lemma_power_q_series(j, t.mono.x);
    let w = poly_power(j, t.mono.x)->Ok_0;
    lemma_q_series(w);
    lemma_q_series_all(w, f);
    let u = TermModel {
        coef: 1,
        mono: MonomialModel { x: 0, y: t.mono.y, q: t.mono.q, var: t.mono.var },
    };
    lemma_term_all(u, f);
    lemma_mul_all(w, poly_of_term(u), f);
    let v = poly_mul(w, poly_of_term(u))->Ok_0;
    assert(mono_eval_x_polynomial(t.mono, j) == Ok::<Seq<TermModel>, Error>(v));
    lemma_term_variable(constant_term(t.coef));
    lemma_term_all(constant_term(t.coef), f);
    lemma_mul_all(poly_of_term(constant_term(t.coef)), v, f);
}

/// A term without `x`, with `y` replaced by a series in `q`, has no `x` and
/// no `y`.
proof fn lemma_term_eval_y(t: TermModel, j: Seq<TermModel>)
    requires
        t.mono.x == 0,
        t.mono.y >= 0,
        q_series(j),
    ensures
        term_eval_y_polynomial(t, j) is Ok,
        all_monomials(term_eval_y_polynomial(t, j)->Ok_0, without_x_and_y()),
{
    let f = without_x_and_y();
    lemma_multiplicative();
    lemma_power_q_series(j, t.mono.y);
    let w = poly_power(j, t.mono.y)->Ok_0;
    lemma_q_series(w);
    lemma_q_series_all(w, f);
    let u = TermModel {
        coef: 1,
        mono: MonomialModel { x: t.mono.x, y: 0, q: t.mono.q, var: t.mono.var },
    };
    lemma_term_all(u, f);
    lemma_mul_all(w, poly_of_term(u), f);
    let v = poly_mul(w, poly_of_term(u))->Ok_0;
    assert(mono_eval_y_polynomial(t.mono, j) == Ok::<Seq<TermModel>, Error>(v));
    lemma_term_variable(constant_term(t.coef));
    lemma_term_all(constant_term(t.coef), f);
    lemma_mul_all(poly_of_term(constant_term(t.coef)), v, f);
}

proof fn lemma_eval_x(s: Seq<TermModel>, j: Seq<TermModel>)
    requires
        all_monomials(s, in_x_and_y()),
        q_series(j),
    ensures
        poly_eval_x_polynomial(s, j) is Ok,
        all_monomials(poly_eval_x_polynomial(s, j)->Ok_0, without_x()),
    decreases s.len(),
{
    if s.len() > 0 {
        let d = s.drop_last();
        assert(all_monomials(d, in_x_and_y())) by {
            assert forall|i: int| 0 <= i < d.len() implies in_x_and_y()((#[trigger] d[i]).mono) by {
                assert(d[i] == s[i]);
            }
        }
        lemma_eval_x(d, j);
        assert(s.last() == s[s.len() - 1]);
        lemma_term_eval_x(s.last(), j);
        lemma_add_all(
            poly_eval_x_polynomial(d, j)->Ok_0,
            term_eval_x_polynomial(s.last(), j)->Ok_0,
            without_x(),
        );
    }
}

proof fn lemma_eval_y(s: Seq<TermModel>, j: Seq<TermModel>)
    requires
        all_monomials(s, without_x()),
        q_series(j),
    ensures
        poly_eval_y_polynomial(s, j) is Ok,
        all_monomials(poly_eval_y_polynomial(s, j)->Ok_0, without_x_and_y()),
    decreases s.len(),
{
    if s.len() > 0 {
        let d = s.drop_last();
        assert(all_monomials(d, without_x())) by {
            assert forall|i: int| 0 <= i < d.len() implies without_x()((#[trigger] d[i]).mono) by {
                assert(d[i] == s[i]);
            }
        }
        lemma_eval_y(d, j);
        assert(s.last() == s[s.len() - 1]);
        lemma_term_eval_y(s.last(), j);
        lemma_add_all(
            poly_eval_y_polynomial(d, j)->Ok_0,
            term_eval_y_polynomial(s.last(), j)->Ok_0,
            without_x_and_y(),
        );
    }
}

/// A polynomial without `x` and `y` has neither.
proof fn lemma_without_x_and_y(s: Seq<TermModel>)
    requires
        all_monomials(s, without_x_and_y()),
    ensures
        !has_x(s),
        !has_y(s),
{
    if has_x(s) {
        let i = choose|i: int| 0 <= i < s.len() && (#[trigger] s[i]).mono.x != 0;
        assert(without_x_and_y()(s[i].mono));
    }
    if has_y(s) {
        let i = choose|i: int| 0 <= i < s.len() && (#[trigger] s[i]).mono.y != 0;
        assert(without_x_and_y()(s[i].mono));
    }
}

/// The substitution of the series of the j-invariant in the polynomial with
/// unknown coefficients is defined for every level of the domain, and
/// leaves a series in `q` and the unknowns.
pub proof fn lemma_template_q_defined(p: int)
    requires
        level_in_domain(p),
    ensures
        template_q_spec(p) is Ok,
        !has_x(template_q_spec(p)->Ok_0),
        !has_y(template_q_spec(p)->Ok_0),
{
    lemma_template(p);
    let pol = template_spec(p)->Ok_0;
    lemma_j_invariant_defined(p * p + p);
    let j = j_invariant_spec(p * p + p)->Ok_0;
    lemma_eval_x(pol, j);
    let pol1 = poly_eval_x_polynomial(pol, j)->Ok_0;
    // the series at q^p is a series in q
    let terms = q_power_terms(j, p);
    assert(q_series(terms)) by {
        assert forall|i: int| 0 <= i < terms.len() implies (#[trigger] terms[i]).mono.x == 0
            && terms[i].mono.y == 0 && terms[i].mono.var is None by {
            assert(j[i].mono.x == 0);
        }
    }
    lemma_normalize_q_series(terms);
    lemma_eval_y(pol1, poly_q_power(j, p));
    let pol2 = poly_eval_y_polynomial(pol1, poly_q_power(j, p))->Ok_0;
    lemma_without_x_and_y(pol2);
    let low = low_q_terms(pol2, 0);
    assert(all_monomials(low, without_x_and_y())) by {
        assert forall|i: int| 0 <= i < low.len() implies without_x_and_y()(
            (#[trigger] low[i]).mono,
        ) by {
            assert(low[i].mono == pol2[i].mono);
            assert(without_x_and_y()(pol2[i].mono));
        }
    }
    lemma_normalize_all(low, without_x_and_y());
    lemma_without_x_and_y(normalize(low));
}

proof fn lemma_equations_from(pol: Seq<TermModel>, i: int, acc: Seq<Seq<TermModel>>)
    requires
        !has_x(pol),
        !has_y(pol),
        forall|k: int|
            0 <= k < acc.len() ==> !has_x(#[trigger] acc[k]) && !has_y(acc[k]) && !has_q(acc[k]),
    ensures
        equations_from(pol, i, acc) is Ok,
        equations_from(pol, i, acc)->Ok_0.len() == acc.len() + (if i <= 0 {
            1 - i
        } else {
            0
        }),
        forall|k: int|
            0 <= k < equations_from(pol, i, acc)->Ok_0.len() ==> !has_x(
                #[trigger] equations_from(pol, i, acc)->Ok_0[k],
            ) && !has_y(equations_from(pol, i, acc)->Ok_0[k]) && !has_q(
                equations_from(pol, i, acc)->Ok_0[k],
            ),
    decreases 1 - i,
{
    if i <= 0 {
        let terms = q_coef_terms(pol, i);
        let f = |m: MonomialModel| m.x == 0 && m.y == 0 && m.q == 0;
        assert(all_monomials(terms, f)) by {
            assert forall|k: int| 0 <= k < terms.len() implies f((#[trigger] terms[k]).mono) by {}
        }
        lemma_normalize_all(terms, f);
        let c = normalize(terms);
        assert(!has_x(c) && !has_y(c) && !has_q(c)) by {
            if has_x(c) {
                let k = choose|k: int| 0 <= k < c.len() && (#[trigger] c[k]).mono.x != 0;
                assert(f(c[k].mono));
            }
            if has_y(c) {
                let k = choose|k: int| 0 <= k < c.len() && (#[trigger] c[k]).mono.y != 0;
                assert(f(c[k].mono));
            }
            if has_q(c) {
                let k = choose|k: int| 0 <= k < c.len() && (#[trigger] c[k]).mono.q != 0;
                assert(f(c[k].mono));
            }
        }
        let acc2 = acc.push(c);
        assert forall|k: int| 0 <= k < acc2.len() implies !has_x(#[trigger] acc2[k]) && !has_y(
            acc2[k],
        ) && !has_q(acc2[k]) by {
            if k < acc.len() {
                assert(acc2[k] == acc[k]);
            }
        }
        lemma_equations_from(pol, i + 1, acc2);
    }
}

proof fn lemma_coefficients_from(s: Seq<TermModel>, p: int, c: int, count: int, acc: Seq<int>)
    requires
        !has_x(s),
        !has_y(s),
        !has_q(s),
        0 <= c <= count,
    ensures
        coefficients_from(s, p, c, count, acc) is Ok,
        coefficients_from(s, p, c, count, acc)->Ok_0.len() == acc.len() + (count - c) + 1,
    decreases count - c,
{
    if c < count {
        let v = poly_variable_coef(s, variable_of_index(p, c))->Ok_0;
        lemma_coefficients_from(s, p, c + 1, count, acc.push(v));
    }
}

proof fn lemma_matrix_from(
    list: Seq<Seq<TermModel>>,
    p: int,
    r: int,
    count: int,
    acc: Seq<Seq<int>>,
)
    requires
        0 <= r <= list.len(),
        0 <= count,
        forall|k: int|
            0 <= k < list.len() ==> !has_x(#[trigger] list[k]) && !has_y(list[k]) && !has_q(
                list[k],
            ),
        rectangular(acc, count + 1),
    ensures
        matrix_from(list, p, r, count, acc) is Ok,
        matrix_from(list, p, r, count, acc)->Ok_0.len() == acc.len() + list.len() - r,
        rectangular(matrix_from(list, p, r, count, acc)->Ok_0, count + 1),
    decreases list.len() - r,
{
    if r < list.len() {
        lemma_coefficients_from(list[r], p, 0, count, Seq::empty());
        let row = coefficients_from(list[r], p, 0, count, Seq::empty())->Ok_0;
        let acc2 = acc.push(row);
        assert(rectangular(acc2, count + 1)) by {
            assert forall|k: int| 0 <= k < acc2.len() implies (#[trigger] acc2[k]).len() == count
                + 1 by {
                if k < acc.len() {
                    assert(acc2[k] == acc[k]);
                }
            }
        }
        lemma_matrix_from(list, p, r + 1, count, acc2);
    }
}

/// For a level of the domain the equations and their matrix are defined:
/// the modular polynomial is found unless the solver finds no pivot.
pub proof fn lemma_modular_polynomial_defined(p: int)
    requires
        level_in_domain(p),
    ensures
        equations_spec(p) is Ok,
        modular_polynomial_spec(p) is Ok || modular_polynomial_spec(p) == Err::<
            Seq<TermModel>,
            Error,
        >(Error::Unsolvable),
{
    lemma_template_q_defined(p);
    let pol = template_q_spec(p)->Ok_0;
    assert(p * p + p >= 0) by (nonlinear_arith)
        requires
            p >= 2,
    ;
    lemma_equations_from(pol, -(p * p + p), Seq::empty());
    let list = equations_spec(p)->Ok_0;
    let count = variable_count(p);
    assert(count >= 0) by {
        assert(p * (p + 1) >= 0) by (nonlinear_arith)
            requires
                p >= 2,
        ;
    }
    lemma_matrix_from(list, p, 0, count, Seq::empty());
    let m = matrix_from(list, p, 0, count, Seq::empty())->Ok_0;
    assert(m.len() >= 1);
    assert(m[0].len() == count + 1);
    if solve_spec(m) is Err {
        crate::solver_laws::lemma_solve_errors(m);
    }
}

} // verus!
