// The order of an elliptic curve over a prime field, by the algorithms of
// Schoof and of Schoof, Elkies and Atkin, on polynomials in x, y, q and
// subscripted variables over integers of arbitrary size.
//
// integer, bigint, fermat, congruence: the integers and their arithmetic
// error: what an operation rejects
// subscripted_variable, term, term_builder: variables, monomials, terms
// model, algebra, division, gcd_laws: polynomials as mathematics sees them
// polynomial, arith, evaluate, poly_ops, lifted: polynomials and their operations
// laws, ring, support, reduction_laws: what holds of the operations on
// polynomials
// division_polynomial, elliptic_curve, schoof, schoof_elkies_atkins: curves
// curve_laws, curve_closure: what holds of the points of a curve
// schoof_laws: what holds of the residues that the driver returns
// divisor, eisenstein, delta, j_invariant, modular_polynomial: modular forms
// simultaneous_equation, solver_laws: linear equations over the integers
// secp256k1: one curve

pub mod algebra;
pub mod arith;
pub mod bigint;
pub mod congruence;
pub mod curve_closure;
pub mod curve_laws;
pub mod delta;
pub mod division;
pub mod division_polynomial;
pub mod divisor;
pub mod eisenstein;
pub mod elliptic_curve;
pub mod error;
pub mod evaluate;
pub mod fermat;
pub mod gcd_laws;
pub mod integer;
pub mod j_invariant;
pub mod laws;
pub mod lifted;
pub mod model;
pub mod modular_polynomial;
pub mod poly_ops;
pub mod polynomial;
pub mod reduction_laws;
pub mod ring;
pub mod schoof;
pub mod schoof_elkies_atkins;
pub mod schoof_laws;
pub mod secp256k1;
pub mod simultaneous_equation;
pub mod solver_laws;
pub mod subscripted_variable;
pub mod support;
pub mod term;
pub mod term_builder;
