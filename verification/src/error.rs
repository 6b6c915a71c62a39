use vstd::prelude::*;

verus! {

/// The ways in which an operation of this library can reject its input.
#[derive(Debug, Clone, Copy, PartialEq, Eq, Structural)]
pub enum Error {
    /// A parameter lies outside the domain of the operation: a modulus not
    /// above one, a negative exponent, a division by zero.
    DomainError,
    /// A modular inverse was asked for, and none exists.
    NonInvertible,
    /// A polynomial was divided by a divisor of more than one term.
    NonMonomialDivision,
    /// Two terms that both carry a subscripted variable were multiplied.
    VariableProduct,
    /// A univariate operation met a polynomial with more than the variable x.
    NotUnivariate,
    /// A term that carries a subscripted variable was raised to a power.
    UnreducedPower,
    /// The linear solver found no pivot in a column.
    Unsolvable,
}

} // verus!
