use vstd::prelude::*;

verus! {

/// The exponent of each dimension in a unit: `length: 2` for an area.
#[derive(Clone, Copy, Debug, PartialEq, Eq, Structural)]
pub struct DimensionSignature {
    pub dimensionless: i64,
    pub time: i64,
    pub length: i64,
    pub currency: i64,
}

/// Why an evaluation step produced no value. Every one of these ends the
/// evaluation of the program at the statement where it arose.
#[derive(Clone, Copy, Debug, PartialEq, Eq, Structural)]
pub enum EvalError {
    /// An addition or subtraction between units of different dimensions,
    /// with the dimensions of the left and of the right operand.
    DimensionMismatch { lhs: DimensionSignature, rhs: DimensionSignature },
    /// A name that no earlier statement has bound.
    UndefinedVariable,
    /// An element-wise operation between vectors of different lengths.
    VectorLengthMismatch,
    /// A vector literal without elements.
    EmptyVector,
    /// A division whose divisor is zero.
    DivisionByZero,
    /// A numerator, denominator or exponent that leaves its machine range.
    Overflow,
    /// A binding found inside an expression rather than as a statement.
    MisplacedBinding,
    /// A statement of a program that is not a binding.
    NotABinding,
}

} // verus!
