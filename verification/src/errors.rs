use vstd::prelude::*;

verus! {

/// The distinct failure kinds of the calculator core.
///
/// Every kernel and evaluator function returns either a value or one of
/// these; the first failure anywhere in a recursive evaluation aborts the
/// whole call and is propagated unchanged to the caller.
#[derive(Clone, Copy, Debug, PartialEq, Eq, Structural)]
pub enum CalcError {
    /// A token neither parses as a numeric literal nor names a bound
    /// variable nor is a recognized operator.
    MalformedToken,
    /// The postfix stream does not reduce to exactly one tree, a unary node
    /// has two children, a leaf holds an operator, or an operator node is
    /// missing an operand subtree.
    StructuralError,
    /// A binary operator found fewer than two operands on the build stack.
    StackUnderflow,
    /// An operator was applied to an operand-kind combination with no
    /// defined semantics (for example a unary matrix operator on a scalar).
    TypeMismatch,
    /// Non-conformable shapes for an elementwise operation or a product.
    DimensionMismatch,
    /// A matrix with determinant exactly zero has no inverse.
    SingularMatrix,
    /// Division and negative matrix powers are deliberately unimplemented.
    UnsupportedOperation,
    /// An exact result does not fit the machine representation of scalars.
    Overflow,
}

} // verus!
