//! Error values produced by the array engine.
//!
//! Every failure is synchronous and aborts the enclosing algorithm; no
//! partial rollback of stack effects already committed is attempted.

use vstd::prelude::*;

use crate::sig::Signature;

verus! {

/// The semantic role a stack value was requested for when a pop failed.
#[derive(Clone, Copy, Debug, PartialEq, Eq, Structural)]
pub enum StackRole {
    /// An operand of an algorithm (a value, a marker list, an index array).
    Argument,
    /// The repetition count of `repeat`.
    RepetitionCount,
    /// The result of the converging function in fixpoint `repeat`.
    ConvergingResult,
    /// The boolean condition of the do-loop.
    DoCondition,
    /// The result of the applied function in the map form of a collapse.
    FunctionResult,
    /// The accumulator produced by the reducing form of a collapse.
    ReducedResult,
    /// A row handed back by the inverse of `partition`.
    UnpartitionedRow,
    /// A row handed back by the inverse of `group`.
    UngroupedRow,
    /// A function expected on the function stack.
    Function,
}

/// The error kinds of the engine.
#[derive(Clone, Copy, Debug, PartialEq, Eq, Structural)]
pub enum UiuaError {
    /// No prefix relation between two shapes in a pervasive operation, or a
    /// row-count mismatch between values and markers.
    ShapeMismatch,
    /// An operand-kind pair absent from an operation's type table.
    TypeMismatch(crate::array::ArrayType, crate::array::ArrayType),
    /// A function's declared arity violates a modifier's structural
    /// requirement; carries the offending signature.
    SignatureError(Signature),
    /// A pop with nothing available, carrying the requested role.
    StackUnderflow(StackRole),
    /// A non-natural repetition count, a non-boolean condition, or an
    /// aggregation over zero groups with no fill value.
    DomainError,
    /// An inverse reconstruction structurally inconsistent with the
    /// recorded markers or indices.
    ConsistencyError,
}

impl UiuaError {
    /// A short human-readable description of the error: one fixed,
    /// non-empty text per error kind.
    pub fn message(&self) -> (r: &'static str)
        ensures
            r@.len() > 0,
            (*self is ShapeMismatch) ==> r@ == "shapes are not prefix-compatible"@,
            (*self is TypeMismatch) ==> r@ == "operation is not defined for these operand kinds"@,
            (*self is SignatureError) ==> r@ == "function signature violates the modifier's requirement"@,
            (*self is StackUnderflow) ==> r@ == "stack is empty"@,
            (*self is DomainError) ==> r@ == "value is outside the operation's domain"@,
            (*self is ConsistencyError) ==> r@ == "array is inconsistent with the recorded markers or indices"@,
    {
        proof {
            reveal_strlit("shapes are not prefix-compatible");
            reveal_strlit("operation is not defined for these operand kinds");
            reveal_strlit("function signature violates the modifier's requirement");
            reveal_strlit("stack is empty");
            reveal_strlit("value is outside the operation's domain");
            reveal_strlit("array is inconsistent with the recorded markers or indices");
        }
        match self {
            UiuaError::ShapeMismatch => "shapes are not prefix-compatible",
            UiuaError::TypeMismatch(_, _) => "operation is not defined for these operand kinds",
            UiuaError::SignatureError(_) => "function signature violates the modifier's requirement",
            UiuaError::StackUnderflow(_) => "stack is empty",
            UiuaError::DomainError => "value is outside the operation's domain",
            UiuaError::ConsistencyError => "array is inconsistent with the recorded markers or indices",
        }
    }
}

/// The result of running an algorithm against the execution environment.
pub type UiuaResult = Result<(), UiuaError>;

} // verus!
