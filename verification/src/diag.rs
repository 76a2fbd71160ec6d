//! The two disjoint error kinds of the core: `Diagnostic` for compile-time
//! (lexical or syntactic) problems and `RuntimeFault` for execution-time
//! problems.  Both carry the 1-based source row and column they refer to.

use vstd::prelude::*;

verus! {

/// What went wrong during compilation.
#[derive(Copy, Clone, Debug, PartialEq, Eq, Structural)]
pub enum DiagKind {
    /// A character that can begin no token.
    UnexpectedCharacter,
    /// A token that cannot begin an expression stood where one was required.
    ExpectedExpression,
    /// A `(` group was not closed by `)`.
    ExpectedRightParen,
    /// A statement was not followed by `;` or the end of the input.
    ExpectedSemicolon,
    /// An integer literal whose value does not fit in a signed 64-bit integer.
    IntegerTooLarge,
}

/// A compile-time error: its kind and the 1-based source position it refers
/// to.  Compilation latches the first diagnostic and suppresses later ones.
#[derive(Copy, Clone, Debug, PartialEq, Eq, Structural)]
pub struct Diagnostic {
    pub kind: DiagKind,
    pub row: usize,
    pub column: usize,
}

/// What went wrong while the virtual machine was executing a chunk.
#[derive(Copy, Clone, Debug, PartialEq, Eq, Structural)]
pub enum FaultKind {
    /// An instruction needed more operands than the value stack held.
    StackUnderflow,
    /// An arithmetic instruction met a non-integer operand.
    TypeMismatch,
    /// A global variable was read before any value was bound to it.
    UndefinedGlobal,
    /// An instruction operand did not index a suitable constant.  The
    /// compiler never emits such an operand; this guards hand-built chunks.
    BadOperand,
}

/// An execution-time error: its kind and the source position of the
/// offending instruction, taken from the chunk's debug table.
#[derive(Copy, Clone, Debug, PartialEq, Eq, Structural)]
pub struct RuntimeFault {
    pub kind: FaultKind,
    pub row: usize,
    pub column: usize,
}

/// The error of running source text to completion: either compilation
/// failed, or the compiled chunk faulted at run time.
#[derive(Copy, Clone, Debug, PartialEq, Eq, Structural)]
pub enum InterpretError {
    Compile(Diagnostic),
    Runtime(RuntimeFault),
}

} // verus!
