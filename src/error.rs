//! What can go wrong while assembling.
use vstd::prelude::*;

verus! {

/// An assembly error. Lines and words are counted from 1.
#[derive(Clone, Copy, Debug, PartialEq, Eq, Structural)]
pub enum AsmError {
    /// A word that starts with `0x` or `&` is not a 16-bit hex number.
    BadNumericLiteral { line: usize, word: usize },
    /// A line starts with a token that cannot begin one, an instruction has
    /// a number of operands that none of its forms has, or a directive is malformed.
    SyntaxError { line: usize },
    /// An instruction has as many operands as one of its forms, but they fit none of them.
    BadOperand { line: usize },
    /// A label is defined a second time.
    DuplicateLabel { line: usize },
    /// Bytes would be placed past `0xFFFF`.
    AddressOverflow { line: usize },
    /// An operand names a label that is never defined.
    UnresolvedReference { line: usize },
}

impl AsmError {
    /// The line that the error is on.
    pub fn line(&self) -> (r: usize)
        ensures
            r == match *self {
                AsmError::BadNumericLiteral { line, .. } => line,
                AsmError::SyntaxError { line } => line,
                AsmError::BadOperand { line } => line,
                AsmError::DuplicateLabel { line } => line,
                AsmError::AddressOverflow { line } => line,
                AsmError::UnresolvedReference { line } => line,
            },
    {
        match *self {
            AsmError::BadNumericLiteral { line, .. } => line,
            AsmError::SyntaxError { line } => line,
            AsmError::BadOperand { line } => line,
            AsmError::DuplicateLabel { line } => line,
            AsmError::AddressOverflow { line } => line,
            AsmError::UnresolvedReference { line } => line,
        }
    }
}

} // verus!
