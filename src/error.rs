use vstd::prelude::*;

verus! {

/// What went wrong when the scanner stopped.
#[derive(Debug, Clone, Copy, PartialEq, Eq, Structural)]
pub enum ErrorKind {
    /// A byte that begins no token, or that cannot follow a conversion keyword.
    UnrecognizedByte(u8),
    /// The source ended where a conversion keyword needed its argument.
    UnexpectedEnd,
    /// A string literal, quoted argument or docstring was never closed.
    Unterminated,
    /// A run of digits whose value does not fit in an `i32`.
    NumberOverflow,
}

/// A failure of the scanner: its kind and the byte offset it concerns.
#[derive(Debug, Clone, Copy, PartialEq, Eq, Structural)]
pub struct LexError {
    pub kind: ErrorKind,
    pub position: usize,
}

} // verus!
