//! Typed recognition errors, each carrying the source position that a reader
//! needs to point at the offending glyph.
//!
//! Positions live only on the error type. The [`Block`](crate::Block) tree is
//! deliberately span-free so it stays portable structure.

use vstd::prelude::*;

use crate::block::Delimiter;

verus! {

/// A byte-and-line position in the recognized source.
#[derive(Clone, Copy, Debug, PartialEq, Eq, Structural)]
pub struct SourcePosition {
    pub byte_offset: usize,
    pub line: usize,
    pub column: usize,
}

/// Every way raw recognition can reject a source. Each variant is a
/// structural fault — an unbalanced delimiter, a dangling dot-application, or
/// a glyph the active profile does not admit — never a "wrong type" or
/// "unknown name".
#[derive(Clone, Copy, Debug, PartialEq, Eq, Structural)]
pub enum RecognizeError {
    /// A closing delimiter appeared with no matching opener at this position.
    UnexpectedClose { found: char, position: SourcePosition },
    /// A delimiter opened here was never closed before the end of input.
    UnclosedDelimiter { delimiter: Delimiter, position: SourcePosition },
    /// A `(|` pipe-text block opened here was never closed by `|)`.
    UnclosedPipeText { position: SourcePosition },
    /// A period appeared at object position with no head to its left.
    UnexpectedDot { position: SourcePosition },
    /// A dot-application period is not immediately followed by a glued payload.
    DanglingApplication { position: SourcePosition },
    /// An atom bears a glyph that the active profile's glyph set does not admit.
    UnsupportedGlyph { glyph: char, position: SourcePosition },
}

} // verus!
