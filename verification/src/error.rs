//! The ways in which parsing fails.

use vstd::prelude::*;

verus! {

/// Why a parse was abandoned. No tree is produced beside it.
#[derive(Debug, PartialEq, Eq)]
pub enum ParseError {
    /// The input ended where a character, the rest of a literal or of a
    /// closing tag's name, or a closing quote was still to be read.
    UnexpectedEof,
    /// The input at byte offset `position` does not go on with `expected`.
    LiteralMismatch { expected: String, position: usize },
    /// An attribute value is not enclosed in a pair of equal quotes: it does
    /// not begin with a quote, or its closing quote is missing and a quote of
    /// the other kind follows.
    QuoteMismatch,
    /// The input behind `</` does not go on with the name of the opening
    /// tag.
    TagMismatch,
}

/// The mathematical value of a [`ParseError`].
pub enum Failure {
    UnexpectedEof,
    LiteralMismatch { expected: Seq<char>, position: nat },
    QuoteMismatch,
    TagMismatch,
}

impl View for ParseError {
    type V = Failure;

    open spec fn view(&self) -> Failure {
        match self {
            ParseError::UnexpectedEof => Failure::UnexpectedEof,
            ParseError::LiteralMismatch { expected, position } => Failure::LiteralMismatch {
                expected: expected@,
                position: *position as nat,
            },
            ParseError::QuoteMismatch => Failure::QuoteMismatch,
            ParseError::TagMismatch => Failure::TagMismatch,
        }
    }
}

} // verus!
