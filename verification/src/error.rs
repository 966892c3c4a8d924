//! The ways in which reading a document can fail.

use crate::token::Token;
use vstd::prelude::*;

verus! {

/// Why a document was rejected.  Every failure ends the whole call; nothing
/// is recovered and no partial tree is returned.
#[derive(Copy, Clone, Debug, PartialEq, Eq)]
pub enum ParseError {
    /// The quote at `position` is never closed.
    UnterminatedString { position: usize },
    /// The bytes `fals` at `position` are not followed by `e`.
    IncompleteLiteral { position: usize },
    /// The numeric run `[start, end)` is no well-formed literal.
    MalformedNumber { start: usize, end: usize },
    /// The byte at `position` can start no token.
    UnexpectedByte { byte: u8, position: usize },
    /// A value had to start here, but the tokens had run out (`next` is
    /// `None`), or the next token starts no value.
    ExpectedValue { next: Option<Token> },
    /// The key of an object entry is no string.
    ExpectedStringKey { found: Token },
    /// The key of an object entry is not followed by a colon.
    ExpectedColon { found: Token },
    /// After an element of an array, or after an entry of an object
    /// (`in_object`), neither a comma nor the closing bracket follows.
    UnexpectedToken { found: Token, in_object: bool },
    /// The bytes `[start, end)` of a string, a key or a number are not valid
    /// UTF-8.
    InvalidTextEncoding { start: usize, end: usize },
    /// Tokens are left after the root value; `found` is the first of them.
    TrailingContent { found: Token },
}

} // verus!
