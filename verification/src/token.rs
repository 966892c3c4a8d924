//! Tokens: the lexical units that the tokenizer hands to the parser.

use crate::number::is_number_literal;
use crate::text::decimal;
use crate::text::decimal_text;
use vstd::string::StringExecFns;
use vstd::prelude::*;

verus! {

/// The byte that opens and closes a string.
pub const QUOTE: u8 = 34;

/// A lexical unit.  Strings and numbers do not own their text: they hold the
/// half-open byte range `[start, end)` of the buffer that they were read
/// from, so a token is only meaningful together with that buffer.
#[derive(Copy, Clone, Debug, PartialEq, Eq, Structural)]
pub enum Token {
    LeftBrace,
    RightBrace,
    LeftBracket,
    RightBracket,
    Comma,
    Colon,
    NullVal,
    /// The bytes strictly between an opening and a closing quote.
    StringVal(usize, usize),
    /// The bytes of a well-formed numeric literal.
    NumVal(usize, usize),
    BoolVal(bool),
}

impl Token {
    /// The token agrees with `buf`: a string's range lies in the buffer, is
    /// enclosed by two quotes and holds none; a number's range lies in the
    /// buffer and holds a well-formed literal.
    pub open spec fn valid_for(self, buf: Seq<u8>) -> bool {
        match self {
            Token::StringVal(start, end) => {
                &&& 0 < start <= end < buf.len()
                &&& buf[start - 1] == QUOTE
                &&& buf[end as int] == QUOTE
                &&& forall|k: int| start <= k < end ==> #[trigger] buf[k] != QUOTE
            },
            Token::NumVal(start, end) => {
                &&& start < end <= buf.len()
                &&& is_number_literal(buf.subrange(start as int, end as int))
            },
            _ => true,
        }
    }

    /// How the token is shown in a message: a symbol or a literal by its
    /// text, a string or a number by its range.
    pub open spec fn text_spec(self) -> Seq<char> {
        match self {
            Token::LeftBrace => "Token('{')"@,
            Token::RightBrace => "Token('}')"@,
            Token::LeftBracket => "Token('[')"@,
            Token::RightBracket => "Token(']')"@,
            Token::Comma => "Token(',')"@,
            Token::Colon => "Token(':')"@,
            Token::NullVal => "Token('null')"@,
            Token::StringVal(start, end) => "Token(str_range:["@ + decimal(start as nat) + ":"@ + decimal(
                end as nat,
            ) + "])"@,
            Token::NumVal(start, end) => "Token(num_range:["@ + decimal(start as nat) + ":"@ + decimal(
                end as nat,
            ) + "])"@,
            Token::BoolVal(b) => if b {
                "Token('true')"@
            } else {
                "Token('false')"@
            },
        }
    }

    /// Shows the token as a message would.
    pub fn text(&self) -> (text: String)
        ensures
            text@ == self.text_spec(),
    {
        match self {
            Token::LeftBrace => String::from_str("Token('{')"),
            Token::RightBrace => String::from_str("Token('}')"),
            Token::LeftBracket => String::from_str("Token('[')"),
            Token::RightBracket => String::from_str("Token(']')"),
            Token::Comma => String::from_str("Token(',')"),
            Token::Colon => String::from_str("Token(':')"),
            Token::NullVal => String::from_str("Token('null')"),
            Token::StringVal(start, end) => range_text("Token(str_range:[", *start, *end),
            Token::NumVal(start, end) => range_text("Token(num_range:[", *start, *end),
            Token::BoolVal(b) => if *b {
                String::from_str("Token('true')")
            } else {
                String::from_str("Token('false')")
            },
        }
    }

    /// The token stands for a whole value by itself.
    pub open spec fn is_leaf(self) -> bool {
        match self {
            Token::NullVal | Token::BoolVal(_) | Token::StringVal(_, _) | Token::NumVal(_, _) => true,
            _ => false,
        }
    }
}

/// The text `head`, the two ends of a range with a colon between them, and
/// the closing brackets.
fn range_text(head: &str, start: usize, end: usize) -> (text: String)
    ensures
        text@ == head@ + decimal(start as nat) + ":"@ + decimal(end as nat) + "])"@,
{
    let mut text: String = String::from_str(head);
    text.append(decimal_text(start).as_str());
    text.append(":");
    text.append(decimal_text(end).as_str());
    text.append("])");
    text
}

/// Every token of `tokens` agrees with `buf`.
pub open spec fn tokens_valid(tokens: Seq<Token>, buf: Seq<u8>) -> bool {
    forall|k: int| 0 <= k < tokens.len() ==> (#[trigger] tokens[k]).valid_for(buf)
}

} // verus!
