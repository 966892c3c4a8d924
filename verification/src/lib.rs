//! A small JSON reader: a byte buffer is cut into tokens by [`lexer::Lexer`],
//! and the tokens are turned into a [`value::JSONValue`] tree by the
//! recursive-descent functions of [`parser`].
//!
//! Every executable function is verified against a mathematical description
//! of its result: [`lexer::lex_spec`] for the tokenizer, and
//! [`parser::parse_spec`] for the whole pipeline.

pub mod error;
pub mod laws;
pub mod lexer;
pub mod number;
pub mod parser;
pub mod text;
pub mod token;
pub mod value;

pub use crate::error::ParseError;
pub use crate::lexer::Lexer;
pub use crate::parser::parse;
pub use crate::parser::parse_array;
pub use crate::parser::parse_dict;
pub use crate::parser::parse_dict_entry;
pub use crate::parser::parse_value;
pub use crate::token::Token;
pub use crate::value::JSONValue;
