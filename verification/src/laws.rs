//! What holds of every document: theorems about [`lex_spec`] and
//! [`parse_spec`], the functions that the executable code is proved to
//! compute.

use crate::error::ParseError;
use crate::lexer::false_stem;
use crate::lexer::is_number_byte;
use crate::lexer::is_number_start;
use crate::lexer::lemma_lex_from_valid;
use crate::lexer::lemma_number_end_is;
use crate::lexer::lemma_quote_end_is;
use crate::lexer::lex_from;
use crate::lexer::lex_spec;
use crate::lexer::literal_token;
use crate::lexer::null_word;
use crate::lexer::scan_at;
use crate::lexer::true_word;
use crate::lexer::word_end;
use crate::lexer::Scan;
use crate::lexer::LEFT_BRACE;
use crate::lexer::LEFT_BRACKET;
use crate::lexer::LETTER_E;
use crate::lexer::RIGHT_BRACE;
use crate::lexer::RIGHT_BRACKET;
use crate::number::after_mark;
use crate::number::after_point;
use crate::number::after_sign;
use crate::number::all_digits;
use crate::number::digits_end;
use crate::number::is_digit;
use crate::number::is_number_literal;
use crate::number::lemma_digits_end;
use crate::number::lemma_digits_end_is;
use crate::number::EXPONENT_MARK;
use crate::number::MINUS;
use crate::number::POINT;
use crate::parser::parse_spec;
use crate::parser::parse_value_spec;
use crate::text::lemma_ascii_is_utf8;
use crate::text::text_spec;
use crate::token::tokens_valid;
use crate::token::Token;
use crate::token::QUOTE;
use crate::value::Json;
use vstd::prelude::*;
use vstd::utf8::decode_utf8;
use vstd::utf8::encode_utf8;
use vstd::utf8::valid_utf8;

verus! {

/// Every token that the tokenizer yields agrees with the buffer: the range
/// of a string lies within the buffer, between two quotes, and holds none;
/// the range of a number holds a well-formed literal.
pub proof fn lemma_tokens_agree_with_buffer(buf: Seq<u8>)
    requires
        buf.len() <= usize::MAX,
    ensures
        lex_spec(buf) matches Ok(tokens) ==> tokens_valid(tokens, buf),
{
    lemma_lex_from_valid(buf, 0);
}

/// A literal token at the front of the tokens is a value by itself: the
/// value is the leaf that the token names, and exactly that one token is
/// taken.
pub proof fn lemma_literal_token_is_leaf(tokens: Seq<Token>, buf: Seq<u8>)
    requires
        tokens.len() > 0,
    ensures
        tokens[0] == Token::NullVal ==> parse_value_spec(tokens, buf) == Ok::<
            (Json, Seq<Token>),
            ParseError,
        >((Json::Null, tokens.skip(1))),
        forall|b: bool|
            tokens[0] == Token::BoolVal(b) ==> parse_value_spec(tokens, buf) == Ok::<
                (Json, Seq<Token>),
                ParseError,
            >((Json::Bool(b), tokens.skip(1))),
{
}

/// The five bytes of `false`.
pub open spec fn false_word() -> Seq<u8> {
    false_stem().push(LETTER_E)
}

/// The documents `null`, `true` and `false` are the three leaves that they
/// name.
pub proof fn lemma_literal_documents()
    ensures
        parse_spec(null_word()) == Ok::<Json, ParseError>(Json::Null),
        parse_spec(true_word()) == Ok::<Json, ParseError>(Json::Bool(true)),
        parse_spec(false_word()) == Ok::<Json, ParseError>(Json::Bool(false)),
{
    let n = null_word();
    assert(n.subrange(0, 4) =~= n);
    assert(lex_from(n, 4) == Ok::<Seq<Token>, ParseError>(Seq::empty()));
    assert(scan_at(n, 0) == Scan::Emit { token: Token::NullVal, next: 4 });
    assert(seq![Token::NullVal] + Seq::<Token>::empty() =~= seq![Token::NullVal]);
    assert(lex_spec(n) == Ok::<Seq<Token>, ParseError>(seq![Token::NullVal]));
    assert(seq![Token::NullVal].skip(1).len() == 0);

    let t = true_word();
    assert(t.subrange(0, 4) =~= t);
    assert(t[0] != null_word()[0]);
    assert(lex_from(t, 4) == Ok::<Seq<Token>, ParseError>(Seq::empty()));
    assert(scan_at(t, 0) == Scan::Emit { token: Token::BoolVal(true), next: 4 });
    assert(seq![Token::BoolVal(true)] + Seq::<Token>::empty() =~= seq![Token::BoolVal(true)]);
    assert(lex_spec(t) == Ok::<Seq<Token>, ParseError>(seq![Token::BoolVal(true)]));
    assert(seq![Token::BoolVal(true)].skip(1).len() == 0);

    let f = false_word();
    assert(f.subrange(0, 4) =~= false_stem());
    assert(false_stem()[0] != null_word()[0]);
    assert(false_stem()[0] != true_word()[0]);
    assert(lex_from(f, 5) == Ok::<Seq<Token>, ParseError>(Seq::empty()));
    assert(scan_at(f, 0) == Scan::Emit { token: Token::BoolVal(false), next: 5 });
    assert(seq![Token::BoolVal(false)] + Seq::<Token>::empty() =~= seq![Token::BoolVal(false)]);
    assert(lex_spec(f) == Ok::<Seq<Token>, ParseError>(seq![Token::BoolVal(false)]));
    assert(seq![Token::BoolVal(false)].skip(1).len() == 0);
}

/// A well-formed numeric literal holds digits, a decimal point and an
/// exponent mark only, but for a minus sign that may stand in front.
pub proof fn lemma_number_literal_bytes(s: Seq<u8>)
    requires
        is_number_literal(s),
    ensures
        s.len() > 0,
        s[0] == MINUS || is_number_byte(s[0]),
        forall|k: int| 1 <= k < s.len() ==> is_number_byte(#[trigger] s[k]),
        forall|k: int| 0 <= k < s.len() ==> #[trigger] s[k] < 128,
{
    let a = after_sign(s);
    lemma_digits_end(s, a);
    let c = after_point(s);
    lemma_digits_end(s, c);
    let e = after_mark(s);
    lemma_digits_end(s, e);
    let b = digits_end(s, a);
    let d = digits_end(s, c);
    assert forall|k: int| a <= k < s.len() implies is_number_byte(#[trigger] s[k]) by {
        if k < b {
        } else if k < c {
        } else if k < d {
        } else if k < e {
        } else {
        }
    }
}

/// The document `[]` is the empty array, and the document `{}` is the empty
/// object.
pub proof fn lemma_empty_containers()
    ensures
        parse_spec(seq![LEFT_BRACKET, RIGHT_BRACKET]) == Ok::<Json, ParseError>(Json::Array(Seq::empty())),
        parse_spec(seq![LEFT_BRACE, RIGHT_BRACE]) == Ok::<Json, ParseError>(Json::Dict(Map::empty())),
{
    let a = seq![LEFT_BRACKET, RIGHT_BRACKET];
    let array_tokens = seq![Token::LeftBracket, Token::RightBracket];
    assert(lex_from(a, 2) == Ok::<Seq<Token>, ParseError>(Seq::empty()));
    assert(lex_from(a, 1) == Ok::<Seq<Token>, ParseError>(seq![Token::RightBracket])) by {
        assert(seq![Token::RightBracket] + Seq::<Token>::empty() =~= seq![Token::RightBracket]);
    }
    assert(lex_spec(a) == Ok::<Seq<Token>, ParseError>(array_tokens)) by {
        assert(seq![Token::LeftBracket] + seq![Token::RightBracket] =~= array_tokens);
    }
    assert(array_tokens.skip(1)[0] == Token::RightBracket);
    assert(array_tokens.skip(1).skip(1).len() == 0);

    let d = seq![LEFT_BRACE, RIGHT_BRACE];
    let dict_tokens = seq![Token::LeftBrace, Token::RightBrace];
    assert(lex_from(d, 2) == Ok::<Seq<Token>, ParseError>(Seq::empty()));
    assert(lex_from(d, 1) == Ok::<Seq<Token>, ParseError>(seq![Token::RightBrace])) by {
        assert(seq![Token::RightBrace] + Seq::<Token>::empty() =~= seq![Token::RightBrace]);
    }
    assert(lex_spec(d) == Ok::<Seq<Token>, ParseError>(dict_tokens)) by {
        assert(seq![Token::LeftBrace] + seq![Token::RightBrace] =~= dict_tokens);
    }
    assert(dict_tokens.skip(1)[0] == Token::RightBrace);
    assert(dict_tokens.skip(1).skip(1).len() == 0);
}

/// The text of a number token that agrees with the buffer can always be
/// read: it is valid UTF-8.
pub proof fn lemma_number_token_has_text(buf: Seq<u8>, start: usize, end: usize)
    requires
        Token::NumVal(start, end).valid_for(buf),
    ensures
        text_spec(buf, start as int, end as int) is Ok,
{
    let s = buf.subrange(start as int, end as int);
    lemma_number_literal_bytes(s);
    lemma_ascii_is_utf8(s);
}

/// The bytes of a number in the common notation: an optional minus sign, the
/// digits `whole`, then, if `fraction` is there, a decimal point and its
/// digits, then, if `exponent` is there, the letter `e` and its digits.
pub open spec fn number_notation(
    negative: bool,
    whole: Seq<u8>,
    fraction: Option<Seq<u8>>,
    exponent: Option<Seq<u8>>,
) -> Seq<u8> {
    let sign = if negative {
        seq![MINUS]
    } else {
        Seq::empty()
    };
    let fraction_part = match fraction {
        Some(digits) => seq![POINT] + digits,
        None => Seq::empty(),
    };
    let exponent_part = match exponent {
        Some(digits) => seq![EXPONENT_MARK] + digits,
        None => Seq::empty(),
    };
    sign + whole + fraction_part + exponent_part
}

/// The parts of a number in the common notation are digits, and none of the
/// parts that are there is empty.
pub open spec fn notation_parts_ok(
    whole: Seq<u8>,
    fraction: Option<Seq<u8>>,
    exponent: Option<Seq<u8>>,
) -> bool {
    &&& whole.len() > 0
    &&& all_digits(whole)
    &&& fraction matches Some(digits) ==> digits.len() > 0 && all_digits(digits)
    &&& exponent matches Some(digits) ==> digits.len() > 0 && all_digits(digits)
}

/// A number in the common notation is a well-formed literal.
pub proof fn lemma_notation_is_literal(
    negative: bool,
    whole: Seq<u8>,
    fraction: Option<Seq<u8>>,
    exponent: Option<Seq<u8>>,
)
    requires
        notation_parts_ok(whole, fraction, exponent),
    ensures
        is_number_literal(number_notation(negative, whole, fraction, exponent)),
        is_number_start(number_notation(negative, whole, fraction, exponent)[0]),
{
    let s = number_notation(negative, whole, fraction, exponent);
    let a: int = if negative {
        1
    } else {
        0
    };
    let b = a + whole.len();
    let c: int = if fraction is Some {
        b + 1
    } else {
        b
    };
    let d: int = match fraction {
        Some(digits) => c + digits.len(),
        None => c,
    };
    let e: int = if exponent is Some {
        d + 1
    } else {
        d
    };
    let f: int = match exponent {
        Some(digits) => e + digits.len(),
        None => e,
    };
    assert(s.len() == f);
    assert forall|k: int| a <= k < b implies is_digit(#[trigger] s[k]) by {
        assert(s[k] == whole[k - a]);
    }
    assert(s[a] == whole[0]);
    assert(is_digit(s[a]));
    assert(after_sign(s) == a);
    if let Some(digits) = fraction {
        assert(s[b] == POINT);
        assert forall|k: int| c <= k < d implies is_digit(#[trigger] s[k]) by {
            assert(s[k] == digits[k - c]);
        }
    }
    if let Some(digits) = exponent {
        assert(s[d] == EXPONENT_MARK);
        assert forall|k: int| e <= k < f implies is_digit(#[trigger] s[k]) by {
            assert(s[k] == digits[k - e]);
        }
    }
    if b < s.len() {
        assert(s[b] == POINT || s[b] == EXPONENT_MARK);
    }
    lemma_digits_end_is(s, a, b);
    assert(after_point(s) == c);
    if d < s.len() {
        assert(s[d] == EXPONENT_MARK);
    }
    lemma_digits_end_is(s, c, d);
    assert(after_mark(s) == e);
    lemma_digits_end_is(s, e, f);
}

/// A document that is one well-formed numeric literal is a number, and the
/// number holds the text of the literal, byte for byte: whoever decodes the
/// number decodes the literal.
pub proof fn lemma_number_document(s: Seq<u8>)
    requires
        is_number_literal(s),
        is_number_start(s[0]),
        s.len() <= usize::MAX,
    ensures
        valid_utf8(s),
        encode_utf8(decode_utf8(s)) == s,
        parse_spec(s) == Ok::<Json, ParseError>(Json::Num(decode_utf8(s))),
{
    lemma_number_literal_bytes(s);
    lemma_ascii_is_utf8(s);
    vstd::utf8::decode_utf8_encode_utf8(s);
    let n = s.len() as int;
    lemma_number_end_is(s, 1, n);
    let word = s.subrange(0, word_end(s, 0));
    assert(literal_token(word) is None) by {
        if word.len() == 4 {
            assert(word[0] == s[0]);
            assert(null_word()[0] == 110 && true_word()[0] == 116 && false_stem()[0] == 102);
        } else {
            assert(null_word().len() == 4 && true_word().len() == 4 && false_stem().len() == 4);
        }
    }
    assert(s.subrange(0, n) =~= s);
    let token = Token::NumVal(0usize, n as usize);
    assert(scan_at(s, 0) == Scan::Emit { token, next: n });
    assert(lex_from(s, n) == Ok::<Seq<Token>, ParseError>(Seq::empty()));
    assert(seq![token] + Seq::<Token>::empty() =~= seq![token]);
    assert(lex_spec(s) == Ok::<Seq<Token>, ParseError>(seq![token]));
    assert(seq![token].skip(1).len() == 0);
}

/// A document that is a number in the common notation is a number that
/// holds the text of the document.
pub proof fn lemma_notation_document(
    negative: bool,
    whole: Seq<u8>,
    fraction: Option<Seq<u8>>,
    exponent: Option<Seq<u8>>,
)
    requires
        notation_parts_ok(whole, fraction, exponent),
        number_notation(negative, whole, fraction, exponent).len() <= usize::MAX,
    ensures
        parse_spec(number_notation(negative, whole, fraction, exponent)) == Ok::<Json, ParseError>(
            Json::Num(decode_utf8(number_notation(negative, whole, fraction, exponent))),
        ),
        encode_utf8(decode_utf8(number_notation(negative, whole, fraction, exponent)))
            == number_notation(negative, whole, fraction, exponent),
{
    lemma_notation_is_literal(negative, whole, fraction, exponent);
    lemma_number_document(number_notation(negative, whole, fraction, exponent));
}

/// The bytes `text` between two quotes.
pub open spec fn quoted(text: Seq<u8>) -> Seq<u8> {
    seq![QUOTE] + text + seq![QUOTE]
}

/// A document that is a text without a quote, put between two quotes, is the
/// string of that text, unchanged: nothing in it is treated as an escape.
/// The text has to be valid UTF-8 (see `lemma_quoted_invalid_text`).
pub proof fn lemma_string_document(text: Seq<u8>)
    requires
        forall|k: int| 0 <= k < text.len() ==> #[trigger] text[k] != QUOTE,
        valid_utf8(text),
        text.len() + 2 <= usize::MAX,
    ensures
        parse_spec(quoted(text)) == Ok::<Json, ParseError>(Json::Str(decode_utf8(text))),
{
    let buf = quoted(text);
    let n = text.len() as int;
    let token = Token::StringVal(1usize, (n + 1) as usize);
    lemma_quoted_is_one_token(text);
    assert(buf.subrange(1, n + 1) =~= text);
    assert(seq![token].skip(1).len() == 0);
}

/// A document that is a text without a quote, put between two quotes, is
/// rejected when the text is not valid UTF-8.
pub proof fn lemma_quoted_invalid_text(text: Seq<u8>)
    requires
        forall|k: int| 0 <= k < text.len() ==> #[trigger] text[k] != QUOTE,
        !valid_utf8(text),
        text.len() + 2 <= usize::MAX,
    ensures
        parse_spec(quoted(text)) == Err::<Json, ParseError>(
            ParseError::InvalidTextEncoding { start: 1, end: (text.len() + 1) as usize },
        ),
{
    let buf = quoted(text);
    let n = text.len() as int;
    lemma_quoted_is_one_token(text);
    assert(buf.subrange(1, n + 1) =~= text);
}

/// A text without a quote, put between two quotes, is one string token.
pub proof fn lemma_quoted_is_one_token(text: Seq<u8>)
    requires
        forall|k: int| 0 <= k < text.len() ==> #[trigger] text[k] != QUOTE,
        text.len() + 2 <= usize::MAX,
    ensures
        lex_spec(quoted(text)) == Ok::<Seq<Token>, ParseError>(
            seq![Token::StringVal(1usize, (text.len() + 1) as usize)],
        ),
{
    let buf = quoted(text);
    let n = text.len() as int;
    assert(buf.len() == n + 2);
    assert(buf[0] == QUOTE);
    assert(buf[n + 1] == QUOTE);
    assert forall|k: int| 1 <= k < n + 1 implies #[trigger] buf[k] != QUOTE by {
        assert(buf[k] == text[k - 1]);
    }
    lemma_quote_end_is(buf, 1, n + 1);
    let token = Token::StringVal(1usize, (n + 1) as usize);
    assert(scan_at(buf, 0) == Scan::Emit { token, next: n + 2 });
    assert(lex_from(buf, n + 2) == Ok::<Seq<Token>, ParseError>(Seq::empty()));
    assert(seq![token] + Seq::<Token>::empty() =~= seq![token]);
}

} // verus!
