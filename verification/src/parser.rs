//! The parser: recursive descent over the tokens, one function for each
//! production of the grammar.
//!
//! ```text
//! value   = null | bool | number | string | '[' array | '{' object
//! array   = ']' | value (',' value)* ']'
//! object  = '}' | entry (',' entry)* '}'
//! entry   = string ':' value
//! ```
//!
//! Each production has a specification function on sequences of tokens, and
//! an executable function that is proved to compute it.  A production reads
//! the tokens from the front and returns what it built together with the
//! tokens that it left.

use crate::error::ParseError;
use crate::lexer::lex_spec;
use crate::lexer::Lexer;
use crate::text::materialize;
use crate::text::text_spec;
use crate::token::tokens_valid;
use crate::token::Token;
use crate::value::distinct_keys;
use crate::value::entries_view;
use crate::value::insert_entry;
use crate::value::items_view;
use crate::value::lemma_pairs_to_map_push;
use crate::value::pairs_to_map;
use crate::value::values_wf;
use crate::value::JSONValue;
use crate::value::Json;
use vstd::prelude::*;
use vstd::slice::slice_subrange;
use vstd::utf8::decode_utf8_encode_utf8;

verus! {

/// The value that starts at the front of `tokens`, and the tokens after it.
pub open spec fn parse_value_spec(tokens: Seq<Token>, buf: Seq<u8>) -> Result<
    (Json, Seq<Token>),
    ParseError,
>
    decreases tokens.len(), 0nat,
{
    if tokens.len() == 0 {
        Err(ParseError::ExpectedValue { next: None })
    } else {
        let rest = tokens.skip(1);
        match tokens[0] {
            Token::BoolVal(b) => Ok((Json::Bool(b), rest)),
            Token::NullVal => Ok((Json::Null, rest)),
            Token::NumVal(start, end) => match text_spec(buf, start as int, end as int) {
                Ok(text) => Ok((Json::Num(text), rest)),
                Err(error) => Err(error),
            },
            Token::StringVal(start, end) => match text_spec(buf, start as int, end as int) {
                Ok(text) => Ok((Json::Str(text), rest)),
                Err(error) => Err(error),
            },
            Token::LeftBrace => parse_dict_spec(rest, buf),
            Token::LeftBracket => parse_array_spec(rest, buf),
            other => Err(ParseError::ExpectedValue { next: Some(other) }),
        }
    }
}

/// The array whose opening bracket stood just before `tokens`.
pub open spec fn parse_array_spec(tokens: Seq<Token>, buf: Seq<u8>) -> Result<
    (Json, Seq<Token>),
    ParseError,
>
    decreases tokens.len(), 2nat,
{
    if tokens.len() == 0 {
        Err(ParseError::ExpectedValue { next: None })
    } else if tokens[0] == Token::RightBracket {
        Ok((Json::Array(Seq::empty()), tokens.skip(1)))
    } else {
        match array_items_spec(tokens, buf) {
            Ok((items, rest)) => Ok((Json::Array(items), rest)),
            Err(error) => Err(error),
        }
    }
}

/// The elements of an array that is not empty, up to and with its closing
/// bracket, and the tokens after the bracket.
pub open spec fn array_items_spec(tokens: Seq<Token>, buf: Seq<u8>) -> Result<
    (Seq<Json>, Seq<Token>),
    ParseError,
>
    decreases tokens.len(), 1nat,
{
    match parse_value_spec(tokens, buf) {
        Err(error) => Err(error),
        Ok((value, rest)) => {
            if rest.len() == 0 {
                Err(ParseError::ExpectedValue { next: None })
            } else if rest[0] == Token::RightBracket {
                Ok((seq![value], rest.skip(1)))
            } else if rest[0] == Token::Comma {
                // A value takes at least one token (`lemma_value_consumes`),
                // so the test below never fails; it shows that the
                // recursion ends.
                if rest.len() <= tokens.len() {
                    items_then(seq![value], array_items_spec(rest.skip(1), buf))
                } else {
                    Err(ParseError::ExpectedValue { next: None })
                }
            } else {
                Err(ParseError::UnexpectedToken { found: rest[0], in_object: false })
            }
        },
    }
}

/// The elements `first` followed by those of `then`, or the error of `then`.
pub open spec fn items_then(first: Seq<Json>, then: Result<(Seq<Json>, Seq<Token>), ParseError>) -> Result<
    (Seq<Json>, Seq<Token>),
    ParseError,
> {
    match then {
        Ok((more, rest)) => Ok((first + more, rest)),
        Err(error) => Err(error),
    }
}

/// The object whose opening brace stood just before `tokens`.  Of two
/// entries with one key the later one stays.
pub open spec fn parse_dict_spec(tokens: Seq<Token>, buf: Seq<u8>) -> Result<
    (Json, Seq<Token>),
    ParseError,
>
    decreases tokens.len(), 3nat,
{
    if tokens.len() == 0 {
        Err(ParseError::ExpectedValue { next: None })
    } else if tokens[0] == Token::RightBrace {
        Ok((Json::Dict(Map::empty()), tokens.skip(1)))
    } else {
        match dict_entries_spec(tokens, buf) {
            Ok((pairs, rest)) => Ok((Json::Dict(pairs_to_map(pairs)), rest)),
            Err(error) => Err(error),
        }
    }
}

/// The entries of an object that is not empty, in the order in which they
/// are written, up to and with its closing brace, and the tokens after the
/// brace.
pub open spec fn dict_entries_spec(tokens: Seq<Token>, buf: Seq<u8>) -> Result<
    (Seq<(Seq<char>, Json)>, Seq<Token>),
    ParseError,
>
    decreases tokens.len(), 2nat,
{
    match parse_dict_entry_spec(tokens, buf) {
        Err(error) => Err(error),
        Ok((pair, rest)) => {
            if rest.len() == 0 {
                Err(ParseError::ExpectedValue { next: None })
            } else if rest[0] == Token::RightBrace {
                Ok((seq![pair], rest.skip(1)))
            } else if rest[0] == Token::Comma {
                // An entry takes at least three tokens
                // (`lemma_entry_consumes`), so the test below never fails;
                // it shows that the recursion ends.
                if rest.len() <= tokens.len() {
                    pairs_then(seq![pair], dict_entries_spec(rest.skip(1), buf))
                } else {
                    Err(ParseError::ExpectedValue { next: None })
                }
            } else {
                Err(ParseError::UnexpectedToken { found: rest[0], in_object: true })
            }
        },
    }
}

/// The entries `first` followed by those of `then`, or the error of `then`.
pub open spec fn pairs_then(
    first: Seq<(Seq<char>, Json)>,
    then: Result<(Seq<(Seq<char>, Json)>, Seq<Token>), ParseError>,
) -> Result<(Seq<(Seq<char>, Json)>, Seq<Token>), ParseError> {
    match then {
        Ok((more, rest)) => Ok((first + more, rest)),
        Err(error) => Err(error),
    }
}

/// One entry of an object: a string, a colon and a value.  An entry needs
/// three tokens at least; with fewer left, a value is missing.
pub open spec fn parse_dict_entry_spec(tokens: Seq<Token>, buf: Seq<u8>) -> Result<
    ((Seq<char>, Json), Seq<Token>),
    ParseError,
>
    decreases tokens.len(), 1nat,
{
    if tokens.len() < 3 {
        Err(ParseError::ExpectedValue { next: None })
    } else {
        match tokens[0] {
            Token::StringVal(start, end) => match text_spec(buf, start as int, end as int) {
                Err(error) => Err(error),
                Ok(key) => {
                    if tokens[1] != Token::Colon {
                        Err(ParseError::ExpectedColon { found: tokens[1] })
                    } else {
                        match parse_value_spec(tokens.skip(2), buf) {
                            Ok((value, rest)) => Ok(((key, value), rest)),
                            Err(error) => Err(error),
                        }
                    }
                },
            },
            other => Err(ParseError::ExpectedStringKey { found: other }),
        }
    }
}

/// What a buffer holds: its tokens form exactly one value.
pub open spec fn parse_spec(buf: Seq<u8>) -> Result<Json, ParseError> {
    match lex_spec(buf) {
        Err(error) => Err(error),
        Ok(tokens) => match parse_value_spec(tokens, buf) {
            Err(error) => Err(error),
            Ok((value, rest)) => {
                if rest.len() > 0 {
                    Err(ParseError::TrailingContent { found: rest[0] })
                } else {
                    Ok(value)
                }
            },
        },
    }
}

/// `rest` is what is left of `tokens` after some of them, at least one, were
/// taken from the front.
pub open spec fn is_rest_of(rest: Seq<Token>, tokens: Seq<Token>) -> bool {
    &&& rest.len() < tokens.len()
    &&& rest == tokens.skip(tokens.len() - rest.len())
}

/// What is left of what is left of `tokens` is left of `tokens`.
pub proof fn lemma_rest_of_rest(inner: Seq<Token>, middle: Seq<Token>, tokens: Seq<Token>, n: int)
    requires
        is_rest_of(inner, middle),
        0 <= n <= tokens.len(),
        middle == tokens.skip(n),
    ensures
        is_rest_of(inner, tokens),
{
    assert(tokens.skip(n).skip(middle.len() - inner.len()) =~= tokens.skip(tokens.len() - inner.len()));
}

/// A value takes at least one token, and what it leaves is the rest of the
/// tokens that it was given.
pub proof fn lemma_value_consumes(tokens: Seq<Token>, buf: Seq<u8>)
    ensures
        parse_value_spec(tokens, buf) matches Ok((_, rest)) ==> is_rest_of(rest, tokens),
    decreases tokens.len(), 0nat,
{
    if tokens.len() > 0 {
        let rest = tokens.skip(1);
        match tokens[0] {
            Token::LeftBrace => {
                lemma_dict_consumes(rest, buf);
                if let Ok((_, after)) = parse_dict_spec(rest, buf) {
                    lemma_rest_of_rest(after, rest, tokens, 1);
                }
            },
            Token::LeftBracket => {
                lemma_array_consumes(rest, buf);
                if let Ok((_, after)) = parse_array_spec(rest, buf) {
                    lemma_rest_of_rest(after, rest, tokens, 1);
                }
            },
            _ => {},
        }
    }
}

/// An array takes at least its closing bracket.
pub proof fn lemma_array_consumes(tokens: Seq<Token>, buf: Seq<u8>)
    ensures
        parse_array_spec(tokens, buf) matches Ok((_, rest)) ==> is_rest_of(rest, tokens),
    decreases tokens.len(), 2nat,
{
    if tokens.len() > 0 && tokens[0] != Token::RightBracket {
        lemma_items_consume(tokens, buf);
    }
}

/// The elements of an array take at least two tokens.
pub proof fn lemma_items_consume(tokens: Seq<Token>, buf: Seq<u8>)
    ensures
        array_items_spec(tokens, buf) matches Ok((_, rest)) ==> is_rest_of(rest, tokens),
    decreases tokens.len(), 1nat,
{
    lemma_value_consumes(tokens, buf);
    if let Ok((_, rest)) = parse_value_spec(tokens, buf) {
        if rest.len() > 0 {
            let n = tokens.len() - rest.len();
            assert(rest.skip(1) =~= tokens.skip(n + 1));
            if rest[0] == Token::Comma {
                lemma_items_consume(rest.skip(1), buf);
                if let Ok((_, after)) = array_items_spec(rest.skip(1), buf) {
                    lemma_rest_of_rest(after, rest.skip(1), tokens, n + 1);
                }
            }
        }
    }
}

/// An object takes at least its closing brace.
pub proof fn lemma_dict_consumes(tokens: Seq<Token>, buf: Seq<u8>)
    ensures
        parse_dict_spec(tokens, buf) matches Ok((_, rest)) ==> is_rest_of(rest, tokens),
    decreases tokens.len(), 3nat,
{
    if tokens.len() > 0 && tokens[0] != Token::RightBrace {
        lemma_entries_consume(tokens, buf);
    }
}

/// The entries of an object take at least four tokens.
pub proof fn lemma_entries_consume(tokens: Seq<Token>, buf: Seq<u8>)
    ensures
        dict_entries_spec(tokens, buf) matches Ok((_, rest)) ==> is_rest_of(rest, tokens),
    decreases tokens.len(), 2nat,
{
    lemma_entry_consumes(tokens, buf);
    if let Ok((_, rest)) = parse_dict_entry_spec(tokens, buf) {
        if rest.len() > 0 {
            let n = tokens.len() - rest.len();
            assert(rest.skip(1) =~= tokens.skip(n + 1));
            if rest[0] == Token::Comma {
                lemma_entries_consume(rest.skip(1), buf);
                if let Ok((_, after)) = dict_entries_spec(rest.skip(1), buf) {
                    lemma_rest_of_rest(after, rest.skip(1), tokens, n + 1);
                }
            }
        }
    }
}

/// An entry takes at least three tokens.
pub proof fn lemma_entry_consumes(tokens: Seq<Token>, buf: Seq<u8>)
    ensures
        parse_dict_entry_spec(tokens, buf) matches Ok((_, rest)) ==> is_rest_of(rest, tokens),
    decreases tokens.len(), 1nat,
{
    if tokens.len() >= 3 {
        lemma_value_consumes(tokens.skip(2), buf);
        if let Ok((_, rest)) = parse_value_spec(tokens.skip(2), buf) {
            lemma_rest_of_rest(rest, tokens.skip(2), tokens, 2);
        }
    }
}

/// Tokens that agree with a buffer still do after some were taken from the
/// front.
pub proof fn lemma_rest_valid(rest: Seq<Token>, tokens: Seq<Token>, buf: Seq<u8>)
    requires
        tokens_valid(tokens, buf),
        rest.len() <= tokens.len(),
        rest == tokens.skip(tokens.len() - rest.len()),
    ensures
        tokens_valid(rest, buf),
{
    assert forall|k: int| 0 <= k < rest.len() implies (#[trigger] rest[k]).valid_for(buf) by {
        assert(rest[k] == tokens[k + (tokens.len() - rest.len())]);
    }
}

/// `result` is the executable form of `expected`, and the value in it
/// satisfies the invariant of a value tree.
pub open spec fn value_result_is(
    result: Result<(JSONValue, &[Token]), ParseError>,
    expected: Result<(Json, Seq<Token>), ParseError>,
) -> bool {
    match result {
        Ok((value, rest)) => {
            &&& expected == Ok::<(Json, Seq<Token>), ParseError>((value@, rest@))
            &&& value.wf()
        },
        Err(error) => expected == Err::<(Json, Seq<Token>), ParseError>(error),
    }
}

/// `result` is the executable form of `expected`, and the value in it
/// satisfies the invariant of a value tree.
pub open spec fn entry_result_is(
    result: Result<((String, JSONValue), &[Token]), ParseError>,
    expected: Result<((Seq<char>, Json), Seq<Token>), ParseError>,
) -> bool {
    match result {
        Ok(((key, value), rest)) => {
            &&& expected == Ok::<((Seq<char>, Json), Seq<Token>), ParseError>(((key@, value@), rest@))
            &&& value.wf()
        },
        Err(error) => expected == Err::<((Seq<char>, Json), Seq<Token>), ParseError>(error),
    }
}

/// Reads the array whose opening bracket stood just before `tokens`.
pub fn parse_array<'a>(tokens: &'a [Token], buf: &[u8]) -> (result: Result<
    (JSONValue, &'a [Token]),
    ParseError,
>)
    requires
        tokens_valid(tokens@, buf@),
    ensures
        value_result_is(result, parse_array_spec(tokens@, buf@)),
    decreases tokens@.len(), 2nat,
{
    let mut entries: Vec<JSONValue> = Vec::new();
    if tokens.len() == 0 {
        return Err(ParseError::ExpectedValue { next: None });
    }
    if tokens[0] == Token::RightBracket {
        assert(items_view(entries@) =~= Seq::<Json>::empty());
        return Ok((JSONValue::Array(entries), slice_subrange(tokens, 1, tokens.len())));
    }
    let mut cur: &[Token] = tokens;
    assert(items_view(entries@) + seq![] =~= seq![]);
    assert(items_then(items_view(entries@), array_items_spec(cur@, buf@)) == array_items_spec(cur@, buf@)) by {
        if let Ok((more, rest)) = array_items_spec(cur@, buf@) {
            assert(items_view(entries@) + more =~= more);
        }
    }
    loop
        invariant
            tokens@.len() > 0,
            tokens@[0] != Token::RightBracket,
            cur@.len() <= tokens@.len(),
            tokens_valid(cur@, buf@),
            array_items_spec(tokens@, buf@) == items_then(
                items_view(entries@),
                array_items_spec(cur@, buf@),
            ),
            forall|k: int| 0 <= k < entries@.len() ==> (#[trigger] entries@[k]).wf(),
        decreases cur@.len(),
    {
        proof {
            lemma_value_consumes(cur@, buf@);
        }
        match parse_value(cur, buf) {
            Err(error) => {
                return Err(error);
            },
            Ok((value, rest)) => {
                let ghost before = items_view(entries@);
                entries.push(value);
                proof {
                    assert(items_view(entries@) =~= before.push(value@));
                    lemma_rest_valid(rest@, cur@, buf@);
                    match array_items_spec(rest@.skip(1), buf@) {
                        Ok((more, after)) => {
                            assert(before + (seq![value@] + more) =~= before.push(value@) + more);
                        },
                        Err(_) => {},
                    }
                    assert(before + seq![value@] =~= before.push(value@));
                }
                if rest.len() == 0 {
                    return Err(ParseError::ExpectedValue { next: None });
                }
                let token: Token = rest[0];
                match token {
                    Token::RightBracket => {
                        return Ok((JSONValue::Array(entries), slice_subrange(rest, 1, rest.len())));
                    },
                    Token::Comma => {
                        cur = slice_subrange(rest, 1, rest.len());
                        proof {
                            lemma_rest_valid(cur@, rest@, buf@);
                        }
                    },
                    _ => {
                        return Err(ParseError::UnexpectedToken { found: token, in_object: false });
                    },
                }
            },
        }
    }
}

/// Reads one entry of an object: its key, the colon and its value.
pub fn parse_dict_entry<'a>(tokens: &'a [Token], buf: &[u8]) -> (result: Result<
    ((String, JSONValue), &'a [Token]),
    ParseError,
>)
    requires
        tokens_valid(tokens@, buf@),
    ensures
        entry_result_is(result, parse_dict_entry_spec(tokens@, buf@)),
    decreases tokens@.len(), 1nat,
{
    if tokens.len() < 3 {
        return Err(ParseError::ExpectedValue { next: None });
    }
    let first: Token = tokens[0];
    assert(first.valid_for(buf@));
    let key: String = match first {
        Token::StringVal(start, end) => match materialize(buf, start, end) {
            Ok(text) => text,
            Err(error) => {
                return Err(error);
            },
        },
        other => {
            return Err(ParseError::ExpectedStringKey { found: other });
        },
    };
    let second: Token = tokens[1];
    if second != Token::Colon {
        return Err(ParseError::ExpectedColon { found: second });
    }
    let after: &[Token] = slice_subrange(tokens, 2, tokens.len());
    proof {
        lemma_rest_valid(after@, tokens@, buf@);
    }
    match parse_value(after, buf) {
        Ok((value, rest)) => Ok(((key, value), rest)),
        Err(error) => Err(error),
    }
}

/// Reads the object whose opening brace stood just before `tokens`.
pub fn parse_dict<'a>(tokens: &'a [Token], buf: &[u8]) -> (result: Result<
    (JSONValue, &'a [Token]),
    ParseError,
>)
    requires
        tokens_valid(tokens@, buf@),
    ensures
        value_result_is(result, parse_dict_spec(tokens@, buf@)),
    decreases tokens@.len(), 3nat,
{
    let mut entries: Vec<(String, JSONValue)> = Vec::new();
    if tokens.len() == 0 {
        return Err(ParseError::ExpectedValue { next: None });
    }
    if tokens[0] == Token::RightBrace {
        assert(entries_view(entries@) =~= Seq::<(Seq<char>, Json)>::empty());
        return Ok((JSONValue::Dict(entries), slice_subrange(tokens, 1, tokens.len())));
    }
    let mut cur: &[Token] = tokens;
    let ghost mut seen: Seq<(Seq<char>, Json)> = Seq::empty();
    assert(entries_view(entries@) =~= seen);
    assert(pairs_then(seen, dict_entries_spec(cur@, buf@)) == dict_entries_spec(cur@, buf@)) by {
        if let Ok((more, rest)) = dict_entries_spec(cur@, buf@) {
            assert(seen + more =~= more);
        }
    }
    loop
        invariant
            tokens@.len() > 0,
            tokens@[0] != Token::RightBrace,
            cur@.len() <= tokens@.len(),
            tokens_valid(cur@, buf@),
            dict_entries_spec(tokens@, buf@) == pairs_then(seen, dict_entries_spec(cur@, buf@)),
            pairs_to_map(entries_view(entries@)) == pairs_to_map(seen),
            distinct_keys(entries@),
            values_wf(entries@),
        decreases cur@.len(),
    {
        proof {
            lemma_entry_consumes(cur@, buf@);
        }
        match parse_dict_entry(cur, buf) {
            Err(error) => {
                return Err(error);
            },
            Ok(((key, value), rest)) => {
                let ghost pair = (key@, value@);
                let ghost before = seen;
                insert_entry(&mut entries, key, value);
                proof {
                    lemma_pairs_to_map_push(before, pair.0, pair.1);
                    seen = before.push(pair);
                    lemma_rest_valid(rest@, cur@, buf@);
                    match dict_entries_spec(rest@.skip(1), buf@) {
                        Ok((more, after)) => {
                            assert(before + (seq![pair] + more) =~= before.push(pair) + more);
                        },
                        Err(_) => {},
                    }
                    assert(before + seq![pair] =~= before.push(pair));
                }
                if rest.len() == 0 {
                    return Err(ParseError::ExpectedValue { next: None });
                }
                let token: Token = rest[0];
                match token {
                    Token::RightBrace => {
                        return Ok((JSONValue::Dict(entries), slice_subrange(rest, 1, rest.len())));
                    },
                    Token::Comma => {
                        cur = slice_subrange(rest, 1, rest.len());
                        proof {
                            lemma_rest_valid(cur@, rest@, buf@);
                        }
                    },
                    _ => {
                        return Err(ParseError::UnexpectedToken { found: token, in_object: true });
                    },
                }
            },
        }
    }
}

/// Reads the value that starts at the front of `tokens`.
pub fn parse_value<'a>(tokens: &'a [Token], buf: &[u8]) -> (result: Result<
    (JSONValue, &'a [Token]),
    ParseError,
>)
    requires
        tokens_valid(tokens@, buf@),
    ensures
        value_result_is(result, parse_value_spec(tokens@, buf@)),
    decreases tokens@.len(), 0nat,
{
    if tokens.len() == 0 {
        return Err(ParseError::ExpectedValue { next: None });
    }
    let token: Token = tokens[0];
    let rest: &[Token] = slice_subrange(tokens, 1, tokens.len());
    proof {
        assert(token.valid_for(buf@));
        lemma_rest_valid(rest@, tokens@, buf@);
    }
    match token {
        Token::BoolVal(b) => Ok((JSONValue::Bool(b), rest)),
        Token::NullVal => Ok((JSONValue::Null, rest)),
        Token::NumVal(start, end) => match materialize(buf, start, end) {
            Ok(text) => {
                proof {
                    decode_utf8_encode_utf8(buf@.subrange(start as int, end as int));
                }
                Ok((JSONValue::Num(text), rest))
            },
            Err(error) => Err(error),
        },
        Token::StringVal(start, end) => match materialize(buf, start, end) {
            Ok(text) => Ok((JSONValue::Str(text), rest)),
            Err(error) => Err(error),
        },
        Token::LeftBrace => parse_dict(rest, buf),
        Token::LeftBracket => parse_array(rest, buf),
        other => Err(ParseError::ExpectedValue { next: Some(other) }),
    }
}

/// `result` is the executable form of `expected`, and the value in it
/// satisfies the invariant of a value tree.
pub open spec fn document_result_is(
    result: Result<JSONValue, ParseError>,
    expected: Result<Json, ParseError>,
) -> bool {
    match result {
        Ok(value) => expected == Ok::<Json, ParseError>(value@) && value.wf(),
        Err(error) => expected == Err::<Json, ParseError>(error),
    }
}

/// Reads a whole document: the buffer has to hold exactly one value.
pub fn parse(json: &[u8]) -> (result: Result<JSONValue, ParseError>)
    ensures
        document_result_is(result, parse_spec(json@)),
{
    let lexer = Lexer::new();
    let tokens: Vec<Token> = match lexer.lex(json) {
        Ok(tokens) => tokens,
        Err(error) => {
            return Err(error);
        },
    };
    match parse_value(tokens.as_slice(), json) {
        Ok((value, rest)) => {
            if rest.len() > 0 {
                return Err(ParseError::TrailingContent { found: rest[0] });
            }
            Ok(value)
        },
        Err(error) => Err(error),
    }
}

} // verus!
