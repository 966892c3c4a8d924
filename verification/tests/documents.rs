use json_parser::parse;
use json_parser::JSONValue;
use json_parser::ParseError;
use json_parser::Token;

fn number(text: &str) -> JSONValue {
    JSONValue::Num(text.to_string())
}

fn float_of(value: &JSONValue) -> f64 {
    match value {
        JSONValue::Num(text) => text.parse::<f64>().unwrap(),
        other => panic!("not a number: {:?}", other),
    }
}

#[test]
fn null_is_a_leaf() {
    assert_eq!(parse(b"null"), Ok(JSONValue::Null));
}

#[test]
fn true_is_a_leaf() {
    assert_eq!(parse(b"true"), Ok(JSONValue::Bool(true)));
}

#[test]
fn false_is_a_leaf() {
    assert_eq!(parse(b"false"), Ok(JSONValue::Bool(false)));
}

#[test]
fn white_space_around_a_leaf_is_ignored() {
    assert_eq!(parse(b" \t\r\nnull \n"), Ok(JSONValue::Null));
    assert_eq!(parse(b"\ttrue"), Ok(JSONValue::Bool(true)));
}

#[test]
fn number_keeps_the_text_of_its_literal() {
    for literal in ["0", "1", "-1", "12.5", "-0.25", "1e5", "3.25e2", "-7.0e10", "123456789", "1."] {
        let parsed = parse(literal.as_bytes()).unwrap();
        assert_eq!(parsed, number(literal));
        assert_eq!(float_of(&parsed), literal.parse::<f64>().unwrap());
    }
}

#[test]
fn number_decodes_to_the_expected_float() {
    assert_eq!(float_of(&parse(b"1").unwrap()), 1.0);
    assert_eq!(float_of(&parse(b"-12.5").unwrap()), -12.5);
    assert_eq!(float_of(&parse(b"3.25e2").unwrap()), 325.0);
    assert_eq!(float_of(&parse(b"2e3 ").unwrap()), 2000.0);
    assert_eq!(float_of(&parse(b"-.5").unwrap()), -0.5);
}

#[test]
fn number_at_the_end_of_the_buffer_is_read() {
    assert_eq!(parse(b"42"), Ok(number("42")));
    assert_eq!(parse(b"[42"), Err(ParseError::ExpectedValue { next: None }));
}

#[test]
fn string_is_kept_unchanged() {
    assert_eq!(parse(b"\"abc\""), Ok(JSONValue::Str("abc".to_string())));
    assert_eq!(parse(b"\"\""), Ok(JSONValue::Str(String::new())));
    assert_eq!(parse(b"\"a b\tc\""), Ok(JSONValue::Str("a b\tc".to_string())));
}

#[test]
fn string_escapes_are_not_decoded() {
    assert_eq!(parse(b"\"a\\nb\""), Ok(JSONValue::Str("a\\nb".to_string())));
    assert_eq!(parse(b"\"\\u0041\""), Ok(JSONValue::Str("\\u0041".to_string())));
}

#[test]
fn string_may_hold_any_utf8() {
    let text = "gr\u{fc}\u{df}e \u{4e16}\u{754c} \u{1f600}";
    let document = format!("\"{}\"", text);
    assert_eq!(parse(document.as_bytes()), Ok(JSONValue::Str(text.to_string())));
}

#[test]
fn string_that_looks_like_a_token_stays_a_string() {
    assert_eq!(parse(b"\"null\""), Ok(JSONValue::Str("null".to_string())));
    assert_eq!(parse(b"\"[1,2]\""), Ok(JSONValue::Str("[1,2]".to_string())));
}

#[test]
fn empty_array() {
    assert_eq!(parse(b"[]"), Ok(JSONValue::Array(vec![])));
    assert_eq!(parse(b"[ ]"), Ok(JSONValue::Array(vec![])));
}

#[test]
fn empty_object() {
    assert_eq!(parse(b"{}"), Ok(JSONValue::Dict(vec![])));
    assert_eq!(parse(b"{ }"), Ok(JSONValue::Dict(vec![])));
}

#[test]
fn array_keeps_the_order_of_its_elements() {
    assert_eq!(
        parse(b"[1, true, null, \"x\"]"),
        Ok(JSONValue::Array(vec![
            number("1"),
            JSONValue::Bool(true),
            JSONValue::Null,
            JSONValue::Str("x".to_string()),
        ]))
    );
}

#[test]
fn nested_structure() {
    let parsed = parse(b"{\"foo\":[1,2,3]}").unwrap();
    let foo = parsed.get("foo").unwrap();
    match foo {
        JSONValue::Array(items) => {
            let floats: Vec<f64> = items.iter().map(float_of).collect();
            assert_eq!(floats, vec![1.0, 2.0, 3.0]);
        }
        other => panic!("not an array: {:?}", other),
    }
    assert_eq!(
        parsed,
        JSONValue::Dict(vec![(
            "foo".to_string(),
            JSONValue::Array(vec![number("1"), number("2"), number("3")])
        )])
    );
    assert_eq!(parsed.get("bar"), None);
}

#[test]
fn deeper_nesting() {
    let parsed = parse(b"[[[]],{\"a\":{\"b\":[false]}}]").unwrap();
    assert_eq!(
        parsed,
        JSONValue::Array(vec![
            JSONValue::Array(vec![JSONValue::Array(vec![])]),
            JSONValue::Dict(vec![(
                "a".to_string(),
                JSONValue::Dict(vec![(
                    "b".to_string(),
                    JSONValue::Array(vec![JSONValue::Bool(false)])
                )])
            )]),
        ])
    );
}

#[test]
fn trailing_content_is_rejected() {
    assert!(matches!(parse(b"1 2"), Err(ParseError::TrailingContent { .. })));
    assert_eq!(
        parse(b"1 2"),
        Err(ParseError::TrailingContent { found: Token::NumVal(2, 3) })
    );
    assert_eq!(parse(b"[] ]"), Err(ParseError::TrailingContent { found: Token::RightBracket }));
    assert_eq!(parse(b"null,"), Err(ParseError::TrailingContent { found: Token::Comma }));
}

#[test]
fn missing_value_of_an_entry_is_rejected() {
    assert!(matches!(parse(b"{\"a\":}"), Err(ParseError::ExpectedValue { .. })));
    assert_eq!(
        parse(b"{\"a\":}"),
        Err(ParseError::ExpectedValue { next: Some(Token::RightBrace) })
    );
}

#[test]
fn missing_closing_bracket_is_rejected() {
    assert_eq!(parse(b"[1,2"), Err(ParseError::ExpectedValue { next: None }));
}

#[test]
fn unterminated_string_is_rejected() {
    assert_eq!(parse(b"\"abc"), Err(ParseError::UnterminatedString { position: 0 }));
    assert_eq!(parse(b"[1, \"x"), Err(ParseError::UnterminatedString { position: 4 }));
    assert_eq!(parse(b"\""), Err(ParseError::UnterminatedString { position: 0 }));
}

#[test]
fn duplicate_keys_last_write_wins() {
    let parsed = parse(b"{\"a\":1,\"a\":2}").unwrap();
    assert_eq!(float_of(parsed.get("a").unwrap()), 2.0);
    assert_eq!(parsed, JSONValue::Dict(vec![("a".to_string(), number("2"))]));
}

#[test]
fn duplicate_keys_keep_their_first_place() {
    let parsed = parse(b"{\"a\":1,\"b\":2,\"a\":3,\"c\":4,\"b\":5}").unwrap();
    assert_eq!(
        parsed,
        JSONValue::Dict(vec![
            ("a".to_string(), number("3")),
            ("b".to_string(), number("5")),
            ("c".to_string(), number("4")),
        ])
    );
}

#[test]
fn empty_document_is_rejected() {
    assert_eq!(parse(b""), Err(ParseError::ExpectedValue { next: None }));
    assert_eq!(parse(b"  \n"), Err(ParseError::ExpectedValue { next: None }));
}

#[test]
fn incomplete_literal_is_rejected() {
    assert_eq!(parse(b"fals"), Err(ParseError::IncompleteLiteral { position: 0 }));
    assert_eq!(parse(b"falsy"), Err(ParseError::IncompleteLiteral { position: 0 }));
    assert_eq!(parse(b"[true, fals]"), Err(ParseError::IncompleteLiteral { position: 7 }));
}

#[test]
fn malformed_number_is_rejected() {
    assert_eq!(parse(b"--1"), Err(ParseError::MalformedNumber { start: 0, end: 1 }));
    assert_eq!(parse(b"1e"), Err(ParseError::MalformedNumber { start: 0, end: 2 }));
    assert_eq!(parse(b"1.2.3"), Err(ParseError::MalformedNumber { start: 0, end: 5 }));
    assert_eq!(parse(b"[1e-5]"), Err(ParseError::MalformedNumber { start: 1, end: 3 }));
    assert_eq!(parse(b"-"), Err(ParseError::MalformedNumber { start: 0, end: 1 }));
    assert_eq!(parse(b"1ee5"), Err(ParseError::MalformedNumber { start: 0, end: 4 }));
}

#[test]
fn unexpected_byte_is_rejected() {
    assert_eq!(parse(b"x"), Err(ParseError::UnexpectedByte { byte: b'x', position: 0 }));
    assert_eq!(parse(b"[1, +2]"), Err(ParseError::UnexpectedByte { byte: b'+', position: 4 }));
    assert_eq!(parse(b"nul"), Err(ParseError::UnexpectedByte { byte: b'n', position: 0 }));
    assert_eq!(parse(b".5"), Err(ParseError::UnexpectedByte { byte: b'.', position: 0 }));
    assert_eq!(parse(b"1E5"), Err(ParseError::UnexpectedByte { byte: b'E', position: 1 }));
    assert_eq!(parse(b"True"), Err(ParseError::UnexpectedByte { byte: b'T', position: 0 }));
}

#[test]
fn expected_value_is_reported() {
    assert_eq!(parse(b"["), Err(ParseError::ExpectedValue { next: None }));
    assert_eq!(parse(b"{"), Err(ParseError::ExpectedValue { next: None }));
    assert_eq!(parse(b"[,]"), Err(ParseError::ExpectedValue { next: Some(Token::Comma) }));
    assert_eq!(parse(b"]"), Err(ParseError::ExpectedValue { next: Some(Token::RightBracket) }));
    assert_eq!(parse(b"[1,]"), Err(ParseError::ExpectedValue { next: Some(Token::RightBracket) }));
    assert_eq!(parse(b":"), Err(ParseError::ExpectedValue { next: Some(Token::Colon) }));
}

#[test]
fn incomplete_entry_is_reported_as_a_missing_value() {
    assert_eq!(parse(b"{\"a\"}"), Err(ParseError::ExpectedValue { next: None }));
    assert_eq!(parse(b"{\"a\":"), Err(ParseError::ExpectedValue { next: None }));
    assert_eq!(parse(b"{]"), Err(ParseError::ExpectedValue { next: None }));
    assert_eq!(parse(b"{\"a\":1,}"), Err(ParseError::ExpectedValue { next: None }));
}

#[test]
fn key_that_is_no_string_is_rejected() {
    assert_eq!(
        parse(b"{1:2}"),
        Err(ParseError::ExpectedStringKey { found: Token::NumVal(1, 2) })
    );
    assert_eq!(
        parse(b"{null:2}"),
        Err(ParseError::ExpectedStringKey { found: Token::NullVal })
    );
    assert_eq!(
        parse(b"{,\"a\":1}"),
        Err(ParseError::ExpectedStringKey { found: Token::Comma })
    );
}

#[test]
fn missing_colon_is_rejected() {
    assert_eq!(
        parse(b"{\"a\" 1 2}"),
        Err(ParseError::ExpectedColon { found: Token::NumVal(5, 6) })
    );
    assert_eq!(
        parse(b"{\"a\",\"b\":1}"),
        Err(ParseError::ExpectedColon { found: Token::Comma })
    );
}

#[test]
fn unexpected_token_after_an_element_is_rejected() {
    assert_eq!(
        parse(b"[1 2]"),
        Err(ParseError::UnexpectedToken { found: Token::NumVal(3, 4), in_object: false })
    );
    assert_eq!(
        parse(b"[1}"),
        Err(ParseError::UnexpectedToken { found: Token::RightBrace, in_object: false })
    );
    assert_eq!(
        parse(b"{\"a\":1 \"b\":2}"),
        Err(ParseError::UnexpectedToken { found: Token::StringVal(8, 9), in_object: true })
    );
    assert_eq!(
        parse(b"{\"a\":1]"),
        Err(ParseError::UnexpectedToken { found: Token::RightBracket, in_object: true })
    );
}

#[test]
fn invalid_text_encoding_is_rejected() {
    assert_eq!(
        parse(b"\"\xff\""),
        Err(ParseError::InvalidTextEncoding { start: 1, end: 2 })
    );
    assert_eq!(
        parse(b"{\"\xc3\":1}"),
        Err(ParseError::InvalidTextEncoding { start: 2, end: 3 })
    );
    assert_eq!(
        parse(b"[\"ok\", \"\xed\xa0\x80\"]"),
        Err(ParseError::InvalidTextEncoding { start: 8, end: 11 })
    );
}

#[test]
fn first_error_wins() {
    assert_eq!(parse(b"[1 2 \"x"), Err(ParseError::UnterminatedString { position: 5 }));
    assert_eq!(parse(b"{1:2} x"), Err(ParseError::UnexpectedByte { byte: b'x', position: 6 }));
}

#[test]
fn get_on_a_value_that_is_no_object() {
    assert_eq!(parse(b"[1]").unwrap().get("a"), None);
    assert_eq!(JSONValue::Null.get(""), None);
}
