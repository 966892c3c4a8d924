use json_parser::lexer::Lexer;
use json_parser::number::check_number;
use json_parser::parser::parse_array;
use json_parser::parser::parse_dict;
use json_parser::parser::parse_dict_entry;
use json_parser::parser::parse_value;
use json_parser::text::bytes_eq;
use json_parser::text::decimal_text;
use json_parser::text::materialize;
use json_parser::text::same_text;
use json_parser::value::find_entry;
use json_parser::value::insert_entry;
use json_parser::JSONValue;
use json_parser::ParseError;
use json_parser::Token;

#[test]
fn lex_structural_symbols() {
    let tokens = Lexer::new().lex(b"{}[],:").unwrap();
    assert_eq!(
        tokens,
        vec![
            Token::LeftBrace,
            Token::RightBrace,
            Token::LeftBracket,
            Token::RightBracket,
            Token::Comma,
            Token::Colon,
        ]
    );
}

#[test]
fn lex_literals_yield_one_token_each() {
    let lexer = Lexer::new();
    assert_eq!(lexer.lex(b"null").unwrap(), vec![Token::NullVal]);
    assert_eq!(lexer.lex(b"true").unwrap(), vec![Token::BoolVal(true)]);
    assert_eq!(lexer.lex(b"false").unwrap(), vec![Token::BoolVal(false)]);
}

#[test]
fn lex_string_range_excludes_the_quotes() {
    let buf = b"  \"abc\" ";
    let tokens = Lexer::new().lex(buf).unwrap();
    assert_eq!(tokens, vec![Token::StringVal(3, 6)]);
    assert_eq!(&buf[3..6], b"abc");
    assert_eq!(Lexer::new().lex(b"\"\"").unwrap(), vec![Token::StringVal(1, 1)]);
}

#[test]
fn lex_number_range() {
    assert_eq!(Lexer::new().lex(b" -12.5e3,").unwrap(), vec![Token::NumVal(1, 8), Token::Comma]);
    assert_eq!(Lexer::new().lex(b"7").unwrap(), vec![Token::NumVal(0, 1)]);
}

#[test]
fn lex_whole_document() {
    let tokens = Lexer::new().lex(b"{\"foo\":[1,2,3]}").unwrap();
    assert_eq!(
        tokens,
        vec![
            Token::LeftBrace,
            Token::StringVal(2, 5),
            Token::Colon,
            Token::LeftBracket,
            Token::NumVal(8, 9),
            Token::Comma,
            Token::NumVal(10, 11),
            Token::Comma,
            Token::NumVal(12, 13),
            Token::RightBracket,
            Token::RightBrace,
        ]
    );
}

#[test]
fn lex_empty_and_blank_buffers() {
    assert_eq!(Lexer::new().lex(b"").unwrap(), vec![]);
    assert_eq!(Lexer::new().lex(b" \t\r\n").unwrap(), vec![]);
}

#[test]
fn lex_adjacent_literals() {
    assert_eq!(
        Lexer::new().lex(b"nulltruefalse").unwrap(),
        vec![Token::NullVal, Token::BoolVal(true), Token::BoolVal(false)]
    );
}

#[test]
fn lex_errors() {
    let lexer = Lexer::new();
    assert_eq!(lexer.lex(b"\"abc"), Err(ParseError::UnterminatedString { position: 0 }));
    assert_eq!(lexer.lex(b" fals"), Err(ParseError::IncompleteLiteral { position: 1 }));
    assert_eq!(lexer.lex(b"--1"), Err(ParseError::MalformedNumber { start: 0, end: 1 }));
    assert_eq!(lexer.lex(b"  ?"), Err(ParseError::UnexpectedByte { byte: b'?', position: 2 }));
}

#[test]
fn one_lexer_serves_many_buffers() {
    let lexer = Lexer::new();
    assert_eq!(lexer.lex(b"[").unwrap(), vec![Token::LeftBracket]);
    assert_eq!(lexer.lex(b"]").unwrap(), vec![Token::RightBracket]);
}

#[test]
fn literal_words() {
    let lexer = Lexer::new();
    assert_eq!(lexer.lex_multichar_symbol(b"null"), Some(Token::NullVal));
    assert_eq!(lexer.lex_multichar_symbol(b"true"), Some(Token::BoolVal(true)));
    assert_eq!(lexer.lex_multichar_symbol(b"fals"), Some(Token::BoolVal(false)));
    assert_eq!(lexer.lex_multichar_symbol(b"false"), None);
    assert_eq!(lexer.lex_multichar_symbol(b"nul"), None);
    assert_eq!(lexer.lex_multichar_symbol(b""), None);
    assert_eq!(lexer.lex_multichar_symbol(b"NULL"), None);
}

#[test]
fn well_formed_numbers() {
    for literal in ["0", "7", "-7", "12.5", "1.", "-.5", "1e5", "1.e5", "-0.5e10", "007"] {
        assert!(check_number(literal.as_bytes()), "{}", literal);
        assert!(literal.parse::<f64>().is_ok(), "{}", literal);
    }
}

#[test]
fn malformed_numbers() {
    for literal in ["", "-", ".", "-.", "1e", "e5", "-e5", "1.2.3", "1e5e5", "1e5.", "1-", "1e.5", "..1"] {
        assert!(!check_number(literal.as_bytes()), "{}", literal);
        assert!(literal.parse::<f64>().is_err(), "{}", literal);
    }
}

#[test]
fn number_shape_agrees_with_float_decoding() {
    let alphabet = [b'-', b'0', b'7', b'.', b'e'];
    let mut checked = 0;
    for len in 0..6usize {
        let mut index = vec![0usize; len];
        loop {
            let bytes: Vec<u8> = index.iter().map(|&k| alphabet[k]).collect();
            let text = std::str::from_utf8(&bytes).unwrap();
            let follows_first = bytes.iter().skip(1).all(|&b| b != b'-');
            if follows_first {
                assert_eq!(check_number(&bytes), text.parse::<f64>().is_ok(), "{:?}", text);
                checked += 1;
            }
            let mut at = 0;
            while at < len {
                index[at] += 1;
                if index[at] < alphabet.len() {
                    break;
                }
                index[at] = 0;
                at += 1;
            }
            if at == len {
                break;
            }
        }
    }
    assert!(checked > 1000);
}

#[test]
fn materialize_decodes_a_range() {
    assert_eq!(materialize(b"xxabcxx", 2, 5), Ok("abc".to_string()));
    assert_eq!(materialize(b"abc", 1, 1), Ok(String::new()));
    assert_eq!(materialize("a\u{e9}b".as_bytes(), 1, 3), Ok("\u{e9}".to_string()));
}

#[test]
fn materialize_rejects_invalid_utf8() {
    assert_eq!(
        materialize(b"a\xffb", 0, 3),
        Err(ParseError::InvalidTextEncoding { start: 0, end: 3 })
    );
    assert_eq!(
        materialize("a\u{e9}b".as_bytes(), 1, 2),
        Err(ParseError::InvalidTextEncoding { start: 1, end: 2 })
    );
    assert_eq!(
        materialize(b"\xc0\x80", 0, 2),
        Err(ParseError::InvalidTextEncoding { start: 0, end: 2 })
    );
}

#[test]
fn comparing_bytes_and_text() {
    assert!(bytes_eq(b"", b""));
    assert!(bytes_eq(b"abc", b"abc"));
    assert!(!bytes_eq(b"abc", b"abd"));
    assert!(!bytes_eq(b"abc", b"ab"));
    assert!(same_text("k\u{e9}y", "k\u{e9}y"));
    assert!(!same_text("key", "kez"));
    assert!(!same_text("key", "keys"));
}

#[test]
fn insert_entry_appends_and_replaces() {
    let mut entries: Vec<(String, JSONValue)> = Vec::new();
    insert_entry(&mut entries, "a".to_string(), JSONValue::Bool(true));
    insert_entry(&mut entries, "b".to_string(), JSONValue::Null);
    assert_eq!(
        entries,
        vec![("a".to_string(), JSONValue::Bool(true)), ("b".to_string(), JSONValue::Null)]
    );
    insert_entry(&mut entries, "a".to_string(), JSONValue::Bool(false));
    assert_eq!(
        entries,
        vec![("a".to_string(), JSONValue::Bool(false)), ("b".to_string(), JSONValue::Null)]
    );
    assert_eq!(find_entry(&entries, "a"), Some(&JSONValue::Bool(false)));
    assert_eq!(find_entry(&entries, "b"), Some(&JSONValue::Null));
    assert_eq!(find_entry(&entries, "c"), None);
}

#[test]
fn find_entry_returns_the_last_of_equal_keys() {
    let entries = vec![
        ("a".to_string(), JSONValue::Bool(true)),
        ("a".to_string(), JSONValue::Bool(false)),
    ];
    assert_eq!(find_entry(&entries, "a"), Some(&JSONValue::Bool(false)));
}

#[test]
fn parse_value_takes_exactly_one_leaf_token() {
    let buf = b"null true false";
    let tokens = [Token::NullVal, Token::BoolVal(true), Token::BoolVal(false)];
    let (value, rest) = parse_value(&tokens, buf).unwrap();
    assert_eq!(value, JSONValue::Null);
    assert_eq!(rest, &tokens[1..]);
    let (value, rest) = parse_value(rest, buf).unwrap();
    assert_eq!(value, JSONValue::Bool(true));
    assert_eq!(rest, &tokens[2..]);
    let (value, rest) = parse_value(rest, buf).unwrap();
    assert_eq!(value, JSONValue::Bool(false));
    assert!(rest.is_empty());
    assert_eq!(parse_value(rest, buf), Err(ParseError::ExpectedValue { next: None }));
}

#[test]
fn parse_value_leaves_what_follows_the_value() {
    let buf = b"[1,2] \"x\"";
    let tokens = Lexer::new().lex(buf).unwrap();
    let (value, rest) = parse_value(&tokens, buf).unwrap();
    assert_eq!(
        value,
        JSONValue::Array(vec![JSONValue::Num("1".to_string()), JSONValue::Num("2".to_string())])
    );
    assert_eq!(rest, &[Token::StringVal(7, 8)]);
}

#[test]
fn parse_array_starts_after_the_bracket() {
    let buf = b"[true,null] 1";
    let tokens = Lexer::new().lex(buf).unwrap();
    let (value, rest) = parse_array(&tokens[1..], buf).unwrap();
    assert_eq!(value, JSONValue::Array(vec![JSONValue::Bool(true), JSONValue::Null]));
    assert_eq!(rest, &[Token::NumVal(12, 13)]);
    assert_eq!(parse_array(&[], buf), Err(ParseError::ExpectedValue { next: None }));
    let (value, rest) = parse_array(&[Token::RightBracket, Token::Comma], buf).unwrap();
    assert_eq!(value, JSONValue::Array(vec![]));
    assert_eq!(rest, &[Token::Comma]);
}

#[test]
fn parse_dict_starts_after_the_brace() {
    let buf = b"{\"k\":true} ,";
    let tokens = Lexer::new().lex(buf).unwrap();
    let (value, rest) = parse_dict(&tokens[1..], buf).unwrap();
    assert_eq!(value, JSONValue::Dict(vec![("k".to_string(), JSONValue::Bool(true))]));
    assert_eq!(rest, &[Token::Comma]);
    assert_eq!(parse_dict(&[], buf), Err(ParseError::ExpectedValue { next: None }));
    let (value, rest) = parse_dict(&[Token::RightBrace], buf).unwrap();
    assert_eq!(value, JSONValue::Dict(vec![]));
    assert!(rest.is_empty());
}

#[test]
fn parse_dict_entry_reads_key_colon_value() {
    let buf = b"\"key\":[null],";
    let tokens = Lexer::new().lex(buf).unwrap();
    let ((key, value), rest) = parse_dict_entry(&tokens, buf).unwrap();
    assert_eq!(key, "key");
    assert_eq!(value, JSONValue::Array(vec![JSONValue::Null]));
    assert_eq!(rest, &[Token::Comma]);
}

#[test]
fn parse_dict_entry_errors() {
    let buf = b"\"key\":1";
    assert_eq!(
        parse_dict_entry(&[Token::StringVal(1, 4), Token::Colon], buf),
        Err(ParseError::ExpectedValue { next: None })
    );
    assert_eq!(
        parse_dict_entry(&[Token::NullVal, Token::Colon, Token::NullVal], buf),
        Err(ParseError::ExpectedStringKey { found: Token::NullVal })
    );
    assert_eq!(
        parse_dict_entry(&[Token::StringVal(1, 4), Token::Comma, Token::NullVal], buf),
        Err(ParseError::ExpectedColon { found: Token::Comma })
    );
    assert_eq!(
        parse_dict_entry(&[Token::StringVal(1, 4), Token::Colon, Token::Colon], buf),
        Err(ParseError::ExpectedValue { next: Some(Token::Colon) })
    );
}

#[test]
fn decimal_text_of_numbers() {
    assert_eq!(decimal_text(0), "0");
    assert_eq!(decimal_text(7), "7");
    assert_eq!(decimal_text(10), "10");
    assert_eq!(decimal_text(1905), "1905");
    assert_eq!(decimal_text(usize::MAX), usize::MAX.to_string());
}

#[test]
fn token_text_of_symbols_and_literals() {
    assert_eq!(Token::LeftBrace.text(), "Token('{')");
    assert_eq!(Token::RightBrace.text(), "Token('}')");
    assert_eq!(Token::LeftBracket.text(), "Token('[')");
    assert_eq!(Token::RightBracket.text(), "Token(']')");
    assert_eq!(Token::Comma.text(), "Token(',')");
    assert_eq!(Token::Colon.text(), "Token(':')");
    assert_eq!(Token::NullVal.text(), "Token('null')");
    assert_eq!(Token::BoolVal(true).text(), "Token('true')");
    assert_eq!(Token::BoolVal(false).text(), "Token('false')");
}

#[test]
fn token_text_of_ranges() {
    assert_eq!(Token::StringVal(3, 12).text(), "Token(str_range:[3:12])");
    assert_eq!(Token::StringVal(0, 0).text(), "Token(str_range:[0:0])");
    assert_eq!(Token::NumVal(100, 2048).text(), "Token(num_range:[100:2048])");
}
