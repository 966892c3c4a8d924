//! The tokenizer: one pass over the buffer, from left to right.
//!
//! [`lex_spec`] says which tokens a buffer holds.  It is built from
//! [`scan_at`], which says what stands at one position: white space, one
//! token together with the position after it, or an error.  [`Lexer::lex`]
//! computes `lex_spec` with the help of four small tables.

use crate::error::ParseError;
use crate::number::check_number;
use crate::number::is_digit;
use crate::number::is_number_literal;
use crate::number::DIGIT_NINE;
use crate::number::DIGIT_ZERO;
use crate::number::EXPONENT_MARK;
use crate::number::MINUS;
use crate::number::POINT;
use crate::text::bytes_eq;
use crate::token::tokens_valid;
use crate::token::Token;
use crate::token::QUOTE;
use vstd::prelude::*;
use vstd::slice::slice_subrange;

verus! {

pub const SPACE: u8 = 32;

pub const TAB: u8 = 9;

pub const CARRIAGE_RETURN: u8 = 13;

pub const LINE_FEED: u8 = 10;

pub const LEFT_BRACE: u8 = 123;

pub const RIGHT_BRACE: u8 = 125;

pub const LEFT_BRACKET: u8 = 91;

pub const RIGHT_BRACKET: u8 = 93;

pub const COMMA: u8 = 44;

pub const COLON: u8 = 58;

/// The letter that completes `fals`.
pub const LETTER_E: u8 = 101;

/// How many bytes a literal word has.
pub const WORD_LEN: usize = 4;

/// White space separates tokens and is otherwise ignored.
pub open spec fn is_whitespace(b: u8) -> bool {
    b == SPACE || b == TAB || b == CARRIAGE_RETURN || b == LINE_FEED
}

/// The structural token that the single byte `b` stands for, if any.
pub open spec fn symbol_token(b: u8) -> Option<Token> {
    if b == LEFT_BRACE {
        Some(Token::LeftBrace)
    } else if b == RIGHT_BRACE {
        Some(Token::RightBrace)
    } else if b == LEFT_BRACKET {
        Some(Token::LeftBracket)
    } else if b == RIGHT_BRACKET {
        Some(Token::RightBracket)
    } else if b == COMMA {
        Some(Token::Comma)
    } else if b == COLON {
        Some(Token::Colon)
    } else {
        None
    }
}

/// The bytes of `null`.
pub open spec fn null_word() -> Seq<u8> {
    seq![110u8, 117u8, 108u8, 108u8]
}

/// The bytes of `true`.
pub open spec fn true_word() -> Seq<u8> {
    seq![116u8, 114u8, 117u8, 101u8]
}

/// The bytes of `fals`: the first four bytes of `false`.
pub open spec fn false_stem() -> Seq<u8> {
    seq![102u8, 97u8, 108u8, 115u8]
}

/// The token that a literal word stands for, if `word` is one.  The word
/// `fals` stands for `false`; its last letter is looked for separately.
pub open spec fn literal_token(word: Seq<u8>) -> Option<Token> {
    if word == null_word() {
        Some(Token::NullVal)
    } else if word == true_word() {
        Some(Token::BoolVal(true))
    } else if word == false_stem() {
        Some(Token::BoolVal(false))
    } else {
        None
    }
}

/// A byte that may follow the first byte of a numeric run.
pub open spec fn is_number_byte(b: u8) -> bool {
    is_digit(b) || b == POINT || b == EXPONENT_MARK
}

/// A byte that may start a numeric run.
pub open spec fn is_number_start(b: u8) -> bool {
    b == MINUS || is_digit(b)
}

/// The first index at or after `j` that holds a quote, or the length of
/// `buf` if there is none.
pub open spec fn quote_end(buf: Seq<u8>, j: int) -> int
    decreases buf.len() - j,
{
    if 0 <= j < buf.len() && buf[j] != QUOTE {
        quote_end(buf, j + 1)
    } else {
        j
    }
}

/// The first index at or after `j` that holds no number byte, or the length
/// of `buf` if there is none.
pub open spec fn number_end(buf: Seq<u8>, j: int) -> int
    decreases buf.len() - j,
{
    if 0 <= j < buf.len() && is_number_byte(buf[j]) {
        number_end(buf, j + 1)
    } else {
        j
    }
}

/// Where the literal word that may start at `i` ends: four bytes on, or at
/// the end of the buffer.
pub open spec fn word_end(buf: Seq<u8>, i: int) -> int {
    if i + WORD_LEN <= buf.len() {
        i + WORD_LEN
    } else {
        buf.len() as int
    }
}

/// What stands at one position of the buffer.
pub enum Scan {
    /// White space.
    Skip,
    /// A token, and the position after its last byte.
    Emit { token: Token, next: int },
    /// Nothing that the tokenizer accepts.
    Fail { error: ParseError },
}

/// What stands at position `i` of `buf`.  The order of the cases matters:
/// white space, single-byte symbols, strings, literal words, numbers.
pub open spec fn scan_at(buf: Seq<u8>, i: int) -> Scan
    recommends
        0 <= i < buf.len(),
{
    let c = buf[i];
    if is_whitespace(c) {
        Scan::Skip
    } else if symbol_token(c) is Some {
        Scan::Emit { token: symbol_token(c).unwrap(), next: i + 1 }
    } else if c == QUOTE {
        let j = quote_end(buf, i + 1);
        if j < buf.len() {
            Scan::Emit { token: Token::StringVal((i + 1) as usize, j as usize), next: j + 1 }
        } else {
            Scan::Fail { error: ParseError::UnterminatedString { position: i as usize } }
        }
    } else {
        let end = word_end(buf, i);
        match literal_token(buf.subrange(i, end)) {
            Some(Token::BoolVal(false)) => {
                if end < buf.len() && buf[end] == LETTER_E {
                    Scan::Emit { token: Token::BoolVal(false), next: end + 1 }
                } else {
                    Scan::Fail { error: ParseError::IncompleteLiteral { position: i as usize } }
                }
            },
            Some(token) => Scan::Emit { token, next: end },
            None => {
                if is_number_start(c) {
                    let j = number_end(buf, i + 1);
                    if is_number_literal(buf.subrange(i, j)) {
                        Scan::Emit { token: Token::NumVal(i as usize, j as usize), next: j }
                    } else {
                        Scan::Fail {
                            error: ParseError::MalformedNumber { start: i as usize, end: j as usize },
                        }
                    }
                } else {
                    Scan::Fail { error: ParseError::UnexpectedByte { byte: c, position: i as usize } }
                }
            },
        }
    }
}

/// The tokens of `first` followed by those of `then`, or the error of
/// `then`.
pub open spec fn followed_by(first: Seq<Token>, then: Result<Seq<Token>, ParseError>) -> Result<
    Seq<Token>,
    ParseError,
> {
    match then {
        Ok(rest) => Ok(first + rest),
        Err(error) => Err(error),
    }
}

/// The tokens of `buf` from position `i` on, or the first error.
pub open spec fn lex_from(buf: Seq<u8>, i: int) -> Result<Seq<Token>, ParseError>
    decreases buf.len() - i,
    via lex_from_decreases
{
    if i < 0 || i >= buf.len() {
        Ok(Seq::empty())
    } else {
        match scan_at(buf, i) {
            Scan::Skip => lex_from(buf, i + 1),
            Scan::Emit { token, next } => followed_by(seq![token], lex_from(buf, next)),
            Scan::Fail { error } => Err(error),
        }
    }
}

#[via_fn]
proof fn lex_from_decreases(buf: Seq<u8>, i: int) {
    if 0 <= i < buf.len() {
        lemma_scan_at_emits(buf, i);
    }
}

/// The tokens of the whole buffer, or the first error.
pub open spec fn lex_spec(buf: Seq<u8>) -> Result<Seq<Token>, ParseError> {
    lex_from(buf, 0)
}

/// What `quote_end` returns: no byte of `[j, end)` is a quote, and `end` is
/// the end of the buffer or holds a quote.
pub proof fn lemma_quote_end(buf: Seq<u8>, j: int)
    requires
        0 <= j <= buf.len(),
    ensures
        j <= quote_end(buf, j) <= buf.len(),
        forall|k: int| j <= k < quote_end(buf, j) ==> #[trigger] buf[k] != QUOTE,
        quote_end(buf, j) < buf.len() ==> buf[quote_end(buf, j)] == QUOTE,
    decreases buf.len() - j,
{
    if j < buf.len() && buf[j] != QUOTE {
        lemma_quote_end(buf, j + 1);
    }
}

/// The first quote at or after `j` is where `quote_end` stops.
pub proof fn lemma_quote_end_is(buf: Seq<u8>, j: int, end: int)
    requires
        0 <= j <= end <= buf.len(),
        forall|k: int| j <= k < end ==> #[trigger] buf[k] != QUOTE,
        end < buf.len() ==> buf[end] == QUOTE,
    ensures
        quote_end(buf, j) == end,
    decreases end - j,
{
    if j < end {
        lemma_quote_end_is(buf, j + 1, end);
    }
}

/// What `number_end` returns: every byte of `[j, end)` is a number byte, and
/// `end` is the end of the buffer or holds another byte.
pub proof fn lemma_number_end(buf: Seq<u8>, j: int)
    requires
        0 <= j <= buf.len(),
    ensures
        j <= number_end(buf, j) <= buf.len(),
        forall|k: int| j <= k < number_end(buf, j) ==> is_number_byte(#[trigger] buf[k]),
        number_end(buf, j) < buf.len() ==> !is_number_byte(buf[number_end(buf, j)]),
    decreases buf.len() - j,
{
    if j < buf.len() && is_number_byte(buf[j]) {
        lemma_number_end(buf, j + 1);
    }
}

/// A run of number bytes that ends at the end of the buffer, or before
/// another byte, is the run that `number_end` finds.
pub proof fn lemma_number_end_is(buf: Seq<u8>, j: int, end: int)
    requires
        0 <= j <= end <= buf.len(),
        forall|k: int| j <= k < end ==> is_number_byte(#[trigger] buf[k]),
        end < buf.len() ==> !is_number_byte(buf[end]),
    ensures
        number_end(buf, j) == end,
    decreases end - j,
{
    if j < end {
        lemma_number_end_is(buf, j + 1, end);
    }
}

/// A token that is found at `i` agrees with the buffer, and ends after `i`
/// and within the buffer.
pub proof fn lemma_scan_at_emits(buf: Seq<u8>, i: int)
    requires
        0 <= i < buf.len(),
    ensures
        scan_at(buf, i) matches Scan::Emit { token, next } ==> {
            &&& i < next <= buf.len()
            &&& buf.len() <= usize::MAX ==> token.valid_for(buf)
        },
{
    lemma_quote_end(buf, i + 1);
    lemma_number_end(buf, i + 1);
}

/// Appending a token to the tokens read so far, in terms of `followed_by`.
pub proof fn lemma_followed_by_push(
    first: Seq<Token>,
    token: Token,
    then: Result<Seq<Token>, ParseError>,
)
    ensures
        followed_by(first, followed_by(seq![token], then)) == followed_by(first.push(token), then),
{
    if let Ok(rest) = then {
        assert(first + (seq![token] + rest) =~= first.push(token) + rest);
    }
}

/// Every token of a buffer that fits in memory agrees with the buffer.
pub proof fn lemma_lex_from_valid(buf: Seq<u8>, i: int)
    requires
        buf.len() <= usize::MAX,
    ensures
        lex_from(buf, i) matches Ok(tokens) ==> tokens_valid(tokens, buf),
    decreases buf.len() - i,
{
    if 0 <= i < buf.len() {
        lemma_scan_at_emits(buf, i);
        match scan_at(buf, i) {
            Scan::Skip => {
                lemma_lex_from_valid(buf, i + 1);
            },
            Scan::Emit { token, next } => {
                lemma_lex_from_valid(buf, next);
            },
            Scan::Fail { error } => {},
        }
    }
}

/// The tables of the tokenizer.  They are built once, by [`Lexer::new`], and
/// only read afterwards, so one `Lexer` serves any number of buffers.
pub struct Lexer {
    whitespace: Vec<u8>,
    single_char_symbols: (Vec<u8>, Vec<Token>),
    multi_char_symbols: (Vec<Vec<u8>>, Vec<Token>),
    num_chars: Vec<u8>,
}

/// The white-space bytes, as the table lists them.
pub open spec fn whitespace_table() -> Seq<u8> {
    seq![SPACE, TAB, CARRIAGE_RETURN, LINE_FEED]
}

/// The single-byte symbols, as the table lists them.
pub open spec fn symbol_bytes() -> Seq<u8> {
    seq![LEFT_BRACE, RIGHT_BRACE, LEFT_BRACKET, RIGHT_BRACKET, COMMA, COLON]
}

/// The tokens of the single-byte symbols, in the order of `symbol_bytes`.
pub open spec fn symbol_tokens() -> Seq<Token> {
    seq![
        Token::LeftBrace,
        Token::RightBrace,
        Token::LeftBracket,
        Token::RightBracket,
        Token::Comma,
        Token::Colon,
    ]
}

/// The literal words, as the table lists them.
pub open spec fn literal_words() -> Seq<Seq<u8>> {
    seq![null_word(), true_word(), false_stem()]
}

/// The tokens of the literal words, in the order of `literal_words`.
pub open spec fn literal_tokens() -> Seq<Token> {
    seq![Token::NullVal, Token::BoolVal(true), Token::BoolVal(false)]
}

/// The bytes of a numeric run, as the table lists them: `0123456789.e`.
pub open spec fn number_table() -> Seq<u8> {
    seq![48u8, 49u8, 50u8, 51u8, 52u8, 53u8, 54u8, 55u8, 56u8, 57u8, POINT, EXPONENT_MARK]
}

/// Where `c` first occurs in `table`.
fn table_position(table: &Vec<u8>, c: u8) -> (found: Option<usize>)
    ensures
        match found {
            Some(k) => {
                &&& k < table@.len()
                &&& table@[k as int] == c
                &&& forall|j: int| 0 <= j < k ==> table@[j] != c
            },
            None => forall|j: int| 0 <= j < table@.len() ==> table@[j] != c,
        },
{
    let mut k: usize = 0;
    while k < table.len()
        invariant
            k <= table@.len(),
            forall|j: int| 0 <= j < k ==> table@[j] != c,
        decreases table@.len() - k,
    {
        if table[k] == c {
            return Some(k);
        }
        k = k + 1;
    }
    None
}

impl Lexer {
    #[verifier::type_invariant]
    spec fn tables_hold(self) -> bool {
        &&& self.whitespace@ == whitespace_table()
        &&& self.single_char_symbols.0@ == symbol_bytes()
        &&& self.single_char_symbols.1@ == symbol_tokens()
        &&& self.multi_char_symbols.0@.len() == 3
        &&& forall|k: int| 0 <= k < 3 ==> (#[trigger] self.multi_char_symbols.0@[k])@ == literal_words()[k]
        &&& self.multi_char_symbols.1@ == literal_tokens()
        &&& self.num_chars@ == number_table()
    }

    /// The white-space bytes of the table.
    pub closed spec fn whitespace(&self) -> Seq<u8> {
        self.whitespace@
    }

    /// The single-byte symbols of the table.
    pub closed spec fn symbols(&self) -> Seq<u8> {
        self.single_char_symbols.0@
    }

    /// The tokens of the single-byte symbols, in the order of `symbols`.
    pub closed spec fn symbol_values(&self) -> Seq<Token> {
        self.single_char_symbols.1@
    }

    /// The literal words of the table.
    pub closed spec fn words(&self) -> Seq<Seq<u8>> {
        Seq::new(self.multi_char_symbols.0@.len(), |k: int| self.multi_char_symbols.0@[k]@)
    }

    /// The tokens of the literal words, in the order of `words`.
    pub closed spec fn word_values(&self) -> Seq<Token> {
        self.multi_char_symbols.1@
    }

    /// The bytes of the table that may stand inside a numeric run.
    pub closed spec fn number_bytes(&self) -> Seq<u8> {
        self.num_chars@
    }

    /// Builds the tables.
    pub fn new() -> (lexer: Lexer)
        ensures
            lexer.whitespace() == whitespace_table(),
            lexer.symbols() == symbol_bytes(),
            lexer.symbol_values() == symbol_tokens(),
            lexer.words() == literal_words(),
            lexer.word_values() == literal_tokens(),
            lexer.number_bytes() == number_table(),
    {
        let whitespace: Vec<u8> = vec![SPACE, TAB, CARRIAGE_RETURN, LINE_FEED];
        let single_char_symbols: (Vec<u8>, Vec<Token>) = (
            vec![LEFT_BRACE, RIGHT_BRACE, LEFT_BRACKET, RIGHT_BRACKET, COMMA, COLON],
            vec![
                Token::LeftBrace,
                Token::RightBrace,
                Token::LeftBracket,
                Token::RightBracket,
                Token::Comma,
                Token::Colon,
            ],
        );
        let null: Vec<u8> = vec![110u8, 117u8, 108u8, 108u8];
        let truth: Vec<u8> = vec![116u8, 114u8, 117u8, 101u8];
        let falsehood: Vec<u8> = vec![102u8, 97u8, 108u8, 115u8];
        let mut words: Vec<Vec<u8>> = Vec::new();
        words.push(null);
        words.push(truth);
        words.push(falsehood);
        let multi_char_symbols: (Vec<Vec<u8>>, Vec<Token>) = (
            words,
            vec![Token::NullVal, Token::BoolVal(true), Token::BoolVal(false)],
        );
        let num_chars: Vec<u8> = vec![
            48u8,
            49u8,
            50u8,
            51u8,
            52u8,
            53u8,
            54u8,
            55u8,
            56u8,
            57u8,
            POINT,
            EXPONENT_MARK,
        ];
        assert(whitespace@ =~= whitespace_table());
        assert(single_char_symbols.0@ =~= symbol_bytes());
        assert(single_char_symbols.1@ =~= symbol_tokens());
        assert(multi_char_symbols.0@[0]@ =~= literal_words()[0]);
        assert(multi_char_symbols.0@[1]@ =~= literal_words()[1]);
        assert(multi_char_symbols.0@[2]@ =~= literal_words()[2]);
        assert(multi_char_symbols.1@ =~= literal_tokens());
        assert(num_chars@ =~= number_table());
        let lexer = Lexer { whitespace, single_char_symbols, multi_char_symbols, num_chars };
        assert(lexer.words() =~= literal_words());
        lexer
    }

    /// The token of the literal word `lexeme`, if it is one.
    pub fn lex_multichar_symbol(&self, lexeme: &[u8]) -> (found: Option<Token>)
        ensures
            found == literal_token(lexeme@),
    {
        proof {
            use_type_invariant(self);
        }
        let mut k: usize = 0;
        while k < self.multi_char_symbols.0.len()
            invariant
                k <= 3,
                self.multi_char_symbols.0@.len() == 3,
                forall|j: int|
                    0 <= j < 3 ==> (#[trigger] self.multi_char_symbols.0@[j])@ == literal_words()[j],
                self.multi_char_symbols.1@ == literal_tokens(),
                forall|j: int| 0 <= j < k ==> lexeme@ != #[trigger] literal_words()[j],
            decreases 3 - k,
        {
            if bytes_eq(lexeme, self.multi_char_symbols.0[k].as_slice()) {
                assert(self.multi_char_symbols.0@[k as int]@ == literal_words()[k as int]);
                assert(forall|j: int| 0 <= j < k ==> lexeme@ != #[trigger] literal_words()[j]);
                assert(k > 0 ==> lexeme@ != literal_words()[0]);
                assert(k > 1 ==> lexeme@ != literal_words()[1]);
                return Some(self.multi_char_symbols.1[k]);
            }
            assert(self.multi_char_symbols.0@[k as int]@ == literal_words()[k as int]);
            k = k + 1;
        }
        assert(lexeme@ != literal_words()[0]);
        assert(lexeme@ != literal_words()[1]);
        assert(lexeme@ != literal_words()[2]);
        None
    }

    /// Tells whether `c` is white space.
    fn is_space(&self, c: u8) -> (yes: bool)
        ensures
            yes == is_whitespace(c),
    {
        proof {
            use_type_invariant(self);
        }
        let found = table_position(&self.whitespace, c);
        proof {
            let t = whitespace_table();
            assert(t[0] == SPACE && t[1] == TAB && t[2] == CARRIAGE_RETURN && t[3] == LINE_FEED);
        }
        found.is_some()
    }

    /// The structural token of the byte `c`, if it has one.
    fn symbol(&self, c: u8) -> (found: Option<Token>)
        ensures
            found == symbol_token(c),
    {
        proof {
            use_type_invariant(self);
        }
        let at = table_position(&self.single_char_symbols.0, c);
        proof {
            let t = symbol_bytes();
            assert(t[0] == LEFT_BRACE && t[1] == RIGHT_BRACE && t[2] == LEFT_BRACKET);
            assert(t[3] == RIGHT_BRACKET && t[4] == COMMA && t[5] == COLON);
        }
        match at {
            Some(k) => Some(self.single_char_symbols.1[k]),
            None => None,
        }
    }

    /// Tells whether `c` may stand inside a numeric run.
    fn in_number(&self, c: u8) -> (yes: bool)
        ensures
            yes == is_number_byte(c),
    {
        proof {
            use_type_invariant(self);
        }
        let found = table_position(&self.num_chars, c);
        proof {
            let t = number_table();
            assert(t[0] == 48 && t[1] == 49 && t[2] == 50 && t[3] == 51 && t[4] == 52);
            assert(t[5] == 53 && t[6] == 54 && t[7] == 55 && t[8] == 56 && t[9] == 57);
            assert(t[10] == POINT && t[11] == EXPONENT_MARK);
        }
        found.is_some()
    }

    /// Where the numeric run that holds position `j - 1` ends.
    fn number_run_end(&self, buf: &[u8], j: usize) -> (end: usize)
        requires
            j <= buf@.len(),
        ensures
            end == number_end(buf@, j as int),
            j <= end <= buf@.len(),
    {
        let mut k: usize = j;
        while k < buf.len() && self.in_number(buf[k])
            invariant
                j <= k <= buf@.len(),
                number_end(buf@, j as int) == number_end(buf@, k as int),
            decreases buf@.len() - k,
        {
            k = k + 1;
        }
        k
    }

    /// Cuts `buf` into tokens.
    pub fn lex(&self, buf: &[u8]) -> (result: Result<Vec<Token>, ParseError>)
        ensures
            match result {
                Ok(tokens) => lex_spec(buf@) == Ok::<Seq<Token>, ParseError>(tokens@) && tokens_valid(
                    tokens@,
                    buf@,
                ),
                Err(error) => lex_spec(buf@) == Err::<Seq<Token>, ParseError>(error),
            },
    {
        let mut tokens: Vec<Token> = Vec::new();
        let buf_len: usize = buf.len();
        let mut i: usize = 0;
        assert(followed_by(tokens@, lex_from(buf@, 0)) == lex_from(buf@, 0)) by {
            if let Ok(rest) = lex_from(buf@, 0) {
                assert(tokens@ + rest =~= rest);
            }
        }
        while i < buf_len
            invariant
                buf_len == buf@.len(),
                i <= buf_len,
                lex_spec(buf@) == followed_by(tokens@, lex_from(buf@, i as int)),
                tokens_valid(tokens@, buf@),
            decreases buf_len - i,
        {
            let c: u8 = buf[i];
            proof {
                lemma_scan_at_emits(buf@, i as int);
                if let Scan::Emit { token, next } = scan_at(buf@, i as int) {
                    lemma_followed_by_push(tokens@, token, lex_from(buf@, next));
                }
            }
            if self.is_space(c) {
                i = i + 1;
            } else if let Some(token) = self.symbol(c) {
                tokens.push(token);
                i = i + 1;
            } else if c == QUOTE {
                let j: usize = find_quote(buf, i + 1);
                if j >= buf_len {
                    return Err(ParseError::UnterminatedString { position: i });
                }
                tokens.push(Token::StringVal(i + 1, j));
                i = j + 1;
            } else {
                let end: usize = if buf_len - i >= WORD_LEN {
                    i + WORD_LEN
                } else {
                    buf_len
                };
                match self.lex_multichar_symbol(slice_subrange(buf, i, end)) {
                    Some(token) => {
                        if token == Token::BoolVal(false) {
                            if end < buf_len && buf[end] == LETTER_E {
                                tokens.push(token);
                                i = end + 1;
                            } else {
                                return Err(ParseError::IncompleteLiteral { position: i });
                            }
                        } else {
                            tokens.push(token);
                            i = end;
                        }
                    },
                    None => {
                        if c == MINUS || (DIGIT_ZERO <= c && c <= DIGIT_NINE) {
                            let j: usize = self.number_run_end(buf, i + 1);
                            if !check_number(slice_subrange(buf, i, j)) {
                                return Err(ParseError::MalformedNumber { start: i, end: j });
                            }
                            tokens.push(Token::NumVal(i, j));
                            i = j;
                        } else {
                            return Err(ParseError::UnexpectedByte { byte: c, position: i });
                        }
                    },
                }
            }
        }
        assert(tokens@ + Seq::<Token>::empty() =~= tokens@);
        Ok(tokens)
    }
}

/// Where the first quote at or after `j` stands, or the length of `buf`.
fn find_quote(buf: &[u8], j: usize) -> (end: usize)
    requires
        j <= buf@.len(),
    ensures
        end == quote_end(buf@, j as int),
        j <= end <= buf@.len(),
{
    let mut k: usize = j;
    while k < buf.len() && buf[k] != QUOTE
        invariant
            j <= k <= buf@.len(),
            quote_end(buf@, j as int) == quote_end(buf@, k as int),
        decreases buf@.len() - k,
    {
        k = k + 1;
    }
    k
}

} // verus!
