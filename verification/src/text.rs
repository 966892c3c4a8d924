//! Turning a byte range of the buffer into owned text.

use crate::error::ParseError;
use vstd::prelude::*;
use vstd::slice::slice_subrange;
use vstd::slice::slice_to_vec;
use vstd::string::StringSliceAdditionalSpecFns;
use vstd::utf8::decode_utf8;
use vstd::utf8::encode_utf8;
use vstd::utf8::encode_utf8_decode_utf8;
use vstd::utf8::encode_utf8_valid_utf8;
use vstd::utf8::is_ascii_chars;
use vstd::utf8::is_ascii_chars_encode_utf8;
use vstd::utf8::valid_utf8;

verus! {

/// The error of `String::from_utf8`, as an opaque type: nothing is read
/// from it.
#[verifier::external_type_specification]
#[verifier::external_body]
pub struct ExFromUtf8Error(std::string::FromUtf8Error);

/// `String::from_utf8` of the standard library.  The contract is what its
/// documentation says: the call fails exactly when the bytes are not valid
/// UTF-8, and on success the string holds the characters that the bytes
/// encode.  It is believed, not proved.
pub assume_specification[ String::from_utf8 ](vec: Vec<u8>) -> (res: Result<String, std::string::FromUtf8Error>)
    ensures
        res is Ok <==> valid_utf8(vec@),
        res matches Ok(s) ==> s@ == decode_utf8(vec@),
;

/// The text that the bytes `[start, end)` of `buf` encode, or the error that
/// names the range when they are not valid UTF-8.
pub open spec fn text_spec(buf: Seq<u8>, start: int, end: int) -> Result<Seq<char>, ParseError> {
    let bytes = buf.subrange(start, end);
    if valid_utf8(bytes) {
        Ok(decode_utf8(bytes))
    } else {
        Err(ParseError::InvalidTextEncoding { start: start as usize, end: end as usize })
    }
}

/// `r` is the executable form of the result `expected`.
pub open spec fn text_result_is(r: Result<String, ParseError>, expected: Result<Seq<char>, ParseError>) -> bool {
    match r {
        Ok(s) => expected == Ok::<Seq<char>, ParseError>(s@),
        Err(e) => expected == Err::<Seq<char>, ParseError>(e),
    }
}

/// Copies the bytes `[start, end)` out of `buf` and decodes them.
pub fn materialize(buf: &[u8], start: usize, end: usize) -> (r: Result<String, ParseError>)
    requires
        start <= end <= buf@.len(),
    ensures
        text_result_is(r, text_spec(buf@, start as int, end as int)),
{
    let bytes: Vec<u8> = slice_to_vec(slice_subrange(buf, start, end));
    match String::from_utf8(bytes) {
        Ok(s) => Ok(s),
        Err(_) => Err(ParseError::InvalidTextEncoding { start, end }),
    }
}

/// Bytes below 128 are valid UTF-8, and each of them is one character.
pub proof fn lemma_ascii_is_utf8(bytes: Seq<u8>)
    requires
        forall|k: int| 0 <= k < bytes.len() ==> #[trigger] bytes[k] < 128,
    ensures
        valid_utf8(bytes),
        decode_utf8(bytes) == ascii_text(bytes),
{
    let chars = Seq::new(bytes.len(), |k: int| bytes[k] as char);
    assert(is_ascii_chars(chars)) by {
        assert forall|k: int| 0 <= k < chars.len() implies '\0' <= #[trigger] chars[k] <= '\u{7f}' by {
            assert(bytes[k] < 128);
        }
    }
    is_ascii_chars_encode_utf8(chars);
    assert(encode_utf8(chars) =~= bytes) by {
        assert forall|k: int| 0 <= k < bytes.len() implies encode_utf8(chars)[k] == bytes[k] by {
            assert(chars[k] as u8 == encode_utf8(chars)[k]);
            assert(bytes[k] < 128);
        }
    }
    encode_utf8_valid_utf8(chars);
    encode_utf8_decode_utf8(chars);
}

/// The characters that bytes below 128 stand for, one for each byte.
pub open spec fn ascii_text(bytes: Seq<u8>) -> Seq<char> {
    Seq::new(bytes.len(), |k: int| bytes[k] as char)
}

/// The decimal digits of `n`, as bytes, without leading zeros.
pub open spec fn decimal_bytes(n: nat) -> Seq<u8>
    decreases n,
{
    if n < 10 {
        seq![(48 + n) as u8]
    } else {
        decimal_bytes(n / 10).push((48 + n % 10) as u8)
    }
}

/// The decimal digits of `n`, as text.
pub open spec fn decimal(n: nat) -> Seq<char> {
    ascii_text(decimal_bytes(n))
}

/// The decimal digits of a number are digits, and there is at least one.
pub proof fn lemma_decimal_bytes(n: nat)
    ensures
        decimal_bytes(n).len() > 0,
        forall|k: int| 0 <= k < decimal_bytes(n).len() ==> 48 <= #[trigger] decimal_bytes(n)[k] <= 57,
    decreases n,
{
    if n >= 10 {
        lemma_decimal_bytes(n / 10);
    }
}

/// Appends the decimal digits of `n` to `out`.
fn push_decimal(n: usize, out: &mut Vec<u8>)
    ensures
        final(out)@ == old(out)@ + decimal_bytes(n as nat),
    decreases n,
{
    if n >= 10 {
        push_decimal(n / 10, out);
    }
    let digit: u8 = 48 + (n % 10) as u8;
    out.push(digit);
    proof {
        if n >= 10 {
            assert(old(out)@ + decimal_bytes(n as nat) =~= (old(out)@ + decimal_bytes((n / 10) as nat)).push(
                digit,
            ));
        } else {
            assert(old(out)@ + decimal_bytes(n as nat) =~= old(out)@.push(digit));
        }
    }
}

/// Writes `n` in decimal digits.
pub fn decimal_text(n: usize) -> (text: String)
    ensures
        text@ == decimal(n as nat),
{
    let mut bytes: Vec<u8> = Vec::new();
    push_decimal(n, &mut bytes);
    proof {
        assert(bytes@ =~= decimal_bytes(n as nat));
        lemma_decimal_bytes(n as nat);
        lemma_ascii_is_utf8(bytes@);
    }
    match String::from_utf8(bytes) {
        Ok(text) => text,
        // Digits are valid UTF-8, so this arm is never taken.
        Err(_) => String::new(),
    }
}

/// Tells whether two byte slices hold the same bytes.
pub fn bytes_eq(a: &[u8], b: &[u8]) -> (same: bool)
    ensures
        same == (a@ == b@),
{
    if a.len() != b.len() {
        return false;
    }
    let mut i: usize = 0;
    while i < a.len()
        invariant
            a@.len() == b@.len(),
            i <= a@.len(),
            forall|k: int| 0 <= k < i ==> a@[k] == b@[k],
        decreases a@.len() - i,
    {
        if a[i] != b[i] {
            return false;
        }
        i = i + 1;
    }
    assert(a@ =~= b@);
    true
}

/// Tells whether two strings hold the same characters.
pub fn same_text(a: &str, b: &str) -> (same: bool)
    ensures
        same == (a@ == b@),
{
    proof {
        encode_utf8_decode_utf8(a@);
        encode_utf8_decode_utf8(b@);
    }
    bytes_eq(a.as_bytes(), b.as_bytes())
}

} // verus!
