//! Text as UTF-8 bytes.

use crate::decimal::{decimal_text, is_digit, lemma_nat_digits, nat_digits};
use vstd::prelude::*;
use vstd::utf8::*;

verus! {

/// Every byte of `b` is below 128.
pub open spec fn is_ascii_bytes(b: Seq<u8>) -> bool {
    forall|i: int| 0 <= i < b.len() ==> #[trigger] b[i] < 0x80
}

/// The characters that ASCII bytes stand for, one per byte.
pub open spec fn ascii_text(b: Seq<u8>) -> Seq<char> {
    Seq::new(b.len(), |i: int| b[i] as char)
}

/// ASCII bytes are valid UTF-8 and stand for one character each.
pub proof fn lemma_ascii_bytes(b: Seq<u8>)
    requires
        is_ascii_bytes(b),
    ensures
        valid_utf8(b),
        decode_utf8(b) == ascii_text(b),
        encode_utf8(ascii_text(b)) == b,
{
    let c = ascii_text(b);
    assert(is_ascii_chars(c)) by {
        assert forall|i: int| 0 <= i < c.len() implies '\0' <= #[trigger] c[i] <= '\u{7f}' by {
            assert(b[i] < 0x80);
        }
    }
    is_ascii_chars_encode_utf8(c);
    assert(encode_utf8(c) =~= b) by {
        assert forall|i: int| 0 <= i < b.len() implies encode_utf8(c)[i] == b[i] by {
            assert(c[i] as u8 == encode_utf8(c)[i]);
            assert(b[i] < 0x80);
        }
    }
    encode_utf8_valid_utf8(c);
    encode_utf8_decode_utf8(c);
}

/// Reads bytes as UTF-8 text with `std::str::from_utf8`, which succeeds
/// exactly on valid UTF-8 and then gives the text that the bytes encode.
#[verifier::external_body]
pub(crate) fn utf8_str(bytes: &[u8]) -> (r: Option<&str>)
    ensures
        r is Some <==> valid_utf8(bytes@),
        r matches Some(s) ==> s@ == decode_utf8(bytes@),
{
    match std::str::from_utf8(bytes) {
        Ok(s) => Some(s),
        Err(_) => None,
    }
}

/// The text that the bytes `bytes[start..end]` encode, if they are valid
/// UTF-8.
pub fn text_of(bytes: &[u8], start: usize, end: usize) -> (r: Option<String>)
    requires
        start <= end <= bytes@.len(),
    ensures
        r is Some <==> valid_utf8(bytes@.subrange(start as int, end as int)),
        r matches Some(s) ==> s@ == decode_utf8(bytes@.subrange(start as int, end as int)),
{
    match utf8_str(vstd::slice::slice_subrange(bytes, start, end)) {
        Some(s) => Some(s.to_owned()),
        None => None,
    }
}

/// The text of an integer is ASCII.
pub proof fn lemma_decimal_text_ascii(n: int)
    ensures
        is_ascii_bytes(decimal_text(n)),
        valid_utf8(decimal_text(n)),
{
    let t = decimal_text(n);
    let m = (if n < 0 {
        -n
    } else {
        n
    }) as nat;
    lemma_nat_digits(m);
    assert(is_ascii_bytes(t)) by {
        assert forall|i: int| 0 <= i < t.len() implies #[trigger] t[i] < 0x80 by {
            if n < 0 {
                if i > 0 {
                    assert(is_digit(nat_digits(m)[i - 1]));
                }
            } else {
                assert(is_digit(nat_digits(m)[i]));
            }
        }
    }
    lemma_ascii_bytes(t);
}

/// ASCII bytes as text, one character per byte.
pub fn ascii_string(bytes: &[u8]) -> (r: String)
    requires
        is_ascii_bytes(bytes@),
    ensures
        r@ == ascii_text(bytes@),
{
    proof {
        lemma_ascii_bytes(bytes@);
    }
    utf8_str(bytes).unwrap().to_owned()
}

} // verus!
