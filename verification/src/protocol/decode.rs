//! Decoding wire bytes to values.

use crate::decimal::parse_i64;
use crate::protocol::model::{
    array_from, decode, decode_array, decode_bulk, decode_integer, decode_items, decode_line,
    find_crlf, DecodedItems, Frame, ARRAY_MARK, BULK_MARK, CR, ERROR_MARK,
    INTEGER_MARK, LF, MAX_ARRAY_LEN, SIMPLE_MARK,
};
use crate::protocol::value::{frames_of, outcome, RespError, RespValue};
use crate::text::text_of;
use vstd::prelude::*;
use vstd::slice::slice_subrange;
use vstd::utf8::encode_utf8;

verus! {

/// The position of the first line terminator of `input` at or after
/// `from`.
pub fn find_line_end(input: &[u8], from: usize) -> (r: Option<usize>)
    ensures
        match r {
            Some(i) => find_crlf(input@, from as int) == Some(i as int) && from <= i && i + 1
                < input@.len() && i + 2 <= usize::MAX,
            None => find_crlf(input@, from as int) is None,
        },
{
    let n = input.len();
    let mut i: usize = from;
    while i < n && n - i >= 2
        invariant
            n == input@.len(),
            from <= i,
            find_crlf(input@, from as int) == find_crlf(input@, i as int),
        decreases n - i,
    {
        if input[i] == CR && input[i + 1] == LF {
            return Some(i);
        }
        i = i + 1;
    }
    None
}

/// Decodes the simple string frame at the start of `input`.
pub fn parse_simple_string(input: &[u8]) -> (r: Result<(RespValue, usize), RespError>)
    ensures
        outcome(r) == Some(decode_line(input@, false)),
        r matches Ok((_, used)) ==> 0 < used <= input@.len(),
{
    match find_line_end(input, 1) {
        None => Err(RespError::Incomplete),
        Some(end) => match text_of(input, 1, end) {
            None => Err(RespError::InvalidFormat),
            Some(s) => Ok((RespValue::SimpleString(s), end + 2)),
        },
    }
}

/// Decodes the error frame at the start of `input`.
pub fn parse_error(input: &[u8]) -> (r: Result<(RespValue, usize), RespError>)
    ensures
        outcome(r) == Some(decode_line(input@, true)),
        r matches Ok((_, used)) ==> 0 < used <= input@.len(),
{
    match find_line_end(input, 1) {
        None => Err(RespError::Incomplete),
        Some(end) => match text_of(input, 1, end) {
            None => Err(RespError::InvalidFormat),
            Some(s) => Ok((RespValue::Error(s), end + 2)),
        },
    }
}

/// Decodes the integer frame at the start of `input`.
pub fn parse_integer(input: &[u8]) -> (r: Result<(RespValue, usize), RespError>)
    ensures
        outcome(r) == Some(decode_integer(input@)),
        r matches Ok((_, used)) ==> 0 < used <= input@.len(),
{
    match find_line_end(input, 1) {
        None => Err(RespError::Incomplete),
        Some(end) => match parse_i64(input, 1, end) {
            None => Err(RespError::InvalidFormat),
            Some(n) => Ok((RespValue::Integer(n), end + 2)),
        },
    }
}

/// Decodes the bulk string frame at the start of `input`.
pub fn parse_bulk_string(input: &[u8]) -> (r: Result<(RespValue, usize), RespError>)
    ensures
        outcome(r) == Some(decode_bulk(input@)),
        r matches Ok((_, used)) ==> 0 < used <= input@.len(),
{
    let end = match find_line_end(input, 1) {
        None => { return Err(RespError::Incomplete); },
        Some(end) => end,
    };
    let n = match parse_i64(input, 1, end) {
        None => { return Err(RespError::InvalidFormat); },
        Some(n) => n,
    };
    let start: usize = end + 2;
    if n == -1 {
        return Ok((RespValue::BulkString(None), start));
    }
    if n < -1 {
        return Err(RespError::InvalidFormat);
    }
    let room: usize = input.len() - start;
    if room < 2 || n as u64 > (room - 2) as u64 {
        return Err(RespError::Incomplete);
    }
    let stop: usize = start + n as usize;
    if input[stop] != CR || input[stop + 1] != LF {
        return Err(RespError::InvalidFormat);
    }
    match text_of(input, start, stop) {
        None => Err(RespError::InvalidFormat),
        Some(s) => Ok((RespValue::BulkString(Some(s)), stop + 2)),
    }
}

/// What decoding a run of frames comes to once `taken` frames, which took
/// up `offset` bytes, have been decoded and `rest` is what the others come
/// to.
pub open spec fn after_taken(taken: Seq<Frame>, offset: int, rest: DecodedItems) -> DecodedItems {
    match rest {
        DecodedItems::Complete(items, used) => DecodedItems::Complete(taken + items, offset + used),
        other => other,
    }
}

/// Decodes the array frame at the start of `input`.
pub fn parse_array(input: &[u8]) -> (r: Result<(RespValue, usize), RespError>)
    ensures
        outcome(r) == Some(decode_array(input@)),
        r matches Ok((_, used)) ==> 0 < used <= input@.len(),
    decreases input@.len(), 0nat,
{
    let end = match find_line_end(input, 1) {
        None => { return Err(RespError::Incomplete); },
        Some(end) => end,
    };
    let n = match parse_i64(input, 1, end) {
        None => { return Err(RespError::InvalidFormat); },
        Some(n) => n,
    };
    let start: usize = end + 2;
    if n == -1 {
        return Ok((RespValue::Array(Vec::new()), start));
    }
    if n < -1 || n > MAX_ARRAY_LEN {
        return Err(RespError::InvalidFormat);
    }
    let len: usize = input.len();
    let mut pos: usize = start;
    let mut items: Vec<RespValue> = Vec::new();
    let mut i: i64 = 0;
    assert(input@.skip(start as int).len() == len - start);
    while i < n
        invariant
            len == input@.len(),
            0 < start <= pos <= len,
            0 <= i <= n <= MAX_ARRAY_LEN,
            decode_array(input@) == array_from(
                decode_items(input@.skip(start as int), n as nat),
                start as int,
            ),
            decode_items(input@.skip(start as int), n as nat) == after_taken(
                frames_of(items@),
                pos - start,
                decode_items(input@.skip(pos as int), (n - i) as nat),
            ),
        decreases n - i,
    {
        let rest = slice_subrange(input, pos, len);
        assert(rest@ == input@.skip(pos as int));
        match parse_bytes(rest) {
            Err(e) => {
                return Err(e);
            },
            Ok((value, used)) => {
                proof {
                    let taken = frames_of(items@);
                    let next = decode_items(
                        input@.skip((pos + used) as int),
                        (n - i - 1) as nat,
                    );
                    assert(rest@.skip(used as int) =~= input@.skip((pos + used) as int));
                    assert(items@.push(value).drop_last() =~= items@);
                    assert(frames_of(items@.push(value)) == taken.push(value@));
                    match next {
                        DecodedItems::Complete(more, extra) => {
                            assert(taken + (seq![value@] + more) =~= taken.push(value@) + more);
                        },
                        _ => {},
                    }
                }
                items.push(value);
                pos = pos + used;
                i = i + 1;
            },
        }
    }
    assert(frames_of(items@) + Seq::<Frame>::empty() =~= frames_of(items@));
    Ok((RespValue::Array(items), pos))
}

/// Decodes the frame at the start of `input`.
///
/// `Err(Incomplete)` says that `input` ends before the frame does; the other
/// errors say that no frame starts with these bytes, whatever follows.
pub fn parse_bytes(input: &[u8]) -> (r: Result<(RespValue, usize), RespError>)
    ensures
        outcome(r) == Some(decode(input@)),
        r matches Ok((_, used)) ==> 0 < used <= input@.len(),
    decreases input@.len(), 1nat,
{
    if input.len() == 0 {
        return Err(RespError::Incomplete);
    }
    let mark: u8 = input[0];
    if mark == SIMPLE_MARK {
        parse_simple_string(input)
    } else if mark == ERROR_MARK {
        parse_error(input)
    } else if mark == INTEGER_MARK {
        parse_integer(input)
    } else if mark == BULK_MARK {
        parse_bulk_string(input)
    } else if mark == ARRAY_MARK {
        parse_array(input)
    } else {
        Err(RespError::InvalidFormat)
    }
}

/// Decodes the frame at the start of `input`, read as its UTF-8 bytes, and
/// says how many bytes the frame took up.
pub fn parse_resp(input: &str) -> (r: Result<(RespValue, usize), RespError>)
    ensures
        outcome(r) == Some(decode(encode_utf8(input@))),
        r matches Ok((_, used)) ==> 0 < used <= encode_utf8(input@).len(),
{
    parse_bytes(input.as_bytes())
}

} // verus!
