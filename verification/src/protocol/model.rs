//! The mathematical model of the wire format.

use crate::decimal::{decimal_text, parse_decimal};
use vstd::prelude::*;
use vstd::utf8::*;

verus! {

pub const CR: u8 = 0x0d;

pub const LF: u8 = 0x0a;

pub const SIMPLE_MARK: u8 = 0x2b;

pub const ERROR_MARK: u8 = 0x2d;

pub const INTEGER_MARK: u8 = 0x3a;

pub const BULK_MARK: u8 = 0x24;

pub const ARRAY_MARK: u8 = 0x2a;

/// The largest element count that an array frame may declare. A larger
/// count is a format error: it is refused at once instead of being waited
/// for.
pub const MAX_ARRAY_LEN: i64 = 1048576;

/// A protocol value as mathematics: text is a sequence of characters, an
/// absent bulk string is `None`.
pub enum Frame {
    Simple(Seq<char>),
    Error(Seq<char>),
    Integer(int),
    Bulk(Option<Seq<char>>),
    Array(Seq<Frame>),
}

/// What decoding a buffer comes to.
pub enum Decoded {
    /// A whole frame stood at the start of the buffer and took up this many
    /// bytes.
    Complete(Frame, int),
    /// The buffer ends before the frame does.
    Incomplete,
    /// The buffer cannot be the start of any frame, whatever follows it: a
    /// marker that is none, a length or an integer that is no number, a
    /// length below -1, an array count above `MAX_ARRAY_LEN`, a bulk string
    /// without its terminator, or bytes that are no text.
    Invalid,
}

/// What decoding a run of frames comes to.
pub enum DecodedItems {
    Complete(Seq<Frame>, int),
    Incomplete,
    Invalid,
}

/// The line terminator.
pub open spec fn crlf() -> Seq<u8> {
    seq![CR, LF]
}

/// A terminator stands at position `i` of `buf`.
pub open spec fn crlf_at(buf: Seq<u8>, i: int) -> bool {
    0 <= i && i + 1 < buf.len() && buf[i] == CR && buf[i + 1] == LF
}

/// The position of the first terminator at or after `from`.
pub open spec fn find_crlf(buf: Seq<u8>, from: int) -> Option<int>
    decreases buf.len() - from,
{
    if from < 0 || from + 1 >= buf.len() {
        None
    } else if buf[from] == CR && buf[from + 1] == LF {
        Some(from)
    } else {
        find_crlf(buf, from + 1)
    }
}

/// The bytes that a frame is sent as.
pub open spec fn wire(f: Frame) -> Seq<u8>
    decreases f, 0nat,
{
    match f {
        Frame::Simple(t) => seq![SIMPLE_MARK] + encode_utf8(t) + crlf(),
        Frame::Error(t) => seq![ERROR_MARK] + encode_utf8(t) + crlf(),
        Frame::Integer(n) => seq![INTEGER_MARK] + decimal_text(n) + crlf(),
        Frame::Bulk(None) => seq![BULK_MARK] + decimal_text(-1) + crlf(),
        Frame::Bulk(Some(t)) => seq![BULK_MARK] + decimal_text(encode_utf8(t).len() as int)
            + crlf() + encode_utf8(t) + crlf(),
        Frame::Array(items) => seq![ARRAY_MARK] + decimal_text(items.len() as int) + crlf()
            + wire_all(items),
    }
}

/// The bytes of several frames, one after the other.
pub open spec fn wire_all(items: Seq<Frame>) -> Seq<u8>
    decreases items, items.len(),
{
    if items.len() == 0 {
        Seq::<u8>::empty()
    } else {
        wire(items[0]) + wire_all(items.drop_first())
    }
}

/// Decodes the line-terminated text frame (`+` or `-`) at the start of
/// `buf`.
pub open spec fn decode_line(buf: Seq<u8>, error: bool) -> Decoded {
    match find_crlf(buf, 1) {
        None => Decoded::Incomplete,
        Some(end) => {
            let line = buf.subrange(1, end);
            if !valid_utf8(line) {
                Decoded::Invalid
            } else if error {
                Decoded::Complete(Frame::Error(decode_utf8(line)), end + 2)
            } else {
                Decoded::Complete(Frame::Simple(decode_utf8(line)), end + 2)
            }
        },
    }
}

/// Decodes the integer frame at the start of `buf`.
pub open spec fn decode_integer(buf: Seq<u8>) -> Decoded {
    match find_crlf(buf, 1) {
        None => Decoded::Incomplete,
        Some(end) => match parse_decimal(buf.subrange(1, end)) {
            None => Decoded::Invalid,
            Some(n) => Decoded::Complete(Frame::Integer(n), end + 2),
        },
    }
}

/// Decodes the bulk string frame at the start of `buf`.
pub open spec fn decode_bulk(buf: Seq<u8>) -> Decoded {
    match find_crlf(buf, 1) {
        None => Decoded::Incomplete,
        Some(end) => match parse_decimal(buf.subrange(1, end)) {
            None => Decoded::Invalid,
            Some(n) => {
                let start = end + 2;
                let stop = start + n;
                if n == -1 {
                    Decoded::Complete(Frame::Bulk(None), start)
                } else if n < -1 {
                    Decoded::Invalid
                } else if buf.len() < stop + 2 {
                    Decoded::Incomplete
                } else if !(buf[stop] == CR && buf[stop + 1] == LF) {
                    Decoded::Invalid
                } else if !valid_utf8(buf.subrange(start, stop)) {
                    Decoded::Invalid
                } else {
                    Decoded::Complete(
                        Frame::Bulk(Some(decode_utf8(buf.subrange(start, stop)))),
                        stop + 2,
                    )
                }
            },
        },
    }
}

/// The array frame whose header took up `start` bytes and whose elements
/// came to `items`.
pub open spec fn array_from(items: DecodedItems, start: int) -> Decoded {
    match items {
        DecodedItems::Complete(frames, used) => Decoded::Complete(
            Frame::Array(frames),
            start + used,
        ),
        DecodedItems::Incomplete => Decoded::Incomplete,
        DecodedItems::Invalid => Decoded::Invalid,
    }
}

/// Decodes the array frame at the start of `buf`.
pub open spec fn decode_array(buf: Seq<u8>) -> Decoded
    decreases buf.len(), 0nat, 0nat,
{
    match find_crlf(buf, 1) {
        None => Decoded::Incomplete,
        Some(end) => match parse_decimal(buf.subrange(1, end)) {
            None => Decoded::Invalid,
            Some(n) => {
                let start = end + 2;
                if n == -1 {
                    Decoded::Complete(Frame::Array(Seq::empty()), start)
                } else if n < -1 || n > MAX_ARRAY_LEN {
                    Decoded::Invalid
                } else if !(0 < start <= buf.len()) {
                    Decoded::Invalid
                } else {
                    array_from(decode_items(buf.skip(start), n as nat), start)
                }
            },
        },
    }
}

/// Decodes `count` frames standing one after the other at the start of
/// `buf`.
pub open spec fn decode_items(buf: Seq<u8>, count: nat) -> DecodedItems
    decreases buf.len(), count, 1nat,
{
    if count == 0 {
        DecodedItems::Complete(Seq::empty(), 0)
    } else {
        match decode(buf) {
            Decoded::Complete(first, used) => {
                if !(0 < used <= buf.len()) {
                    DecodedItems::Invalid
                } else {
                    match decode_items(buf.skip(used), (count - 1) as nat) {
                        DecodedItems::Complete(rest, more) => DecodedItems::Complete(
                            seq![first] + rest,
                            used + more,
                        ),
                        other => other,
                    }
                }
            },
            Decoded::Incomplete => DecodedItems::Incomplete,
            Decoded::Invalid => DecodedItems::Invalid,
        }
    }
}

/// Decodes the frame at the start of `buf`: the first byte says which kind
/// of frame it is.
pub open spec fn decode(buf: Seq<u8>) -> Decoded
    decreases buf.len(), 0nat, 1nat,
{
    if buf.len() == 0 {
        Decoded::Incomplete
    } else if buf[0] == SIMPLE_MARK {
        decode_line(buf, false)
    } else if buf[0] == ERROR_MARK {
        decode_line(buf, true)
    } else if buf[0] == INTEGER_MARK {
        decode_integer(buf)
    } else if buf[0] == BULK_MARK {
        decode_bulk(buf)
    } else if buf[0] == ARRAY_MARK {
        decode_array(buf)
    } else {
        Decoded::Invalid
    }
}

} // verus!
