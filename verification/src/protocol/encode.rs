//! Encoding values to wire bytes.

use crate::decimal::{decimal_text, push_digits, push_i64};
use crate::protocol::model::{
    crlf, wire, wire_all, Frame, ARRAY_MARK, BULK_MARK, CR, ERROR_MARK, INTEGER_MARK, LF,
    SIMPLE_MARK,
};
use crate::protocol::value::{frames_of, lemma_frames_of, RespValue};
use crate::text::{is_ascii_bytes, lemma_ascii_bytes, lemma_decimal_text_ascii, utf8_str};
use vstd::prelude::*;
use vstd::utf8::{
    decode_utf8, decode_utf8_encode_utf8, encode_utf8, encode_utf8_valid_utf8, valid_utf8,
    valid_utf8_concat,
};

verus! {

/// The bytes of a run of frames that ends with `last` are those of the run
/// before it, then those of `last`.
pub proof fn lemma_wire_all_push(items: Seq<Frame>, last: Frame)
    ensures
        wire_all(items.push(last)) == wire_all(items) + wire(last),
    decreases items.len(),
{
    let all = items.push(last);
    if items.len() == 0 {
        assert(all.drop_first() =~= Seq::<Frame>::empty());
        assert(wire_all(all) =~= wire(last) + wire_all(all.drop_first()));
        assert(wire_all(all) =~= wire_all(items) + wire(last));
    } else {
        lemma_wire_all_push(items.drop_first(), last);
        assert(all.drop_first() =~= items.drop_first().push(last));
        assert(wire_all(all) =~= wire_all(items) + wire(last));
    }
}

/// The bytes of a frame are valid UTF-8.
pub proof fn lemma_wire_valid(f: Frame)
    ensures
        valid_utf8(wire(f)),
    decreases f, 0nat,
{
    let end = crlf();
    assert(is_ascii_bytes(end));
    lemma_ascii_bytes(end);
    match f {
        Frame::Simple(t) => {
            let mark = seq![SIMPLE_MARK];
            assert(is_ascii_bytes(mark));
            lemma_ascii_bytes(mark);
            encode_utf8_valid_utf8(t);
            valid_utf8_concat(mark, encode_utf8(t));
            valid_utf8_concat(mark + encode_utf8(t), end);
        },
        Frame::Error(t) => {
            let mark = seq![ERROR_MARK];
            assert(is_ascii_bytes(mark));
            lemma_ascii_bytes(mark);
            encode_utf8_valid_utf8(t);
            valid_utf8_concat(mark, encode_utf8(t));
            valid_utf8_concat(mark + encode_utf8(t), end);
        },
        Frame::Integer(n) => {
            let mark = seq![INTEGER_MARK];
            assert(is_ascii_bytes(mark));
            lemma_ascii_bytes(mark);
            lemma_decimal_text_ascii(n);
            valid_utf8_concat(mark, decimal_text(n));
            valid_utf8_concat(mark + decimal_text(n), end);
        },
        Frame::Bulk(None) => {
            let mark = seq![BULK_MARK];
            assert(is_ascii_bytes(mark));
            lemma_ascii_bytes(mark);
            lemma_decimal_text_ascii(-1);
            valid_utf8_concat(mark, decimal_text(-1));
            valid_utf8_concat(mark + decimal_text(-1), end);
        },
        Frame::Bulk(Some(t)) => {
            let mark = seq![BULK_MARK];
            let size = decimal_text(encode_utf8(t).len() as int);
            assert(is_ascii_bytes(mark));
            lemma_ascii_bytes(mark);
            lemma_decimal_text_ascii(encode_utf8(t).len() as int);
            encode_utf8_valid_utf8(t);
            valid_utf8_concat(mark, size);
            valid_utf8_concat(mark + size, end);
            valid_utf8_concat(mark + size + end, encode_utf8(t));
            valid_utf8_concat(mark + size + end + encode_utf8(t), end);
        },
        Frame::Array(items) => {
            let mark = seq![ARRAY_MARK];
            let size = decimal_text(items.len() as int);
            assert(is_ascii_bytes(mark));
            lemma_ascii_bytes(mark);
            lemma_decimal_text_ascii(items.len() as int);
            lemma_wire_all_valid(items);
            valid_utf8_concat(mark, size);
            valid_utf8_concat(mark + size, end);
            valid_utf8_concat(mark + size + end, wire_all(items));
        },
    }
}

/// The bytes of a run of frames are valid UTF-8.
pub proof fn lemma_wire_all_valid(items: Seq<Frame>)
    ensures
        valid_utf8(wire_all(items)),
    decreases items, items.len(),
{
    if items.len() == 0 {
        assert(wire_all(items) =~= Seq::<u8>::empty());
        assert(is_ascii_bytes(wire_all(items)));
        lemma_ascii_bytes(wire_all(items));
    } else {
        lemma_wire_valid(items[0]);
        let rest = items.drop_first();
        lemma_wire_all_valid(rest);
        valid_utf8_concat(wire(items[0]), wire_all(rest));
    }
}

/// Appends the line terminator to `out`.
fn push_crlf(out: &mut Vec<u8>)
    ensures
        final(out)@ == old(out)@ + crlf(),
{
    out.push(CR);
    out.push(LF);
    assert(final(out)@ =~= old(out)@ + crlf());
}

/// Appends the UTF-8 bytes of `text` to `out`.
fn push_text(out: &mut Vec<u8>, text: &str)
    ensures
        final(out)@ == old(out)@ + encode_utf8(text@),
{
    out.extend_from_slice(text.as_bytes());
    assert(final(out)@ =~= old(out)@ + encode_utf8(text@));
}

/// Appends the wire bytes of each value of `items`, in order, to `out`.
fn encode_all(items: &Vec<RespValue>, out: &mut Vec<u8>)
    ensures
        final(out)@ == old(out)@ + wire_all(frames_of(items@)),
    decreases items, 0nat,
{
    let ghost frames = frames_of(items@);
    proof {
        lemma_frames_of(items@);
        assert(frames.subrange(0, 0) =~= Seq::<Frame>::empty());
        assert(out@ =~= old(out)@ + wire_all(frames.subrange(0, 0)));
    }
    let mut i: usize = 0;
    while i < items.len()
        invariant
            0 <= i <= items@.len(),
            frames == frames_of(items@),
            frames.len() == items@.len(),
            forall|j: int| 0 <= j < items@.len() ==> (#[trigger] frames[j]) == items@[j]@,
            out@ == old(out)@ + wire_all(frames.subrange(0, i as int)),
        decreases items@.len() - i,
    {
        proof {
            vstd::std_specs::vec::axiom_vec_index_decreases(*items, i as int);
        }
        items[i].encode_into(out);
        proof {
            lemma_wire_all_push(frames.subrange(0, i as int), frames[i as int]);
            assert(frames.subrange(0, i as int).push(frames[i as int]) =~= frames.subrange(
                0,
                i + 1,
            ));
            assert(out@ =~= old(out)@ + wire_all(frames.subrange(0, i + 1)));
        }
        i = i + 1;
    }
    assert(frames.subrange(0, i as int) =~= frames);
}

impl RespValue {
    /// Appends the wire bytes of this value to `out`.
    pub fn encode_into(&self, out: &mut Vec<u8>)
        ensures
            final(out)@ == old(out)@ + wire(self@),
        decreases self, 1nat,
    {
        match self {
            RespValue::SimpleString(s) => {
                out.push(SIMPLE_MARK);
                push_text(out, s.as_str());
                push_crlf(out);
                assert(final(out)@ =~= old(out)@ + wire(self@));
            },
            RespValue::Error(s) => {
                out.push(ERROR_MARK);
                push_text(out, s.as_str());
                push_crlf(out);
                assert(final(out)@ =~= old(out)@ + wire(self@));
            },
            RespValue::Integer(n) => {
                out.push(INTEGER_MARK);
                push_i64(out, *n);
                push_crlf(out);
                assert(final(out)@ =~= old(out)@ + wire(self@));
            },
            RespValue::BulkString(None) => {
                out.push(BULK_MARK);
                push_i64(out, -1);
                push_crlf(out);
                assert(final(out)@ =~= old(out)@ + wire(self@));
            },
            RespValue::BulkString(Some(s)) => {
                let text = s.as_str();
                let size = text.as_bytes().len();
                out.push(BULK_MARK);
                push_digits(out, size as u64);
                push_crlf(out);
                push_text(out, text);
                push_crlf(out);
                assert(size == encode_utf8(s@).len());
                assert(final(out)@ =~= old(out)@ + wire(self@));
            },
            RespValue::Array(items) => {
                out.push(ARRAY_MARK);
                push_digits(out, items.len() as u64);
                push_crlf(out);
                encode_all(items, out);
                proof {
                    lemma_frames_of(items@);
                }
                assert(final(out)@ =~= old(out)@ + wire(self@));
            },
        }
    }

    /// The wire bytes of this value.
    pub fn encode(&self) -> (r: Vec<u8>)
        ensures
            r@ == wire(self@),
    {
        let mut out: Vec<u8> = Vec::new();
        self.encode_into(&mut out);
        assert(out@ =~= wire(self@));
        out
    }

    /// The wire form of this value as text: the text whose UTF-8 bytes are
    /// `wire` of this value.
    pub fn to_string(&self) -> (r: String)
        ensures
            encode_utf8(r@) == wire(self@),
            r@ == decode_utf8(wire(self@)),
    {
        let bytes = self.encode();
        proof {
            lemma_wire_valid(self@);
            decode_utf8_encode_utf8(wire(self@));
        }
        utf8_str(bytes.as_slice()).unwrap().to_owned()
    }
}

} // verus!
