//! What holds of encoding and decoding together.

use crate::decimal::{
    decimal_text, is_digit, lemma_nat_digits, lemma_parse_decimal_text, nat_digits, parse_decimal,
};
use crate::protocol::model::{
    array_from, crlf, crlf_at, decode, decode_array, decode_items, find_crlf, wire, wire_all, Decoded, DecodedItems, Frame, ARRAY_MARK, BULK_MARK,
    CR, ERROR_MARK, INTEGER_MARK, LF, MAX_ARRAY_LEN, SIMPLE_MARK,
};
use crate::protocol::value::RespValue;
use vstd::prelude::*;
use vstd::utf8::{encode_utf8, encode_utf8_decode_utf8, encode_utf8_valid_utf8};

verus! {

/// Where `find_crlf` finds a terminator, it is the first one at or after
/// `from`.
pub proof fn lemma_find_crlf(buf: Seq<u8>, from: int)
    requires
        0 <= from,
    ensures
        match find_crlf(buf, from) {
            Some(i) => from <= i && crlf_at(buf, i) && forall|j: int|
                from <= j < i ==> !crlf_at(buf, j),
            None => forall|j: int| from <= j ==> !crlf_at(buf, j),
        },
    decreases buf.len() - from,
{
    if from + 1 < buf.len() && !(buf[from] == CR && buf[from + 1] == LF) {
        lemma_find_crlf(buf, from + 1);
    }
}

/// A terminator at `end` that no terminator comes before is the one that
/// `find_crlf` finds.
pub proof fn lemma_find_crlf_first(buf: Seq<u8>, from: int, end: int)
    requires
        0 <= from <= end,
        crlf_at(buf, end),
        forall|j: int| from <= j < end ==> !crlf_at(buf, j),
    ensures
        find_crlf(buf, from) == Some(end),
    decreases end - from,
{
    if from < end {
        assert(!crlf_at(buf, from));
        lemma_find_crlf_first(buf, from + 1, end);
    }
}

/// How the first line of a buffer shows in a prefix of the buffer: not at
/// all while the prefix ends before the line does, unchanged after that.
pub proof fn lemma_line_prefix(buf: Seq<u8>, k: int)
    requires
        0 <= k <= buf.len(),
        find_crlf(buf, 1) is Some,
    ensures
        ({
            let end = find_crlf(buf, 1)->0;
            let p = buf.subrange(0, k);
            &&& 1 <= end
            &&& end + 2 <= buf.len()
            &&& k < end + 2 ==> find_crlf(p, 1) is None
            &&& k >= end + 2 ==> find_crlf(p, 1) == Some(end) && p.subrange(1, end)
                == buf.subrange(1, end)
        }),
{
    let end = find_crlf(buf, 1)->0;
    let p = buf.subrange(0, k);
    lemma_find_crlf(buf, 1);
    lemma_find_crlf(p, 1);
    if k < end + 2 {
        if find_crlf(p, 1) is Some {
            let j = find_crlf(p, 1)->0;
            assert(crlf_at(p, j));
            assert(crlf_at(buf, j));
        }
    } else {
        assert(crlf_at(p, end));
        assert forall|j: int| 1 <= j < end implies !crlf_at(p, j) by {
            if crlf_at(p, j) {
                assert(crlf_at(buf, j));
            }
        }
        lemma_find_crlf_first(p, 1, end);
        assert(p.subrange(1, end) =~= buf.subrange(1, end));
    }
}

/// A frame is decoded from its own bytes alone: a buffer cut before the
/// frame ends is incomplete, and one cut anywhere after it decodes as the
/// whole buffer does. The frame takes up at least one byte and no more
/// than the buffer holds.
pub proof fn lemma_decode_prefix(buf: Seq<u8>, k: int)
    requires
        0 <= k <= buf.len(),
        decode(buf) is Complete,
    ensures
        0 < decode(buf)->Complete_1 <= buf.len(),
        k < decode(buf)->Complete_1 ==> decode(buf.subrange(0, k)) == Decoded::Incomplete,
        k >= decode(buf)->Complete_1 ==> decode(buf.subrange(0, k)) == decode(buf),
    decreases buf.len(), 0nat,
{
    let p = buf.subrange(0, k);
    let mark = buf[0];
    assert(find_crlf(buf, 1) is Some);
    lemma_line_prefix(buf, k);
    let end = find_crlf(buf, 1)->0;
    if k > 0 {
        assert(p[0] == buf[0]);
    }
    if k >= end + 2 {
        let start = end + 2;
        if mark == BULK_MARK {
            let n = parse_decimal(buf.subrange(1, end))->0;
            if n != -1 {
                let stop = start + n;
                if k >= stop + 2 {
                    assert(p[stop] == buf[stop]);
                    assert(p[stop + 1] == buf[stop + 1]);
                    assert(p.subrange(start, stop) =~= buf.subrange(start, stop));
                }
            }
        } else if mark == ARRAY_MARK {
            let n = parse_decimal(buf.subrange(1, end))->0;
            if n != -1 {
                lemma_decode_items_prefix(buf.skip(start), n as nat, k - start);
                assert(p.skip(start) =~= buf.skip(start).subrange(0, k - start));
            }
        }
    } else if mark == ARRAY_MARK {
        let n = parse_decimal(buf.subrange(1, end))->0;
        if n != -1 {
            lemma_decode_items_prefix(buf.skip(end + 2), n as nat, 0);
        }
    }
}

/// A run of frames is decoded from its own bytes alone, as
/// `lemma_decode_prefix` says of one frame.
pub proof fn lemma_decode_items_prefix(buf: Seq<u8>, count: nat, k: int)
    requires
        0 <= k <= buf.len(),
        decode_items(buf, count) is Complete,
    ensures
        0 <= decode_items(buf, count)->Complete_1 <= buf.len(),
        k < decode_items(buf, count)->Complete_1 ==> decode_items(buf.subrange(0, k), count)
            == DecodedItems::Incomplete,
        k >= decode_items(buf, count)->Complete_1 ==> decode_items(buf.subrange(0, k), count)
            == decode_items(buf, count),
    decreases buf.len(), count,
{
    if count > 0 {
        let p = buf.subrange(0, k);
        let used = decode(buf)->Complete_1;
        lemma_decode_prefix(buf, k);
        let rest = buf.skip(used);
        if k >= used {
            lemma_decode_items_prefix(rest, (count - 1) as nat, k - used);
            assert(p.skip(used) =~= rest.subrange(0, k - used));
        } else {
            lemma_decode_items_prefix(rest, (count - 1) as nat, 0);
        }
    }
}

/// The first line of a buffer stays what it is when bytes are put behind
/// the buffer.
pub proof fn lemma_line_extend(buf: Seq<u8>, more: Seq<u8>)
    requires
        find_crlf(buf, 1) is Some,
    ensures
        ({
            let end = find_crlf(buf, 1)->0;
            &&& 1 <= end
            &&& end + 2 <= buf.len()
            &&& find_crlf(buf + more, 1) == Some(end)
            &&& (buf + more).subrange(1, end) == buf.subrange(1, end)
        }),
{
    let end = find_crlf(buf, 1)->0;
    let all = buf + more;
    lemma_find_crlf(buf, 1);
    assert(crlf_at(all, end));
    assert forall|j: int| 1 <= j < end implies !crlf_at(all, j) by {
        if crlf_at(all, j) {
            assert(crlf_at(buf, j));
        }
    }
    lemma_find_crlf_first(all, 1, end);
    assert(all.subrange(1, end) =~= buf.subrange(1, end));
}

/// Bytes behind a whole frame change neither the frame nor the count of
/// the bytes that it takes up.
pub proof fn lemma_decode_extend(buf: Seq<u8>, more: Seq<u8>)
    requires
        decode(buf) is Complete,
    ensures
        decode(buf + more) == decode(buf),
    decreases buf.len(), 0nat,
{
    let all = buf + more;
    let mark = buf[0];
    assert(all[0] == buf[0]);
    assert(find_crlf(buf, 1) is Some);
    lemma_line_extend(buf, more);
    let end = find_crlf(buf, 1)->0;
    let start = end + 2;
    if mark == BULK_MARK {
        let n = parse_decimal(buf.subrange(1, end))->0;
        if n != -1 {
            let stop = start + n;
            assert(all[stop] == buf[stop]);
            assert(all[stop + 1] == buf[stop + 1]);
            assert(all.subrange(start, stop) =~= buf.subrange(start, stop));
        }
    } else if mark == ARRAY_MARK {
        let n = parse_decimal(buf.subrange(1, end))->0;
        if n != -1 {
            lemma_decode_items_extend(buf.skip(start), n as nat, more);
            assert(all.skip(start) =~= buf.skip(start) + more);
        }
    }
}

/// Bytes behind a whole run of frames change neither the frames nor the
/// count of the bytes that they take up.
pub proof fn lemma_decode_items_extend(buf: Seq<u8>, count: nat, more: Seq<u8>)
    requires
        decode_items(buf, count) is Complete,
    ensures
        decode_items(buf + more, count) == decode_items(buf, count),
    decreases buf.len(), count,
{
    if count > 0 {
        let used = decode(buf)->Complete_1;
        lemma_decode_extend(buf, more);
        lemma_decode_items_extend(buf.skip(used), (count - 1) as nat, more);
        assert((buf + more).skip(used) =~= buf.skip(used) + more);
    }
}

/// Incremental delivery: where a buffer holds exactly one frame, every
/// first part of it that is not the whole is incomplete, and the two
/// parts put together decode as the buffer does.
pub proof fn law_incremental_delivery(whole: Seq<u8>, cut: int)
    requires
        0 <= cut <= whole.len(),
        decode(whole) is Complete,
        decode(whole)->Complete_1 == whole.len(),
    ensures
        cut < whole.len() ==> decode(whole.subrange(0, cut)) == Decoded::Incomplete,
        decode(whole.subrange(0, cut) + whole.subrange(cut, whole.len() as int)) == decode(whole),
{
    lemma_decode_prefix(whole, cut);
    assert(whole.subrange(0, cut) + whole.subrange(cut, whole.len() as int) =~= whole);
}

/// No terminator stands inside the bytes of `text`.
pub open spec fn single_line(text: Seq<char>) -> bool {
    forall|j: int| !crlf_at(encode_utf8(text), j)
}

/// The frames that decoding gives back from their own bytes: lines
/// without a terminator inside, integers and lengths within 64 bits, and
/// arrays of at most `MAX_ARRAY_LEN` such frames.
pub open spec fn wire_safe(f: Frame) -> bool
    decreases f,
{
    match f {
        Frame::Simple(t) => single_line(t),
        Frame::Error(t) => single_line(t),
        Frame::Integer(n) => i64::MIN <= n <= i64::MAX,
        Frame::Bulk(None) => true,
        Frame::Bulk(Some(t)) => encode_utf8(t).len() <= i64::MAX,
        Frame::Array(items) => items.len() <= MAX_ARRAY_LEN && forall|i: int|
            0 <= i < items.len() ==> wire_safe(#[trigger] items[i]),
    }
}

/// The text of an integer holds no terminator byte.
pub proof fn lemma_decimal_text_one_line(n: int, j: int)
    requires
        0 <= j < decimal_text(n).len(),
    ensures
        decimal_text(n)[j] != CR,
        decimal_text(n)[j] != LF,
{
    let m = (if n < 0 {
        -n
    } else {
        n
    }) as nat;
    lemma_nat_digits(m);
    if n < 0 {
        if j > 0 {
            assert(is_digit(nat_digits(m)[j - 1]));
        }
    } else {
        assert(is_digit(nat_digits(m)[j]));
    }
}

/// The header line `mark`, `text`, terminator at the start of a buffer is
/// found where it ends, if `text` holds no terminator.
pub proof fn lemma_header(mark: u8, text: Seq<u8>, rest: Seq<u8>)
    requires
        forall|j: int| !crlf_at(text, j),
    ensures
        ({
            let buf = seq![mark] + text + crlf() + rest;
            &&& find_crlf(buf, 1) == Some(1 + text.len() as int)
            &&& buf.subrange(1, 1 + text.len() as int) == text
            &&& buf.skip(3 + text.len() as int) == rest
            &&& buf[0] == mark
        }),
{
    let buf = seq![mark] + text + crlf() + rest;
    let end = 1 + text.len() as int;
    assert(buf[end] == CR && buf[end + 1] == LF);
    assert forall|j: int| 1 <= j < end implies !crlf_at(buf, j) by {
        if crlf_at(buf, j) {
            if j + 1 < end {
                assert(text[j - 1] == buf[j] && text[j] == buf[j + 1]);
                assert(crlf_at(text, j - 1));
            } else {
                assert(buf[j + 1] == CR);
            }
        }
    }
    lemma_find_crlf_first(buf, 1, end);
    assert(buf.subrange(1, end) =~= text);
    assert(buf.skip(end + 2) =~= rest);
}

/// Round trip with bytes behind the frame: decoding the bytes of a frame,
/// whatever follows them, gives the frame back and takes up exactly its
/// bytes.
pub proof fn lemma_decode_wire(f: Frame, rest: Seq<u8>)
    requires
        wire_safe(f),
    ensures
        decode(wire(f) + rest) == Decoded::Complete(f, wire(f).len() as int),
        wire(f).len() > 0,
    decreases f, 0nat,
{
    let buf = wire(f) + rest;
    match f {
        Frame::Simple(t) => {
            lemma_header(SIMPLE_MARK, encode_utf8(t), rest);
            assert(buf =~= seq![SIMPLE_MARK] + encode_utf8(t) + crlf() + rest);
            encode_utf8_valid_utf8(t);
            encode_utf8_decode_utf8(t);
        },
        Frame::Error(t) => {
            lemma_header(ERROR_MARK, encode_utf8(t), rest);
            assert(buf =~= seq![ERROR_MARK] + encode_utf8(t) + crlf() + rest);
            encode_utf8_valid_utf8(t);
            encode_utf8_decode_utf8(t);
        },
        Frame::Integer(n) => {
            let text = decimal_text(n);
            assert forall|j: int| !crlf_at(text, j) by {
                if crlf_at(text, j) {
                    lemma_decimal_text_one_line(n, j);
                }
            }
            lemma_header(INTEGER_MARK, text, rest);
            assert(buf =~= seq![INTEGER_MARK] + text + crlf() + rest);
            lemma_parse_decimal_text(n);
        },
        Frame::Bulk(None) => {
            let text = decimal_text(-1);
            assert forall|j: int| !crlf_at(text, j) by {
                if crlf_at(text, j) {
                    lemma_decimal_text_one_line(-1, j);
                }
            }
            lemma_header(BULK_MARK, text, rest);
            assert(buf =~= seq![BULK_MARK] + text + crlf() + rest);
            lemma_parse_decimal_text(-1);
        },
        Frame::Bulk(Some(t)) => {
            let body = encode_utf8(t);
            let size = body.len() as int;
            let text = decimal_text(size);
            assert forall|j: int| !crlf_at(text, j) by {
                if crlf_at(text, j) {
                    lemma_decimal_text_one_line(size, j);
                }
            }
            let tail = body + crlf() + rest;
            lemma_header(BULK_MARK, text, tail);
            assert(buf =~= seq![BULK_MARK] + text + crlf() + tail);
            lemma_parse_decimal_text(size);
            let start = 3 + text.len() as int;
            let stop = start + size;
            assert(buf.skip(start) == tail);
            assert(buf[stop] == tail[size] && buf[stop + 1] == tail[size + 1]);
            assert(buf.subrange(start, stop) =~= body) by {
                assert forall|i: int| 0 <= i < size implies buf.subrange(start, stop)[i]
                    == body[i] by {
                    assert(buf[start + i] == tail[i]);
                }
            }
            encode_utf8_valid_utf8(t);
            encode_utf8_decode_utf8(t);
            assert(wire(f).len() == stop + 2);
        },
        Frame::Array(items) => {
            let count = items.len() as int;
            let text = decimal_text(count);
            assert forall|j: int| !crlf_at(text, j) by {
                if crlf_at(text, j) {
                    lemma_decimal_text_one_line(count, j);
                }
            }
            let tail = wire_all(items) + rest;
            lemma_header(ARRAY_MARK, text, tail);
            assert(buf =~= seq![ARRAY_MARK] + text + crlf() + tail);
            lemma_parse_decimal_text(count);
            lemma_decode_wire_all(items, rest);
            let start = 3 + text.len() as int;
            assert(buf.skip(start) == tail);
            assert(decode_array(buf) == array_from(
                decode_items(tail, count as nat),
                start,
            ));
        },
    }
}

/// Round trip of a run of frames, as `lemma_decode_wire` says of one
/// frame.
pub proof fn lemma_decode_wire_all(items: Seq<Frame>, rest: Seq<u8>)
    requires
        forall|i: int| 0 <= i < items.len() ==> wire_safe(#[trigger] items[i]),
    ensures
        decode_items(wire_all(items) + rest, items.len()) == DecodedItems::Complete(
            items,
            wire_all(items).len() as int,
        ),
    decreases items, items.len(),
{
    if items.len() == 0 {
        assert(items =~= Seq::<Frame>::empty());
    } else {
        let first = items[0];
        let others = items.drop_first();
        let buf = wire_all(items) + rest;
        let tail = wire_all(others) + rest;
        assert(wire_safe(first));
        lemma_decode_wire(first, tail);
        assert(buf =~= wire(first) + tail);
        assert(buf.skip(wire(first).len() as int) =~= tail);
        assert forall|i: int| 0 <= i < others.len() implies wire_safe(#[trigger] others[i]) by {
            assert(others[i] == items[i + 1]);
        }
        lemma_decode_wire_all(others, rest);
        assert(seq![first] + others =~= items);
    }
}

/// Round trip: decoding the bytes that a value encodes to gives the value
/// back, and takes up all of the bytes.
pub proof fn law_round_trip(value: RespValue)
    requires
        wire_safe(value@),
    ensures
        decode(wire(value@)) == Decoded::Complete(value@, wire(value@).len() as int),
{
    lemma_decode_wire(value@, Seq::empty());
    assert(wire(value@) + Seq::<u8>::empty() =~= wire(value@));
}

} // verus!
