//! Signed base-10 integers as ASCII text.

use vstd::prelude::*;

verus! {

pub const MINUS: u8 = 0x2d;

pub const PLUS: u8 = 0x2b;

/// `b` is one of the ASCII digits `0` to `9`.
pub open spec fn is_digit(b: u8) -> bool {
    0x30 <= b <= 0x39
}

/// Every byte of `s` is an ASCII digit.
pub open spec fn all_digits(s: Seq<u8>) -> bool {
    forall|i: int| 0 <= i < s.len() ==> is_digit(#[trigger] s[i])
}

/// The number that a run of digits denotes, most significant digit first.
pub open spec fn digits_value(s: Seq<u8>) -> nat
    decreases s.len(),
{
    if s.len() == 0 {
        0
    } else {
        (digits_value(s.drop_last()) * 10 + (s.last() - 0x30)) as nat
    }
}

/// The digits of `s` once an optional leading sign is taken off.
pub open spec fn unsigned_part(s: Seq<u8>) -> Seq<u8> {
    if s.len() > 0 && (s[0] == MINUS || s[0] == PLUS) {
        s.subrange(1, s.len() as int)
    } else {
        s
    }
}

/// The integer that `s` denotes: an optional `+` or `-`, then one or more
/// digits, the whole within the range of a 64-bit signed integer. Anything
/// else denotes nothing.
pub open spec fn parse_decimal(s: Seq<u8>) -> Option<int> {
    let body = unsigned_part(s);
    let magnitude = digits_value(body) as int;
    let value = if s.len() > 0 && s[0] == MINUS {
        -magnitude
    } else {
        magnitude
    };
    if body.len() == 0 || !all_digits(body) || value < i64::MIN || value > i64::MAX {
        None
    } else {
        Some(value)
    }
}

/// The digits of a natural number, without leading zeros.
pub open spec fn nat_digits(n: nat) -> Seq<u8>
    decreases n,
{
    if n < 10 {
        seq![(0x30 + n) as u8]
    } else {
        nat_digits(n / 10).push((0x30 + n % 10) as u8)
    }
}

/// The canonical text of an integer: a `-` for negative numbers, then the
/// digits of the magnitude.
pub open spec fn decimal_text(n: int) -> Seq<u8> {
    if n < 0 {
        seq![MINUS] + nat_digits((-n) as nat)
    } else {
        nat_digits(n as nat)
    }
}

/// Appending digits never lowers the value of a run of digits.
pub proof fn lemma_digits_value_prefix(s: Seq<u8>, k: int)
    requires
        0 <= k <= s.len(),
        all_digits(s),
    ensures
        digits_value(s.subrange(0, k)) <= digits_value(s),
    decreases s.len(),
{
    if k == s.len() {
        assert(s.subrange(0, k) =~= s);
    } else {
        lemma_digits_value_prefix(s.drop_last(), k);
        assert(s.drop_last().subrange(0, k) =~= s.subrange(0, k));
        assert(is_digit(s.last()));
    }
}

/// The digits of a natural number are digits, at least one of them, and
/// denote that number.
pub proof fn lemma_nat_digits(n: nat)
    ensures
        nat_digits(n).len() >= 1,
        all_digits(nat_digits(n)),
        digits_value(nat_digits(n)) == n,
    decreases n,
{
    if n < 10 {
        let s = nat_digits(n);
        assert(s.drop_last() =~= Seq::<u8>::empty());
        assert(digits_value(s.drop_last()) == 0);
    } else {
        lemma_nat_digits(n / 10);
        let p = nat_digits(n / 10);
        let s = nat_digits(n);
        assert(s.drop_last() =~= p);
        assert(s.last() == (0x30 + n % 10) as u8);
    }
}

/// Reading the canonical text of a 64-bit integer gives the integer back.
pub proof fn lemma_parse_decimal_text(n: int)
    requires
        i64::MIN <= n <= i64::MAX,
    ensures
        parse_decimal(decimal_text(n)) == Some(n),
        all_sign_or_digit(decimal_text(n)),
{
    if n < 0 {
        let m = (-n) as nat;
        lemma_nat_digits(m);
        let t = decimal_text(n);
        assert(t[0] == MINUS);
        assert(unsigned_part(t) =~= nat_digits(m));
    } else {
        lemma_nat_digits(n as nat);
        let t = decimal_text(n);
        assert(is_digit(t[0]));
        assert(unsigned_part(t) =~= t);
    }
}

/// Every byte of `s` is a digit or a sign.
pub open spec fn all_sign_or_digit(s: Seq<u8>) -> bool {
    forall|i: int| 0 <= i < s.len() ==> {
        let b = #[trigger] s[i];
        is_digit(b) || b == MINUS || b == PLUS
    }
}

/// Reads the bytes `bytes[start..end]` as a signed decimal integer.
pub fn parse_i64(bytes: &[u8], start: usize, end: usize) -> (r: Option<i64>)
    requires
        start <= end <= bytes@.len(),
    ensures
        match r {
            Some(v) => parse_decimal(bytes@.subrange(start as int, end as int)) == Some(v as int),
            None => parse_decimal(bytes@.subrange(start as int, end as int)) is None,
        },
{
    let ghost s = bytes@.subrange(start as int, end as int);
    if start == end {
        return None;
    }
    let first: u8 = bytes[start];
    assert(first == s[0]);
    let negative: bool = first == MINUS;
    let from: usize = if first == MINUS || first == PLUS {
        start + 1
    } else {
        start
    };
    let ghost body = unsigned_part(s);
    assert(body =~= bytes@.subrange(from as int, end as int));
    if from == end {
        return None;
    }
    // The magnitude may reach 2^63, one more than the largest positive value.
    let limit: u64 = 9223372036854775808;
    let mut acc: u64 = 0;
    let mut i: usize = from;
    while i < end
        invariant
            from <= i <= end <= bytes@.len(),
            body == bytes@.subrange(from as int, end as int),
            body == unsigned_part(bytes@.subrange(start as int, end as int)),
            body.len() > 0,
            all_digits(body.subrange(0, i - from)),
            acc == digits_value(body.subrange(0, i - from)),
            acc <= limit,
            limit == 9223372036854775808,
        decreases end - i,
    {
        let b: u8 = bytes[i];
        assert(b == body[i - from]);
        if b < 0x30 || b > 0x39 {
            assert(!is_digit(body[i - from]));
            return None;
        }
        let d: u64 = (b - 0x30) as u64;
        let ghost next = body.subrange(0, i - from + 1);
        assert(next.drop_last() =~= body.subrange(0, i - from));
        assert(next.last() == b);
        assert(all_digits(next)) by {
            assert forall|j: int| 0 <= j < next.len() implies is_digit(#[trigger] next[j]) by {
                if j < i - from {
                    assert(next[j] == body.subrange(0, i - from)[j]);
                }
            }
        }
        if acc > (limit - d) / 10 {
            proof {
                assert(digits_value(next) == acc * 10 + d);
                assert(digits_value(next) > limit);
                if all_digits(body) {
                    lemma_digits_value_prefix(body, i - from + 1);
                }
            }
            return None;
        }
        acc = acc * 10 + d;
        i = i + 1;
    }
    assert(body.subrange(0, i - from) =~= body);
    if negative {
        if acc == limit {
            Some(i64::MIN)
        } else {
            Some(-(acc as i64))
        }
    } else if acc == limit {
        None
    } else {
        Some(acc as i64)
    }
}

/// Appends the digits of `n` to `out`.
pub fn push_digits(out: &mut Vec<u8>, n: u64)
    ensures
        final(out)@ == old(out)@ + nat_digits(n as nat),
    decreases n,
{
    if n >= 10 {
        push_digits(out, n / 10);
    }
    let d: u8 = (n % 10) as u8;
    out.push(0x30 + d);
    assert(final(out)@ =~= old(out)@ + nat_digits(n as nat));
}

/// Appends the canonical text of `n` to `out`.
pub fn push_i64(out: &mut Vec<u8>, n: i64)
    ensures
        final(out)@ == old(out)@ + decimal_text(n as int),
{
    if n < 0 {
        out.push(MINUS);
        let magnitude: u64 = if n == i64::MIN {
            9223372036854775808
        } else {
            (-n) as u64
        };
        push_digits(out, magnitude);
        assert(final(out)@ =~= old(out)@ + decimal_text(n as int));
    } else {
        push_digits(out, n as u64);
    }
}

} // verus!
