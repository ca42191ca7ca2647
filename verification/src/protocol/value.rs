//! Protocol values and decoding errors.

use crate::protocol::model::{Decoded, Frame};
use vstd::prelude::*;
use vstd::string::*;

verus! {

/// A value of the wire protocol.
#[derive(Debug, PartialEq)]
pub enum RespValue {
    SimpleString(String),
    Error(String),
    Integer(i64),
    /// `None` is the null bulk string.
    BulkString(Option<String>),
    Array(Vec<RespValue>),
}

/// Why a buffer did not decode to a value.
#[derive(Debug, PartialEq)]
pub enum RespError {
    /// The buffer cannot be the start of any frame.
    InvalidFormat,
    /// The buffer ends before the frame does: more bytes are needed.
    Incomplete,
    /// A length that is out of range, carried as text. Decoding never
    /// gives this error: a length prefix that no frame may declare is an
    /// `InvalidFormat`.
    InvalidLength(String),
}

/// The model of each value of `values`, in order.
pub open spec fn frames_of(values: Seq<RespValue>) -> Seq<Frame>
    decreases values, values.len(),
{
    if values.len() == 0 {
        Seq::<Frame>::empty()
    } else {
        frames_of(values.drop_last()).push(values.last().view())
    }
}

impl View for RespValue {
    type V = Frame;

    open spec fn view(&self) -> Frame
        decreases self, 0nat,
    {
        match self {
            RespValue::SimpleString(s) => Frame::Simple(s@),
            RespValue::Error(s) => Frame::Error(s@),
            RespValue::Integer(n) => Frame::Integer(*n as int),
            RespValue::BulkString(None) => Frame::Bulk(None),
            RespValue::BulkString(Some(s)) => Frame::Bulk(Some(s@)),
            RespValue::Array(items) => Frame::Array(frames_of(items@)),
        }
    }
}

/// `frames_of` works element by element.
pub proof fn lemma_frames_of(values: Seq<RespValue>)
    ensures
        frames_of(values).len() == values.len(),
        forall|i: int| 0 <= i < values.len() ==> (#[trigger] frames_of(values)[i]) == values[i]@,
    decreases values.len(),
{
    reveal_with_fuel(frames_of, 2);
    if values.len() > 0 {
        lemma_frames_of(values.drop_last());
        assert forall|i: int| 0 <= i < values.len() implies (#[trigger] frames_of(values)[i])
            == values[i]@ by {
            if i < values.len() - 1 {
                assert(frames_of(values.drop_last())[i] == values.drop_last()[i]@);
            }
        }
    }
}

impl RespError {
    /// The message of this error.
    pub fn to_string(&self) -> (r: String)
        ensures
            r@ == self.message(),
    {
        match self {
            RespError::InvalidFormat => "invalid RESP format".to_owned(),
            RespError::Incomplete => "incomplete input".to_owned(),
            RespError::InvalidLength(s) => {
                let mut r = "invalid length: ".to_owned();
                r.append(s.as_str());
                r
            },
        }
    }

    /// The message of this error, as a specification.
    pub open spec fn message(&self) -> Seq<char> {
        match self {
            RespError::InvalidFormat => "invalid RESP format"@,
            RespError::Incomplete => "incomplete input"@,
            RespError::InvalidLength(s) => "invalid length: "@ + s@,
        }
    }
}

/// The model of what a decoding call returned. `InvalidLength` is the
/// model of nothing, so a call whose outcome is stated never returns it.
pub open spec fn outcome(r: Result<(RespValue, usize), RespError>) -> Option<Decoded> {
    match r {
        Ok((value, used)) => Some(Decoded::Complete(value@, used as int)),
        Err(RespError::Incomplete) => Some(Decoded::Incomplete),
        Err(RespError::InvalidFormat) => Some(Decoded::Invalid),
        Err(RespError::InvalidLength(_)) => None,
    }
}

} // verus!
