//! One client connection: the bytes that wait for their frame, and what
//! each read leads to.

use crate::commands::{
    effect, execute, rejection_message, request_of, Action, ActionModel, Command,
};
use crate::protocol::decode::parse_bytes;
use crate::protocol::model::{decode, Decoded, Frame};
use crate::protocol::value::{RespError, RespValue};
use crate::storage::Storage;
use vstd::prelude::*;

verus! {

/// What the caller does after a read.
#[derive(Debug, PartialEq)]
pub enum Step {
    /// Nothing to send yet: read on.
    Continue,
    /// Send this reply, then read on.
    Reply(RespValue),
    /// Write this text as the snapshot, send what `save_reply` makes of the
    /// result, then read on.
    WriteSnapshot(String),
    /// The client has gone: close the connection.
    Close,
}

/// A step as mathematics.
pub enum StepModel {
    Continue,
    Reply(Frame),
    WriteSnapshot(Seq<char>),
    Close,
}

impl View for Step {
    type V = StepModel;

    open spec fn view(&self) -> StepModel {
        match self {
            Step::Continue => StepModel::Continue,
            Step::Reply(value) => StepModel::Reply(value@),
            Step::WriteSnapshot(text) => StepModel::WriteSnapshot(text@),
            Step::Close => StepModel::Close,
        }
    }
}

/// The step that carries out an action.
pub open spec fn step_of(action: ActionModel) -> StepModel {
    match action {
        ActionModel::Reply(frame) => StepModel::Reply(frame),
        ActionModel::WriteSnapshot(text) => StepModel::WriteSnapshot(text),
    }
}

/// The action that a step carries out, for the steps that carry one out.
pub open spec fn action_of(step: StepModel) -> ActionModel {
    match step {
        StepModel::WriteSnapshot(text) => ActionModel::WriteSnapshot(text),
        StepModel::Reply(frame) => ActionModel::Reply(frame),
        _ => ActionModel::Reply(Frame::Bulk(None)),
    }
}

/// The state of one connection.
pub struct Connection {
    buffer: Vec<u8>,
}

impl Connection {
    /// The bytes that were read and belong to no frame yet.
    pub closed spec fn pending(&self) -> Seq<u8> {
        self.buffer@
    }

    /// A connection on which nothing was read.
    pub fn new() -> (r: Connection)
        ensures
            r.pending() == Seq::<u8>::empty(),
    {
        Connection { buffer: Vec::new() }
    }

    /// The number of bytes that wait for their frame.
    pub fn pending_len(&self) -> (r: usize)
        ensures
            r == self.pending().len(),
    {
        self.buffer.len()
    }

    /// Takes in the bytes of one read and says what to do next.
    ///
    /// A read of no bytes means that the client has gone. Else the bytes
    /// join those that wait; while they are the start of a frame that has
    /// not ended, they wait on and nothing is sent. A whole frame is
    /// carried out as a request on the store, or answered with an error
    /// where it is none; bytes that can start no frame are answered with a
    /// protocol error. In each of these cases nothing waits any more.
    pub fn receive(&mut self, bytes: &[u8], store: &mut Storage) -> (step: Step)
        requires
            old(store).wf(),
        ensures
            final(store).wf(),
            final(store).ceiling() == old(store).ceiling(),
            final(store).persistent() == old(store).persistent(),
            bytes@.len() == 0 ==> step@ == StepModel::Close && final(self).pending() == old(
                self,
            ).pending() && final(store)@ == old(store)@,
            bytes@.len() > 0 ==> match decode(old(self).pending() + bytes@) {
                Decoded::Incomplete => {
                    &&& step@ == StepModel::Continue
                    &&& final(self).pending() == old(self).pending() + bytes@
                    &&& final(store)@ == old(store)@
                },
                Decoded::Invalid => {
                    &&& step@ == StepModel::Reply(Frame::Error("invalid RESP format"@))
                    &&& final(self).pending() == Seq::<u8>::empty()
                    &&& final(store)@ == old(store)@
                },
                Decoded::Complete(frame, _) => {
                    &&& final(self).pending() == Seq::<u8>::empty()
                    &&& match request_of(frame) {
                        Ok(request) => {
                            &&& effect(request, *old(store), *final(store), action_of(step@))
                            &&& step@ == step_of(action_of(step@))
                        },
                        Err(rejection) => {
                            &&& step@ == StepModel::Reply(
                                Frame::Error(rejection_message(rejection)),
                            )
                            &&& final(store)@ == old(store)@
                        },
                    }
                },
            },
    {
        if bytes.len() == 0 {
            return Step::Close;
        }
        self.buffer.extend_from_slice(bytes);
        assert(self.buffer@ =~= old(self).pending() + bytes@);
        let decoded = parse_bytes(self.buffer.as_slice());
        match decoded {
            Err(RespError::Incomplete) => Step::Continue,
            Err(e) => {
                self.buffer.clear();
                Step::Reply(RespValue::Error(e.to_string()))
            },
            Ok((value, _)) => {
                self.buffer.clear();
                match Command::from_resp(&value) {
                    Err(e) => Step::Reply(RespValue::Error(e.to_string())),
                    Ok(command) => match execute(command, store) {
                        Action::Reply(reply) => Step::Reply(reply),
                        Action::WriteSnapshot(text) => Step::WriteSnapshot(text),
                    },
                }
            },
        }
    }
}

} // verus!
