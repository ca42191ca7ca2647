//! Requests: reading them from frames and carrying them out on the store.

use crate::decimal::{decimal_text, push_digits};
use crate::protocol::decode::parse_resp;
use crate::protocol::model::{decode, Decoded, Frame};
use crate::protocol::value::{lemma_frames_of, RespValue};
use crate::snapshot::json_of_pairs;
use crate::storage::{admits, total_size, Storage};
use crate::text::{ascii_string, ascii_text, lemma_decimal_text_ascii};
use vstd::prelude::*;
use vstd::string::*;
use vstd::utf8::{encode_utf8, encode_utf8_decode_utf8};

verus! {

/// A request of a client.
#[derive(Debug, PartialEq)]
pub enum Command {
    SetKey(String, String),
    Get(String),
    Info,
    CmdInfo,
    Memory,
    Save,
}

/// Why a frame is not a request.
#[derive(Debug, PartialEq)]
pub enum CommandError {
    /// The frame is not a non-empty array of bulk strings.
    InvalidFormat,
    /// No operation has this name; the name is carried in upper case.
    UnknownCommand(String),
    /// `SET` or `GET` came with the wrong number of arguments.
    WrongNumberOfArguments,
}

/// A request as mathematics.
pub enum Request {
    SetKey(Seq<char>, Seq<char>),
    Get(Seq<char>),
    Info,
    CmdInfo,
    Memory,
    Save,
}

/// A refusal as mathematics.
pub enum Rejection {
    InvalidFormat,
    UnknownCommand(Seq<char>),
    WrongNumberOfArguments,
}

impl View for Command {
    type V = Request;

    open spec fn view(&self) -> Request {
        match self {
            Command::SetKey(k, v) => Request::SetKey(k@, v@),
            Command::Get(k) => Request::Get(k@),
            Command::Info => Request::Info,
            Command::CmdInfo => Request::CmdInfo,
            Command::Memory => Request::Memory,
            Command::Save => Request::Save,
        }
    }
}

impl View for CommandError {
    type V = Rejection;

    open spec fn view(&self) -> Rejection {
        match self {
            CommandError::InvalidFormat => Rejection::InvalidFormat,
            CommandError::UnknownCommand(name) => Rejection::UnknownCommand(name@),
            CommandError::WrongNumberOfArguments => Rejection::WrongNumberOfArguments,
        }
    }
}

/// The model of what reading a request returned.
pub open spec fn reading(r: Result<Command, CommandError>) -> Result<Request, Rejection> {
    match r {
        Ok(c) => Ok(c@),
        Err(e) => Err(e@),
    }
}

/// The upper-case form of `text` as `str::to_uppercase` gives it.
pub uninterp spec fn uppercase(text: Seq<char>) -> Seq<char>;

/// The upper-case form of `text`, by `str::to_uppercase`: the result
/// depends on the text alone, and is named `uppercase`.
#[verifier::external_body]
pub(crate) fn to_upper(text: &str) -> (r: String)
    ensures
        r@ == uppercase(text@),
{
    text.to_uppercase()
}

/// Whether two texts are the same.
pub fn same_text(a: &str, b: &str) -> (r: bool)
    ensures
        r == (a@ == b@),
{
    let x = a.as_bytes();
    let y = b.as_bytes();
    proof {
        encode_utf8_decode_utf8(a@);
        encode_utf8_decode_utf8(b@);
    }
    if x.len() != y.len() {
        return false;
    }
    let mut i: usize = 0;
    while i < x.len()
        invariant
            x@.len() == y@.len(),
            0 <= i <= x@.len(),
            x@.subrange(0, i as int) == y@.subrange(0, i as int),
            x@ == encode_utf8(a@),
            y@ == encode_utf8(b@),
        decreases x@.len() - i,
    {
        if x[i] != y[i] {
            return false;
        }
        assert(x@.subrange(0, i + 1) =~= x@.subrange(0, i as int).push(x@[i as int]));
        assert(y@.subrange(0, i + 1) =~= y@.subrange(0, i as int).push(y@[i as int]));
        i = i + 1;
    }
    assert(x@ =~= x@.subrange(0, i as int));
    assert(y@ =~= y@.subrange(0, i as int));
    true
}

/// The request that the upper-case name `name` and the texts `parts` make:
/// `parts` holds every text of the request, the name first.
pub open spec fn choose_request(name: Seq<char>, parts: Seq<Seq<char>>) -> Result<
    Request,
    Rejection,
> {
    if name == "SET"@ {
        if parts.len() == 3 {
            Ok(Request::SetKey(parts[1], parts[2]))
        } else {
            Err(Rejection::WrongNumberOfArguments)
        }
    } else if name == "GET"@ {
        if parts.len() == 2 {
            Ok(Request::Get(parts[1]))
        } else {
            Err(Rejection::WrongNumberOfArguments)
        }
    } else if name == "INFO"@ {
        Ok(Request::Info)
    } else if name == "COMMAND"@ {
        Ok(Request::CmdInfo)
    } else if name == "MEMORY"@ {
        Ok(Request::Memory)
    } else if name == "SAVE"@ {
        Ok(Request::Save)
    } else {
        Err(Rejection::UnknownCommand(name))
    }
}

/// Every frame of `items` is a bulk string that is present.
pub open spec fn all_bulk(items: Seq<Frame>) -> bool {
    forall|i: int| 0 <= i < items.len() ==> (#[trigger] items[i]) matches Frame::Bulk(Some(_))
}

/// The texts of frames that are bulk strings.
pub open spec fn bulk_texts(items: Seq<Frame>) -> Seq<Seq<char>> {
    Seq::new(
        items.len(),
        |i: int|
            match items[i] {
                Frame::Bulk(Some(t)) => t,
                _ => Seq::empty(),
            },
    )
}

/// The request that a frame stands for: a non-empty array of bulk strings
/// whose first text, in upper case, names the operation.
pub open spec fn request_of(frame: Frame) -> Result<Request, Rejection> {
    match frame {
        Frame::Array(items) => if items.len() > 0 && all_bulk(items) {
            choose_request(uppercase(bulk_texts(items)[0]), bulk_texts(items))
        } else {
            Err(Rejection::InvalidFormat)
        },
        _ => Err(Rejection::InvalidFormat),
    }
}

/// The request that the bytes of one read stand for: the frame at their
/// start, which must be whole.
pub open spec fn request_of_wire(buf: Seq<u8>) -> Result<Request, Rejection> {
    match decode(buf) {
        Decoded::Complete(frame, _) => request_of(frame),
        _ => Err(Rejection::InvalidFormat),
    }
}

/// The views of owned texts.
pub open spec fn texts_of(parts: Seq<String>) -> Seq<Seq<char>> {
    Seq::new(parts.len(), |i: int| parts[i]@)
}

impl Command {
    /// The request that the upper-case name `name` and the texts `parts`
    /// make: `parts` holds every text of the request, the name first.
    pub fn from_parts(name: &str, parts: &Vec<String>) -> (r: Result<Command, CommandError>)
        ensures
            reading(r) == choose_request(name@, texts_of(parts@)),
    {
        if same_text(name, "SET") {
            if parts.len() != 3 {
                return Err(CommandError::WrongNumberOfArguments);
            }
            Ok(Command::SetKey(parts[1].clone(), parts[2].clone()))
        } else if same_text(name, "GET") {
            if parts.len() != 2 {
                return Err(CommandError::WrongNumberOfArguments);
            }
            Ok(Command::Get(parts[1].clone()))
        } else if same_text(name, "INFO") {
            Ok(Command::Info)
        } else if same_text(name, "COMMAND") {
            Ok(Command::CmdInfo)
        } else if same_text(name, "MEMORY") {
            Ok(Command::Memory)
        } else if same_text(name, "SAVE") {
            Ok(Command::Save)
        } else {
            Err(CommandError::UnknownCommand(name.to_owned()))
        }
    }

    /// Reads a decoded frame as a request.
    pub fn from_resp(value: &RespValue) -> (r: Result<Command, CommandError>)
        ensures
            reading(r) == request_of(value@),
    {
        let items = match value {
            RespValue::Array(items) => items,
            _ => { return Err(CommandError::InvalidFormat); },
        };
        let ghost frames = value@->Array_0;
        proof {
            lemma_frames_of(items@);
        }
        if items.len() == 0 {
            return Err(CommandError::InvalidFormat);
        }
        let mut parts: Vec<String> = Vec::new();
        let mut i: usize = 0;
        while i < items.len()
            invariant
                0 <= i <= items@.len(),
                frames.len() == items@.len(),
                forall|j: int| 0 <= j < items@.len() ==> (#[trigger] frames[j]) == items@[j]@,
                value@ == Frame::Array(frames),
                parts@.len() == i,
                forall|j: int| 0 <= j < i ==> (#[trigger] frames[j]) matches Frame::Bulk(Some(_)),
                forall|j: int| 0 <= j < i ==> (#[trigger] parts@[j])@ == bulk_texts(frames)[j],
            decreases items@.len() - i,
        {
            match &items[i] {
                RespValue::BulkString(Some(text)) => {
                    parts.push(text.clone());
                },
                _ => {
                    assert(!(frames[i as int] matches Frame::Bulk(Some(_))));
                    return Err(CommandError::InvalidFormat);
                },
            }
            i = i + 1;
        }
        assert(all_bulk(frames));
        assert(texts_of(parts@) =~= bulk_texts(frames));
        let name = to_upper(parts[0].as_str());
        Command::from_parts(name.as_str(), &parts)
    }

    /// Reads the bytes of one read as a request: the frame at their start
    /// must be whole and must be a request.
    pub fn from_str(s: &str) -> (r: Result<Command, CommandError>)
        ensures
            reading(r) == request_of_wire(encode_utf8(s@)),
    {
        match parse_resp(s) {
            Ok((value, _)) => Command::from_resp(&value),
            Err(_) => Err(CommandError::InvalidFormat),
        }
    }
}

impl std::str::FromStr for Command {
    type Err = CommandError;

    /// As the associated function of the same name.
    fn from_str(s: &str) -> (r: Result<Command, CommandError>)
        ensures
            reading(r) == request_of_wire(encode_utf8(s@)),
    {
        Command::from_str(s)
    }
}

/// The message of a refusal.
pub open spec fn rejection_message(rejection: Rejection) -> Seq<char> {
    match rejection {
        Rejection::InvalidFormat => "invalid command format"@,
        Rejection::UnknownCommand(name) => "unknown command: "@ + name,
        Rejection::WrongNumberOfArguments => "wrong number of arguments for command"@,
    }
}

impl CommandError {
    /// The message of this error.
    pub fn to_string(&self) -> (r: String)
        ensures
            r@ == rejection_message(self@),
    {
        match self {
            CommandError::InvalidFormat => "invalid command format".to_owned(),
            CommandError::UnknownCommand(name) => {
                let mut r = "unknown command: ".to_owned();
                r.append(name.as_str());
                r
            },
            CommandError::WrongNumberOfArguments => "wrong number of arguments for command"
                .to_owned(),
        }
    }
}

/// What the caller of the dispatcher does next.
#[derive(Debug, PartialEq)]
pub enum Action {
    /// Send this reply.
    Reply(RespValue),
    /// Write this text as the snapshot, then send what `save_reply` makes of
    /// the result.
    WriteSnapshot(String),
}

/// An action as mathematics.
pub enum ActionModel {
    Reply(Frame),
    WriteSnapshot(Seq<char>),
}

impl View for Action {
    type V = ActionModel;

    open spec fn view(&self) -> ActionModel {
        match self {
            Action::Reply(value) => ActionModel::Reply(value@),
            Action::WriteSnapshot(text) => ActionModel::WriteSnapshot(text@),
        }
    }
}

/// The text of the `INFO` reply.
pub open spec fn info_text(used: nat, persistent: bool) -> Seq<char> {
    "# Server\r\nredis_version:1.0.0\r\n# Memory\r\nused_memory:"@ + ascii_text(
        decimal_text(used as int),
    )
        + "\r\npersistence_enabled:"@ + (if persistent {
        "true"@
    } else {
        "false"@
    }) + "\r\n"@
}

/// The number that the `MEMORY` reply carries: the total, or the largest
/// integer of the protocol where the total is above it.
pub open spec fn memory_reply(used: nat) -> int {
    if used <= i64::MAX {
        used as int
    } else {
        i64::MAX as int
    }
}

/// Whether the store `before`, the request, the store `after` and the
/// action agree: what each operation does to the records and what it has
/// the caller do.
pub open spec fn effect(
    request: Request,
    before: Storage,
    after: Storage,
    action: ActionModel,
) -> bool {
    match request {
        Request::SetKey(key, value) => if admits(before@, before.ceiling(), key, value) {
            &&& after@ == before@.insert(key, value)
            &&& action == ActionModel::Reply(Frame::Simple("OK"@))
        } else {
            &&& after@ == before@
            &&& action == ActionModel::Reply(Frame::Error("ERR max memory limit exceeded"@))
        },
        Request::Get(key) => {
            &&& after@ == before@
            &&& action == ActionModel::Reply(
                Frame::Bulk(
                    if before@.contains_key(key) {
                        Some(before@[key])
                    } else {
                        None
                    },
                ),
            )
        },
        Request::Info => {
            &&& after@ == before@
            &&& action == ActionModel::Reply(
                Frame::Bulk(Some(info_text(total_size(before@), before.persistent()))),
            )
        },
        Request::CmdInfo => {
            &&& after@ == before@
            &&& action == ActionModel::Reply(Frame::Array(Seq::empty()))
        },
        Request::Memory => {
            &&& after@ == before@
            &&& action == ActionModel::Reply(Frame::Integer(memory_reply(total_size(before@))))
        },
        Request::Save => {
            &&& after@ == before@
            &&& if !before.persistent() {
                action == ActionModel::Reply(Frame::Simple("OK"@))
            } else {
                match json_of_pairs(before.listing()) {
                    Some(text) => action == ActionModel::WriteSnapshot(text),
                    None => exists|cause: Seq<char>|
                        action == ActionModel::Reply(
                            Frame::Error(#[trigger] ("ERR saving to disk: "@ + cause)),
                        ),
                }
            }
        },
    }
}

/// The digits of `n` as text.
pub fn digits_string(n: u64) -> (r: String)
    ensures
        r@ == ascii_text(decimal_text(n as int)),
{
    let mut digits: Vec<u8> = Vec::new();
    push_digits(&mut digits, n);
    proof {
        lemma_decimal_text_ascii(n as int);
        assert(digits@ =~= decimal_text(n as int));
    }
    ascii_string(digits.as_slice())
}

/// The reply to `SAVE` once the snapshot was written or the write failed
/// with `cause`.
pub fn save_reply(written: Result<(), String>) -> (r: RespValue)
    ensures
        r@ == match written {
            Ok(_) => Frame::Simple("OK"@),
            Err(cause) => Frame::Error("ERR saving to disk: "@ + cause@),
        },
{
    match written {
        Ok(_) => RespValue::SimpleString("OK".to_owned()),
        Err(cause) => {
            let mut text = "ERR saving to disk: ".to_owned();
            text.append(cause.as_str());
            RespValue::Error(text)
        },
    }
}

/// Carries out a request on the store.
pub fn execute(command: Command, store: &mut Storage) -> (action: Action)
    requires
        old(store).wf(),
    ensures
        final(store).wf(),
        final(store).ceiling() == old(store).ceiling(),
        final(store).persistent() == old(store).persistent(),
        effect(command@, *old(store), *final(store), action@),
{
    match command {
        Command::SetKey(key, value) => {
            if store.insert(key, value) {
                Action::Reply(RespValue::SimpleString("OK".to_owned()))
            } else {
                Action::Reply(RespValue::Error("ERR max memory limit exceeded".to_owned()))
            }
        },
        Command::Get(key) => {
            match store.get(key.as_str()) {
                Some(value) => Action::Reply(RespValue::BulkString(Some(value.clone()))),
                None => Action::Reply(RespValue::BulkString(None)),
            }
        },
        Command::CmdInfo => {
            let reply = RespValue::Array(Vec::new());
            proof {
                lemma_frames_of(Seq::<RespValue>::empty());
                assert(reply@->Array_0 =~= Seq::<Frame>::empty());
            }
            Action::Reply(reply)
        },
        Command::Info => {
            let used = store.memory_usage();
            let mut text = "# Server\r\nredis_version:1.0.0\r\n# Memory\r\nused_memory:"
                .to_owned();
            text.append(digits_string(used as u64).as_str());
            text.append("\r\npersistence_enabled:");
            if store.is_persistence_enabled() {
                text.append("true");
            } else {
                text.append("false");
            }
            text.append("\r\n");
            Action::Reply(RespValue::BulkString(Some(text)))
        },
        Command::Memory => {
            let used = store.memory_usage();
            let shown: i64 = if used as u64 <= i64::MAX as u64 {
                used as i64
            } else {
                i64::MAX
            };
            Action::Reply(RespValue::Integer(shown))
        },
        Command::Save => {
            match store.snapshot() {
                Ok(None) => Action::Reply(RespValue::SimpleString("OK".to_owned())),
                Ok(Some(text)) => Action::WriteSnapshot(text),
                Err(e) => {
                    let cause = e.to_string();
                    let mut text = "ERR saving to disk: ".to_owned();
                    text.append(cause.as_str());
                    Action::Reply(RespValue::Error(text))
                },
            }
        },
    }
}

/// Reads the bytes of one read as a request and carries it out on the
/// store. A read that is no request is answered with an error and leaves
/// the store as it was.
pub fn handle_command(cmd: &str, store: &mut Storage) -> (action: Action)
    requires
        old(store).wf(),
    ensures
        final(store).wf(),
        final(store).ceiling() == old(store).ceiling(),
        final(store).persistent() == old(store).persistent(),
        match request_of_wire(encode_utf8(cmd@)) {
            Ok(request) => effect(request, *old(store), *final(store), action@),
            Err(rejection) => final(store)@ == old(store)@ && action@ == ActionModel::Reply(
                Frame::Error(rejection_message(rejection)),
            ),
        },
{
    match Command::from_str(cmd) {
        Ok(command) => execute(command, store),
        Err(e) => Action::Reply(RespValue::Error(e.to_string())),
    }
}

} // verus!
