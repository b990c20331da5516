//! The dispatcher: from a request to a reply and a new state of the
//! store.
//!
//! | command | arguments | effect | reply |
//! |---|---|---|---|
//! | `GET key` | at least 1 | none | the value as a bulk string, or null |
//! | `SET key value` | at least 2 | stores `value` under `key` | `OK` |
//! | `DEL key` | at least 1 | removes `key` | `OK` |
//!
//! Command names are matched without regard to case; keys and values are
//! taken as they are. Arguments beyond those listed are ignored. Every
//! failure is an error reply, and no failure changes the store.

use vstd::prelude::*;
use vstd::utf8::encode_utf8;
use crate::command::{
    command_kind,
    interpret,
    interpretation,
    is_request,
    kind_of,
    request_command,
    Command,
    CommandKind,
    CommandView,
    ProtocolError,
};
use crate::frame::{view_items, Frame, FrameView};
use crate::roundtrip::lemma_printable_is_single_line;
use crate::store::{State, Store};
use crate::wire::{encode, representable, wire};

verus! {

/// The reply to a command that succeeded without a result.
pub open spec fn ok_reply() -> FrameView {
    FrameView::SimpleString("OK"@)
}

/// The reply to a frame that is no command.
pub open spec fn invalid_reply() -> FrameView {
    FrameView::Error("ERR invalid command"@)
}

/// The reply to a command that the store does not serve.
pub open spec fn unsupported_reply() -> FrameView {
    FrameView::Error("ERR unsupported command"@)
}

/// The least number of arguments that a command takes.
pub open spec fn min_args(kind: CommandKind) -> nat {
    match kind {
        CommandKind::GetKey => 1,
        CommandKind::SetKey => 2,
        CommandKind::DelKey => 1,
    }
}

/// The reply to a command with too few arguments.
pub open spec fn arity_reply(kind: CommandKind) -> FrameView {
    match kind {
        CommandKind::GetKey => FrameView::Error(
            "ERR wrong number of arguments for 'GET' command. Expected at least one argument."@,
        ),
        CommandKind::SetKey => FrameView::Error(
            "ERR wrong number of arguments for 'SET' command. Expected at least two arguments."@,
        ),
        CommandKind::DelKey => FrameView::Error(
            "ERR wrong number of arguments for 'DEL' command. Expected at least one argument."@,
        ),
    }
}

/// The reply to a lookup: the value as a bulk string, or null.
pub open spec fn lookup_reply(state: State, key: Seq<char>) -> FrameView {
    if state.contains_key(key) {
        FrameView::BulkString(state[key])
    } else {
        FrameView::Null
    }
}

/// The reply that a command gets in a given state.
pub open spec fn reply_to(state: State, cmd: CommandView) -> FrameView {
    match kind_of(cmd.name) {
        None => unsupported_reply(),
        Some(kind) => if cmd.args.len() < min_args(kind) {
            arity_reply(kind)
        } else {
            match kind {
                CommandKind::GetKey => lookup_reply(state, cmd.args[0]),
                CommandKind::SetKey => ok_reply(),
                CommandKind::DelKey => ok_reply(),
            }
        },
    }
}

/// The state that a command leaves behind.
pub open spec fn state_after(state: State, cmd: CommandView) -> State {
    match kind_of(cmd.name) {
        None => state,
        Some(kind) => if cmd.args.len() < min_args(kind) {
            state
        } else {
            match kind {
                CommandKind::GetKey => state,
                CommandKind::SetKey => state.insert(cmd.args[0], cmd.args[1]),
                CommandKind::DelKey => state.remove(cmd.args[0]),
            }
        },
    }
}

/// The reply that a decoded frame gets in a given state.
pub open spec fn answer(state: State, msg: FrameView) -> FrameView {
    match interpretation(msg) {
        Ok(cmd) => reply_to(state, cmd),
        Err(_) => invalid_reply(),
    }
}

/// The state that a decoded frame leaves behind.
pub open spec fn state_after_request(state: State, msg: FrameView) -> State {
    match interpretation(msg) {
        Ok(cmd) => state_after(state, cmd),
        Err(_) => state,
    }
}

/// The model of a handler's result: the reply on either side.
pub open spec fn reply_view(r: Result<Frame, Frame>) -> Result<FrameView, FrameView> {
    match r {
        Ok(reply) => Ok(reply@),
        Err(reply) => Err(reply@),
    }
}

/// The reply that a handler's result carries, on whichever side.
pub open spec fn carried(r: Result<Frame, Frame>) -> FrameView {
    match r {
        Ok(reply) => reply@,
        Err(reply) => reply@,
    }
}

/// What `GET` makes of a request array: its element 0 is the command
/// name, element 1 the key.
pub open spec fn get_outcome(state: State, v: Seq<FrameView>) -> Result<FrameView, FrameView> {
    if v.len() < 2 {
        Err(arity_reply(CommandKind::GetKey))
    } else {
        match v[1] {
            FrameView::BulkString(key) => Ok(lookup_reply(state, key)),
            _ => Err(invalid_reply()),
        }
    }
}

/// What `SET` makes of a request array: element 1 is the key, element 2
/// the value.
pub open spec fn set_outcome(v: Seq<FrameView>) -> Result<FrameView, FrameView> {
    if v.len() < 3 {
        Err(arity_reply(CommandKind::SetKey))
    } else if v[1] is BulkString && v[2] is BulkString {
        Ok(ok_reply())
    } else {
        Err(invalid_reply())
    }
}

/// The state that `SET` leaves behind.
pub open spec fn set_state(state: State, v: Seq<FrameView>) -> State {
    if v.len() >= 3 && v[1] is BulkString && v[2] is BulkString {
        state.insert(v[1]->BulkString_0, v[2]->BulkString_0)
    } else {
        state
    }
}

/// What `DEL` makes of a request array: element 1 is the key.
pub open spec fn del_outcome(v: Seq<FrameView>) -> Result<FrameView, FrameView> {
    if v.len() < 2 {
        Err(arity_reply(CommandKind::DelKey))
    } else if v[1] is BulkString {
        Ok(ok_reply())
    } else {
        Err(invalid_reply())
    }
}

/// The state that `DEL` leaves behind.
pub open spec fn del_state(state: State, v: Seq<FrameView>) -> State {
    if v.len() >= 2 && v[1] is BulkString {
        state.remove(v[1]->BulkString_0)
    } else {
        state
    }
}

/// The fixed replies stand on one line, and a value that is as long as the
/// header of a bulk string can say makes a bulk string that does.
pub proof fn lemma_replies_are_representable()
    ensures
        representable(ok_reply()),
        representable(invalid_reply()),
        representable(unsupported_reply()),
        forall|kind: CommandKind| representable(#[trigger] arity_reply(kind)),
        forall|state: State, key: Seq<char>|
            state.contains_key(key) && encode_utf8(state[key]).len() <= usize::MAX
                ==> representable(#[trigger] lookup_reply(state, key)),
        forall|state: State, key: Seq<char>|
            !state.contains_key(key) ==> representable(#[trigger] lookup_reply(state, key)),
{
    reveal_strlit("OK");
    reveal_strlit("ERR invalid command");
    reveal_strlit("ERR unsupported command");
    reveal_strlit(
        "ERR wrong number of arguments for 'GET' command. Expected at least one argument.",
    );
    reveal_strlit(
        "ERR wrong number of arguments for 'SET' command. Expected at least two arguments.",
    );
    reveal_strlit(
        "ERR wrong number of arguments for 'DEL' command. Expected at least one argument.",
    );
    lemma_printable_is_single_line("OK"@);
    lemma_printable_is_single_line("ERR invalid command"@);
    lemma_printable_is_single_line("ERR unsupported command"@);
    lemma_printable_is_single_line(
        "ERR wrong number of arguments for 'GET' command. Expected at least one argument."@,
    );
    lemma_printable_is_single_line(
        "ERR wrong number of arguments for 'SET' command. Expected at least two arguments."@,
    );
    lemma_printable_is_single_line(
        "ERR wrong number of arguments for 'DEL' command. Expected at least one argument."@,
    );
}

fn reply_ok() -> (reply: Frame)
    ensures
        reply@ == ok_reply(),
{
    Frame::SimpleString("OK".to_owned())
}

/// The reply to a frame that [`interpret`] refused.
pub fn refuse(error: ProtocolError) -> (reply: Frame)
    ensures
        reply@ == invalid_reply(),
{
    match error {
        ProtocolError::InvalidRequest => Frame::Error("ERR invalid command".to_owned()),
    }
}

fn reply_unsupported() -> (reply: Frame)
    ensures
        reply@ == unsupported_reply(),
{
    Frame::Error("ERR unsupported command".to_owned())
}

fn reply_arity(kind: CommandKind) -> (reply: Frame)
    ensures
        reply@ == arity_reply(kind),
{
    match kind {
        CommandKind::GetKey => Frame::Error(
            "ERR wrong number of arguments for 'GET' command. Expected at least one argument."
                .to_owned(),
        ),
        CommandKind::SetKey => Frame::Error(
            "ERR wrong number of arguments for 'SET' command. Expected at least two arguments."
                .to_owned(),
        ),
        CommandKind::DelKey => Frame::Error(
            "ERR wrong number of arguments for 'DEL' command. Expected at least one argument."
                .to_owned(),
        ),
    }
}

fn reply_lookup(store: &Store, key: &str) -> (reply: Frame)
    ensures
        reply@ == lookup_reply(store@, key@),
        representable(reply@),
{
    match store.get(key) {
        Some(text) => {
            let _sized: usize = text.as_str().as_bytes().len();
            Frame::BulkString(text)
        },
        None => Frame::Null,
    }
}

/// Serves `GET`: `v` is the whole request, command name first.
///
/// With no key the result is the arity error, with a key that is not a
/// bulk string the invalid-command error. Otherwise it is the value
/// stored under the key, or null when there is none.
pub fn handle_get(store: &Store, v: Vec<Frame>) -> (r: Result<Frame, Frame>)
    ensures
        reply_view(r) == get_outcome(store@, view_items(v@)),
        representable(carried(r)),
{
    proof {
        lemma_replies_are_representable();
    }
    if v.len() < 2 {
        return Err(reply_arity(CommandKind::GetKey));
    }
    match &v[1] {
        Frame::BulkString(key) => Ok(reply_lookup(store, key.as_str())),
        _ => Err(refuse(ProtocolError::InvalidRequest)),
    }
}

/// Serves `SET`: `v` is the whole request, command name first.
///
/// With fewer than two arguments the result is the arity error, with a
/// key or value that is not a bulk string the invalid-command error, and
/// the store stays as it was. Otherwise the value is stored under the key
/// and the result is `OK`.
pub fn handle_set(store: &mut Store, v: Vec<Frame>) -> (r: Result<Frame, Frame>)
    ensures
        reply_view(r) == set_outcome(view_items(v@)),
        final(store)@ == set_state(old(store)@, view_items(v@)),
        representable(carried(r)),
{
    proof {
        lemma_replies_are_representable();
    }
    if v.len() < 3 {
        return Err(reply_arity(CommandKind::SetKey));
    }
    match &v[1] {
        Frame::BulkString(key) => match &v[2] {
            Frame::BulkString(value) => {
                store.set(key.clone(), value.clone());
                Ok(reply_ok())
            },
            _ => Err(refuse(ProtocolError::InvalidRequest)),
        },
        _ => Err(refuse(ProtocolError::InvalidRequest)),
    }
}

/// Serves `DEL`: `v` is the whole request, command name first.
///
/// With no key the result is the arity error, with a key that is not a
/// bulk string the invalid-command error, and the store stays as it was.
/// Otherwise the key is removed, whether or not it was present, and the
/// result is `OK`.
pub fn delete_set(store: &mut Store, v: Vec<Frame>) -> (r: Result<Frame, Frame>)
    ensures
        reply_view(r) == del_outcome(view_items(v@)),
        final(store)@ == del_state(old(store)@, view_items(v@)),
        representable(carried(r)),
{
    proof {
        lemma_replies_are_representable();
    }
    if v.len() < 2 {
        return Err(reply_arity(CommandKind::DelKey));
    }
    match &v[1] {
        Frame::BulkString(key) => {
            store.delete(key.as_str());
            Ok(reply_ok())
        },
        _ => Err(refuse(ProtocolError::InvalidRequest)),
    }
}

/// Runs a command against the store and gives the reply.
///
/// This is the one step that touches the store: it does no decoding and
/// no encoding, so a caller that shares the store holds its lock for this
/// call alone.
pub fn dispatch(store: &mut Store, cmd: &Command) -> (reply: Frame)
    ensures
        reply@ == reply_to(old(store)@, cmd@),
        final(store)@ == state_after(old(store)@, cmd@),
        representable(reply@),
{
    proof {
        lemma_replies_are_representable();
    }
    let kind = match command_kind(cmd.name.as_str()) {
        Some(kind) => kind,
        None => {
            return reply_unsupported();
        },
    };
    match kind {
        CommandKind::GetKey => {
            if cmd.args.len() < 1 {
                reply_arity(kind)
            } else {
                reply_lookup(store, cmd.args[0].as_str())
            }
        },
        CommandKind::SetKey => {
            if cmd.args.len() < 2 {
                reply_arity(kind)
            } else {
                store.set(cmd.args[0].clone(), cmd.args[1].clone());
                reply_ok()
            }
        },
        CommandKind::DelKey => {
            if cmd.args.len() < 1 {
                reply_arity(kind)
            } else {
                store.delete(cmd.args[0].as_str());
                reply_ok()
            }
        },
    }
}

/// Answers one decoded frame: reads it as a command and runs it, or
/// replies that it is no command.
pub fn respond(store: &mut Store, msg: &Frame) -> (reply: Frame)
    ensures
        reply@ == answer(old(store)@, msg@),
        final(store)@ == state_after_request(old(store)@, msg@),
        representable(reply@),
{
    proof {
        lemma_replies_are_representable();
    }
    match interpret(msg) {
        Ok(cmd) => dispatch(store, &cmd),
        Err(error) => refuse(error),
    }
}

/// On a well-formed request, the handler of a command and the dispatcher
/// give the same reply and leave the same state.
pub proof fn law_handlers_agree_with_dispatch(state: State, v: Seq<FrameView>)
    requires
        is_request(FrameView::Array(v)),
    ensures
        ({
            let cmd = request_command(FrameView::Array(v));
            match kind_of(cmd.name) {
                Some(CommandKind::GetKey) => {
                    &&& get_outcome(state, v) == if v.len() < 2 {
                        Err::<FrameView, FrameView>(reply_to(state, cmd))
                    } else {
                        Ok::<FrameView, FrameView>(reply_to(state, cmd))
                    }
                    &&& state_after(state, cmd) == state
                },
                Some(CommandKind::SetKey) => {
                    &&& set_outcome(v) == if v.len() < 3 {
                        Err::<FrameView, FrameView>(reply_to(state, cmd))
                    } else {
                        Ok::<FrameView, FrameView>(reply_to(state, cmd))
                    }
                    &&& state_after(state, cmd) == set_state(state, v)
                },
                Some(CommandKind::DelKey) => {
                    &&& del_outcome(v) == if v.len() < 2 {
                        Err::<FrameView, FrameView>(reply_to(state, cmd))
                    } else {
                        Ok::<FrameView, FrameView>(reply_to(state, cmd))
                    }
                    &&& state_after(state, cmd) == del_state(state, v)
                },
                None => true,
            }
        }),
{
}

/// Serves one decoded request and gives the encoded reply.
///
/// A frame that is not a non-empty array of bulk strings gets the
/// invalid-command error; a command other than `GET`, `SET` and `DEL` the
/// unsupported-command error. Neither changes the store.
pub fn process_client_request(store: &mut Store, decoded_msg: Frame) -> (bytes: Vec<u8>)
    ensures
        bytes@ == wire(answer(old(store)@, decoded_msg@)),
        final(store)@ == state_after_request(old(store)@, decoded_msg@),
        representable(answer(old(store)@, decoded_msg@)),
{
    proof {
        lemma_replies_are_representable();
    }
    let kind = match interpret(&decoded_msg) {
        Ok(cmd) => command_kind(cmd.name.as_str()),
        Err(error) => {
            return encode(&refuse(error));
        },
    };
    let reply = match decoded_msg {
        Frame::Array(v) => {
            proof {
                law_handlers_agree_with_dispatch(store@, view_items(v@));
            }
            match kind {
                Some(CommandKind::GetKey) => handle_get(store, v),
                Some(CommandKind::SetKey) => handle_set(store, v),
                Some(CommandKind::DelKey) => delete_set(store, v),
                None => Err(reply_unsupported()),
            }
        },
        _ => Err(refuse(ProtocolError::InvalidRequest)),
    };
    match reply {
        Ok(r) => encode(&r),
        Err(r) => encode(&r),
    }
}

} // verus!
