//! What holds of the dispatcher in every state: laws that relate several
//! requests, proved from the definitions that the contracts use.

use vstd::prelude::*;
use vstd::utf8::encode_utf8;
use crate::command::{kind_of, CommandKind, CommandView};
use crate::commands::{
    answer,
    del_outcome,
    del_state,
    get_outcome,
    invalid_reply,
    lemma_replies_are_representable,
    min_args,
    ok_reply,
    reply_to,
    set_outcome,
    set_state,
    state_after,
    state_after_request,
};
use crate::grammar::{parse, Parsed};
use crate::frame::FrameView;
use crate::roundtrip::law_decode_inverts_encode;
use crate::store::State;
use crate::wire::{representable, wire};

verus! {

/// The state after a run of commands, one after the other.
pub open spec fn run(state: State, cmds: Seq<CommandView>) -> State
    decreases cmds.len(),
{
    if cmds.len() == 0 {
        state
    } else {
        state_after(run(state, cmds.drop_last()), cmds.last())
    }
}

/// Whether a command is served as the given kind: the name matches and
/// the arguments suffice.
pub open spec fn is_served(cmd: CommandView, kind: CommandKind) -> bool {
    kind_of(cmd.name) == Some(kind) && cmd.args.len() >= min_args(kind)
}

/// Running a command a second time changes nothing more, and in
/// particular so for `SET key value`.
pub proof fn law_repeat_changes_nothing(state: State, cmd: CommandView)
    ensures
        state_after(state_after(state, cmd), cmd) == state_after(state, cmd),
        is_served(cmd, CommandKind::SetKey) ==> reply_to(state_after(state, cmd), cmd) == reply_to(
            state,
            cmd,
        ),
{
    assert(state_after(state_after(state, cmd), cmd) =~= state_after(state, cmd));
}

/// `DEL` of a key that is not there leaves the store as it was, and is
/// answered with `OK` all the same.
pub proof fn law_del_of_absent_key(state: State, cmd: CommandView)
    requires
        is_served(cmd, CommandKind::DelKey),
        !state.contains_key(cmd.args[0]),
    ensures
        state_after(state, cmd) == state,
        reply_to(state, cmd) == ok_reply(),
{
    assert(state_after(state, cmd) =~= state);
}

/// Of any number of `SET`s on one key, run in any order, the last one
/// wins: the store ends up holding exactly its value under the key, whole,
/// and is otherwise as it was. However workers race for the store, what a
/// key holds in the end is one of the values that were written.
pub proof fn law_last_write_wins(state: State, key: Seq<char>, cmds: Seq<CommandView>)
    requires
        cmds.len() > 0,
        forall|i: int|
            0 <= i < cmds.len() ==> is_served(#[trigger] cmds[i], CommandKind::SetKey)
                && cmds[i].args[0] == key,
    ensures
        run(state, cmds) == state.insert(key, cmds.last().args[1]),
        exists|i: int| 0 <= i < cmds.len() && run(state, cmds)[key] == (#[trigger] cmds[i]).args[1],
    decreases cmds.len(),
{
    let before = cmds.drop_last();
    let last = cmds.last();
    assert(is_served(last, CommandKind::SetKey) && last.args[0] == key);
    if before.len() == 0 {
        assert(run(state, before) == state);
    } else {
        assert forall|i: int| 0 <= i < before.len() implies is_served(
            #[trigger] before[i],
            CommandKind::SetKey,
        ) && before[i].args[0] == key by {
            assert(before[i] == cmds[i]);
        }
        law_last_write_wins(state, key, before);
        assert(state.insert(key, before.last().args[1]).insert(key, last.args[1]) =~= state.insert(
            key,
            last.args[1],
        ));
    }
    assert(run(state, cmds)[key] == cmds[cmds.len() - 1].args[1]);
}

/// A command with too few arguments is answered with an error and leaves
/// the store as it was: `GET` without a key, `SET` without a key or
/// without a value, `DEL` without a key.
pub proof fn law_arity_is_enforced(state: State, cmd: CommandView, kind: CommandKind)
    requires
        kind_of(cmd.name) == Some(kind),
        cmd.args.len() < min_args(kind),
    ensures
        reply_to(state, cmd) is Error,
        state_after(state, cmd) == state,
{
}

/// A handler that is given enough elements, but finds its key or its
/// value to be no bulk string, refuses the request as no command and
/// leaves the store as it was. That holds of `GET`, `SET` and `DEL` alike.
pub proof fn law_handlers_refuse_what_is_no_string(state: State, v: Seq<FrameView>)
    ensures
        v.len() >= 2 && !(v[1] is BulkString) ==> {
            &&& get_outcome(state, v) == Err::<FrameView, FrameView>(invalid_reply())
            &&& del_outcome(v) == Err::<FrameView, FrameView>(invalid_reply())
            &&& del_state(state, v) == state
        },
        v.len() >= 3 && !(v[1] is BulkString && v[2] is BulkString) ==> {
            &&& set_outcome(v) == Err::<FrameView, FrameView>(invalid_reply())
            &&& set_state(state, v) == state
        },
{
}

/// No request that is answered with an error changes the store.
pub proof fn law_errors_change_nothing(state: State, msg: FrameView)
    requires
        answer(state, msg) is Error,
    ensures
        state_after_request(state, msg) == state,
{
}

/// `GET` of a key that is not there is answered with null, not with an
/// error.
pub proof fn law_get_of_absent_key(state: State, cmd: CommandView)
    requires
        is_served(cmd, CommandKind::GetKey),
        !state.contains_key(cmd.args[0]),
    ensures
        reply_to(state, cmd) == FrameView::Null,
        state_after(state, cmd) == state,
{
}

/// `GET` never changes the store, and it is answered with the value that
/// the key holds, as a bulk string, whenever it holds one.
pub proof fn law_get_reads(state: State, cmd: CommandView)
    requires
        is_served(cmd, CommandKind::GetKey),
        state.contains_key(cmd.args[0]),
    ensures
        reply_to(state, cmd) == FrameView::BulkString(state[cmd.args[0]]),
        state_after(state, cmd) == state,
{
}

/// After `SET key value`, `GET key` is answered with `value`.
pub proof fn law_get_after_set(state: State, set: CommandView, get: CommandView)
    requires
        is_served(set, CommandKind::SetKey),
        is_served(get, CommandKind::GetKey),
        get.args[0] == set.args[0],
    ensures
        reply_to(state_after(state, set), get) == FrameView::BulkString(set.args[1]),
{
}

/// After `DEL key`, `GET key` is answered with null.
pub proof fn law_get_after_del(state: State, del: CommandView, get: CommandView)
    requires
        is_served(del, CommandKind::DelKey),
        is_served(get, CommandKind::GetKey),
        get.args[0] == del.args[0],
    ensures
        reply_to(state_after(state, del), get) == FrameView::Null,
{
}

/// Whether every value of a state is short enough for the header of a
/// bulk string: its length in bytes fits the machine's word. That holds of
/// every store in memory.
pub open spec fn values_fit(state: State) -> bool {
    forall|key: Seq<char>|
        state.contains_key(key) ==> encode_utf8(#[trigger] state[key]).len() <= usize::MAX
}

/// Every reply survives the wire: whatever the request, a client that
/// decodes the bytes of the reply gets the reply, and is left with what
/// follows it.
pub proof fn law_replies_can_be_decoded(state: State, msg: FrameView, rest: Seq<u8>)
    requires
        values_fit(state),
    ensures
        representable(answer(state, msg)),
        parse(wire(answer(state, msg)) + rest, 0) == (Parsed::Done {
            frame: answer(state, msg),
            next: wire(answer(state, msg)).len() as int,
        }),
{
    lemma_replies_are_representable();
    law_decode_inverts_encode(answer(state, msg), rest);
}

} // verus!
