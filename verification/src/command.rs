//! The command model: a request read as a command name and its
//! arguments.

use vstd::prelude::*;
use vstd::string::*;
use crate::frame::{view_items, Frame, FrameView};

verus! {

/// A command: its name and its positional arguments.
#[derive(Debug, Clone, PartialEq, Eq)]
pub struct Command {
    pub name: String,
    pub args: Vec<String>,
}

/// The mathematical model of a [`Command`].
pub struct CommandView {
    pub name: Seq<char>,
    pub args: Seq<Seq<char>>,
}

/// The characters of each string of a sequence.
pub open spec fn texts(strings: Seq<String>) -> Seq<Seq<char>> {
    Seq::new(strings.len(), |i: int| strings[i]@)
}

impl View for Command {
    type V = CommandView;

    open spec fn view(&self) -> CommandView {
        CommandView { name: self.name@, args: texts(self.args@) }
    }
}

/// Why a frame is no command.
#[derive(Debug, Clone, Copy, PartialEq, Eq, Structural)]
pub enum ProtocolError {
    /// The frame is not a non-empty array of bulk strings.
    InvalidRequest,
}

/// The commands that the store serves.
#[derive(Debug, Clone, Copy, PartialEq, Eq, Structural)]
pub enum CommandKind {
    /// `GET key`: read the value of a key.
    GetKey,
    /// `SET key value`: write the value of a key.
    SetKey,
    /// `DEL key`: remove a key.
    DelKey,
}

/// Whether a frame has the shape of a request: an array of at least one
/// element, all of them bulk strings.
pub open spec fn is_request(v: FrameView) -> bool {
    &&& v is Array
    &&& v->Array_0.len() >= 1
    &&& forall|i: int| 0 <= i < v->Array_0.len() ==> #[trigger] v->Array_0[i] is BulkString
}

/// The command that a request spells out: its first element is the name,
/// the others are the arguments in order.
pub open spec fn request_command(v: FrameView) -> CommandView
    recommends
        is_request(v),
{
    let items = v->Array_0;
    CommandView {
        name: items[0]->BulkString_0,
        args: Seq::new((items.len() - 1) as nat, |i: int| items[i + 1]->BulkString_0),
    }
}

/// What [`interpret`] makes of a frame.
pub open spec fn interpretation(v: FrameView) -> Result<CommandView, ProtocolError> {
    if is_request(v) {
        Ok(request_command(v))
    } else {
        Err(ProtocolError::InvalidRequest)
    }
}

/// Whether `name` is the given word, each letter in either case.
pub open spec fn spells(name: Seq<char>, upper: Seq<char>, lower: Seq<char>) -> bool {
    &&& name.len() == upper.len()
    &&& forall|i: int|
        0 <= i < name.len() ==> #[trigger] name[i] == upper[i] || name[i] == lower[i]
}

/// The command that a name stands for, whatever the case of its letters.
pub open spec fn kind_of(name: Seq<char>) -> Option<CommandKind> {
    if spells(name, seq!['G', 'E', 'T'], seq!['g', 'e', 't']) {
        Some(CommandKind::GetKey)
    } else if spells(name, seq!['S', 'E', 'T'], seq!['s', 'e', 't']) {
        Some(CommandKind::SetKey)
    } else if spells(name, seq!['D', 'E', 'L'], seq!['d', 'e', 'l']) {
        Some(CommandKind::DelKey)
    } else {
        None
    }
}

/// Reads a frame as a command.
///
/// Succeeds exactly on a non-empty array of bulk strings. The strings are
/// taken as they are: nothing is trimmed or folded.
pub fn interpret(v: &Frame) -> (r: Result<Command, ProtocolError>)
    ensures
        match r {
            Ok(cmd) => interpretation(v@) == Ok::<CommandView, ProtocolError>(cmd@),
            Err(e) => interpretation(v@) == Err::<CommandView, ProtocolError>(e),
        },
{
    let items = match v {
        Frame::Array(items) => items,
        _ => {
            return Err(ProtocolError::InvalidRequest);
        },
    };
    let ghost views = view_items(items@);
    if items.len() == 0 {
        return Err(ProtocolError::InvalidRequest);
    }
    let name = match &items[0] {
        Frame::BulkString(text) => text.clone(),
        _ => {
            return Err(ProtocolError::InvalidRequest);
        },
    };
    let mut args: Vec<String> = Vec::new();
    let mut i: usize = 1;
    while i < items.len()
        invariant
            1 <= i <= items.len(),
            views == view_items(items@),
            v@ == FrameView::Array(views),
            args@.len() == i - 1,
            forall|j: int| 0 <= j < i ==> #[trigger] views[j] is BulkString,
            forall|j: int| 0 <= j < i - 1 ==> #[trigger] args@[j]@ == views[j + 1]->BulkString_0,
        decreases items.len() - i,
    {
        match &items[i] {
            Frame::BulkString(text) => {
                args.push(text.clone());
            },
            _ => {
                assert(!(views[i as int] is BulkString));
                return Err(ProtocolError::InvalidRequest);
            },
        }
        i += 1;
    }
    let cmd = Command { name, args };
    assert(cmd@.args =~= request_command(v@).args);
    Ok(cmd)
}

/// Tells which command a name stands for, whatever the case of its
/// letters.
pub fn command_kind(name: &str) -> (kind: Option<CommandKind>)
    ensures
        kind == kind_of(name@),
{
    if !name.is_ascii() {
        return None;
    }
    let bytes = name.as_bytes();
    proof {
        is_ascii_spec_bytes(name);
    }
    if bytes.len() != 3 {
        return None;
    }
    let a: u8 = bytes[0];
    let b: u8 = bytes[1];
    let c: u8 = bytes[2];
    if (a == 71 || a == 103) && (b == 69 || b == 101) && (c == 84 || c == 116) {
        Some(CommandKind::GetKey)
    } else if (a == 83 || a == 115) && (b == 69 || b == 101) && (c == 84 || c == 116) {
        Some(CommandKind::SetKey)
    } else if (a == 68 || a == 100) && (b == 69 || b == 101) && (c == 76 || c == 108) {
        Some(CommandKind::DelKey)
    } else {
        None
    }
}

} // verus!
