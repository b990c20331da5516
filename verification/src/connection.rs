//! One step of a client connection: from the bytes received so far to
//! what the connection does next.
//!
//! The caller owns the socket and the buffer. It hands over what it has
//! received, performs what it is told, and comes back: after a reply with
//! the bytes that remain, after a wait with more bytes.
//!
//! [`handle_client`] does the whole step for a caller that has the store
//! to itself. A caller that shares the store takes the step in two:
//! [`take_request`] needs no store, and of what it gives only a command
//! is run, by `dispatch`, with the store locked for that call alone.

use vstd::prelude::*;
use crate::command::{interpret, interpretation, Command};
use crate::commands::{
    answer,
    dispatch,
    invalid_reply,
    lemma_replies_are_representable,
    refuse,
    state_after_request,
};
use crate::decode::{decode, DecodeError};
use crate::grammar::{parse, Parsed};
use crate::store::Store;
use crate::wire::{encode, representable, wire};

verus! {

/// What the bytes received so far ask for.
#[derive(Debug, Clone, PartialEq, Eq)]
pub enum Intake {
    /// A command to run against the store. Its reply is to be encoded
    /// and sent, and the first `used` bytes of the input dropped.
    Run { command: Command, used: usize },
    /// A frame that is no command. `bytes` is the encoded error reply to
    /// send; the first `used` bytes of the input are to be dropped.
    Refuse { bytes: Vec<u8>, used: usize },
    /// The input ends inside a frame: read on.
    Wait,
    /// The input is no frame: close the connection without a reply.
    Close,
}

/// What a connection does next.
#[derive(Debug, Clone, PartialEq, Eq)]
pub enum Action {
    /// Send `bytes` to the client; the first `used` bytes of the input
    /// have been served and are to be dropped.
    Reply { bytes: Vec<u8>, used: usize },
    /// The input ends inside a frame: read on.
    Wait,
    /// The input is no frame: close the connection without a reply.
    Close,
}

/// Reads the request at the start of `received`, if a whole one is there.
pub fn take_request(received: &[u8]) -> (intake: Intake)
    ensures
        match parse(received@, 0) {
            Parsed::Done { frame, next } => match interpretation(frame) {
                Ok(cmd) => {
                    &&& intake matches Intake::Run { command, used }
                    &&& command@ == cmd
                    &&& used == next
                    &&& 0 < used <= received.len()
                },
                Err(_) => {
                    &&& intake matches Intake::Refuse { bytes, used }
                    &&& bytes@ == wire(invalid_reply())
                    &&& used == next
                    &&& 0 < used <= received.len()
                },
            },
            Parsed::Truncated => intake is Wait,
            Parsed::Malformed => intake is Close,
        },
{
    match decode(received) {
        Ok((frame, used)) => match interpret(&frame) {
            Ok(command) => Intake::Run { command, used },
            Err(error) => Intake::Refuse { bytes: encode(&refuse(error)), used },
        },
        Err(DecodeError::Truncated) => Intake::Wait,
        Err(DecodeError::Malformed) => Intake::Close,
    }
}

/// Serves the request at the start of `received`, if a whole one is
/// there.
///
/// Input that is truncated or malformed never touches the store.
pub fn handle_client(store: &mut Store, received: &[u8]) -> (action: Action)
    ensures
        match parse(received@, 0) {
            Parsed::Done { frame, next } => {
                &&& action matches Action::Reply { bytes, used }
                &&& bytes@ == wire(answer(old(store)@, frame))
                &&& representable(answer(old(store)@, frame))
                &&& used == next
                &&& 0 < used <= received.len()
                &&& final(store)@ == state_after_request(old(store)@, frame)
            },
            Parsed::Truncated => action is Wait && final(store)@ == old(store)@,
            Parsed::Malformed => action is Close && final(store)@ == old(store)@,
        },
{
    match take_request(received) {
        Intake::Run { command, used } => {
            let reply = dispatch(store, &command);
            Action::Reply { bytes: encode(&reply), used }
        },
        Intake::Refuse { bytes, used } => {
            proof {
                lemma_replies_are_representable();
            }
            Action::Reply { bytes, used }
        },
        Intake::Wait => Action::Wait,
        Intake::Close => Action::Close,
    }
}

} // verus!
