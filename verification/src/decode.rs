//! Decoding: from bytes back to a frame.
//!
//! [`decode`] reads one frame from the start of a byte string, by the
//! grammar of the wire format. It tells input that has merely stopped
//! short from input that can never become a frame, so that a caller who
//! reads from a stream knows whether to read on or to give up.

use vstd::prelude::*;
use vstd::slice::{slice_subrange, slice_to_vec};
use vstd::utf8::{decode_utf8, valid_utf8};
use crate::decimal::{parse_integer, parse_numeral};
use crate::frame::{view_items, Frame, FrameView};
use crate::grammar::{
    first_break,
    lemma_parse_items_is_array,
    lemma_prepend_twice,
    line_end,
    parse,
    parse_bulk,
    parse_items,
    parse_text,
    prepend,
    LineEnd,
    Parsed,
};
use crate::roundtrip::{lemma_parse_cut, lemma_parse_sound, lemma_parse_wire};
use crate::wire::{
    absent,
    representable,
    wire,
    CR,
    LF,
    TAG_ARRAY,
    TAG_BULK,
    TAG_ERROR,
    TAG_INTEGER,
    TAG_SIMPLE,
};

verus! {

/// Why bytes could not be decoded.
#[derive(Debug, Clone, Copy, PartialEq, Eq, Structural)]
pub enum DecodeError {
    /// The input ends before the frame does; more bytes may complete it.
    Truncated,
    /// The input cannot be the beginning of any frame.
    Malformed,
}

/// What a decoding result says, in the terms of the grammar.
pub open spec fn outcome(r: Result<(Frame, usize), DecodeError>) -> Parsed {
    match r {
        Ok((frame, next)) => Parsed::Done { frame: frame@, next: next as int },
        Err(DecodeError::Truncated) => Parsed::Truncated,
        Err(DecodeError::Malformed) => Parsed::Malformed,
    }
}

/// Calls `String::from_utf8`. Trusted: that it accepts exactly the byte
/// strings that are well-formed UTF-8, and that the string it then gives
/// holds the characters that those bytes encode.
#[verifier::external_body]
fn string_from_utf8(bytes: Vec<u8>) -> (r: Option<String>)
    ensures
        match r {
            Some(text) => valid_utf8(bytes@) && text@ == decode_utf8(bytes@),
            None => !valid_utf8(bytes@),
        },
{
    String::from_utf8(bytes).ok()
}

/// Reads `bytes[start..end]` as text.
fn decode_text(bytes: &[u8], start: usize, end: usize) -> (r: Option<String>)
    requires
        start <= end <= bytes.len(),
    ensures
        match r {
            Some(text) => parse_text(bytes@.subrange(start as int, end as int)) == Some(text@),
            None => parse_text(bytes@.subrange(start as int, end as int)) is None,
        },
{
    string_from_utf8(slice_to_vec(slice_subrange(bytes, start, end)))
}

/// Finds the end of the line that starts at `pos`.
fn scan_line(bytes: &[u8], pos: usize) -> (r: Result<usize, DecodeError>)
    requires
        pos <= bytes.len(),
    ensures
        match r {
            Ok(e) => line_end(bytes@, pos as int) == LineEnd::At(e as int) && pos <= e && e + 2
                <= bytes.len(),
            Err(DecodeError::Truncated) => line_end(bytes@, pos as int) is Truncated,
            Err(DecodeError::Malformed) => line_end(bytes@, pos as int) is Malformed,
        },
{
    let mut i: usize = pos;
    while i < bytes.len() && bytes[i] != CR && bytes[i] != LF
        invariant
            pos <= i <= bytes.len(),
            first_break(bytes@, pos as int) == first_break(bytes@, i as int),
        decreases bytes.len() - i,
    {
        i += 1;
    }
    if i >= bytes.len() {
        Err(DecodeError::Truncated)
    } else if bytes[i] != CR {
        Err(DecodeError::Malformed)
    } else if i + 1 >= bytes.len() {
        Err(DecodeError::Truncated)
    } else if bytes[i + 1] != LF {
        Err(DecodeError::Malformed)
    } else {
        Ok(i)
    }
}

/// Reads the payload of a bulk string of `n` bytes at `body`.
fn decode_bulk(bytes: &[u8], body: usize, n: usize) -> (r: Result<(Frame, usize), DecodeError>)
    requires
        body <= bytes.len(),
    ensures
        outcome(r) == parse_bulk(bytes@, body as int, n as nat),
        r matches Ok((_, next)) ==> body < next <= bytes.len(),
{
    let room: usize = bytes.len() - body;
    if n > room || room - n < 2 {
        Err(DecodeError::Truncated)
    } else if bytes[body + n] != CR || bytes[body + n + 1] != LF {
        Err(DecodeError::Malformed)
    } else {
        match decode_text(bytes, body, body + n) {
            Some(text) => Ok((Frame::BulkString(text), body + n + 2)),
            None => Err(DecodeError::Malformed),
        }
    }
}

/// Reads the frame that starts at `pos`.
fn decode_at(bytes: &[u8], pos: usize) -> (r: Result<(Frame, usize), DecodeError>)
    requires
        pos <= bytes.len(),
    ensures
        outcome(r) == parse(bytes@, pos as int),
        r matches Ok((_, next)) ==> pos < next <= bytes.len(),
    decreases bytes.len() - pos, 0nat,
{
    if pos >= bytes.len() {
        return Err(DecodeError::Truncated);
    }
    let tag: u8 = bytes[pos];
    if tag != TAG_SIMPLE && tag != TAG_ERROR && tag != TAG_INTEGER && tag != TAG_BULK && tag
        != TAG_ARRAY {
        return Err(DecodeError::Malformed);
    }
    let e: usize = match scan_line(bytes, pos + 1) {
        Ok(e) => e,
        Err(err) => {
            return Err(err);
        },
    };
    let body: usize = e + 2;
    let ghost head = bytes@.subrange(pos + 1, e as int);
    if tag == TAG_SIMPLE {
        match decode_text(bytes, pos + 1, e) {
            Some(text) => Ok((Frame::SimpleString(text), body)),
            None => Err(DecodeError::Malformed),
        }
    } else if tag == TAG_ERROR {
        match decode_text(bytes, pos + 1, e) {
            Some(text) => Ok((Frame::Error(text), body)),
            None => Err(DecodeError::Malformed),
        }
    } else if tag == TAG_INTEGER {
        match parse_integer(slice_subrange(bytes, pos + 1, e)) {
            Some(i) => Ok((Frame::Integer(i), body)),
            None => Err(DecodeError::Malformed),
        }
    } else if e - pos == 3 && bytes[pos + 1] == 45 && bytes[pos + 2] == 49 {
        assert(head =~= absent());
        if tag == TAG_BULK {
            Ok((Frame::Null, body))
        } else {
            Ok((Frame::NullArray, body))
        }
    } else {
        let n: u64 = match parse_numeral(slice_subrange(bytes, pos + 1, e)) {
            Some(n) => n,
            None => {
                return Err(DecodeError::Malformed);
            },
        };
        if n > usize::MAX as u64 {
            return Err(DecodeError::Malformed);
        }
        if tag == TAG_BULK {
            decode_bulk(bytes, body, n as usize)
        } else {
            decode_items(bytes, body, n as usize)
        }
    }
}

/// Reads the `count` frames that start at `pos` into an array.
fn decode_items(bytes: &[u8], pos: usize, count: usize) -> (r: Result<
    (Frame, usize),
    DecodeError,
>)
    requires
        pos <= bytes.len(),
    ensures
        outcome(r) == parse_items(bytes@, pos as int, count as nat),
        r matches Ok((_, next)) ==> pos <= next <= bytes.len(),
    decreases bytes.len() - pos, 1nat,
{
    let mut items: Vec<Frame> = Vec::new();
    let mut cur: usize = pos;
    let mut k: usize = 0;
    proof {
        lemma_parse_items_is_array(bytes@, pos as int, count as nat);
    }
    while k < count
        invariant
            pos <= cur <= bytes.len(),
            k <= count,
            parse_items(bytes@, pos as int, count as nat) == prepend(
                view_items(items@),
                parse_items(bytes@, cur as int, (count - k) as nat),
            ),
        decreases count - k,
    {
        match decode_at(bytes, cur) {
            Err(err) => {
                return Err(err);
            },
            Ok((frame, next)) => {
                proof {
                    lemma_prepend_twice(
                        view_items(items@),
                        seq![frame@],
                        parse_items(bytes@, next as int, (count - k - 1) as nat),
                    );
                    assert(view_items(items@.push(frame)) =~= view_items(items@) + seq![frame@]);
                }
                items.push(frame);
                cur = next;
                k += 1;
            },
        }
    }
    Ok((Frame::Array(items), cur))
}

/// Decodes the frame at the start of `bytes`.
///
/// On success the result holds the frame and the number of bytes that it
/// took; what lies behind them belongs to the next frame and is not
/// looked at. `Truncated` says that the input ended inside the frame,
/// `Malformed` that it cannot be the beginning of one.
///
/// Decoding inverts encoding. The bytes taken are the encoding of the
/// frame given; input that begins with the encoding of a representable
/// frame gives that frame; and input that is a proper beginning of such
/// an encoding is truncated. What the verdict is on any input at all, the
/// grammar [`parse`] says.
pub fn decode(bytes: &[u8]) -> (r: Result<(Frame, usize), DecodeError>)
    ensures
        outcome(r) == parse(bytes@, 0),
        r matches Ok((frame, used)) ==> {
            &&& 0 < used <= bytes.len()
            &&& representable(frame@)
            &&& bytes@.subrange(0, used as int) == wire(frame@)
        },
        forall|v: FrameView|
            #![trigger representable(v)]
            representable(v) && wire(v).is_prefix_of(bytes@) ==> {
                &&& r matches Ok((frame, used))
                &&& frame@ == v
                &&& used == wire(v).len()
            },
        forall|v: FrameView|
            #![trigger representable(v)]
            representable(v) && bytes@.len() < wire(v).len() && bytes@.is_prefix_of(wire(v))
                ==> r == Err::<(Frame, usize), DecodeError>(DecodeError::Truncated),
{
    let r = decode_at(bytes, 0);
    proof {
        if parse(bytes@, 0) is Done {
            lemma_parse_sound(bytes@, 0);
        }
        assert forall|v: FrameView|
            #![trigger representable(v)]
            representable(v) && wire(v).is_prefix_of(bytes@) implies parse(bytes@, 0) == (
            Parsed::Done { frame: v, next: wire(v).len() as int }) by {
            lemma_parse_wire(v, bytes@, 0);
        }
        assert forall|v: FrameView|
            #![trigger representable(v)]
            representable(v) && bytes@.len() < wire(v).len() && bytes@.is_prefix_of(
                wire(v),
            ) implies parse(bytes@, 0) is Truncated by {
            assert(bytes@.subrange(0, bytes@.len() as int) =~= wire(v).take(bytes@.len() - 0));
            lemma_parse_cut(v, bytes@, 0);
        }
    }
    r
}

} // verus!
