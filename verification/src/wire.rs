//! The byte encoding of frames.
//!
//! Every frame has exactly one encoding, [`wire`]. It opens with a tag
//! byte that names the variant; text and headers end in a carriage
//! return and a line feed.
//!
//! Not every frame survives the wire. A simple string or an error that
//! holds a line break is encoded as it is, and then reads as something
//! else; [`representable`] says which frames come back as they went.

use vstd::prelude::*;
use vstd::utf8::encode_utf8;
use crate::decimal::{decimal, signed_decimal};
use crate::frame::{view_items, Frame, FrameView};

verus! {

/// Tag byte of a simple string, `+`.
pub const TAG_SIMPLE: u8 = 43;

/// Tag byte of an error, `-`.
pub const TAG_ERROR: u8 = 45;

/// Tag byte of an integer, `:`.
pub const TAG_INTEGER: u8 = 58;

/// Tag byte of a bulk string, `$`.
pub const TAG_BULK: u8 = 36;

/// Tag byte of an array, `*`.
pub const TAG_ARRAY: u8 = 42;

/// Carriage return.
pub const CR: u8 = 13;

/// Line feed.
pub const LF: u8 = 10;

/// The two bytes that end a line.
pub open spec fn crlf() -> Seq<u8> {
    seq![CR, LF]
}

/// Whether a byte is a carriage return or a line feed.
pub open spec fn is_break(b: u8) -> bool {
    b == CR || b == LF
}

/// The numeral `-1`, which stands for absence in a bulk or array header.
pub open spec fn absent() -> Seq<u8> {
    seq![45u8, 49u8]
}

/// The encoding of one value.
pub open spec fn wire(v: FrameView) -> Seq<u8>
    decreases v, 1nat,
{
    match v {
        FrameView::Null => seq![TAG_BULK] + absent() + crlf(),
        FrameView::NullArray => seq![TAG_ARRAY] + absent() + crlf(),
        FrameView::SimpleString(text) => seq![TAG_SIMPLE] + encode_utf8(text) + crlf(),
        FrameView::Error(text) => seq![TAG_ERROR] + encode_utf8(text) + crlf(),
        FrameView::Integer(i) => seq![TAG_INTEGER] + signed_decimal(i as int) + crlf(),
        FrameView::BulkString(text) => seq![TAG_BULK] + decimal(encode_utf8(text).len()) + crlf()
            + encode_utf8(text) + crlf(),
        FrameView::Array(items) => seq![TAG_ARRAY] + decimal(items.len()) + crlf() + wire_all(
            items,
        ),
    }
}

/// The encodings of a sequence of values, one after the other.
pub open spec fn wire_all(items: Seq<FrameView>) -> Seq<u8>
    decreases items, 0nat,
{
    if items.len() == 0 {
        Seq::empty()
    } else {
        wire(items[0]) + wire_all(items.drop_first())
    }
}

/// Whether the bytes hold neither a carriage return nor a line feed, so
/// that they can stand on one line.
pub open spec fn single_line(text: Seq<u8>) -> bool {
    forall|i: int| 0 <= i < text.len() ==> !is_break(#[trigger] text[i])
}

/// Whether a frame survives the wire: its simple strings and errors stand
/// on one line, and its lengths and counts fit the machine's word.
pub open spec fn representable(v: FrameView) -> bool
    decreases v,
{
    match v {
        FrameView::SimpleString(text) => single_line(encode_utf8(text)),
        FrameView::Error(text) => single_line(encode_utf8(text)),
        FrameView::BulkString(text) => encode_utf8(text).len() <= usize::MAX,
        FrameView::Array(items) => items.len() <= usize::MAX && forall|i: int|
            0 <= i < items.len() ==> representable(#[trigger] items[i]),
        _ => true,
    }
}

/// Whether every frame of a sequence is representable.
pub open spec fn all_representable(items: Seq<FrameView>) -> bool {
    forall|i: int| 0 <= i < items.len() ==> representable(#[trigger] items[i])
}

/// Tells whether the bytes stand on one line.
fn is_single_line(text: &[u8]) -> (b: bool)
    ensures
        b == single_line(text@),
{
    let mut i: usize = 0;
    while i < text.len()
        invariant
            i <= text.len(),
            forall|j: int| 0 <= j < i ==> !is_break(#[trigger] text@[j]),
        decreases text.len() - i,
    {
        if text[i] == CR || text[i] == LF {
            return false;
        }
        i += 1;
    }
    true
}

/// Tells whether a frame survives the wire, that is, whether decoding its
/// encoding gives it back.
pub fn is_representable(v: &Frame) -> (b: bool)
    ensures
        b == representable(v@),
    decreases v,
{
    match v {
        Frame::SimpleString(text) => is_single_line(text.as_str().as_bytes()),
        Frame::Error(text) => is_single_line(text.as_str().as_bytes()),
        Frame::BulkString(text) => {
            let _fits: usize = text.as_str().as_bytes().len();
            true
        },
        Frame::Array(items) => {
            let ghost views = view_items(items@);
            let mut i: usize = 0;
            while i < items.len()
                invariant
                    i <= items.len(),
                    views == view_items(items@),
                    decreases_to!(v => items),
                    v@ == FrameView::Array(views),
                    forall|j: int| 0 <= j < i ==> representable(#[trigger] views[j]),
                decreases items.len() - i,
            {
                if !is_representable(&items[i]) {
                    assert(!representable(views[i as int]));
                    return false;
                }
                i += 1;
            }
            true
        },
        _ => true,
    }
}

/// The value type of the `resp` crate, which verified code only passes on.
#[verifier::external_type_specification]
#[verifier::external_body]
pub struct ExRespValue(resp::Value);

/// Rebuilds a value in the vocabulary of the `resp` crate, variant for
/// variant. Nothing is claimed of the result: it is only handed on to
/// `resp`.
#[verifier::external_body]
fn to_resp(v: &Frame) -> resp::Value {
    match v {
        Frame::Null => resp::Value::Null,
        Frame::NullArray => resp::Value::NullArray,
        Frame::SimpleString(text) => resp::Value::String(text.clone()),
        Frame::Error(text) => resp::Value::Error(text.clone()),
        Frame::Integer(i) => resp::Value::Integer(*i),
        Frame::BulkString(text) => resp::Value::Bulk(text.clone()),
        Frame::Array(items) => resp::Value::Array(items.iter().map(to_resp).collect()),
    }
}

/// Calls `resp::Value::encode`. Trusted: that the bytes it writes for a
/// value are those of [`wire`]: the tag, the text or the decimal header,
/// the line ending, and for an array its items in order.
#[verifier::external_body]
fn resp_encode(v: &Frame) -> (bytes: Vec<u8>)
    ensures
        bytes@ == wire(v@),
{
    to_resp(v).encode()
}

/// Encodes a value for the wire.
pub fn encode(v: &Frame) -> (bytes: Vec<u8>)
    ensures
        bytes@ == wire(v@),
{
    resp_encode(v)
}

} // verus!
