//! The grammar of the wire format.
//!
//! [`parse`] reads one frame from a position in a byte string. It accepts
//! exactly the encodings that `wire` gives of representable frames: a
//! header is a canonical numeral, text is well-formed UTF-8 on one line,
//! and every line ends in a carriage return and a line feed.

use vstd::prelude::*;
use vstd::utf8::{decode_utf8, valid_utf8};
use crate::decimal::{integer_numeral, numeral_within};
use crate::frame::FrameView;
use crate::wire::{
    absent,
    is_break,
    CR,
    LF,
    TAG_ARRAY,
    TAG_BULK,
    TAG_ERROR,
    TAG_INTEGER,
    TAG_SIMPLE,
};

verus! {

/// What the grammar makes of the bytes at a position.
pub enum Parsed {
    /// One complete frame, and the position just behind it.
    Done { frame: FrameView, next: int },
    /// The input ends before the frame does.
    Truncated,
    /// The input breaks the grammar.
    Malformed,
}

/// Where the line that starts at a position ends.
pub enum LineEnd {
    /// The position of the carriage return that ends the line.
    At(int),
    /// The input ends before the line does.
    Truncated,
    /// A line feed without carriage return, or a carriage return without
    /// line feed.
    Malformed,
}

/// Whether a byte opens a frame.
pub open spec fn is_tag(b: u8) -> bool {
    b == TAG_SIMPLE || b == TAG_ERROR || b == TAG_INTEGER || b == TAG_BULK || b == TAG_ARRAY
}

/// The first position at or after `pos` that holds a carriage return or a
/// line feed; the length of the input if there is none.
pub open spec fn first_break(bytes: Seq<u8>, pos: int) -> int
    decreases bytes.len() - pos,
{
    if pos >= bytes.len() {
        bytes.len() as int
    } else if is_break(bytes[pos]) {
        pos
    } else {
        first_break(bytes, pos + 1)
    }
}

/// The end of the line that starts at `pos`.
pub open spec fn line_end(bytes: Seq<u8>, pos: int) -> LineEnd {
    let e = first_break(bytes, pos);
    if e >= bytes.len() {
        LineEnd::Truncated
    } else if bytes[e] != CR {
        LineEnd::Malformed
    } else if e + 1 >= bytes.len() {
        LineEnd::Truncated
    } else if bytes[e + 1] != LF {
        LineEnd::Malformed
    } else {
        LineEnd::At(e)
    }
}

/// The length or count that a header line declares: a canonical numeral
/// of a number that fits the machine's word.
pub open spec fn length_header(head: Seq<u8>) -> Option<nat> {
    numeral_within(head, usize::MAX as nat)
}

/// A line of text as a string, if it is well-formed UTF-8.
pub open spec fn parse_text(text: Seq<u8>) -> Option<Seq<char>> {
    if valid_utf8(text) {
        Some(decode_utf8(text))
    } else {
        None
    }
}

/// The payload of a bulk string of `n` bytes that starts at `body`, and
/// the line ending behind it.
pub open spec fn parse_bulk(bytes: Seq<u8>, body: int, n: nat) -> Parsed {
    if body + n + 2 > bytes.len() {
        Parsed::Truncated
    } else if bytes[body + n] != CR || bytes[body + n + 1] != LF {
        Parsed::Malformed
    } else {
        match parse_text(bytes.subrange(body, body + n)) {
            Some(text) => Parsed::Done { frame: FrameView::BulkString(text), next: body + n + 2 },
            None => Parsed::Malformed,
        }
    }
}

/// Puts `items` in front of the items of a parsed array.
pub open spec fn prepend(items: Seq<FrameView>, rest: Parsed) -> Parsed {
    match rest {
        Parsed::Done { frame: FrameView::Array(more), next } => Parsed::Done {
            frame: FrameView::Array(items + more),
            next,
        },
        Parsed::Done { .. } => Parsed::Malformed,
        Parsed::Truncated => Parsed::Truncated,
        Parsed::Malformed => Parsed::Malformed,
    }
}

/// The frame that starts at `pos`.
pub open spec fn parse(bytes: Seq<u8>, pos: int) -> Parsed
    decreases bytes.len() - pos, 0nat, 0nat,
{
    if pos < 0 || pos >= bytes.len() {
        Parsed::Truncated
    } else if !is_tag(bytes[pos]) {
        Parsed::Malformed
    } else {
        match line_end(bytes, pos + 1) {
            LineEnd::Truncated => Parsed::Truncated,
            LineEnd::Malformed => Parsed::Malformed,
            LineEnd::At(e) => {
                let tag = bytes[pos];
                let head = bytes.subrange(pos + 1, e);
                let body = e + 2;
                if tag == TAG_SIMPLE {
                    match parse_text(head) {
                        Some(text) => Parsed::Done {
                            frame: FrameView::SimpleString(text),
                            next: body,
                        },
                        None => Parsed::Malformed,
                    }
                } else if tag == TAG_ERROR {
                    match parse_text(head) {
                        Some(text) => Parsed::Done { frame: FrameView::Error(text), next: body },
                        None => Parsed::Malformed,
                    }
                } else if tag == TAG_INTEGER {
                    match integer_numeral(head) {
                        Some(i) => Parsed::Done { frame: FrameView::Integer(i), next: body },
                        None => Parsed::Malformed,
                    }
                } else if head == absent() {
                    if tag == TAG_BULK {
                        Parsed::Done { frame: FrameView::Null, next: body }
                    } else {
                        Parsed::Done { frame: FrameView::NullArray, next: body }
                    }
                } else {
                    match length_header(head) {
                        None => Parsed::Malformed,
                        Some(n) => if tag == TAG_BULK {
                            parse_bulk(bytes, body, n)
                        } else {
                            proof {
                                lemma_first_break_bounds(bytes, pos + 1);
                            }
                            parse_items(bytes, body, n)
                        },
                    }
                }
            },
        }
    }
}

/// The `count` frames that start at `pos`, one behind the other, as an
/// array.
pub open spec fn parse_items(bytes: Seq<u8>, pos: int, count: nat) -> Parsed
    decreases bytes.len() - pos, 1nat, count,
{
    if count == 0 {
        Parsed::Done { frame: FrameView::Array(Seq::empty()), next: pos }
    } else {
        match parse(bytes, pos) {
            // A frame holds at least its tag and ends within the input, so
            // `next` always lies behind `pos` and not behind the end.
            Parsed::Done { frame, next } => if next <= pos || next > bytes.len() {
                Parsed::Malformed
            } else {
                prepend(seq![frame], parse_items(bytes, next, (count - 1) as nat))
            },
            Parsed::Truncated => Parsed::Truncated,
            Parsed::Malformed => Parsed::Malformed,
        }
    }
}

/// The first break at or after `pos` lies between `pos` and the end of
/// the input, and no byte before it is a break.
pub proof fn lemma_first_break_bounds(bytes: Seq<u8>, pos: int)
    requires
        0 <= pos,
    ensures
        pos <= first_break(bytes, pos) || bytes.len() <= first_break(bytes, pos),
        first_break(bytes, pos) <= bytes.len(),
        first_break(bytes, pos) < bytes.len() ==> is_break(bytes[first_break(bytes, pos)]),
        forall|i: int| pos <= i < first_break(bytes, pos) ==> !is_break(#[trigger] bytes[i]),
    decreases bytes.len() - pos,
{
    if pos < bytes.len() && !is_break(bytes[pos]) {
        lemma_first_break_bounds(bytes, pos + 1);
    }
}

/// An array parsed by [`parse_items`] is an array.
pub proof fn lemma_parse_items_is_array(bytes: Seq<u8>, pos: int, count: nat)
    ensures
        parse_items(bytes, pos, count) matches Parsed::Done { frame, .. } ==> frame is Array,
{
}

/// Putting two runs of items in front, one after the other, is putting
/// their concatenation in front.
pub proof fn lemma_prepend_twice(first: Seq<FrameView>, second: Seq<FrameView>, rest: Parsed)
    ensures
        prepend(first, prepend(second, rest)) == prepend(first + second, rest),
{
    match rest {
        Parsed::Done { frame: FrameView::Array(more), next } => {
            assert(first + (second + more) =~= (first + second) + more);
        },
        _ => {},
    }
}

} // verus!
