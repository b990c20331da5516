//! How encoding and decoding fit together.
//!
//! The grammar of the decoder accepts the encoding of every representable
//! frame and gives that frame back; whatever it accepts is the encoding of
//! the frame it gives. So no two representable frames share an encoding,
//! and a frame can be cut out of a longer stream without looking at what
//! follows it.

use vstd::prelude::*;
use vstd::utf8::{
    decode_utf8_encode_utf8,
    encode_utf8,
    encode_utf8_decode_utf8,
    encode_utf8_valid_utf8,
    is_ascii_chars,
    is_ascii_chars_encode_utf8,
};
use crate::decimal::{
    all_digits,
    decimal,
    is_digit,
    lemma_decimal_is_numeral,
    lemma_numeral_is_decimal,
    lemma_signed_decimal_is_numeral,
    lemma_signed_numeral_is_decimal,
    signed_decimal,
    MINUS,
};
use crate::grammar::{
    first_break,
    is_tag,
    lemma_first_break_bounds,
    lemma_parse_items_is_array,
    length_header,
    line_end,
    parse,
    parse_items,
    LineEnd,
    Parsed,
};
use crate::frame::FrameView;
use crate::wire::{
    absent,
    all_representable,
    crlf,
    is_break,
    representable,
    single_line,
    wire,
    wire_all,
    CR,
    LF,
    TAG_ARRAY,
    TAG_BULK,
    TAG_ERROR,
    TAG_INTEGER,
    TAG_SIMPLE,
};

verus! {

/// Printable ASCII stands on one line.
pub proof fn lemma_printable_is_single_line(text: Seq<char>)
    requires
        forall|i: int| 0 <= i < text.len() ==> ' ' <= #[trigger] text[i] <= '~',
    ensures
        single_line(encode_utf8(text)),
{
    assert(is_ascii_chars(text));
    is_ascii_chars_encode_utf8(text);
    let bytes = encode_utf8(text);
    assert forall|i: int| 0 <= i < bytes.len() implies !is_break(#[trigger] bytes[i]) by {
        assert(text[i] as u8 == bytes[i]);
    }
}

/// A canonical numeral stands on one line.
proof fn lemma_numeral_single_line(s: Seq<u8>)
    requires
        all_digits(s),
    ensures
        single_line(s),
        single_line(seq![MINUS] + s),
{
    assert forall|i: int| 0 <= i < s.len() implies !is_break(#[trigger] s[i]) by {
        assert(is_digit(s[i]));
    }
    let t = seq![MINUS] + s;
    assert forall|i: int| 0 <= i < t.len() implies !is_break(#[trigger] t[i]) by {
        if i > 0 {
            assert(t[i] == s[i - 1]);
            assert(is_digit(s[i - 1]));
        }
    }
}

/// The first break behind a run of bytes without breaks is where the run
/// ends.
proof fn lemma_first_break_at(bytes: Seq<u8>, pos: int, e: int)
    requires
        0 <= pos <= e < bytes.len(),
        forall|i: int| pos <= i < e ==> !is_break(#[trigger] bytes[i]),
        is_break(bytes[e]),
    ensures
        first_break(bytes, pos) == e,
    decreases e - pos,
{
    if pos < e {
        assert(!is_break(bytes[pos]));
        lemma_first_break_at(bytes, pos + 1, e);
    }
}

/// Where `w` stands at `pos` and opens with a tag, a one-line head and a
/// line ending, the grammar finds that tag, that head and that line end.
proof fn lemma_header_line(bytes: Seq<u8>, pos: int, w: Seq<u8>, tag: u8, head: Seq<u8>)
    requires
        0 <= pos,
        pos + w.len() <= bytes.len(),
        bytes.subrange(pos, pos + w.len()) == w,
        (seq![tag] + head + crlf()).is_prefix_of(w),
        single_line(head),
    ensures
        bytes[pos] == tag,
        line_end(bytes, pos + 1) == LineEnd::At(pos + 1 + head.len()),
        bytes.subrange(pos + 1, pos + 1 + head.len()) == head,
{
    let line = seq![tag] + head + crlf();
    let e = pos + 1 + head.len();
    assert forall|i: int| 0 <= i < line.len() implies bytes[pos + i] == line[i] by {
        assert(w.subrange(0, line.len() as int)[i] == w[i]);
        assert(bytes.subrange(pos, pos + w.len())[i] == bytes[pos + i]);
    }
    assert(line[0] == tag);
    assert forall|i: int| pos + 1 <= i < e implies !is_break(#[trigger] bytes[i]) by {
        assert(bytes[pos + (i - pos)] == line[i - pos]);
        assert(line[i - pos] == head[i - pos - 1]);
    }
    let h = head.len() as int;
    assert(bytes[pos + (1 + h)] == line[1 + h]);
    assert(bytes[pos + (2 + h)] == line[2 + h]);
    assert(line[1 + h] == CR);
    assert(line[2 + h] == LF);
    lemma_first_break_at(bytes, pos + 1, e);
    assert forall|i: int| 0 <= i < head.len() implies bytes.subrange(pos + 1, e)[i] == head[i] by {
        assert(bytes[pos + (i + 1)] == line[i + 1]);
    }
    assert(bytes.subrange(pos + 1, e) =~= head);
}

/// Every encoding holds at least a tag and a line ending.
pub proof fn lemma_wire_len(v: FrameView)
    ensures
        wire(v).len() >= 3,
{
}

/// The grammar reads the encoding of a representable frame, wherever it
/// stands in the input, as that frame.
pub proof fn lemma_parse_wire(v: FrameView, bytes: Seq<u8>, pos: int)
    requires
        representable(v),
        0 <= pos,
        pos + wire(v).len() <= bytes.len(),
        bytes.subrange(pos, pos + wire(v).len()) == wire(v),
    ensures
        parse(bytes, pos) == (Parsed::Done { frame: v, next: pos + wire(v).len() }),
    decreases v, 1nat,
{
    let w = wire(v);
    lemma_wire_len(v);
    match v {
        FrameView::Null => {
            let head = absent();
            assert((seq![TAG_BULK] + head + crlf()).is_prefix_of(w));
            assert(single_line(head));
            lemma_header_line(bytes, pos, w, TAG_BULK, head);
        },
        FrameView::NullArray => {
            let head = absent();
            assert((seq![TAG_ARRAY] + head + crlf()).is_prefix_of(w));
            assert(single_line(head));
            lemma_header_line(bytes, pos, w, TAG_ARRAY, head);
        },
        FrameView::SimpleString(text) => {
            let head = encode_utf8(text);
            assert((seq![TAG_SIMPLE] + head + crlf()).is_prefix_of(w));
            lemma_header_line(bytes, pos, w, TAG_SIMPLE, head);
            encode_utf8_valid_utf8(text);
            encode_utf8_decode_utf8(text);
        },
        FrameView::Error(text) => {
            let head = encode_utf8(text);
            assert((seq![TAG_ERROR] + head + crlf()).is_prefix_of(w));
            lemma_header_line(bytes, pos, w, TAG_ERROR, head);
            encode_utf8_valid_utf8(text);
            encode_utf8_decode_utf8(text);
        },
        FrameView::Integer(i) => {
            let head = signed_decimal(i as int);
            assert((seq![TAG_INTEGER] + head + crlf()).is_prefix_of(w));
            lemma_signed_decimal_is_numeral(i as int);
            if i < 0 {
                lemma_decimal_is_numeral((-i) as nat);
                lemma_numeral_single_line(decimal((-i) as nat));
            } else {
                lemma_decimal_is_numeral(i as nat);
                lemma_numeral_single_line(decimal(i as nat));
            }
            lemma_header_line(bytes, pos, w, TAG_INTEGER, head);
        },
        FrameView::BulkString(text) => {
            let payload = encode_utf8(text);
            let n = payload.len();
            let head = decimal(n);
            assert((seq![TAG_BULK] + head + crlf()).is_prefix_of(w));
            lemma_decimal_is_numeral(n);
            lemma_numeral_single_line(head);
            lemma_header_line(bytes, pos, w, TAG_BULK, head);
            assert(is_digit(head[0]));
            assert(head != absent());
            let body = pos + 1 + head.len() + 2;
            assert(w.len() == 1 + head.len() + 2 + n + 2);
            assert forall|i: int| 0 <= i < w.len() implies bytes[pos + i] == w[i] by {
                assert(bytes.subrange(pos, pos + w.len())[i] == bytes[pos + i]);
            }
            let end = 1 + head.len() + 2 + n as int;
            assert(bytes[pos + end] == w[end]);
            assert(bytes[pos + (end + 1)] == w[end + 1]);
            assert forall|i: int| 0 <= i < n implies bytes.subrange(body, body + n)[i]
                == payload[i] by {
                assert(bytes[pos + (1 + head.len() + 2 + i)] == w[1 + head.len() + 2 + i]);
            }
            assert(bytes.subrange(body, body + n) =~= payload);
            encode_utf8_valid_utf8(text);
            encode_utf8_decode_utf8(text);
        },
        FrameView::Array(items) => {
            let head = decimal(items.len());
            assert((seq![TAG_ARRAY] + head + crlf()).is_prefix_of(w));
            lemma_decimal_is_numeral(items.len());
            lemma_numeral_single_line(head);
            lemma_header_line(bytes, pos, w, TAG_ARRAY, head);
            assert(is_digit(head[0]));
            assert(head != absent());
            let body = pos + 1 + head.len() + 2;
            let rest = wire_all(items);
            assert(w.len() == 1 + head.len() + 2 + rest.len());
            assert forall|i: int| 0 <= i < rest.len() implies bytes.subrange(
                body,
                body + rest.len(),
            )[i] == rest[i] by {
                assert(bytes.subrange(pos, pos + w.len())[1 + head.len() + 2 + i] == bytes[pos + (1
                    + head.len() + 2 + i)]);
                assert(w[1 + head.len() + 2 + i] == rest[i]);
            }
            assert(bytes.subrange(body, body + rest.len()) =~= rest);
            lemma_parse_wire_all(items, bytes, body);
        },
    }
}

/// The grammar reads the encodings of representable frames, one behind
/// the other, as the array of those frames.
pub proof fn lemma_parse_wire_all(items: Seq<FrameView>, bytes: Seq<u8>, pos: int)
    requires
        all_representable(items),
        0 <= pos,
        pos + wire_all(items).len() <= bytes.len(),
        bytes.subrange(pos, pos + wire_all(items).len()) == wire_all(items),
    ensures
        parse_items(bytes, pos, items.len()) == (Parsed::Done {
            frame: FrameView::Array(items),
            next: pos + wire_all(items).len(),
        }),
    decreases items, 0nat,
{
    if items.len() == 0 {
        assert(items =~= Seq::<FrameView>::empty());
    } else {
        let first = items[0];
        let tail = items.drop_first();
        let w = wire(first);
        let all = wire_all(items);
        lemma_wire_len(first);
        assert(all == w + wire_all(tail));
        assert forall|i: int| 0 <= i < w.len() implies bytes.subrange(pos, pos + w.len())[i]
            == w[i] by {
            assert(bytes.subrange(pos, pos + all.len())[i] == bytes[pos + i]);
            assert(all[i] == w[i]);
        }
        assert(bytes.subrange(pos, pos + w.len()) =~= w);
        assert(representable(first));
        lemma_parse_wire(first, bytes, pos);
        let mid = pos + w.len();
        let rest = wire_all(tail);
        assert forall|i: int| 0 <= i < rest.len() implies bytes.subrange(mid, mid + rest.len())[i]
            == rest[i] by {
            assert(bytes.subrange(pos, pos + all.len())[w.len() + i] == bytes[pos + (w.len()
                + i)]);
            assert(all[w.len() + i] == rest[i]);
        }
        assert(bytes.subrange(mid, mid + rest.len()) =~= rest);
        assert forall|i: int| 0 <= i < tail.len() implies representable(#[trigger] tail[i]) by {
            assert(tail[i] == items[i + 1]);
        }
        lemma_parse_wire_all(tail, bytes, mid);
        assert(seq![first] + tail =~= items);
    }
}

/// Whatever the grammar accepts is the encoding of the frame it gives,
/// and that frame is representable.
pub proof fn lemma_parse_sound(bytes: Seq<u8>, pos: int)
    requires
        parse(bytes, pos) is Done,
    ensures
        pos < parse(bytes, pos)->next <= bytes.len(),
        representable(parse(bytes, pos)->frame),
        bytes.subrange(pos, parse(bytes, pos)->next) == wire(parse(bytes, pos)->frame),
    decreases bytes.len() - pos, 0nat, 0nat,
{
    let tag = bytes[pos];
    let e = first_break(bytes, pos + 1);
    lemma_first_break_bounds(bytes, pos + 1);
    let head = bytes.subrange(pos + 1, e);
    let body = e + 2;
    let frame = parse(bytes, pos)->frame;
    let next = parse(bytes, pos)->next;
    assert(line_end(bytes, pos + 1) == LineEnd::At(e));
    assert forall|i: int| 0 <= i < head.len() implies !is_break(#[trigger] head[i]) by {
        assert(head[i] == bytes[pos + 1 + i]);
    }
    let line = seq![tag] + head + crlf();
    assert(bytes.subrange(pos, body) =~= line);
    if tag == TAG_SIMPLE || tag == TAG_ERROR {
        decode_utf8_encode_utf8(head);
    } else if tag == TAG_INTEGER {
        lemma_signed_numeral_is_decimal(head);
    } else if head == absent() {
    } else {
        let n = length_header(head)->0;
        lemma_numeral_is_decimal(head);
        if tag == TAG_BULK {
            let payload = bytes.subrange(body, body + n);
            decode_utf8_encode_utf8(payload);
            assert(bytes.subrange(pos, next) =~= line + payload + crlf());
            assert(wire(frame) =~= line + payload + crlf());
        } else {
            lemma_parse_items_sound(bytes, body, n);
            let items = frame->Array_0;
            assert(bytes.subrange(pos, next) =~= line + bytes.subrange(body, next));
            assert(wire(frame) =~= line + wire_all(items));
        }
    }
}

/// Whatever the grammar accepts as `count` frames is the encodings of the
/// frames it gives, one behind the other; there are `count` of them and
/// each is representable.
pub proof fn lemma_parse_items_sound(bytes: Seq<u8>, pos: int, count: nat)
    requires
        0 <= pos <= bytes.len(),
        parse_items(bytes, pos, count) is Done,
    ensures
        parse_items(bytes, pos, count)->frame is Array,
        parse_items(bytes, pos, count)->frame->Array_0.len() == count,
        all_representable(parse_items(bytes, pos, count)->frame->Array_0),
        pos <= parse_items(bytes, pos, count)->next <= bytes.len(),
        bytes.subrange(pos, parse_items(bytes, pos, count)->next) == wire_all(
            parse_items(bytes, pos, count)->frame->Array_0,
        ),
    decreases bytes.len() - pos, 1nat, count,
{
    let items = parse_items(bytes, pos, count)->frame->Array_0;
    let end = parse_items(bytes, pos, count)->next;
    if count == 0 {
        assert(bytes.subrange(pos, pos) =~= wire_all(items));
    } else {
        let first = parse(bytes, pos)->frame;
        let mid = parse(bytes, pos)->next;
        lemma_parse_sound(bytes, pos);
        lemma_parse_items_sound(bytes, mid, (count - 1) as nat);
        let more = parse_items(bytes, mid, (count - 1) as nat)->frame->Array_0;
        assert(items == seq![first] + more);
        assert(items.drop_first() =~= more);
        assert forall|i: int| 0 <= i < items.len() implies representable(#[trigger] items[i]) by {
            if i > 0 {
                assert(items[i] == more[i - 1]);
            }
        }
        assert(bytes.subrange(pos, end) =~= bytes.subrange(pos, mid) + bytes.subrange(mid, end));
    }
}

/// Where the input ends inside the encoding of a representable frame
/// that starts at `pos`, the grammar reports that it is truncated.
pub proof fn lemma_parse_cut(v: FrameView, bytes: Seq<u8>, pos: int)
    requires
        representable(v),
        0 <= pos <= bytes.len(),
        bytes.len() - pos < wire(v).len(),
        bytes.subrange(pos, bytes.len() as int) == wire(v).take(bytes.len() - pos),
    ensures
        parse(bytes, pos) is Truncated,
    decreases v, 1nat,
{
    let k = bytes.len() - pos;
    let w = wire(v);
    let cut = w.take(k);
    assert forall|i: int| 0 <= i < k implies bytes[pos + i] == w[i] by {
        assert(bytes.subrange(pos, bytes.len() as int)[i] == bytes[pos + i]);
        assert(cut[i] == w[i]);
    }
    let (tag, head) = match v {
        FrameView::Null => (TAG_BULK, absent()),
        FrameView::NullArray => (TAG_ARRAY, absent()),
        FrameView::SimpleString(text) => (TAG_SIMPLE, encode_utf8(text)),
        FrameView::Error(text) => (TAG_ERROR, encode_utf8(text)),
        FrameView::Integer(i) => (TAG_INTEGER, signed_decimal(i as int)),
        FrameView::BulkString(text) => (TAG_BULK, decimal(encode_utf8(text).len())),
        FrameView::Array(items) => (TAG_ARRAY, decimal(items.len())),
    };
    let line = seq![tag] + head + crlf();
    let h = head.len() as int;
    assert(line.is_prefix_of(w));
    assert forall|i: int| 0 <= i < line.len() implies w[i] == line[i] by {
        assert(w.subrange(0, line.len() as int)[i] == w[i]);
    }
    assert(single_line(head)) by {
        match v {
            FrameView::Integer(i) => {
                if i < 0 {
                    lemma_decimal_is_numeral((-i) as nat);
                    lemma_numeral_single_line(decimal((-i) as nat));
                } else {
                    lemma_decimal_is_numeral(i as nat);
                    lemma_numeral_single_line(decimal(i as nat));
                }
            },
            FrameView::BulkString(text) => {
                lemma_decimal_is_numeral(encode_utf8(text).len());
                lemma_numeral_single_line(head);
            },
            FrameView::Array(items) => {
                lemma_decimal_is_numeral(items.len());
                lemma_numeral_single_line(head);
            },
            _ => {},
        }
    }
    if k == 0 {
    } else {
        assert(bytes[pos + 0] == w[0]);
        assert(line[0] == tag);
        if k <= 1 + h {
            lemma_first_break_bounds(bytes, pos + 1);
            let e = first_break(bytes, pos + 1);
            if e < bytes.len() {
                assert(bytes[pos + (e - pos)] == w[e - pos]);
                assert(line[e - pos] == head[e - pos - 1]);
            }
        } else if k == 2 + h {
            assert forall|i: int| pos + 1 <= i < pos + 1 + h implies !is_break(
                #[trigger] bytes[i],
            ) by {
                assert(bytes[pos + (i - pos)] == w[i - pos]);
                assert(line[i - pos] == head[i - pos - 1]);
            }
            assert(bytes[pos + (1 + h)] == w[1 + h]);
            assert(line[1 + h] == CR);
            lemma_first_break_at(bytes, pos + 1, pos + 1 + h);
        } else {
            assert(line.is_prefix_of(cut)) by {
                assert(line =~= cut.subrange(0, line.len() as int));
            }
            lemma_header_line(bytes, pos, cut, tag, head);
            let body = pos + 1 + h + 2;
            match v {
                FrameView::BulkString(text) => {
                    lemma_decimal_is_numeral(encode_utf8(text).len());
                    assert(is_digit(head[0]));
                    assert(head != absent());
                },
                FrameView::Array(items) => {
                    lemma_decimal_is_numeral(items.len());
                    assert(is_digit(head[0]));
                    assert(head != absent());
                    let rest = wire_all(items);
                    let r = bytes.len() - body;
                    assert(w.len() == 1 + h + 2 + rest.len());
                    assert forall|i: int| 0 <= i < r implies bytes.subrange(
                        body,
                        bytes.len() as int,
                    )[i] == rest.take(r)[i] by {
                        assert(bytes[pos + (1 + h + 2 + i)] == w[1 + h + 2 + i]);
                        assert(w[1 + h + 2 + i] == rest[i]);
                    }
                    assert(bytes.subrange(body, bytes.len() as int) =~= rest.take(r));
                    lemma_parse_cut_all(items, bytes, body);
                },
                _ => {},
            }
        }
    }
}

/// Where the input ends inside the encodings of representable frames
/// that start at `pos`, the grammar reports that it is truncated.
pub proof fn lemma_parse_cut_all(items: Seq<FrameView>, bytes: Seq<u8>, pos: int)
    requires
        all_representable(items),
        0 <= pos <= bytes.len(),
        bytes.len() - pos < wire_all(items).len(),
        bytes.subrange(pos, bytes.len() as int) == wire_all(items).take(bytes.len() - pos),
    ensures
        parse_items(bytes, pos, items.len()) is Truncated,
    decreases items, 0nat,
{
    let k = bytes.len() - pos;
    let all = wire_all(items);
    let first = items[0];
    let tail = items.drop_first();
    let w = wire(first);
    let rest = wire_all(tail);
    assert(all == w + rest);
    assert(representable(first));
    assert forall|i: int| 0 <= i < k implies bytes[pos + i] == all[i] by {
        assert(bytes.subrange(pos, bytes.len() as int)[i] == bytes[pos + i]);
        assert(all.take(k)[i] == all[i]);
    }
    if k < w.len() {
        assert forall|i: int| 0 <= i < k implies bytes.subrange(pos, bytes.len() as int)[i]
            == w.take(k)[i] by {
            assert(bytes[pos + i] == all[i]);
        }
        assert(bytes.subrange(pos, bytes.len() as int) =~= w.take(k));
        lemma_parse_cut(first, bytes, pos);
    } else {
        lemma_wire_len(first);
        let mid = pos + w.len();
        assert forall|i: int| 0 <= i < w.len() implies bytes.subrange(pos, mid)[i] == w[i] by {
            assert(bytes[pos + i] == all[i]);
        }
        assert(bytes.subrange(pos, mid) =~= w);
        lemma_parse_wire(first, bytes, pos);
        let r = bytes.len() - mid;
        assert forall|i: int| 0 <= i < r implies bytes.subrange(mid, bytes.len() as int)[i]
            == rest.take(r)[i] by {
            assert(bytes[pos + (w.len() + i)] == all[w.len() + i]);
        }
        assert(bytes.subrange(mid, bytes.len() as int) =~= rest.take(r));
        assert forall|i: int| 0 <= i < tail.len() implies representable(#[trigger] tail[i]) by {
            assert(tail[i] == items[i + 1]);
        }
        lemma_parse_cut_all(tail, bytes, mid);
    }
}

/// A break that the input holds stays the first break when more input
/// follows.
proof fn lemma_first_break_extends(bytes: Seq<u8>, more: Seq<u8>, pos: int)
    requires
        0 <= pos,
        first_break(bytes, pos) < bytes.len(),
    ensures
        first_break(bytes + more, pos) == first_break(bytes, pos),
{
    let e = first_break(bytes, pos);
    let ext = bytes + more;
    lemma_first_break_bounds(bytes, pos);
    assert forall|i: int| pos <= i < e implies !is_break(#[trigger] ext[i]) by {
        assert(ext[i] == bytes[i]);
    }
    assert(ext[e] == bytes[e]);
    lemma_first_break_at(ext, pos, e);
}

/// A frame that the grammar has accepted stays the same frame when more
/// input follows.
pub proof fn lemma_parse_done_extends(bytes: Seq<u8>, more: Seq<u8>, pos: int)
    requires
        parse(bytes, pos) is Done,
    ensures
        parse(bytes + more, pos) == parse(bytes, pos),
{
    lemma_parse_sound(bytes, pos);
    let frame = parse(bytes, pos)->frame;
    let next = parse(bytes, pos)->next;
    assert((bytes + more).subrange(pos, next) =~= bytes.subrange(pos, next));
    lemma_parse_wire(frame, bytes + more, pos);
}

/// Input that the grammar has rejected stays rejected when more input
/// follows.
pub proof fn lemma_parse_malformed_extends(bytes: Seq<u8>, more: Seq<u8>, pos: int)
    requires
        parse(bytes, pos) is Malformed,
    ensures
        parse(bytes + more, pos) is Malformed,
    decreases bytes.len() - pos, 0nat, 0nat,
{
    let ext = bytes + more;
    assert(ext[pos] == bytes[pos]);
    if is_tag(bytes[pos]) {
        let e = first_break(bytes, pos + 1);
        lemma_first_break_bounds(bytes, pos + 1);
        lemma_first_break_extends(bytes, more, pos + 1);
        assert(ext[e] == bytes[e]);
        if e + 1 < bytes.len() {
            assert(ext[e + 1] == bytes[e + 1]);
        }
        if line_end(bytes, pos + 1) is At {
            let body = e + 2;
            let head = bytes.subrange(pos + 1, e);
            assert(ext.subrange(pos + 1, e) =~= head);
            let tag = bytes[pos];
            if (tag == TAG_BULK || tag == TAG_ARRAY) && head != absent() && length_header(head)
                is Some {
                let n = length_header(head)->0;
                if tag == TAG_BULK {
                    assert(ext[body + n] == bytes[body + n]);
                    assert(ext[body + n + 1] == bytes[body + n + 1]);
                    assert(ext.subrange(body, body + n) =~= bytes.subrange(body, body + n));
                } else {
                    lemma_parse_items_malformed_extends(bytes, more, body, n);
                }
            }
        }
    }
}

/// A run of frames that the grammar has rejected stays rejected when more
/// input follows.
pub proof fn lemma_parse_items_malformed_extends(
    bytes: Seq<u8>,
    more: Seq<u8>,
    pos: int,
    count: nat,
)
    requires
        0 <= pos <= bytes.len(),
        parse_items(bytes, pos, count) is Malformed,
    ensures
        parse_items(bytes + more, pos, count) is Malformed,
    decreases bytes.len() - pos, 1nat, count,
{
    if parse(bytes, pos) is Malformed {
        lemma_parse_malformed_extends(bytes, more, pos);
    } else {
        let next = parse(bytes, pos)->next;
        lemma_parse_sound(bytes, pos);
        lemma_parse_done_extends(bytes, more, pos);
        lemma_parse_items_is_array(bytes, next, (count - 1) as nat);
        lemma_parse_items_malformed_extends(bytes, more, next, (count - 1) as nat);
    }
}

/// Decoding undoes encoding: the bytes of a representable frame, with
/// whatever follows them, decode to that frame, and the decoder stops
/// right behind it.
pub proof fn law_decode_inverts_encode(v: FrameView, rest: Seq<u8>)
    requires
        representable(v),
    ensures
        parse(wire(v) + rest, 0) == (Parsed::Done { frame: v, next: wire(v).len() as int }),
{
    let bytes = wire(v) + rest;
    assert(bytes.subrange(0, wire(v).len() as int) =~= wire(v));
    lemma_parse_wire(v, bytes, 0);
}

/// Encoding undoes decoding: the bytes that the decoder took are the
/// encoding of the frame that it gave.
pub proof fn law_encode_inverts_decode(bytes: Seq<u8>)
    requires
        parse(bytes, 0) is Done,
    ensures
        representable(parse(bytes, 0)->frame),
        0 < parse(bytes, 0)->next <= bytes.len(),
        wire(parse(bytes, 0)->frame) == bytes.subrange(0, parse(bytes, 0)->next),
{
    lemma_parse_sound(bytes, 0);
}

/// No representable frame's encoding is the beginning of another's: two
/// streams that agree byte for byte begin with the same frame and go on
/// with the same bytes.
pub proof fn law_encoding_is_unambiguous(
    a: FrameView,
    b: FrameView,
    after_a: Seq<u8>,
    after_b: Seq<u8>,
)
    requires
        representable(a),
        representable(b),
        wire(a) + after_a == wire(b) + after_b,
    ensures
        a == b,
        after_a == after_b,
{
    law_decode_inverts_encode(a, after_a);
    law_decode_inverts_encode(b, after_b);
    let stream = wire(a) + after_a;
    assert(after_a =~= stream.subrange(wire(a).len() as int, stream.len() as int));
    assert(after_b =~= stream.subrange(wire(b).len() as int, stream.len() as int));
}

/// A frame that has only arrived in part is reported as truncated, never
/// as malformed and never as some shorter frame: that holds of every
/// proper beginning of the encoding of a representable frame.
pub proof fn law_cut_encoding_is_truncated(v: FrameView, k: int)
    requires
        representable(v),
        0 <= k < wire(v).len(),
    ensures
        parse(wire(v).take(k), 0) is Truncated,
{
    let bytes = wire(v).take(k);
    assert(bytes.subrange(0, bytes.len() as int) =~= wire(v).take(bytes.len() - 0));
    lemma_parse_cut(v, bytes, 0);
}

/// Reading on never changes what has been decided: a frame that was
/// decoded stays that frame, and input that was rejected stays rejected,
/// whatever bytes arrive behind it. Only truncated input is still open.
pub proof fn law_more_input_changes_no_verdict(bytes: Seq<u8>, more: Seq<u8>)
    requires
        !(parse(bytes, 0) is Truncated),
    ensures
        parse(bytes + more, 0) == parse(bytes, 0),
{
    if parse(bytes, 0) is Done {
        lemma_parse_done_extends(bytes, more, 0);
    } else {
        lemma_parse_malformed_extends(bytes, more, 0);
    }
}

} // verus!
