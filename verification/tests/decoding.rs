use rudis::decode::{decode, DecodeError};
use rudis::frame::Frame;
use rudis::wire::is_representable;
use rudis::wire::encode;

fn bulk(text: &str) -> Frame {
    Frame::BulkString(text.to_string())
}

fn sample_frames() -> Vec<Frame> {
    vec![
        Frame::Null,
        Frame::NullArray,
        Frame::SimpleString(String::new()),
        Frame::SimpleString("OK".to_string()),
        Frame::Error("ERR invalid command".to_string()),
        Frame::Integer(0),
        Frame::Integer(7),
        Frame::Integer(-1),
        Frame::Integer(1456061893587000000),
        Frame::Integer(i64::MIN),
        Frame::Integer(i64::MAX),
        bulk(""),
        bulk("foobar"),
        bulk("line one\r\nline two"),
        bulk("\u{4e2d}\u{6587}"),
        Frame::Array(vec![]),
        Frame::Array(vec![bulk("SET"), bulk("key"), bulk("value")]),
        Frame::Array(vec![
            Frame::Array(vec![Frame::Integer(1), Frame::Integer(2), Frame::Integer(3)]),
            Frame::Array(vec![
                Frame::SimpleString("Foo".to_string()),
                Frame::Error("Bar".to_string()),
            ]),
            Frame::Null,
            Frame::NullArray,
            bulk("tail"),
        ]),
    ]
}

#[test]
fn decode_inverts_encode_on_samples() {
    for frame in sample_frames() {
        assert!(is_representable(&frame));
        let bytes = encode(&frame);
        let used = bytes.len();
        assert_eq!(decode(&bytes), Ok((frame, used)));
    }
}

#[test]
fn decode_leaves_what_follows_the_frame() {
    for frame in sample_frames() {
        let mut bytes = encode(&frame);
        let used = bytes.len();
        bytes.extend_from_slice(b"*1\r\n$4\r\nnext");
        assert_eq!(decode(&bytes), Ok((frame, used)));
    }
}

#[test]
fn every_proper_prefix_is_truncated() {
    for frame in sample_frames() {
        let bytes = encode(&frame);
        for cut in 0..bytes.len() {
            assert_eq!(decode(&bytes[..cut]), Err(DecodeError::Truncated));
        }
    }
}

#[test]
fn decodes_each_variant() {
    assert_eq!(decode(b"+OK\r\n"), Ok((Frame::SimpleString("OK".to_string()), 5)));
    assert_eq!(decode(b"-Error message\r\n"), Ok((Frame::Error("Error message".to_string()), 16)));
    assert_eq!(decode(b":-1\r\n"), Ok((Frame::Integer(-1), 5)));
    assert_eq!(decode(b":0\r\n"), Ok((Frame::Integer(0), 4)));
    assert_eq!(decode(b"$-1\r\n"), Ok((Frame::Null, 5)));
    assert_eq!(decode(b"*-1\r\n"), Ok((Frame::NullArray, 5)));
    assert_eq!(decode(b"$0\r\n\r\n"), Ok((bulk(""), 6)));
    assert_eq!(decode(b"$6\r\nfoobar\r\n"), Ok((bulk("foobar"), 12)));
    assert_eq!(decode(b"*0\r\n"), Ok((Frame::Array(vec![]), 4)));
    assert_eq!(
        decode(b"*2\r\n$3\r\nfoo\r\n$3\r\nbar\r\n"),
        Ok((Frame::Array(vec![bulk("foo"), bulk("bar")]), 22))
    );
    assert_eq!(
        decode(b"*3\r\n$3\r\nfoo\r\n$-1\r\n$3\r\nbar\r\n"),
        Ok((Frame::Array(vec![bulk("foo"), Frame::Null, bulk("bar")]), 27))
    );
}

#[test]
fn decodes_text_as_utf8() {
    let bytes = "$6\r\n\u{4e2d}\u{6587}\r\n".as_bytes().to_vec();
    assert_eq!(decode(&bytes), Ok((bulk("\u{4e2d}\u{6587}"), 12)));
    let bytes = "+\u{4e2d}\u{6587}\r\n".as_bytes().to_vec();
    assert_eq!(decode(&bytes), Ok((Frame::SimpleString("\u{4e2d}\u{6587}".to_string()), 9)));
}

#[test]
fn rejects_text_that_is_not_utf8() {
    assert_eq!(decode(b"+\xff\xfe\r\n"), Err(DecodeError::Malformed));
    assert_eq!(decode(b"-\xc3\r\n"), Err(DecodeError::Malformed));
    assert_eq!(decode(b"$2\r\n\xc3\x28\r\n"), Err(DecodeError::Malformed));
    assert_eq!(decode(b"$3\r\n\xed\xa0\x80\r\n"), Err(DecodeError::Malformed));
}

#[test]
fn empty_input_is_truncated() {
    assert_eq!(decode(b""), Err(DecodeError::Truncated));
}

#[test]
fn unknown_tag_is_malformed() {
    assert_eq!(decode(b"&-1\r\n"), Err(DecodeError::Malformed));
    assert_eq!(decode(b"\x01\x02"), Err(DecodeError::Malformed));
    assert_eq!(decode(b"GET key\r\n"), Err(DecodeError::Malformed));
}

#[test]
fn malformed_numeric_headers_are_rejected() {
    assert_eq!(decode(b"$\r\n"), Err(DecodeError::Malformed));
    assert_eq!(decode(b"$-2\r\n"), Err(DecodeError::Malformed));
    assert_eq!(decode(b"$abc\r\n"), Err(DecodeError::Malformed));
    assert_eq!(decode(b"$+3\r\nfoo\r\n"), Err(DecodeError::Malformed));
    assert_eq!(decode(b"$03\r\nfoo\r\n"), Err(DecodeError::Malformed));
    assert_eq!(decode(b"$ 3\r\nfoo\r\n"), Err(DecodeError::Malformed));
    assert_eq!(decode(b"*\r\n"), Err(DecodeError::Malformed));
    assert_eq!(decode(b"*-2\r\n"), Err(DecodeError::Malformed));
    assert_eq!(decode(b"*1x\r\n:1\r\n"), Err(DecodeError::Malformed));
    assert_eq!(decode(b"$99999999999999999999999999\r\n"), Err(DecodeError::Malformed));
}

#[test]
fn malformed_integers_are_rejected() {
    assert_eq!(decode(b":\r\n"), Err(DecodeError::Malformed));
    assert_eq!(decode(b":-\r\n"), Err(DecodeError::Malformed));
    assert_eq!(decode(b":-0\r\n"), Err(DecodeError::Malformed));
    assert_eq!(decode(b":+5\r\n"), Err(DecodeError::Malformed));
    assert_eq!(decode(b":007\r\n"), Err(DecodeError::Malformed));
    assert_eq!(decode(b":12a\r\n"), Err(DecodeError::Malformed));
    assert_eq!(decode(b":1.5\r\n"), Err(DecodeError::Malformed));
    assert_eq!(decode(b":9223372036854775808\r\n"), Err(DecodeError::Malformed));
    assert_eq!(decode(b":-9223372036854775809\r\n"), Err(DecodeError::Malformed));
    assert_eq!(decode(b":18446744073709551616\r\n"), Err(DecodeError::Malformed));
}

#[test]
fn integer_bounds_are_accepted() {
    assert_eq!(decode(b":9223372036854775807\r\n"), Ok((Frame::Integer(i64::MAX), 22)));
    assert_eq!(decode(b":-9223372036854775808\r\n"), Ok((Frame::Integer(i64::MIN), 23)));
}

#[test]
fn broken_line_endings_are_malformed() {
    assert_eq!(decode(b"+OK\n"), Err(DecodeError::Malformed));
    assert_eq!(decode(b"+OK\rX"), Err(DecodeError::Malformed));
    assert_eq!(decode(b"+O\nK\r\n"), Err(DecodeError::Malformed));
    assert_eq!(decode(b"+O\rK\r\n"), Err(DecodeError::Malformed));
    assert_eq!(decode(b"+OK\r"), Err(DecodeError::Truncated));
}

#[test]
fn declared_length_must_match_the_payload() {
    // Fewer bytes than declared, and nothing more to come yet.
    assert_eq!(decode(b"$5\r\nab\r\n"), Err(DecodeError::Truncated));
    // Fewer bytes than declared: the line ending is not where it must be.
    assert_eq!(decode(b"$5\r\nab\r\n+OK\r\n"), Err(DecodeError::Malformed));
    // More bytes than declared.
    assert_eq!(decode(b"$2\r\nabcd\r\n"), Err(DecodeError::Malformed));
    assert_eq!(decode(b"$3\r\nfoo\n\r"), Err(DecodeError::Malformed));
}

#[test]
fn array_needs_all_its_items() {
    assert_eq!(decode(b"*3\r\n"), Err(DecodeError::Truncated));
    assert_eq!(decode(b"*3\r\n$3\r\nfoo\r\n$-1\r\n"), Err(DecodeError::Truncated));
    assert_eq!(decode(b"*3\r\n$3\r\nfoo\r\n$-1\r\n$3\r\nba"), Err(DecodeError::Truncated));
    assert_eq!(decode(b"*2\r\n:1\r\n?\r\n"), Err(DecodeError::Malformed));
}

#[test]
fn array_takes_no_more_than_its_count() {
    assert_eq!(
        decode(b"*1\r\n:1\r\n:2\r\n"),
        Ok((Frame::Array(vec![Frame::Integer(1)]), 8))
    );
}

#[test]
fn text_with_line_breaks_is_not_representable() {
    assert!(!is_representable(&Frame::SimpleString("a\r\nb".to_string())));
    assert!(!is_representable(&Frame::SimpleString("a\nb".to_string())));
    assert!(!is_representable(&Frame::Error("a\rb".to_string())));
    assert!(!is_representable(&Frame::Array(vec![
        Frame::Integer(1),
        Frame::Array(vec![Frame::Error("two\nlines".to_string())]),
    ])));
    assert!(is_representable(&bulk("a\r\nb")));
    // Such a frame does not come back from the wire.
    let frame = Frame::SimpleString("a\r\nb".to_string());
    let bytes = encode(&frame);
    assert_ne!(decode(&bytes), Ok((frame, bytes.len())));
}

#[test]
fn more_input_changes_no_verdict() {
    for frame in sample_frames() {
        let mut bytes = encode(&frame);
        let verdict = decode(&bytes);
        bytes.extend_from_slice(b"\r\n\x00anything");
        assert_eq!(decode(&bytes), verdict);
    }
    for rejected in [&b"+O\nK"[..], b"$03\r\n", b"*2\r\n:1\r\n:x\r\n", b"$1\r\nabc"] {
        assert_eq!(decode(rejected), Err(DecodeError::Malformed));
        let mut bytes = rejected.to_vec();
        bytes.extend_from_slice(b"\r\n+OK\r\n");
        assert_eq!(decode(&bytes), Err(DecodeError::Malformed));
    }
}

#[test]
fn text_is_held_to_well_formed_utf8() {
    // Overlong encodings, surrogates and code points past the last one.
    assert_eq!(decode(b"$2\r\n\xc0\x80\r\n"), Err(DecodeError::Malformed));
    assert_eq!(decode(b"$3\r\n\xe0\x80\x80\r\n"), Err(DecodeError::Malformed));
    assert_eq!(decode(b"$3\r\n\xed\xbf\xbf\r\n"), Err(DecodeError::Malformed));
    assert_eq!(decode(b"$4\r\n\xf4\x90\x80\x80\r\n"), Err(DecodeError::Malformed));
    assert_eq!(decode(b"$4\r\n\xf8\x88\x80\x80\r\n"), Err(DecodeError::Malformed));
    assert_eq!(decode(b"$1\r\n\x80\r\n"), Err(DecodeError::Malformed));
    // The first and the last code point of each width.
    for text in ["\u{0}", "\u{7f}", "\u{80}", "\u{7ff}", "\u{800}", "\u{d7ff}", "\u{e000}",
        "\u{ffff}", "\u{10000}", "\u{10ffff}", "\u{1f600}"]
    {
        let frame = bulk(text);
        let bytes = encode(&frame);
        let used = bytes.len();
        assert_eq!(decode(&bytes), Ok((frame, used)));
    }
}
