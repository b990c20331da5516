use rudis::frame::Frame;
use rudis::wire::encode;

#[test]
fn encodes_simple_string() {
    assert_eq!(encode(&Frame::SimpleString("OK".to_string())), b"+OK\r\n".to_vec());
}

#[test]
fn encodes_error() {
    assert_eq!(
        encode(&Frame::Error("ERR invalid command".to_string())),
        b"-ERR invalid command\r\n".to_vec()
    );
}

#[test]
fn encodes_integers() {
    assert_eq!(encode(&Frame::Integer(0)), b":0\r\n".to_vec());
    assert_eq!(encode(&Frame::Integer(123456789)), b":123456789\r\n".to_vec());
    assert_eq!(encode(&Frame::Integer(-42)), b":-42\r\n".to_vec());
    assert_eq!(encode(&Frame::Integer(i64::MIN)), b":-9223372036854775808\r\n".to_vec());
    assert_eq!(encode(&Frame::Integer(i64::MAX)), b":9223372036854775807\r\n".to_vec());
}

#[test]
fn encodes_bulk_string_with_byte_length() {
    assert_eq!(encode(&Frame::BulkString("value".to_string())), b"$5\r\nvalue\r\n".to_vec());
    assert_eq!(encode(&Frame::BulkString(String::new())), b"$0\r\n\r\n".to_vec());
    assert_eq!(
        encode(&Frame::BulkString("h\u{e9}llo w\u{f6}rld".to_string())),
        "$13\r\nh\u{e9}llo w\u{f6}rld\r\n".as_bytes().to_vec()
    );
}

#[test]
fn encodes_absence() {
    assert_eq!(encode(&Frame::Null), b"$-1\r\n".to_vec());
    assert_eq!(encode(&Frame::NullArray), b"*-1\r\n".to_vec());
}

#[test]
fn encodes_arrays_in_order() {
    assert_eq!(encode(&Frame::Array(vec![])), b"*0\r\n".to_vec());
    let request = Frame::Array(vec![
        Frame::BulkString("SET".to_string()),
        Frame::BulkString("key".to_string()),
        Frame::BulkString("value".to_string()),
    ]);
    assert_eq!(encode(&request), b"*3\r\n$3\r\nSET\r\n$3\r\nkey\r\n$5\r\nvalue\r\n".to_vec());
    let nested = Frame::Array(vec![
        Frame::Array(vec![Frame::Integer(1), Frame::Null]),
        Frame::SimpleString("x".to_string()),
        Frame::NullArray,
    ]);
    assert_eq!(encode(&nested), b"*3\r\n*2\r\n:1\r\n$-1\r\n+x\r\n*-1\r\n".to_vec());
}

#[test]
fn clone_is_equal_to_its_source() {
    let frame = Frame::Array(vec![
        Frame::BulkString("SET".to_string()),
        Frame::Array(vec![Frame::Integer(-3), Frame::Null, Frame::NullArray]),
        Frame::SimpleString("OK".to_string()),
        Frame::Error("ERR".to_string()),
    ]);
    let copy = frame.clone();
    assert_eq!(copy, frame);
    assert_eq!(encode(&copy), encode(&frame));
}
