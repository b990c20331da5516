use rudis::command::{command_kind, interpret, Command, CommandKind, ProtocolError};
use rudis::commands::{
    delete_set, dispatch, handle_get, handle_set, process_client_request, respond,
};
use rudis::frame::Frame;
use rudis::store::Store;

const GET_ARITY: &str =
    "ERR wrong number of arguments for 'GET' command. Expected at least one argument.";
const SET_ARITY: &str =
    "ERR wrong number of arguments for 'SET' command. Expected at least two arguments.";
const DEL_ARITY: &str =
    "ERR wrong number of arguments for 'DEL' command. Expected at least one argument.";

fn bulk(text: &str) -> Frame {
    Frame::BulkString(text.to_string())
}

fn request(words: &[&str]) -> Frame {
    Frame::Array(words.iter().map(|word| bulk(word)).collect())
}

fn words(words: &[&str]) -> Vec<Frame> {
    words.iter().map(|word| bulk(word)).collect()
}

fn command(name: &str, args: &[&str]) -> Command {
    Command { name: name.to_string(), args: args.iter().map(|arg| arg.to_string()).collect() }
}

fn ok() -> Frame {
    Frame::SimpleString("OK".to_string())
}

fn error(text: &str) -> Frame {
    Frame::Error(text.to_string())
}

#[test]
fn set_then_get_end_to_end() {
    let mut store = Store::new();
    let reply = process_client_request(&mut store, request(&["SET", "key", "value"]));
    assert_eq!(reply, b"+OK\r\n".to_vec());
    let reply = process_client_request(&mut store, request(&["GET", "key"]));
    assert_eq!(reply, b"$5\r\nvalue\r\n".to_vec());
}

#[test]
fn get_missing_end_to_end() {
    let mut store = Store::new();
    let reply = process_client_request(&mut store, request(&["GET", "missing"]));
    assert_eq!(reply, b"$-1\r\n".to_vec());
}

#[test]
fn del_then_get_end_to_end() {
    let mut store = Store::new();
    process_client_request(&mut store, request(&["SET", "key", "value"]));
    let reply = process_client_request(&mut store, request(&["DEL", "key"]));
    assert_eq!(reply, b"+OK\r\n".to_vec());
    let reply = process_client_request(&mut store, request(&["GET", "key"]));
    assert_eq!(reply, b"$-1\r\n".to_vec());
}

#[test]
fn get_without_arguments_end_to_end() {
    let mut store = Store::new();
    let reply = process_client_request(&mut store, request(&["GET"]));
    assert!(reply.starts_with(b"-ERR wrong number of arguments"));
    assert!(reply.ends_with(b"\r\n"));
    assert_eq!(reply, format!("-{}\r\n", GET_ARITY).into_bytes());
}

#[test]
fn frame_that_is_no_array_end_to_end() {
    let mut store = Store::new();
    store.set("key".to_string(), "value".to_string());
    let reply = process_client_request(&mut store, Frame::Integer(5));
    assert_eq!(reply, b"-ERR invalid command\r\n".to_vec());
    // The next request is served as usual.
    let reply = process_client_request(&mut store, request(&["GET", "key"]));
    assert_eq!(reply, b"$5\r\nvalue\r\n".to_vec());
}

#[test]
fn invalid_shapes_are_refused() {
    let shapes = vec![
        Frame::Null,
        Frame::NullArray,
        Frame::SimpleString("GET".to_string()),
        Frame::Error("GET".to_string()),
        bulk("GET"),
        Frame::Array(vec![]),
        Frame::Array(vec![Frame::Integer(1)]),
        Frame::Array(vec![Frame::SimpleString("GET".to_string()), bulk("key")]),
        Frame::Array(vec![bulk("GET"), Frame::Integer(1)]),
        Frame::Array(vec![bulk("SET"), bulk("key"), Frame::Null]),
        Frame::Array(vec![request(&["GET", "key"])]),
    ];
    for shape in shapes {
        assert_eq!(interpret(&shape), Err(ProtocolError::InvalidRequest));
        let mut store = Store::new();
        assert_eq!(respond(&mut store, &shape), error("ERR invalid command"));
        assert_eq!(process_client_request(&mut store, shape), b"-ERR invalid command\r\n".to_vec());
    }
}

#[test]
fn invalid_set_leaves_the_store_alone() {
    let mut store = Store::new();
    store.set("key".to_string(), "old".to_string());
    let shape = Frame::Array(vec![bulk("SET"), bulk("key"), Frame::Integer(1)]);
    assert_eq!(process_client_request(&mut store, shape), b"-ERR invalid command\r\n".to_vec());
    assert_eq!(store.get("key"), Some("old".to_string()));
}

#[test]
fn interpret_splits_name_and_arguments() {
    assert_eq!(interpret(&request(&["GET"])), Ok(command("GET", &[])));
    assert_eq!(
        interpret(&request(&["set", "Key", "Some Value", "extra"])),
        Ok(command("set", &["Key", "Some Value", "extra"]))
    );
}

#[test]
fn command_names_ignore_case() {
    for name in ["GET", "get", "Get", "gEt", "geT"] {
        assert_eq!(command_kind(name), Some(CommandKind::GetKey));
    }
    for name in ["SET", "set", "Set", "sET"] {
        assert_eq!(command_kind(name), Some(CommandKind::SetKey));
    }
    for name in ["DEL", "del", "Del", "dEl"] {
        assert_eq!(command_kind(name), Some(CommandKind::DelKey));
    }
    for name in ["", "G", "GE", "GETS", "GET ", " GET", "PUT", "DELETE", "G\u{c9}T", "\u{ff27}ET"] {
        assert_eq!(command_kind(name), None);
    }
}

#[test]
fn mixed_case_commands_are_routed() {
    let mut store = Store::new();
    assert_eq!(process_client_request(&mut store, request(&["sEt", "k", "v"])), b"+OK\r\n".to_vec());
    assert_eq!(process_client_request(&mut store, request(&["get", "k"])), b"$1\r\nv\r\n".to_vec());
    assert_eq!(process_client_request(&mut store, request(&["get", "K"])), b"$-1\r\n".to_vec());
    assert_eq!(process_client_request(&mut store, request(&["Del", "k"])), b"+OK\r\n".to_vec());
    assert_eq!(process_client_request(&mut store, request(&["GET", "k"])), b"$-1\r\n".to_vec());
}

#[test]
fn unknown_commands_are_unsupported() {
    let mut store = Store::new();
    store.set("key".to_string(), "value".to_string());
    for name in ["PING", "INCR", "", "GETX", "EXPIRE"] {
        let reply = process_client_request(&mut store, request(&[name, "key", "other"]));
        assert_eq!(reply, b"-ERR unsupported command\r\n".to_vec());
        assert_eq!(
            dispatch(&mut store, &command(name, &["key", "other"])),
            error("ERR unsupported command")
        );
    }
    assert_eq!(store.get("key"), Some("value".to_string()));
}

#[test]
fn arity_errors_name_the_command() {
    let mut store = Store::new();
    store.set("key".to_string(), "value".to_string());
    assert_eq!(dispatch(&mut store, &command("GET", &[])), error(GET_ARITY));
    assert_eq!(dispatch(&mut store, &command("SET", &[])), error(SET_ARITY));
    assert_eq!(dispatch(&mut store, &command("SET", &["key"])), error(SET_ARITY));
    assert_eq!(dispatch(&mut store, &command("DEL", &[])), error(DEL_ARITY));
    assert_eq!(
        process_client_request(&mut store, request(&["SET", "key"])),
        format!("-{}\r\n", SET_ARITY).into_bytes()
    );
    assert_eq!(
        process_client_request(&mut store, request(&["del"])),
        format!("-{}\r\n", DEL_ARITY).into_bytes()
    );
    // None of them touched the store.
    assert_eq!(store.get("key"), Some("value".to_string()));
}

#[test]
fn extra_arguments_are_ignored() {
    let mut store = Store::new();
    assert_eq!(dispatch(&mut store, &command("SET", &["k", "v", "x", "y"])), ok());
    assert_eq!(store.get("k"), Some("v".to_string()));
    assert_eq!(store.get("x"), None);
    assert_eq!(dispatch(&mut store, &command("GET", &["k", "x"])), bulk("v"));
    assert_eq!(dispatch(&mut store, &command("DEL", &["k", "x"])), ok());
    assert_eq!(store.get("k"), None);
}

#[test]
fn set_twice_is_set_once() {
    let mut once = Store::new();
    let mut twice = Store::new();
    assert_eq!(dispatch(&mut once, &command("SET", &["k", "v"])), ok());
    assert_eq!(dispatch(&mut twice, &command("SET", &["k", "v"])), ok());
    assert_eq!(dispatch(&mut twice, &command("SET", &["k", "v"])), ok());
    for key in ["k", "v", ""] {
        assert_eq!(once.get(key), twice.get(key));
    }
}

#[test]
fn del_of_absent_key_is_ok_and_changes_nothing() {
    let mut store = Store::new();
    store.set("kept".to_string(), "value".to_string());
    assert_eq!(dispatch(&mut store, &command("DEL", &["missing"])), ok());
    assert_eq!(store.get("kept"), Some("value".to_string()));
    assert_eq!(store.get("missing"), None);
}

#[test]
fn get_of_absent_or_deleted_key_is_null() {
    let mut store = Store::new();
    assert_eq!(dispatch(&mut store, &command("GET", &["never"])), Frame::Null);
    dispatch(&mut store, &command("SET", &["gone", "value"]));
    dispatch(&mut store, &command("DEL", &["gone"]));
    assert_eq!(dispatch(&mut store, &command("GET", &["gone"])), Frame::Null);
}

#[test]
fn handlers_take_the_whole_request() {
    let mut store = Store::new();
    assert_eq!(handle_set(&mut store, words(&["SET", "key", "value"])), Ok(ok()));
    assert_eq!(handle_get(&store, words(&["GET", "key"])), Ok(bulk("value")));
    assert_eq!(handle_get(&store, words(&["GET", "missing"])), Ok(Frame::Null));
    assert_eq!(delete_set(&mut store, words(&["DEL", "key"])), Ok(ok()));
    assert_eq!(handle_get(&store, words(&["GET", "key"])), Ok(Frame::Null));
}

#[test]
fn handlers_check_arity_first() {
    let mut store = Store::new();
    store.set("key".to_string(), "value".to_string());
    assert_eq!(handle_get(&store, vec![]), Err(error(GET_ARITY)));
    assert_eq!(handle_get(&store, words(&["GET"])), Err(error(GET_ARITY)));
    assert_eq!(handle_set(&mut store, vec![]), Err(error(SET_ARITY)));
    assert_eq!(handle_set(&mut store, words(&["SET"])), Err(error(SET_ARITY)));
    assert_eq!(handle_set(&mut store, words(&["SET", "key"])), Err(error(SET_ARITY)));
    assert_eq!(delete_set(&mut store, vec![]), Err(error(DEL_ARITY)));
    assert_eq!(delete_set(&mut store, words(&["DEL"])), Err(error(DEL_ARITY)));
    assert_eq!(store.get("key"), Some("value".to_string()));
}

#[test]
fn handlers_on_arguments_that_are_no_strings() {
    let mut store = Store::new();
    store.set("key".to_string(), "value".to_string());
    assert_eq!(
        handle_get(&store, vec![bulk("GET"), Frame::Integer(1)]),
        Err(error("ERR invalid command"))
    );
    assert_eq!(
        handle_get(&store, vec![bulk("GET"), Frame::Null, bulk("key")]),
        Err(error("ERR invalid command"))
    );
    assert_eq!(
        handle_set(&mut store, vec![bulk("SET"), Frame::Integer(1), bulk("v")]),
        Err(error("ERR invalid command"))
    );
    assert_eq!(
        handle_set(&mut store, vec![bulk("SET"), bulk("key"), Frame::Null]),
        Err(error("ERR invalid command"))
    );
    assert_eq!(
        delete_set(&mut store, vec![bulk("DEL"), Frame::Array(vec![])]),
        Err(error("ERR invalid command"))
    );
    assert_eq!(store.get("key"), Some("value".to_string()));
}

#[test]
fn values_may_hold_line_breaks_and_other_scripts() {
    let mut store = Store::new();
    let value = "first\r\nsecond \u{4f60}\u{597d}";
    process_client_request(&mut store, request(&["SET", "k", value]));
    assert_eq!(
        process_client_request(&mut store, request(&["GET", "k"])),
        format!("${}\r\n{}\r\n", value.len(), value).into_bytes()
    );
}

#[test]
fn every_reply_decodes_to_itself() {
    let mut store = Store::new();
    let requests = vec![
        request(&["SET", "key", "first\r\nsecond"]),
        request(&["GET", "key"]),
        request(&["GET", "missing"]),
        request(&["GET"]),
        request(&["SET", "key"]),
        request(&["DEL"]),
        request(&["DEL", "key"]),
        request(&["NOPE"]),
        Frame::Integer(1),
    ];
    for msg in requests {
        let reply = respond(&mut store, &msg);
        assert!(rudis::wire::is_representable(&reply));
        let bytes = rudis::wire::encode(&reply);
        assert_eq!(rudis::decode::decode(&bytes), Ok((reply, bytes.len())));
    }
}
