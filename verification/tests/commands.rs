use bytes::Bytes;
use mini_rudis::frame::Frame;
use mini_rudis::handler::{dispatch, execute_command, to_string};
use mini_rudis::server::respond;
use mini_rudis::store::Store;

fn bulk(s: &str) -> Frame {
    Frame::Bulk(Bytes::from(s.as_bytes().to_vec()))
}

fn cmd(parts: &[&str]) -> Frame {
    Frame::Array(parts.iter().map(|p| bulk(p)).collect())
}

fn show(r: &Frame) -> String {
    match r {
        Frame::Simple(s) => format!("+{}", s),
        Frame::Error(s) => format!("-{}", s),
        Frame::Integer(n) => format!(":{}", n),
        Frame::Null => "null".to_string(),
        Frame::Bulk(b) => format!("${}", String::from_utf8_lossy(b)),
        Frame::Array(items) => format!("[{}]", items.len()),
        Frame::Hash(_) => "hash".to_string(),
    }
}

fn run(store: &mut Store, parts: &[&str]) -> String {
    match execute_command(&cmd(parts), store) {
        Ok(f) => show(&f),
        Err(e) => format!("err {:?}", e),
    }
}

#[test]
fn set_then_get() {
    let mut store = Store::new();
    assert_eq!(run(&mut store, &["SET", "user:1", "Rustacean"]), "+OK");
    assert_eq!(run(&mut store, &["GET", "user:1"]), "$Rustacean");
    assert_eq!(run(&mut store, &["GET", "nobody"]), "null");
}

#[test]
fn command_names_are_case_insensitive() {
    let mut store = Store::new();
    assert_eq!(run(&mut store, &["set", "a", "1"]), "+OK");
    assert_eq!(run(&mut store, &["SeT", "b", "2"]), "+OK");
    assert_eq!(run(&mut store, &["get", "a"]), "$1");
    assert_eq!(run(&mut store, &["gEt", "b"]), "$2");
    assert_eq!(run(&mut store, &["ping"]), "+PONG");
}

#[test]
fn hset_then_hget() {
    let mut store = Store::new();
    assert_eq!(run(&mut store, &["HSET", "profile:1", "name", "Aayush"]), "+OK");
    assert_eq!(run(&mut store, &["HGET", "profile:1", "name"]), "$Aayush");
    assert_eq!(run(&mut store, &["HGET", "profile:1", "age"]), "null");
}

#[test]
fn ping_replies_pong() {
    let mut store = Store::new();
    assert_eq!(run(&mut store, &["PING"]), "+PONG");
}

#[test]
fn malformed_requests_get_error_replies() {
    let mut store = Store::new();
    assert_eq!(
        show(&execute_command(&Frame::Integer(1), &mut store).unwrap()),
        "-ERR PROTOCOL ERROR: expected array"
    );
    assert_eq!(
        show(&execute_command(&Frame::Array(vec![]), &mut store).unwrap()),
        "-ERR PROTOCOL ERROR: expected array with at least one element"
    );
    assert_eq!(
        show(&execute_command(&Frame::Array(vec![Frame::Integer(1)]), &mut store).unwrap()),
        "-ERR command name must be a string "
    );
    assert_eq!(run(&mut store, &["FLY"]), "-ERR unknown command 'FLY'");
    assert_eq!(run(&mut store, &["SET", "a"]), "-Err wrong number of arguments for 'set' command");
    assert_eq!(run(&mut store, &["GET"]), "-ERR wrong number of arguments for 'get' command");
    assert_eq!(run(&mut store, &["HSET", "a", "b"]), "-Err wrong number of arguments to 'hset' command");
    assert_eq!(run(&mut store, &["HGET", "a"]), "-Err wrong number of arguments for 'hget' command");
    let bad_key = Frame::Array(vec![bulk("SET"), Frame::Integer(3), bulk("v")]);
    assert_eq!(show(&execute_command(&bad_key, &mut store).unwrap()), "-ERR key must be a string");
    let bad_field = Frame::Array(vec![bulk("HSET"), bulk("h"), Frame::Null, bulk("v")]);
    assert_eq!(show(&execute_command(&bad_field, &mut store).unwrap()), "-ERR field must be a string");
}

#[test]
fn wrong_kind_of_key_through_commands() {
    let mut store = Store::new();
    assert_eq!(run(&mut store, &["SET", "s", "v"]), "+OK");
    assert_eq!(run(&mut store, &["HSET", "s", "f", "v"]), "-ERR invalid field or key");
    assert_eq!(run(&mut store, &["HGET", "s", "f"]), "-Protocol(\"WRONGTYPE ...\")");
    assert_eq!(run(&mut store, &["HSET", "h", "f", "v"]), "+OK");
    assert_eq!(
        run(&mut store, &["GET", "h"]),
        "-Protocol(\"WRONGTYPE Operation against a key holding the wrong kind of value\")"
    );
    let mut store2 = Store::new();
    assert_eq!(run(&mut store2, &["HSET", "h", "f", "v"]), "+OK");
    assert_eq!(
        show(&respond(&cmd(&["GET", "h"]), &mut store2)),
        "-Protocol(\"WRONGTYPE Operation against a key holding the wrong kind of value\")"
    );
}

#[test]
fn to_string_reads_simple_and_bulk_frames() {
    assert_eq!(to_string(&Frame::Simple("a".to_string())), Some("a".to_string()));
    assert_eq!(to_string(&bulk("b")), Some("b".to_string()));
    assert_eq!(
        to_string(&Frame::Bulk(Bytes::from(vec![0x61u8, 0xff]))),
        Some("a\u{fffd}".to_string())
    );
    assert_eq!(to_string(&Frame::Null), None);
}

#[test]
fn unicode_command_names_are_uppercased() {
    let mut store = Store::new();
    assert_eq!(run(&mut store, &["\u{17f}et", "k", "v"]), "+OK");
    assert_eq!(run(&mut store, &["get", "k"]), "$v");
}

#[test]
fn dispatch_takes_the_upper_cased_name() {
    let mut store = Store::new();
    let set = cmd(&["sEt", "k", "v"]);
    assert_eq!(show(&dispatch("SET", "sEt", &set, &mut store).unwrap()), "+OK");
    let get = cmd(&["get", "k"]);
    assert_eq!(show(&dispatch("GET", "get", &get, &mut store).unwrap()), "$v");
    assert_eq!(show(&dispatch("NOPE", "nope", &get, &mut store).unwrap()), "-ERR unknown command 'nope'");
    assert_eq!(show(&dispatch("PING", "ping", &get, &mut store).unwrap()), "+PONG");
}

#[test]
fn execute_command_always_replies() {
    let mut store = Store::new();
    assert_eq!(run(&mut store, &["HSET", "h", "f", "v"]), "+OK");
    for parts in [&["GET", "h"][..], &["HGET", "h"], &["FLY"], &["GET", "x"], &["PING"]] {
        assert!(execute_command(&cmd(parts), &mut store).is_ok());
    }
    assert!(execute_command(&Frame::Null, &mut store).is_ok());
}
