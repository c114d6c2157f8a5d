use bytes::Bytes;
use mini_rudis::aof::{replay, should_log, AofBuffer, Replayed};
use mini_rudis::frame::Frame;
use mini_rudis::handler::execute_command;
use mini_rudis::server::respond;
use mini_rudis::store::Store;

fn bulk(s: &str) -> Frame {
    Frame::Bulk(Bytes::from(s.as_bytes().to_vec()))
}

fn cmd(parts: &[&str]) -> Frame {
    Frame::Array(parts.iter().map(|p| bulk(p)).collect())
}

fn value(store: &mut Store, key: &str) -> String {
    match execute_command(&cmd(&["GET", key]), store) {
        Ok(Frame::Bulk(b)) => String::from_utf8_lossy(&b).to_string(),
        Ok(Frame::Null) => "null".to_string(),
        _ => "other".to_string(),
    }
}

#[test]
fn only_set_and_hset_are_logged() {
    assert!(should_log(&cmd(&["SET", "a", "1"])));
    assert!(should_log(&cmd(&["hset", "h", "f", "1"])));
    assert!(!should_log(&cmd(&["GET", "a"])));
    assert!(!should_log(&cmd(&["PING"])));
    assert!(!should_log(&Frame::Array(vec![])));
    assert!(!should_log(&Frame::Null));
}

#[test]
fn append_to_aof_writes_the_encoding() {
    let mut log = AofBuffer::new();
    assert!(log.is_empty());
    log.append_to_aof(&cmd(&["GET", "a"]));
    assert!(log.is_empty());
    log.append_to_aof(&cmd(&["SET", "a", "1"]));
    assert_eq!(log.take_pending(), b"*3\r\n$3\r\nSET\r\n$1\r\na\r\n$1\r\n1\r\n".to_vec());
    assert!(log.is_empty());
}

#[test]
fn requeue_puts_failed_bytes_back() {
    let mut log = AofBuffer::new();
    log.append_to_aof(&cmd(&["SET", "a", "1"]));
    let data = log.take_pending();
    log.append_to_aof(&cmd(&["SET", "b", "2"]));
    log.requeue(data);
    let all = log.take_pending();
    assert_eq!(
        all,
        b"*3\r\n$3\r\nSET\r\n$1\r\nb\r\n$1\r\n2\r\n*3\r\n$3\r\nSET\r\n$1\r\na\r\n$1\r\n1\r\n".to_vec()
    );
}

#[test]
fn extend_buffer_refuses_hashes() {
    let mut log = AofBuffer::new();
    assert!(log.extend_buffer(&Frame::Hash(vec![])).is_err());
    assert!(log.is_empty());
    assert!(log.extend_buffer(&Frame::Integer(5)).is_ok());
    assert_eq!(log.take_pending(), b":5\r\n".to_vec());
}

#[test]
fn replaying_the_log_restores_the_store() {
    let requests = vec![
        cmd(&["SET", "a", "1"]),
        cmd(&["GET", "a"]),
        cmd(&["HSET", "h", "f", "x"]),
        cmd(&["SET", "a", "2"]),
        cmd(&["HSET", "a", "f", "y"]),
        cmd(&["set", "b", "3"]),
    ];
    let mut live = Store::new();
    let mut log = AofBuffer::new();
    for r in &requests {
        let response = respond(r, &mut live);
        log.record(r, &response);
    }
    let bytes = log.take_pending();
    let mut restored = Store::new();
    assert!(matches!(replay(&mut restored, &bytes), Replayed::Complete));
    for key in ["a", "b"] {
        assert_eq!(value(&mut restored, key), value(&mut live, key));
    }
    assert_eq!(value(&mut restored, "a"), "2");
    match execute_command(&cmd(&["HGET", "h", "f"]), &mut restored) {
        Ok(Frame::Bulk(b)) => assert_eq!(&b[..], b"x"),
        _ => panic!("field must be restored"),
    }
}

#[test]
fn replay_stops_at_a_bad_frame() {
    let mut store = Store::new();
    let log = b"*3\r\n$3\r\nSET\r\n$1\r\na\r\n$1\r\n1\r\n?junk";
    match replay(&mut store, log) {
        Replayed::Failed(e) => assert_eq!(format!("{:?}", e), "Incomplete"),
        _ => panic!("replay must fail"),
    }
    assert_eq!(value(&mut store, "a"), "1");
    assert!(matches!(replay(&mut store, b"$-5\r\n"), Replayed::Unallocatable));
    assert!(matches!(replay(&mut Store::new(), b""), Replayed::Complete));
}

#[test]
fn error_frame_values_replay_as_written() {
    let request = Frame::Array(vec![bulk("SET"), bulk("e"), Frame::Error("oops".to_string())]);
    let mut live = Store::new();
    let mut log = AofBuffer::new();
    let response = respond(&request, &mut live);
    log.record(&request, &response);
    let bytes = log.take_pending();
    assert_eq!(bytes, b"*3\r\n$3\r\nSET\r\n$1\r\ne\r\n-oops\r\n".to_vec());
    let mut restored = Store::new();
    assert!(matches!(replay(&mut restored, &bytes), Replayed::Complete));
    match execute_command(&cmd(&["GET", "e"]), &mut restored) {
        Ok(Frame::Error(s)) => assert_eq!(s, "oops"),
        _ => panic!("the error frame must be restored as written"),
    }
}
