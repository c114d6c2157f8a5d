use mini_rudis::frame::{Error, Frame};
use mini_rudis::store::Store;

fn text(f: &Frame) -> String {
    match f {
        Frame::Simple(s) => format!("+{}", s),
        Frame::Error(s) => format!("-{}", s),
        Frame::Integer(n) => format!(":{}", n),
        Frame::Null => "null".to_string(),
        Frame::Bulk(b) => format!("${}", String::from_utf8_lossy(b)),
        Frame::Array(items) => format!("[{}]", items.len()),
        Frame::Hash(entries) => format!("hash{}", entries.len()),
    }
}

fn protocol_message(r: Result<Option<Frame>, Error>) -> String {
    match r {
        Err(Error::Protocol(m)) => m,
        Err(e) => format!("{:?}", e),
        Ok(Some(f)) => text(&f),
        Ok(None) => "none".to_string(),
    }
}

#[test]
fn get_after_set_returns_the_value() {
    let mut store = Store::new();
    store.set("k".to_string(), Frame::Integer(7));
    assert_eq!(protocol_message(store.get("k")), ":7");
    assert_eq!(protocol_message(store.get("other")), "none");
    store.set("k".to_string(), Frame::Simple("v".to_string()));
    assert_eq!(protocol_message(store.get("k")), "+v");
}

#[test]
fn default_store_is_empty() {
    let store = Store::default();
    assert_eq!(protocol_message(store.get("k")), "none");
}

#[test]
fn hget_after_hset_returns_the_value() {
    let mut store = Store::new();
    assert!(store.hset("h".to_string(), "f".to_string(), Frame::Integer(1)).is_ok());
    assert!(store.hset("h".to_string(), "g".to_string(), Frame::Integer(2)).is_ok());
    assert!(store.hset("h".to_string(), "f".to_string(), Frame::Integer(3)).is_ok());
    assert_eq!(protocol_message(store.hget("h", "f")), ":3");
    assert_eq!(protocol_message(store.hget("h", "g")), ":2");
    assert_eq!(protocol_message(store.hget("h", "x")), "none");
    assert_eq!(protocol_message(store.hget("nokey", "f")), "none");
}

#[test]
fn wrong_kind_of_key_is_refused() {
    let mut store = Store::new();
    store.set("s".to_string(), Frame::Integer(1));
    assert!(store.hset("h".to_string(), "f".to_string(), Frame::Integer(1)).is_ok());
    assert_eq!(
        protocol_message(store.get("h")),
        "WRONGTYPE Operation against a key holding the wrong kind of value"
    );
    assert_eq!(protocol_message(store.hget("s", "f")), "WRONGTYPE ...");
    match store.hset("s".to_string(), "f".to_string(), Frame::Null) {
        Err(Error::Protocol(m)) => {
            assert_eq!(m, "WRONGTYPE Operation against a key holding the wrong kind of value")
        }
        _ => panic!("hset on a string key must fail"),
    }
    assert_eq!(protocol_message(store.get("s")), ":1");
}

#[test]
fn dump_counts_removed_keys() {
    let mut store = Store::new();
    store.set("a".to_string(), Frame::Integer(1));
    store.set("b".to_string(), Frame::Integer(2));
    let n = store.dump(vec!["a".to_string(), "a".to_string(), "c".to_string(), "b".to_string()]);
    assert_eq!(n, 2);
    assert_eq!(protocol_message(store.get("a")), "none");
    assert_eq!(protocol_message(store.get("b")), "none");
}

#[test]
fn hdel_counts_removed_fields() {
    let mut store = Store::new();
    assert!(store.hset("h".to_string(), "f".to_string(), Frame::Integer(1)).is_ok());
    assert!(store.hset("h".to_string(), "g".to_string(), Frame::Integer(2)).is_ok());
    store.set("s".to_string(), Frame::Integer(1));
    assert_eq!(store.hdel("h", vec!["f".to_string(), "x".to_string(), "f".to_string()]), 1);
    assert_eq!(protocol_message(store.hget("h", "f")), "none");
    assert_eq!(protocol_message(store.hget("h", "g")), ":2");
    assert_eq!(store.hdel("s", vec!["f".to_string()]), 0);
    assert_eq!(store.hdel("missing", vec!["f".to_string()]), 0);
}
