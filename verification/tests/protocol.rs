use bytes::Bytes;
use mini_rudis::frame::Frame;
use mini_rudis::resp::{decode_frame, encode_frame, Decoded};

fn bulk(s: &str) -> Frame {
    Frame::Bulk(Bytes::from(s.as_bytes().to_vec()))
}

fn encode(f: &Frame) -> Vec<u8> {
    let mut out = Vec::new();
    encode_frame(f, &mut out).unwrap();
    out
}

fn describe(f: &Frame) -> String {
    match f {
        Frame::Simple(s) => format!("+{}", s),
        Frame::Error(s) => format!("-{}", s),
        Frame::Integer(n) => format!(":{}", n),
        Frame::Bulk(b) => format!("${}", String::from_utf8_lossy(b)),
        Frame::Null => "null".to_string(),
        Frame::Array(items) => {
            let parts: Vec<String> = items.iter().map(describe).collect();
            format!("[{}]", parts.join(","))
        }
        Frame::Hash(_) => "hash".to_string(),
    }
}

fn decoded(input: &[u8], eof: bool) -> String {
    match decode_frame(input, 0, eof) {
        Decoded::Frame(f, p) => format!("{} @{}", describe(&f), p),
        Decoded::NeedMore => "more".to_string(),
        Decoded::Failed(e, p) => format!("err {:?} @{}", e, p),
        Decoded::Unallocatable => "unallocatable".to_string(),
    }
}

#[test]
fn decodes_simple_string() {
    assert_eq!(decoded(b"+OK\r\n", false), "+OK @5");
    assert_eq!(decoded(b"+OK", false), "more");
    assert_eq!(decoded(b"+OK", true), "+OK @3");
}

#[test]
fn decodes_command_array() {
    assert_eq!(
        decoded(b"*3\r\n$3\r\nSET\r\n$1\r\nk\r\n:42\r\n", false),
        "[$SET,$k,:42] @25"
    );
}

#[test]
fn decodes_null_and_errors() {
    assert_eq!(decoded(b"$-1\r\n", false), "null @5");
    assert_eq!(decoded(b"*-1\r\n", false), "null @5");
    assert_eq!(decoded(b"-bad\r\n", false), "-bad @6");
    assert_eq!(decoded(b"-ERR bad\r\n", false), "-ERR bad @10");
    assert_eq!(decoded(b"?x\r\n", false), "err Incomplete @1");
    assert_eq!(decoded(b"", true), "err ConnectionClosed @0");
    assert_eq!(decoded(b"$x\r\n", false), "err Protocol(\"invalid bulk length\") @4");
    assert_eq!(decoded(b"*y\r\n", false), "err Protocol(\"invalid array length\") @4");
    assert_eq!(decoded(b":-1\r\n", false), "err Protocol(\"invalid int\") @5");
    assert_eq!(decoded(b"$-2\r\n", false), "unallocatable");
    assert_eq!(decoded(b"$5\r\nab", true), "err Io(UnexpectedEof) @6");
    assert_eq!(decoded(b"+\xff\r\n", true), "err Io(InvalidData) @4");
}

#[test]
fn decodes_numbers_with_signs_and_spaces() {
    assert_eq!(decoded(b":+7\r\n", false), ":7 @5");
    assert_eq!(decoded(b": 18446744073709551615 \r\n", false), ":18446744073709551615 @25");
    assert_eq!(decoded(b":18446744073709551616\r\n", false), "err Protocol(\"invalid int\") @23");
    assert_eq!(decoded(b"$+2\r\nab\r\n", false), "$ab @9");
}

#[test]
fn encodes_frames() {
    assert_eq!(encode(&Frame::Simple("OK".to_string())), b"+OK\r\n".to_vec());
    assert_eq!(encode(&bulk("hello")), b"$5\r\nhello\r\n".to_vec());
    assert_eq!(encode(&Frame::Integer(1234)), b":1234\r\n".to_vec());
    assert_eq!(encode(&Frame::Null), b"$-1\r\n".to_vec());
    assert_eq!(
        encode(&Frame::Array(vec![bulk("a"), Frame::Integer(0)])),
        b"*2\r\n$1\r\na\r\n:0\r\n".to_vec()
    );
}

#[test]
fn encoding_a_hash_fails_after_the_prefix() {
    let mut out = Vec::new();
    let f = Frame::Array(vec![Frame::Integer(1), Frame::Hash(Vec::new()), Frame::Integer(2)]);
    assert!(encode_frame(&f, &mut out).is_err());
    assert_eq!(out, b"*3\r\n:1\r\n".to_vec());
}

#[test]
fn lengths_are_trimmed_of_unicode_whitespace() {
    assert_eq!(decoded("$\u{a0}2\u{3000}\r\nab\r\n".as_bytes(), false), "$ab @13");
    assert_eq!(decoded(b"*\t0 \r\n", false), "[] @6");
}

#[test]
fn what_is_encoded_decodes_back() {
    let f = Frame::Array(vec![
        bulk("SET"),
        Frame::Simple("caf\u{e9}".to_string()),
        Frame::Integer(u64::MAX),
        Frame::Null,
        Frame::Array(vec![bulk(""), Frame::Array(vec![])]),
    ]);
    let mut bytes = encode(&f);
    let n = bytes.len();
    bytes.extend_from_slice(b"+next\r\n");
    match decode_frame(&bytes, 0, false) {
        Decoded::Frame(g, p) => {
            assert_eq!(p, n);
            assert_eq!(describe(&g), describe(&f));
            assert_eq!(encode(&g), encode(&f));
        }
        _ => panic!("must decode"),
    }
    assert_eq!(decoded(&bytes[n..], false), "+next @7");
}

#[test]
fn at_the_end_of_the_stream_decoding_never_waits() {
    for input in [&b"*2\r\n:1\r\n"[..], b"$3\r\na", b"+x", b":12", b"*1"] {
        assert_ne!(decoded(input, true), "more");
        assert_eq!(decoded(input, false), "more");
    }
    assert_eq!(decoded(b"*2\r\n:1\r\n", true), "err ConnectionClosed @8");
}

#[test]
fn a_bad_type_byte_is_consumed_alone() {
    let input = b"?+OK\r\n";
    assert_eq!(decoded(input, false), "err Incomplete @1");
    match decode_frame(input, 1, false) {
        Decoded::Frame(f, p) => assert_eq!(format!("{} @{}", describe(&f), p), "+OK @6"),
        _ => panic!("the frame after the bad byte must decode"),
    }
}
