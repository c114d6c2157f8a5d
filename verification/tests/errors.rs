use mini_rudis::frame::{Error, IoErrorKind};
use mini_rudis::server::Server;

#[test]
fn error_messages() {
    assert_eq!(Error::Protocol("boom".to_string()).message(), "boom");
    assert_eq!(Error::ConnectionClosed.message(), "Connection closed");
    assert_eq!(Error::Incomplete.message(), "Incomplete message");
    assert_eq!(Error::Other.message(), "Internal server error");
    assert_eq!(Error::Io(IoErrorKind::UnexpectedEof).message(), "IO error: unexpected end of file");
}

#[test]
fn debug_text_matches_debug() {
    let errors = vec![
        Error::ConnectionClosed,
        Error::Incomplete,
        Error::Other,
        Error::Protocol("a \"quoted\"\n text".to_string()),
        Error::Io(IoErrorKind::InvalidData),
    ];
    for e in &errors {
        assert_eq!(e.debug_text(), format!("{:?}", e));
    }
}

#[test]
fn server_new_and_default() {
    let _a = Server::new();
    let _b = Server::default();
}
