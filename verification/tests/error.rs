use rustytree::error::{failure, FailureKind, PyException, RustytreeError};

#[test]
fn display_io_error() {
    let err = RustytreeError::Io(std::io::Error::other("boom"));
    assert_eq!(err.message(), "I/O error: boom");
}

#[test]
fn display_not_found() {
    let err = RustytreeError::NotFound("/data/missing".into());
    assert_eq!(err.message(), "not found: /data/missing");
}

#[test]
fn display_invalid_input() {
    let err = RustytreeError::InvalidInput("bad url".into());
    assert_eq!(err.message(), "invalid input: bad url");
}

#[test]
fn display_other() {
    let err = RustytreeError::Other("upstream failure".into());
    assert_eq!(err.message(), "upstream failure");
}

#[test]
fn display_icechunk_session_wraps_underlying() {
    let err: RustytreeError = icechunk::session::Session::from_bytes(b"garbage")
        .expect_err("from_bytes(\"garbage\") should fail")
        .into();
    let msg = err.message();
    assert!(
        msg.starts_with("icechunk session: "),
        "expected typed prefix, got: {msg}"
    );
    assert!(matches!(err, RustytreeError::IcechunkSession(_)));
    assert!(msg.len() > "icechunk session: ".len());
}

#[test]
fn each_error_becomes_its_exception() {
    let session = icechunk::session::Session::from_bytes(b"garbage").expect_err("garbage");
    for (err, exception) in [
        (RustytreeError::from(std::io::Error::other("x")), PyException::OsError),
        (RustytreeError::NotFound("x".into()), PyException::KeyError),
        (RustytreeError::InvalidInput("x".into()), PyException::ValueError),
        (RustytreeError::from(session), PyException::ValueError),
        (RustytreeError::Other("x".into()), PyException::RuntimeError),
    ] {
        assert_eq!(err.py_exception(), exception);
    }
}

#[test]
fn the_kind_of_a_failure_decides_the_error() {
    let err = failure(FailureKind::Missing, "/g", "why".to_string());
    assert!(matches!(&err, RustytreeError::NotFound(m) if m == "/g"));
    let err = failure(FailureKind::Storage, "/g", "why".to_string());
    assert!(matches!(&err, RustytreeError::Io(e) if e.to_string() == "why"));
    assert_eq!(err.message(), "I/O error: why");
    let err = failure(FailureKind::Other, "/g", "why".to_string());
    assert!(matches!(&err, RustytreeError::Other(m) if m == "why"));
}
