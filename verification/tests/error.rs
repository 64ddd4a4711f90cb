use anchor_db::error::AnchorError;

#[test]
fn a_missing_key_is_described_with_its_name() {
    let err = AnchorError::KeyNotFoundError("user:42".to_string());
    assert_eq!(err.message(), "Key not found: user:42");
}

#[test]
fn an_io_failure_is_described_with_its_cause() {
    let cause = std::io::Error::new(std::io::ErrorKind::Other, "disk full");
    let err = AnchorError::IoError(cause);
    assert_eq!(err.message(), "I/O error: disk full");
}
