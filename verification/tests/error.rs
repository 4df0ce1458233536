use tidemark::error::{ErrorKind, KairnError};

#[test]
fn io_is_retryable_others_not() {
    assert!(ErrorKind::Io.retryable());
    assert!(!ErrorKind::Conflict.retryable());
    assert!(!ErrorKind::NotFound.retryable());
}

// --- further cases ---

#[test]
fn constructors_set_kind_and_message() {
    let e = KairnError::not_found("gone".to_string());
    assert_eq!(e.kind, ErrorKind::NotFound);
    assert_eq!(e.message, "gone");
    assert_eq!(KairnError::conflict("c".to_string()).kind, ErrorKind::Conflict);
    assert_eq!(KairnError::invalid("i".to_string()).kind, ErrorKind::InvalidInput);
    assert_eq!(KairnError::io("o".to_string()).kind, ErrorKind::Io);
    assert!(!ErrorKind::InvalidInput.retryable());
    assert!(!ErrorKind::Unsupported.retryable());
}
