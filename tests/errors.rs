use squishrs::errors::AppError;

#[test]
fn test_source_none_for_lock_poisoned() {
    let error = AppError::LockPoisoned;
    assert!(error.source().is_none());
}

#[test]
fn source_is_the_wrapped_failure() {
    let error = AppError::WriterError("disk full".to_string());
    assert_eq!(error.source(), Some("disk full".to_string()));
    let error = AppError::CreateDirError("out".to_string(), "denied".to_string());
    assert_eq!(error.source(), Some("denied".to_string()));
    assert!(AppError::MissingChunk("a.txt".to_string()).source().is_none());
}
