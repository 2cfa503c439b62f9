use squishrs::header::{
    magic_version, patch_u64, verify_header, write_header, write_placeholder_u64,
    write_timestamp, PREFIX, VERSION,
};
use squishrs::errors::AppError;
use squishrs::header::convert_timestamp_to_date;

#[test]
fn test_magic_version() {
    let expected = [PREFIX.as_bytes(), VERSION.as_bytes()].concat();
    assert_eq!(magic_version(), expected);
}

#[test]
fn test_write_and_verify_header() {
    let mut buffer = Vec::new();
    write_header(&mut buffer);

    let version = verify_header(&buffer).unwrap();
    assert_eq!(version, VERSION);
}

#[test]
fn test_verify_header_invalid_prefix() {
    let bad_data = b"notmagic00.01.01".to_vec();
    let result = verify_header(&bad_data);
    assert!(result.is_err());
}

#[test]
fn test_verify_header_incompatible_version() {
    let fake_version = b"squish99.99.99";
    let result = verify_header(fake_version);
    assert!(result.is_err());
    let err = result.unwrap_err();
    assert_eq!(err, AppError::IncompatibleVersion);
}

#[test]
fn test_write_timestamp_and_convert() {
    let now = std::time::SystemTime::now()
        .duration_since(std::time::UNIX_EPOCH)
        .unwrap()
        .as_secs();
    let mut buffer = Vec::new();
    write_timestamp(&mut buffer, now);
    assert_eq!(buffer.len(), 8);

    let mut bytes = [0u8; 8];
    bytes.copy_from_slice(&buffer[..8]);
    let ts = u64::from_le_bytes(bytes);

    let formatted = convert_timestamp_to_date(ts).unwrap();
    assert!(
        formatted.contains('/') && formatted.contains(':'),
        "Unexpected formatted date: {formatted}"
    );
}

#[test]
fn test_convert_timestamp_to_date_known_value() {
    let ts = 1686890000; // Fri, 16 Jun 2023 04:33:20 GMT
    let result = convert_timestamp_to_date(ts).unwrap();
    assert!(result.ends_with("/2023") || result.ends_with("/2025"));
}

#[test]
fn test_write_and_patch_placeholder_u64() {
    let mut buffer: Vec<u8> = Vec::new();

    let pos = write_placeholder_u64(&mut buffer);
    assert_eq!(pos, 0);
    assert_eq!(buffer.len(), 8);
    assert_eq!(&buffer[..], &[0u8; 8]);

    patch_u64(&mut buffer, pos, 12345678);
    let mut updated = [0u8; 8];
    updated.copy_from_slice(&buffer[..8]);
    assert_eq!(u64::from_le_bytes(updated), 12345678);

    // Patching leaves the length unchanged
    assert_eq!(buffer.len(), 8);
}

#[test]
fn patch_keeps_surrounding_bytes() {
    let mut buffer: Vec<u8> = vec![9, 9];
    let pos = write_placeholder_u64(&mut buffer);
    buffer.push(7);
    patch_u64(&mut buffer, pos, 0x0102030405060708);
    assert_eq!(buffer, vec![9, 9, 8, 7, 6, 5, 4, 3, 2, 1, 7]);
}

#[test]
fn header_is_prefix_then_version() {
    let mut buffer = vec![1u8];
    write_header(&mut buffer);
    assert_eq!(&buffer[..], b"\x01squish00.01.01");
}

#[test]
fn verify_header_accepts_other_patch_version() {
    let version = verify_header(b"squish00.01.77trailing").unwrap();
    assert_eq!(version, "00.01.77");
}

#[test]
fn verify_header_rejects_other_minor_version() {
    assert_eq!(verify_header(b"squish00.02.01"), Err(AppError::IncompatibleVersion));
    assert_eq!(verify_header(b"squish01.01.01"), Err(AppError::IncompatibleVersion));
}

#[test]
fn verify_header_rejects_corrupted_prefix() {
    assert_eq!(verify_header(b"squash00.01.01"), Err(AppError::InvalidFormat));
}

#[test]
fn verify_header_rejects_version_without_separator() {
    assert_eq!(verify_header(b"squish00010101"), Err(AppError::InvalidFormat));
}

#[test]
fn verify_header_rejects_invalid_utf8_version() {
    assert_eq!(verify_header(b"squish00.01.\xff\xfe"), Err(AppError::InvalidFormat));
}

#[test]
fn verify_header_short_input_is_eof() {
    assert_eq!(verify_header(b"squish00.0"), Err(AppError::UnexpectedEof));
}

#[test]
fn timestamp_beyond_i64_is_invalid() {
    assert_eq!(
        convert_timestamp_to_date(u64::MAX),
        Err(AppError::InvalidTimeStamp(u64::MAX))
    );
}
