use s3fcp::client::check_full_status;
use s3fcp::client::check_range_status;
use s3fcp::client::http_head_metadata;
use s3fcp::client::s3_head_metadata;
use s3fcp::error::S3FcpError;

#[test]
fn test_http_head_success_with_ranges() {
    let meta = http_head_metadata(200, Some("1234"), Some("bytes")).unwrap();
    assert_eq!(meta.content_length, 1234);
    assert!(meta.supports_range);
}

#[test]
fn test_http_head_success_without_ranges() {
    let meta = http_head_metadata(200, Some("10"), Some("none")).unwrap();
    assert_eq!(meta.content_length, 10);
    assert!(!meta.supports_range);

    let meta = http_head_metadata(204, Some("0"), None).unwrap();
    assert_eq!(meta.content_length, 0);
    assert!(!meta.supports_range);
}

#[test]
fn test_http_head_bad_status() {
    let err = http_head_metadata(404, Some("10"), Some("bytes")).unwrap_err();
    assert!(matches!(err, S3FcpError::HttpError(_)));
    assert_eq!(err.message(), "HTTP error: HEAD request failed with status: 404");
}

#[test]
fn test_http_head_missing_or_bad_length() {
    let err = http_head_metadata(200, None, Some("bytes")).unwrap_err();
    assert_eq!(err.message(), "HTTP error: Missing Content-Length header");

    let err = http_head_metadata(200, Some("12x"), Some("bytes")).unwrap_err();
    assert_eq!(err.message(), "HTTP error: Missing Content-Length header");
}

#[test]
fn test_s3_head_metadata() {
    let meta = s3_head_metadata(Some(42)).unwrap();
    assert_eq!(meta.content_length, 42);
    assert!(meta.supports_range);

    let err = s3_head_metadata(None).unwrap_err();
    assert!(matches!(err, S3FcpError::S3Error(_)));
    assert_eq!(err.message(), "S3 operation failed: Content-Length header missing");

    let err = s3_head_metadata(Some(-1)).unwrap_err();
    assert_eq!(err.message(), "S3 operation failed: Content-Length header missing");
}

#[test]
fn test_range_status() {
    assert!(check_range_status(206).is_ok());
    let err = check_range_status(200).unwrap_err();
    assert_eq!(err.message(), "HTTP error: Expected 206 Partial Content, got 200");
}

#[test]
fn test_full_status() {
    assert!(check_full_status(200).is_ok());
    assert!(check_full_status(299).is_ok());
    let err = check_full_status(500).unwrap_err();
    assert_eq!(err.message(), "HTTP error: GET request failed with status: 500");
}
