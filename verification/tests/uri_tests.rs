use s3fcp::error::S3FcpError;
use s3fcp::uri::S3Uri;

#[test]
fn test_valid_uri() {
    let uri = S3Uri::parse("s3://my-bucket/path/to/object.txt").unwrap();
    assert_eq!(uri.bucket, "my-bucket");
    assert_eq!(uri.key, "path/to/object.txt");
}

#[test]
fn test_uri_with_trailing_slash() {
    let uri = S3Uri::parse("s3://my-bucket/folder/").unwrap();
    assert_eq!(uri.bucket, "my-bucket");
    assert_eq!(uri.key, "folder/");
}

#[test]
fn test_invalid_uri_no_prefix() {
    let result = S3Uri::parse("my-bucket/key");
    assert!(result.is_err());
}

#[test]
fn test_invalid_uri_no_key() {
    let result = S3Uri::parse("s3://my-bucket");
    assert!(result.is_err());
}

#[test]
fn test_invalid_uri_empty_key() {
    let result = S3Uri::parse("s3://my-bucket/");
    assert!(result.is_err());
}

#[test]
fn test_invalid_uri_messages() {
    let e = S3Uri::parse("http://x/y").unwrap_err();
    assert!(matches!(e, S3FcpError::InvalidUri(_)));
    assert_eq!(e.message(), "Invalid URI: URI must start with s3://");

    let e = S3Uri::parse("s3:///key").unwrap_err();
    assert_eq!(e.message(), "Invalid URI: Bucket name is missing");

    let e = S3Uri::parse("s3://bucket").unwrap_err();
    assert_eq!(e.message(), "Invalid URI: Object key is missing");

    let e = S3Uri::parse("s3://bucket/").unwrap_err();
    assert_eq!(e.message(), "Invalid URI: Object key cannot be empty");
}
