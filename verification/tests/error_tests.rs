use s3fcp::error::S3FcpError;

#[test]
fn test_error_messages_name_their_kind() {
    let cases: Vec<(S3FcpError, &str)> = vec![
        (S3FcpError::InvalidUri(String::from("x")), "Invalid URI: x"),
        (S3FcpError::S3Error(String::from("x")), "S3 operation failed: x"),
        (S3FcpError::HttpError(String::from("x")), "HTTP error: x"),
        (S3FcpError::ReqwestError(String::from("x")), "Request error: x"),
        (S3FcpError::DownloadFailed(String::from("x")), "Download failed: x"),
        (S3FcpError::IoError(String::from("x")), "IO error: x"),
        (S3FcpError::JoinError(String::from("x")), "Task join error: x"),
    ];
    for (e, want) in cases {
        assert_eq!(e.message(), want);
    }
}
