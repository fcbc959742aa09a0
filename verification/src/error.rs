//! The error kinds a download can end with.

use vstd::prelude::*;
use vstd::string::StringExecFns;

verus! {

/// Everything that can go wrong, each kind carrying a human-readable
/// detail. A range fetch is the only operation that is retried; every other
/// failure is fatal at once.
#[derive(Debug, Clone)]
pub enum S3FcpError {
    /// A source locator that does not have the expected shape.
    InvalidUri(String),
    /// An object-store operation failed.
    S3Error(String),
    /// An HTTP response that does not allow the download to proceed.
    HttpError(String),
    /// The HTTP transport itself failed.
    ReqwestError(String),
    /// The pipeline could not finish: exhausted retries or an internal
    /// queue whose other side is gone.
    DownloadFailed(String),
    /// Writing to the output sink failed.
    IoError(String),
    /// A concurrent stage terminated abnormally.
    JoinError(String),
}

impl S3FcpError {
    /// The message a caller reports: a prefix naming the kind, then the
    /// detail.
    pub open spec fn spec_message(self) -> Seq<char> {
        match self {
            S3FcpError::InvalidUri(s) => "Invalid URI: "@ + s@,
            S3FcpError::S3Error(s) => "S3 operation failed: "@ + s@,
            S3FcpError::HttpError(s) => "HTTP error: "@ + s@,
            S3FcpError::ReqwestError(s) => "Request error: "@ + s@,
            S3FcpError::DownloadFailed(s) => "Download failed: "@ + s@,
            S3FcpError::IoError(s) => "IO error: "@ + s@,
            S3FcpError::JoinError(s) => "Task join error: "@ + s@,
        }
    }

    pub fn message(&self) -> (m: String)
        ensures
            m@ == self.spec_message(),
    {
        match self {
            S3FcpError::InvalidUri(s) => String::from_str("Invalid URI: ").concat(s.as_str()),
            S3FcpError::S3Error(s) => String::from_str("S3 operation failed: ").concat(s.as_str()),
            S3FcpError::HttpError(s) => String::from_str("HTTP error: ").concat(s.as_str()),
            S3FcpError::ReqwestError(s) => String::from_str("Request error: ").concat(s.as_str()),
            S3FcpError::DownloadFailed(s) => String::from_str("Download failed: ").concat(
                s.as_str(),
            ),
            S3FcpError::IoError(s) => String::from_str("IO error: ").concat(s.as_str()),
            S3FcpError::JoinError(s) => String::from_str("Task join error: ").concat(s.as_str()),
        }
    }
}

} // verus!
