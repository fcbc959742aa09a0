//! The decisions made on what a backend's responses report: HEAD headers
//! turned into object metadata, and status codes accepted or refused. The
//! network calls themselves live outside; they hand in status codes and
//! header values as plain strings.

use vstd::prelude::*;
use vstd::string::StringExecFns;
use crate::error::S3FcpError;
use crate::text::decimal_string;
use crate::text::parse_u64;
use crate::text::spec_decimal;
use crate::text::spec_parse_u64;
use crate::text::str_eq;

verus! {

/// What a HEAD call reports of the remote object: its size, and whether
/// the backend honours byte-range requests.
#[derive(Debug, Clone, Copy, PartialEq, Eq, Structural)]
pub struct ObjectMetadata {
    pub content_length: u64,
    pub supports_range: bool,
}

/// Decide the metadata of an HTTP HEAD response from its status code and
/// the two headers that matter. A non-success status is fatal; so is a
/// missing or non-numeric `Content-Length`. Ranges are supported exactly
/// when `Accept-Ranges` says `bytes`.
pub fn http_head_metadata(
    status: u16,
    content_length: Option<&str>,
    accept_ranges: Option<&str>,
) -> (r: Result<ObjectMetadata, S3FcpError>)
    ensures
        (match r {
            Ok(m) => {
                &&& 200 <= status < 300
                &&& content_length matches Some(cl) && spec_parse_u64(cl@) == Some(
                    m.content_length,
                )
                &&& m.supports_range == (accept_ranges matches Some(ar) && ar@ == "bytes"@)
            },
            Err(e) => {
                if !(200 <= status < 300) {
                    e matches S3FcpError::HttpError(msg) && msg@ == "HEAD request failed with status: "@
                        + spec_decimal(status as int)
                } else {
                    &&& (match content_length {
                        Some(cl) => spec_parse_u64(cl@) is None,
                        None => true,
                    })
                    &&& e matches S3FcpError::HttpError(msg) && msg@
                        == "Missing Content-Length header"@
                }
            },
        }),
{
    if status < 200 || status >= 300 {
        let msg = String::from_str("HEAD request failed with status: ").concat(
            decimal_string(status as u64).as_str(),
        );
        return Err(S3FcpError::HttpError(msg));
    }
    let parsed: Option<u64> = match content_length {
        Some(cl) => parse_u64(cl),
        None => None,
    };
    match parsed {
        Some(len) => {
            let supports_range = match accept_ranges {
                Some(ar) => str_eq(ar, "bytes"),
                None => false,
            };
            Ok(ObjectMetadata { content_length: len, supports_range })
        },
        None => Err(S3FcpError::HttpError(String::from_str("Missing Content-Length header"))),
    }
}

/// Decide the metadata from what the object store's HEAD returned. The
/// store always honours ranges; a missing length is fatal, and a negative
/// one is refused the same way rather than reinterpreted.
pub fn s3_head_metadata(content_length: Option<i64>) -> (r: Result<ObjectMetadata, S3FcpError>)
    ensures
        (match r {
            Ok(m) => {
                &&& content_length matches Some(n) && n >= 0 && m.content_length == n
                &&& m.supports_range
            },
            Err(e) => {
                &&& (match content_length {
                    Some(n) => n < 0,
                    None => true,
                })
                &&& e matches S3FcpError::S3Error(msg) && msg@ == "Content-Length header missing"@
            },
        }),
{
    match content_length {
        Some(n) if n >= 0 => Ok(
            ObjectMetadata { content_length: n as u64, supports_range: true },
        ),
        _ => Err(S3FcpError::S3Error(String::from_str("Content-Length header missing"))),
    }
}

/// A range fetch answers `206 Partial Content`; anything else is refused.
pub fn check_range_status(status: u16) -> (r: Result<(), S3FcpError>)
    ensures
        r is Ok <==> status == 206,
        (match r {
            Ok(u) => true,
            Err(e) => e matches S3FcpError::HttpError(msg) && msg@
                == "Expected 206 Partial Content, got "@ + spec_decimal(status as int),
        }),
{
    if status == 206 {
        Ok(())
    } else {
        let msg = String::from_str("Expected 206 Partial Content, got ").concat(
            decimal_string(status as u64).as_str(),
        );
        Err(S3FcpError::HttpError(msg))
    }
}

/// A whole-object fetch must answer with a success status.
pub fn check_full_status(status: u16) -> (r: Result<(), S3FcpError>)
    ensures
        r is Ok <==> 200 <= status < 300,
        (match r {
            Ok(u) => true,
            Err(e) => e matches S3FcpError::HttpError(msg) && msg@
                == "GET request failed with status: "@ + spec_decimal(status as int),
        }),
{
    if status >= 200 && status < 300 {
        Ok(())
    } else {
        let msg = String::from_str("GET request failed with status: ").concat(
            decimal_string(status as u64).as_str(),
        );
        Err(S3FcpError::HttpError(msg))
    }
}

} // verus!
