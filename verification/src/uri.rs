//! Parsing of `s3://bucket/key` locators.

use vstd::prelude::*;
use vstd::string::StrSliceExecFns;
use vstd::string::StringExecFns;
use crate::error::S3FcpError;

verus! {

/// An object-store locator, split into its bucket and its key.
#[derive(Debug, Clone)]
pub struct S3Uri {
    pub bucket: String,
    pub key: String,
}

/// The locator opens with the five characters `s3://`.
pub open spec fn has_s3_prefix(s: Seq<char>) -> bool {
    &&& s.len() >= 5
    &&& s[0] == 's'
    &&& s[1] == '3'
    &&& s[2] == ':'
    &&& s[3] == '/'
    &&& s[4] == '/'
}

/// The position of the first `/` at or after `from`, or the length of the
/// sequence when there is none.
pub open spec fn first_slash(s: Seq<char>, from: int) -> int
    decreases s.len() - from,
{
    if from < 0 || from >= s.len() {
        s.len() as int
    } else if s[from] == '/' {
        from
    } else {
        first_slash(s, from + 1)
    }
}

impl S3Uri {
    /// Split a locator of the shape `s3://bucket/key` into bucket and key.
    /// The bucket is everything up to the first `/` after the prefix and
    /// must not be empty; the key is everything after that `/` and must
    /// not be empty either. Each malformed shape is rejected with its own
    /// description.
    pub fn parse(uri: &str) -> (r: Result<S3Uri, S3FcpError>)
        ensures
            (({
                let s = uri@;
                let p = first_slash(s, 5);
                match r {
                    Ok(u) => {
                        &&& has_s3_prefix(s)
                        &&& 5 < p
                        &&& p + 1 < s.len()
                        &&& u.bucket@ == s.subrange(5, p)
                        &&& u.key@ == s.subrange(p + 1, s.len() as int)
                    },
                    Err(e) => {
                        &&& e matches S3FcpError::InvalidUri(m)
                        &&& if !has_s3_prefix(s) {
                            m@ == "URI must start with s3://"@
                        } else if p == 5 {
                            m@ == "Bucket name is missing"@
                        } else if p == s.len() {
                            m@ == "Object key is missing"@
                        } else {
                            p + 1 == s.len() && m@ == "Object key cannot be empty"@
                        }
                    },
                }
            })),
    {
        let n = uri.unicode_len();
        if n < 5 || uri.get_char(0) != 's' || uri.get_char(1) != '3' || uri.get_char(2) != ':'
            || uri.get_char(3) != '/' || uri.get_char(4) != '/' {
            return Err(
                S3FcpError::InvalidUri(String::from_str("URI must start with s3://")),
            );
        }
        let mut i: usize = 5;
        while i < n && uri.get_char(i) != '/'
            invariant
                5 <= i <= n,
                n == uri@.len(),
                first_slash(uri@, 5) == first_slash(uri@, i as int),
            decreases n - i,
        {
            i = i + 1;
        }
        proof {
            assert(first_slash(uri@, 5) == i);
        }
        if i == 5 {
            return Err(S3FcpError::InvalidUri(String::from_str("Bucket name is missing")));
        }
        if i == n {
            return Err(S3FcpError::InvalidUri(String::from_str("Object key is missing")));
        }
        if i + 1 == n {
            return Err(
                S3FcpError::InvalidUri(String::from_str("Object key cannot be empty")),
            );
        }
        let bucket = uri.substring_char(5, i).to_owned();
        let key = uri.substring_char(i + 1, n).to_owned();
        Ok(S3Uri { bucket, key })
    }
}

} // verus!
