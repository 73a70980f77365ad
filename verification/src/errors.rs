//! Error kinds surfaced by the proxy core.

use vstd::prelude::*;

verus! {

/// Every failure the core reports at the request boundary.
///
/// Each kind is mapped to an HTTP status by [`SimError::status_code`]:
/// a matcher miss becomes 404, everything else 500.
#[derive(Clone, Copy, Debug, PartialEq, Eq, Structural)]
pub enum SimError {
    /// A session with the requested id already exists.
    AlreadyExists,
    /// No session with the requested id exists.
    NotFound,
    /// A request or response body exceeds the capture ceiling.
    BodyTooLarge,
    /// A header value was not valid UTF-8 at capture time.
    EncodingError,
    /// The forwarder could not resolve an upstream target URL.
    NoTarget,
    /// The upstream round trip failed.
    UpstreamError,
    /// The interaction store failed.
    StorageError,
    /// A dynamic-value pattern was not a valid regular expression.
    InvalidPattern,
    /// No stored interaction matched the incoming request.
    MatcherMiss,
}

impl SimError {
    /// The HTTP status under which this error is reported to the client.
    pub fn status_code(&self) -> (r: u16)
        ensures
            r == self.spec_status_code(),
    {
        match self {
            SimError::MatcherMiss => 404,
            _ => 500,
        }
    }

    /// The status [`SimError::status_code`] returns.
    pub open spec fn spec_status_code(self) -> u16 {
        match self {
            SimError::MatcherMiss => 404,
            _ => 500,
        }
    }

    /// A short plain-text description, used as the response body.
    pub fn message(&self) -> (r: String)
        ensures
            r@ == self.spec_message(),
    {
        match self {
            SimError::AlreadyExists => "Session already exists".to_owned(),
            SimError::NotFound => "Session not found".to_owned(),
            SimError::BodyTooLarge => "Body exceeds the capture ceiling".to_owned(),
            SimError::EncodingError => "Header value is not valid UTF-8".to_owned(),
            SimError::NoTarget => "No target URL available for request".to_owned(),
            SimError::UpstreamError => "Failed to reach the upstream".to_owned(),
            SimError::StorageError => "Storage operation failed".to_owned(),
            SimError::InvalidPattern => "Invalid regex pattern".to_owned(),
            SimError::MatcherMiss => "No matching interaction found".to_owned(),
        }
    }

    /// The text [`SimError::message`] returns.
    pub open spec fn spec_message(self) -> Seq<char> {
        match self {
            SimError::AlreadyExists => "Session already exists"@,
            SimError::NotFound => "Session not found"@,
            SimError::BodyTooLarge => "Body exceeds the capture ceiling"@,
            SimError::EncodingError => "Header value is not valid UTF-8"@,
            SimError::NoTarget => "No target URL available for request"@,
            SimError::UpstreamError => "Failed to reach the upstream"@,
            SimError::StorageError => "Storage operation failed"@,
            SimError::InvalidPattern => "Invalid regex pattern"@,
            SimError::MatcherMiss => "No matching interaction found"@,
        }
    }
}

} // verus!
