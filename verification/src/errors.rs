//! The failure taxonomy of the host.
//!
//! Every operation that can fail reports one of these kinds; each kind has a
//! stable string discriminant used in wire responses and in log payloads.

use vstd::prelude::*;

verus! {

/// The kinds of failure the host distinguishes.
#[derive(Clone, Copy, PartialEq, Eq, Structural, Debug)]
pub enum ErrorKind {
    /// Validation failure on a tool name or tool arguments.
    InvalidInput,
    /// The caller's token bucket is empty.
    RateLimited,
    /// Unknown tool or component id.
    NotFound,
    /// A load would duplicate a tool name owned by another component.
    ToolNameConflict,
    /// A request was denied by the component's policy.
    PolicyViolation,
    /// A trap or unhandled guest error during an invocation.
    ExecutionFailure,
    /// Host-side runtime initialization or linking failure.
    RuntimeError,
    /// Disk or network I/O failure reported by the embedding process.
    IoError,
    /// Signature verification was enabled and failed.
    SignatureError,
}

/// The stable discriminant of each error kind.
pub open spec fn spec_discriminant(k: ErrorKind) -> Seq<char> {
    match k {
        ErrorKind::InvalidInput => "InvalidInput"@,
        ErrorKind::RateLimited => "RateLimited"@,
        ErrorKind::NotFound => "NotFound"@,
        ErrorKind::ToolNameConflict => "ToolNameConflict"@,
        ErrorKind::PolicyViolation => "PolicyViolation"@,
        ErrorKind::ExecutionFailure => "ExecutionFailure"@,
        ErrorKind::RuntimeError => "RuntimeError"@,
        ErrorKind::IoError => "IoError"@,
        ErrorKind::SignatureError => "SignatureError"@,
    }
}

impl ErrorKind {
    /// The stable string discriminant of this kind.
    pub fn discriminant(&self) -> (r: &'static str)
        ensures
            r@ == spec_discriminant(*self),
    {
        match self {
            ErrorKind::InvalidInput => "InvalidInput",
            ErrorKind::RateLimited => "RateLimited",
            ErrorKind::NotFound => "NotFound",
            ErrorKind::ToolNameConflict => "ToolNameConflict",
            ErrorKind::PolicyViolation => "PolicyViolation",
            ErrorKind::ExecutionFailure => "ExecutionFailure",
            ErrorKind::RuntimeError => "RuntimeError",
            ErrorKind::IoError => "IoError",
            ErrorKind::SignatureError => "SignatureError",
        }
    }
}

} // verus!
