//! The failure taxonomy and its total, pure mapping to HTTP status codes and
//! response bodies.

use vstd::prelude::*;
use vstd::string::StringExecFns;

verus! {

/// Classification of a failure observed by a request handler.
///
/// `DatabaseFailure` and `IOFailure` carry the rendered message of the
/// underlying error; `BadRequest` and `InternalFailure` carry a
/// caller-provided message; `Unauthorized` carries nothing.
pub enum FailureReason {
    /// The storage layer rejected or could not execute an operation.
    DatabaseFailure(String),
    /// Filesystem or network I/O failed beneath the handler.
    IOFailure(String),
    /// Caller-supplied input was invalid.
    BadRequest(String),
    /// Unclassified internal invariant violation.
    InternalFailure(String),
    /// The caller lacks the required credentials.
    Unauthorized,
}

/// The outward-facing error record: the derived numeric HTTP status and a
/// human-readable message.
pub struct ErrorResponse {
    /// The numeric HTTP status, derived from the failure, never set freely.
    pub status_code: u16,
    /// The human-readable rendering of the failure.
    pub message: String,
}

/// The fixed status-code table: every variant maps to exactly one code,
/// depending only on the variant tag, never on carried data.
pub open spec fn spec_status_code(reason: FailureReason) -> u16 {
    match reason {
        FailureReason::DatabaseFailure(_) => 500,
        FailureReason::IOFailure(_) => 500,
        FailureReason::BadRequest(_) => 400,
        FailureReason::InternalFailure(_) => 500,
        FailureReason::Unauthorized => 401,
    }
}

/// The human-readable rendering of a failure: server-side failures keep a
/// prefix naming the layer that failed, caller-caused failures show the
/// caller-provided message unadorned.
pub open spec fn spec_message(reason: FailureReason) -> Seq<char> {
    match reason {
        FailureReason::DatabaseFailure(text) => "DatabaseError: "@ + text@,
        FailureReason::IOFailure(text) => "IOError: "@ + text@,
        FailureReason::BadRequest(text) => text@,
        FailureReason::InternalFailure(text) => text@,
        FailureReason::Unauthorized => "UNAUTHORIZED please login first.."@,
    }
}

impl FailureReason {
    /// The HTTP status code for this failure, per the fixed table.
    pub fn status_code(&self) -> (code: u16)
        ensures
            code == spec_status_code(*self),
    {
        match self {
            FailureReason::DatabaseFailure(_) => 500,
            FailureReason::IOFailure(_) => 500,
            FailureReason::BadRequest(_) => 400,
            FailureReason::InternalFailure(_) => 500,
            FailureReason::Unauthorized => 401,
        }
    }

    /// The human-readable message for this failure.
    pub fn render_message(&self) -> (message: String)
        ensures
            message@ == spec_message(*self),
    {
        match self {
            FailureReason::DatabaseFailure(text) => {
                let mut out = String::from_str("DatabaseError: ");
                out.append(text.as_str());
                out
            },
            FailureReason::IOFailure(text) => {
                let mut out = String::from_str("IOError: ");
                out.append(text.as_str());
                out
            },
            FailureReason::BadRequest(text) => text.clone(),
            FailureReason::InternalFailure(text) => text.clone(),
            FailureReason::Unauthorized => String::from_str("UNAUTHORIZED please login first.."),
        }
    }
}

impl ErrorResponse {
    /// Packs a status code and a message into a response record.
    pub fn new(status_code: u16, message: String) -> (response: Self)
        ensures
            response.status_code == status_code,
            response.message == message,
    {
        Self { status_code, message }
    }
}

/// Converts a failure into its HTTP status code and its outward-facing error
/// record: the terminal, side-effect-free step of the failure pipeline.
/// Total: it has no precondition and is verified free of panics, whatever
/// text the failure carries.
pub fn classify(reason: FailureReason) -> (result: (u16, ErrorResponse))
    ensures
        result.0 == spec_status_code(reason),
        result.1.status_code == spec_status_code(reason),
        result.1.message@ == spec_message(reason),
{
    let code = reason.status_code();
    let message = reason.render_message();
    (code, ErrorResponse::new(code, message))
}

/// Wraps a storage-layer error's rendered message as a `DatabaseFailure`.
pub fn lift_database_message(text: String) -> (reason: FailureReason)
    ensures
        reason == FailureReason::DatabaseFailure(text),
{
    FailureReason::DatabaseFailure(text)
}

/// Wraps an I/O error's rendered message as an `IOFailure`.
pub fn lift_io_message(text: String) -> (reason: FailureReason)
    ensures
        reason == FailureReason::IOFailure(text),
{
    FailureReason::IOFailure(text)
}

} // verus!
