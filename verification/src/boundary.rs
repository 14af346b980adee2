//! Lifting of collaborator error values into [`FailureReason`].
//!
//! The storage-layer error and the standard I/O error are opaque here: the
//! classifier reads nothing of them but their rendered message, so each is
//! turned into text at this boundary and wrapped by a verified constructor.

use crate::classify::{lift_database_message, lift_io_message, FailureReason};
use vstd::prelude::*;

verus! {

#[verifier::external_type_specification]
#[verifier::external_body]
pub struct ExSurrealError(surrealdb::Error);

#[verifier::external_type_specification]
#[verifier::external_body]
pub struct ExIoError(std::io::Error);

/// The rendered message of a storage-layer error: a pure function of the
/// error value alone, since its `Display` writes only the carried message.
pub uninterp spec fn database_message_of(e: surrealdb::Error) -> Seq<char>;

/// Relies on `surrealdb::Error`'s `Display` implementation, reached through
/// `ToString::to_string`: it renders exactly the error's human-readable
/// message, which depends on the error value alone.
#[verifier::external_body]
fn database_error_text(e: &surrealdb::Error) -> (r: String)
    ensures
        r@ == database_message_of(*e),
{
    e.to_string()
}

/// Relies on `std::io::Error`'s `Display` implementation, reached through
/// `ToString::to_string`: it renders the error's human-readable description.
#[verifier::external_body]
fn io_error_text(e: &std::io::Error) -> String {
    e.to_string()
}

/// Wraps a storage-layer error as a `DatabaseFailure` carrying exactly its
/// rendered message; total, never fails.
pub fn lift_database_error(e: surrealdb::Error) -> (reason: FailureReason)
    ensures
        reason matches FailureReason::DatabaseFailure(text) && text@ == database_message_of(e),
{
    lift_database_message(database_error_text(&e))
}

/// Wraps an I/O error as an `IOFailure` carrying its rendered message;
/// total, never fails.
pub fn lift_io_error(e: std::io::Error) -> (reason: FailureReason)
    ensures
        reason is IOFailure,
{
    lift_io_message(io_error_text(&e))
}

} // verus!
