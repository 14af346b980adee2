//! Error classification for a request-handling service.
//!
//! The library turns an internal failure value into an HTTP status code and a
//! structured, serializable error body, following a fixed, total mapping, and
//! renders that body as JSON text that parses back to the same record.

pub mod boundary;
pub mod classify;
pub mod json;
