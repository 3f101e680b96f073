//! A small library for tracking named data-model records (a name and a
//! filesystem path) in a registry that is persisted as a JSON file.
//!
//! The registry itself, the JSON encoding and decoding of its on-disk form,
//! and the decision logic of the `show`, `move` and `delete` operations are
//! verified. File and directory manipulation is left to the surrounding
//! application, which feeds file contents in and carries planned filesystem
//! actions out.
//!
//! Nothing coordinates separate processes: concurrent invocations against
//! the same registry file may interleave their reads and writes arbitrarily.
//! That is an accepted limitation, not something the library guards against.

use vstd::prelude::*;

pub mod config;
pub mod json;
pub mod ops;
pub mod registry;

verus! {

/// The kinds of failure the library and its callers distinguish.
///
/// `IoError` and `FilesystemError` are produced by the surrounding
/// application when a file cannot be read or written, or when a rename or
/// recursive delete fails; the library itself only produces `ParseError`.
/// `SerializationError` is reserved for an encoding failure, which the
/// verified encoder cannot actually reach.
#[derive(Clone, Copy, Debug, PartialEq, Eq, Structural)]
pub enum RegistryError {
    IoError,
    ParseError,
    SerializationError,
    FilesystemError,
}

} // verus!
