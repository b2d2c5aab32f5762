//! The error taxonomy shared by the whole pipeline.

use vstd::prelude::*;

verus! {

/// The kind of an input/output failure met while reading the source or
/// writing the target, as a plain value a caller can match on.
#[derive(Debug, PartialEq, Eq, Structural)]
pub enum IoErrorKind {
    NotFound,
    PermissionDenied,
    AlreadyExists,
    InvalidData,
    Other,
}

/// Represents the various errors that can occur in the crate.
///
/// `IO` wraps the kind of an input/output failure met by a caller that
/// reads or writes files around this library, together with its message;
/// `Descriptive` carries a free message; `NonPreservableCode` says that the
/// placeholder-encoded text was rejected by the parser, which means a
/// preserved region was not a well-formed, self-balanced block.
#[derive(Debug)]
pub enum Error {
    IO(IoErrorKind, String),
    Descriptive(String),
    NonPreservableCode,
}

} // verus!
