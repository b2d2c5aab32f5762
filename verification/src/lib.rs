//! Source-preserving parse/render support.
//!
//! The crate turns a source file into text that a structural parser accepts
//! without losing comments, blank lines or attributes: regions named by a
//! [`preserver::Preserver`] survive as real syntax, everything else is encoded
//! as inert placeholder declarations that a later restoration pass strips
//! again.

pub mod ast;
pub mod error;
pub mod parse_attrs;
pub mod preserver;
pub mod text;

pub use error::Error;
