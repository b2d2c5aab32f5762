//! The preservation pipeline: turning a source text into placeholder-encoded
//! text that a structural parser accepts without losing anything, and turning
//! rendered text back by stripping the placeholder encoding.

pub mod laws;
pub mod model;
pub mod pipeline;
pub mod restore;
pub mod restore_laws;
pub mod round_trip;
pub mod transform;
mod types;

pub use pipeline::preserve_and_parse;
pub use pipeline::resolve_preserved;
pub use restore::restore_placeholders;
pub use transform::apply_preservers;
pub use types::DelimitersCount;
pub use types::Preserver;
