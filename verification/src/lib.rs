//! Parser for the `os-release` system-identification file format.
//!
//! A sequence of `KEY=value` lines is folded into an [`OsRelease`] record:
//! well-known keys fill named fields (last assignment wins), every other
//! assignment lands in an overflow list of key/value pairs, and malformed
//! lines are ignored.  The behaviour of the parser is stated against the
//! mathematical model in [`model`] and proved; general properties of the
//! format are stated and proved in [`laws`].

pub mod laws;
pub mod model;
pub mod record;

pub use record::is_enclosed_with;
pub use record::parse_line;
pub use record::OsRelease;
