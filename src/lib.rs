//! Conversion between a host's dynamic values and TOML documents: value-only and
//! format-aware encoding, decoding with an optional float handler, bounded recursion,
//! date/time/offset mapping, inline-table placement and validation, line-ending
//! normalization, and line/column diagnostics for parse errors.

pub mod datetime;
pub mod decode;
pub mod document;
pub mod encode;
pub mod error;
pub mod guard;
pub mod keypath;
pub mod laws;
pub mod model;
pub mod normalize;
pub mod text;
