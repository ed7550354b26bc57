//! Numeric decoding layer for a mesh-file reader.
//!
//! The same logical values appear in three physical forms: whitespace-
//! delimited ASCII decimal text, fixed-width little-endian binary, and
//! fixed-width big-endian binary. This crate builds, for unsigned-integer,
//! signed-integer and floating-point targets, a decoder closed over a
//! configuration `(value kind, source width, optional byte order)`. Each
//! decoder reads one scalar from a byte cursor, narrows it into the
//! destination range, and reports a typed error instead of truncating.

pub mod error;
pub mod repr;
pub mod scan;
pub mod num_parsers;
pub mod laws;
