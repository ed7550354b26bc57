//! Error taxonomy of the decoding layer.
//!
//! Decode-time failures carry the byte position at which the offending
//! token or byte run starts; construction-time failures are a separate
//! channel, never folded into the per-value path.

use vstd::prelude::*;

verus! {

/// Category of the destination value whose range check failed.
#[derive(Clone, Copy, PartialEq, Eq, Structural, Debug)]
pub enum ValueType {
    UnsignedInt,
    Int,
    Float,
}

/// Byte order of a fixed-width binary field. Textual fields have none.
#[derive(Clone, Copy, PartialEq, Eq, Structural, Debug)]
pub enum Endianness {
    Little,
    Big,
}

/// What went wrong while decoding one scalar.
#[derive(Clone, Copy, PartialEq, Eq, Structural, Debug)]
pub enum ErrorKind {
    /// Textual mode: no valid numeric token at the cursor position.
    MalformedLiteral,
    /// Binary mode: fewer bytes remain than the configured width requires.
    InsufficientInput,
    /// A well-formed value cannot be represented in the destination type.
    ValueOutOfRange(ValueType),
    /// A decoded count exceeds the platform's addressable size type.
    TooManyEntities,
}

/// A decode-time failure: the kind, and the position (byte offset into the
/// input) at which the failing token or byte run begins. The cursor is never
/// advanced on a failure; the whole scalar counts as unparsed.
#[derive(Clone, Copy, PartialEq, Eq, Structural, Debug)]
pub struct ParseError {
    pub kind: ErrorKind,
    pub pos: usize,
}

/// A construction-time failure: the requested width/kind combination has no
/// physical reader. Raised when the decoder is built, before any input is
/// read.
#[derive(Clone, Copy, PartialEq, Eq, Structural, Debug)]
pub enum ConfigError {
    UnsupportedWidth { width: usize },
}

} // verus!
