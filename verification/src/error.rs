//! The error taxonomy of the decoder.
//!
//! Every fatal condition is reported to the caller of the top-level decode
//! entry point as one of these variants; no partial result is ever returned.

use vstd::prelude::*;

verus! {

/// A fatal decoding error.
///
/// * `Io` — the byte source ended before a required fixed-width field or
///   byte run could be fully read.
/// * The `Unknown*` variants — a discriminator byte outside the recognized
///   set, carrying the offending value and, where available, its offset.
/// * `AttributeNameOutOfRange` / `AttributeNameNotUtf8` — an attribute name
///   index that does not resolve to a text constant-pool entry.
/// * `ReservedFrameType` — a stack-map frame tag in the reserved range
///   128–246.
#[derive(Debug, Clone, Copy, PartialEq, Eq, Structural)]
pub enum ParseError {
    /// The input was exhausted in the middle of a required field.
    Io,
    /// A constant-pool tag outside the recognized set, with its byte offset.
    UnknownConstantPoolTag(u8, usize),
    /// An attribute-name index that is 0 or past the end of the pool.
    AttributeNameOutOfRange(u16),
    /// An attribute-name index whose pool entry is not a text entry.
    AttributeNameNotUtf8(u16),
    /// A stack-map frame tag in the reserved range 128–246.
    ReservedFrameType(u8),
    /// A verification-type tag outside 0–8.
    UnknownVerificationTypeTag(u8),
    /// A type-annotation target-type tag outside the recognized set.
    UnknownTargetType(u8),
    /// A type-path kind tag outside 0–3.
    UnknownTypePathKind(u8),
    /// An element-value tag byte outside the recognized set.
    UnknownElementValueTag(u8),
    /// An instruction opcode outside the known set, with its code offset.
    UnknownOpcode(u8, u32),
    /// A sub-opcode after the `wide` prefix outside the widenable set,
    /// with the code offset of the `wide` prefix.
    UnknownWideOpcode(u8, u32),
    /// A `newarray` element-type tag outside 4–11, with the code offset of
    /// the `newarray` opcode.
    UnknownArrayType(u8, u32),
}

/// The result of any decoding step.
pub type ParseResult<T> = Result<T, ParseError>;

} // verus!
