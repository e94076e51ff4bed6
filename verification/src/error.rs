//! Errors reported while decoding the protobuf wire format.
use vstd::prelude::*;

verus! {

/// The six wire types of the protobuf encoding.
#[derive(Clone, Copy, Debug, PartialEq, Eq, Structural)]
pub enum WireType {
    Varint,
    Fixed64,
    LengthDelimited,
    StartGroup,
    EndGroup,
    Fixed32,
}

/// Why a decode failed.
#[derive(Clone, Copy, Debug, PartialEq, Eq, Structural)]
pub enum DecodeError {
    /// The input ended before the value it announced.
    UnexpectedEof,
    /// A varint ran over ten bytes or over 64 bits.
    InvalidVarint,
    /// A tag whose key exceeds `u32` or whose field number is zero.
    InvalidTag,
    /// A tag whose wire-type bits name no wire type.
    InvalidWireType,
    /// A field carried another wire type than its schema demands.
    WireTypeMismatch { expected: WireType, actual: WireType },
    /// A length prefix that does not fit in `usize`.
    MessageTooLarge,
    /// A `string` payload that is not UTF-8.
    InvalidUtf8,
    /// The nesting budget of groups or messages is used up.
    RecursionLimitExceeded,
    /// An end-group tag that closes no open group.
    UnexpectedEndGroup,
}

} // verus!
