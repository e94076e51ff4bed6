//! Generic wire codec for `map<K, V>` fields.
//!
//! Each proto scalar type has a zero-sized **codec** (proto types, not Rust
//! types: `int32`, `sint32` and `sfixed32` all hold an `i32` but encode it
//! differently); generic per-field helpers take the key and value codecs as
//! type parameters:
//!
//! ```ignore
//! size += field_len::<Str, Int32>(&self.stock, 1u32);
//! write_field::<Str, Int32>(&self.stock, 5u32, buf);
//! merge_entry::<Str, Int32>(&mut self.stock, buf, depth)?;
//! ```
//!
//! Message-typed values are the one asymmetry: their encoded size is
//! two-pass (a [`SizeCache`] slot is reserved during sizing and consumed
//! during writing, in identical iteration order). They get dedicated
//! [`message_field_len`] / [`write_message_field`] helpers, and implement
//! only [`MapValueDecode`] (via [`Msg`]) for the merge path.
use vstd::prelude::*;

use core::marker::PhantomData;
use bytes::Bytes;

use crate::encoding::{
    advance, check_wire_type, decode_fixed32, decode_fixed64, encode_fixed32, encode_fixed64,
    encode_varint, is_suffix_of, lemma_decode_varint_consumed, lemma_fixed32_round_trip,
    lemma_fixed64_round_trip, lemma_suffix_of_self, lemma_suffix_of_trans, skip_field_depth, spec_decode_fixed32,
    spec_decode_fixed64, spec_decode_tag, spec_decode_varint, spec_fixed32, spec_fixed64,
    spec_skip_field, spec_tag_bytes, spec_varint, varint_len, decode_varint, Tag,
};
use crate::error::{DecodeError, WireType};
use crate::message::{
    holds_slots_at, merge_length_delimited, spec_enum_number, spec_enum_value, spec_merge_fields,
    spec_merge_length_delimited, EnumValue, Enumeration, Message, SizeCache,
};
use crate::proto_map::{keys_distinct, spec_insert, MapKey, ProtoMap};
use crate::types::zigzag;
use crate::types::{
    decode_bool, decode_bytes, decode_int32, decode_int64, decode_sfixed32, decode_sfixed64,
    decode_sint32, decode_sint64, decode_string, decode_uint32, decode_uint64, encode_bool,
    encode_bytes, encode_int32, encode_int64, encode_sfixed32, encode_sfixed64, encode_sint32,
    encode_sint64, encode_string, encode_uint32, encode_uint64, int32_encoded_len,
    int64_encoded_len, lemma_bool_round_trip, lemma_bytes_round_trip, lemma_int32_round_trip,
    lemma_int64_round_trip, lemma_sfixed32_round_trip, lemma_sfixed64_round_trip,
    lemma_sint32_round_trip, lemma_sint64_round_trip, lemma_string_round_trip,
    lemma_uint32_round_trip, lemma_uint64_round_trip, low_u32, map_decoded, sign_extend,
    sint32_encoded_len, sint64_encoded_len, spec_bool_bytes, spec_bytes_bytes, spec_decode_bool,
    spec_decode_bytes, spec_decode_int32, spec_decode_int64, spec_decode_sfixed32,
    spec_decode_sfixed64, spec_decode_sint32, spec_decode_sint64, spec_decode_string,
    spec_decode_uint32, spec_decode_uint64, spec_int_bytes, spec_sint_bytes, spec_string_bytes,
    spec_uint_bytes, string_encoded_len, bytes_encoded_len, uint32_encoded_len,
    uint64_encoded_len, BOOL_ENCODED_LEN, FIXED32_ENCODED_LEN, FIXED64_ENCODED_LEN,
};

mod sealed;

pub use sealed::Sealed;

pub mod wire_laws;

verus! {

/// Decode side of a map key/value codec.
///
/// Implemented by every codec, including [`Msg`] for message-typed values
/// (whose *encode* side is two-pass and lives in [`message_field_len`] /
/// [`write_message_field`] instead of [`MapCodec`]).
pub trait MapValueDecode: Sealed {
    /// The Rust type this codec reads into.
    type Value;

    /// What the wire format carries of a value.
    type Model;

    spec fn model(v: Self::Value) -> Self::Model;

    /// The wire type every payload of this codec carries.
    spec fn spec_wire_type() -> WireType;

    fn wire_type() -> (w: WireType)
        ensures
            w == Self::spec_wire_type(),
    ;

    /// Which models a default value may have: exactly one for the scalar
    /// codecs, the values the type's own `Default` impl may return for
    /// enum and message values.
    spec fn spec_is_default(m: Self::Model) -> bool;

    /// The value an absent key or value takes.
    fn default_value() -> (v: Self::Value)
        ensures
            Self::spec_is_default(Self::model(v)),
    ;

    /// Merging one payload from the front of `input` into a value whose
    /// model is `old`: the new model and the number of bytes read.
    spec fn spec_merge(old: Self::Model, input: Seq<u8>, depth: u32) -> Result<
        (Self::Model, nat),
        DecodeError,
    >;

    /// Merge one payload from `buf` into `value`.
    ///
    /// `depth` is the remaining recursion budget (used by message values;
    /// scalar codecs ignore it).
    fn merge(value: &mut Self::Value, buf: &mut &[u8], depth: u32) -> (r: Result<
        (),
        DecodeError,
    >)
        ensures
            match Self::spec_merge(Self::model(*old(value)), old(buf)@, depth) {
                Ok((m, n)) => r is Ok && Self::model(*final(value)) == m && n <= old(buf)@.len()
                    && final(buf)@ == old(buf)@.skip(n as int),
                Err(e) => r == Err::<(), DecodeError>(e) && is_suffix_of(final(buf)@, old(buf)@),
            },
    ;
}

/// Full (encode + size + decode) map key/value codec for non-message types.
pub trait MapCodec: MapValueDecode {
    /// `Some(n)` when every payload encodes to exactly `n` bytes
    /// (fixed-width scalars and `bool`).
    spec fn spec_fixed_len() -> Option<u32>;

    fn fixed_len() -> (r: Option<u32>)
        ensures
            r == Self::spec_fixed_len(),
    ;

    /// The payload (no tag) written for a value with model `m`.
    spec fn spec_encode(m: Self::Model) -> Seq<u8>;

    /// The models that survive a round trip exactly.
    spec fn spec_canonical(m: Self::Model) -> bool;

    /// A fixed length is the length of every payload.
    proof fn lemma_fixed_len(m: Self::Model)
        ensures
            Self::spec_fixed_len() matches Some(n) ==> Self::spec_encode(m).len() == n,
    ;

    /// Merging a written payload reads back the model and exactly the
    /// payload, whatever the value merged into and whatever follows.
    proof fn lemma_round_trip(old: Self::Model, m: Self::Model, rest: Seq<u8>, depth: u32)
        requires
            Self::spec_canonical(m),
        ensures
            Self::spec_merge(old, Self::spec_encode(m) + rest, depth) == Ok::<
                (Self::Model, nat),
                DecodeError,
            >((m, Self::spec_encode(m).len())),
    ;

    /// A payload is exactly what a reader that knows only the wire type
    /// skips: the wire type a codec carries matches the bytes it writes, so
    /// a reader without the schema stays in step.
    proof fn lemma_payload_fits_wire_type(m: Self::Model, rest: Seq<u8>, depth: u32)
        requires
            Self::spec_canonical(m),
        ensures
            spec_skip_field(
                Tag { field_number: 2, wire_type: Self::spec_wire_type() },
                Self::spec_encode(m) + rest,
                depth,
            ) == Ok::<nat, DecodeError>(Self::spec_encode(m).len()),
    ;

    /// Encoded payload length in bytes (no tag).
    fn encoded_len(value: &Self::Value) -> (r: u32)
        requires
            Self::spec_encode(Self::model(*value)).len() <= u32::MAX,
        ensures
            r == Self::spec_encode(Self::model(*value)).len(),
    ;

    /// Write the payload (no tag) to `buf`.
    fn encode(value: &Self::Value, buf: &mut Vec<u8>)
        ensures
            final(buf)@ == old(buf)@ + Self::spec_encode(Self::model(*value)),
    ;
}

/// The varint of a word is what a reader skips as a varint field.
proof fn lemma_skip_varint_payload(x: u64, rest: Seq<u8>, depth: u32)
    ensures
        spec_skip_field(
            Tag { field_number: 2, wire_type: WireType::Varint },
            spec_varint(x as nat) + rest,
            depth,
        ) == Ok::<nat, DecodeError>(spec_varint(x as nat).len()),
{
    crate::encoding::lemma_varint_round_trip(x, rest);
}

/// A length-prefixed byte string is what a reader skips as a
/// length-delimited field.
proof fn lemma_skip_length_delimited_payload(b: Seq<u8>, rest: Seq<u8>, depth: u32)
    requires
        b.len() <= u64::MAX,
    ensures
        spec_skip_field(
            Tag { field_number: 2, wire_type: WireType::LengthDelimited },
            spec_varint(b.len()) + b + rest,
            depth,
        ) == Ok::<nat, DecodeError>((spec_varint(b.len()) + b).len()),
{
    crate::encoding::lemma_varint_round_trip(b.len() as u64, b + rest);
    assert(spec_varint(b.len()) + b + rest =~= spec_varint(b.len()) + (b + rest));
}

/// `int32` codec.
pub struct Int32;

impl Sealed for Int32 {

}

impl MapValueDecode for Int32 {
    type Value = i32;

    type Model = i32;

    open spec fn model(v: i32) -> i32 {
        v
    }

    open spec fn spec_wire_type() -> WireType {
        WireType::Varint
    }

    fn wire_type() -> (w: WireType) {
        WireType::Varint
    }

    open spec fn spec_is_default(m: i32) -> bool {
        m == 0
    }

    fn default_value() -> (v: i32) {
        0
    }

    open spec fn spec_merge(old: i32, input: Seq<u8>, depth: u32) -> Result<(i32, nat), DecodeError> {
        spec_decode_int32(input)
    }

    fn merge(value: &mut i32, buf: &mut &[u8], _depth: u32) -> (r: Result<(), DecodeError>) {
        proof {
            lemma_decode_varint_consumed(buf@);
            lemma_suffix_of_self(buf@);
        }
        match decode_int32(buf) {
            Ok(v) => {
                *value = v;
                Ok(())
            },
            Err(e) => Err(e),
        }
    }
}

impl MapCodec for Int32 {
    open spec fn spec_fixed_len() -> Option<u32> {
        None
    }

    fn fixed_len() -> (r: Option<u32>) {
        None
    }

    open spec fn spec_encode(m: i32) -> Seq<u8> {
        spec_int_bytes(m as int)
    }

    open spec fn spec_canonical(m: i32) -> bool {
        true
    }

    proof fn lemma_fixed_len(m: i32) {
        
    }

    proof fn lemma_round_trip(old: i32, m: i32, rest: Seq<u8>, depth: u32) {
        lemma_int32_round_trip(m, rest);
    }

    proof fn lemma_payload_fits_wire_type(m: i32, rest: Seq<u8>, depth: u32) {
        lemma_skip_varint_payload(sign_extend(m as int) as u64, rest, depth);
    }

    fn encoded_len(value: &i32) -> (r: u32) {
        int32_encoded_len(*value) as u32
    }

    fn encode(value: &i32, buf: &mut Vec<u8>) {
        encode_int32(*value, buf);
    }
}

/// `int64` codec.
pub struct Int64;

impl Sealed for Int64 {

}

impl MapValueDecode for Int64 {
    type Value = i64;

    type Model = i64;

    open spec fn model(v: i64) -> i64 {
        v
    }

    open spec fn spec_wire_type() -> WireType {
        WireType::Varint
    }

    fn wire_type() -> (w: WireType) {
        WireType::Varint
    }

    open spec fn spec_is_default(m: i64) -> bool {
        m == 0
    }

    fn default_value() -> (v: i64) {
        0
    }

    open spec fn spec_merge(old: i64, input: Seq<u8>, depth: u32) -> Result<(i64, nat), DecodeError> {
        spec_decode_int64(input)
    }

    fn merge(value: &mut i64, buf: &mut &[u8], _depth: u32) -> (r: Result<(), DecodeError>) {
        proof {
            lemma_decode_varint_consumed(buf@);
            lemma_suffix_of_self(buf@);
        }
        match decode_int64(buf) {
            Ok(v) => {
                *value = v;
                Ok(())
            },
            Err(e) => Err(e),
        }
    }
}

impl MapCodec for Int64 {
    open spec fn spec_fixed_len() -> Option<u32> {
        None
    }

    fn fixed_len() -> (r: Option<u32>) {
        None
    }

    open spec fn spec_encode(m: i64) -> Seq<u8> {
        spec_int_bytes(m as int)
    }

    open spec fn spec_canonical(m: i64) -> bool {
        true
    }

    proof fn lemma_fixed_len(m: i64) {
        
    }

    proof fn lemma_round_trip(old: i64, m: i64, rest: Seq<u8>, depth: u32) {
        lemma_int64_round_trip(m, rest);
    }

    proof fn lemma_payload_fits_wire_type(m: i64, rest: Seq<u8>, depth: u32) {
        lemma_skip_varint_payload(sign_extend(m as int) as u64, rest, depth);
    }

    fn encoded_len(value: &i64) -> (r: u32) {
        int64_encoded_len(*value) as u32
    }

    fn encode(value: &i64, buf: &mut Vec<u8>) {
        encode_int64(*value, buf);
    }
}

/// `uint32` codec.
pub struct Uint32;

impl Sealed for Uint32 {

}

impl MapValueDecode for Uint32 {
    type Value = u32;

    type Model = u32;

    open spec fn model(v: u32) -> u32 {
        v
    }

    open spec fn spec_wire_type() -> WireType {
        WireType::Varint
    }

    fn wire_type() -> (w: WireType) {
        WireType::Varint
    }

    open spec fn spec_is_default(m: u32) -> bool {
        m == 0
    }

    fn default_value() -> (v: u32) {
        0
    }

    open spec fn spec_merge(old: u32, input: Seq<u8>, depth: u32) -> Result<(u32, nat), DecodeError> {
        spec_decode_uint32(input)
    }

    fn merge(value: &mut u32, buf: &mut &[u8], _depth: u32) -> (r: Result<(), DecodeError>) {
        proof {
            lemma_decode_varint_consumed(buf@);
            lemma_suffix_of_self(buf@);
        }
        match decode_uint32(buf) {
            Ok(v) => {
                *value = v;
                Ok(())
            },
            Err(e) => Err(e),
        }
    }
}

impl MapCodec for Uint32 {
    open spec fn spec_fixed_len() -> Option<u32> {
        None
    }

    fn fixed_len() -> (r: Option<u32>) {
        None
    }

    open spec fn spec_encode(m: u32) -> Seq<u8> {
        spec_uint_bytes(m as nat)
    }

    open spec fn spec_canonical(m: u32) -> bool {
        true
    }

    proof fn lemma_fixed_len(m: u32) {
        
    }

    proof fn lemma_round_trip(old: u32, m: u32, rest: Seq<u8>, depth: u32) {
        lemma_uint32_round_trip(m, rest);
    }

    proof fn lemma_payload_fits_wire_type(m: u32, rest: Seq<u8>, depth: u32) {
        lemma_skip_varint_payload(m as u64, rest, depth);
    }

    fn encoded_len(value: &u32) -> (r: u32) {
        uint32_encoded_len(*value) as u32
    }

    fn encode(value: &u32, buf: &mut Vec<u8>) {
        encode_uint32(*value, buf);
    }
}

/// `uint64` codec.
pub struct Uint64;

impl Sealed for Uint64 {

}

impl MapValueDecode for Uint64 {
    type Value = u64;

    type Model = u64;

    open spec fn model(v: u64) -> u64 {
        v
    }

    open spec fn spec_wire_type() -> WireType {
        WireType::Varint
    }

    fn wire_type() -> (w: WireType) {
        WireType::Varint
    }

    open spec fn spec_is_default(m: u64) -> bool {
        m == 0
    }

    fn default_value() -> (v: u64) {
        0
    }

    open spec fn spec_merge(old: u64, input: Seq<u8>, depth: u32) -> Result<(u64, nat), DecodeError> {
        spec_decode_uint64(input)
    }

    fn merge(value: &mut u64, buf: &mut &[u8], _depth: u32) -> (r: Result<(), DecodeError>) {
        proof {
            lemma_decode_varint_consumed(buf@);
            lemma_suffix_of_self(buf@);
        }
        match decode_uint64(buf) {
            Ok(v) => {
                *value = v;
                Ok(())
            },
            Err(e) => Err(e),
        }
    }
}

impl MapCodec for Uint64 {
    open spec fn spec_fixed_len() -> Option<u32> {
        None
    }

    fn fixed_len() -> (r: Option<u32>) {
        None
    }

    open spec fn spec_encode(m: u64) -> Seq<u8> {
        spec_uint_bytes(m as nat)
    }

    open spec fn spec_canonical(m: u64) -> bool {
        true
    }

    proof fn lemma_fixed_len(m: u64) {
        
    }

    proof fn lemma_round_trip(old: u64, m: u64, rest: Seq<u8>, depth: u32) {
        lemma_uint64_round_trip(m, rest);
    }

    proof fn lemma_payload_fits_wire_type(m: u64, rest: Seq<u8>, depth: u32) {
        lemma_skip_varint_payload(m, rest, depth);
    }

    fn encoded_len(value: &u64) -> (r: u32) {
        uint64_encoded_len(*value) as u32
    }

    fn encode(value: &u64, buf: &mut Vec<u8>) {
        encode_uint64(*value, buf);
    }
}

/// `sint32` (zigzag) codec.
pub struct Sint32;

impl Sealed for Sint32 {

}

impl MapValueDecode for Sint32 {
    type Value = i32;

    type Model = i32;

    open spec fn model(v: i32) -> i32 {
        v
    }

    open spec fn spec_wire_type() -> WireType {
        WireType::Varint
    }

    fn wire_type() -> (w: WireType) {
        WireType::Varint
    }

    open spec fn spec_is_default(m: i32) -> bool {
        m == 0
    }

    fn default_value() -> (v: i32) {
        0
    }

    open spec fn spec_merge(old: i32, input: Seq<u8>, depth: u32) -> Result<(i32, nat), DecodeError> {
        spec_decode_sint32(input)
    }

    fn merge(value: &mut i32, buf: &mut &[u8], _depth: u32) -> (r: Result<(), DecodeError>) {
        proof {
            lemma_decode_varint_consumed(buf@);
            lemma_suffix_of_self(buf@);
        }
        match decode_sint32(buf) {
            Ok(v) => {
                *value = v;
                Ok(())
            },
            Err(e) => Err(e),
        }
    }
}

impl MapCodec for Sint32 {
    open spec fn spec_fixed_len() -> Option<u32> {
        None
    }

    fn fixed_len() -> (r: Option<u32>) {
        None
    }

    open spec fn spec_encode(m: i32) -> Seq<u8> {
        spec_sint_bytes(m as int)
    }

    open spec fn spec_canonical(m: i32) -> bool {
        true
    }

    proof fn lemma_fixed_len(m: i32) {
        
    }

    proof fn lemma_round_trip(old: i32, m: i32, rest: Seq<u8>, depth: u32) {
        lemma_sint32_round_trip(m, rest);
    }

    proof fn lemma_payload_fits_wire_type(m: i32, rest: Seq<u8>, depth: u32) {
        lemma_skip_varint_payload(zigzag(m as int) as u64, rest, depth);
    }

    fn encoded_len(value: &i32) -> (r: u32) {
        sint32_encoded_len(*value) as u32
    }

    fn encode(value: &i32, buf: &mut Vec<u8>) {
        encode_sint32(*value, buf);
    }
}

/// `sint64` (zigzag) codec.
pub struct Sint64;

impl Sealed for Sint64 {

}

impl MapValueDecode for Sint64 {
    type Value = i64;

    type Model = i64;

    open spec fn model(v: i64) -> i64 {
        v
    }

    open spec fn spec_wire_type() -> WireType {
        WireType::Varint
    }

    fn wire_type() -> (w: WireType) {
        WireType::Varint
    }

    open spec fn spec_is_default(m: i64) -> bool {
        m == 0
    }

    fn default_value() -> (v: i64) {
        0
    }

    open spec fn spec_merge(old: i64, input: Seq<u8>, depth: u32) -> Result<(i64, nat), DecodeError> {
        spec_decode_sint64(input)
    }

    fn merge(value: &mut i64, buf: &mut &[u8], _depth: u32) -> (r: Result<(), DecodeError>) {
        proof {
            lemma_decode_varint_consumed(buf@);
            lemma_suffix_of_self(buf@);
        }
        match decode_sint64(buf) {
            Ok(v) => {
                *value = v;
                Ok(())
            },
            Err(e) => Err(e),
        }
    }
}

impl MapCodec for Sint64 {
    open spec fn spec_fixed_len() -> Option<u32> {
        None
    }

    fn fixed_len() -> (r: Option<u32>) {
        None
    }

    open spec fn spec_encode(m: i64) -> Seq<u8> {
        spec_sint_bytes(m as int)
    }

    open spec fn spec_canonical(m: i64) -> bool {
        true
    }

    proof fn lemma_fixed_len(m: i64) {
        
    }

    proof fn lemma_round_trip(old: i64, m: i64, rest: Seq<u8>, depth: u32) {
        lemma_sint64_round_trip(m, rest);
    }

    proof fn lemma_payload_fits_wire_type(m: i64, rest: Seq<u8>, depth: u32) {
        lemma_skip_varint_payload(zigzag(m as int) as u64, rest, depth);
    }

    fn encoded_len(value: &i64) -> (r: u32) {
        sint64_encoded_len(*value) as u32
    }

    fn encode(value: &i64, buf: &mut Vec<u8>) {
        encode_sint64(*value, buf);
    }
}

/// `bool` codec.
pub struct Bool;

impl Sealed for Bool {

}

impl MapValueDecode for Bool {
    type Value = bool;

    type Model = bool;

    open spec fn model(v: bool) -> bool {
        v
    }

    open spec fn spec_wire_type() -> WireType {
        WireType::Varint
    }

    fn wire_type() -> (w: WireType) {
        WireType::Varint
    }

    open spec fn spec_is_default(m: bool) -> bool {
        m == false
    }

    fn default_value() -> (v: bool) {
        false
    }

    open spec fn spec_merge(old: bool, input: Seq<u8>, depth: u32) -> Result<(bool, nat), DecodeError> {
        spec_decode_bool(input)
    }

    fn merge(value: &mut bool, buf: &mut &[u8], _depth: u32) -> (r: Result<(), DecodeError>) {
        proof {
            lemma_decode_varint_consumed(buf@);
            lemma_suffix_of_self(buf@);
        }
        match decode_bool(buf) {
            Ok(v) => {
                *value = v;
                Ok(())
            },
            Err(e) => Err(e),
        }
    }
}

impl MapCodec for Bool {
    open spec fn spec_fixed_len() -> Option<u32> {
        Some(1u32)
    }

    fn fixed_len() -> (r: Option<u32>) {
        Some(1u32)
    }

    open spec fn spec_encode(m: bool) -> Seq<u8> {
        spec_bool_bytes(m)
    }

    open spec fn spec_canonical(m: bool) -> bool {
        true
    }

    proof fn lemma_fixed_len(m: bool) {
        lemma_bool_round_trip(m, Seq::empty());
    }

    proof fn lemma_round_trip(old: bool, m: bool, rest: Seq<u8>, depth: u32) {
        lemma_bool_round_trip(m, rest);
    }

    proof fn lemma_payload_fits_wire_type(m: bool, rest: Seq<u8>, depth: u32) {
        lemma_skip_varint_payload(if m { 1u64 } else { 0u64 }, rest, depth);
    }

    fn encoded_len(value: &bool) -> (r: u32) {
        BOOL_ENCODED_LEN as u32
    }

    fn encode(value: &bool, buf: &mut Vec<u8>) {
        encode_bool(*value, buf);
    }
}

/// `fixed32` codec.
pub struct Fixed32;

impl Sealed for Fixed32 {

}

impl MapValueDecode for Fixed32 {
    type Value = u32;

    type Model = u32;

    open spec fn model(v: u32) -> u32 {
        v
    }

    open spec fn spec_wire_type() -> WireType {
        WireType::Fixed32
    }

    fn wire_type() -> (w: WireType) {
        WireType::Fixed32
    }

    open spec fn spec_is_default(m: u32) -> bool {
        m == 0
    }

    fn default_value() -> (v: u32) {
        0
    }

    open spec fn spec_merge(old: u32, input: Seq<u8>, depth: u32) -> Result<(u32, nat), DecodeError> {
        spec_decode_fixed32(input)
    }

    fn merge(value: &mut u32, buf: &mut &[u8], _depth: u32) -> (r: Result<(), DecodeError>) {
        proof {
            
            lemma_suffix_of_self(buf@);
        }
        match decode_fixed32(buf) {
            Ok(v) => {
                *value = v;
                Ok(())
            },
            Err(e) => Err(e),
        }
    }
}

impl MapCodec for Fixed32 {
    open spec fn spec_fixed_len() -> Option<u32> {
        Some(4u32)
    }

    fn fixed_len() -> (r: Option<u32>) {
        Some(4u32)
    }

    open spec fn spec_encode(m: u32) -> Seq<u8> {
        spec_fixed32(m)
    }

    open spec fn spec_canonical(m: u32) -> bool {
        true
    }

    proof fn lemma_fixed_len(m: u32) {
        lemma_fixed32_round_trip(m, Seq::empty());
    }

    proof fn lemma_round_trip(old: u32, m: u32, rest: Seq<u8>, depth: u32) {
        lemma_fixed32_round_trip(m, rest);
    }

    proof fn lemma_payload_fits_wire_type(m: u32, rest: Seq<u8>, depth: u32) {
        Self::lemma_fixed_len(m);
    }

    fn encoded_len(value: &u32) -> (r: u32) {
        proof {
            Self::lemma_fixed_len(*value);
        }
        FIXED32_ENCODED_LEN as u32
    }

    fn encode(value: &u32, buf: &mut Vec<u8>) {
        encode_fixed32(*value, buf);
    }
}

/// `fixed64` codec.
pub struct Fixed64;

impl Sealed for Fixed64 {

}

impl MapValueDecode for Fixed64 {
    type Value = u64;

    type Model = u64;

    open spec fn model(v: u64) -> u64 {
        v
    }

    open spec fn spec_wire_type() -> WireType {
        WireType::Fixed64
    }

    fn wire_type() -> (w: WireType) {
        WireType::Fixed64
    }

    open spec fn spec_is_default(m: u64) -> bool {
        m == 0
    }

    fn default_value() -> (v: u64) {
        0
    }

    open spec fn spec_merge(old: u64, input: Seq<u8>, depth: u32) -> Result<(u64, nat), DecodeError> {
        spec_decode_fixed64(input)
    }

    fn merge(value: &mut u64, buf: &mut &[u8], _depth: u32) -> (r: Result<(), DecodeError>) {
        proof {
            
            lemma_suffix_of_self(buf@);
        }
        match decode_fixed64(buf) {
            Ok(v) => {
                *value = v;
                Ok(())
            },
            Err(e) => Err(e),
        }
    }
}

impl MapCodec for Fixed64 {
    open spec fn spec_fixed_len() -> Option<u32> {
        Some(8u32)
    }

    fn fixed_len() -> (r: Option<u32>) {
        Some(8u32)
    }

    open spec fn spec_encode(m: u64) -> Seq<u8> {
        spec_fixed64(m)
    }

    open spec fn spec_canonical(m: u64) -> bool {
        true
    }

    proof fn lemma_fixed_len(m: u64) {
        lemma_fixed64_round_trip(m, Seq::empty());
    }

    proof fn lemma_round_trip(old: u64, m: u64, rest: Seq<u8>, depth: u32) {
        lemma_fixed64_round_trip(m, rest);
    }

    proof fn lemma_payload_fits_wire_type(m: u64, rest: Seq<u8>, depth: u32) {
        Self::lemma_fixed_len(m);
    }

    fn encoded_len(value: &u64) -> (r: u32) {
        proof {
            Self::lemma_fixed_len(*value);
        }
        FIXED64_ENCODED_LEN as u32
    }

    fn encode(value: &u64, buf: &mut Vec<u8>) {
        encode_fixed64(*value, buf);
    }
}

/// `sfixed32` codec.
pub struct Sfixed32;

impl Sealed for Sfixed32 {

}

impl MapValueDecode for Sfixed32 {
    type Value = i32;

    type Model = i32;

    open spec fn model(v: i32) -> i32 {
        v
    }

    open spec fn spec_wire_type() -> WireType {
        WireType::Fixed32
    }

    fn wire_type() -> (w: WireType) {
        WireType::Fixed32
    }

    open spec fn spec_is_default(m: i32) -> bool {
        m == 0
    }

    fn default_value() -> (v: i32) {
        0
    }

    open spec fn spec_merge(old: i32, input: Seq<u8>, depth: u32) -> Result<(i32, nat), DecodeError> {
        spec_decode_sfixed32(input)
    }

    fn merge(value: &mut i32, buf: &mut &[u8], _depth: u32) -> (r: Result<(), DecodeError>) {
        proof {
            
            lemma_suffix_of_self(buf@);
        }
        match decode_sfixed32(buf) {
            Ok(v) => {
                *value = v;
                Ok(())
            },
            Err(e) => Err(e),
        }
    }
}

impl MapCodec for Sfixed32 {
    open spec fn spec_fixed_len() -> Option<u32> {
        Some(4u32)
    }

    fn fixed_len() -> (r: Option<u32>) {
        Some(4u32)
    }

    open spec fn spec_encode(m: i32) -> Seq<u8> {
        spec_fixed32(low_u32(sign_extend(m as int)))
    }

    open spec fn spec_canonical(m: i32) -> bool {
        true
    }

    proof fn lemma_fixed_len(m: i32) {
        lemma_fixed32_round_trip(low_u32(sign_extend(m as int)), Seq::empty());
    }

    proof fn lemma_round_trip(old: i32, m: i32, rest: Seq<u8>, depth: u32) {
        lemma_sfixed32_round_trip(m, rest);
        lemma_fixed32_round_trip(low_u32(sign_extend(m as int)), rest);
    }

    proof fn lemma_payload_fits_wire_type(m: i32, rest: Seq<u8>, depth: u32) {
        Self::lemma_fixed_len(m);
    }

    fn encoded_len(value: &i32) -> (r: u32) {
        proof {
            Self::lemma_fixed_len(*value);
        }
        FIXED32_ENCODED_LEN as u32
    }

    fn encode(value: &i32, buf: &mut Vec<u8>) {
        encode_sfixed32(*value, buf);
    }
}

/// `sfixed64` codec.
pub struct Sfixed64;

impl Sealed for Sfixed64 {

}

impl MapValueDecode for Sfixed64 {
    type Value = i64;

    type Model = i64;

    open spec fn model(v: i64) -> i64 {
        v
    }

    open spec fn spec_wire_type() -> WireType {
        WireType::Fixed64
    }

    fn wire_type() -> (w: WireType) {
        WireType::Fixed64
    }

    open spec fn spec_is_default(m: i64) -> bool {
        m == 0
    }

    fn default_value() -> (v: i64) {
        0
    }

    open spec fn spec_merge(old: i64, input: Seq<u8>, depth: u32) -> Result<(i64, nat), DecodeError> {
        spec_decode_sfixed64(input)
    }

    fn merge(value: &mut i64, buf: &mut &[u8], _depth: u32) -> (r: Result<(), DecodeError>) {
        proof {
            
            lemma_suffix_of_self(buf@);
        }
        match decode_sfixed64(buf) {
            Ok(v) => {
                *value = v;
                Ok(())
            },
            Err(e) => Err(e),
        }
    }
}

impl MapCodec for Sfixed64 {
    open spec fn spec_fixed_len() -> Option<u32> {
        Some(8u32)
    }

    fn fixed_len() -> (r: Option<u32>) {
        Some(8u32)
    }

    open spec fn spec_encode(m: i64) -> Seq<u8> {
        spec_fixed64(sign_extend(m as int) as u64)
    }

    open spec fn spec_canonical(m: i64) -> bool {
        true
    }

    proof fn lemma_fixed_len(m: i64) {
        lemma_fixed64_round_trip(sign_extend(m as int) as u64, Seq::empty());
    }

    proof fn lemma_round_trip(old: i64, m: i64, rest: Seq<u8>, depth: u32) {
        lemma_sfixed64_round_trip(m, rest);
        lemma_fixed64_round_trip(sign_extend(m as int) as u64, rest);
    }

    proof fn lemma_payload_fits_wire_type(m: i64, rest: Seq<u8>, depth: u32) {
        Self::lemma_fixed_len(m);
    }

    fn encoded_len(value: &i64) -> (r: u32) {
        proof {
            Self::lemma_fixed_len(*value);
        }
        FIXED64_ENCODED_LEN as u32
    }

    fn encode(value: &i64, buf: &mut Vec<u8>) {
        encode_sfixed64(*value, buf);
    }
}

/// `float` codec; the value is the IEEE-754 bit pattern.
pub struct Float;

impl Sealed for Float {

}

impl MapValueDecode for Float {
    type Value = u32;

    type Model = u32;

    open spec fn model(v: u32) -> u32 {
        v
    }

    open spec fn spec_wire_type() -> WireType {
        WireType::Fixed32
    }

    fn wire_type() -> (w: WireType) {
        WireType::Fixed32
    }

    open spec fn spec_is_default(m: u32) -> bool {
        m == 0
    }

    fn default_value() -> (v: u32) {
        0
    }

    open spec fn spec_merge(old: u32, input: Seq<u8>, depth: u32) -> Result<(u32, nat), DecodeError> {
        spec_decode_fixed32(input)
    }

    fn merge(value: &mut u32, buf: &mut &[u8], _depth: u32) -> (r: Result<(), DecodeError>) {
        proof {
            
            lemma_suffix_of_self(buf@);
        }
        match decode_fixed32(buf) {
            Ok(v) => {
                *value = v;
                Ok(())
            },
            Err(e) => Err(e),
        }
    }
}

impl MapCodec for Float {
    open spec fn spec_fixed_len() -> Option<u32> {
        Some(4u32)
    }

    fn fixed_len() -> (r: Option<u32>) {
        Some(4u32)
    }

    open spec fn spec_encode(m: u32) -> Seq<u8> {
        spec_fixed32(m)
    }

    open spec fn spec_canonical(m: u32) -> bool {
        true
    }

    proof fn lemma_fixed_len(m: u32) {
        lemma_fixed32_round_trip(m, Seq::empty());
    }

    proof fn lemma_round_trip(old: u32, m: u32, rest: Seq<u8>, depth: u32) {
        lemma_fixed32_round_trip(m, rest);
    }

    proof fn lemma_payload_fits_wire_type(m: u32, rest: Seq<u8>, depth: u32) {
        Self::lemma_fixed_len(m);
    }

    fn encoded_len(value: &u32) -> (r: u32) {
        proof {
            Self::lemma_fixed_len(*value);
        }
        FIXED32_ENCODED_LEN as u32
    }

    fn encode(value: &u32, buf: &mut Vec<u8>) {
        encode_fixed32(*value, buf);
    }
}

/// `double` codec; the value is the IEEE-754 bit pattern.
pub struct Double;

impl Sealed for Double {

}

impl MapValueDecode for Double {
    type Value = u64;

    type Model = u64;

    open spec fn model(v: u64) -> u64 {
        v
    }

    open spec fn spec_wire_type() -> WireType {
        WireType::Fixed64
    }

    fn wire_type() -> (w: WireType) {
        WireType::Fixed64
    }

    open spec fn spec_is_default(m: u64) -> bool {
        m == 0
    }

    fn default_value() -> (v: u64) {
        0
    }

    open spec fn spec_merge(old: u64, input: Seq<u8>, depth: u32) -> Result<(u64, nat), DecodeError> {
        spec_decode_fixed64(input)
    }

    fn merge(value: &mut u64, buf: &mut &[u8], _depth: u32) -> (r: Result<(), DecodeError>) {
        proof {
            
            lemma_suffix_of_self(buf@);
        }
        match decode_fixed64(buf) {
            Ok(v) => {
                *value = v;
                Ok(())
            },
            Err(e) => Err(e),
        }
    }
}

impl MapCodec for Double {
    open spec fn spec_fixed_len() -> Option<u32> {
        Some(8u32)
    }

    fn fixed_len() -> (r: Option<u32>) {
        Some(8u32)
    }

    open spec fn spec_encode(m: u64) -> Seq<u8> {
        spec_fixed64(m)
    }

    open spec fn spec_canonical(m: u64) -> bool {
        true
    }

    proof fn lemma_fixed_len(m: u64) {
        lemma_fixed64_round_trip(m, Seq::empty());
    }

    proof fn lemma_round_trip(old: u64, m: u64, rest: Seq<u8>, depth: u32) {
        lemma_fixed64_round_trip(m, rest);
    }

    proof fn lemma_payload_fits_wire_type(m: u64, rest: Seq<u8>, depth: u32) {
        Self::lemma_fixed_len(m);
    }

    fn encoded_len(value: &u64) -> (r: u32) {
        proof {
            Self::lemma_fixed_len(*value);
        }
        FIXED64_ENCODED_LEN as u32
    }

    fn encode(value: &u64, buf: &mut Vec<u8>) {
        encode_fixed64(*value, buf);
    }
}

/// `string` codec.
pub struct Str;

impl Sealed for Str {

}

impl MapValueDecode for Str {
    type Value = String;

    type Model = Seq<char>;

    open spec fn model(v: String) -> Seq<char> {
        v@
    }

    open spec fn spec_wire_type() -> WireType {
        WireType::LengthDelimited
    }

    fn wire_type() -> (w: WireType) {
        WireType::LengthDelimited
    }

    open spec fn spec_is_default(m: Seq<char>) -> bool {
        m == Seq::<char>::empty()
    }

    fn default_value() -> (v: String) {
        String::new()
    }

    open spec fn spec_merge(old: Seq<char>, input: Seq<u8>, depth: u32) -> Result<
        (Seq<char>, nat),
        DecodeError,
    > {
        spec_decode_string(input)
    }

    fn merge(value: &mut String, buf: &mut &[u8], _depth: u32) -> (r: Result<(), DecodeError>) {
        match decode_string(buf) {
            Ok(v) => {
                *value = v;
                Ok(())
            },
            Err(e) => Err(e),
        }
    }
}

impl MapCodec for Str {
    open spec fn spec_fixed_len() -> Option<u32> {
        None
    }

    fn fixed_len() -> (r: Option<u32>) {
        None
    }

    open spec fn spec_encode(m: Seq<char>) -> Seq<u8> {
        spec_string_bytes(m)
    }

    open spec fn spec_canonical(m: Seq<char>) -> bool {
        vstd::utf8::encode_utf8(m).len() <= u64::MAX
    }

    proof fn lemma_fixed_len(m: Seq<char>) {
    }

    proof fn lemma_round_trip(old: Seq<char>, m: Seq<char>, rest: Seq<u8>, depth: u32) {
        lemma_string_round_trip(m, rest);
    }

    proof fn lemma_payload_fits_wire_type(m: Seq<char>, rest: Seq<u8>, depth: u32) {
        lemma_skip_length_delimited_payload(vstd::utf8::encode_utf8(m), rest, depth);
    }

    fn encoded_len(value: &String) -> (r: u32) {
        string_encoded_len(value.as_str()) as u32
    }

    fn encode(value: &String, buf: &mut Vec<u8>) {
        encode_string(value.as_str(), buf);
    }
}

/// `bytes` codec (`Vec<u8>` representation).
pub struct BytesVec;

impl Sealed for BytesVec {

}

impl MapValueDecode for BytesVec {
    type Value = Vec<u8>;

    type Model = Seq<u8>;

    open spec fn model(v: Vec<u8>) -> Seq<u8> {
        v@
    }

    open spec fn spec_wire_type() -> WireType {
        WireType::LengthDelimited
    }

    fn wire_type() -> (w: WireType) {
        WireType::LengthDelimited
    }

    open spec fn spec_is_default(m: Seq<u8>) -> bool {
        m == Seq::<u8>::empty()
    }

    fn default_value() -> (v: Vec<u8>) {
        Vec::new()
    }

    open spec fn spec_merge(old: Seq<u8>, input: Seq<u8>, depth: u32) -> Result<
        (Seq<u8>, nat),
        DecodeError,
    > {
        spec_decode_bytes(input)
    }

    fn merge(value: &mut Vec<u8>, buf: &mut &[u8], _depth: u32) -> (r: Result<(), DecodeError>) {
        proof {
            lemma_suffix_of_self(buf@);
        }
        match decode_bytes(buf) {
            Ok(v) => {
                *value = v;
                Ok(())
            },
            Err(e) => Err(e),
        }
    }
}

impl MapCodec for BytesVec {
    open spec fn spec_fixed_len() -> Option<u32> {
        None
    }

    fn fixed_len() -> (r: Option<u32>) {
        None
    }

    open spec fn spec_encode(m: Seq<u8>) -> Seq<u8> {
        spec_bytes_bytes(m)
    }

    open spec fn spec_canonical(m: Seq<u8>) -> bool {
        m.len() <= u64::MAX
    }

    proof fn lemma_fixed_len(m: Seq<u8>) {
    }

    proof fn lemma_round_trip(old: Seq<u8>, m: Seq<u8>, rest: Seq<u8>, depth: u32) {
        lemma_bytes_round_trip(m, rest);
    }

    proof fn lemma_payload_fits_wire_type(m: Seq<u8>, rest: Seq<u8>, depth: u32) {
        lemma_skip_length_delimited_payload(m, rest, depth);
    }

    fn encoded_len(value: &Vec<u8>) -> (r: u32) {
        bytes_encoded_len(value.as_slice()) as u32
    }

    fn encode(value: &Vec<u8>, buf: &mut Vec<u8>) {
        encode_bytes(value.as_slice(), buf);
    }
}

// ── `bytes::Bytes` values ──────────────────────────────────────────────

#[verifier::external_type_specification]
#[verifier::external_body]
pub struct ExBytes(bytes::Bytes);

/// The bytes a `Bytes` holds.
pub uninterp spec fn bytes_contents(b: Bytes) -> Seq<u8>;

/// `Bytes::new`: empty.
#[verifier::external_body]
fn empty_bytes() -> (b: Bytes)
    ensures
        bytes_contents(b) == Seq::<u8>::empty(),
{
    Bytes::new()
}

/// `Bytes::from(Vec<u8>)`: takes over the vector's bytes.
#[verifier::external_body]
fn bytes_from_vec(v: Vec<u8>) -> (b: Bytes)
    ensures
        bytes_contents(b) == v@,
{
    Bytes::from(v)
}

/// `<Bytes as AsRef<[u8]>>::as_ref`: the bytes it holds.
#[verifier::external_body]
fn bytes_as_slice(b: &Bytes) -> (s: &[u8])
    ensures
        s@ == bytes_contents(*b),
{
    b.as_ref()
}

/// `bytes` codec with [`Bytes`] values (cheaply cloneable buffers).
pub struct BytesBuf;

impl Sealed for BytesBuf {

}

impl MapValueDecode for BytesBuf {
    type Value = Bytes;

    type Model = Seq<u8>;

    open spec fn model(v: Bytes) -> Seq<u8> {
        bytes_contents(v)
    }

    open spec fn spec_wire_type() -> WireType {
        WireType::LengthDelimited
    }

    fn wire_type() -> (w: WireType) {
        WireType::LengthDelimited
    }

    open spec fn spec_is_default(m: Seq<u8>) -> bool {
        m == Seq::<u8>::empty()
    }

    fn default_value() -> (v: Bytes) {
        empty_bytes()
    }

    open spec fn spec_merge(old: Seq<u8>, input: Seq<u8>, depth: u32) -> Result<
        (Seq<u8>, nat),
        DecodeError,
    > {
        spec_decode_bytes(input)
    }

    fn merge(value: &mut Bytes, buf: &mut &[u8], _depth: u32) -> (r: Result<(), DecodeError>) {
        proof {
            lemma_suffix_of_self(buf@);
        }
        match decode_bytes(buf) {
            Ok(v) => {
                *value = bytes_from_vec(v);
                Ok(())
            },
            Err(e) => Err(e),
        }
    }
}

impl MapCodec for BytesBuf {
    open spec fn spec_fixed_len() -> Option<u32> {
        None
    }

    fn fixed_len() -> (r: Option<u32>) {
        None
    }

    open spec fn spec_encode(m: Seq<u8>) -> Seq<u8> {
        spec_bytes_bytes(m)
    }

    open spec fn spec_canonical(m: Seq<u8>) -> bool {
        m.len() <= u64::MAX
    }

    proof fn lemma_fixed_len(m: Seq<u8>) {
    }

    proof fn lemma_round_trip(old: Seq<u8>, m: Seq<u8>, rest: Seq<u8>, depth: u32) {
        lemma_bytes_round_trip(m, rest);
    }

    proof fn lemma_payload_fits_wire_type(m: Seq<u8>, rest: Seq<u8>, depth: u32) {
        lemma_skip_length_delimited_payload(m, rest, depth);
    }

    fn encoded_len(value: &Bytes) -> (r: u32) {
        bytes_encoded_len(bytes_as_slice(value)) as u32
    }

    fn encode(value: &Bytes, buf: &mut Vec<u8>) {
        encode_bytes(bytes_as_slice(value), buf);
    }
}

/// Open-enum codec: values decode into [`EnumValue<E>`], preserving unknown
/// numbers.
pub struct OpenEnum<E>(PhantomData<E>);

impl<E: Enumeration> Sealed for OpenEnum<E> {

}

impl<E: Enumeration> MapValueDecode for OpenEnum<E> {
    type Value = EnumValue<E>;

    type Model = EnumValue<E>;

    open spec fn model(v: EnumValue<E>) -> EnumValue<E> {
        v
    }

    open spec fn spec_wire_type() -> WireType {
        WireType::Varint
    }

    fn wire_type() -> (w: WireType) {
        WireType::Varint
    }

    /// The default is what the number 0 decodes to.
    open spec fn spec_is_default(m: EnumValue<E>) -> bool {
        m == spec_enum_value::<E>(0)
    }

    fn default_value() -> (v: EnumValue<E>) {
        EnumValue::from_number(0)
    }

    open spec fn spec_merge(old: EnumValue<E>, input: Seq<u8>, depth: u32) -> Result<
        (EnumValue<E>, nat),
        DecodeError,
    > {
        map_decoded(spec_decode_int32(input), |n: i32| spec_enum_value::<E>(n))
    }

    fn merge(value: &mut EnumValue<E>, buf: &mut &[u8], _depth: u32) -> (r: Result<
        (),
        DecodeError,
    >) {
        proof {
            lemma_decode_varint_consumed(buf@);
            lemma_suffix_of_self(buf@);
        }
        match decode_int32(buf) {
            Ok(n) => {
                *value = EnumValue::from_number(n);
                Ok(())
            },
            Err(e) => Err(e),
        }
    }
}

impl<E: Enumeration> MapCodec for OpenEnum<E> {
    open spec fn spec_fixed_len() -> Option<u32> {
        None
    }

    fn fixed_len() -> (r: Option<u32>) {
        None
    }

    open spec fn spec_encode(m: EnumValue<E>) -> Seq<u8> {
        spec_int_bytes(spec_enum_number(m) as int)
    }

    /// A value survives a round trip when it is what its number decodes to
    /// (`Unknown(n)` only for numbers no variant names).
    open spec fn spec_canonical(m: EnumValue<E>) -> bool {
        m == spec_enum_value::<E>(spec_enum_number(m))
    }

    proof fn lemma_fixed_len(m: EnumValue<E>) {
    }

    proof fn lemma_round_trip(old: EnumValue<E>, m: EnumValue<E>, rest: Seq<u8>, depth: u32) {
        lemma_int32_round_trip(spec_enum_number(m), rest);
    }

    proof fn lemma_payload_fits_wire_type(m: EnumValue<E>, rest: Seq<u8>, depth: u32) {
        lemma_skip_varint_payload(sign_extend(spec_enum_number(m) as int) as u64, rest, depth);
    }

    fn encoded_len(value: &EnumValue<E>) -> (r: u32) {
        int32_encoded_len(value.to_i32()) as u32
    }

    fn encode(value: &EnumValue<E>, buf: &mut Vec<u8>) {
        encode_int32(value.to_i32(), buf);
    }
}

/// Closed-enum codec: values decode into the bare enum `E`.
///
/// Unknown numeric values are dropped, leaving the entry's value at its
/// previous (default) state — matching the long-standing generated-code
/// behaviour for closed-enum map values (the proto2 spec's
/// route-entire-entry-to-unknown-fields semantics are a known gap).
pub struct ClosedEnum<E>(PhantomData<E>);

impl<E: Enumeration + Default> Sealed for ClosedEnum<E> {

}

impl<E: Enumeration + Default> MapValueDecode for ClosedEnum<E> {
    type Value = E;

    type Model = E;

    open spec fn model(v: E) -> E {
        v
    }

    open spec fn spec_wire_type() -> WireType {
        WireType::Varint
    }

    fn wire_type() -> (w: WireType) {
        WireType::Varint
    }

    /// A value `E`'s own `Default` impl returns.
    open spec fn spec_is_default(m: E) -> bool {
        call_ensures(E::default, (), m)
    }

    fn default_value() -> (v: E) {
        E::default()
    }

    open spec fn spec_merge(old: E, input: Seq<u8>, depth: u32) -> Result<(E, nat), DecodeError> {
        map_decoded(
            spec_decode_int32(input),
            |n: i32|
                match E::spec_from_i32(n) {
                    Some(v) => v,
                    None => old,
                },
        )
    }

    fn merge(value: &mut E, buf: &mut &[u8], _depth: u32) -> (r: Result<(), DecodeError>) {
        proof {
            lemma_decode_varint_consumed(buf@);
            lemma_suffix_of_self(buf@);
        }
        match decode_int32(buf) {
            Ok(raw) => {
                if let Some(v) = E::from_i32(raw) {
                    *value = v;
                }
                Ok(())
            },
            Err(e) => Err(e),
        }
    }
}

impl<E: Enumeration + Default> MapCodec for ClosedEnum<E> {
    open spec fn spec_fixed_len() -> Option<u32> {
        None
    }

    fn fixed_len() -> (r: Option<u32>) {
        None
    }

    open spec fn spec_encode(m: E) -> Seq<u8> {
        spec_int_bytes(m.spec_to_i32() as int)
    }

    /// A variant survives a round trip when its number names it.
    open spec fn spec_canonical(m: E) -> bool {
        E::spec_from_i32(m.spec_to_i32()) == Some(m)
    }

    proof fn lemma_fixed_len(m: E) {
    }

    proof fn lemma_round_trip(old: E, m: E, rest: Seq<u8>, depth: u32) {
        lemma_int32_round_trip(m.spec_to_i32(), rest);
    }

    proof fn lemma_payload_fits_wire_type(m: E, rest: Seq<u8>, depth: u32) {
        lemma_skip_varint_payload(sign_extend(m.spec_to_i32() as int) as u64, rest, depth);
    }

    fn encoded_len(value: &E) -> (r: u32) {
        int32_encoded_len(value.to_i32()) as u32
    }

    fn encode(value: &E, buf: &mut Vec<u8>) {
        encode_int32(value.to_i32(), buf);
    }
}

/// Message-value codec (decode side only — encode is two-pass via
/// [`message_field_len`] / [`write_message_field`]).
pub struct Msg<M>(PhantomData<M>);

impl<M: Message + Default> Sealed for Msg<M> {

}

impl<M: Message + Default> MapValueDecode for Msg<M> {
    type Value = M;

    type Model = M;

    open spec fn model(v: M) -> M {
        v
    }

    open spec fn spec_wire_type() -> WireType {
        WireType::LengthDelimited
    }

    fn wire_type() -> (w: WireType) {
        WireType::LengthDelimited
    }

    /// A value `M`'s own `Default` impl returns.
    open spec fn spec_is_default(m: M) -> bool {
        call_ensures(M::default, (), m)
    }

    fn default_value() -> (v: M) {
        M::default()
    }

    open spec fn spec_merge(old: M, input: Seq<u8>, depth: u32) -> Result<(M, nat), DecodeError> {
        spec_merge_length_delimited(old, input, depth)
    }

    fn merge(value: &mut M, buf: &mut &[u8], depth: u32) -> (r: Result<(), DecodeError>) {
        merge_length_delimited(value, buf, depth)
    }
}

// ── The wire image of a map field ───────────────────────────────────────

/// Key tag (field 1) and value tag (field 2) are both single-byte for every
/// wire type, so each entry carries exactly two tag bytes.
const ENTRY_TAG_LEN: u32 = 2;

/// The models of a map's entries, in order.
pub open spec fn map_model<KC: MapValueDecode, VC: MapValueDecode>(
    s: Seq<(KC::Value, VC::Value)>,
) -> Seq<(KC::Model, VC::Model)> {
    Seq::new(s.len(), |i: int| (KC::model(s[i].0), VC::model(s[i].1)))
}

/// The tag of an entry's key (field 1).
pub open spec fn key_tag<KC: MapValueDecode>() -> Tag {
    Tag { field_number: 1, wire_type: KC::spec_wire_type() }
}

/// The tag of an entry's value (field 2).
pub open spec fn value_tag<VC: MapValueDecode>() -> Tag {
    Tag { field_number: 2, wire_type: VC::spec_wire_type() }
}

/// The tag of each entry of map field `field_number`.
pub open spec fn record_tag(field_number: u32) -> Tag {
    Tag { field_number, wire_type: WireType::LengthDelimited }
}

/// An entry's payload: tagged key, then tagged value.
pub open spec fn spec_entry_body<KC: MapCodec, VC: MapCodec>(k: KC::Model, v: VC::Model) -> Seq<
    u8,
> {
    spec_tag_bytes(key_tag::<KC>()) + KC::spec_encode(k) + spec_tag_bytes(value_tag::<VC>())
        + VC::spec_encode(v)
}

/// The length of an entry's payload.
pub open spec fn spec_entry_len<KC: MapCodec, VC: MapCodec>(k: KC::Model, v: VC::Model) -> nat {
    (2 + KC::spec_encode(k).len() + VC::spec_encode(v).len()) as nat
}

/// One entry as written: the field's tag, the payload length, the payload.
pub open spec fn spec_record<KC: MapCodec, VC: MapCodec>(
    field_number: u32,
    k: KC::Model,
    v: VC::Model,
) -> Seq<u8> {
    spec_tag_bytes(record_tag(field_number)) + spec_varint(spec_entry_body::<KC, VC>(k, v).len())
        + spec_entry_body::<KC, VC>(k, v)
}

/// A whole map field as written: one record per entry, in order.
pub open spec fn spec_field_bytes<KC: MapCodec, VC: MapCodec>(
    field_number: u32,
    s: Seq<(KC::Model, VC::Model)>,
) -> Seq<u8>
    decreases s.len(),
{
    if s.len() == 0 {
        Seq::empty()
    } else {
        spec_field_bytes::<KC, VC>(field_number, s.drop_last()) + spec_record::<KC, VC>(
            field_number,
            s.last().0,
            s.last().1,
        )
    }
}

/// The length of one record whose outer tag takes `outer_tag_len` bytes.
pub open spec fn spec_record_len(outer_tag_len: nat, entry: nat) -> nat {
    outer_tag_len + spec_varint(entry).len() + entry
}

/// The length of a whole map field whose outer tag takes `outer_tag_len`
/// bytes.
pub open spec fn spec_field_len<KC: MapCodec, VC: MapCodec>(
    s: Seq<(KC::Model, VC::Model)>,
    outer_tag_len: nat,
) -> nat
    decreases s.len(),
{
    if s.len() == 0 {
        0
    } else {
        spec_field_len::<KC, VC>(s.drop_last(), outer_tag_len) + spec_record_len(
            outer_tag_len,
            spec_entry_len::<KC, VC>(s.last().0, s.last().1),
        )
    }
}

/// Every entry's payload length fits in `u32`.
pub open spec fn entries_fit<KC: MapCodec, VC: MapCodec>(s: Seq<(KC::Model, VC::Model)>) -> bool {
    forall|i: int| 0 <= i < s.len() ==> #[trigger] spec_entry_len::<KC, VC>(s[i].0, s[i].1) <= u32::MAX
}

/// An entry's payload is two one-byte tags and the two encodings: its
/// length is what `entry_len` computes.
pub proof fn lemma_entry_body_len<KC: MapCodec, VC: MapCodec>(k: KC::Model, v: VC::Model)
    ensures
        spec_entry_body::<KC, VC>(k, v).len() == spec_entry_len::<KC, VC>(k, v),
{
    crate::encoding::lemma_small_tag_len(key_tag::<KC>());
    crate::encoding::lemma_small_tag_len(value_tag::<VC>());
}

proof fn lemma_field_len_step<KC: MapCodec, VC: MapCodec>(
    s: Seq<(KC::Model, VC::Model)>,
    i: int,
    outer_tag_len: nat,
)
    requires
        0 <= i < s.len(),
    ensures
        spec_field_len::<KC, VC>(s.take(i + 1), outer_tag_len) == spec_field_len::<KC, VC>(
            s.take(i),
            outer_tag_len,
        ) + spec_record_len(outer_tag_len, spec_entry_len::<KC, VC>(s[i].0, s[i].1)),
{
    assert(s.take(i + 1).drop_last() =~= s.take(i));
}

proof fn lemma_field_len_take_mono<KC: MapCodec, VC: MapCodec>(
    s: Seq<(KC::Model, VC::Model)>,
    i: int,
    j: int,
    outer_tag_len: nat,
)
    requires
        0 <= i <= j <= s.len(),
    ensures
        spec_field_len::<KC, VC>(s.take(i), outer_tag_len) <= spec_field_len::<KC, VC>(
            s.take(j),
            outer_tag_len,
        ),
    decreases j - i,
{
    if i < j {
        lemma_field_len_take_mono::<KC, VC>(s, i, j - 1, outer_tag_len);
        lemma_field_len_step::<KC, VC>(s, j - 1, outer_tag_len);
    }
}

/// Each entry of a field whose total length fits in `u32` fits too.
proof fn lemma_field_len_bounds_entries<KC: MapCodec, VC: MapCodec>(
    s: Seq<(KC::Model, VC::Model)>,
    outer_tag_len: nat,
)
    requires
        spec_field_len::<KC, VC>(s, outer_tag_len) <= u32::MAX,
    ensures
        entries_fit::<KC, VC>(s),
        forall|i: int|
            0 <= i <= s.len() ==> #[trigger] spec_field_len::<KC, VC>(s.take(i), outer_tag_len)
                <= u32::MAX,
{
    assert(s.take(s.len() as int) =~= s);
    assert forall|i: int| 0 <= i <= s.len() implies #[trigger] spec_field_len::<KC, VC>(
        s.take(i),
        outer_tag_len,
    ) <= u32::MAX by {
        lemma_field_len_take_mono::<KC, VC>(s, i, s.len() as int, outer_tag_len);
    }
    assert forall|i: int| 0 <= i < s.len() implies #[trigger] spec_entry_len::<KC, VC>(
        s[i].0,
        s[i].1,
    ) <= u32::MAX by {
        lemma_field_len_step::<KC, VC>(s, i, outer_tag_len);
        lemma_field_len_take_mono::<KC, VC>(s, i + 1, s.len() as int, outer_tag_len);
    }
}

/// With fixed-width codecs every record has the same length.
proof fn lemma_field_len_fixed<KC: MapCodec, VC: MapCodec>(
    s: Seq<(KC::Model, VC::Model)>,
    outer_tag_len: nat,
    kf: u32,
    vf: u32,
)
    requires
        KC::spec_fixed_len() == Some(kf),
        VC::spec_fixed_len() == Some(vf),
    ensures
        spec_field_len::<KC, VC>(s, outer_tag_len) == s.len() * spec_record_len(
            outer_tag_len,
            (ENTRY_TAG_LEN + kf + vf) as nat,
        ),
    decreases s.len(),
{
    if s.len() > 0 {
        lemma_field_len_fixed::<KC, VC>(s.drop_last(), outer_tag_len, kf, vf);
        KC::lemma_fixed_len(s.last().0);
        VC::lemma_fixed_len(s.last().1);
        let c = spec_record_len(outer_tag_len, (ENTRY_TAG_LEN + kf + vf) as nat);
        let n = s.len();
        assert((n - 1) * c + c == n * c) by (nonlinear_arith);
    }
}

/// The length of an entry's payload.
fn entry_len<KC: MapCodec, VC: MapCodec>(k: &KC::Value, v: &VC::Value) -> (r: u32)
    requires
        spec_entry_len::<KC, VC>(KC::model(*k), VC::model(*v)) <= u32::MAX,
    ensures
        r == spec_entry_len::<KC, VC>(KC::model(*k), VC::model(*v)),
        r == spec_entry_body::<KC, VC>(KC::model(*k), VC::model(*v)).len(),
{
    proof {
        lemma_entry_body_len::<KC, VC>(KC::model(*k), VC::model(*v));
    }
    ENTRY_TAG_LEN + KC::encoded_len(k) + VC::encoded_len(v)
}

/// Total encoded length of a scalar-valued map field, including each entry's
/// outer tag and length prefix.
///
/// `outer_tag_len` is the encoded length of the field's outer tag (a codegen
/// constant). When both codecs are fixed-width the per-entry size is a
/// constant and the loop folds to `len() * entry`.
pub fn field_len<KC: MapCodec, VC: MapCodec>(
    map: &ProtoMap<KC::Value, VC::Value>,
    outer_tag_len: u32,
) -> (size: u32) where KC::Value: MapKey
    requires
        spec_field_len::<KC, VC>(map_model::<KC, VC>(map.entries()), outer_tag_len as nat)
            <= u32::MAX,
    ensures
        size == spec_field_len::<KC, VC>(map_model::<KC, VC>(map.entries()), outer_tag_len as nat),
{
    let ghost s = map_model::<KC, VC>(map.entries());
    if let (Some(kf), Some(vf)) = (KC::fixed_len(), VC::fixed_len()) {
        let entry: u64 = ENTRY_TAG_LEN as u64 + kf as u64 + vf as u64;
        let per: u64 = outer_tag_len as u64 + varint_len(entry) as u64 + entry;
        let n = map.len();
        proof {
            lemma_field_len_fixed::<KC, VC>(s, outer_tag_len as nat, kf, vf);
            if n > 0 {
                assert(n * per >= per) by (nonlinear_arith)
                    requires
                        n >= 1,
                ;
            }
        }
        return (n as u64 * per) as u32;
    }
    let mut size: u32 = 0;
    let mut i: usize = 0;
    proof {
        lemma_field_len_bounds_entries::<KC, VC>(s, outer_tag_len as nat);
        assert(s.take(0) =~= Seq::<(KC::Model, VC::Model)>::empty());
    }
    while i < map.len()
        invariant
            i <= s.len(),
            s == map_model::<KC, VC>(map.entries()),
            size == spec_field_len::<KC, VC>(s.take(i as int), outer_tag_len as nat),
            entries_fit::<KC, VC>(s),
            forall|j: int|
                0 <= j <= s.len() ==> #[trigger] spec_field_len::<KC, VC>(
                    s.take(j),
                    outer_tag_len as nat,
                ) <= u32::MAX,
        decreases s.len() - i,
    {
        let e = map.entry(i);
        proof {
            lemma_field_len_step::<KC, VC>(s, i as int, outer_tag_len as nat);
            assert(s[i as int] == (KC::model(e.0), VC::model(e.1)));
            assert(spec_entry_len::<KC, VC>(s[i as int].0, s[i as int].1) <= u32::MAX);
            assert(spec_field_len::<KC, VC>(s.take(i + 1), outer_tag_len as nat) <= u32::MAX);
        }
        let entry = entry_len::<KC, VC>(&e.0, &e.1);
        size = size + outer_tag_len + varint_len(entry as u64) as u32 + entry;
        i = i + 1;
    }
    assert(s.take(s.len() as int) =~= s);
    size
}

/// Write a scalar-valued map field: one `field_number`-tagged,
/// length-prefixed entry per element.
pub fn write_field<KC: MapCodec, VC: MapCodec>(
    map: &ProtoMap<KC::Value, VC::Value>,
    field_number: u32,
    buf: &mut Vec<u8>,
) where KC::Value: MapKey
    requires
        entries_fit::<KC, VC>(map_model::<KC, VC>(map.entries())),
    ensures
        final(buf)@ == old(buf)@ + spec_field_bytes::<KC, VC>(
            field_number,
            map_model::<KC, VC>(map.entries()),
        ),
{
    let ghost s = map_model::<KC, VC>(map.entries());
    let ghost start = buf@;
    let mut i: usize = 0;
    assert(s.take(0) =~= Seq::<(KC::Model, VC::Model)>::empty());
    assert(start =~= start + Seq::<u8>::empty());
    while i < map.len()
        invariant
            i <= s.len(),
            s == map_model::<KC, VC>(map.entries()),
            entries_fit::<KC, VC>(s),
            buf@ == start + spec_field_bytes::<KC, VC>(field_number, s.take(i as int)),
        decreases s.len() - i,
    {
        let e = map.entry(i);
        let ghost km = KC::model(e.0);
        let ghost vm = VC::model(e.1);
        proof {
            assert(s[i as int] == (km, vm));
            assert(spec_entry_len::<KC, VC>(s[i as int].0, s[i as int].1) <= u32::MAX);
            lemma_entry_body_len::<KC, VC>(km, vm);
        }
        let entry = entry_len::<KC, VC>(&e.0, &e.1);
        let ghost before = buf@;
        Tag::new(field_number, WireType::LengthDelimited).encode(buf);
        encode_varint(entry as u64, buf);
        Tag::new(1, KC::wire_type()).encode(buf);
        KC::encode(&e.0, buf);
        Tag::new(2, VC::wire_type()).encode(buf);
        VC::encode(&e.1, buf);
        proof {
            assert(s.take(i + 1).drop_last() =~= s.take(i as int));
            assert(buf@ =~= before + spec_record::<KC, VC>(field_number, km, vm));
        }
        i = i + 1;
    }
    assert(s.take(s.len() as int) =~= s);
}

// ── Message-valued map fields ───────────────────────────────────────────

/// The models of a message-valued map's entries (messages stand for
/// themselves).
pub open spec fn message_map_model<KC: MapValueDecode, M>(s: Seq<(KC::Value, M)>) -> Seq<
    (KC::Model, M),
> {
    Seq::new(s.len(), |i: int| (KC::model(s[i].0), s[i].1))
}

/// The tag of a message value (field 2).
pub open spec fn message_value_tag() -> Tag {
    Tag { field_number: 2, wire_type: WireType::LengthDelimited }
}

/// An entry's payload: tagged key, then the length-prefixed message.
pub open spec fn spec_message_entry_body<KC: MapCodec, M: Message>(k: KC::Model, v: M) -> Seq<u8> {
    spec_tag_bytes(key_tag::<KC>()) + KC::spec_encode(k) + spec_tag_bytes(message_value_tag())
        + spec_varint(v.spec_encoding().len()) + v.spec_encoding()
}

/// The length of an entry's payload.
pub open spec fn spec_message_entry_len<KC: MapCodec, M: Message>(k: KC::Model, v: M) -> nat {
    (2 + KC::spec_encode(k).len() + spec_varint(v.spec_encoding().len()).len()
        + v.spec_encoding().len()) as nat
}

/// One entry as written.
pub open spec fn spec_message_record<KC: MapCodec, M: Message>(
    field_number: u32,
    k: KC::Model,
    v: M,
) -> Seq<u8> {
    spec_tag_bytes(record_tag(field_number)) + spec_varint(
        spec_message_entry_body::<KC, M>(k, v).len(),
    ) + spec_message_entry_body::<KC, M>(k, v)
}

/// A whole message-valued map field as written.
pub open spec fn spec_message_field_bytes<KC: MapCodec, M: Message>(
    field_number: u32,
    s: Seq<(KC::Model, M)>,
) -> Seq<u8>
    decreases s.len(),
{
    if s.len() == 0 {
        Seq::empty()
    } else {
        spec_message_field_bytes::<KC, M>(field_number, s.drop_last()) + spec_message_record::<
            KC,
            M,
        >(field_number, s.last().0, s.last().1)
    }
}

/// The length of a whole message-valued map field.
pub open spec fn spec_message_field_len<KC: MapCodec, M: Message>(
    s: Seq<(KC::Model, M)>,
    outer_tag_len: nat,
) -> nat
    decreases s.len(),
{
    if s.len() == 0 {
        0
    } else {
        spec_message_field_len::<KC, M>(s.drop_last(), outer_tag_len) + spec_record_len(
            outer_tag_len,
            spec_message_entry_len::<KC, M>(s.last().0, s.last().1),
        )
    }
}

/// The sizes the sizing pass records for one entry: the message's own
/// length, then those of its nested messages.
pub open spec fn spec_entry_slots<M: Message>(v: M) -> Seq<u32> {
    seq![v.spec_encoding().len() as u32] + v.spec_size_slots()
}

/// The sizes the sizing pass records for a whole field, entry by entry.
pub open spec fn spec_message_slots<KC: MapValueDecode, M: Message>(s: Seq<(KC::Model, M)>) -> Seq<
    u32,
>
    decreases s.len(),
{
    if s.len() == 0 {
        Seq::empty()
    } else {
        spec_message_slots::<KC, M>(s.drop_last()) + spec_entry_slots(s.last().1)
    }
}

/// Every entry's payload length fits in `u32`.
pub open spec fn message_entries_fit<KC: MapCodec, M: Message>(s: Seq<(KC::Model, M)>) -> bool {
    forall|i: int|
        0 <= i < s.len() ==> #[trigger] spec_message_entry_len::<KC, M>(s[i].0, s[i].1)
            <= u32::MAX
}

pub proof fn lemma_message_entry_body_len<KC: MapCodec, M: Message>(k: KC::Model, v: M)
    ensures
        spec_message_entry_body::<KC, M>(k, v).len() == spec_message_entry_len::<KC, M>(k, v),
{
    crate::encoding::lemma_small_tag_len(key_tag::<KC>());
    crate::encoding::lemma_small_tag_len(message_value_tag());
}

proof fn lemma_message_field_len_step<KC: MapCodec, M: Message>(
    s: Seq<(KC::Model, M)>,
    i: int,
    outer_tag_len: nat,
)
    requires
        0 <= i < s.len(),
    ensures
        spec_message_field_len::<KC, M>(s.take(i + 1), outer_tag_len)
            == spec_message_field_len::<KC, M>(s.take(i), outer_tag_len) + spec_record_len(
            outer_tag_len,
            spec_message_entry_len::<KC, M>(s[i].0, s[i].1),
        ),
        spec_message_slots::<KC, M>(s.take(i + 1)) == spec_message_slots::<KC, M>(s.take(i))
            + spec_entry_slots(s[i].1),
{
    assert(s.take(i + 1).drop_last() =~= s.take(i));
}

proof fn lemma_message_take_mono<KC: MapCodec, M: Message>(
    s: Seq<(KC::Model, M)>,
    i: int,
    j: int,
    outer_tag_len: nat,
)
    requires
        0 <= i <= j <= s.len(),
    ensures
        spec_message_field_len::<KC, M>(s.take(i), outer_tag_len)
            <= spec_message_field_len::<KC, M>(s.take(j), outer_tag_len),
        spec_message_slots::<KC, M>(s.take(j)).len() >= spec_message_slots::<KC, M>(
            s.take(i),
        ).len(),
        spec_message_slots::<KC, M>(s.take(j)).subrange(
            0,
            spec_message_slots::<KC, M>(s.take(i)).len() as int,
        ) == spec_message_slots::<KC, M>(s.take(i)),
    decreases j - i,
{
    if i < j {
        lemma_message_take_mono::<KC, M>(s, i, j - 1, outer_tag_len);
        lemma_message_field_len_step::<KC, M>(s, j - 1, outer_tag_len);
        let a = spec_message_slots::<KC, M>(s.take(i));
        let b = spec_message_slots::<KC, M>(s.take(j - 1));
        let c = spec_message_slots::<KC, M>(s.take(j));
        assert(c.subrange(0, a.len() as int) =~= b.subrange(0, a.len() as int));
    } else {
        let a = spec_message_slots::<KC, M>(s.take(i));
        assert(a.subrange(0, a.len() as int) =~= a);
    }
}

/// Where entry `i`'s sizes sit among the field's sizes.
proof fn lemma_entry_slots_position<KC: MapCodec, M: Message>(s: Seq<(KC::Model, M)>, i: int)
    requires
        0 <= i < s.len(),
    ensures
        ({
            let before = spec_message_slots::<KC, M>(s.take(i)).len();
            let all = spec_message_slots::<KC, M>(s);
            &&& before + spec_entry_slots(s[i].1).len() <= all.len()
            &&& all.subrange(before as int, (before + spec_entry_slots(s[i].1).len()) as int)
                == spec_entry_slots(s[i].1)
        }),
{
    lemma_message_field_len_step::<KC, M>(s, i, 0);
    lemma_message_take_mono::<KC, M>(s, i + 1, s.len() as int, 0);
    assert(s.take(s.len() as int) =~= s);
    let before = spec_message_slots::<KC, M>(s.take(i));
    let next = spec_message_slots::<KC, M>(s.take(i + 1));
    let all = spec_message_slots::<KC, M>(s);
    assert(all.subrange(before.len() as int, next.len() as int) =~= next.subrange(
        before.len() as int,
        next.len() as int,
    ));
    assert(next.subrange(before.len() as int, next.len() as int) =~= spec_entry_slots(s[i].1));
}

/// Total encoded length of a message-valued map field.
///
/// Reserves one [`SizeCache`] slot per entry (in map iteration order);
/// [`write_message_field`] consumes the slots in the same order — both
/// helpers iterate the same map, so the orders match by construction.
pub fn message_field_len<KC: MapCodec, M: Message>(
    map: &ProtoMap<KC::Value, M>,
    outer_tag_len: u32,
    cache: &mut SizeCache,
) -> (size: u32) where KC::Value: MapKey
    requires
        spec_message_field_len::<KC, M>(
            message_map_model::<KC, M>(map.entries()),
            outer_tag_len as nat,
        ) <= u32::MAX,
        old(cache).slots().len() + spec_message_slots::<KC, M>(
            message_map_model::<KC, M>(map.entries()),
        ).len() < usize::MAX,
    ensures
        size == spec_message_field_len::<KC, M>(
            message_map_model::<KC, M>(map.entries()),
            outer_tag_len as nat,
        ),
        final(cache).slots() == old(cache).slots() + spec_message_slots::<KC, M>(
            message_map_model::<KC, M>(map.entries()),
        ),
        final(cache).cursor() == old(cache).cursor(),
{
    let ghost s = message_map_model::<KC, M>(map.entries());
    let ghost start = cache.slots();
    let mut size: u32 = 0;
    let mut i: usize = 0;
    assert(s.take(0) =~= Seq::<(KC::Model, M)>::empty());
    assert(start =~= start + Seq::<u32>::empty());
    assert(s.take(s.len() as int) =~= s);
    while i < map.len()
        invariant
            i <= s.len(),
            s == message_map_model::<KC, M>(map.entries()),
            size == spec_message_field_len::<KC, M>(s.take(i as int), outer_tag_len as nat),
            spec_message_field_len::<KC, M>(s, outer_tag_len as nat) <= u32::MAX,
            start.len() + spec_message_slots::<KC, M>(s).len() < usize::MAX,
            s.take(s.len() as int) == s,
            cache.slots() == start + spec_message_slots::<KC, M>(s.take(i as int)),
            cache.cursor() == old(cache).cursor(),
            start == old(cache).slots(),
        decreases s.len() - i,
    {
        let e = map.entry(i);
        let ghost km = KC::model(e.0);
        proof {
            assert(s[i as int] == (km, e.1));
            lemma_message_field_len_step::<KC, M>(s, i as int, outer_tag_len as nat);
            lemma_message_take_mono::<KC, M>(s, i + 1, s.len() as int, outer_tag_len as nat);
        }
        let slot = cache.reserve();
        let inner = e.1.compute_size(cache);
        cache.set(slot, inner);
        proof {
            assert(cache.slots() =~= start + spec_message_slots::<KC, M>(s.take(i + 1)));
            assert(spec_message_entry_len::<KC, M>(km, e.1) <= u32::MAX);
        }
        let entry = ENTRY_TAG_LEN + KC::encoded_len(&e.0) + varint_len(inner as u64) as u32 + inner;
        size = size + outer_tag_len + varint_len(entry as u64) as u32 + entry;
        i = i + 1;
    }
    size
}

/// Write a message-valued map field, consuming the [`SizeCache`] slots
/// reserved by [`message_field_len`].
pub fn write_message_field<KC: MapCodec, M: Message>(
    map: &ProtoMap<KC::Value, M>,
    field_number: u32,
    cache: &mut SizeCache,
    buf: &mut Vec<u8>,
) where KC::Value: MapKey
    requires
        message_entries_fit::<KC, M>(message_map_model::<KC, M>(map.entries())),
        holds_slots_at(
            old(cache).slots(),
            old(cache).cursor(),
            spec_message_slots::<KC, M>(message_map_model::<KC, M>(map.entries())),
        ),
    ensures
        final(buf)@ == old(buf)@ + spec_message_field_bytes::<KC, M>(
            field_number,
            message_map_model::<KC, M>(map.entries()),
        ),
        final(cache).slots() == old(cache).slots(),
        final(cache).cursor() == old(cache).cursor() + spec_message_slots::<KC, M>(
            message_map_model::<KC, M>(map.entries()),
        ).len(),
{
    let ghost s = message_map_model::<KC, M>(map.entries());
    let ghost start = buf@;
    let ghost c0 = cache.cursor();
    let mut i: usize = 0;
    assert(s.take(0) =~= Seq::<(KC::Model, M)>::empty());
    assert(start =~= start + Seq::<u8>::empty());
    while i < map.len()
        invariant
            i <= s.len(),
            s == message_map_model::<KC, M>(map.entries()),
            message_entries_fit::<KC, M>(s),
            holds_slots_at(cache.slots(), c0, spec_message_slots::<KC, M>(s)),
            cache.slots() == old(cache).slots(),
            c0 == old(cache).cursor(),
            cache.cursor() == c0 + spec_message_slots::<KC, M>(s.take(i as int)).len(),
            buf@ == start + spec_message_field_bytes::<KC, M>(field_number, s.take(i as int)),
        decreases s.len() - i,
    {
        let e = map.entry(i);
        let ghost km = KC::model(e.0);
        let ghost slots = cache.slots();
        proof {
            assert(s[i as int] == (km, e.1));
            lemma_entry_slots_position::<KC, M>(s, i as int);
            lemma_message_field_len_step::<KC, M>(s, i as int, 0);
            lemma_message_entry_body_len::<KC, M>(km, e.1);
            let before: int = spec_message_slots::<KC, M>(s.take(i as int)).len() as int;
            let chunk = spec_entry_slots(e.1);
            let all = spec_message_slots::<KC, M>(s);
            let c: int = c0 as int;
            let cl: int = chunk.len() as int;
            assert(slots.subrange(c, c + all.len()) == all);
            assert(slots.subrange(c + before, c + before + cl) =~= all.subrange(
                before,
                before + cl,
            ));
            assert(slots[c + before] == chunk[0]);
            assert(chunk.subrange(1, cl) =~= e.1.spec_size_slots());
            assert(slots.subrange(c + before, c + before + cl).subrange(1, cl) =~= slots.subrange(
                c + before + 1,
                c + before + cl,
            ));
            assert(slots.subrange(c + before + 1, c + before + cl) =~= e.1.spec_size_slots());
        }
        let inner = cache.consume_next();
        let entry = ENTRY_TAG_LEN + KC::encoded_len(&e.0) + varint_len(inner as u64) as u32 + inner;
        let ghost before_buf = buf@;
        Tag::new(field_number, WireType::LengthDelimited).encode(buf);
        encode_varint(entry as u64, buf);
        Tag::new(1, KC::wire_type()).encode(buf);
        KC::encode(&e.0, buf);
        Tag::new(2, WireType::LengthDelimited).encode(buf);
        encode_varint(inner as u64, buf);
        e.1.write_to(cache, buf);
        proof {
            assert(s.take(i + 1).drop_last() =~= s.take(i as int));
            assert(buf@ =~= before_buf + spec_message_record::<KC, M>(field_number, km, e.1));
        }
        i = i + 1;
    }
    assert(s.take(s.len() as int) =~= s);
}

// ── Decoding one entry ──────────────────────────────────────────────────

/// Merging one field of an entry from the front of `input` into key and
/// value models `k` and `v`: field 1 merges into the key, field 2 into the
/// value (each with its codec's wire type), any other field is skipped.
/// Gives the new models and the number of bytes read.
pub open spec fn spec_entry_field<KC: MapValueDecode, VC: MapValueDecode>(
    input: Seq<u8>,
    k: KC::Model,
    v: VC::Model,
    depth: u32,
) -> Result<(KC::Model, VC::Model, nat), DecodeError> {
    match spec_decode_tag(input) {
        Err(e) => Err(e),
        Ok((t, n1)) => {
            let rest = input.skip(n1 as int);
            if t.field_number == 1 {
                if t.wire_type != KC::spec_wire_type() {
                    Err(DecodeError::WireTypeMismatch { expected: KC::spec_wire_type(), actual: t.wire_type })
                } else {
                    match KC::spec_merge(k, rest, depth) {
                        Ok((k2, n2)) => Ok((k2, v, n1 + n2)),
                        Err(e) => Err(e),
                    }
                }
            } else if t.field_number == 2 {
                if t.wire_type != VC::spec_wire_type() {
                    Err(DecodeError::WireTypeMismatch { expected: VC::spec_wire_type(), actual: t.wire_type })
                } else {
                    match VC::spec_merge(v, rest, depth) {
                        Ok((v2, n2)) => Ok((k, v2, n1 + n2)),
                        Err(e) => Err(e),
                    }
                }
            } else {
                match spec_skip_field(t, rest, depth) {
                    Ok(n2) => Ok((k, v, n1 + n2)),
                    Err(e) => Err(e),
                }
            }
        },
    }
}

/// Merging the fields of an entry from the front of `input` until no more
/// than `limit` bytes are left: repeated fields last-win (scalars) or merge
/// (messages).
pub open spec fn spec_entry_fields<KC: MapValueDecode, VC: MapValueDecode>(
    input: Seq<u8>,
    limit: nat,
    k: KC::Model,
    v: VC::Model,
    depth: u32,
) -> Result<(KC::Model, VC::Model, nat), DecodeError>
    decreases input.len(),
{
    if input.len() <= limit {
        Ok((k, v, 0nat))
    } else {
        match spec_entry_field::<KC, VC>(input, k, v, depth) {
            Err(e) => Err(e),
            Ok((k2, v2, n)) => if n == 0 || n > input.len() {
                Err(DecodeError::UnexpectedEof)
            } else {
                match spec_entry_fields::<KC, VC>(input.skip(n as int), limit, k2, v2, depth) {
                    Ok((k3, v3, m)) => Ok((k3, v3, n + m)),
                    Err(e) => Err(e),
                }
            },
        }
    }
}

/// The length prefix of an entry: its value and the bytes it takes, or
/// why it is refused (it does not fit in `usize`, or announces more bytes
/// than follow).
pub open spec fn spec_entry_header(input: Seq<u8>) -> Result<(u64, nat), DecodeError> {
    match spec_decode_varint(input) {
        Err(e) => Err(e),
        Ok((len, n0)) => if len > usize::MAX {
            Err(DecodeError::MessageTooLarge)
        } else if n0 > input.len() || len > input.len() - n0 {
            Err(DecodeError::UnexpectedEof)
        } else {
            Ok((len, n0))
        },
    }
}

/// Decoding one length-prefixed entry that starts from key and value
/// models `k0` and `v0`: the key and value models and the bytes read.
///
/// The fields must end exactly where the length prefix says; a field that
/// runs past it is an unexpected end of input.
pub open spec fn spec_merge_entry<KC: MapValueDecode, VC: MapValueDecode>(
    input: Seq<u8>,
    k0: KC::Model,
    v0: VC::Model,
    depth: u32,
) -> Result<(KC::Model, VC::Model, nat), DecodeError> {
    match spec_decode_varint(input) {
        Err(e) => Err(e),
        Ok((len, n0)) => if len > usize::MAX {
            Err(DecodeError::MessageTooLarge)
        } else if n0 > input.len() || len > input.len() - n0 {
            Err(DecodeError::UnexpectedEof)
        } else {
            let body = input.skip(n0 as int);
            match spec_entry_fields::<KC, VC>(body, (body.len() - len) as nat, k0, v0, depth) {
                Err(e) => Err(e),
                Ok((k, v, n)) => if n != len {
                    Err(DecodeError::UnexpectedEof)
                } else {
                    Ok((k, v, n0 + n))
                },
            }
        },
    }
}

/// What `merge_entry` does, given the models its default key and value
/// start from.
pub open spec fn merge_entry_outcome<KC: MapValueDecode, VC: MapValueDecode>(
    old_map: Seq<(KC::Value, VC::Value)>,
    new_map: Seq<(KC::Value, VC::Value)>,
    input: Seq<u8>,
    rest: Seq<u8>,
    r: Result<(), DecodeError>,
    k0: KC::Model,
    v0: VC::Model,
    depth: u32,
) -> bool where KC::Value: MapKey {
    match spec_merge_entry::<KC, VC>(input, k0, v0, depth) {
        Ok((k, v, n)) => {
            &&& r is Ok
            &&& n <= input.len()
            &&& rest == input.skip(n as int)
            &&& exists|key: KC::Value, val: VC::Value|
                #![trigger spec_insert(old_map, key, val)]
                KC::model(key) == k && VC::model(val) == v && new_map == spec_insert(
                    old_map,
                    key,
                    val,
                )
        },
        Err(e) => {
            &&& r == Err::<(), DecodeError>(e)
            &&& new_map == old_map
            &&& is_suffix_of(rest, input)
        },
    }
}

/// Merge one field of an entry: the key, the value, or a skipped field.
fn merge_entry_field<KC: MapValueDecode, VC: MapValueDecode>(
    key: &mut KC::Value,
    val: &mut VC::Value,
    buf: &mut &[u8],
    depth: u32,
) -> (r: Result<(), DecodeError>)
    ensures
        match spec_entry_field::<KC, VC>(
            old(buf)@,
            KC::model(*old(key)),
            VC::model(*old(val)),
            depth,
        ) {
            Ok((k, v, n)) => r is Ok && KC::model(*final(key)) == k && VC::model(*final(val)) == v
                && 1 <= n <= old(buf)@.len() && final(buf)@ == old(buf)@.skip(n as int),
            Err(e) => r == Err::<(), DecodeError>(e) && is_suffix_of(final(buf)@, old(buf)@),
        },
{
    let ghost cur = buf@;
    proof {
        lemma_decode_varint_consumed(cur);
        lemma_suffix_of_self(cur);
    }
    let entry_tag = match Tag::decode(buf) {
        Ok(t) => t,
        Err(e) => return Err(e),
    };
    let ghost mid = buf@;
    assert(mid =~= cur.skip(cur.len() - mid.len()));
    proof {
        lemma_suffix_of_self(mid);
    }
    let step: Result<(), DecodeError> = match entry_tag.field_number() {
        1 => match check_wire_type(entry_tag, KC::wire_type()) {
            Ok(()) => KC::merge(key, buf, depth),
            Err(e) => Err(e),
        },
        2 => match check_wire_type(entry_tag, VC::wire_type()) {
            Ok(()) => VC::merge(val, buf, depth),
            Err(e) => Err(e),
        },
        _ => skip_field_depth(entry_tag, buf, depth),
    };
    match step {
        Ok(()) => {
            assert(buf@ =~= cur.skip(cur.len() - buf@.len()));
            Ok(())
        },
        Err(e) => {
            proof {
                lemma_suffix_of_trans(buf@, mid, cur);
            }
            Err(e)
        },
    }
}

/// Decode one length-prefixed map entry from `buf` and insert it.
///
/// Implements proto map-entry semantics: missing key/value fields take
/// their type defaults, repeated occurrences within one entry last-win,
/// unknown entry fields are skipped, and a short or over-long entry payload
/// is corrected against the length prefix.
///
/// # Errors
///
/// Returns a [`DecodeError`] on malformed lengths, payloads, or wire-type
/// mismatches inside the entry.
pub fn merge_entry<KC: MapValueDecode, VC: MapValueDecode>(
    map: &mut ProtoMap<KC::Value, VC::Value>,
    buf: &mut &[u8],
    depth: u32,
) -> (r: Result<(), DecodeError>) where KC::Value: MapKey
    ensures
        match spec_entry_header(old(buf)@) {
            Err(e) => r == Err::<(), DecodeError>(e) && final(map).entries() == old(map).entries()
                && is_suffix_of(final(buf)@, old(buf)@),
            Ok(_) => exists|k0: KC::Model, v0: VC::Model|
                #![trigger KC::spec_is_default(k0), VC::spec_is_default(v0)]
                KC::spec_is_default(k0) && VC::spec_is_default(v0) && merge_entry_outcome::<KC, VC>(
                    old(map).entries(),
                    final(map).entries(),
                    old(buf)@,
                    final(buf)@,
                    r,
                    k0,
                    v0,
                    depth,
                ),
        },
{
    let ghost input = buf@;
    proof {
        lemma_decode_varint_consumed(input);
        lemma_suffix_of_self(input);
    }
    let entry_len = match decode_varint(buf) {
        Ok(l) => l,
        Err(e) => {
            assert(spec_entry_header(input) == Err::<(u64, nat), DecodeError>(e));
            return Err(e);
        },
    };
    if entry_len > usize::MAX as u64 {
        proof {
            assert(input.skip(input.len() - buf@.len()) =~= buf@);
            assert(spec_entry_header(input) == Err::<(u64, nat), DecodeError>(
                DecodeError::MessageTooLarge,
            ));
        }
        return Err(DecodeError::MessageTooLarge);
    }
    let entry_len = entry_len as usize;
    let ghost body = buf@;
    assert(body =~= input.skip(input.len() - body.len()));
    if buf.len() < entry_len {
        assert(spec_entry_header(input) == Err::<(u64, nat), DecodeError>(
            DecodeError::UnexpectedEof,
        ));
        assert(input.skip(input.len() - buf@.len()) =~= buf@);
        return Err(DecodeError::UnexpectedEof);
    }
    assert(spec_entry_header(input) is Ok);
    let entry_limit = buf.len() - entry_len;
    let mut key: KC::Value = KC::default_value();
    let mut val: VC::Value = VC::default_value();
    let ghost k0 = KC::model(key);
    let ghost v0 = VC::model(val);
    assert(body.skip(0) =~= body);
    while buf.len() > entry_limit
        invariant
            input == old(buf)@,
            *map == *old(map),
            is_suffix_of(body, input),
            is_suffix_of(buf@, body),
            spec_decode_varint(input) == Ok::<(u64, nat), DecodeError>(
                (entry_len as u64, (input.len() - body.len()) as nat),
            ),
            entry_len <= usize::MAX,
            entry_limit == body.len() - entry_len,
            KC::spec_is_default(k0),
            VC::spec_is_default(v0),
            spec_entry_fields::<KC, VC>(body, entry_limit as nat, k0, v0, depth) == match spec_entry_fields::<KC, VC>(
                buf@,
                entry_limit as nat,
                KC::model(key),
                VC::model(val),
                depth,
            ) {
                Ok((k, v, n)) => Ok((k, v, (n + (body.len() - buf@.len())) as nat)),
                Err(e) => Err(e),
            },
        decreases buf@.len(),
    {
        let ghost cur = buf@;
        let ghost km = KC::model(key);
        let ghost vm = VC::model(val);
        proof {
            lemma_decode_varint_consumed(cur);
        }
        let step = merge_entry_field::<KC, VC>(&mut key, &mut val, buf, depth);
        match step {
            Ok(()) => {},
            Err(e) => {
                proof {
                    assert(spec_entry_fields::<KC, VC>(cur, entry_limit as nat, km, vm, depth) == Err::<
                        (KC::Model, VC::Model, nat),
                        DecodeError,
                    >(e));
                    lemma_suffix_of_trans(buf@, cur, body);
                    lemma_suffix_of_trans(buf@, body, input);
                    assert(merge_entry_outcome::<KC, VC>(
                        old(map).entries(),
                        map.entries(),
                        input,
                        buf@,
                        Err(e),
                        k0,
                        v0,
                        depth,
                    ));
                }
                return Err(e);
            },
        }
        proof {
            assert(body.skip(body.len() - buf@.len()) =~= buf@);
        }
    }
    assert(input.skip(input.len() - buf@.len()) =~= buf@);
    assert(spec_entry_fields::<KC, VC>(buf@, entry_limit as nat, KC::model(key), VC::model(val), depth)
        == Ok::<(KC::Model, VC::Model, nat), DecodeError>((KC::model(key), VC::model(val), 0nat)));
    // Correct the buffer position if the entry was not fully consumed.
    if buf.len() != entry_limit {
        let remaining = buf.len();
        if remaining > entry_limit {
            advance(buf, remaining - entry_limit);
        } else {
            assert(merge_entry_outcome::<KC, VC>(
                old(map).entries(),
                map.entries(),
                input,
                buf@,
                Err(DecodeError::UnexpectedEof),
                k0,
                v0,
                depth,
            ));
            return Err(DecodeError::UnexpectedEof);
        }
    }
    let ghost km = KC::model(key);
    let ghost vm = VC::model(val);
    let ghost old_entries = map.entries();
    map.insert(key, val);
    proof {
        assert(KC::model(key) == km && VC::model(val) == vm && map.entries() == spec_insert(
            old_entries,
            key,
            val,
        ));
        assert(merge_entry_outcome::<KC, VC>(
            old(map).entries(),
            map.entries(),
            input,
            buf@,
            Ok(()),
            k0,
            v0,
            depth,
        ));
    }
    Ok(())
}

// ── Laws ────────────────────────────────────────────────────────────────

/// The length `field_len` computes, with the field's real outer tag length,
/// is the number of bytes `write_field` writes.
pub proof fn lemma_field_len_matches_written<KC: MapCodec, VC: MapCodec>(
    field_number: u32,
    s: Seq<(KC::Model, VC::Model)>,
)
    ensures
        spec_field_len::<KC, VC>(s, spec_tag_bytes(record_tag(field_number)).len())
            == spec_field_bytes::<KC, VC>(field_number, s).len(),
    decreases s.len(),
{
    if s.len() > 0 {
        lemma_field_len_matches_written::<KC, VC>(field_number, s.drop_last());
        lemma_entry_body_len::<KC, VC>(s.last().0, s.last().1);
    }
}

/// The length `message_field_len` computes, with the field's real outer tag
/// length, is the number of bytes `write_message_field` writes.
pub proof fn lemma_message_field_len_matches_written<KC: MapCodec, M: Message>(
    field_number: u32,
    s: Seq<(KC::Model, M)>,
)
    ensures
        spec_message_field_len::<KC, M>(s, spec_tag_bytes(record_tag(field_number)).len())
            == spec_message_field_bytes::<KC, M>(field_number, s).len(),
    decreases s.len(),
{
    if s.len() > 0 {
        lemma_message_field_len_matches_written::<KC, M>(field_number, s.drop_last());
        lemma_message_entry_body_len::<KC, M>(s.last().0, s.last().1);
    }
}

/// The sizes a sizing pass appends to a cache are exactly what a writing
/// pass that starts where they start reads back, in order: the two passes
/// agree on every entry's slots.
pub proof fn lemma_two_pass_slots<KC: MapCodec, M: Message>(
    before: Seq<u32>,
    s: Seq<(KC::Model, M)>,
)
    ensures
        holds_slots_at(before + spec_message_slots::<KC, M>(s), before.len(), spec_message_slots::<KC, M>(s)),
{
    let all = before + spec_message_slots::<KC, M>(s);
    assert(all.subrange(
        before.len() as int,
        (before.len() + spec_message_slots::<KC, M>(s).len()) as int,
    ) =~= spec_message_slots::<KC, M>(s));
}

/// An entry with an empty payload takes the default key and value.
pub proof fn lemma_empty_entry_takes_defaults<KC: MapValueDecode, VC: MapValueDecode>(
    k0: KC::Model,
    v0: VC::Model,
    rest: Seq<u8>,
    depth: u32,
)
    ensures
        spec_merge_entry::<KC, VC>(seq![0u8] + rest, k0, v0, depth) == Ok::<
            (KC::Model, VC::Model, nat),
            DecodeError,
        >((k0, v0, 1nat)),
{
    crate::encoding::lemma_varint_round_trip(0, rest);
    assert(spec_varint(0) =~= seq![0u8]);
}

proof fn lemma_key_field<KC: MapCodec, VC: MapValueDecode>(
    k: KC::Model,
    k0: KC::Model,
    v0: VC::Model,
    after: Seq<u8>,
    depth: u32,
)
    requires
        KC::spec_canonical(k),
    ensures
        spec_entry_field::<KC, VC>(
            spec_tag_bytes(key_tag::<KC>()) + KC::spec_encode(k) + after,
            k0,
            v0,
            depth,
        ) == Ok::<(KC::Model, VC::Model, nat), DecodeError>(
            (k, v0, spec_tag_bytes(key_tag::<KC>()).len() + KC::spec_encode(k).len()),
        ),
{
    let t1 = spec_tag_bytes(key_tag::<KC>());
    let ek = KC::spec_encode(k);
    crate::encoding::lemma_tag_round_trip(key_tag::<KC>(), ek + after);
    assert(t1 + ek + after =~= t1 + (ek + after));
    assert((t1 + (ek + after)).skip(t1.len() as int) =~= ek + after);
    KC::lemma_round_trip(k0, k, after, depth);
}

proof fn lemma_value_field<KC: MapCodec, VC: MapCodec>(
    v: VC::Model,
    k: KC::Model,
    v0: VC::Model,
    after: Seq<u8>,
    depth: u32,
)
    requires
        VC::spec_canonical(v),
    ensures
        spec_entry_field::<KC, VC>(
            spec_tag_bytes(value_tag::<VC>()) + VC::spec_encode(v) + after,
            k,
            v0,
            depth,
        ) == Ok::<(KC::Model, VC::Model, nat), DecodeError>(
            (k, v, spec_tag_bytes(value_tag::<VC>()).len() + VC::spec_encode(v).len()),
        ),
{
    let t2 = spec_tag_bytes(value_tag::<VC>());
    let ev = VC::spec_encode(v);
    crate::encoding::lemma_tag_round_trip(value_tag::<VC>(), ev + after);
    assert(t2 + ev + after =~= t2 + (ev + after));
    assert((t2 + (ev + after)).skip(t2.len() as int) =~= ev + after);
    VC::lemma_round_trip(v0, v, after, depth);
}

/// The fields of a written entry body, followed by anything, merge into its
/// key and value.
proof fn lemma_entry_fields_round_trip<KC: MapCodec, VC: MapCodec>(
    k: KC::Model,
    v: VC::Model,
    k0: KC::Model,
    v0: VC::Model,
    rest: Seq<u8>,
    depth: u32,
)
    requires
        KC::spec_canonical(k),
        VC::spec_canonical(v),
    ensures
        spec_entry_fields::<KC, VC>(
            spec_entry_body::<KC, VC>(k, v) + rest,
            rest.len(),
            k0,
            v0,
            depth,
        ) == Ok::<(KC::Model, VC::Model, nat), DecodeError>(
            (k, v, spec_entry_body::<KC, VC>(k, v).len()),
        ),
{
    let t1 = spec_tag_bytes(key_tag::<KC>());
    let t2 = spec_tag_bytes(value_tag::<VC>());
    let ek = KC::spec_encode(k);
    let ev = VC::spec_encode(v);
    let inner = spec_entry_body::<KC, VC>(k, v) + rest;
    let after_key = t2 + ev + rest;
    crate::encoding::lemma_small_tag_len(key_tag::<KC>());
    crate::encoding::lemma_small_tag_len(value_tag::<VC>());
    assert(inner =~= t1 + ek + after_key);
    lemma_key_field::<KC, VC>(k, k0, v0, after_key, depth);
    assert(inner.skip((t1.len() + ek.len()) as int) =~= after_key);
    lemma_value_field::<KC, VC>(v, k, v0, rest, depth);
    assert(after_key.skip((t2.len() + ev.len()) as int) =~= rest);
    assert(spec_entry_fields::<KC, VC>(rest, rest.len(), k, v, depth) == Ok::<
        (KC::Model, VC::Model, nat),
        DecodeError,
    >((k, v, 0nat)));
    assert(spec_entry_fields::<KC, VC>(after_key, rest.len(), k, v0, depth) == Ok::<
        (KC::Model, VC::Model, nat),
        DecodeError,
    >((k, v, t2.len() + ev.len())));
}

/// Decoding a written entry gives back its key and value and reads exactly
/// the entry, whatever defaults it starts from and whatever follows.
pub proof fn lemma_entry_round_trip<KC: MapCodec, VC: MapCodec>(
    k: KC::Model,
    v: VC::Model,
    k0: KC::Model,
    v0: VC::Model,
    rest: Seq<u8>,
    depth: u32,
)
    requires
        KC::spec_canonical(k),
        VC::spec_canonical(v),
        spec_entry_body::<KC, VC>(k, v).len() <= usize::MAX,
    ensures
        spec_merge_entry::<KC, VC>(
            spec_varint(spec_entry_body::<KC, VC>(k, v).len()) + spec_entry_body::<KC, VC>(k, v)
                + rest,
            k0,
            v0,
            depth,
        ) == Ok::<(KC::Model, VC::Model, nat), DecodeError>(
            (
                k,
                v,
                spec_varint(spec_entry_body::<KC, VC>(k, v).len()).len()
                    + spec_entry_body::<KC, VC>(k, v).len(),
            ),
        ),
{
    let body = spec_entry_body::<KC, VC>(k, v);
    let len = body.len();
    let prefix = spec_varint(len);
    let input = prefix + body + rest;
    crate::encoding::lemma_varint_round_trip(len as u64, body + rest);
    assert(input =~= prefix + (body + rest));
    assert(input.skip(prefix.len() as int) =~= body + rest);
    lemma_entry_fields_round_trip::<KC, VC>(k, v, k0, v0, rest, depth);
}

/// Inserting by model: an entry with an equal key takes the new value in
/// place; otherwise the entry is appended.
pub open spec fn spec_model_insert<A, B>(s: Seq<(A, B)>, k: A, v: B) -> Seq<(A, B)> {
    if exists|i: int| 0 <= i < s.len() && #[trigger] s[i].0 == k {
        let i = choose|i: int| 0 <= i < s.len() && #[trigger] s[i].0 == k;
        s.update(i, (k, v))
    } else {
        s.push((k, v))
    }
}

/// No two entries share a key model.
pub open spec fn model_keys_distinct<A, B>(s: Seq<(A, B)>) -> bool {
    forall|i: int, j: int|
        0 <= i < s.len() && 0 <= j < s.len() && i != j ==> #[trigger] s[i].0 != #[trigger] s[j].0
}

/// Decoding a stream of map-field records into `acc`: each record is a
/// length-delimited tag followed by an entry, which is inserted by model.
pub open spec fn spec_decode_field<KC: MapValueDecode, VC: MapValueDecode>(
    input: Seq<u8>,
    acc: Seq<(KC::Model, VC::Model)>,
    k0: KC::Model,
    v0: VC::Model,
    depth: u32,
) -> Result<Seq<(KC::Model, VC::Model)>, DecodeError>
    decreases input.len(),
{
    if input.len() == 0 {
        Ok(acc)
    } else {
        match spec_decode_tag(input) {
            Err(e) => Err(e),
            Ok((t, n1)) => if n1 == 0 || n1 > input.len() {
                Err(DecodeError::UnexpectedEof)
            } else if t.wire_type != WireType::LengthDelimited {
                Err(
                    DecodeError::WireTypeMismatch {
                        expected: WireType::LengthDelimited,
                        actual: t.wire_type,
                    },
                )
            } else {
                match spec_merge_entry::<KC, VC>(input.skip(n1 as int), k0, v0, depth) {
                    Err(e) => Err(e),
                    Ok((k, v, n2)) => if n1 + n2 > input.len() {
                        Err(DecodeError::UnexpectedEof)
                    } else {
                        spec_decode_field::<KC, VC>(
                            input.skip((n1 + n2) as int),
                            spec_model_insert(acc, k, v),
                            k0,
                            v0,
                            depth,
                        )
                    },
                }
            },
        }
    }
}

/// The records of entries `i..` of a field.
pub open spec fn spec_records_from<KC: MapCodec, VC: MapCodec>(
    field_number: u32,
    s: Seq<(KC::Model, VC::Model)>,
    i: int,
) -> Seq<u8>
    decreases s.len() - i,
{
    if i < 0 || i >= s.len() {
        Seq::empty()
    } else {
        spec_record::<KC, VC>(field_number, s[i].0, s[i].1) + spec_records_from::<KC, VC>(
            field_number,
            s,
            i + 1,
        )
    }
}

proof fn lemma_field_bytes_split<KC: MapCodec, VC: MapCodec>(
    field_number: u32,
    s: Seq<(KC::Model, VC::Model)>,
    j: int,
)
    requires
        0 <= j <= s.len(),
    ensures
        spec_field_bytes::<KC, VC>(field_number, s.take(j)) + spec_records_from::<KC, VC>(
            field_number,
            s,
            j,
        ) == spec_field_bytes::<KC, VC>(field_number, s),
    decreases s.len() - j,
{
    if j == s.len() {
        assert(s.take(j) =~= s);
        assert(spec_field_bytes::<KC, VC>(field_number, s) + Seq::<u8>::empty()
            =~= spec_field_bytes::<KC, VC>(field_number, s));
    } else {
        lemma_field_bytes_split::<KC, VC>(field_number, s, j + 1);
        assert(s.take(j + 1).drop_last() =~= s.take(j));
        let a = spec_field_bytes::<KC, VC>(field_number, s.take(j));
        let r = spec_record::<KC, VC>(field_number, s[j].0, s[j].1);
        let rest = spec_records_from::<KC, VC>(field_number, s, j + 1);
        assert(a + (r + rest) =~= (a + r) + rest);
    }
}

/// All entries survive a round trip and fit a length prefix.
pub open spec fn entries_round_trip<KC: MapCodec, VC: MapCodec>(s: Seq<(KC::Model, VC::Model)>) -> bool {
    forall|i: int|
        0 <= i < s.len() ==> KC::spec_canonical(#[trigger] s[i].0) && VC::spec_canonical(s[i].1)
            && spec_entry_body::<KC, VC>(s[i].0, s[i].1).len() <= usize::MAX
}

/// Decoding one written record inserts its entry and moves on to what
/// follows it.
proof fn lemma_decode_record_step<KC: MapCodec, VC: MapCodec>(
    field_number: u32,
    k: KC::Model,
    v: VC::Model,
    rest: Seq<u8>,
    acc: Seq<(KC::Model, VC::Model)>,
    k0: KC::Model,
    v0: VC::Model,
    depth: u32,
)
    requires
        crate::encoding::valid_field_number(field_number),
        KC::spec_canonical(k),
        VC::spec_canonical(v),
        spec_entry_body::<KC, VC>(k, v).len() <= usize::MAX,
    ensures
        spec_decode_field::<KC, VC>(
            spec_record::<KC, VC>(field_number, k, v) + rest,
            acc,
            k0,
            v0,
            depth,
        ) == spec_decode_field::<KC, VC>(rest, spec_model_insert(acc, k, v), k0, v0, depth),
{
    let tag = spec_tag_bytes(record_tag(field_number));
    let body = spec_entry_body::<KC, VC>(k, v);
    let prefix = spec_varint(body.len());
    let input = spec_record::<KC, VC>(field_number, k, v) + rest;
    assert(input =~= tag + (prefix + body + rest));
    crate::encoding::lemma_tag_round_trip(record_tag(field_number), prefix + body + rest);
    assert(tag.len() >= 1) by {
        crate::encoding::lemma_varint_len_u64(
            crate::encoding::spec_tag_key(record_tag(field_number)) as u64,
        );
    }
    assert(input.skip(tag.len() as int) =~= prefix + body + rest);
    lemma_entry_round_trip::<KC, VC>(k, v, k0, v0, rest, depth);
    assert(input.skip((tag.len() + prefix.len() + body.len()) as int) =~= rest);
}

proof fn lemma_decode_records<KC: MapCodec, VC: MapCodec>(
    field_number: u32,
    s: Seq<(KC::Model, VC::Model)>,
    i: int,
    k0: KC::Model,
    v0: VC::Model,
    depth: u32,
)
    requires
        0 <= i <= s.len(),
        crate::encoding::valid_field_number(field_number),
        model_keys_distinct(s),
        entries_round_trip::<KC, VC>(s),
    ensures
        spec_decode_field::<KC, VC>(
            spec_records_from::<KC, VC>(field_number, s, i),
            s.take(i),
            k0,
            v0,
            depth,
        ) == Ok::<Seq<(KC::Model, VC::Model)>, DecodeError>(s),
    decreases s.len() - i,
{
    if i == s.len() {
        assert(s.take(i) =~= s);
    } else {
        lemma_decode_records::<KC, VC>(field_number, s, i + 1, k0, v0, depth);
        let k = s[i].0;
        let v = s[i].1;
        assert(KC::spec_canonical(s[i].0));
        let rest = spec_records_from::<KC, VC>(field_number, s, i + 1);
        let acc = s.take(i);
        lemma_decode_record_step::<KC, VC>(field_number, k, v, rest, acc, k0, v0, depth);
        assert(!(exists|j: int| 0 <= j < acc.len() && #[trigger] acc[j].0 == k)) by {
            if exists|j: int| 0 <= j < acc.len() && #[trigger] acc[j].0 == k {
                let j = choose|j: int| 0 <= j < acc.len() && #[trigger] acc[j].0 == k;
                assert(s[j].0 == s[i].0);
            }
        }
        assert(spec_model_insert(acc, k, v) =~= s.take(i + 1));
    }
}

/// Decoding what `write_field` writes for a map gives the map back: the
/// same entries, in the same order, whatever defaults decoding starts from.
pub proof fn lemma_field_round_trip<KC: MapCodec, VC: MapCodec>(
    field_number: u32,
    s: Seq<(KC::Model, VC::Model)>,
    k0: KC::Model,
    v0: VC::Model,
    depth: u32,
)
    requires
        crate::encoding::valid_field_number(field_number),
        model_keys_distinct(s),
        entries_round_trip::<KC, VC>(s),
    ensures
        spec_decode_field::<KC, VC>(
            spec_field_bytes::<KC, VC>(field_number, s),
            Seq::empty(),
            k0,
            v0,
            depth,
        ) == Ok::<Seq<(KC::Model, VC::Model)>, DecodeError>(s),
{
    lemma_field_bytes_split::<KC, VC>(field_number, s, 0);
    assert(s.take(0) =~= Seq::<(KC::Model, VC::Model)>::empty());
    assert(spec_field_bytes::<KC, VC>(field_number, s.take(0)) =~= Seq::<u8>::empty());
    assert(Seq::<u8>::empty() + spec_records_from::<KC, VC>(field_number, s, 0)
        =~= spec_records_from::<KC, VC>(field_number, s, 0));
    lemma_decode_records::<KC, VC>(field_number, s, 0, k0, v0, depth);
}

// ── Round trip of message-valued maps ───────────────────────────────────

/// Merging the encoding of `m` into `d`, whatever follows it, reads exactly
/// the encoding and gives `m`: what `write_to` writes, `merge_field` reads
/// back.
pub open spec fn message_round_trips<M: Message>(m: M, d: M, depth: u32) -> bool {
    forall|after: Seq<u8>|
        #[trigger] spec_merge_fields(d, m.spec_encoding() + after, after.len(), depth) == Ok::<
            (M, nat),
            DecodeError,
        >((m, m.spec_encoding().len()))
}

/// Every entry of a message-valued map survives a round trip from `d` and
/// fits a length prefix.
pub open spec fn message_entries_round_trip<KC: MapCodec, M: Message>(
    s: Seq<(KC::Model, M)>,
    d: M,
    depth: u32,
) -> bool {
    forall|i: int|
        0 <= i < s.len() ==> {
            &&& KC::spec_canonical(#[trigger] s[i].0)
            &&& message_round_trips(s[i].1, d, depth)
            &&& spec_message_entry_body::<KC, M>(s[i].0, s[i].1).len() <= usize::MAX
        }
}

/// A length-prefixed message body merges back into the message.
proof fn lemma_length_delimited_round_trip<M: Message>(m: M, d: M, after: Seq<u8>, depth: u32)
    requires
        depth > 0,
        message_round_trips(m, d, (depth - 1) as u32),
        m.spec_encoding().len() <= u64::MAX,
    ensures
        spec_merge_length_delimited(
            d,
            spec_varint(m.spec_encoding().len()) + m.spec_encoding() + after,
            depth,
        ) == Ok::<(M, nat), DecodeError>(
            (m, spec_varint(m.spec_encoding().len()).len() + m.spec_encoding().len()),
        ),
{
    let e = m.spec_encoding();
    let pv = spec_varint(e.len());
    let input = pv + e + after;
    crate::encoding::lemma_varint_round_trip(e.len() as u64, e + after);
    assert(input =~= pv + (e + after));
    assert(input.skip(pv.len() as int) =~= e + after);
    assert(spec_merge_fields(d, e + after, after.len(), (depth - 1) as u32) == Ok::<
        (M, nat),
        DecodeError,
    >((m, e.len())));
}

proof fn lemma_message_value_field<KC: MapValueDecode, M: Message + Default>(
    v: M,
    k: KC::Model,
    v0: M,
    after: Seq<u8>,
    depth: u32,
)
    requires
        depth > 0,
        message_round_trips(v, v0, (depth - 1) as u32),
        v.spec_encoding().len() <= u64::MAX,
    ensures
        spec_entry_field::<KC, Msg<M>>(
            spec_tag_bytes(message_value_tag()) + spec_varint(v.spec_encoding().len())
                + v.spec_encoding() + after,
            k,
            v0,
            depth,
        ) == Ok::<(KC::Model, M, nat), DecodeError>(
            (
                k,
                v,
                spec_tag_bytes(message_value_tag()).len() + spec_varint(
                    v.spec_encoding().len(),
                ).len() + v.spec_encoding().len(),
            ),
        ),
{
    let t2 = spec_tag_bytes(message_value_tag());
    let pv = spec_varint(v.spec_encoding().len());
    let ev = v.spec_encoding();
    crate::encoding::lemma_tag_round_trip(message_value_tag(), pv + ev + after);
    assert(t2 + pv + ev + after =~= t2 + (pv + ev + after));
    assert((t2 + (pv + ev + after)).skip(t2.len() as int) =~= pv + ev + after);
    lemma_length_delimited_round_trip(v, v0, after, depth);
}

/// The fields of a written message entry, followed by anything, merge into
/// its key and message.
#[verifier::rlimit(40)]
proof fn lemma_message_entry_fields_round_trip<KC: MapCodec, M: Message + Default>(
    k: KC::Model,
    v: M,
    k0: KC::Model,
    v0: M,
    rest: Seq<u8>,
    depth: u32,
)
    requires
        depth > 0,
        KC::spec_canonical(k),
        message_round_trips(v, v0, (depth - 1) as u32),
        v.spec_encoding().len() <= u64::MAX,
    ensures
        spec_entry_fields::<KC, Msg<M>>(
            spec_message_entry_body::<KC, M>(k, v) + rest,
            rest.len(),
            k0,
            v0,
            depth,
        ) == Ok::<(KC::Model, M, nat), DecodeError>(
            (k, v, spec_message_entry_body::<KC, M>(k, v).len()),
        ),
{
    let t1 = spec_tag_bytes(key_tag::<KC>());
    let t2 = spec_tag_bytes(message_value_tag());
    let ek = KC::spec_encode(k);
    let pv = spec_varint(v.spec_encoding().len());
    let ev = v.spec_encoding();
    let inner = spec_message_entry_body::<KC, M>(k, v) + rest;
    let after_key = t2 + pv + ev + rest;
    crate::encoding::lemma_small_tag_len(key_tag::<KC>());
    crate::encoding::lemma_small_tag_len(message_value_tag());
    assert(inner =~= t1 + ek + after_key);
    lemma_key_field::<KC, Msg<M>>(k, k0, v0, after_key, depth);
    assert(inner.skip((t1.len() + ek.len()) as int) =~= after_key);
    lemma_message_value_field::<KC, M>(v, k, v0, rest, depth);
    assert(after_key.skip((t2.len() + pv.len() + ev.len()) as int) =~= rest);
    assert(spec_entry_fields::<KC, Msg<M>>(rest, rest.len(), k, v, depth) == Ok::<
        (KC::Model, M, nat),
        DecodeError,
    >((k, v, 0nat)));
    assert(spec_entry_fields::<KC, Msg<M>>(after_key, rest.len(), k, v0, depth) == Ok::<
        (KC::Model, M, nat),
        DecodeError,
    >((k, v, t2.len() + pv.len() + ev.len())));
}

/// Decoding a written message entry gives back its key and message and
/// reads exactly the entry.
pub proof fn lemma_message_entry_round_trip<KC: MapCodec, M: Message + Default>(
    k: KC::Model,
    v: M,
    k0: KC::Model,
    v0: M,
    rest: Seq<u8>,
    depth: u32,
)
    requires
        depth > 0,
        KC::spec_canonical(k),
        message_round_trips(v, v0, (depth - 1) as u32),
        spec_message_entry_body::<KC, M>(k, v).len() <= usize::MAX,
    ensures
        spec_merge_entry::<KC, Msg<M>>(
            spec_varint(spec_message_entry_body::<KC, M>(k, v).len())
                + spec_message_entry_body::<KC, M>(k, v) + rest,
            k0,
            v0,
            depth,
        ) == Ok::<(KC::Model, M, nat), DecodeError>(
            (
                k,
                v,
                spec_varint(spec_message_entry_body::<KC, M>(k, v).len()).len()
                    + spec_message_entry_body::<KC, M>(k, v).len(),
            ),
        ),
{
    let body = spec_message_entry_body::<KC, M>(k, v);
    let len = body.len();
    let prefix = spec_varint(len);
    let input = prefix + body + rest;
    crate::encoding::lemma_varint_round_trip(len as u64, body + rest);
    assert(input =~= prefix + (body + rest));
    assert(input.skip(prefix.len() as int) =~= body + rest);
    lemma_message_entry_fields_round_trip::<KC, M>(k, v, k0, v0, rest, depth);
}

/// The records of entries `i..` of a message-valued field.
pub open spec fn spec_message_records_from<KC: MapCodec, M: Message>(
    field_number: u32,
    s: Seq<(KC::Model, M)>,
    i: int,
) -> Seq<u8>
    decreases s.len() - i,
{
    if i < 0 || i >= s.len() {
        Seq::empty()
    } else {
        spec_message_record::<KC, M>(field_number, s[i].0, s[i].1) + spec_message_records_from::<
            KC,
            M,
        >(field_number, s, i + 1)
    }
}

proof fn lemma_message_field_bytes_split<KC: MapCodec, M: Message>(
    field_number: u32,
    s: Seq<(KC::Model, M)>,
    j: int,
)
    requires
        0 <= j <= s.len(),
    ensures
        spec_message_field_bytes::<KC, M>(field_number, s.take(j)) + spec_message_records_from::<
            KC,
            M,
        >(field_number, s, j) == spec_message_field_bytes::<KC, M>(field_number, s),
    decreases s.len() - j,
{
    if j == s.len() {
        assert(s.take(j) =~= s);
        assert(spec_message_field_bytes::<KC, M>(field_number, s) + Seq::<u8>::empty()
            =~= spec_message_field_bytes::<KC, M>(field_number, s));
    } else {
        lemma_message_field_bytes_split::<KC, M>(field_number, s, j + 1);
        assert(s.take(j + 1).drop_last() =~= s.take(j));
        let a = spec_message_field_bytes::<KC, M>(field_number, s.take(j));
        let r = spec_message_record::<KC, M>(field_number, s[j].0, s[j].1);
        let rest = spec_message_records_from::<KC, M>(field_number, s, j + 1);
        assert(a + (r + rest) =~= (a + r) + rest);
    }
}

proof fn lemma_decode_message_record_step<KC: MapCodec, M: Message + Default>(
    field_number: u32,
    k: KC::Model,
    v: M,
    rest: Seq<u8>,
    acc: Seq<(KC::Model, M)>,
    k0: KC::Model,
    v0: M,
    depth: u32,
)
    requires
        crate::encoding::valid_field_number(field_number),
        depth > 0,
        KC::spec_canonical(k),
        message_round_trips(v, v0, (depth - 1) as u32),
        spec_message_entry_body::<KC, M>(k, v).len() <= usize::MAX,
    ensures
        spec_decode_field::<KC, Msg<M>>(
            spec_message_record::<KC, M>(field_number, k, v) + rest,
            acc,
            k0,
            v0,
            depth,
        ) == spec_decode_field::<KC, Msg<M>>(rest, spec_model_insert(acc, k, v), k0, v0, depth),
{
    let tag = spec_tag_bytes(record_tag(field_number));
    let body = spec_message_entry_body::<KC, M>(k, v);
    let prefix = spec_varint(body.len());
    let input = spec_message_record::<KC, M>(field_number, k, v) + rest;
    assert(input =~= tag + (prefix + body + rest));
    crate::encoding::lemma_tag_round_trip(record_tag(field_number), prefix + body + rest);
    assert(tag.len() >= 1) by {
        crate::encoding::lemma_varint_len_u64(
            crate::encoding::spec_tag_key(record_tag(field_number)) as u64,
        );
    }
    assert(input.skip(tag.len() as int) =~= prefix + body + rest);
    lemma_message_entry_round_trip::<KC, M>(k, v, k0, v0, rest, depth);
    assert(input.skip((tag.len() + prefix.len() + body.len()) as int) =~= rest);
}

proof fn lemma_decode_message_records<KC: MapCodec, M: Message + Default>(
    field_number: u32,
    s: Seq<(KC::Model, M)>,
    i: int,
    k0: KC::Model,
    v0: M,
    depth: u32,
)
    requires
        0 <= i <= s.len(),
        crate::encoding::valid_field_number(field_number),
        depth > 0,
        model_keys_distinct(s),
        message_entries_round_trip::<KC, M>(s, v0, (depth - 1) as u32),
    ensures
        spec_decode_field::<KC, Msg<M>>(
            spec_message_records_from::<KC, M>(field_number, s, i),
            s.take(i),
            k0,
            v0,
            depth,
        ) == Ok::<Seq<(KC::Model, M)>, DecodeError>(s),
    decreases s.len() - i,
{
    if i == s.len() {
        assert(s.take(i) =~= s);
    } else {
        lemma_decode_message_records::<KC, M>(field_number, s, i + 1, k0, v0, depth);
        let k = s[i].0;
        let v = s[i].1;
        assert(KC::spec_canonical(s[i].0));
        let rest = spec_message_records_from::<KC, M>(field_number, s, i + 1);
        let acc = s.take(i);
        lemma_decode_message_record_step::<KC, M>(field_number, k, v, rest, acc, k0, v0, depth);
        assert(!(exists|j: int| 0 <= j < acc.len() && #[trigger] acc[j].0 == k)) by {
            if exists|j: int| 0 <= j < acc.len() && #[trigger] acc[j].0 == k {
                let j = choose|j: int| 0 <= j < acc.len() && #[trigger] acc[j].0 == k;
                assert(s[j].0 == s[i].0);
            }
        }
        assert(spec_model_insert(acc, k, v) =~= s.take(i + 1));
    }
}

/// Decoding what `write_message_field` writes for a map of messages gives
/// the map back (same entries, same order), when every message merges back
/// from the default value decoding starts from.
pub proof fn lemma_message_field_round_trip<KC: MapCodec, M: Message + Default>(
    field_number: u32,
    s: Seq<(KC::Model, M)>,
    k0: KC::Model,
    v0: M,
    depth: u32,
)
    requires
        crate::encoding::valid_field_number(field_number),
        depth > 0,
        model_keys_distinct(s),
        message_entries_round_trip::<KC, M>(s, v0, (depth - 1) as u32),
    ensures
        spec_decode_field::<KC, Msg<M>>(
            spec_message_field_bytes::<KC, M>(field_number, s),
            Seq::empty(),
            k0,
            v0,
            depth,
        ) == Ok::<Seq<(KC::Model, M)>, DecodeError>(s),
{
    lemma_message_field_bytes_split::<KC, M>(field_number, s, 0);
    assert(s.take(0) =~= Seq::<(KC::Model, M)>::empty());
    assert(spec_message_field_bytes::<KC, M>(field_number, s.take(0)) =~= Seq::<u8>::empty());
    assert(Seq::<u8>::empty() + spec_message_records_from::<KC, M>(field_number, s, 0)
        =~= spec_message_records_from::<KC, M>(field_number, s, 0));
    lemma_decode_message_records::<KC, M>(field_number, s, 0, k0, v0, depth);
}

} // verus!
