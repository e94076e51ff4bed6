//! What each codec is, stated against the protobuf encoding itself: the
//! wire type it carries, the bytes it writes, what it reads, and the value
//! an absent field takes.
use vstd::prelude::*;
use vstd::utf8::encode_utf8;

use super::{
    key_tag, lemma_key_field, spec_entry_fields, spec_merge_entry, BytesBuf, BytesVec, Bool, ClosedEnum, Double, Fixed32, Fixed64, Float, Int32, Int64,
    MapCodec, MapValueDecode, Msg, OpenEnum, Sfixed32, Sfixed64, Sint32, Sint64, Str, Uint32,
    Uint64,
};
use crate::encoding::{lemma_varint_round_trip, spec_le_bytes, spec_tag_bytes, spec_varint};
use crate::error::DecodeError;
use crate::types::lemma_int32_round_trip;
use crate::error::WireType;
use crate::message::{spec_enum_value, EnumValue, Enumeration, Message};

verus! {

/// The wire type of every codec, as the protobuf encoding assigns it:
/// varint for the integer, `bool` and enum types; 32-bit for `fixed32`,
/// `sfixed32` and `float`; 64-bit for `fixed64`, `sfixed64` and `double`;
/// length-delimited for `string`, `bytes` and messages.
pub proof fn lemma_codec_wire_types<E: Enumeration + Default, M: Message + Default>()
    ensures
        Int32::spec_wire_type() == WireType::Varint,
        Int64::spec_wire_type() == WireType::Varint,
        Uint32::spec_wire_type() == WireType::Varint,
        Uint64::spec_wire_type() == WireType::Varint,
        Sint32::spec_wire_type() == WireType::Varint,
        Sint64::spec_wire_type() == WireType::Varint,
        Bool::spec_wire_type() == WireType::Varint,
        OpenEnum::<E>::spec_wire_type() == WireType::Varint,
        ClosedEnum::<E>::spec_wire_type() == WireType::Varint,
        Fixed32::spec_wire_type() == WireType::Fixed32,
        Sfixed32::spec_wire_type() == WireType::Fixed32,
        Float::spec_wire_type() == WireType::Fixed32,
        Fixed64::spec_wire_type() == WireType::Fixed64,
        Sfixed64::spec_wire_type() == WireType::Fixed64,
        Double::spec_wire_type() == WireType::Fixed64,
        Str::spec_wire_type() == WireType::LengthDelimited,
        BytesVec::spec_wire_type() == WireType::LengthDelimited,
        BytesBuf::spec_wire_type() == WireType::LengthDelimited,
        Msg::<M>::spec_wire_type() == WireType::LengthDelimited,
{
}

/// The value an absent key or value takes is the type's zero value: 0,
/// `false`, the `+0.0` bit pattern, the empty string or byte string, and
/// for an open enum what the number 0 decodes to.
pub proof fn lemma_codec_defaults<E: Enumeration>()
    ensures
        forall|m: i32| Int32::spec_is_default(m) <==> m == 0,
        forall|m: i64| Int64::spec_is_default(m) <==> m == 0,
        forall|m: u32| Uint32::spec_is_default(m) <==> m == 0,
        forall|m: u64| Uint64::spec_is_default(m) <==> m == 0,
        forall|m: i32| Sint32::spec_is_default(m) <==> m == 0,
        forall|m: i64| Sint64::spec_is_default(m) <==> m == 0,
        forall|m: bool| Bool::spec_is_default(m) <==> m == false,
        forall|m: u32| Fixed32::spec_is_default(m) <==> m == 0,
        forall|m: u64| Fixed64::spec_is_default(m) <==> m == 0,
        forall|m: i32| Sfixed32::spec_is_default(m) <==> m == 0,
        forall|m: i64| Sfixed64::spec_is_default(m) <==> m == 0,
        forall|m: u32| Float::spec_is_default(m) <==> m == 0,
        forall|m: u64| Double::spec_is_default(m) <==> m == 0,
        forall|m: Seq<char>| Str::spec_is_default(m) <==> m.len() == 0,
        forall|m: Seq<u8>| BytesVec::spec_is_default(m) <==> m.len() == 0,
        forall|m: Seq<u8>| BytesBuf::spec_is_default(m) <==> m.len() == 0,
        forall|m: EnumValue<E>|
            OpenEnum::<E>::spec_is_default(m) <==> m == (match E::spec_from_i32(0) {
                Some(e) => EnumValue::Known(e),
                None => EnumValue::<E>::Unknown(0),
            }),
{
    assert forall|m: Seq<char>| Str::spec_is_default(m) <==> m.len() == 0 by {
        if m.len() == 0 {
            assert(m =~= Seq::<char>::empty());
        }
    }
    assert forall|m: Seq<u8>| BytesVec::spec_is_default(m) <==> m.len() == 0 by {
        if m.len() == 0 {
            assert(m =~= Seq::<u8>::empty());
        }
    }
}

/// The bytes each scalar codec writes, as the protobuf encoding defines
/// them: `int32`/`int64` the varint of the 64-bit two's-complement word,
/// `uint32`/`uint64` the varint of the value, `sint32`/`sint64` the varint
/// of the ZigZag image (0, -1, 1, -2 … to 0, 1, 2, 3 …), `bool` one byte 1
/// or 0, the fixed-width types their little-endian bytes (signed ones in
/// two's complement), `string` and `bytes` a varint length then the bytes.
pub proof fn lemma_codec_encodings()
    ensures
        forall|m: i32| #[trigger] Int32::spec_encode(m) == spec_varint(
            if m >= 0 { m as nat } else { (m + 0x1_0000_0000_0000_0000) as nat },
        ),
        forall|m: i64| #[trigger] Int64::spec_encode(m) == spec_varint(
            if m >= 0 { m as nat } else { (m + 0x1_0000_0000_0000_0000) as nat },
        ),
        forall|m: u32| #[trigger] Uint32::spec_encode(m) == spec_varint(m as nat),
        forall|m: u64| #[trigger] Uint64::spec_encode(m) == spec_varint(m as nat),
        forall|m: i32| #[trigger] Sint32::spec_encode(m) == spec_varint(
            if m >= 0 { (2 * m) as nat } else { (-2 * m - 1) as nat },
        ),
        forall|m: i64| #[trigger] Sint64::spec_encode(m) == spec_varint(
            if m >= 0 { (2 * m) as nat } else { (-2 * m - 1) as nat },
        ),
        forall|m: bool| #[trigger] Bool::spec_encode(m) == seq![if m { 1u8 } else { 0u8 }],
        forall|m: u32| #[trigger] Fixed32::spec_encode(m) == spec_le_bytes(m as nat, 4),
        forall|m: u32| #[trigger] Float::spec_encode(m) == spec_le_bytes(m as nat, 4),
        forall|m: i32| #[trigger] Sfixed32::spec_encode(m) == spec_le_bytes(
            if m >= 0 { m as nat } else { (m + 0x1_0000_0000) as nat },
            4,
        ),
        forall|m: u64| #[trigger] Fixed64::spec_encode(m) == spec_le_bytes(m as nat, 8),
        forall|m: u64| #[trigger] Double::spec_encode(m) == spec_le_bytes(m as nat, 8),
        forall|m: i64| #[trigger] Sfixed64::spec_encode(m) == spec_le_bytes(
            if m >= 0 { m as nat } else { (m + 0x1_0000_0000_0000_0000) as nat },
            8,
        ),
        forall|m: Seq<char>| #[trigger] Str::spec_encode(m) == spec_varint(encode_utf8(m).len())
            + encode_utf8(m),
        forall|m: Seq<u8>| #[trigger] BytesVec::spec_encode(m) == spec_varint(m.len()) + m,
        forall|m: Seq<u8>| #[trigger] BytesBuf::spec_encode(m) == spec_varint(m.len()) + m,
{
    assert forall|m: bool| #[trigger] Bool::spec_encode(m) == seq![if m { 1u8 } else { 0u8 }] by {
        reveal_with_fuel(spec_varint, 2);
    }
}

/// What each varint codec reads from the varint of a 64-bit word `x`,
/// whatever it merges into and whatever follows: `uint64` the word, `int64`
/// its two's-complement value, `uint32` its low 32 bits, `int32` their
/// two's-complement value, `sint64` the ZigZag value (even `x` to `x / 2`,
/// odd `x` to `-(x + 1) / 2`), `sint32` the ZigZag value of the low 32 bits,
/// `bool` whether it is non-zero. Each reads exactly the varint.
pub proof fn lemma_varint_codec_reads(x: u64, rest: Seq<u8>, depth: u32)
    ensures
        forall|old: u64| #[trigger] Uint64::spec_merge(old, spec_varint(x as nat) + rest, depth)
            == Ok::<(u64, nat), DecodeError>((x, spec_varint(x as nat).len())),
        forall|old: i64| #[trigger] Int64::spec_merge(old, spec_varint(x as nat) + rest, depth)
            == Ok::<(i64, nat), DecodeError>(
            (
                (if x >= 0x8000_0000_0000_0000 {
                    x - 0x1_0000_0000_0000_0000
                } else {
                    x as int
                }) as i64,
                spec_varint(x as nat).len(),
            ),
        ),
        forall|old: u32| #[trigger] Uint32::spec_merge(old, spec_varint(x as nat) + rest, depth)
            == Ok::<(u32, nat), DecodeError>(
            ((x % 0x1_0000_0000) as u32, spec_varint(x as nat).len()),
        ),
        forall|old: i32| #[trigger] Int32::spec_merge(old, spec_varint(x as nat) + rest, depth)
            == Ok::<(i32, nat), DecodeError>(
            (
                (if x % 0x1_0000_0000 >= 0x8000_0000 {
                    x % 0x1_0000_0000 - 0x1_0000_0000
                } else {
                    (x % 0x1_0000_0000) as int
                }) as i32,
                spec_varint(x as nat).len(),
            ),
        ),
        forall|old: i64| #[trigger] Sint64::spec_merge(old, spec_varint(x as nat) + rest, depth)
            == Ok::<(i64, nat), DecodeError>(
            (
                (if x % 2 == 0 {
                    (x / 2) as int
                } else {
                    -((x / 2) as int) - 1
                }) as i64,
                spec_varint(x as nat).len(),
            ),
        ),
        forall|old: i32| #[trigger] Sint32::spec_merge(old, spec_varint(x as nat) + rest, depth)
            == Ok::<(i32, nat), DecodeError>(
            (
                (if (x % 0x1_0000_0000) % 2 == 0 {
                    ((x % 0x1_0000_0000) / 2) as int
                } else {
                    -(((x % 0x1_0000_0000) / 2) as int) - 1
                }) as i32,
                spec_varint(x as nat).len(),
            ),
        ),
        forall|old: bool| #[trigger] Bool::spec_merge(old, spec_varint(x as nat) + rest, depth)
            == Ok::<(bool, nat), DecodeError>((x != 0, spec_varint(x as nat).len())),
{
    lemma_varint_round_trip(x, rest);
}

/// A number decodes to the variant it names, and to `Unknown` only when no
/// variant names it.
pub proof fn lemma_enum_value_of_number<E: Enumeration>(n: i32)
    ensures
        E::spec_from_i32(n) matches Some(e) ==> spec_enum_value::<E>(n) == EnumValue::Known(e),
        E::spec_from_i32(n) is None ==> spec_enum_value::<E>(n) == EnumValue::<E>::Unknown(n),
{
}

/// An open-enum codec writes a value's number as an `int32` and reads an
/// `int32` back as the variant that number names, keeping a number no
/// variant names as `Unknown`.
pub proof fn lemma_open_enum_codec<E: Enumeration>(
    n: i32,
    old: EnumValue<E>,
    rest: Seq<u8>,
    depth: u32,
)
    ensures
        OpenEnum::<E>::spec_merge(old, Int32::spec_encode(n) + rest, depth) == Ok::<
            (EnumValue<E>, nat),
            DecodeError,
        >(
            (
                match E::spec_from_i32(n) {
                    Some(e) => EnumValue::Known(e),
                    None => EnumValue::Unknown(n),
                },
                Int32::spec_encode(n).len(),
            ),
        ),
        forall|v: EnumValue<E>| #[trigger] OpenEnum::<E>::spec_encode(v) == Int32::spec_encode(
            match v {
                EnumValue::Known(e) => e.spec_to_i32(),
                EnumValue::Unknown(k) => k,
            },
        ),
{
    lemma_int32_round_trip(n, rest);
}

/// A closed-enum codec reads an `int32` as the variant it names, and leaves
/// the value it merges into as it was when no variant names the number; it
/// writes a variant's number as an `int32`.
pub proof fn lemma_closed_enum_codec<E: Enumeration + Default>(
    n: i32,
    old: E,
    rest: Seq<u8>,
    depth: u32,
)
    ensures
        ClosedEnum::<E>::spec_merge(old, Int32::spec_encode(n) + rest, depth) == Ok::<
            (E, nat),
            DecodeError,
        >(
            (
                match E::spec_from_i32(n) {
                    Some(e) => e,
                    None => old,
                },
                Int32::spec_encode(n).len(),
            ),
        ),
        forall|v: E| #[trigger] ClosedEnum::<E>::spec_encode(v) == Int32::spec_encode(
            v.spec_to_i32(),
        ),
{
    lemma_int32_round_trip(n, rest);
}

/// An entry that carries only its key takes the value it starts from (the
/// codec's default, see [`lemma_codec_defaults`]): a value field omitted by
/// the writer decodes to the zero value.
pub proof fn lemma_key_only_entry<KC: MapCodec, VC: MapValueDecode>(
    k: KC::Model,
    k0: KC::Model,
    v0: VC::Model,
    rest: Seq<u8>,
    depth: u32,
)
    requires
        KC::spec_canonical(k),
        (spec_tag_bytes(key_tag::<KC>()) + KC::spec_encode(k)).len() <= usize::MAX,
    ensures
        spec_merge_entry::<KC, VC>(
            spec_varint((spec_tag_bytes(key_tag::<KC>()) + KC::spec_encode(k)).len())
                + spec_tag_bytes(key_tag::<KC>()) + KC::spec_encode(k) + rest,
            k0,
            v0,
            depth,
        ) == Ok::<(KC::Model, VC::Model, nat), DecodeError>(
            (
                k,
                v0,
                spec_varint((spec_tag_bytes(key_tag::<KC>()) + KC::spec_encode(k)).len()).len()
                    + (spec_tag_bytes(key_tag::<KC>()) + KC::spec_encode(k)).len(),
            ),
        ),
{
    let t1 = spec_tag_bytes(key_tag::<KC>());
    let ek = KC::spec_encode(k);
    let body = t1 + ek;
    let prefix = spec_varint(body.len());
    let input = prefix + t1 + ek + rest;
    lemma_varint_round_trip(body.len() as u64, body + rest);
    assert(input =~= prefix + (body + rest));
    assert(input.skip(prefix.len() as int) =~= body + rest);
    crate::encoding::lemma_small_tag_len(key_tag::<KC>());
    lemma_key_field::<KC, VC>(k, k0, v0, rest, depth);
    assert(body + rest =~= t1 + ek + rest);
    assert((body + rest).skip((t1.len() + ek.len()) as int) =~= rest);
    assert(spec_entry_fields::<KC, VC>(rest, rest.len(), k, v0, depth) == Ok::<
        (KC::Model, VC::Model, nat),
        DecodeError,
    >((k, v0, 0nat)));
}

} // verus!
