use buffa::encoding::{encode_varint, skip_field_depth, Tag};
use buffa::error::{DecodeError, WireType};
use buffa::map_codec::{
    field_len, merge_entry, message_field_len, write_field, write_message_field, BytesBuf, BytesVec,
    ClosedEnum, Double, Fixed32, Int32, MapCodec, MapValueDecode, Msg, OpenEnum, Sint64, Str,
};
use buffa::message::{EnumValue, Enumeration, Message, SizeCache};
use buffa::proto_map::{MapKey, ProtoMap};
use buffa::types;

const RECURSION_LIMIT: u32 = 100;

fn encode_field<KC: MapCodec, VC: MapCodec>(
    map: &ProtoMap<KC::Value, VC::Value>,
    field_number: u32,
    outer_tag_len: u32,
) -> Vec<u8>
where
    KC::Value: MapKey,
{
    let len = field_len::<KC, VC>(map, outer_tag_len);
    let mut buf = Vec::new();
    write_field::<KC, VC>(map, field_number, &mut buf);
    assert_eq!(buf.len() as u32, len, "field_len must match written bytes");
    buf
}

fn decode_field<KC: MapValueDecode, VC: MapValueDecode>(
    mut wire: &[u8],
) -> ProtoMap<KC::Value, VC::Value>
where
    KC::Value: MapKey,
{
    let mut map = ProtoMap::default();
    while !wire.is_empty() {
        let tag = Tag::decode(&mut wire).unwrap();
        assert_eq!(tag.wire_type(), WireType::LengthDelimited);
        merge_entry::<KC, VC>(&mut map, &mut wire, RECURSION_LIMIT).unwrap();
    }
    map
}

fn framed(entry: &[u8]) -> Vec<u8> {
    let mut wire = Vec::new();
    encode_varint(entry.len() as u64, &mut wire);
    wire.extend_from_slice(entry);
    wire
}

#[test]
fn string_int32_round_trip() {
    let mut map: ProtoMap<String, i32> = ProtoMap::default();
    map.insert("a".into(), 1);
    map.insert("bee".into(), -7);
    let wire = encode_field::<Str, Int32>(&map, 5, 1);
    let back = decode_field::<Str, Int32>(&wire);
    assert_eq!(back.as_slice(), map.as_slice());
}

#[test]
fn fixed_fixed_len_fold_matches_written_bytes() {
    let mut map: ProtoMap<u32, u64> = ProtoMap::default();
    map.insert(1, 0.5f64.to_bits());
    map.insert(9, (-2.25f64).to_bits());
    map.insert(1000, 0.0f64.to_bits());
    // Both codecs fixed-width: field_len takes the folded path, and
    // encode_field checks it against the written bytes.
    let wire = encode_field::<Fixed32, Double>(&map, 3, 1);
    let back = decode_field::<Fixed32, Double>(&wire);
    assert_eq!(back.as_slice(), map.as_slice());
    assert_eq!(f64::from_bits(*back.get(&9).unwrap()), -2.25);
}

#[test]
fn missing_key_and_value_take_defaults() {
    // Entry with no fields at all: length prefix 0.
    let wire = [0x00u8];
    let mut map: ProtoMap<String, i32> = ProtoMap::default();
    merge_entry::<Str, Int32>(&mut map, &mut &wire[..], 10).unwrap();
    assert_eq!(map.get(&String::new()), Some(&0));
}

#[test]
fn unknown_entry_field_is_skipped() {
    // key "a" (field 1), unknown varint field 3, value 7 (field 2).
    let mut entry = Vec::new();
    Tag::new(1, WireType::LengthDelimited).encode(&mut entry);
    types::encode_string("a", &mut entry);
    Tag::new(3, WireType::Varint).encode(&mut entry);
    encode_varint(99, &mut entry);
    Tag::new(2, WireType::Varint).encode(&mut entry);
    types::encode_int32(7, &mut entry);
    let wire = framed(&entry);

    let mut map: ProtoMap<String, i32> = ProtoMap::default();
    merge_entry::<Str, Int32>(&mut map, &mut wire.as_slice(), 10).unwrap();
    assert_eq!(map.get(&"a".to_string()), Some(&7));
}

#[test]
fn entry_wire_type_mismatch_errors() {
    // Field 1 claims Fixed64 for a string key.
    let mut entry = Vec::new();
    Tag::new(1, WireType::Fixed64).encode(&mut entry);
    entry.extend_from_slice(&[0u8; 8]);
    let wire = framed(&entry);

    let mut map: ProtoMap<String, i32> = ProtoMap::default();
    let err = merge_entry::<Str, Int32>(&mut map, &mut wire.as_slice(), 10).unwrap_err();
    assert!(matches!(err, DecodeError::WireTypeMismatch { .. }));
}

#[test]
fn truncated_entry_errors() {
    // Length prefix promises 5 bytes; only 1 available.
    let wire = [0x05u8, 0x08];
    let mut map: ProtoMap<String, i32> = ProtoMap::default();
    let err = merge_entry::<Str, Int32>(&mut map, &mut &wire[..], 10).unwrap_err();
    assert!(matches!(err, DecodeError::UnexpectedEof));
}

#[derive(Clone, PartialEq, Eq, Debug, Default)]
struct FlatMsg {
    value: i32,
}

impl Message for FlatMsg {
    fn compute_size(&self, _cache: &mut SizeCache) -> u32 {
        if self.value != 0 {
            1 + types::int32_encoded_len(self.value) as u32
        } else {
            0
        }
    }

    fn write_to(&self, _cache: &mut SizeCache, buf: &mut Vec<u8>) {
        if self.value != 0 {
            Tag::new(1, WireType::Varint).encode(buf);
            types::encode_int32(self.value, buf);
        }
    }

    fn merge_field(&mut self, tag: Tag, buf: &mut &[u8], depth: u32) -> Result<(), DecodeError> {
        match tag.field_number() {
            1 => self.value = types::decode_int32(buf)?,
            _ => skip_field_depth(tag, buf, depth)?,
        }
        Ok(())
    }

    fn clear(&mut self) {
        *self = Self::default();
    }
}

#[test]
fn message_map_two_pass_round_trip() {
    let mut map: ProtoMap<i32, FlatMsg> = ProtoMap::default();
    map.insert(1, FlatMsg { value: 0 }); // empty payload entry
    map.insert(2, FlatMsg { value: -3 }); // multi-byte varint payload
    map.insert(9, FlatMsg { value: 7 });

    // Two-pass: message_field_len reserves SizeCache slots in map order;
    // write_message_field consumes them in the same order. The size must
    // equal the written bytes exactly.
    let mut cache = SizeCache::default();
    let len = message_field_len::<Int32, FlatMsg>(&map, 1, &mut cache);
    let mut wire = Vec::new();
    write_message_field::<Int32, FlatMsg>(&map, 4, &mut cache, &mut wire);
    assert_eq!(wire.len() as u32, len, "size pass must match write pass");

    let back = decode_field::<Int32, Msg<FlatMsg>>(&wire);
    assert_eq!(back.as_slice(), map.as_slice());
}

#[derive(Clone, Copy, PartialEq, Eq, Hash, Debug)]
enum E {
    A,
}

impl Default for E {
    fn default() -> Self {
        E::A
    }
}

impl Enumeration for E {
    fn from_i32(value: i32) -> Option<Self> {
        if value == 0 {
            Some(E::A)
        } else {
            None
        }
    }

    fn to_i32(&self) -> i32 {
        0
    }

    fn proto_name(&self) -> &'static str {
        "A"
    }

    fn from_proto_name(name: &str) -> Option<Self> {
        if name == "A" {
            Some(E::A)
        } else {
            None
        }
    }
}

#[test]
fn open_enum_value_preserves_unknown() {
    let mut map: ProtoMap<i32, EnumValue<E>> = ProtoMap::default();
    map.insert(1, EnumValue::Unknown(42));
    let wire = encode_field::<Int32, OpenEnum<E>>(&map, 2, 1);
    let back = decode_field::<Int32, OpenEnum<E>>(&wire);
    assert_eq!(back.get(&1), Some(&EnumValue::Unknown(42)));

    // Closed codec drops the unknown value, keeping the default.
    let back = decode_field::<Int32, ClosedEnum<E>>(&wire);
    assert_eq!(back.get(&1), Some(&E::A));
}

// ── Further cases ───────────────────────────────────────────────────────

#[test]
fn string_int32_exact_bytes() {
    let mut map: ProtoMap<String, i32> = ProtoMap::default();
    map.insert("a".into(), 1);
    let wire = encode_field::<Str, Int32>(&map, 5, 1);
    // tag (5 << 3 | 2), length 5, key tag, "a", value tag, 1.
    assert_eq!(wire, vec![0x2a, 0x05, 0x0a, 0x01, b'a', 0x10, 0x01]);
}

#[test]
fn later_entry_with_same_key_wins() {
    let mut first = Vec::new();
    Tag::new(1, WireType::Varint).encode(&mut first);
    types::encode_int32(4, &mut first);
    Tag::new(2, WireType::Varint).encode(&mut first);
    types::encode_int32(1, &mut first);
    let mut second = Vec::new();
    Tag::new(1, WireType::Varint).encode(&mut second);
    types::encode_int32(4, &mut second);
    Tag::new(2, WireType::Varint).encode(&mut second);
    types::encode_int32(2, &mut second);
    let mut map: ProtoMap<i32, i32> = ProtoMap::default();
    merge_entry::<Int32, Int32>(&mut map, &mut framed(&first).as_slice(), 10).unwrap();
    merge_entry::<Int32, Int32>(&mut map, &mut framed(&second).as_slice(), 10).unwrap();
    assert_eq!(map.len(), 1);
    assert_eq!(map.get(&4), Some(&2));
}

#[test]
fn repeated_value_field_in_entry_last_wins() {
    let mut entry = Vec::new();
    Tag::new(2, WireType::Varint).encode(&mut entry);
    types::encode_int32(5, &mut entry);
    Tag::new(2, WireType::Varint).encode(&mut entry);
    types::encode_int32(6, &mut entry);
    let mut map: ProtoMap<i32, i32> = ProtoMap::default();
    merge_entry::<Int32, Int32>(&mut map, &mut framed(&entry).as_slice(), 10).unwrap();
    assert_eq!(map.get(&0), Some(&6));
}

#[test]
fn bad_varint_length_errors() {
    let wire = [0xffu8; 11];
    let mut map: ProtoMap<i32, i32> = ProtoMap::default();
    let err = merge_entry::<Int32, Int32>(&mut map, &mut &wire[..], 10).unwrap_err();
    assert_eq!(err, DecodeError::InvalidVarint);
    assert!(map.is_empty());
}

#[test]
fn zero_field_number_in_entry_errors() {
    let wire = [0x02u8, 0x00, 0x00];
    let mut map: ProtoMap<i32, i32> = ProtoMap::default();
    let err = merge_entry::<Int32, Int32>(&mut map, &mut &wire[..], 10).unwrap_err();
    assert_eq!(err, DecodeError::InvalidTag);
}

#[test]
fn bad_wire_type_bits_in_entry_errors() {
    // Field 1 with wire-type bits 7.
    let wire = [0x01u8, 0x0f];
    let mut map: ProtoMap<i32, i32> = ProtoMap::default();
    let err = merge_entry::<Int32, Int32>(&mut map, &mut &wire[..], 10).unwrap_err();
    assert_eq!(err, DecodeError::InvalidWireType);
}

#[test]
fn non_utf8_string_key_errors() {
    let mut entry = Vec::new();
    Tag::new(1, WireType::LengthDelimited).encode(&mut entry);
    entry.extend_from_slice(&[0x01, 0xff]);
    let mut map: ProtoMap<String, i32> = ProtoMap::default();
    let err = merge_entry::<Str, Int32>(&mut map, &mut framed(&entry).as_slice(), 10).unwrap_err();
    assert_eq!(err, DecodeError::InvalidUtf8);
}

#[test]
fn stray_end_group_in_entry_errors() {
    let mut entry = Vec::new();
    Tag::new(3, WireType::EndGroup).encode(&mut entry);
    let mut map: ProtoMap<i32, i32> = ProtoMap::default();
    let err = merge_entry::<Int32, Int32>(&mut map, &mut framed(&entry).as_slice(), 10).unwrap_err();
    assert_eq!(err, DecodeError::UnexpectedEndGroup);
}

#[test]
fn message_value_at_depth_zero_errors() {
    let mut entry = Vec::new();
    Tag::new(2, WireType::LengthDelimited).encode(&mut entry);
    entry.push(0x00);
    let mut map: ProtoMap<i32, FlatMsg> = ProtoMap::default();
    let err =
        merge_entry::<Int32, Msg<FlatMsg>>(&mut map, &mut framed(&entry).as_slice(), 0).unwrap_err();
    assert_eq!(err, DecodeError::RecursionLimitExceeded);
}

#[test]
fn entry_shorter_than_fields_errors() {
    // The entry says 2 bytes, but its value field is a 3-byte varint.
    let wire = [0x02u8, 0x10, 0x80, 0x01];
    let mut map: ProtoMap<i32, i32> = ProtoMap::default();
    let err = merge_entry::<Int32, Int32>(&mut map, &mut &wire[..], 10).unwrap_err();
    assert_eq!(err, DecodeError::UnexpectedEof);
}

#[test]
fn buffer_advances_past_exactly_one_entry() {
    let mut entry = Vec::new();
    Tag::new(2, WireType::Varint).encode(&mut entry);
    types::encode_int32(3, &mut entry);
    let mut wire = framed(&entry);
    wire.extend_from_slice(&[0xaa, 0xbb]);
    let mut rest: &[u8] = &wire;
    let mut map: ProtoMap<i32, i32> = ProtoMap::default();
    merge_entry::<Int32, Int32>(&mut map, &mut rest, 10).unwrap();
    assert_eq!(rest, &[0xaa, 0xbb]);
}

#[test]
fn bytes_and_sint64_round_trip() {
    let mut map: ProtoMap<i64, Vec<u8>> = ProtoMap::default();
    map.insert(-1, vec![1, 2, 3]);
    map.insert(i64::MIN, vec![]);
    let wire = encode_field::<Sint64, BytesVec>(&map, 7, 1);
    let back = decode_field::<Sint64, BytesVec>(&wire);
    assert_eq!(back.as_slice(), map.as_slice());
}

#[test]
fn fixed_len_of_codecs() {
    assert_eq!(Fixed32::fixed_len(), Some(4));
    assert_eq!(Double::fixed_len(), Some(8));
    assert_eq!(Int32::fixed_len(), None);
    assert_eq!(Str::fixed_len(), None);
}

#[test]
fn bytes_buf_round_trip() {
    let mut map: ProtoMap<i32, bytes::Bytes> = ProtoMap::default();
    map.insert(1, bytes::Bytes::from(vec![9u8, 8, 7]));
    map.insert(2, bytes::Bytes::new());
    let wire = encode_field::<Int32, BytesBuf>(&map, 6, 1);
    let back = decode_field::<Int32, BytesBuf>(&wire);
    assert_eq!(back.as_slice(), map.as_slice());
    assert_eq!(back.get(&1).unwrap().as_ref(), &[9u8, 8, 7][..]);
}

#[test]
fn message_entry_without_value_takes_default() {
    // key 5 only: the value is FlatMsg::default().
    let mut entry = Vec::new();
    Tag::new(1, WireType::Varint).encode(&mut entry);
    types::encode_int32(5, &mut entry);
    let mut map: ProtoMap<i32, FlatMsg> = ProtoMap::default();
    merge_entry::<Int32, Msg<FlatMsg>>(&mut map, &mut framed(&entry).as_slice(), 10).unwrap();
    assert_eq!(map.get(&5), Some(&FlatMsg::default()));
}

#[test]
fn closed_enum_entry_without_value_takes_default() {
    let mut entry = Vec::new();
    Tag::new(1, WireType::Varint).encode(&mut entry);
    types::encode_int32(1, &mut entry);
    let mut map: ProtoMap<i32, E> = ProtoMap::default();
    merge_entry::<Int32, ClosedEnum<E>>(&mut map, &mut framed(&entry).as_slice(), 10).unwrap();
    assert_eq!(map.get(&1), Some(&E::A));
}
