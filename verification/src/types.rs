//! Encoding, decoding and encoded length of each protobuf scalar type.
//!
//! `float` and `double` values travel as their IEEE-754 bit patterns
//! (`u32` / `u64`), which is exactly what the wire format stores.
use vstd::prelude::*;

use crate::encoding::{
    advance, decode_fixed32, decode_fixed64, decode_varint, encode_fixed32, encode_fixed64,
    encode_varint, is_suffix_of, lemma_decode_varint_consumed, lemma_fixed32_round_trip,
    lemma_fixed64_round_trip, lemma_varint_round_trip, put_slice, spec_decode_fixed32,
    spec_decode_fixed64, spec_decode_varint, spec_fixed32, spec_fixed64, spec_varint, varint_len,
};
use crate::error::DecodeError;
use vstd::string::StringSliceAdditionalSpecFns;

verus! {

broadcast use vstd::utf8::encode_utf8_decode_utf8, vstd::utf8::encode_utf8_valid_utf8;

/// Encoded length of a `bool`.
pub const BOOL_ENCODED_LEN: usize = 1;

/// Encoded length of a `fixed32`, `sfixed32` or `float`.
pub const FIXED32_ENCODED_LEN: usize = 4;

/// Encoded length of a `fixed64`, `sfixed64` or `double`.
pub const FIXED64_ENCODED_LEN: usize = 8;

// ── Integer conversions ─────────────────────────────────────────────────

/// A signed value as the 64-bit two's-complement word a varint carries.
pub open spec fn sign_extend(v: int) -> nat {
    if v < 0 {
        (v + 0x1_0000_0000_0000_0000) as nat
    } else {
        v as nat
    }
}

/// The low 32 bits of `x`, read as unsigned.
pub open spec fn low_u32(x: nat) -> u32 {
    (x % 0x1_0000_0000) as u32
}

/// The low 32 bits of `x`, read as two's complement.
pub open spec fn low_i32(x: nat) -> i32 {
    let r = x % 0x1_0000_0000;
    if r >= 0x8000_0000 {
        (r - 0x1_0000_0000) as i32
    } else {
        r as i32
    }
}

/// A 64-bit word read as two's complement.
pub open spec fn word_i64(x: u64) -> i64 {
    if x >= 0x8000_0000_0000_0000 {
        (x - 0x1_0000_0000_0000_0000) as i64
    } else {
        x as i64
    }
}

/// ZigZag: 0, -1, 1, -2, ... map to 0, 1, 2, 3, ...
pub open spec fn zigzag(v: int) -> nat {
    if v >= 0 {
        (2 * v) as nat
    } else {
        (-2 * v - 1) as nat
    }
}

/// The inverse of [`zigzag`].
pub open spec fn unzigzag(n: nat) -> int {
    if n % 2 == 0 {
        (n / 2) as int
    } else {
        -((n / 2) as int) - 1
    }
}

fn sign_extend_i64(v: i64) -> (r: u64)
    ensures
        r == sign_extend(v as int),
{
    if v >= 0 {
        v as u64
    } else {
        u64::MAX - ((-(v + 1)) as u64)
    }
}

fn to_low_i32(x: u64) -> (r: i32)
    ensures
        r == low_i32(x as nat),
{
    let r = x % 0x1_0000_0000;
    if r >= 0x8000_0000 {
        (r as i64 - 0x1_0000_0000) as i32
    } else {
        r as i32
    }
}

fn to_word_i64(x: u64) -> (r: i64)
    ensures
        r == word_i64(x),
{
    if x >= 0x8000_0000_0000_0000 {
        -((u64::MAX - x) as i64) - 1
    } else {
        x as i64
    }
}

fn zigzag32(v: i32) -> (r: u32)
    ensures
        r == zigzag(v as int),
{
    if v >= 0 {
        (v as u32) * 2
    } else {
        ((-(v + 1)) as u32) * 2 + 1
    }
}

fn zigzag64(v: i64) -> (r: u64)
    ensures
        r == zigzag(v as int),
{
    if v >= 0 {
        (v as u64) * 2
    } else {
        ((-(v + 1)) as u64) * 2 + 1
    }
}

fn unzigzag32(n: u32) -> (r: i32)
    ensures
        r == unzigzag(n as nat),
{
    if n % 2 == 0 {
        (n / 2) as i32
    } else {
        -((n / 2) as i32) - 1
    }
}

fn unzigzag64(n: u64) -> (r: i64)
    ensures
        r == unzigzag(n as nat),
{
    if n % 2 == 0 {
        (n / 2) as i64
    } else {
        -((n / 2) as i64) - 1
    }
}

// ── Wire images ─────────────────────────────────────────────────────────

/// An `int32` / `int64` / enum number: the varint of its sign-extended word.
pub open spec fn spec_int_bytes(v: int) -> Seq<u8> {
    spec_varint(sign_extend(v))
}

/// A `uint32` / `uint64`.
pub open spec fn spec_uint_bytes(v: nat) -> Seq<u8> {
    spec_varint(v)
}

/// A `sint32` / `sint64`: the varint of its ZigZag image.
pub open spec fn spec_sint_bytes(v: int) -> Seq<u8> {
    spec_varint(zigzag(v))
}

/// A `bool`: one varint byte, 1 or 0.
pub open spec fn spec_bool_bytes(v: bool) -> Seq<u8> {
    spec_varint(
        if v {
            1
        } else {
            0
        },
    )
}

/// A `string`: its UTF-8 length as a varint, then the UTF-8 bytes.
pub open spec fn spec_string_bytes(s: Seq<char>) -> Seq<u8> {
    spec_varint(vstd::utf8::encode_utf8(s).len()) + vstd::utf8::encode_utf8(s)
}

/// A `bytes` value: its length as a varint, then the bytes.
pub open spec fn spec_bytes_bytes(b: Seq<u8>) -> Seq<u8> {
    spec_varint(b.len()) + b
}

// ── Decoders, as functions of the input ─────────────────────────────────

/// Apply `f` to the value of a successful decode.
pub open spec fn map_decoded<A, B>(r: Result<(A, nat), DecodeError>, f: spec_fn(A) -> B) -> Result<
    (B, nat),
    DecodeError,
> {
    match r {
        Ok((a, n)) => Ok((f(a), n)),
        Err(e) => Err(e),
    }
}

pub open spec fn spec_decode_int32(input: Seq<u8>) -> Result<(i32, nat), DecodeError> {
    map_decoded(spec_decode_varint(input), |x: u64| low_i32(x as nat))
}

pub open spec fn spec_decode_int64(input: Seq<u8>) -> Result<(i64, nat), DecodeError> {
    map_decoded(spec_decode_varint(input), |x: u64| word_i64(x))
}

pub open spec fn spec_decode_uint32(input: Seq<u8>) -> Result<(u32, nat), DecodeError> {
    map_decoded(spec_decode_varint(input), |x: u64| low_u32(x as nat))
}

pub open spec fn spec_decode_uint64(input: Seq<u8>) -> Result<(u64, nat), DecodeError> {
    spec_decode_varint(input)
}

pub open spec fn spec_decode_sint32(input: Seq<u8>) -> Result<(i32, nat), DecodeError> {
    map_decoded(spec_decode_varint(input), |x: u64| unzigzag(low_u32(x as nat) as nat) as i32)
}

pub open spec fn spec_decode_sint64(input: Seq<u8>) -> Result<(i64, nat), DecodeError> {
    map_decoded(spec_decode_varint(input), |x: u64| unzigzag(x as nat) as i64)
}

pub open spec fn spec_decode_bool(input: Seq<u8>) -> Result<(bool, nat), DecodeError> {
    map_decoded(spec_decode_varint(input), |x: u64| x != 0)
}

pub open spec fn spec_decode_sfixed32(input: Seq<u8>) -> Result<(i32, nat), DecodeError> {
    map_decoded(spec_decode_fixed32(input), |x: u32| low_i32(x as nat))
}

pub open spec fn spec_decode_sfixed64(input: Seq<u8>) -> Result<(i64, nat), DecodeError> {
    map_decoded(spec_decode_fixed64(input), |x: u64| word_i64(x))
}

/// A length-delimited payload: the bytes after a varint length, when that
/// many are there.
pub open spec fn spec_decode_bytes(input: Seq<u8>) -> Result<(Seq<u8>, nat), DecodeError> {
    match spec_decode_varint(input) {
        Ok((len, n)) => if n <= input.len() && len <= input.len() - n {
            Ok((input.subrange(n as int, n + len), (n + len) as nat))
        } else {
            Err(DecodeError::UnexpectedEof)
        },
        Err(e) => Err(e),
    }
}

/// A `string` payload: a length-delimited payload that is valid UTF-8.
pub open spec fn spec_decode_string(input: Seq<u8>) -> Result<(Seq<char>, nat), DecodeError> {
    match spec_decode_bytes(input) {
        Ok((b, n)) => if vstd::utf8::valid_utf8(b) {
            Ok((vstd::utf8::decode_utf8(b), n))
        } else {
            Err(DecodeError::InvalidUtf8)
        },
        Err(e) => Err(e),
    }
}

// ── Round trips ─────────────────────────────────────────────────────────

pub proof fn lemma_int32_round_trip(v: i32, rest: Seq<u8>)
    ensures
        spec_decode_int32(spec_int_bytes(v as int) + rest) == Ok::<(i32, nat), DecodeError>(
            (v, spec_int_bytes(v as int).len()),
        ),
{
    lemma_varint_round_trip(sign_extend(v as int) as u64, rest);
    if v < 0 {
        let x = sign_extend(v as int);
        assert(x == (0xffff_ffff as nat) * 0x1_0000_0000 + (v + 0x1_0000_0000));
        assert(x % 0x1_0000_0000 == v + 0x1_0000_0000);
    }
}

pub proof fn lemma_int64_round_trip(v: i64, rest: Seq<u8>)
    ensures
        spec_decode_int64(spec_int_bytes(v as int) + rest) == Ok::<(i64, nat), DecodeError>(
            (v, spec_int_bytes(v as int).len()),
        ),
{
    lemma_varint_round_trip(sign_extend(v as int) as u64, rest);
}

pub proof fn lemma_uint32_round_trip(v: u32, rest: Seq<u8>)
    ensures
        spec_decode_uint32(spec_uint_bytes(v as nat) + rest) == Ok::<(u32, nat), DecodeError>(
            (v, spec_uint_bytes(v as nat).len()),
        ),
{
    lemma_varint_round_trip(v as u64, rest);
}

pub proof fn lemma_uint64_round_trip(v: u64, rest: Seq<u8>)
    ensures
        spec_decode_uint64(spec_uint_bytes(v as nat) + rest) == Ok::<(u64, nat), DecodeError>(
            (v, spec_uint_bytes(v as nat).len()),
        ),
{
    lemma_varint_round_trip(v, rest);
}

pub proof fn lemma_sint32_round_trip(v: i32, rest: Seq<u8>)
    ensures
        spec_decode_sint32(spec_sint_bytes(v as int) + rest) == Ok::<(i32, nat), DecodeError>(
            (v, spec_sint_bytes(v as int).len()),
        ),
{
    lemma_varint_round_trip(zigzag(v as int) as u64, rest);
}

pub proof fn lemma_sint64_round_trip(v: i64, rest: Seq<u8>)
    ensures
        spec_decode_sint64(spec_sint_bytes(v as int) + rest) == Ok::<(i64, nat), DecodeError>(
            (v, spec_sint_bytes(v as int).len()),
        ),
{
    lemma_varint_round_trip(zigzag(v as int) as u64, rest);
}

pub proof fn lemma_bool_round_trip(v: bool, rest: Seq<u8>)
    ensures
        spec_bool_bytes(v).len() == BOOL_ENCODED_LEN,
        spec_decode_bool(spec_bool_bytes(v) + rest) == Ok::<(bool, nat), DecodeError>(
            (v, spec_bool_bytes(v).len()),
        ),
{
    lemma_varint_round_trip(
        if v {
            1
        } else {
            0
        },
        rest,
    );
}

pub proof fn lemma_sfixed32_round_trip(v: i32, rest: Seq<u8>)
    ensures
        spec_decode_sfixed32(spec_fixed32(low_u32(sign_extend(v as int))) + rest) == Ok::<
            (i32, nat),
            DecodeError,
        >((v, 4nat)),
{
    let w = low_u32(sign_extend(v as int));
    lemma_fixed32_round_trip(w, rest);
    if v < 0 {
        let x = sign_extend(v as int);
        assert(x == (0xffff_ffff as nat) * 0x1_0000_0000 + (v + 0x1_0000_0000));
        assert(x % 0x1_0000_0000 == v + 0x1_0000_0000);
    }
}

pub proof fn lemma_sfixed64_round_trip(v: i64, rest: Seq<u8>)
    ensures
        spec_decode_sfixed64(spec_fixed64(sign_extend(v as int) as u64) + rest) == Ok::<
            (i64, nat),
            DecodeError,
        >((v, 8nat)),
{
    lemma_fixed64_round_trip(sign_extend(v as int) as u64, rest);
}

pub proof fn lemma_bytes_round_trip(b: Seq<u8>, rest: Seq<u8>)
    requires
        b.len() <= u64::MAX,
    ensures
        spec_decode_bytes(spec_bytes_bytes(b) + rest) == Ok::<(Seq<u8>, nat), DecodeError>(
            (b, spec_bytes_bytes(b).len()),
        ),
{
    let n = spec_varint(b.len()).len();
    lemma_varint_round_trip(b.len() as u64, b + rest);
    assert(spec_bytes_bytes(b) + rest =~= spec_varint(b.len()) + (b + rest));
    assert((spec_bytes_bytes(b) + rest).subrange(n as int, (n + b.len()) as int) =~= b);
}

pub proof fn lemma_string_round_trip(s: Seq<char>, rest: Seq<u8>)
    requires
        vstd::utf8::encode_utf8(s).len() <= u64::MAX,
    ensures
        spec_decode_string(spec_string_bytes(s) + rest) == Ok::<(Seq<char>, nat), DecodeError>(
            (s, spec_string_bytes(s).len()),
        ),
{
    lemma_bytes_round_trip(vstd::utf8::encode_utf8(s), rest);
}

// ── Encoders ────────────────────────────────────────────────────────────

pub fn encode_int32(v: i32, buf: &mut Vec<u8>)
    ensures
        final(buf)@ == old(buf)@ + spec_int_bytes(v as int),
{
    encode_varint(sign_extend_i64(v as i64), buf);
}

pub fn encode_int64(v: i64, buf: &mut Vec<u8>)
    ensures
        final(buf)@ == old(buf)@ + spec_int_bytes(v as int),
{
    encode_varint(sign_extend_i64(v), buf);
}

pub fn encode_uint32(v: u32, buf: &mut Vec<u8>)
    ensures
        final(buf)@ == old(buf)@ + spec_uint_bytes(v as nat),
{
    encode_varint(v as u64, buf);
}

pub fn encode_uint64(v: u64, buf: &mut Vec<u8>)
    ensures
        final(buf)@ == old(buf)@ + spec_uint_bytes(v as nat),
{
    encode_varint(v, buf);
}

pub fn encode_sint32(v: i32, buf: &mut Vec<u8>)
    ensures
        final(buf)@ == old(buf)@ + spec_sint_bytes(v as int),
{
    encode_varint(zigzag32(v) as u64, buf);
}

pub fn encode_sint64(v: i64, buf: &mut Vec<u8>)
    ensures
        final(buf)@ == old(buf)@ + spec_sint_bytes(v as int),
{
    encode_varint(zigzag64(v), buf);
}

pub fn encode_bool(v: bool, buf: &mut Vec<u8>)
    ensures
        final(buf)@ == old(buf)@ + spec_bool_bytes(v),
{
    encode_varint(
        if v {
            1
        } else {
            0
        },
        buf,
    );
}

pub fn encode_sfixed32(v: i32, buf: &mut Vec<u8>)
    ensures
        final(buf)@ == old(buf)@ + spec_fixed32(low_u32(sign_extend(v as int))),
{
    let w: u32 = if v >= 0 {
        v as u32
    } else {
        (v as i64 + 0x1_0000_0000) as u32
    };
    proof {
        if v < 0 {
            let x = sign_extend(v as int);
            assert(x == (0xffff_ffff as nat) * 0x1_0000_0000 + (v + 0x1_0000_0000));
            assert(x % 0x1_0000_0000 == v + 0x1_0000_0000);
        }
    }
    encode_fixed32(w, buf);
}

pub fn encode_sfixed64(v: i64, buf: &mut Vec<u8>)
    ensures
        final(buf)@ == old(buf)@ + spec_fixed64(sign_extend(v as int) as u64),
{
    encode_fixed64(sign_extend_i64(v), buf);
}

pub fn encode_string(v: &str, buf: &mut Vec<u8>)
    ensures
        final(buf)@ == old(buf)@ + spec_string_bytes(v@),
{
    let bytes = v.as_bytes();
    encode_varint(bytes.len() as u64, buf);
    put_slice(buf, bytes);
    assert(old(buf)@ + spec_string_bytes(v@) =~= old(buf)@ + spec_varint(bytes@.len()) + bytes@);
}

pub fn encode_bytes(v: &[u8], buf: &mut Vec<u8>)
    ensures
        final(buf)@ == old(buf)@ + spec_bytes_bytes(v@),
{
    encode_varint(v.len() as u64, buf);
    put_slice(buf, v);
    assert(old(buf)@ + spec_bytes_bytes(v@) =~= old(buf)@ + spec_varint(v@.len()) + v@);
}

// ── Encoded lengths ─────────────────────────────────────────────────────

pub fn int32_encoded_len(v: i32) -> (r: usize)
    ensures
        r == spec_int_bytes(v as int).len(),
{
    varint_len(sign_extend_i64(v as i64))
}

pub fn int64_encoded_len(v: i64) -> (r: usize)
    ensures
        r == spec_int_bytes(v as int).len(),
{
    varint_len(sign_extend_i64(v))
}

pub fn uint32_encoded_len(v: u32) -> (r: usize)
    ensures
        r == spec_uint_bytes(v as nat).len(),
{
    varint_len(v as u64)
}

pub fn uint64_encoded_len(v: u64) -> (r: usize)
    ensures
        r == spec_uint_bytes(v as nat).len(),
{
    varint_len(v)
}

pub fn sint32_encoded_len(v: i32) -> (r: usize)
    ensures
        r == spec_sint_bytes(v as int).len(),
{
    varint_len(zigzag32(v) as u64)
}

pub fn sint64_encoded_len(v: i64) -> (r: usize)
    ensures
        r == spec_sint_bytes(v as int).len(),
{
    varint_len(zigzag64(v))
}

pub fn string_encoded_len(v: &str) -> (r: usize)
    requires
        spec_string_bytes(v@).len() <= usize::MAX,
    ensures
        r == spec_string_bytes(v@).len(),
{
    let n = v.as_bytes().len();
    varint_len(n as u64) + n
}

pub fn bytes_encoded_len(v: &[u8]) -> (r: usize)
    requires
        spec_bytes_bytes(v@).len() <= usize::MAX,
    ensures
        r == spec_bytes_bytes(v@).len(),
{
    varint_len(v.len() as u64) + v.len()
}

// ── Decoders ────────────────────────────────────────────────────────────

pub fn decode_int32(buf: &mut &[u8]) -> (r: Result<i32, DecodeError>)
    ensures
        match spec_decode_int32(old(buf)@) {
            Ok((v, n)) => r == Ok::<i32, DecodeError>(v) && final(buf)@ == old(buf)@.skip(n as int),
            Err(e) => r == Err::<i32, DecodeError>(e) && final(buf)@ == old(buf)@,
        },
{
    match decode_varint(buf) {
        Ok(x) => Ok(to_low_i32(x)),
        Err(e) => Err(e),
    }
}

pub fn decode_int64(buf: &mut &[u8]) -> (r: Result<i64, DecodeError>)
    ensures
        match spec_decode_int64(old(buf)@) {
            Ok((v, n)) => r == Ok::<i64, DecodeError>(v) && final(buf)@ == old(buf)@.skip(n as int),
            Err(e) => r == Err::<i64, DecodeError>(e) && final(buf)@ == old(buf)@,
        },
{
    match decode_varint(buf) {
        Ok(x) => Ok(to_word_i64(x)),
        Err(e) => Err(e),
    }
}

pub fn decode_uint32(buf: &mut &[u8]) -> (r: Result<u32, DecodeError>)
    ensures
        match spec_decode_uint32(old(buf)@) {
            Ok((v, n)) => r == Ok::<u32, DecodeError>(v) && final(buf)@ == old(buf)@.skip(n as int),
            Err(e) => r == Err::<u32, DecodeError>(e) && final(buf)@ == old(buf)@,
        },
{
    match decode_varint(buf) {
        Ok(x) => Ok((x % 0x1_0000_0000) as u32),
        Err(e) => Err(e),
    }
}

pub fn decode_uint64(buf: &mut &[u8]) -> (r: Result<u64, DecodeError>)
    ensures
        match spec_decode_uint64(old(buf)@) {
            Ok((v, n)) => r == Ok::<u64, DecodeError>(v) && final(buf)@ == old(buf)@.skip(n as int),
            Err(e) => r == Err::<u64, DecodeError>(e) && final(buf)@ == old(buf)@,
        },
{
    decode_varint(buf)
}

pub fn decode_sint32(buf: &mut &[u8]) -> (r: Result<i32, DecodeError>)
    ensures
        match spec_decode_sint32(old(buf)@) {
            Ok((v, n)) => r == Ok::<i32, DecodeError>(v) && final(buf)@ == old(buf)@.skip(n as int),
            Err(e) => r == Err::<i32, DecodeError>(e) && final(buf)@ == old(buf)@,
        },
{
    match decode_varint(buf) {
        Ok(x) => Ok(unzigzag32((x % 0x1_0000_0000) as u32)),
        Err(e) => Err(e),
    }
}

pub fn decode_sint64(buf: &mut &[u8]) -> (r: Result<i64, DecodeError>)
    ensures
        match spec_decode_sint64(old(buf)@) {
            Ok((v, n)) => r == Ok::<i64, DecodeError>(v) && final(buf)@ == old(buf)@.skip(n as int),
            Err(e) => r == Err::<i64, DecodeError>(e) && final(buf)@ == old(buf)@,
        },
{
    match decode_varint(buf) {
        Ok(x) => Ok(unzigzag64(x)),
        Err(e) => Err(e),
    }
}

pub fn decode_bool(buf: &mut &[u8]) -> (r: Result<bool, DecodeError>)
    ensures
        match spec_decode_bool(old(buf)@) {
            Ok((v, n)) => r == Ok::<bool, DecodeError>(v) && final(buf)@ == old(buf)@.skip(
                n as int,
            ),
            Err(e) => r == Err::<bool, DecodeError>(e) && final(buf)@ == old(buf)@,
        },
{
    match decode_varint(buf) {
        Ok(x) => Ok(x != 0),
        Err(e) => Err(e),
    }
}

pub fn decode_sfixed32(buf: &mut &[u8]) -> (r: Result<i32, DecodeError>)
    ensures
        match spec_decode_sfixed32(old(buf)@) {
            Ok((v, n)) => r == Ok::<i32, DecodeError>(v) && final(buf)@ == old(buf)@.skip(n as int),
            Err(e) => r == Err::<i32, DecodeError>(e) && final(buf)@ == old(buf)@,
        },
{
    match decode_fixed32(buf) {
        Ok(x) => Ok(to_low_i32(x as u64)),
        Err(e) => Err(e),
    }
}

pub fn decode_sfixed64(buf: &mut &[u8]) -> (r: Result<i64, DecodeError>)
    ensures
        match spec_decode_sfixed64(old(buf)@) {
            Ok((v, n)) => r == Ok::<i64, DecodeError>(v) && final(buf)@ == old(buf)@.skip(n as int),
            Err(e) => r == Err::<i64, DecodeError>(e) && final(buf)@ == old(buf)@,
        },
{
    match decode_fixed64(buf) {
        Ok(x) => Ok(to_word_i64(x)),
        Err(e) => Err(e),
    }
}

/// Read a length-delimited payload into a new vector.
pub fn decode_bytes(buf: &mut &[u8]) -> (r: Result<Vec<u8>, DecodeError>)
    ensures
        match spec_decode_bytes(old(buf)@) {
            Ok((b, n)) => r matches Ok(v) && v@ == b && final(buf)@ == old(buf)@.skip(n as int),
            Err(e) => r == Err::<Vec<u8>, DecodeError>(e) && final(buf)@ == old(buf)@,
        },
{
    let s: &[u8] = *buf;
    proof {
        lemma_decode_varint_consumed(s@);
    }
    let len = match decode_varint(buf) {
        Ok(l) => l,
        Err(e) => return Err(e),
    };
    if len > buf.len() as u64 {
        *buf = s;
        return Err(DecodeError::UnexpectedEof);
    }
    let rest: &[u8] = *buf;
    let n = len as usize;
    let mut out: Vec<u8> = Vec::new();
    let mut i: usize = 0;
    while i < n
        invariant
            i <= n,
            n <= rest@.len(),
            out@ == rest@.take(i as int),
        decreases n - i,
    {
        out.push(rest[i]);
        i = i + 1;
        assert(rest@.take(i as int) =~= rest@.take((i - 1) as int).push(rest@[i - 1]));
    }
    advance(buf, n);
    proof {
        let k = (s@.len() - rest@.len()) as int;
        assert(rest@ =~= s@.skip(k));
        assert(out@ =~= s@.subrange(k, k + n));
        assert(buf@ =~= s@.skip(k + n));
    }
    Ok(out)
}

/// `Some` string when `bytes` are UTF-8.
#[verifier::external_body]
fn string_from_utf8(bytes: Vec<u8>) -> (r: Option<String>)
    ensures
        r is Some <==> vstd::utf8::valid_utf8(bytes@),
        r matches Some(s) ==> s@ == vstd::utf8::decode_utf8(bytes@),
{
    String::from_utf8(bytes).ok()
}

/// Read a length-delimited UTF-8 payload into a new string.
pub fn decode_string(buf: &mut &[u8]) -> (r: Result<String, DecodeError>)
    ensures
        match spec_decode_string(old(buf)@) {
            Ok((s, n)) => r matches Ok(v) && v@ == s && final(buf)@ == old(buf)@.skip(n as int),
            Err(e) => r == Err::<String, DecodeError>(e) && is_suffix_of(final(buf)@, old(buf)@),
        },
{
    let s: &[u8] = *buf;
    let bytes = match decode_bytes(buf) {
        Ok(b) => b,
        Err(e) => {
            assert(s@.skip(0) =~= s@);
            return Err(e);
        },
    };
    match string_from_utf8(bytes) {
        Some(st) => Ok(st),
        None => {
            *buf = s;
            assert(s@.skip(0) =~= s@);
            Err(DecodeError::InvalidUtf8)
        },
    }
}

} // verus!
