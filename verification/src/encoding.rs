//! Varints, fixed-width little-endian integers, tags and field skipping.
//!
//! Input buffers are byte slices that a decoder advances past what it has
//! read (`&mut &[u8]`); output buffers are growable vectors (`&mut Vec<u8>`).
use vstd::prelude::*;

use crate::error::{DecodeError, WireType};

verus! {

// ── Buffers ──────────────────────────────────────────────────────────────

/// `rest` is what is left of `input` after some prefix of it was read.
pub open spec fn is_suffix_of(rest: Seq<u8>, input: Seq<u8>) -> bool {
    &&& rest.len() <= input.len()
    &&& rest == input.skip(input.len() - rest.len())
}

pub proof fn lemma_suffix_of_self(s: Seq<u8>)
    ensures
        is_suffix_of(s, s),
{
    assert(s.skip(0) =~= s);
}

pub proof fn lemma_suffix_of_trans(a: Seq<u8>, b: Seq<u8>, c: Seq<u8>)
    requires
        is_suffix_of(a, b),
        is_suffix_of(b, c),
    ensures
        is_suffix_of(a, c),
{
    assert(a =~= c.skip(c.len() - a.len()));
}

/// Drop the first `n` bytes of `buf`.
pub fn advance(buf: &mut &[u8], n: usize)
    requires
        n <= old(buf)@.len(),
    ensures
        final(buf)@ == old(buf)@.skip(n as int),
{
    let s: &[u8] = *buf;
    let len = s.len();
    *buf = &s[n..len];
    assert(buf@ =~= old(buf)@.skip(n as int));
}

/// Append `bytes` to `buf`.
pub fn put_slice(buf: &mut Vec<u8>, bytes: &[u8])
    ensures
        final(buf)@ == old(buf)@ + bytes@,
{
    let ghost start = buf@;
    let mut i: usize = 0;
    while i < bytes.len()
        invariant
            i <= bytes@.len(),
            buf@ == start + bytes@.take(i as int),
        decreases bytes@.len() - i,
    {
        buf.push(bytes[i]);
        i = i + 1;
        assert(bytes@.take(i as int) =~= bytes@.take((i - 1) as int).push(bytes@[i - 1]));
    }
    assert(bytes@.take(i as int) =~= bytes@);
}

// ── Powers ───────────────────────────────────────────────────────────────

/// `base` raised to `exp`.
pub open spec fn power(base: nat, exp: nat) -> nat
    decreases exp,
{
    if exp == 0 {
        1
    } else {
        base * power(base, (exp - 1) as nat)
    }
}

pub proof fn lemma_power_positive(base: nat, exp: nat)
    requires
        base >= 1,
    ensures
        power(base, exp) >= 1,
    decreases exp,
{
    if exp > 0 {
        lemma_power_positive(base, (exp - 1) as nat);
        assert(base * power(base, (exp - 1) as nat) >= 1) by (nonlinear_arith)
            requires
                base >= 1,
                power(base, (exp - 1) as nat) >= 1,
        ;
    }
}

proof fn lemma_power_monotonic(base: nat, a: nat, b: nat)
    requires
        base >= 1,
        a <= b,
    ensures
        power(base, a) <= power(base, b),
    decreases b,
{
    if a < b {
        lemma_power_monotonic(base, a, (b - 1) as nat);
        lemma_power_positive(base, (b - 1) as nat);
        assert(power(base, (b - 1) as nat) <= base * power(base, (b - 1) as nat)) by (nonlinear_arith)
            requires
                base >= 1,
                power(base, (b - 1) as nat) >= 1,
        ;
    }
}

// ── Varints ──────────────────────────────────────────────────────────────

/// The base-128 varint encoding of `v`: seven bits per byte, least
/// significant group first, the high bit set on every byte but the last.
pub open spec fn spec_varint(v: nat) -> Seq<u8>
    decreases v,
{
    if v < 128 {
        seq![v as u8]
    } else {
        seq![(v % 128 + 128) as u8] + spec_varint(v / 128)
    }
}

/// The value of the varint digits at the front of `input`, read with at
/// most `budget` bytes, with the number of bytes read.
pub open spec fn varint_digits(input: Seq<u8>, budget: nat) -> Result<(nat, nat), DecodeError>
    decreases budget,
{
    if budget == 0 {
        Err(DecodeError::InvalidVarint)
    } else if input.len() == 0 {
        Err(DecodeError::UnexpectedEof)
    } else if input[0] < 128 {
        Ok((input[0] as nat, 1nat))
    } else {
        match varint_digits(input.drop_first(), (budget - 1) as nat) {
            Ok((v, n)) => Ok((((input[0] - 128) + 128 * v) as nat, n + 1)),
            Err(e) => Err(e),
        }
    }
}

/// Decoding a varint: at most ten bytes, and the value must fit in 64 bits.
pub open spec fn spec_decode_varint(input: Seq<u8>) -> Result<(u64, nat), DecodeError> {
    match varint_digits(input, 10) {
        Ok((v, n)) => if v <= u64::MAX {
            Ok((v as u64, n))
        } else {
            Err(DecodeError::InvalidVarint)
        },
        Err(e) => Err(e),
    }
}

pub proof fn lemma_varint_len(v: nat, k: nat)
    requires
        v < power(128, k),
        k >= 1,
    ensures
        1 <= spec_varint(v).len() <= k,
    decreases v,
{
    if v >= 128 {
        assert(k >= 2) by {
            if k == 1 {
                assert(power(128, 1) == 128 * power(128, 0));
            }
        }
        let p = power(128, (k - 1) as nat);
        assert(power(128, k) == 128 * p);
        assert(v / 128 < p) by (nonlinear_arith)
            requires
                v < 128 * p,
        ;
        lemma_varint_len(v / 128, (k - 1) as nat);
        assert(spec_varint(v).len() == 1 + spec_varint(v / 128).len());
    }
}

pub proof fn lemma_u64_below_power_128_10(v: u64)
    ensures
        (v as nat) < power(128, 10),
{
    reveal_with_fuel(power, 11);
    assert(power(128, 10) == 1180591620717411303424nat);
}

/// A u64 varint takes one to ten bytes.
pub proof fn lemma_varint_len_u64(v: u64)
    ensures
        1 <= spec_varint(v as nat).len() <= 10,
{
    lemma_u64_below_power_128_10(v);
    lemma_varint_len(v as nat, 10);
}

/// Reading the digits of `spec_varint(v)` gives `v` back and stops after it.
proof fn lemma_varint_digits(v: nat, rest: Seq<u8>, budget: nat)
    requires
        spec_varint(v).len() <= budget,
    ensures
        varint_digits(spec_varint(v) + rest, budget) == Ok::<(nat, nat), DecodeError>(
            (v, spec_varint(v).len()),
        ),
    decreases v,
{
    let s = spec_varint(v) + rest;
    if v < 128 {
        assert(s[0] == v as u8);
    } else {
        let tail = spec_varint(v / 128);
        assert(s.drop_first() =~= tail + rest);
        assert(spec_varint(v).len() == 1 + tail.len());
        lemma_varint_digits(v / 128, rest, (budget - 1) as nat);
        assert(s[0] == (v % 128 + 128) as u8);
    }
}

/// Decoding after encoding gives the value back and consumes exactly the
/// encoding.
pub proof fn lemma_varint_round_trip(v: u64, rest: Seq<u8>)
    ensures
        spec_decode_varint(spec_varint(v as nat) + rest) == Ok::<(u64, nat), DecodeError>(
            (v, spec_varint(v as nat).len()),
        ),
{
    lemma_varint_len_u64(v);
    lemma_varint_digits(v as nat, rest, 10);
}

/// The value of the first `i` digits of `input` (all continuation bytes).
spec fn digits_prefix(input: Seq<u8>, i: nat) -> nat
    decreases i,
{
    if i == 0 || input.len() == 0 {
        0
    } else {
        ((input[0] - 128) + 128 * digits_prefix(input.drop_first(), (i - 1) as nat)) as nat
    }
}

proof fn lemma_digits_prefix_step(input: Seq<u8>, i: nat)
    requires
        i < input.len(),
        forall|j: int| 0 <= j <= i ==> input[j] >= 128,
    ensures
        digits_prefix(input, i + 1) == digits_prefix(input, i) + (input[i as int] - 128) * power(
            128,
            i,
        ),
    decreases i,
{
    if i > 0 {
        let t = input.drop_first();
        lemma_digits_prefix_step(t, (i - 1) as nat);
        assert(t[(i - 1) as int] == input[i as int]);
        let p = power(128, (i - 1) as nat);
        let d = (input[i as int] - 128) as int;
        let x = digits_prefix(t, (i - 1) as nat);
        assert(power(128, i) == 128 * p);
        assert(128 * (d * p) == d * (128 * p)) by (nonlinear_arith);
        assert(digits_prefix(t, i) == x + d * p);
        assert(digits_prefix(input, i) == (input[0] - 128) + 128 * x);
        assert(digits_prefix(input, i + 1) == (input[0] - 128) + 128 * digits_prefix(t, i));
    } else {
        assert(power(128, 0) == 1);
        assert(digits_prefix(input.drop_first(), 0) == 0);
    }
}

proof fn lemma_digits_prefix_bound(input: Seq<u8>, i: nat)
    requires
        i <= input.len(),
        forall|j: int| 0 <= j < i ==> input[j] >= 128,
    ensures
        digits_prefix(input, i) < power(128, i),
    decreases i,
{
    if i > 0 {
        let t = input.drop_first();
        lemma_digits_prefix_bound(t, (i - 1) as nat);
        let p = power(128, (i - 1) as nat);
        let x = digits_prefix(t, (i - 1) as nat);
        assert(input[0] - 128 <= 127);
        assert((input[0] - 128) + 128 * x < 128 * p) by (nonlinear_arith)
            requires
                x < p,
                input[0] - 128 <= 127,
                input[0] - 128 >= 0,
        ;
    }
}

/// Reading past `i` continuation bytes: the digits so far weigh
/// `digits_prefix`, the rest is shifted by `128^i`.
proof fn lemma_varint_digits_skip(input: Seq<u8>, i: nat, budget: nat)
    requires
        i <= input.len(),
        i <= budget,
        forall|j: int| 0 <= j < i ==> input[j] >= 128,
    ensures
        varint_digits(input, budget) == match varint_digits(
            input.skip(i as int),
            (budget - i) as nat,
        ) {
            Ok((v, n)) => Ok((digits_prefix(input, i) + power(128, i) * v, n + i)),
            Err(e) => Err(e),
        },
    decreases i,
{
    if i > 0 {
        let t = input.drop_first();
        lemma_varint_digits_skip(t, (i - 1) as nat, (budget - 1) as nat);
        assert(t.skip((i - 1) as int) =~= input.skip(i as int));
        let p = power(128, (i - 1) as nat);
        assert(power(128, i) == 128 * p);
        let x = digits_prefix(t, (i - 1) as nat);
        assert((budget - 1 - (i - 1)) as nat == (budget - i) as nat);
        assert(digits_prefix(input, i) == (input[0] - 128) + 128 * x);
        match varint_digits(input.skip(i as int), (budget - i) as nat) {
            Ok((v, n)) => {
                assert(128 * (x + p * v) == 128 * x + (128 * p) * v) by (nonlinear_arith);
                assert(varint_digits(t, (budget - 1) as nat) == Ok::<(nat, nat), DecodeError>(
                    (x + p * v, (n + (i - 1)) as nat),
                ));
            },
            Err(e) => {
                assert(varint_digits(t, (budget - 1) as nat) == Err::<(nat, nat), DecodeError>(e));
            },
        }
    } else {
        assert(input.skip(0) =~= input);
        assert(power(128, 0) == 1);
        assert(digits_prefix(input, 0) == 0);
    }
}

/// Append the varint encoding of `value` to `buf`.
pub fn encode_varint(value: u64, buf: &mut Vec<u8>)
    ensures
        final(buf)@ == old(buf)@ + spec_varint(value as nat),
{
    let ghost start = buf@;
    let mut v = value;
    while v >= 128
        invariant
            start + spec_varint(value as nat) == buf@ + spec_varint(v as nat),
        decreases v,
    {
        let ghost before = buf@;
        buf.push((v % 128 + 128) as u8);
        assert(spec_varint(v as nat) =~= seq![(v % 128 + 128) as u8] + spec_varint(
            (v / 128) as nat,
        ));
        assert(before + spec_varint(v as nat) =~= buf@ + spec_varint((v / 128) as nat));
        v = v / 128;
    }
    buf.push(v as u8);
    assert(spec_varint(v as nat) =~= seq![v as u8]);
}

/// The number of bytes `encode_varint` writes for `value`.
pub fn varint_len(value: u64) -> (r: usize)
    ensures
        r == spec_varint(value as nat).len(),
        1 <= r <= 10,
{
    proof {
        lemma_varint_len_u64(value);
    }
    let mut v = value;
    let mut n: usize = 1;
    while v >= 128
        invariant
            n + spec_varint(v as nat).len() - 1 == spec_varint(value as nat).len(),
            spec_varint(value as nat).len() <= 10,
            spec_varint(v as nat).len() >= 1,
        decreases v,
    {
        proof {
            lemma_varint_len_u64((v / 128) as u64);
        }
        v = v / 128;
        n = n + 1;
    }
    n
}

/// Decode a varint from the front of `buf`. On success `buf` is advanced
/// past it; on failure `buf` is left as it was.
pub fn decode_varint(buf: &mut &[u8]) -> (r: Result<u64, DecodeError>)
    ensures
        match spec_decode_varint(old(buf)@) {
            Ok((v, n)) => r == Ok::<u64, DecodeError>(v) && final(buf)@ == old(buf)@.skip(n as int),
            Err(e) => r == Err::<u64, DecodeError>(e) && final(buf)@ == old(buf)@,
        },
{
    let s: &[u8] = *buf;
    let ghost input = s@;
    let mut value: u64 = 0;
    let mut mult: u64 = 1;
    let mut i: usize = 0;
    proof {
        reveal_with_fuel(power, 1);
        lemma_varint_digits_skip(input, 0, 10);
        assert(input.skip(0) =~= input);
        lemma_power_monotonic(128, 0, 9);
    }
    loop
        invariant
            s@ == input,
            input == old(buf)@,
            *buf == s,
            i < 10,
            i <= input.len(),
            forall|j: int| 0 <= j < i ==> input[j] >= 128,
            value == digits_prefix(input, i as nat),
            mult == power(128, i as nat),
            value < mult,
            mult <= power(128, 9),
        decreases 10 - i,
    {
        proof {
            lemma_varint_digits_skip(input, i as nat, 10);
        }
        if i >= s.len() {
            assert(input.skip(i as int).len() == 0);
            return Err(DecodeError::UnexpectedEof);
        }
        let b = s[i];
        let ghost rest = input.skip(i as int);
        assert(rest[0] == b);
        if b < 128 {
            if i == 9 && b > 1 {
                proof {
                    reveal_with_fuel(power, 10);
                    assert(power(128, 9) == 9223372036854775808nat);
                    assert(mult * b >= 2 * mult) by (nonlinear_arith)
                        requires
                            b >= 2,
                    ;
                }
                return Err(DecodeError::InvalidVarint);
            }
            proof {
                if i == 9 {
                    reveal_with_fuel(power, 10);
                    assert(power(128, 9) == 9223372036854775808nat);
                }
                assert(mult * b <= mult * 127 || (i == 9 && b <= 1)) by (nonlinear_arith)
                    requires
                        b < 128,
                        i == 9 ==> b <= 1,
                ;
                assert(power(128, 9) == 128 * power(128, 8)) by {
                    reveal_with_fuel(power, 2);
                }
                if i < 9 {
                    lemma_power_monotonic(128, (i + 1) as nat, 9);
                    assert(power(128, (i + 1) as nat) == 128 * power(128, i as nat));
                    assert(mult * b < 128 * mult) by (nonlinear_arith)
                        requires
                            b < 128,
                            mult >= 1,
                    ;
                } else {
                    assert(mult * b <= mult) by (nonlinear_arith)
                        requires
                            b <= 1,
                    ;
                }
            }
            let result = value + mult * (b as u64);
            advance(buf, i + 1);
            return Ok(result);
        }
        if i == 9 {
            proof {
                reveal_with_fuel(varint_digits, 2);
            }
            return Err(DecodeError::InvalidVarint);
        }
        proof {
            lemma_digits_prefix_step(input, i as nat);
            lemma_power_monotonic(128, (i + 1) as nat, 9);
            assert(power(128, (i + 1) as nat) == 128 * power(128, i as nat));
            assert(value + mult * (b - 128) < 128 * mult) by (nonlinear_arith)
                requires
                    value < mult,
                    b - 128 <= 127,
                    b >= 128,
            ;
            assert(mult * (b - 128) == (b - 128) * mult) by (nonlinear_arith);
            assert(power(128, 9) == 9223372036854775808nat) by {
                reveal_with_fuel(power, 10);
            }
        }
        value = value + mult * ((b - 128) as u64);
        mult = mult * 128;
        i = i + 1;
    }
}


proof fn lemma_varint_digits_consumed(input: Seq<u8>, budget: nat)
    ensures
        varint_digits(input, budget) matches Ok((v, n)) ==> 1 <= n <= input.len() && n <= budget,
    decreases budget,
{
    if budget > 0 && input.len() > 0 && input[0] >= 128 {
        lemma_varint_digits_consumed(input.drop_first(), (budget - 1) as nat);
    }
}

/// A decoded varint occupies one to ten bytes of the input.
pub proof fn lemma_decode_varint_consumed(input: Seq<u8>)
    ensures
        spec_decode_varint(input) matches Ok((v, n)) ==> 1 <= n <= input.len() && n <= 10,
{
    lemma_varint_digits_consumed(input, 10);
}

// ── Fixed-width little-endian integers ──────────────────────────────────

/// The `n` low bytes of `v`, least significant first.
pub open spec fn spec_le_bytes(v: nat, n: nat) -> Seq<u8>
    decreases n,
{
    if n == 0 {
        Seq::empty()
    } else {
        seq![(v % 256) as u8] + spec_le_bytes(v / 256, (n - 1) as nat)
    }
}

/// The little-endian value of `s`.
pub open spec fn spec_le_value(s: Seq<u8>) -> nat
    decreases s.len(),
{
    if s.len() == 0 {
        0
    } else {
        (s[0] + 256 * spec_le_value(s.drop_first())) as nat
    }
}

pub proof fn lemma_le_round_trip(v: nat, n: nat)
    requires
        v < power(256, n),
    ensures
        spec_le_bytes(v, n).len() == n,
        spec_le_value(spec_le_bytes(v, n)) == v,
    decreases n,
{
    if n > 0 {
        let p = power(256, (n - 1) as nat);
        assert(v / 256 < p) by (nonlinear_arith)
            requires
                v < 256 * p,
        ;
        lemma_le_round_trip(v / 256, (n - 1) as nat);
        assert(spec_le_bytes(v, n).drop_first() =~= spec_le_bytes(v / 256, (n - 1) as nat));
    } else {
        assert(power(256, 0) == 1);
    }
}

proof fn lemma_le_value_bound(s: Seq<u8>)
    ensures
        spec_le_value(s) < power(256, s.len()),
    decreases s.len(),
{
    if s.len() > 0 {
        lemma_le_value_bound(s.drop_first());
        let x = spec_le_value(s.drop_first());
        let p = power(256, (s.len() - 1) as nat);
        assert(s[0] + 256 * x < 256 * p) by (nonlinear_arith)
            requires
                x < p,
                s[0] < 256,
        ;
    }
}

proof fn lemma_power_256_values()
    ensures
        power(256, 4) == 0x1_0000_0000nat,
        power(256, 8) == 0x1_0000_0000_0000_0000nat,
{
    reveal_with_fuel(power, 9);
}

/// Append the `n` low bytes of `value`, least significant first.
fn encode_le(value: u64, n: usize, buf: &mut Vec<u8>)
    requires
        n <= 8,
    ensures
        final(buf)@ == old(buf)@ + spec_le_bytes(value as nat, n as nat),
{
    let ghost start = buf@;
    let mut v = value;
    let mut i: usize = 0;
    while i < n
        invariant
            i <= n,
            start + spec_le_bytes(value as nat, n as nat) == buf@ + spec_le_bytes(
                v as nat,
                (n - i) as nat,
            ),
        decreases n - i,
    {
        let ghost before = buf@;
        buf.push((v % 256) as u8);
        assert(spec_le_bytes(v as nat, (n - i) as nat) =~= seq![(v % 256) as u8] + spec_le_bytes(
            (v / 256) as nat,
            (n - i - 1) as nat,
        ));
        assert(before + spec_le_bytes(v as nat, (n - i) as nat) =~= buf@ + spec_le_bytes(
            (v / 256) as nat,
            (n - i - 1) as nat,
        ));
        v = v / 256;
        i = i + 1;
    }
    assert(spec_le_bytes(v as nat, 0) =~= Seq::<u8>::empty());
    assert(buf@ + Seq::<u8>::empty() =~= buf@);
}

/// Read `n` little-endian bytes from the front of `buf`.
fn decode_le(buf: &mut &[u8], n: usize) -> (r: Result<u64, DecodeError>)
    requires
        n <= 8,
    ensures
        old(buf)@.len() >= n ==> r == Ok::<u64, DecodeError>(
            spec_le_value(old(buf)@.take(n as int)) as u64,
        ) && final(buf)@ == old(buf)@.skip(n as int) && spec_le_value(old(buf)@.take(n as int))
            < power(256, n as nat),
        old(buf)@.len() < n ==> r == Err::<u64, DecodeError>(DecodeError::UnexpectedEof)
            && final(buf)@ == old(buf)@,
{
    let s: &[u8] = *buf;
    if s.len() < n {
        return Err(DecodeError::UnexpectedEof);
    }
    let ghost bytes = s@.take(n as int);
    let mut value: u64 = 0;
    let mut j: usize = n;
    proof {
        assert(bytes.subrange(n as int, n as int) =~= Seq::<u8>::empty());
        lemma_power_256_values();
        lemma_power_monotonic(256, n as nat, 8);
    }
    while j > 0
        invariant
            j <= n,
            n <= 8,
            n <= s@.len(),
            bytes == s@.take(n as int),
            value == spec_le_value(bytes.subrange(j as int, n as int)),
            power(256, 8) == 0x1_0000_0000_0000_0000nat,
        decreases j,
    {
        let ghost tail = bytes.subrange(j as int, n as int);
        let ghost longer = bytes.subrange(j - 1, n as int);
        proof {
            assert(longer.drop_first() =~= tail);
            lemma_le_value_bound(tail);
            lemma_power_monotonic(256, tail.len(), 7);
            assert(power(256, 8) == 256 * power(256, 7));
            assert(s@[j - 1] + 256 * value < 256 * power(256, 7)) by (nonlinear_arith)
                requires
                    value < power(256, 7),
                    s@[j - 1] < 256,
            ;
        }
        value = s[j - 1] as u64 + 256 * value;
        j = j - 1;
    }
    proof {
        assert(bytes.subrange(0, n as int) =~= bytes);
        lemma_le_value_bound(bytes);
    }
    advance(buf, n);
    Ok(value)
}

/// The four little-endian bytes of `v`.
pub open spec fn spec_fixed32(v: u32) -> Seq<u8> {
    spec_le_bytes(v as nat, 4)
}

/// The eight little-endian bytes of `v`.
pub open spec fn spec_fixed64(v: u64) -> Seq<u8> {
    spec_le_bytes(v as nat, 8)
}

/// Reading four little-endian bytes.
pub open spec fn spec_decode_fixed32(input: Seq<u8>) -> Result<(u32, nat), DecodeError> {
    if input.len() >= 4 {
        Ok((spec_le_value(input.take(4)) as u32, 4nat))
    } else {
        Err(DecodeError::UnexpectedEof)
    }
}

/// Reading eight little-endian bytes.
pub open spec fn spec_decode_fixed64(input: Seq<u8>) -> Result<(u64, nat), DecodeError> {
    if input.len() >= 8 {
        Ok((spec_le_value(input.take(8)) as u64, 8nat))
    } else {
        Err(DecodeError::UnexpectedEof)
    }
}

pub proof fn lemma_fixed32_round_trip(v: u32, rest: Seq<u8>)
    ensures
        spec_fixed32(v).len() == 4,
        spec_decode_fixed32(spec_fixed32(v) + rest) == Ok::<(u32, nat), DecodeError>((v, 4nat)),
{
    lemma_power_256_values();
    lemma_le_round_trip(v as nat, 4);
    assert((spec_fixed32(v) + rest).take(4) =~= spec_fixed32(v));
}

pub proof fn lemma_fixed64_round_trip(v: u64, rest: Seq<u8>)
    ensures
        spec_fixed64(v).len() == 8,
        spec_decode_fixed64(spec_fixed64(v) + rest) == Ok::<(u64, nat), DecodeError>((v, 8nat)),
{
    lemma_power_256_values();
    lemma_le_round_trip(v as nat, 8);
    assert((spec_fixed64(v) + rest).take(8) =~= spec_fixed64(v));
}

/// Append `v` as four little-endian bytes.
pub fn encode_fixed32(v: u32, buf: &mut Vec<u8>)
    ensures
        final(buf)@ == old(buf)@ + spec_fixed32(v),
{
    encode_le(v as u64, 4, buf);
}

/// Append `v` as eight little-endian bytes.
pub fn encode_fixed64(v: u64, buf: &mut Vec<u8>)
    ensures
        final(buf)@ == old(buf)@ + spec_fixed64(v),
{
    encode_le(v, 8, buf);
}

/// Read four little-endian bytes; `buf` is left as it was on failure.
pub fn decode_fixed32(buf: &mut &[u8]) -> (r: Result<u32, DecodeError>)
    ensures
        match spec_decode_fixed32(old(buf)@) {
            Ok((v, n)) => r == Ok::<u32, DecodeError>(v) && final(buf)@ == old(buf)@.skip(n as int),
            Err(e) => r == Err::<u32, DecodeError>(e) && final(buf)@ == old(buf)@,
        },
{
    proof {
        lemma_power_256_values();
    }
    match decode_le(buf, 4) {
        Ok(v) => Ok(v as u32),
        Err(e) => Err(e),
    }
}

/// Read eight little-endian bytes; `buf` is left as it was on failure.
pub fn decode_fixed64(buf: &mut &[u8]) -> (r: Result<u64, DecodeError>)
    ensures
        match spec_decode_fixed64(old(buf)@) {
            Ok((v, n)) => r == Ok::<u64, DecodeError>(v) && final(buf)@ == old(buf)@.skip(n as int),
            Err(e) => r == Err::<u64, DecodeError>(e) && final(buf)@ == old(buf)@,
        },
{
    decode_le(buf, 8)
}


// ── Tags ─────────────────────────────────────────────────────────────────

/// The three low bits that name a wire type.
pub open spec fn wire_type_code(w: WireType) -> nat {
    match w {
        WireType::Varint => 0,
        WireType::Fixed64 => 1,
        WireType::LengthDelimited => 2,
        WireType::StartGroup => 3,
        WireType::EndGroup => 4,
        WireType::Fixed32 => 5,
    }
}

/// The wire type a code names (codes above five name none).
pub open spec fn wire_type_of(code: nat) -> WireType {
    if code == 0 {
        WireType::Varint
    } else if code == 1 {
        WireType::Fixed64
    } else if code == 2 {
        WireType::LengthDelimited
    } else if code == 3 {
        WireType::StartGroup
    } else if code == 4 {
        WireType::EndGroup
    } else {
        WireType::Fixed32
    }
}

/// A field key: field number and wire type.
#[derive(Clone, Copy, Debug, PartialEq, Eq, Structural)]
pub struct Tag {
    pub field_number: u32,
    pub wire_type: WireType,
}

/// The key a tag is written as: `field_number << 3 | wire_type`.
pub open spec fn spec_tag_key(t: Tag) -> nat {
    (t.field_number * 8 + wire_type_code(t.wire_type)) as nat
}

/// The bytes a tag is written as.
pub open spec fn spec_tag_bytes(t: Tag) -> Seq<u8> {
    spec_varint(spec_tag_key(t))
}

/// The field numbers a tag can carry through a round trip.
pub open spec fn valid_field_number(f: u32) -> bool {
    1 <= f < 0x2000_0000
}

/// Reading a tag: a varint key that fits in 32 bits, with a known wire type
/// and a non-zero field number.
pub open spec fn spec_decode_tag(input: Seq<u8>) -> Result<(Tag, nat), DecodeError> {
    match spec_decode_varint(input) {
        Err(e) => Err(e),
        Ok((key, n)) => if key > u32::MAX {
            Err(DecodeError::InvalidTag)
        } else if key % 8 > 5 {
            Err(DecodeError::InvalidWireType)
        } else if key / 8 == 0 {
            Err(DecodeError::InvalidTag)
        } else {
            Ok((Tag { field_number: (key / 8) as u32, wire_type: wire_type_of((key % 8) as nat) }, n))
        },
    }
}

pub proof fn lemma_tag_round_trip(t: Tag, rest: Seq<u8>)
    requires
        valid_field_number(t.field_number),
    ensures
        spec_decode_tag(spec_tag_bytes(t) + rest) == Ok::<(Tag, nat), DecodeError>(
            (t, spec_tag_bytes(t).len()),
        ),
{
    let key = spec_tag_key(t);
    assert(key <= u64::MAX);
    lemma_varint_round_trip(key as u64, rest);
    assert(key % 8 == wire_type_code(t.wire_type));
    assert(key / 8 == t.field_number);
}

/// A tag for field 1 or 2 takes a single byte.
pub proof fn lemma_small_tag_len(t: Tag)
    requires
        1 <= t.field_number <= 2,
    ensures
        spec_tag_bytes(t).len() == 1,
{
}

impl Tag {
    /// A tag for `field_number` carrying `wire_type`.
    pub fn new(field_number: u32, wire_type: WireType) -> (t: Tag)
        ensures
            t.field_number == field_number,
            t.wire_type == wire_type,
    {
        Tag { field_number, wire_type }
    }

    /// The field number.
    pub fn field_number(&self) -> (r: u32)
        ensures
            r == self.field_number,
    {
        self.field_number
    }

    /// The wire type.
    pub fn wire_type(&self) -> (r: WireType)
        ensures
            r == self.wire_type,
    {
        self.wire_type
    }

    /// Append the tag's key as a varint.
    pub fn encode(&self, buf: &mut Vec<u8>)
        ensures
            final(buf)@ == old(buf)@ + spec_tag_bytes(*self),
    {
        let code: u64 = match self.wire_type {
            WireType::Varint => 0,
            WireType::Fixed64 => 1,
            WireType::LengthDelimited => 2,
            WireType::StartGroup => 3,
            WireType::EndGroup => 4,
            WireType::Fixed32 => 5,
        };
        encode_varint(self.field_number as u64 * 8 + code, buf);
    }

    /// Read a tag from the front of `buf`; `buf` is left as it was on failure.
    pub fn decode(buf: &mut &[u8]) -> (r: Result<Tag, DecodeError>)
        ensures
            match spec_decode_tag(old(buf)@) {
                Ok((t, n)) => r == Ok::<Tag, DecodeError>(t) && final(buf)@ == old(buf)@.skip(
                    n as int,
                ),
                Err(e) => r == Err::<Tag, DecodeError>(e) && final(buf)@ == old(buf)@,
            },
    {
        let s: &[u8] = *buf;
        let key = match decode_varint(buf) {
            Ok(k) => k,
            Err(e) => return Err(e),
        };
        if key > 0xffff_ffff {
            *buf = s;
            return Err(DecodeError::InvalidTag);
        }
        let code = key % 8;
        if code > 5 {
            *buf = s;
            return Err(DecodeError::InvalidWireType);
        }
        if key / 8 == 0 {
            *buf = s;
            return Err(DecodeError::InvalidTag);
        }
        let wire_type = if code == 0 {
            WireType::Varint
        } else if code == 1 {
            WireType::Fixed64
        } else if code == 2 {
            WireType::LengthDelimited
        } else if code == 3 {
            WireType::StartGroup
        } else if code == 4 {
            WireType::EndGroup
        } else {
            WireType::Fixed32
        };
        Ok(Tag { field_number: (key / 8) as u32, wire_type })
    }
}

/// `Ok` when `tag` carries `expected`, else the mismatch.
pub fn check_wire_type(tag: Tag, expected: WireType) -> (r: Result<(), DecodeError>)
    ensures
        r == if tag.wire_type == expected {
            Ok::<(), DecodeError>(())
        } else {
            Err(DecodeError::WireTypeMismatch { expected, actual: tag.wire_type })
        },
{
    if tag.wire_type == expected {
        Ok(())
    } else {
        Err(DecodeError::WireTypeMismatch { expected, actual: tag.wire_type })
    }
}

// ── Skipping unknown fields ─────────────────────────────────────────────

/// The number of bytes the payload of a field tagged `tag` occupies at the
/// front of `input`. A group may nest at most `depth` further groups.
pub open spec fn spec_skip_field(tag: Tag, input: Seq<u8>, depth: u32) -> Result<nat, DecodeError>
    decreases input.len(), 1nat,
{
    match tag.wire_type {
        WireType::Varint => match spec_decode_varint(input) {
            Ok((_v, n)) => Ok(n),
            Err(e) => Err(e),
        },
        WireType::Fixed64 => if input.len() >= 8 {
            Ok(8)
        } else {
            Err(DecodeError::UnexpectedEof)
        },
        WireType::Fixed32 => if input.len() >= 4 {
            Ok(4)
        } else {
            Err(DecodeError::UnexpectedEof)
        },
        WireType::LengthDelimited => match spec_decode_varint(input) {
            Ok((len, n)) => if n <= input.len() && len <= input.len() - n {
                Ok((n + len) as nat)
            } else {
                Err(DecodeError::UnexpectedEof)
            },
            Err(e) => Err(e),
        },
        WireType::StartGroup => if depth == 0 {
            Err(DecodeError::RecursionLimitExceeded)
        } else {
            spec_skip_group(tag.field_number, input, (depth - 1) as u32)
        },
        WireType::EndGroup => Err(DecodeError::UnexpectedEndGroup),
    }
}

/// The number of bytes a group body and its closing tag occupy at the front
/// of `input`.
pub open spec fn spec_skip_group(field_number: u32, input: Seq<u8>, depth: u32) -> Result<
    nat,
    DecodeError,
>
    decreases input.len(), 0nat,
{
    match spec_decode_tag(input) {
        Err(e) => Err(e),
        Ok((t, n1)) => if n1 == 0 || n1 > input.len() {
            Err(DecodeError::UnexpectedEof)
        } else if t.wire_type == WireType::EndGroup {
            if t.field_number == field_number {
                Ok(n1)
            } else {
                Err(DecodeError::UnexpectedEndGroup)
            }
        } else {
            match spec_skip_field(t, input.skip(n1 as int), depth) {
                Err(e) => Err(e),
                Ok(n2) => if n1 + n2 > input.len() {
                    Err(DecodeError::UnexpectedEof)
                } else {
                    match spec_skip_group(field_number, input.skip((n1 + n2) as int), depth) {
                        Ok(n3) => Ok(n1 + n2 + n3),
                        Err(e) => Err(e),
                    }
                },
            }
        },
    }
}

/// Skip the payload of a field tagged `tag`. On success `buf` is advanced
/// past exactly that payload.
pub fn skip_field_depth(tag: Tag, buf: &mut &[u8], depth: u32) -> (r: Result<(), DecodeError>)
    ensures
        match spec_skip_field(tag, old(buf)@, depth) {
            Ok(n) => r is Ok && n <= old(buf)@.len() && final(buf)@ == old(buf)@.skip(n as int),
            Err(e) => r == Err::<(), DecodeError>(e) && is_suffix_of(final(buf)@, old(buf)@),
        },
    decreases old(buf)@.len(), 1nat,
{
    let ghost input = buf@;
    proof {
        lemma_decode_varint_consumed(input);
    }
    match tag.wire_type {
        WireType::Varint => match decode_varint(buf) {
            Ok(_) => Ok(()),
            Err(e) => {
                assert(buf@.skip(0) =~= buf@);
                Err(e)
            },
        },
        WireType::Fixed64 => {
            if buf.len() >= 8 {
                advance(buf, 8);
                Ok(())
            } else {
                assert(buf@.skip(0) =~= buf@);
                Err(DecodeError::UnexpectedEof)
            }
        },
        WireType::Fixed32 => {
            if buf.len() >= 4 {
                advance(buf, 4);
                Ok(())
            } else {
                assert(buf@.skip(0) =~= buf@);
                Err(DecodeError::UnexpectedEof)
            }
        },
        WireType::LengthDelimited => {
            let len = match decode_varint(buf) {
                Ok(l) => l,
                Err(e) => {
                    assert(buf@.skip(0) =~= buf@);
                    return Err(e);
                },
            };
            if len > buf.len() as u64 {
                assert(input.skip(input.len() - buf@.len()) =~= buf@);
                return Err(DecodeError::UnexpectedEof);
            }
            advance(buf, len as usize);
            assert(buf@ =~= input.skip(input.len() - buf@.len()));
            Ok(())
        },
        WireType::StartGroup => {
            if depth == 0 {
                assert(buf@.skip(0) =~= buf@);
                Err(DecodeError::RecursionLimitExceeded)
            } else {
                skip_group(tag.field_number, buf, depth - 1)
            }
        },
        WireType::EndGroup => {
            assert(buf@.skip(0) =~= buf@);
            Err(DecodeError::UnexpectedEndGroup)
        },
    }
}

/// Skip a group body up to and including its end-group tag.
fn skip_group(field_number: u32, buf: &mut &[u8], depth: u32) -> (r: Result<(), DecodeError>)
    ensures
        match spec_skip_group(field_number, old(buf)@, depth) {
            Ok(n) => r is Ok && n <= old(buf)@.len() && final(buf)@ == old(buf)@.skip(n as int),
            Err(e) => r == Err::<(), DecodeError>(e) && is_suffix_of(final(buf)@, old(buf)@),
        },
    decreases old(buf)@.len(), 0nat,
{
    let ghost input = buf@;
    assert(input.skip(0) =~= input);
    loop
        invariant
            input == old(buf)@,
            is_suffix_of(buf@, input),
            spec_skip_group(field_number, input, depth) == match spec_skip_group(
                field_number,
                buf@,
                depth,
            ) {
                Ok(n) => Ok((n + (input.len() - buf@.len())) as nat),
                Err(e) => Err(e),
            },
        decreases buf@.len(),
    {
        let ghost cur = buf@;
        proof {
            lemma_decode_varint_consumed(cur);
        }
        let t = match Tag::decode(buf) {
            Ok(t) => t,
            Err(e) => {
                assert(spec_skip_group(field_number, cur, depth) == Err::<nat, DecodeError>(e));
                return Err(e);
            },
        };
        let ghost n1 = (cur.len() - buf@.len()) as nat;
        assert(buf@ =~= cur.skip(n1 as int));
        assert(input.skip(input.len() - buf@.len()) =~= buf@);
        if t.wire_type == WireType::EndGroup {
            if t.field_number == field_number {
                return Ok(());
            } else {
                return Err(DecodeError::UnexpectedEndGroup);
            }
        }
        let ghost mid = buf@;
        assert(buf@.len() < input.len());
        match skip_field_depth(t, buf, depth) {
            Ok(()) => {},
            Err(e) => {
                assert(input.skip(input.len() - buf@.len()) =~= buf@);
                return Err(e);
            },
        }
        assert(buf@ =~= cur.skip(cur.len() - buf@.len()));
        assert(input.skip(input.len() - buf@.len()) =~= buf@);
    }
}

} // verus!
