//! Messages, enumerations and the size cache of two-pass encoding.
use vstd::prelude::*;
use vstd::pervasive::arbitrary;

use crate::encoding::{
    decode_varint, is_suffix_of, lemma_decode_varint_consumed, spec_decode_tag,
    spec_decode_varint, Tag,
};
use crate::error::DecodeError;

verus! {

// ── Size cache ──────────────────────────────────────────────────────────

/// Sizes of nested messages, recorded by a sizing pass and read back, in
/// the same order, by the writing pass that follows it.
pub struct SizeCache {
    sizes: Vec<u32>,
    next: usize,
}

impl SizeCache {
    /// The recorded sizes, in the order they were reserved.
    pub closed spec fn slots(&self) -> Seq<u32> {
        self.sizes@
    }

    /// How many sizes the writing pass has read back so far.
    pub closed spec fn cursor(&self) -> nat {
        self.next as nat
    }

    /// An empty cache.
    pub fn new() -> (c: SizeCache)
        ensures
            c.slots() == Seq::<u32>::empty(),
            c.cursor() == 0,
    {
        SizeCache { sizes: Vec::new(), next: 0 }
    }

    /// Reserve the next slot (initially 0) and return its index.
    pub fn reserve(&mut self) -> (slot: usize)
        requires
            old(self).slots().len() < usize::MAX,
        ensures
            slot == old(self).slots().len(),
            final(self).slots() == old(self).slots().push(0),
            final(self).cursor() == old(self).cursor(),
    {
        let slot = self.sizes.len();
        self.sizes.push(0);
        slot
    }

    /// Record `size` in a reserved slot.
    pub fn set(&mut self, slot: usize, size: u32)
        requires
            slot < old(self).slots().len(),
        ensures
            final(self).slots() == old(self).slots().update(slot as int, size),
            final(self).cursor() == old(self).cursor(),
    {
        self.sizes.set(slot, size);
    }

    /// Read back the next recorded size.
    pub fn consume_next(&mut self) -> (size: u32)
        requires
            old(self).cursor() < old(self).slots().len(),
        ensures
            size == old(self).slots()[old(self).cursor() as int],
            final(self).slots() == old(self).slots(),
            final(self).cursor() == old(self).cursor() + 1,
    {
        let n = self.sizes.len();
        let size = self.sizes[self.next];
        self.next = self.next + 1;
        size
    }
}

impl Default for SizeCache {
    fn default() -> (c: SizeCache)
        ensures
            c.slots() == Seq::<u32>::empty(),
            c.cursor() == 0,
    {
        SizeCache::new()
    }
}

/// The slots a writing pass reads, starting at `cursor`, are `expected`.
pub open spec fn holds_slots_at(slots: Seq<u32>, cursor: nat, expected: Seq<u32>) -> bool {
    &&& cursor + expected.len() <= slots.len()
    &&& slots.subrange(cursor as int, (cursor + expected.len()) as int) == expected
}

// ── Messages ────────────────────────────────────────────────────────────

/// A protobuf message, implemented by generated code.
///
/// Encoding is two-pass: `compute_size` appends the sizes of nested
/// messages to a [`SizeCache`] and returns the encoded length; `write_to`
/// then reads those sizes back in the same order while writing.
pub trait Message: Sized {
    /// The bytes `write_to` writes for this message. An implementation
    /// that gives no model leaves it unspecified.
    open spec fn spec_encoding(&self) -> Seq<u8> {
        arbitrary()
    }

    /// The sizes `compute_size` records for this message's nested messages.
    open spec fn spec_size_slots(&self) -> Seq<u32> {
        arbitrary()
    }

    /// What merging one field tagged `tag` from the front of `input` gives,
    /// with the number of bytes of payload read.
    open spec fn spec_merge_field(&self, tag: Tag, input: Seq<u8>, depth: u32) -> Result<
        (Self, nat),
        DecodeError,
    > {
        arbitrary()
    }

    /// The encoded length; records the nested sizes in `cache`.
    fn compute_size(&self, cache: &mut SizeCache) -> (n: u32)
        ensures
            n == self.spec_encoding().len(),
            final(cache).slots() == old(cache).slots() + self.spec_size_slots(),
            final(cache).cursor() == old(cache).cursor(),
    ;

    /// Write the message, reading the sizes that `compute_size` recorded.
    fn write_to(&self, cache: &mut SizeCache, buf: &mut Vec<u8>)
        requires
            holds_slots_at(old(cache).slots(), old(cache).cursor(), self.spec_size_slots()),
        ensures
            final(buf)@ == old(buf)@ + self.spec_encoding(),
            final(cache).slots() == old(cache).slots(),
            final(cache).cursor() == old(cache).cursor() + self.spec_size_slots().len(),
    ;

    /// Merge one field tagged `tag` whose payload starts at the front of `buf`.
    fn merge_field(&mut self, tag: Tag, buf: &mut &[u8], depth: u32) -> (r: Result<
        (),
        DecodeError,
    >)
        ensures
            match old(self).spec_merge_field(tag, old(buf)@, depth) {
                Ok((m, n)) => r is Ok && *final(self) == m && n <= old(buf)@.len() && final(buf)@
                    == old(buf)@.skip(n as int),
                Err(e) => r == Err::<(), DecodeError>(e) && is_suffix_of(final(buf)@, old(buf)@),
            },
    ;

    /// Reset every field to its default.
    fn clear(&mut self);
}

/// Merging fields from the front of `input` until only `limit` bytes are
/// left: the merged message and the number of bytes read.
pub open spec fn spec_merge_fields<M: Message>(m: M, input: Seq<u8>, limit: nat, depth: u32) -> Result<
    (M, nat),
    DecodeError,
>
    decreases input.len(),
{
    if input.len() <= limit {
        Ok((m, 0nat))
    } else {
        match spec_decode_tag(input) {
            Err(e) => Err(e),
            Ok((t, n1)) => if n1 == 0 || n1 > input.len() {
                Err(DecodeError::UnexpectedEof)
            } else {
                match m.spec_merge_field(t, input.skip(n1 as int), depth) {
                    Err(e) => Err(e),
                    Ok((m2, n2)) => if n1 + n2 > input.len() {
                        Err(DecodeError::UnexpectedEof)
                    } else {
                        match spec_merge_fields(m2, input.skip((n1 + n2) as int), limit, depth) {
                            Ok((m3, n3)) => Ok((m3, n1 + n2 + n3)),
                            Err(e) => Err(e),
                        }
                    },
                }
            },
        }
    }
}

/// Merging a message body announced by a varint length: the fields must end
/// exactly where the length says. Nested bodies get one less level of depth.
pub open spec fn spec_merge_length_delimited<M: Message>(m: M, input: Seq<u8>, depth: u32) -> Result<
    (M, nat),
    DecodeError,
> {
    if depth == 0 {
        Err(DecodeError::RecursionLimitExceeded)
    } else {
        match spec_decode_varint(input) {
            Err(e) => Err(e),
            Ok((len, n0)) => if n0 > input.len() || len > input.len() - n0 {
                Err(DecodeError::UnexpectedEof)
            } else {
                let body = input.skip(n0 as int);
                let limit = (body.len() - len) as nat;
                match spec_merge_fields(m, body, limit, (depth - 1) as u32) {
                    Err(e) => Err(e),
                    Ok((m2, n)) => if n != len {
                        Err(DecodeError::UnexpectedEof)
                    } else {
                        Ok((m2, n0 + n))
                    },
                }
            },
        }
    }
}

/// Merge a length-prefixed message body from the front of `buf` into `value`.
pub fn merge_length_delimited<M: Message>(value: &mut M, buf: &mut &[u8], depth: u32) -> (r: Result<
    (),
    DecodeError,
>)
    ensures
        match spec_merge_length_delimited(*old(value), old(buf)@, depth) {
            Ok((m, n)) => r is Ok && *final(value) == m && n <= old(buf)@.len() && final(buf)@
                == old(buf)@.skip(n as int),
            Err(e) => r == Err::<(), DecodeError>(e) && is_suffix_of(final(buf)@, old(buf)@),
        },
{
    let ghost input = buf@;
    if depth == 0 {
        assert(input.skip(0) =~= input);
        return Err(DecodeError::RecursionLimitExceeded);
    }
    proof {
        lemma_decode_varint_consumed(input);
    }
    let len = match decode_varint(buf) {
        Ok(l) => l,
        Err(e) => {
            assert(input.skip(0) =~= input);
            return Err(e);
        },
    };
    let ghost body = buf@;
    assert(body =~= input.skip(input.len() - body.len()));
    if len > buf.len() as u64 {
        return Err(DecodeError::UnexpectedEof);
    }
    let limit = buf.len() - len as usize;
    assert(body.skip(0) =~= body);
    while buf.len() > limit
        invariant
            input == old(buf)@,
            is_suffix_of(body, input),
            is_suffix_of(buf@, body),
            spec_decode_varint(input) == Ok::<(u64, nat), DecodeError>(
                (len, (input.len() - body.len()) as nat),
            ),
            limit == body.len() - len,
            depth > 0,
            spec_merge_fields(*old(value), body, limit as nat, (depth - 1) as u32) == match spec_merge_fields(
                *value,
                buf@,
                limit as nat,
                (depth - 1) as u32,
            ) {
                Ok((m, n)) => Ok((m, (n + (body.len() - buf@.len())) as nat)),
                Err(e) => Err(e),
            },
        decreases buf@.len(),
    {
        let ghost cur = buf@;
        proof {
            lemma_decode_varint_consumed(cur);
        }
        let tag = match Tag::decode(buf) {
            Ok(t) => t,
            Err(e) => {
                assert(spec_merge_fields(*value, cur, limit as nat, (depth - 1) as u32) == Err::<
                    (M, nat),
                    DecodeError,
                >(e));
                assert(input.skip(input.len() - buf@.len()) =~= buf@);
                return Err(e);
            },
        };
        let ghost mid = buf@;
        assert(mid =~= cur.skip(cur.len() - mid.len()));
        let ghost before = *value;
        match value.merge_field(tag, buf, depth - 1) {
            Ok(()) => {},
            Err(e) => {
                assert(spec_merge_fields(before, cur, limit as nat, (depth - 1) as u32) == Err::<
                    (M, nat),
                    DecodeError,
                >(e));
                assert(input.skip(input.len() - buf@.len()) =~= buf@);
                return Err(e);
            },
        }
        assert(buf@ =~= cur.skip(cur.len() - buf@.len()));
        assert(body.skip(body.len() - buf@.len()) =~= buf@);
    }
    assert(input.skip(input.len() - buf@.len()) =~= buf@);
    assert(spec_merge_fields(*value, buf@, limit as nat, (depth - 1) as u32) == Ok::<
        (M, nat),
        DecodeError,
    >((*value, 0nat)));
    if buf.len() != limit {
        return Err(DecodeError::UnexpectedEof);
    }
    Ok(())
}

// ── Enumerations ────────────────────────────────────────────────────────

/// A protobuf enum, implemented by generated code.
pub trait Enumeration: Sized {
    /// The variant a number names, if any. An implementation that gives no
    /// model leaves it unspecified.
    open spec fn spec_from_i32(value: i32) -> Option<Self> {
        arbitrary()
    }

    /// The number of a variant.
    open spec fn spec_to_i32(&self) -> i32 {
        arbitrary()
    }

    fn from_i32(value: i32) -> (r: Option<Self>)
        ensures
            r == Self::spec_from_i32(value),
    ;

    fn to_i32(&self) -> (r: i32)
        ensures
            r == self.spec_to_i32(),
    ;

    /// The variant's name in the `.proto` file.
    fn proto_name(&self) -> &'static str;

    /// The variant a `.proto` name names, if any.
    fn from_proto_name(name: &str) -> Option<Self>;
}

/// The value of an open enum field: a known variant, or a number no variant
/// names, kept as it came.
#[derive(Clone, Copy, Debug, PartialEq, Eq, Hash)]
pub enum EnumValue<E> {
    Known(E),
    Unknown(i32),
}

/// The value a number decodes to.
pub open spec fn spec_enum_value<E: Enumeration>(n: i32) -> EnumValue<E> {
    match E::spec_from_i32(n) {
        Some(e) => EnumValue::Known(e),
        None => EnumValue::Unknown(n),
    }
}

/// The number a value encodes to.
pub open spec fn spec_enum_number<E: Enumeration>(v: EnumValue<E>) -> i32 {
    match v {
        EnumValue::Known(e) => e.spec_to_i32(),
        EnumValue::Unknown(n) => n,
    }
}

impl<E: Enumeration> EnumValue<E> {
    /// The value `n` decodes to: the variant it names, else `Unknown(n)`.
    pub fn from_number(n: i32) -> (r: EnumValue<E>)
        ensures
            r == spec_enum_value::<E>(n),
    {
        match E::from_i32(n) {
            Some(e) => EnumValue::Known(e),
            None => EnumValue::Unknown(n),
        }
    }

    /// The number this value encodes to.
    pub fn to_i32(&self) -> (r: i32)
        ensures
            r == spec_enum_number(*self),
    {
        match self {
            EnumValue::Known(e) => e.to_i32(),
            EnumValue::Unknown(n) => *n,
        }
    }
}

} // verus!
