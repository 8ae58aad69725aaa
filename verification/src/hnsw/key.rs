//! Fixed-width little-endian serialization of node keys.

use vstd::prelude::*;

verus! {

/// A key type with a fixed-width byte encoding.
pub trait KeySerialization: Copy + Sized {
    /// The encoding of the key.
    spec fn key_bytes(&self) -> Seq<u8>;

    /// The width of every encoding.
    spec fn key_size() -> nat;

    proof fn lemma_key_bytes_len(k: Self)
        ensures
            k.key_bytes().len() == Self::key_size(),
    ;

    proof fn lemma_key_bytes_injective(a: Self, b: Self)
        ensures
            a.key_bytes() == b.key_bytes() ==> a == b,
    ;

    /// The width of every encoding, in bytes.
    fn serialized_size() -> (n: usize)
        ensures
            n == Self::key_size(),
    ;

    /// Appends the encoding of the key.
    fn write_to_vec(&self, buffer: &mut Vec<u8>)
        ensures
            final(buffer)@ == old(buffer)@ + self.key_bytes(),
    ;

    /// Decodes a key from the first `key_size()` bytes.
    fn read_from_bytes(bytes: &[u8]) -> (k: Self)
        requires
            bytes@.len() >= Self::key_size(),
        ensures
            k.key_bytes() == bytes@.subrange(0, Self::key_size() as int),
    ;
}

pub open spec fn u32_le_bytes(v: u32) -> Seq<u8> {
    seq![
        (v & 0xff) as u8,
        ((v >> 8u32) & 0xff) as u8,
        ((v >> 16u32) & 0xff) as u8,
        ((v >> 24u32) & 0xff) as u8,
    ]
}

pub open spec fn u64_le_bytes(v: u64) -> Seq<u8> {
    seq![
        (v & 0xff) as u8,
        ((v >> 8u64) & 0xff) as u8,
        ((v >> 16u64) & 0xff) as u8,
        ((v >> 24u64) & 0xff) as u8,
        ((v >> 32u64) & 0xff) as u8,
        ((v >> 40u64) & 0xff) as u8,
        ((v >> 48u64) & 0xff) as u8,
        ((v >> 56u64) & 0xff) as u8,
    ]
}

/// Appends the little-endian encoding of a `u32`.
pub fn push_u32_le(buffer: &mut Vec<u8>, v: u32)
    ensures
        final(buffer)@ == old(buffer)@ + u32_le_bytes(v),
{
    buffer.push((v & 0xff) as u8);
    buffer.push(((v >> 8u32) & 0xff) as u8);
    buffer.push(((v >> 16u32) & 0xff) as u8);
    buffer.push(((v >> 24u32) & 0xff) as u8);
    assert(buffer@ =~= old(buffer)@ + u32_le_bytes(v));
}

/// Appends the little-endian encoding of a `u64`.
pub fn push_u64_le(buffer: &mut Vec<u8>, v: u64)
    ensures
        final(buffer)@ == old(buffer)@ + u64_le_bytes(v),
{
    buffer.push((v & 0xff) as u8);
    buffer.push(((v >> 8u64) & 0xff) as u8);
    buffer.push(((v >> 16u64) & 0xff) as u8);
    buffer.push(((v >> 24u64) & 0xff) as u8);
    buffer.push(((v >> 32u64) & 0xff) as u8);
    buffer.push(((v >> 40u64) & 0xff) as u8);
    buffer.push(((v >> 48u64) & 0xff) as u8);
    buffer.push(((v >> 56u64) & 0xff) as u8);
    assert(buffer@ =~= old(buffer)@ + u64_le_bytes(v));
}

/// Decodes a little-endian `u32` from four bytes.
pub fn u32_from_le(b0: u8, b1: u8, b2: u8, b3: u8) -> (v: u32)
    ensures
        u32_le_bytes(v) == seq![b0, b1, b2, b3],
        v == b0 + 0x100 * b1 + 0x1_0000 * b2 + 0x100_0000 * b3,
{
    let v: u32 = (b0 as u32) | ((b1 as u32) << 8u32) | ((b2 as u32) << 16u32) | ((b3 as u32)
        << 24u32);
    assert((v & 0xff) as u8 == b0 && ((v >> 8u32) & 0xff) as u8 == b1 && ((v >> 16u32) & 0xff) as u8
        == b2 && ((v >> 24u32) & 0xff) as u8 == b3 && v == b0 + 0x100 * b1 + 0x1_0000 * b2
        + 0x100_0000 * b3) by (bit_vector)
        requires
            v == (b0 as u32) | ((b1 as u32) << 8u32) | ((b2 as u32) << 16u32) | ((b3 as u32)
                << 24u32),
    ;
    assert(u32_le_bytes(v) =~= seq![b0, b1, b2, b3]);
    v
}

/// Decodes a little-endian `u64` from eight bytes.
pub fn u64_from_le(b: &[u8]) -> (v: u64)
    requires
        b@.len() >= 8,
    ensures
        u64_le_bytes(v) == b@.subrange(0, 8),
        v == b@[0] + 0x100 * b@[1] + 0x1_0000 * b@[2] + 0x100_0000 * b@[3] + 0x1_0000_0000 * b@[4]
            + 0x100_0000_0000 * b@[5] + 0x1_0000_0000_0000 * b@[6] + 0x100_0000_0000_0000 * b@[7],
{
    let b0 = b[0];
    let b1 = b[1];
    let b2 = b[2];
    let b3 = b[3];
    let b4 = b[4];
    let b5 = b[5];
    let b6 = b[6];
    let b7 = b[7];
    let v: u64 = (b0 as u64) | ((b1 as u64) << 8u64) | ((b2 as u64) << 16u64) | ((b3 as u64)
        << 24u64) | ((b4 as u64) << 32u64) | ((b5 as u64) << 40u64) | ((b6 as u64) << 48u64) | ((
    b7 as u64) << 56u64);
    assert((v & 0xff) as u8 == b0 && ((v >> 8u64) & 0xff) as u8 == b1 && ((v >> 16u64) & 0xff) as u8
        == b2 && ((v >> 24u64) & 0xff) as u8 == b3 && ((v >> 32u64) & 0xff) as u8 == b4 && ((v
        >> 40u64) & 0xff) as u8 == b5 && ((v >> 48u64) & 0xff) as u8 == b6 && ((v >> 56u64) & 0xff)
        as u8 == b7) by (bit_vector)
        requires
            v == (b0 as u64) | ((b1 as u64) << 8u64) | ((b2 as u64) << 16u64) | ((b3 as u64)
                << 24u64) | ((b4 as u64) << 32u64) | ((b5 as u64) << 40u64) | ((b6 as u64)
                << 48u64) | ((b7 as u64) << 56u64),
    ;
    assert(v == b0 + 0x100 * b1 + 0x1_0000 * b2 + 0x100_0000 * b3 + 0x1_0000_0000 * b4
        + 0x100_0000_0000 * b5 + 0x1_0000_0000_0000 * b6 + 0x100_0000_0000_0000 * b7)
        by (bit_vector)
        requires
            v == (b0 as u64) | ((b1 as u64) << 8u64) | ((b2 as u64) << 16u64) | ((b3 as u64)
                << 24u64) | ((b4 as u64) << 32u64) | ((b5 as u64) << 40u64) | ((b6 as u64)
                << 48u64) | ((b7 as u64) << 56u64),
    ;
    assert(u64_le_bytes(v) =~= b@.subrange(0, 8));
    v
}

/// Distinct `u32` values have distinct encodings.
pub proof fn lemma_u32_le_injective(a: u32, b: u32)
    ensures
        u32_le_bytes(a) == u32_le_bytes(b) ==> a == b,
{
    if u32_le_bytes(a) == u32_le_bytes(b) {
        assert(u32_le_bytes(a)[0] == u32_le_bytes(b)[0]);
        assert(u32_le_bytes(a)[1] == u32_le_bytes(b)[1]);
        assert(u32_le_bytes(a)[2] == u32_le_bytes(b)[2]);
        assert(u32_le_bytes(a)[3] == u32_le_bytes(b)[3]);
        assert(a == b) by (bit_vector)
            requires
                (a & 0xff) as u8 == (b & 0xff) as u8,
                ((a >> 8u32) & 0xff) as u8 == ((b >> 8u32) & 0xff) as u8,
                ((a >> 16u32) & 0xff) as u8 == ((b >> 16u32) & 0xff) as u8,
                ((a >> 24u32) & 0xff) as u8 == ((b >> 24u32) & 0xff) as u8,
        ;
    }
}

/// Distinct `u64` values have distinct encodings.
pub proof fn lemma_u64_le_injective(a: u64, b: u64)
    ensures
        u64_le_bytes(a) == u64_le_bytes(b) ==> a == b,
{
    if u64_le_bytes(a) == u64_le_bytes(b) {
        assert(u64_le_bytes(a)[0] == u64_le_bytes(b)[0]);
        assert(u64_le_bytes(a)[1] == u64_le_bytes(b)[1]);
        assert(u64_le_bytes(a)[2] == u64_le_bytes(b)[2]);
        assert(u64_le_bytes(a)[3] == u64_le_bytes(b)[3]);
        assert(u64_le_bytes(a)[4] == u64_le_bytes(b)[4]);
        assert(u64_le_bytes(a)[5] == u64_le_bytes(b)[5]);
        assert(u64_le_bytes(a)[6] == u64_le_bytes(b)[6]);
        assert(u64_le_bytes(a)[7] == u64_le_bytes(b)[7]);
        assert(a == b) by (bit_vector)
            requires
                (a & 0xff) as u8 == (b & 0xff) as u8,
                ((a >> 8u64) & 0xff) as u8 == ((b >> 8u64) & 0xff) as u8,
                ((a >> 16u64) & 0xff) as u8 == ((b >> 16u64) & 0xff) as u8,
                ((a >> 24u64) & 0xff) as u8 == ((b >> 24u64) & 0xff) as u8,
                ((a >> 32u64) & 0xff) as u8 == ((b >> 32u64) & 0xff) as u8,
                ((a >> 40u64) & 0xff) as u8 == ((b >> 40u64) & 0xff) as u8,
                ((a >> 48u64) & 0xff) as u8 == ((b >> 48u64) & 0xff) as u8,
                ((a >> 56u64) & 0xff) as u8 == ((b >> 56u64) & 0xff) as u8,
        ;
    }
}

impl KeySerialization for u32 {
    open spec fn key_bytes(&self) -> Seq<u8> {
        u32_le_bytes(*self)
    }

    open spec fn key_size() -> nat {
        4
    }

    proof fn lemma_key_bytes_len(k: Self) {
    }

    proof fn lemma_key_bytes_injective(a: Self, b: Self) {
        lemma_u32_le_injective(a, b);
    }

    fn serialized_size() -> (n: usize) {
        4
    }

    fn write_to_vec(&self, buffer: &mut Vec<u8>) {
        push_u32_le(buffer, *self);
    }

    fn read_from_bytes(bytes: &[u8]) -> (k: Self) {
        let k = u32_from_le(bytes[0], bytes[1], bytes[2], bytes[3]);
        assert(bytes@.subrange(0, 4) =~= seq![bytes@[0], bytes@[1], bytes@[2], bytes@[3]]);
        k
    }
}

impl KeySerialization for u64 {
    open spec fn key_bytes(&self) -> Seq<u8> {
        u64_le_bytes(*self)
    }

    open spec fn key_size() -> nat {
        8
    }

    proof fn lemma_key_bytes_len(k: Self) {
    }

    proof fn lemma_key_bytes_injective(a: Self, b: Self) {
        lemma_u64_le_injective(a, b);
    }

    fn serialized_size() -> (n: usize) {
        8
    }

    fn write_to_vec(&self, buffer: &mut Vec<u8>) {
        push_u64_le(buffer, *self);
    }

    fn read_from_bytes(bytes: &[u8]) -> (k: Self) {
        u64_from_le(bytes)
    }
}


pub open spec fn u16_le_bytes(v: u16) -> Seq<u8> {
    seq![(v & 0xff) as u8, ((v >> 8u16) & 0xff) as u8]
}

/// Little-endian value of two bytes.
pub open spec fn le16_value(b: Seq<u8>) -> nat {
    (b[0] + 0x100 * b[1]) as nat
}

/// Little-endian value of eight bytes.
pub open spec fn le64_value(b: Seq<u8>) -> nat {
    (b[0] + 0x100 * b[1] + 0x1_0000 * b[2] + 0x100_0000 * b[3] + 0x1_0000_0000 * b[4]
        + 0x100_0000_0000 * b[5] + 0x1_0000_0000_0000 * b[6] + 0x100_0000_0000_0000 * b[7]) as nat
}

/// Appends the little-endian encoding of a `u16`.
pub fn push_u16_le(buffer: &mut Vec<u8>, v: u16)
    ensures
        final(buffer)@ == old(buffer)@ + u16_le_bytes(v),
{
    buffer.push((v & 0xff) as u8);
    buffer.push(((v >> 8u16) & 0xff) as u8);
    assert(buffer@ =~= old(buffer)@ + u16_le_bytes(v));
}

/// Decodes a little-endian `u16`.
pub fn u16_from_le(b0: u8, b1: u8) -> (v: u16)
    ensures
        v == b0 + 0x100 * b1,
        u16_le_bytes(v) == seq![b0, b1],
{
    let v: u16 = (b0 as u16) | ((b1 as u16) << 8u16);
    assert(v == b0 + 0x100 * b1 && (v & 0xff) as u8 == b0 && ((v >> 8u16) & 0xff) as u8 == b1)
        by (bit_vector)
        requires
            v == (b0 as u16) | ((b1 as u16) << 8u16),
    ;
    assert(u16_le_bytes(v) =~= seq![b0, b1]);
    v
}

/// The encoding of a `u16` decodes to it.
pub proof fn lemma_le16_of_bytes(v: u16)
    ensures
        le16_value(u16_le_bytes(v)) == v,
{
    let b0 = (v & 0xff) as u8;
    let b1 = ((v >> 8u16) & 0xff) as u8;
    assert(b0 + 0x100 * b1 == v) by (bit_vector)
        requires
            b0 == (v & 0xff) as u8,
            b1 == ((v >> 8u16) & 0xff) as u8,
    ;
}

/// The encoding of a `u64` decodes to it.
pub proof fn lemma_le64_of_bytes(v: u64)
    ensures
        le64_value(u64_le_bytes(v)) == v,
{
    let b0 = (v & 0xff) as u8;
    let b1 = ((v >> 8u64) & 0xff) as u8;
    let b2 = ((v >> 16u64) & 0xff) as u8;
    let b3 = ((v >> 24u64) & 0xff) as u8;
    let b4 = ((v >> 32u64) & 0xff) as u8;
    let b5 = ((v >> 40u64) & 0xff) as u8;
    let b6 = ((v >> 48u64) & 0xff) as u8;
    let b7 = ((v >> 56u64) & 0xff) as u8;
    assert(b0 + 0x100 * b1 + 0x1_0000 * b2 + 0x100_0000 * b3 + 0x1_0000_0000 * b4 + 0x100_0000_0000
        * b5 + 0x1_0000_0000_0000 * b6 + 0x100_0000_0000_0000 * b7 == v) by (bit_vector)
        requires
            b0 == (v & 0xff) as u8,
            b1 == ((v >> 8u64) & 0xff) as u8,
            b2 == ((v >> 16u64) & 0xff) as u8,
            b3 == ((v >> 24u64) & 0xff) as u8,
            b4 == ((v >> 32u64) & 0xff) as u8,
            b5 == ((v >> 40u64) & 0xff) as u8,
            b6 == ((v >> 48u64) & 0xff) as u8,
            b7 == ((v >> 56u64) & 0xff) as u8,
    ;
}

} // verus!
