//! Five-byte node identifiers.

use vstd::prelude::*;

verus! {

/// Identifier of a node in the graph: a 40-bit little-endian integer.
#[derive(Debug, Clone, Copy, PartialEq, Eq, PartialOrd, Ord, Hash)]
pub struct NodeId(pub [u8; 5]);

/// The all-zero identifier, which marks an unused neighbor slot.
pub fn empty_neighbor() -> (id: NodeId)
    ensures
        id.is_zero(),
        id.value() == 0,
{
    let id = NodeId([0u8, 0u8, 0u8, 0u8, 0u8]);
    assert(id.0@ =~= seq![0u8, 0u8, 0u8, 0u8, 0u8]);
    id
}

/// The number of distinct identifiers (2^40).
pub open spec fn id_space() -> nat {
    0x100_0000_0000
}

/// The integer that a five-byte little-endian identifier stands for.
pub open spec fn le_value(b: Seq<u8>) -> nat
    recommends b.len() == 5,
{
    (b[0] + 0x100 * b[1] + 0x1_0000 * b[2] + 0x100_0000 * b[3] + 0x1_0000_0000 * b[4]) as nat
}

/// Two identifiers with the same bytes are the same identifier.
pub proof fn lemma_eq_from_bytes(a: NodeId, b: NodeId)
    requires
        a.0@ == b.0@,
    ensures
        a == b,
{
    broadcast use vstd::array::group_array_axioms;

    assert(forall|i: int| 0 <= i < 5 ==> a.0@[i] == b.0@[i]);
    assert(a.0 =~= b.0);
}

impl NodeId {
    pub open spec fn bytes(&self) -> Seq<u8> {
        self.0@
    }

    /// The numeric value of the identifier.
    pub open spec fn value(&self) -> nat {
        le_value(self.0@)
    }

    /// Whether the identifier is the all-zero one.
    pub open spec fn is_zero(&self) -> bool {
        self.0@ == seq![0u8, 0u8, 0u8, 0u8, 0u8]
    }

    /// Byte-wise comparison.
    pub fn same_as(&self, other: &NodeId) -> (b: bool)
        ensures
            b == (self.0@ == other.0@),
            b == (*self == *other),
    {
        let r = self.0[0] == other.0[0] && self.0[1] == other.0[1] && self.0[2] == other.0[2]
            && self.0[3] == other.0[3] && self.0[4] == other.0[4];
        proof {
            if r {
                assert(self.0@ =~= other.0@);
                lemma_eq_from_bytes(*self, *other);
            }
        }
        r
    }

    /// Reports whether this identifier differs from `EMPTY_NEIGHBOR`.
    pub fn is_empty(&self) -> (b: bool)
        ensures
            b == !self.is_zero(),
    {
        let e = empty_neighbor();
        !self.same_as(&e)
    }

    /// The raw bytes.
    pub fn as_bytes(&self) -> (r: &[u8; 5])
        ensures
            r@ == self.0@,
    {
        &self.0
    }

    /// The identifier as an integer (exact wherever `usize` holds 40 bits).
    pub fn to_usize(&self) -> (v: usize)
        ensures
            v == self.value() as usize,
            self.value() <= usize::MAX ==> v == self.value(),
    {
        let b0 = self.0[0];
        let b1 = self.0[1];
        let b2 = self.0[2];
        let b3 = self.0[3];
        let b4 = self.0[4];
        let v: u64 = (b0 as u64) | ((b1 as u64) << 8u64) | ((b2 as u64) << 16u64) | ((b3 as u64)
            << 24u64) | ((b4 as u64) << 32u64);
        assert(v == b0 + 0x100 * b1 + 0x1_0000 * b2 + 0x100_0000 * b3 + 0x1_0000_0000 * b4)
            by (bit_vector)
            requires
                v == (b0 as u64) | ((b1 as u64) << 8u64) | ((b2 as u64) << 16u64) | ((b3 as u64)
                    << 24u64) | ((b4 as u64) << 32u64),
        ;
        v as usize
    }

    /// The identifier holding the low 40 bits of `value`.
    pub fn from_usize(value: usize) -> (id: NodeId)
        ensures
            id.value() == (value as nat) % id_space(),
    {
        let v = value as u64;
        let b0 = (v & 0xff) as u8;
        let b1 = ((v >> 8u64) & 0xff) as u8;
        let b2 = ((v >> 16u64) & 0xff) as u8;
        let b3 = ((v >> 24u64) & 0xff) as u8;
        let b4 = ((v >> 32u64) & 0xff) as u8;
        assert(b0 + 0x100 * b1 + 0x1_0000 * b2 + 0x100_0000 * b3 + 0x1_0000_0000 * b4 == v
            % 0x100_0000_0000) by (bit_vector)
            requires
                b0 == (v & 0xff) as u8,
                b1 == ((v >> 8u64) & 0xff) as u8,
                b2 == ((v >> 16u64) & 0xff) as u8,
                b3 == ((v >> 24u64) & 0xff) as u8,
                b4 == ((v >> 32u64) & 0xff) as u8,
        ;
        let id = NodeId([b0, b1, b2, b3, b4]);
        assert(id.0@ =~= seq![b0, b1, b2, b3, b4]);
        id
    }
}

} // verus!
