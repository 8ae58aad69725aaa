//! Wire format of a graph node: a fixed-width key followed, level by level,
//! by a one-byte count of active neighbors and a fixed number of five-byte
//! neighbor slots (active neighbors first, zero-filled empty slots after).

use core::marker::PhantomData;
use vstd::prelude::*;

use super::key::KeySerialization;
use super::node_id::{empty_neighbor, lemma_eq_from_bytes, NodeId};
use super::format_utils::{format_hex_preview, hex_preview};
use crate::text::{decimal, from_text, push_decimal, push_text};

verus! {

/// Bytes taken by one neighbor slot.
pub const NODE_ID_SIZE: usize = 5;

/// Bytes taken by the active-neighbor count of a level.
pub const NEIGHBORS_COUNT_SIZE: usize = 1;

#[derive(Debug)]
pub enum WriteError {
    TooManyNeighbors { level: u8, count: usize, max: usize },
}

#[derive(Debug)]
pub enum BuildError {
    MissingKey,
    TooManyNeighbors { level: u8, count: usize, max: usize },
    WriteError(WriteError),
}

// ---------------------------------------------------------------------------
// Specification of the format
// ---------------------------------------------------------------------------

/// Slot count of a level: level 0 has its own capacity, every other level shares one.
pub open spec fn capacity_at(level: int, cap0: nat, cap: nat) -> nat {
    if level == 0 {
        cap0
    } else {
        cap
    }
}

/// The non-empty identifiers of `ns`, in order.
pub open spec fn active_ids(ns: Seq<NodeId>) -> Seq<NodeId>
    decreases ns.len(),
{
    if ns.len() == 0 {
        seq![]
    } else {
        let rest = active_ids(ns.drop_last());
        if ns.last().is_zero() {
            rest
        } else {
            rest.push(ns.last())
        }
    }
}

/// Concatenated bytes of a sequence of identifiers.
pub open spec fn ids_bytes(ids: Seq<NodeId>) -> Seq<u8>
    decreases ids.len(),
{
    if ids.len() == 0 {
        seq![]
    } else {
        ids_bytes(ids.drop_last()) + ids.last().0@
    }
}

/// `n` zero bytes.
pub open spec fn zero_bytes(n: nat) -> Seq<u8> {
    Seq::new(n, |i: int| 0u8)
}

/// Encoding of one level with `capacity` slots.
pub open spec fn encode_level(ns: Seq<NodeId>, capacity: nat) -> Seq<u8> {
    let act = active_ids(ns);
    seq![act.len() as u8] + ids_bytes(act) + zero_bytes((5 * (capacity - act.len())) as nat)
}

/// Level index as written to the wire (one byte).
pub open spec fn wire_level(i: int) -> int {
    (i as u8) as int
}

/// Encoding of levels `i..` of `levels`.
pub open spec fn encode_levels_from(levels: Seq<Seq<NodeId>>, i: int, cap0: nat, cap: nat) -> Seq<
    u8,
>
    decreases levels.len() - i,
{
    if i < 0 || i >= levels.len() {
        seq![]
    } else {
        encode_level(levels[i], capacity_at(wire_level(i), cap0, cap)) + encode_levels_from(
            levels,
            i + 1,
            cap0,
            cap,
        )
    }
}

/// Whether writing level `i` of `levels` is refused by the writer.
pub open spec fn level_write_fails(levels: Seq<Seq<NodeId>>, i: int, cap0: nat, cap: nat) -> bool {
    let c = capacity_at(wire_level(i), cap0, cap);
    c > 255 || active_ids(levels[i]).len() > c
}

/// The identifier whose bytes are the first five of `s`.
pub open spec fn id_from_bytes(s: Seq<u8>) -> NodeId {
    NodeId([s[0], s[1], s[2], s[3], s[4]])
}

/// The `n` identifiers stored back to back at the start of `bytes`.
pub open spec fn ids_of(bytes: Seq<u8>, n: nat) -> Seq<NodeId> {
    Seq::new(n, |i: int| id_from_bytes(bytes.subrange(5 * i, 5 * i + 5)))
}

/// Decoding of one level with `capacity` slots from the start of `bytes`:
/// the active identifiers and the bytes after the level, or `None` where
/// the bytes do not hold a well-formed level.
pub open spec fn decode_level(bytes: Seq<u8>, capacity: nat) -> Option<(Seq<NodeId>, Seq<u8>)> {
    if bytes.len() < 1 {
        None
    } else if bytes[0] > capacity {
        None
    } else if bytes.len() - 1 < 5 * capacity {
        None
    } else {
        Some((ids_of(bytes.subrange(1, bytes.len() as int), bytes[0] as nat), bytes.subrange(
            (1 + 5 * capacity) as int,
            bytes.len() as int,
        )))
    }
}

/// The last level of a builder's levels that is not above `max`.
pub open spec fn max_of(a: nat, b: nat) -> nat {
    if a >= b {
        a
    } else {
        b
    }
}

/// The result of normalizing a neighbor list: empty slots and repeated
/// identifiers dropped, first occurrences kept in order.
pub open spec fn normalized(ns: Seq<NodeId>) -> Seq<NodeId>
    decreases ns.len(),
{
    if ns.len() == 0 {
        seq![]
    } else {
        let d = normalized(ns.drop_last());
        let x = ns.last();
        if x.is_zero() || d.contains(x) {
            d
        } else {
            d.push(x)
        }
    }
}

/// No identifier occurs twice.
pub open spec fn no_duplicates(s: Seq<NodeId>) -> bool {
    forall|i: int, j: int| 0 <= i < j < s.len() ==> s[i] != s[j]
}

// ---------------------------------------------------------------------------
// Lemmas about the format
// ---------------------------------------------------------------------------

/// The bytes of an identifier give back the identifier.
pub proof fn lemma_id_from_bytes(x: NodeId)
    ensures
        id_from_bytes(x.0@) == x,
{
    let y = id_from_bytes(x.0@);
    assert(y.0@ =~= x.0@);
    lemma_eq_from_bytes(y, x);
}

/// Every identifier takes five bytes.
pub proof fn lemma_ids_bytes_len(ids: Seq<NodeId>)
    ensures
        ids_bytes(ids).len() == 5 * ids.len(),
    decreases ids.len(),
{
    if ids.len() > 0 {
        lemma_ids_bytes_len(ids.drop_last());
    }
}

/// Identifier `i` lies at bytes `5 * i .. 5 * i + 5`.
pub proof fn lemma_ids_bytes_index(ids: Seq<NodeId>, i: int)
    requires
        0 <= i < ids.len(),
    ensures
        ids_bytes(ids).subrange(5 * i, 5 * i + 5) == ids[i].0@,
    decreases ids.len(),
{
    lemma_ids_bytes_len(ids);
    lemma_ids_bytes_len(ids.drop_last());
    if i < ids.len() - 1 {
        lemma_ids_bytes_index(ids.drop_last(), i);
        assert(ids_bytes(ids).subrange(5 * i, 5 * i + 5) =~= ids_bytes(ids.drop_last()).subrange(
            5 * i,
            5 * i + 5,
        ));
    } else {
        assert(ids_bytes(ids).subrange(5 * i, 5 * i + 5) =~= ids.last().0@);
    }
}

/// Identifiers written back to back read back in order.
pub proof fn lemma_ids_of_ids_bytes(ids: Seq<NodeId>, rest: Seq<u8>)
    ensures
        ids_of(ids_bytes(ids) + rest, ids.len()) == ids,
{
    lemma_ids_bytes_len(ids);
    let b = ids_bytes(ids) + rest;
    assert forall|i: int| 0 <= i < ids.len() implies ids_of(b, ids.len())[i] == ids[i] by {
        lemma_ids_bytes_index(ids, i);
        assert(b.subrange(5 * i, 5 * i + 5) =~= ids_bytes(ids).subrange(5 * i, 5 * i + 5));
        lemma_id_from_bytes(ids[i]);
    }
    assert(ids_of(b, ids.len()) =~= ids);
}

/// The active identifiers are no more than all, and none is empty.
pub proof fn lemma_active_len(ns: Seq<NodeId>)
    ensures
        active_ids(ns).len() <= ns.len(),
        forall|i: int| 0 <= i < active_ids(ns).len() ==> !(#[trigger] active_ids(ns)[i]).is_zero(),
    decreases ns.len(),
{
    if ns.len() > 0 {
        lemma_active_len(ns.drop_last());
    }
}

/// Decoding a level gives back the active identifiers that were encoded and
/// the bytes that followed the level.
pub proof fn lemma_level_roundtrip(ns: Seq<NodeId>, capacity: nat, rest: Seq<u8>)
    requires
        active_ids(ns).len() <= capacity,
        capacity <= 255,
    ensures
        decode_level(encode_level(ns, capacity) + rest, capacity) == Some((active_ids(ns), rest)),
{
    let act = active_ids(ns);
    lemma_ids_bytes_len(act);
    let enc = encode_level(ns, capacity);
    let b = enc + rest;
    assert(enc.len() == 1 + 5 * capacity);
    assert(b[0] == act.len() as u8);
    assert(b.subrange(1, b.len() as int) =~= ids_bytes(act) + (zero_bytes(
        (5 * (capacity - act.len())) as nat,
    ) + rest));
    lemma_ids_of_ids_bytes(act, zero_bytes((5 * (capacity - act.len())) as nat) + rest);
    assert(b.subrange((1 + 5 * capacity) as int, b.len() as int) =~= rest);
}

/// A normalized list has no duplicate, no empty identifier, and is no longer.
pub proof fn lemma_normalized_props(ns: Seq<NodeId>)
    ensures
        no_duplicates(normalized(ns)),
        forall|i: int| 0 <= i < normalized(ns).len() ==> !(#[trigger] normalized(ns)[i]).is_zero(),
        normalized(ns).len() <= ns.len(),
    decreases ns.len(),
{
    if ns.len() > 0 {
        lemma_normalized_props(ns.drop_last());
    }
}

/// The normalization of a longer prefix is no shorter.
pub proof fn lemma_normalized_monotone(ns: Seq<NodeId>, i: int, j: int)
    requires
        0 <= i <= j <= ns.len(),
    ensures
        normalized(ns.take(i)).len() <= normalized(ns.take(j)).len(),
    decreases j - i,
{
    if i < j {
        lemma_normalized_monotone(ns, i, j - 1);
        assert(ns.take(j).drop_last() =~= ns.take(j - 1));
    }
}

/// A list without empty identifiers is its own active list.
pub proof fn lemma_active_no_zero(s: Seq<NodeId>)
    requires
        forall|i: int| 0 <= i < s.len() ==> !(#[trigger] s[i]).is_zero(),
    ensures
        active_ids(s) == s,
    decreases s.len(),
{
    if s.len() > 0 {
        lemma_active_no_zero(s.drop_last());
        assert(s.drop_last().push(s.last()) =~= s);
    }
}

// ---------------------------------------------------------------------------
// Small helpers
// ---------------------------------------------------------------------------

/// Whether `v` holds `x`.
pub fn contains_id(v: &Vec<NodeId>, x: &NodeId) -> (b: bool)
    ensures
        b == v@.contains(*x),
{
    let mut i: usize = 0;
    while i < v.len()
        invariant
            i <= v.len(),
            forall|k: int| 0 <= k < i ==> v@[k] != *x,
        decreases v.len() - i,
    {
        if v[i].same_as(x) {
            return true;
        }
        i = i + 1;
    }
    false
}

/// Appends the five bytes of an identifier.
fn push_id_bytes(buffer: &mut Vec<u8>, id: &NodeId)
    ensures
        final(buffer)@ == old(buffer)@ + id.0@,
{
    buffer.push(id.0[0]);
    buffer.push(id.0[1]);
    buffer.push(id.0[2]);
    buffer.push(id.0[3]);
    buffer.push(id.0[4]);
    assert(buffer@ =~= old(buffer)@ + id.0@);
}

/// The identifier stored at `bytes[at..at + 5]`.
fn read_id(bytes: &[u8], at: usize) -> (id: NodeId)
    requires
        at + 5 <= bytes@.len(),
    ensures
        id == id_from_bytes(bytes@.subrange(at as int, at + 5)),
{
    NodeId([bytes[at], bytes[at + 1], bytes[at + 2], bytes[at + 3], bytes[at + 4]])
}


// ---------------------------------------------------------------------------
// NodeWriter
// ---------------------------------------------------------------------------

/// Marker for the states of a `NodeWriter`.
pub trait WriterState {}

/// The key has not been written yet.
pub struct KeyToWrite;

impl WriterState for KeyToWrite {}

/// The key has been written; levels follow.
pub struct KeyWritten;

impl WriterState for KeyWritten {}

/// Serializes a node: first the key, then each level in order.
pub struct NodeWriter<S: WriterState> {
    buffer: Vec<u8>,
    max_connections: usize,
    max_connections_level0: usize,
    _phantom: PhantomData<S>,
}

impl<S: WriterState> NodeWriter<S> {
    /// The bytes written so far.
    pub closed spec fn written(&self) -> Seq<u8> {
        self.buffer@
    }

    pub closed spec fn cap0(&self) -> nat {
        self.max_connections_level0 as nat
    }

    pub closed spec fn cap(&self) -> nat {
        self.max_connections as nat
    }

    fn level_capacity(&self, level: u8) -> (c: usize)
        ensures
            c == capacity_at(level as int, self.cap0(), self.cap()),
    {
        if level == 0 {
            self.max_connections_level0
        } else {
            self.max_connections
        }
    }
}

impl NodeWriter<KeyToWrite> {
    /// A writer for nodes with the given slot counts (`max_levels` sizes
    /// nothing observable; it is kept for callers).
    pub fn new(max_connections_level0: usize, max_connections: usize, max_levels: usize) -> (w:
        Self)
        ensures
            w.written() == Seq::<u8>::empty(),
            w.cap0() == max_connections_level0,
            w.cap() == max_connections,
    {
        NodeWriter {
            buffer: Vec::new(),
            max_connections,
            max_connections_level0,
            _phantom: PhantomData,
        }
    }

    /// Writes the key.
    pub fn write_key<K: KeySerialization>(self, key: &K) -> (r: Result<NodeWriter<KeyWritten>, WriteError>)
        ensures
            r matches Ok(w) && w.written() == self.written() + key.key_bytes() && w.cap0()
                == self.cap0() && w.cap() == self.cap(),
    {
        let mut buffer = self.buffer;
        key.write_to_vec(&mut buffer);
        Ok(NodeWriter {
            buffer,
            max_connections: self.max_connections,
            max_connections_level0: self.max_connections_level0,
            _phantom: PhantomData,
        })
    }
}

impl NodeWriter<KeyWritten> {
    /// Writes one level: the count of active (non-empty) neighbors, those
    /// neighbors in order, and zero-filled slots up to the level's capacity.
    /// Fails where the capacity exceeds 255 or the active neighbors do not fit.
    pub fn write_level(self, level: u8, neighbors: &[NodeId]) -> (r: Result<Self, WriteError>)
        ensures
            ({
                let c = capacity_at(level as int, self.cap0(), self.cap());
                let a = active_ids(neighbors@).len();
                if c > 255 {
                    r matches Err(WriteError::TooManyNeighbors { level: l, count, max }) && l
                        == level && count == c && max == 255
                } else if a > c {
                    r matches Err(WriteError::TooManyNeighbors { level: l, count, max }) && l
                        == level && count == a && max == c
                } else {
                    r matches Ok(w) && w.written() == self.written() + encode_level(
                        neighbors@,
                        c,
                    ) && w.cap0() == self.cap0() && w.cap() == self.cap()
                }
            }),
    {
        let expected = self.level_capacity(level);
        if expected > 255 {
            return Err(WriteError::TooManyNeighbors { level, count: expected, max: 255 });
        }
        let mut active: Vec<NodeId> = Vec::new();
        let mut i: usize = 0;
        while i < neighbors.len()
            invariant
                i <= neighbors@.len(),
                active@ == active_ids(neighbors@.take(i as int)),
            decreases neighbors@.len() - i,
        {
            assert(neighbors@.take(i + 1).drop_last() =~= neighbors@.take(i as int));
            if neighbors[i].is_empty() {
                active.push(neighbors[i]);
            }
            i = i + 1;
        }
        assert(neighbors@.take(neighbors@.len() as int) =~= neighbors@);
        let active_count = active.len();
        if active_count > expected {
            return Err(WriteError::TooManyNeighbors { level, count: active_count, max: expected });
        }
        let mut buffer = self.buffer;
        let ghost start = buffer@;
        buffer.push(active_count as u8);
        let mut j: usize = 0;
        while j < active_count
            invariant
                j <= active_count == active@.len(),
                buffer@ == start + seq![active_count as u8] + ids_bytes(active@.take(j as int)),
            decreases active_count - j,
        {
            assert(active@.take(j + 1).drop_last() =~= active@.take(j as int));
            push_id_bytes(&mut buffer, &active[j]);
            j = j + 1;
        }
        assert(active@.take(active_count as int) =~= active@);
        let ghost mid = buffer@;
        let mut k: usize = 0;
        let empties = expected - active_count;
        while k < empties
            invariant
                k <= empties,
                buffer@ == mid + zero_bytes((5 * k) as nat),
            decreases empties - k,
        {
            let e = empty_neighbor();
            push_id_bytes(&mut buffer, &e);
            assert(zero_bytes((5 * k) as nat) + e.0@ =~= zero_bytes((5 * (k + 1)) as nat));
            k = k + 1;
        }
        assert(buffer@ =~= start + encode_level(neighbors@, expected as nat));
        Ok(NodeWriter {
            buffer,
            max_connections: self.max_connections,
            max_connections_level0: self.max_connections_level0,
            _phantom: PhantomData,
        })
    }

    /// The finished node bytes.
    pub fn finish(self) -> (bytes: Vec<u8>)
        ensures
            bytes@ == self.written(),
    {
        self.buffer
    }
}


// ---------------------------------------------------------------------------
// NodeBuilder
// ---------------------------------------------------------------------------

/// Encoding of levels `lo..hi`.
pub open spec fn encode_levels_range(levels: Seq<Seq<NodeId>>, lo: int, hi: int, cap0: nat, cap: nat) -> Seq<u8>
    decreases hi - lo,
{
    if hi <= lo {
        seq![]
    } else {
        encode_levels_range(levels, lo, hi - 1, cap0, cap) + encode_level(
            levels[hi - 1],
            capacity_at(wire_level(hi - 1), cap0, cap),
        )
    }
}

/// The first level, from `i` on, that the writer refuses.
pub open spec fn first_failing_level(levels: Seq<Seq<NodeId>>, i: int, cap0: nat, cap: nat) -> Option<int>
    decreases levels.len() - i,
{
    if i < 0 || i >= levels.len() {
        None
    } else if level_write_fails(levels, i, cap0, cap) {
        Some(i)
    } else {
        first_failing_level(levels, i + 1, cap0, cap)
    }
}

/// An encoded range of levels starts with its first level.
pub proof fn lemma_range_front(levels: Seq<Seq<NodeId>>, lo: int, hi: int, cap0: nat, cap: nat)
    requires
        0 <= lo < hi <= levels.len(),
    ensures
        encode_levels_range(levels, lo, hi, cap0, cap) == encode_level(
            levels[lo],
            capacity_at(wire_level(lo), cap0, cap),
        ) + encode_levels_range(levels, lo + 1, hi, cap0, cap),
    decreases hi - lo,
{
    let e_lo = encode_level(levels[lo], capacity_at(wire_level(lo), cap0, cap));
    let e_last = encode_level(levels[hi - 1], capacity_at(wire_level(hi - 1), cap0, cap));
    if hi - 1 > lo {
        lemma_range_front(levels, lo, hi - 1, cap0, cap);
        assert(encode_levels_range(levels, lo, hi, cap0, cap) == encode_levels_range(
            levels,
            lo,
            hi - 1,
            cap0,
            cap,
        ) + e_last);
        assert(encode_levels_range(levels, lo + 1, hi, cap0, cap) == encode_levels_range(
            levels,
            lo + 1,
            hi - 1,
            cap0,
            cap,
        ) + e_last);
        assert(encode_levels_range(levels, lo, hi, cap0, cap) =~= e_lo + encode_levels_range(
            levels,
            lo + 1,
            hi,
            cap0,
            cap,
        ));
    } else {
        assert(encode_levels_range(levels, lo, lo, cap0, cap) == Seq::<u8>::empty());
        assert(encode_levels_range(levels, lo + 1, hi, cap0, cap) == Seq::<u8>::empty());
        assert(encode_levels_range(levels, lo, hi, cap0, cap) == encode_levels_range(
            levels,
            lo,
            lo,
            cap0,
            cap,
        ) + e_lo);
        assert(encode_levels_range(levels, lo, hi, cap0, cap) =~= e_lo + encode_levels_range(
            levels,
            lo + 1,
            hi,
            cap0,
            cap,
        ));
    }
}

/// The range of levels from `i` to the end is the encoding from `i`.
pub proof fn lemma_range_is_from(levels: Seq<Seq<NodeId>>, i: int, cap0: nat, cap: nat)
    requires
        0 <= i <= levels.len(),
    ensures
        encode_levels_range(levels, i, levels.len() as int, cap0, cap) == encode_levels_from(
            levels,
            i,
            cap0,
            cap,
        ),
    decreases levels.len() - i,
{
    if i < levels.len() {
        lemma_range_is_from(levels, i + 1, cap0, cap);
        lemma_range_front(levels, i, levels.len() as int, cap0, cap);
    }
}

/// Builds a node level by level and serializes it with a `NodeWriter`.
pub struct NodeBuilder<K: Copy + Sized> {
    key: Option<K>,
    levels: Vec<Vec<NodeId>>,
    max_level: usize,
    max_connections_level0: usize,
    max_connections: usize,
}

impl<K: Copy + Sized> NodeBuilder<K> {
    pub closed spec fn key_spec(&self) -> Option<K> {
        self.key
    }

    /// The neighbors held at each level.
    pub closed spec fn levels_spec(&self) -> Seq<Seq<NodeId>> {
        Seq::new(self.levels@.len(), |i: int| self.levels@[i]@)
    }

    pub closed spec fn max_level_spec(&self) -> nat {
        self.max_level as nat
    }

    pub closed spec fn cap0(&self) -> nat {
        self.max_connections_level0 as nat
    }

    pub closed spec fn cap(&self) -> nat {
        self.max_connections as nat
    }

    /// Every level holds distinct identifiers, no more than its capacity.
    pub open spec fn wf(&self) -> bool {
        forall|i: int|
            0 <= i < self.levels_spec().len() ==> no_duplicates(#[trigger] self.levels_spec()[i])
                && self.levels_spec()[i].len() <= capacity_at(i, self.cap0(), self.cap())
    }

    /// An empty builder with the given slot counts.
    pub fn new(max_connections_level0: usize, max_connections: usize) -> (b: Self)
        ensures
            b.wf(),
            b.key_spec() is None,
            b.levels_spec() == Seq::<Seq<NodeId>>::empty(),
            b.max_level_spec() == 0,
            b.cap0() == max_connections_level0,
            b.cap() == max_connections,
    {
        let b = NodeBuilder {
            key: None,
            levels: Vec::new(),
            max_level: 0,
            max_connections_level0,
            max_connections,
        };
        assert(b.levels_spec() =~= Seq::<Seq<NodeId>>::empty());
        b
    }

    fn level_capacity(&self, level: usize) -> (c: usize)
        ensures
            c == capacity_at(level as int, self.cap0(), self.cap()),
    {
        if level == 0 {
            self.max_connections_level0
        } else {
            self.max_connections
        }
    }

    fn ensure_level_exists(&mut self, level: usize)
        requires
            level < usize::MAX,
            old(self).wf(),
        ensures
            final(self).wf(),
            final(self).levels_spec().len() == max_of(old(self).levels_spec().len(), (level + 1) as nat),
            forall|i: int|
                0 <= i < old(self).levels_spec().len() ==> final(self).levels_spec()[i] == old(self).levels_spec()[i],
            forall|i: int|
                old(self).levels_spec().len() <= i < final(self).levels_spec().len() ==> final(self).levels_spec()[i] == Seq::<NodeId>::empty(),
            final(self).key_spec() == old(self).key_spec(),
            final(self).max_level_spec() == old(self).max_level_spec(),
            final(self).cap0() == old(self).cap0(),
            final(self).cap() == old(self).cap(),
    {
        while self.levels.len() <= level
            invariant
                self.wf(),
                self.levels@.len() <= max_of(old(self).levels_spec().len(), (level + 1) as nat),
                self.levels@.len() >= old(self).levels@.len(),
                forall|i: int|
                    0 <= i < old(self).levels_spec().len() ==> self.levels_spec()[i] == old(self).levels_spec()[i],
                forall|i: int|
                    old(self).levels_spec().len() <= i < self.levels_spec().len() ==> self.levels_spec()[i]
                        == Seq::<NodeId>::empty(),
                self.key_spec() == old(self).key_spec(),
                self.max_level_spec() == old(self).max_level_spec(),
                self.cap0() == old(self).cap0(),
                self.cap() == old(self).cap(),
            decreases level + 1 - self.levels@.len(),
        {
            let ghost prev = self.levels_spec();
            self.levels.push(Vec::new());
            assert(self.levels_spec() =~= prev.push(Seq::<NodeId>::empty()));
        }
    }

    fn normalize_neighbors(&self, level: usize, neighbors: Vec<NodeId>) -> (r: Result<Vec<NodeId>, BuildError>)
        ensures
            ({
                let c = capacity_at(level as int, self.cap0(), self.cap());
                if normalized(neighbors@).len() > c {
                    r matches Err(BuildError::TooManyNeighbors { level: l, count, max }) && l
                        == level as u8 && count == c + 1 && max == c
                } else {
                    r matches Ok(v) && v@ == normalized(neighbors@)
                }
            }),
    {
        let capacity = self.level_capacity(level);
        let mut out: Vec<NodeId> = Vec::new();
        let mut i: usize = 0;
        while i < neighbors.len()
            invariant
                i <= neighbors@.len(),
                out@ == normalized(neighbors@.take(i as int)),
                out@.len() <= capacity,
                out@.len() <= i,
                capacity == capacity_at(level as int, self.cap0(), self.cap()),
            decreases neighbors@.len() - i,
        {
            assert(neighbors@.take(i + 1).drop_last() =~= neighbors@.take(i as int));
            let n = neighbors[i];
            if n.is_empty() && !contains_id(&out, &n) {
                if out.len() >= capacity {
                    proof {
                        lemma_normalized_monotone(neighbors@, i + 1, neighbors@.len() as int);
                        assert(neighbors@.take(neighbors@.len() as int) =~= neighbors@);
                    }
                    return Err(
                        BuildError::TooManyNeighbors {
                            level: level as u8,
                            count: out.len() + 1,
                            max: capacity,
                        },
                    );
                }
                out.push(n);
            }
            i = i + 1;
        }
        assert(neighbors@.take(neighbors@.len() as int) =~= neighbors@);
        Ok(out)
    }

    /// Sets the key.
    pub fn with_key(self, key: K) -> (b: Self)
        ensures
            b.key_spec() == Some(key),
            b.levels_spec() == self.levels_spec(),
            b.max_level_spec() == self.max_level_spec(),
            b.cap0() == self.cap0(),
            b.cap() == self.cap(),
            self.wf() ==> b.wf(),
    {
        NodeBuilder {
            key: Some(key),
            levels: self.levels,
            max_level: self.max_level,
            max_connections_level0: self.max_connections_level0,
            max_connections: self.max_connections,
        }
    }

    /// Replaces the neighbors of `level` by `neighbors` without empty slots
    /// and repeats; fails, changing nothing, where more than the level's
    /// capacity remain.
    pub fn set_neighbors_at_level(&mut self, level: usize, neighbors: Vec<NodeId>) -> (r: Result<(), BuildError>)
        requires
            old(self).wf(),
            level < usize::MAX,
        ensures
            final(self).wf(),
            final(self).key_spec() == old(self).key_spec(),
            final(self).cap0() == old(self).cap0(),
            final(self).cap() == old(self).cap(),
            ({
                let c = capacity_at(level as int, old(self).cap0(), old(self).cap());
                if normalized(neighbors@).len() > c {
                    &&& r matches Err(BuildError::TooManyNeighbors { level: l, count, max })
                    &&& l == level as u8 && count == c + 1 && max == c
                    &&& final(self).levels_spec() == old(self).levels_spec()
                    &&& final(self).max_level_spec() == old(self).max_level_spec()
                } else {
                    &&& r is Ok
                    &&& final(self).levels_spec().len() == max_of(
                        old(self).levels_spec().len(),
                        (level + 1) as nat,
                    )
                    &&& final(self).levels_spec()[level as int] == normalized(neighbors@)
                    &&& forall|i: int|
                        0 <= i < final(self).levels_spec().len() && i != level ==> final(self).levels_spec()[i] == if i < old(self).levels_spec().len() {
                            old(self).levels_spec()[i]
                        } else {
                            Seq::<NodeId>::empty()
                        }
                    &&& final(self).max_level_spec() == max_of(
                        old(self).max_level_spec(),
                        level as nat,
                    )
                }
            }),
    {
        let normalized_neighbors = match self.normalize_neighbors(level, neighbors) {
            Ok(v) => v,
            Err(e) => {
                return Err(e);
            },
        };
        proof {
            lemma_normalized_props(neighbors@);
        }
        self.ensure_level_exists(level);
        let ghost mid = self.levels_spec();
        self.levels.set(level, normalized_neighbors);
        assert(self.levels_spec() =~= mid.update(level as int, normalized(neighbors@)));
        if level > self.max_level {
            self.max_level = level;
        }
        Ok(())
    }

    /// Adds one neighbor at `level` unless it is already there; fails where
    /// the level is full (levels up to `level` exist afterwards either way).
    pub fn add_neighbor(&mut self, level: usize, neighbor: NodeId) -> (r: Result<(), BuildError>)
        requires
            old(self).wf(),
            level < usize::MAX,
            level < old(self).levels_spec().len() ==> old(self).levels_spec()[level as int].len()
                < usize::MAX,
        ensures
            final(self).wf(),
            final(self).key_spec() == old(self).key_spec(),
            final(self).cap0() == old(self).cap0(),
            final(self).cap() == old(self).cap(),
            final(self).levels_spec().len() == max_of(old(self).levels_spec().len(), (level + 1) as nat),
            ({
                let before = if level < old(self).levels_spec().len() {
                    old(self).levels_spec()[level as int]
                } else {
                    Seq::<NodeId>::empty()
                };
                let c = capacity_at(level as int, old(self).cap0(), old(self).cap());
                if before.contains(neighbor) {
                    r is Ok && final(self).levels_spec()[level as int] == before
                } else if before.len() >= c {
                    &&& r matches Err(BuildError::TooManyNeighbors { level: l, count, max })
                    &&& l == level as u8 && count == before.len() + 1 && max == c
                    &&& final(self).levels_spec()[level as int] == before
                } else {
                    r is Ok && final(self).levels_spec()[level as int] == before.push(neighbor)
                }
            }),
            forall|i: int|
                0 <= i < final(self).levels_spec().len() && i != level ==> final(self).levels_spec()[i] == if i < old(self).levels_spec().len() {
                    old(self).levels_spec()[i]
                } else {
                    Seq::<NodeId>::empty()
                },
    {
        self.ensure_level_exists(level);
        let capacity = self.level_capacity(level);
        let mut current = self.levels[level].clone();
        assert(current@ == self.levels_spec()[level as int]);
        let ghost mid = self.levels_spec();
        if !contains_id(&current, &neighbor) {
            if current.len() >= capacity {
                return Err(
                    BuildError::TooManyNeighbors {
                        level: level as u8,
                        count: current.len() + 1,
                        max: capacity,
                    },
                );
            }
            current.push(neighbor);
            self.levels.set(level, current);
            assert(self.levels_spec() =~= mid.update(level as int, mid[level as int].push(neighbor)));
            assert(no_duplicates(mid[level as int].push(neighbor)));
            if level > self.max_level {
                self.max_level = level;
            }
        }
        Ok(())
    }

    /// Removes `neighbor` from `level`; reports whether it was there.
    pub fn remove_neighbor(&mut self, level: usize, neighbor: NodeId) -> (removed: bool)
        requires
            old(self).wf(),
        ensures
            final(self).wf(),
            final(self).key_spec() == old(self).key_spec(),
            final(self).max_level_spec() == old(self).max_level_spec(),
            final(self).cap0() == old(self).cap0(),
            final(self).cap() == old(self).cap(),
            final(self).levels_spec().len() == old(self).levels_spec().len(),
            removed == (level < old(self).levels_spec().len() && old(self).levels_spec()[level as int].contains(neighbor)),
            forall|i: int|
                0 <= i < old(self).levels_spec().len() && i != level ==> final(self).levels_spec()[i] == old(self).levels_spec()[i],
            removed ==> final(self).levels_spec()[level as int] == old(self).levels_spec()[level as int].remove(
                old(self).levels_spec()[level as int].index_of(neighbor),
            ),
            !removed ==> final(self).levels_spec() == old(self).levels_spec(),
    {
        if level < self.levels.len() {
            let mut current = self.levels[level].clone();
            assert(current@ == self.levels_spec()[level as int]);
            let ghost mid = self.levels_spec();
            let mut pos: usize = 0;
            while pos < current.len()
                invariant
                    pos <= current@.len(),
                    forall|k: int| 0 <= k < pos ==> current@[k] != neighbor,
                    current@ == mid[level as int],
                    mid == self.levels_spec(),
                    self.levels_spec() == old(self).levels_spec(),
                    self.levels@.len() == old(self).levels@.len(),
                    level < self.levels@.len(),
                    self.wf(),
                    self.key_spec() == old(self).key_spec(),
                    self.max_level_spec() == old(self).max_level_spec(),
                    self.cap0() == old(self).cap0(),
                    self.cap() == old(self).cap(),
                decreases current@.len() - pos,
            {
                if current[pos].same_as(&neighbor) {
                    proof {
                        let s = current@;
                        assert(s.contains(neighbor));
                        assert(no_duplicates(s));
                        let j = s.index_of(neighbor);
                        assert(s[j] == neighbor);
                        assert(j == pos);
                    }
                    current.remove(pos);
                    self.levels.set(level, current);
                    assert(self.levels_spec() =~= mid.update(level as int, mid[level as int].remove(pos as int)));
                    proof {
                        assert forall|i: int|
                            0 <= i < self.levels_spec().len() implies no_duplicates(
                            #[trigger] self.levels_spec()[i],
                        ) && self.levels_spec()[i].len() <= capacity_at(i, self.cap0(), self.cap()) by {
                            if i == level {
                                let s = mid[i];
                                let t = self.levels_spec()[i];
                                assert forall|a: int, b: int| 0 <= a < b < t.len() implies t[a] != t[b] by {
                                    let a2 = if a < pos { a } else { a + 1 };
                                    let b2 = if b < pos { b } else { b + 1 };
                                    assert(t[a] == s[a2]);
                                    assert(t[b] == s[b2]);
                                }
                            }
                        }
                        assert(self.levels_spec() =~= self.levels_spec());
                    }
                    return true;
                }
                pos = pos + 1;
            }
        }
        false
    }

    /// The neighbors held at `level`, where the level exists.
    pub fn get_neighbors_at_level(&self, level: usize) -> (r: Option<&[NodeId]>)
        ensures
            level < self.levels_spec().len() ==> (r matches Some(s) && s@ == self.levels_spec()[level as int]),
            level >= self.levels_spec().len() ==> r is None,
    {
        if level < self.levels.len() {
            Some(self.levels[level].as_slice())
        } else {
            None
        }
    }

    /// The number of levels held.
    pub fn level_count(&self) -> (n: usize)
        ensures
            n == self.levels_spec().len(),
    {
        self.levels.len()
    }
}


/// The error that the writer reports for level `i` of `levels`.
pub open spec fn write_error_for_level(e: WriteError, levels: Seq<Seq<NodeId>>, i: int, cap0: nat, cap: nat) -> bool {
    let c = capacity_at(wire_level(i), cap0, cap);
    match e {
        WriteError::TooManyNeighbors { level, count, max } => {
            &&& level as int == wire_level(i)
            &&& if c > 255 {
                count == c && max == 255
            } else {
                count == active_ids(levels[i]).len() && max == c
            }
        },
    }
}

/// A list of empty identifiers normalizes to nothing.
pub proof fn lemma_normalized_all_zero(ns: Seq<NodeId>)
    requires
        forall|i: int| 0 <= i < ns.len() ==> (#[trigger] ns[i]).is_zero(),
    ensures
        normalized(ns) == Seq::<NodeId>::empty(),
    decreases ns.len(),
{
    if ns.len() > 0 {
        lemma_normalized_all_zero(ns.drop_last());
    }
}

impl<K: Copy + Sized> NodeBuilder<K> {
    /// A builder with `key` and levels `0..=level`, each with all slots empty.
    pub fn with_hnsw_levels(key: K, level: u8, max_connections_level0: usize, max_connections: usize) -> (r: Result<Self, BuildError>)
        ensures
            r matches Ok(b) && b.wf() && b.key_spec() == Some(key) && b.levels_spec() == Seq::new(
                (level + 1) as nat,
                |i: int| Seq::<NodeId>::empty(),
            ) && b.max_level_spec() == level && b.cap0() == max_connections_level0 && b.cap()
                == max_connections,
    {
        let mut builder = Self::new(max_connections_level0, max_connections).with_key(key);
        let top = level as usize;
        let mut lvl: usize = 0;
        while lvl <= top
            invariant
                top == level,
                lvl <= top + 1,
                builder.wf(),
                builder.key_spec() == Some(key),
                builder.cap0() == max_connections_level0,
                builder.cap() == max_connections,
                builder.levels_spec() == Seq::new(lvl as nat, |i: int| Seq::<NodeId>::empty()),
                lvl > 0 ==> builder.max_level_spec() == lvl - 1,
                lvl == 0 ==> builder.max_level_spec() == 0,
            decreases top + 1 - lvl,
        {
            let max_conns = if lvl == 0 {
                max_connections_level0
            } else {
                max_connections
            };
            let empty_neighbors = vec![empty_neighbor(); max_conns];
            proof {
                lemma_normalized_all_zero(empty_neighbors@);
            }
            let ghost before = builder.levels_spec();
            let res = builder.set_neighbors_at_level(lvl, empty_neighbors);
            assert(res is Ok);
            assert(builder.levels_spec() =~= Seq::new((lvl + 1) as nat, |i: int| Seq::<NodeId>::empty()));
            lvl = lvl + 1;
        }
        Ok(builder)
    }
}

impl<K: KeySerialization> NodeBuilder<K> {
    /// Serializes the node: the key, then every level in order, each with
    /// its capacity of slots. Fails where no key is set, or where the
    /// writer refuses a level (see `NodeWriter::write_level`).
    pub fn to_bytes(&self) -> (r: Result<Vec<u8>, BuildError>)
        ensures
            self.key_spec() is None ==> r matches Err(BuildError::MissingKey),
            self.key_spec() is Some ==> (first_failing_level(self.levels_spec(), 0, self.cap0(), self.cap()) matches Some(i)
                ==> (r matches Err(BuildError::WriteError(e)) && write_error_for_level(
                e,
                self.levels_spec(),
                i,
                self.cap0(),
                self.cap(),
            ))),
            self.key_spec() matches Some(k) ==> (first_failing_level(self.levels_spec(), 0, self.cap0(), self.cap()) is None
                ==> (r matches Ok(bytes) && bytes@ == k.key_bytes() + encode_levels_from(
                self.levels_spec(),
                0,
                self.cap0(),
                self.cap(),
            ))),
    {
        let key = match &self.key {
            Some(k) => k,
            None => {
                return Err(BuildError::MissingKey);
            },
        };
        let w0 = NodeWriter::new(self.max_connections_level0, self.max_connections, self.max_level);
        let mut writer = match w0.write_key(key) {
            Ok(w) => w,
            Err(e) => {
                return Err(BuildError::WriteError(e));
            },
        };
        let ghost levels = self.levels_spec();
        let ghost cap0 = self.cap0();
        let ghost cap = self.cap();
        let mut i: usize = 0;
        while i < self.levels.len()
            invariant
                i <= self.levels@.len() == levels.len(),
                levels == self.levels_spec(),
                self.key_spec() == Some(*key),
                cap0 == self.cap0() == writer.cap0(),
                cap == self.cap() == writer.cap(),
                writer.written() == key.key_bytes() + encode_levels_range(levels, 0, i as int, cap0, cap),
                first_failing_level(levels, 0, cap0, cap) == first_failing_level(levels, i as int, cap0, cap),
            decreases self.levels@.len() - i,
        {
            let level_neighbors = self.levels[i].as_slice();
            assert(level_neighbors@ == levels[i as int]);
            match writer.write_level(i as u8, level_neighbors) {
                Ok(w) => {
                    writer = w;
                },
                Err(e) => {
                    assert(level_write_fails(levels, i as int, cap0, cap));
                    assert((i as u8) as int == wire_level(i as int));
                    assert(first_failing_level(levels, i as int, cap0, cap) == Some(i as int));
                    return Err(BuildError::WriteError(e));
                },
            }
            assert(!level_write_fails(levels, i as int, cap0, cap));
            assert(encode_levels_range(levels, 0, i + 1, cap0, cap) == encode_levels_range(
                levels,
                0,
                i as int,
                cap0,
                cap,
            ) + encode_level(levels[i as int], capacity_at(wire_level(i as int), cap0, cap)));
            i = i + 1;
        }
        proof {
            lemma_range_is_from(levels, 0, cap0, cap);
        }
        Ok(writer.finish())
    }
}


// ---------------------------------------------------------------------------
// NodeParser
// ---------------------------------------------------------------------------

/// Byte size of one encoded level with `capacity` slots.
pub open spec fn level_size_spec(capacity: nat) -> nat {
    1 + 5 * capacity
}

/// Total byte size of levels `from..to`.
pub open spec fn levels_size(from: int, to: int, cap0: nat, cap: nat) -> nat
    decreases to - from,
{
    if to <= from {
        0
    } else {
        levels_size(from, to - 1, cap0, cap) + level_size_spec(capacity_at(to - 1, cap0, cap))
    }
}

/// One-byte level counter that stops at 255.
pub open spec fn sat_inc(l: u8) -> u8 {
    if l < 255 {
        (l + 1) as u8
    } else {
        255
    }
}

/// Marker for the states of a `NodeParser`.
pub trait ParserState {}

/// The key comes next.
pub struct KeyToRead;

impl ParserState for KeyToRead {}

/// Levels come next.
pub struct LevelsToRead;

impl ParserState for LevelsToRead {}

/// Reads a node written by `NodeWriter`: first the key, then levels in order.
pub struct NodeParser<'a, K, S: ParserState> {
    remaining: &'a [u8],
    next_level: u8,
    consumed: usize,
    max_connections_level0: usize,
    max_connections: usize,
    _phantom: PhantomData<(K, S)>,
}

/// A parser over `bytes`, positioned at the key.
pub fn node_parser<'a, K: Copy + Sized>(bytes: &'a [u8], max_connections_level0: usize, max_connections: usize) -> (p: NodeParser<'a, K, KeyToRead>)
    requires
        5 * max_connections_level0 + 1 <= usize::MAX,
        5 * max_connections + 1 <= usize::MAX,
    ensures
        p.wf(),
        p.remaining_spec() == bytes@,
        p.next_level_spec() == 0,
        p.consumed_spec() == 0,
        p.cap0() == max_connections_level0,
        p.cap() == max_connections,
{
    let n = bytes.len();
    assert(n == bytes@.len());
    NodeParser {
        remaining: bytes,
        next_level: 0,
        consumed: 0,
        max_connections_level0,
        max_connections,
        _phantom: PhantomData,
    }
}

impl<'a, K, S: ParserState> NodeParser<'a, K, S> {
    /// The bytes not read yet.
    pub closed spec fn remaining_spec(&self) -> Seq<u8> {
        self.remaining@
    }

    /// The level read next.
    pub closed spec fn next_level_spec(&self) -> u8 {
        self.next_level
    }

    /// Bytes of levels read before `remaining` (the key not counted).
    pub closed spec fn consumed_spec(&self) -> nat {
        self.consumed as nat
    }

    pub closed spec fn cap0(&self) -> nat {
        self.max_connections_level0 as nat
    }

    pub closed spec fn cap(&self) -> nat {
        self.max_connections as nat
    }

    /// Sizes fit in `usize`.
    pub open spec fn wf(&self) -> bool {
        &&& 5 * self.cap0() + 1 <= usize::MAX
        &&& 5 * self.cap() + 1 <= usize::MAX
        &&& self.consumed_spec() + self.remaining_spec().len() <= usize::MAX
    }

    /// The slot count of a level.
    pub open spec fn capacity_of(&self, level: int) -> nat {
        capacity_at(level, self.cap0(), self.cap())
    }

    fn level_capacity(&self, level: u8) -> (c: usize)
        ensures
            c == self.capacity_of(level as int),
    {
        if level == 0 {
            self.max_connections_level0
        } else {
            self.max_connections
        }
    }

    fn level_size(&self, level: u8) -> (n: usize)
        requires
            self.wf(),
        ensures
            n == level_size_spec(self.capacity_of(level as int)),
    {
        NEIGHBORS_COUNT_SIZE + self.level_capacity(level) * NODE_ID_SIZE
    }

    /// Offset (counted like `consumed`) at which `target_level` starts, where
    /// the remaining bytes hold every level up to and including it.
    pub fn level_offset(&self, target_level: u8) -> (r: Option<usize>)
        requires
            self.wf(),
        ensures
            ({
                let skip = levels_size(self.next_level_spec() as int, target_level as int, self.cap0(), self.cap());
                if target_level < self.next_level_spec() || self.remaining_spec().len() < skip
                    + level_size_spec(self.capacity_of(target_level as int)) {
                    r is None
                } else {
                    r == Some((self.consumed_spec() + skip) as usize)
                }
            }),
    {
        if target_level < self.next_level {
            return None;
        }
        let mut offset = self.consumed;
        let mut skipped: usize = 0;
        let mut level = self.next_level;
        while level < target_level
            invariant
                self.wf(),
                self.next_level_spec() <= level <= target_level,
                skipped == levels_size(self.next_level_spec() as int, level as int, self.cap0(), self.cap()),
                skipped <= self.remaining_spec().len(),
                offset == self.consumed_spec() + skipped,
            decreases target_level - level,
        {
            let size = self.level_size(level);
            if self.remaining.len() - skipped < size {
                proof {
                    lemma_levels_size_monotone(self.next_level_spec() as int, level + 1, target_level as int, self.cap0(), self.cap());
                }
                return None;
            }
            skipped = skipped + size;
            offset = offset + size;
            level = level + 1;
        }
        if self.remaining.len() - skipped < self.level_size(target_level) {
            return None;
        }
        Some(offset)
    }

    /// The bytes of `target_level`, where the remaining bytes hold every
    /// level up to and including it.
    pub fn level_bytes(&self, target_level: u8) -> (r: Option<&'a [u8]>)
        requires
            self.wf(),
        ensures
            ({
                let skip = levels_size(self.next_level_spec() as int, target_level as int, self.cap0(), self.cap());
                let size = level_size_spec(self.capacity_of(target_level as int));
                if target_level < self.next_level_spec() || self.remaining_spec().len() < skip + size {
                    r is None
                } else {
                    r matches Some(b) && b@ == self.remaining_spec().subrange(skip as int, (skip + size) as int)
                }
            }),
    {
        if target_level < self.next_level {
            return None;
        }
        let mut skipped: usize = 0;
        let mut level = self.next_level;
        while level < target_level
            invariant
                self.wf(),
                self.next_level_spec() <= level <= target_level,
                skipped == levels_size(self.next_level_spec() as int, level as int, self.cap0(), self.cap()),
                skipped <= self.remaining_spec().len(),
            decreases target_level - level,
        {
            let size = self.level_size(level);
            if self.remaining.len() - skipped < size {
                proof {
                    lemma_levels_size_monotone(self.next_level_spec() as int, level + 1, target_level as int, self.cap0(), self.cap());
                }
                return None;
            }
            skipped = skipped + size;
            level = level + 1;
        }
        let size = self.level_size(target_level);
        if self.remaining.len() - skipped < size {
            return None;
        }
        Some(&self.remaining[skipped..skipped + size])
    }

    /// The parser moved to `target_level`, where the remaining bytes hold
    /// every level before it.
    pub fn seek_to_level(self, target_level: u8) -> (r: Option<Self>)
        requires
            self.wf(),
        ensures
            ({
                let skip = levels_size(self.next_level_spec() as int, target_level as int, self.cap0(), self.cap());
                if target_level < self.next_level_spec() || self.remaining_spec().len() < skip {
                    r is None
                } else {
                    r matches Some(p) && p.wf() && p.remaining_spec() == self.remaining_spec().subrange(
                        skip as int,
                        self.remaining_spec().len() as int,
                    ) && p.next_level_spec() == target_level && p.consumed_spec() == self.consumed_spec()
                        + skip && p.cap0() == self.cap0() && p.cap() == self.cap()
                }
            }),
    {
        if target_level < self.next_level {
            return None;
        }
        let mut skipped: usize = 0;
        let mut level = self.next_level;
        while level < target_level
            invariant
                self.wf(),
                self.next_level_spec() <= level <= target_level,
                skipped == levels_size(self.next_level_spec() as int, level as int, self.cap0(), self.cap()),
                skipped <= self.remaining_spec().len(),
            decreases target_level - level,
        {
            let size = self.level_size(level);
            if self.remaining.len() - skipped < size {
                proof {
                    lemma_levels_size_monotone(self.next_level_spec() as int, level + 1, target_level as int, self.cap0(), self.cap());
                }
                return None;
            }
            skipped = skipped + size;
            level = level + 1;
        }
        Some(NodeParser {
            remaining: &self.remaining[skipped..self.remaining.len()],
            next_level: level,
            consumed: self.consumed + skipped,
            max_connections_level0: self.max_connections_level0,
            max_connections: self.max_connections,
            _phantom: PhantomData,
        })
    }
}

/// The bytes of levels grow with the number of levels.
pub proof fn lemma_levels_size_monotone(from: int, mid: int, to: int, cap0: nat, cap: nat)
    requires
        from <= mid <= to,
    ensures
        levels_size(from, mid, cap0, cap) <= levels_size(from, to, cap0, cap),
    decreases to - mid,
{
    if mid < to {
        lemma_levels_size_monotone(from, mid, to - 1, cap0, cap);
    }
}

impl<'a, K: KeySerialization> NodeParser<'a, K, KeyToRead> {
    /// A one-line description of a parser positioned at the key.
    pub open spec fn key_description(&self) -> Seq<char> {
        "NodeParser { state: KeyToRead, remaining: "@ + decimal(self.remaining_spec().len())
            + " bytes, expected: "@ + decimal(K::key_size()) + " bytes for key type, preview: "@
            + hex_preview(self.remaining_spec(), 8) + " }"@
    }

    /// Describes the parser: the bytes left, the key width and a preview.
    pub fn debug_text(&self) -> (s: String)
        ensures
            s@ == self.key_description(),
    {
        let mut s = from_text("NodeParser { state: KeyToRead, remaining: ");
        push_decimal(&mut s, self.remaining.len());
        push_text(&mut s, " bytes, expected: ");
        push_decimal(&mut s, K::serialized_size());
        push_text(&mut s, " bytes for key type, preview: ");
        let preview = format_hex_preview(self.remaining, 8);
        push_text(&mut s, preview.as_str());
        push_text(&mut s, " }");
        s
    }

    /// Reads the key; returns it, a parser positioned at level 0, and the
    /// number of bytes the key took.
    pub fn read_key(self) -> (r: (K, NodeParser<'a, K, LevelsToRead>, usize))
        requires
            self.wf(),
            self.remaining_spec().len() >= K::key_size(),
        ensures
            r.0.key_bytes() == self.remaining_spec().subrange(0, K::key_size() as int),
            r.1.wf(),
            r.1.remaining_spec() == self.remaining_spec().subrange(K::key_size() as int, self.remaining_spec().len() as int),
            r.1.next_level_spec() == 0,
            r.1.consumed_spec() == 0,
            r.1.cap0() == self.cap0(),
            r.1.cap() == self.cap(),
            r.2 == K::key_size(),
    {
        let size = K::serialized_size();
        let key = K::read_from_bytes(self.remaining);
        (
            key,
            NodeParser {
                remaining: &self.remaining[size..self.remaining.len()],
                next_level: 0,
                consumed: 0,
                max_connections_level0: self.max_connections_level0,
                max_connections: self.max_connections,
                _phantom: PhantomData,
            },
            size,
        )
    }
}

impl<'a, K> NodeParser<'a, K, LevelsToRead> {
    /// A one-line description of a parser positioned at a level: exhausted,
    /// or the level, its active count, its capacity, the bytes left and
    /// the bytes the level needs, with a preview.
    pub open spec fn level_description(&self) -> Seq<char> {
        let rem = self.remaining_spec();
        if rem.len() == 0 {
            "NodeParser { state: LevelsToRead, remaining: 0 bytes, status: exhausted }"@
        } else {
            let capacity = self.capacity_of(self.next_level_spec() as int);
            "NodeParser { state: LevelsToRead, level: "@ + decimal(self.next_level_spec() as nat)
                + ", active: "@ + decimal(rem[0] as nat) + ", capacity: "@ + decimal(capacity)
                + ", remaining: "@ + decimal(rem.len()) + " bytes, needed: "@ + decimal(
                level_size_spec(capacity),
            ) + " bytes, preview: "@ + hex_preview(rem, 12) + " }"@
        }
    }

    /// Describes the parser and the level it reads next.
    pub fn debug_text(&self) -> (s: String)
        requires
            self.wf(),
        ensures
            s@ == self.level_description(),
    {
        if self.remaining.len() == 0 {
            return from_text("NodeParser { state: LevelsToRead, remaining: 0 bytes, status: exhausted }");
        }
        let level = self.next_level;
        let active = self.remaining[0];
        let capacity = self.level_capacity(level);
        let needed = self.level_size(level);
        let mut s = from_text("NodeParser { state: LevelsToRead, level: ");
        push_decimal(&mut s, level as usize);
        push_text(&mut s, ", active: ");
        push_decimal(&mut s, active as usize);
        push_text(&mut s, ", capacity: ");
        push_decimal(&mut s, capacity);
        push_text(&mut s, ", remaining: ");
        push_decimal(&mut s, self.remaining.len());
        push_text(&mut s, " bytes, needed: ");
        push_decimal(&mut s, needed);
        push_text(&mut s, " bytes, preview: ");
        let preview = format_hex_preview(self.remaining, 12);
        push_text(&mut s, preview.as_str());
        push_text(&mut s, " }");
        s
    }

    /// What `read_level` gives for this parser: the level read, its active
    /// neighbors, the parser after it and the bytes the level took.
    pub open spec fn read_level_ok(&self, level: Option<(u8, Seq<NodeId>)>, next: Option<NodeParser<'a, K, LevelsToRead>>, used: usize) -> bool {
        match decode_level(self.remaining_spec(), self.capacity_of(self.next_level_spec() as int)) {
            None => level is None && next is None && used == 0,
            Some((ids, rest)) => {
                &&& level == Some((self.next_level_spec(), ids))
                &&& used == level_size_spec(self.capacity_of(self.next_level_spec() as int))
                &&& rest.len() == 0 ==> next is None
                &&& rest.len() > 0 ==> (next matches Some(p) && p.wf() && p.remaining_spec() == rest
                    && p.next_level_spec() == sat_inc(self.next_level_spec()) && p.consumed_spec()
                    == self.consumed_spec() + used && p.cap0() == self.cap0() && p.cap() == self.cap())
            },
        }
    }

    fn read_level_internal(self) -> (r: (Option<(u8, Vec<NodeId>, usize, usize, usize)>, Option<NodeParser<'a, K, LevelsToRead>>, usize))
        requires
            self.wf(),
        ensures
            self.read_level_ok(
                match r.0 {
                    Some(t) => Some((t.0, t.1@)),
                    None => None,
                },
                r.1,
                r.2,
            ),
            r.0 matches Some(t) ==> t.2 == t.1@.len() && t.3 == self.capacity_of(self.next_level_spec() as int)
                && t.2 <= t.3 && t.4 == self.consumed_spec(),
    {
        if self.remaining.len() == 0 {
            return (None, None, 0);
        }
        let level = self.next_level;
        let active_count = self.remaining[0] as usize;
        let expected = self.level_capacity(level);
        if active_count > expected {
            return (None, None, 0);
        }
        let neighbors_size = expected * NODE_ID_SIZE;
        if self.remaining.len() - 1 < neighbors_size {
            return (None, None, 0);
        }
        let mut active: Vec<NodeId> = Vec::new();
        let mut i: usize = 0;
        let ghost body = self.remaining@.subrange(1, self.remaining@.len() as int);
        while i < active_count
            invariant
                self.wf(),
                i <= active_count <= expected,
                5 * expected <= self.remaining@.len() - 1,
                body == self.remaining@.subrange(1, self.remaining@.len() as int),
                active@ == ids_of(body, i as nat),
            decreases active_count - i,
        {
            assert(5 * i + 5 <= 5 * expected) by (nonlinear_arith)
                requires
                    i < expected,
            ;
            let id = read_id(self.remaining, 1 + i * NODE_ID_SIZE);
            assert(self.remaining@.subrange(1 + 5 * i, 1 + 5 * i + 5) =~= body.subrange(5 * i, 5 * i + 5));
            active.push(id);
            assert(active@ =~= ids_of(body, (i + 1) as nat));
            i = i + 1;
        }
        let total_consumed = NEIGHBORS_COUNT_SIZE + neighbors_size;
        let rest = &self.remaining[total_consumed..self.remaining.len()];
        let next_parser = if rest.len() == 0 {
            None
        } else {
            let next_level = if level < 255 {
                level + 1
            } else {
                255
            };
            Some(NodeParser {
                remaining: rest,
                next_level,
                consumed: self.consumed + total_consumed,
                max_connections_level0: self.max_connections_level0,
                max_connections: self.max_connections,
                _phantom: PhantomData,
            })
        };
        let consumed = self.consumed;
        (Some((level, active, active_count, expected, consumed)), next_parser, total_consumed)
    }

    /// Reads one level: its number and active neighbors, the parser for the
    /// next level (none where no bytes follow), and the bytes it took.
    pub fn read_level(self) -> (r: (Option<(u8, Vec<NodeId>)>, Option<NodeParser<'a, K, LevelsToRead>>, usize))
        requires
            self.wf(),
        ensures
            self.read_level_ok(
                match r.0 {
                    Some(t) => Some((t.0, t.1@)),
                    None => None,
                },
                r.1,
                r.2,
            ),
    {
        let (level_data, next_parser, consumed) = self.read_level_internal();
        let data = match level_data {
            Some((level, neighbors, _, _, _)) => Some((level, neighbors)),
            None => None,
        };
        (data, next_parser, consumed)
    }

    /// Like `read_level`, with the number of empty slots of the level.
    pub fn read_level_with_counts(self) -> (r: (Option<(u8, Vec<NodeId>, usize)>, Option<NodeParser<'a, K, LevelsToRead>>, usize))
        requires
            self.wf(),
        ensures
            self.read_level_ok(
                match r.0 {
                    Some(t) => Some((t.0, t.1@)),
                    None => None,
                },
                r.1,
                r.2,
            ),
            r.0 matches Some(t) ==> t.2 == self.capacity_of(self.next_level_spec() as int) - t.1@.len(),
    {
        let (level_data, next_parser, consumed) = self.read_level_internal();
        match level_data {
            Some((level, neighbors, active_count, capacity, _offset)) => {
                let empty_count = capacity - active_count;
                (Some((level, neighbors, empty_count)), next_parser, consumed)
            },
            None => (None, next_parser, consumed),
        }
    }

    /// The parser positioned after the next level, where that level's bytes
    /// are all there and more bytes follow.
    pub fn skip_level(self) -> (r: Option<NodeParser<'a, K, LevelsToRead>>)
        requires
            self.wf(),
        ensures
            ({
                let size = level_size_spec(self.capacity_of(self.next_level_spec() as int));
                if self.remaining_spec().len() <= size {
                    r is None
                } else {
                    r matches Some(p) && p.wf() && p.remaining_spec() == self.remaining_spec().subrange(
                        size as int,
                        self.remaining_spec().len() as int,
                    ) && p.next_level_spec() == sat_inc(self.next_level_spec()) && p.consumed_spec()
                        == self.consumed_spec() + size && p.cap0() == self.cap0() && p.cap() == self.cap()
                }
            }),
    {
        let size = self.level_size(self.next_level);
        if self.remaining.len() < size {
            return None;
        }
        let rest = &self.remaining[size..self.remaining.len()];
        if rest.len() == 0 {
            None
        } else {
            let next_level = if self.next_level < 255 {
                self.next_level + 1
            } else {
                255
            };
            Some(NodeParser {
                remaining: rest,
                next_level,
                consumed: self.consumed + size,
                max_connections_level0: self.max_connections_level0,
                max_connections: self.max_connections,
                _phantom: PhantomData,
            })
        }
    }
}


// ---------------------------------------------------------------------------
// Laws
// ---------------------------------------------------------------------------

/// Where no level from `j` on fails, level `i` after it does not fail.
pub proof fn lemma_no_failing_level(levels: Seq<Seq<NodeId>>, j: int, i: int, cap0: nat, cap: nat)
    requires
        0 <= j <= i < levels.len(),
        first_failing_level(levels, j, cap0, cap) is None,
    ensures
        !level_write_fails(levels, i, cap0, cap),
    decreases i - j,
{
    if j < i {
        lemma_no_failing_level(levels, j + 1, i, cap0, cap);
    }
}

/// A serialized node reads back as it was built: the key bytes come first
/// and decode to the key, and level `i` decodes to the active neighbors that
/// were set at level `i`, followed by the encoding of the levels after it.
pub proof fn lemma_node_roundtrip<K: KeySerialization>(key: K, levels: Seq<Seq<NodeId>>, cap0: nat, cap: nat)
    requires
        levels.len() <= 256,
        first_failing_level(levels, 0, cap0, cap) is None,
    ensures
        ({
            let bytes = key.key_bytes() + encode_levels_from(levels, 0, cap0, cap);
            &&& bytes.subrange(0, K::key_size() as int) == key.key_bytes()
            &&& bytes.subrange(K::key_size() as int, bytes.len() as int) == encode_levels_from(
                levels,
                0,
                cap0,
                cap,
            )
        }),
        forall|k: K| #[trigger] k.key_bytes() == key.key_bytes() ==> k == key,
        forall|i: int|
            0 <= i < levels.len() ==> decode_level(
                #[trigger] encode_levels_from(levels, i, cap0, cap),
                capacity_at(i, cap0, cap),
            ) == Some((active_ids(levels[i]), encode_levels_from(levels, i + 1, cap0, cap))),
        encode_levels_from(levels, levels.len() as int, cap0, cap) == Seq::<u8>::empty(),
{
    K::lemma_key_bytes_len(key);
    let bytes = key.key_bytes() + encode_levels_from(levels, 0, cap0, cap);
    assert(bytes.subrange(0, K::key_size() as int) =~= key.key_bytes());
    assert(bytes.subrange(K::key_size() as int, bytes.len() as int) =~= encode_levels_from(
        levels,
        0,
        cap0,
        cap,
    ));
    assert forall|k: K| #[trigger] k.key_bytes() == key.key_bytes() implies k == key by {
        K::lemma_key_bytes_injective(k, key);
    }
    assert forall|i: int| 0 <= i < levels.len() implies decode_level(
        #[trigger] encode_levels_from(levels, i, cap0, cap),
        capacity_at(i, cap0, cap),
    ) == Some((active_ids(levels[i]), encode_levels_from(levels, i + 1, cap0, cap))) by {
        lemma_no_failing_level(levels, 0, i, cap0, cap);
        assert(wire_level(i) == i);
        lemma_level_roundtrip(
            levels[i],
            capacity_at(i, cap0, cap),
            encode_levels_from(levels, i + 1, cap0, cap),
        );
    }
}


/// Reading back the builder's bytes, key first: a parser over the key bytes
/// of `key` followed by the encoding of `levels` reads `key`, and leaves a
/// levels parser standing at level 0 of that encoding.
pub proof fn lemma_read_key_of_encoded<'a, K: KeySerialization>(
    key: K,
    levels: Seq<Seq<NodeId>>,
    p: NodeParser<'a, K, KeyToRead>,
    read: K,
    q: NodeParser<'a, K, LevelsToRead>,
)
    requires
        p.remaining_spec() == key.key_bytes() + encode_levels_from(levels, 0, p.cap0(), p.cap()),
        read.key_bytes() == p.remaining_spec().subrange(0, K::key_size() as int),
        q.remaining_spec() == p.remaining_spec().subrange(K::key_size() as int, p.remaining_spec().len() as int),
    ensures
        p.remaining_spec().len() >= K::key_size(),
        read == key,
        q.remaining_spec() == encode_levels_from(levels, 0, p.cap0(), p.cap()),
{
    K::lemma_key_bytes_len(key);
    let bytes = p.remaining_spec();
    assert(bytes.subrange(0, K::key_size() as int) =~= key.key_bytes());
    assert(bytes.subrange(K::key_size() as int, bytes.len() as int) =~= encode_levels_from(
        levels,
        0,
        p.cap0(),
        p.cap(),
    ));
    K::lemma_key_bytes_injective(read, key);
}

/// Reading back the builder's bytes, level by level: a levels parser
/// standing at level `i` of the encoding of `levels` (at most 256 levels,
/// none refused by the writer) reads level `i` with its active neighbors,
/// taking the level's full size, and hands on a parser standing at level
/// `i + 1` of the same encoding, or none after the last level.
pub proof fn lemma_read_encoded_level<'a, K>(
    p: NodeParser<'a, K, LevelsToRead>,
    levels: Seq<Seq<NodeId>>,
    i: int,
    level: Option<(u8, Seq<NodeId>)>,
    next: Option<NodeParser<'a, K, LevelsToRead>>,
    used: usize,
)
    requires
        levels.len() <= 256,
        first_failing_level(levels, 0, p.cap0(), p.cap()) is None,
        0 <= i < levels.len(),
        p.remaining_spec() == encode_levels_from(levels, i, p.cap0(), p.cap()),
        p.next_level_spec() == i,
        p.read_level_ok(level, next, used),
    ensures
        level == Some((i as u8, active_ids(levels[i]))),
        used == level_size_spec(capacity_at(i, p.cap0(), p.cap())),
        i + 1 < levels.len() ==> (next matches Some(q) && q.wf() && q.remaining_spec()
            == encode_levels_from(levels, i + 1, p.cap0(), p.cap()) && q.next_level_spec() == i + 1
            && q.cap0() == p.cap0() && q.cap() == p.cap()),
        i + 1 == levels.len() ==> next is None,
{
    let c = capacity_at(i, p.cap0(), p.cap());
    let rest = encode_levels_from(levels, i + 1, p.cap0(), p.cap());
    lemma_no_failing_level(levels, 0, i, p.cap0(), p.cap());
    assert(wire_level(i) == i);
    assert(encode_levels_from(levels, i, p.cap0(), p.cap()) == encode_level(levels[i], c) + rest);
    lemma_level_roundtrip(levels[i], c, rest);
    if i + 1 == levels.len() {
        assert(rest.len() == 0);
    } else {
        lemma_no_failing_level(levels, 0, i + 1, p.cap0(), p.cap());
        lemma_ids_bytes_len(active_ids(levels[i + 1]));
        assert(wire_level(i + 1) == i + 1);
        assert(rest == encode_level(levels[i + 1], capacity_at(i + 1, p.cap0(), p.cap())) + encode_levels_from(
            levels,
            i + 2,
            p.cap0(),
            p.cap(),
        ));
        assert(rest.len() > 0);
    }
}

/// The first level of a run of levels can be split off its size.
proof fn lemma_levels_size_front(from: int, to: int, cap0: nat, cap: nat)
    requires
        from < to,
    ensures
        levels_size(from, to, cap0, cap) == level_size_spec(capacity_at(from, cap0, cap)) + levels_size(
            from + 1,
            to,
            cap0,
            cap,
        ),
    decreases to - from,
{
    assert(levels_size(from, to, cap0, cap) == levels_size(from, to - 1, cap0, cap) + level_size_spec(
        capacity_at(to - 1, cap0, cap),
    ));
    if from + 1 < to {
        lemma_levels_size_front(from, to - 1, cap0, cap);
        assert(levels_size(from + 1, to, cap0, cap) == levels_size(from + 1, to - 1, cap0, cap)
            + level_size_spec(capacity_at(to - 1, cap0, cap)));
    } else {
        assert(levels_size(from, from, cap0, cap) == 0);
        assert(levels_size(from + 1, to, cap0, cap) == 0);
    }
}

/// The builder's encoding of levels `i..` of `levels` (at most 256 levels,
/// none refused by the writer) takes, per level, a count byte and five
/// bytes per slot of its capacity.
pub proof fn lemma_encoded_levels_len(levels: Seq<Seq<NodeId>>, i: int, cap0: nat, cap: nat)
    requires
        levels.len() <= 256,
        first_failing_level(levels, 0, cap0, cap) is None,
        0 <= i <= levels.len(),
    ensures
        encode_levels_from(levels, i, cap0, cap).len() == levels_size(i, levels.len() as int, cap0, cap),
    decreases levels.len() - i,
{
    if i < levels.len() {
        let c = capacity_at(i, cap0, cap);
        lemma_no_failing_level(levels, 0, i, cap0, cap);
        assert(wire_level(i) == i);
        lemma_level_roundtrip(levels[i], c, encode_levels_from(levels, i + 1, cap0, cap));
        lemma_ids_bytes_len(active_ids(levels[i]));
        lemma_active_len(levels[i]);
        lemma_encoded_levels_len(levels, i + 1, cap0, cap);
        lemma_levels_size_front(i, levels.len() as int, cap0, cap);
    }
}

} // verus!
