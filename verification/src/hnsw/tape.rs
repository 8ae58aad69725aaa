//! The graph tape: encoded nodes stored in fixed-size chunks, each behind a
//! two-byte little-endian length, and found by identifier through a table of
//! byte offsets.

use core::marker::PhantomData;
use vstd::prelude::*;

use crate::hnsw::key::KeySerialization;
use crate::hnsw::memory::{AlignedChunk, AllocationStrategy, FreeRange};
use crate::hnsw::memory_manager::{within_chunks, MemoryManager};
use crate::hnsw::node::{
    capacity_at, decode_level, level_size_spec, node_parser, KeyToRead, LevelsToRead, NodeParser,
    NEIGHBORS_COUNT_SIZE, NODE_ID_SIZE,
};
use crate::hnsw::node_id::{empty_neighbor, NodeId};
use crate::hnsw::tape_mutations::MutationError;
use crate::text::{decimal, from_text, push_decimal, push_text};

verus! {

/// Bytes of the length prefix in front of every node.
pub const NODE_LENGTH_SIZE: usize = 2;

/// Position of a node on the tape: `chunk * CHUNK_SIZE + offset in chunk`.
#[derive(Debug, Clone, Copy, PartialEq, Eq, Structural)]
pub struct TapeOffset(pub usize);

/// The position of an identifier in the offset table.
pub open spec fn slot_of(id: NodeId) -> int {
    (id.value() as usize) as int
}

/// `bytes` written over `s` from position `at` on.
pub open spec fn overwrite(s: Seq<u8>, at: int, bytes: Seq<u8>) -> Seq<u8> {
    s.subrange(0, at) + bytes + s.subrange(at + bytes.len(), s.len() as int)
}

/// The value of two little-endian bytes.
pub open spec fn le16(lo: u8, hi: u8) -> nat {
    (lo + 256 * hi) as nat
}

/// The five bytes of slot `i` of a level whose slots start at `start`.
pub open spec fn slot_bytes(node: Seq<u8>, start: int, i: int) -> Seq<u8> {
    node.subrange(start + 5 * i, start + 5 * i + 5)
}

/// The first slot among `i..count` that holds `target`.
pub open spec fn first_slot(node: Seq<u8>, start: int, i: int, count: int, target: Seq<u8>) -> Option<
    int,
>
    decreases count - i,
{
    if i >= count {
        None
    } else if slot_bytes(node, start, i) == target {
        Some(i)
    } else {
        first_slot(node, start, i + 1, count, target)
    }
}

/// Where level `target` starts, counted from the first level, when levels
/// from `j` on are read off `rem` and level `j` starts at `pos`; none where
/// a level up to the target cannot be read or the bytes end before it.
pub open spec fn level_position(rem: Seq<u8>, j: nat, target: nat, cap0: nat, cap: nat, pos: nat) -> Option<
    nat,
>
    decreases target - j,
{
    if j > target {
        None
    } else {
        match decode_level(rem, capacity_at(j as int, cap0, cap)) {
            None => None,
            Some((ids, rest)) => if j == target {
                Some(pos)
            } else if rest.len() == 0 {
                None
            } else {
                level_position(
                    rest,
                    j + 1,
                    target,
                    cap0,
                    cap,
                    pos + level_size_spec(capacity_at(j as int, cap0, cap)),
                )
            },
        }
    }
}

/// The bytes of a node after replacing `old` by `new` in the level whose
/// count byte is at `h` and which has `capacity` slots; none where the swap
/// is refused. An empty `old` adds `new` after the active neighbors; an
/// empty `new` removes `old`, moving the last active neighbor into its slot.
pub open spec fn swap_result(node: Seq<u8>, h: int, capacity: nat, old: NodeId, new: NodeId) -> Option<
    Seq<u8>,
> {
    let count = node[h] as int;
    let start = h + 1;
    if old.is_zero() {
        if new.is_zero() {
            Some(node)
        } else if count >= capacity {
            None
        } else {
            Some(overwrite(node, start + 5 * count, new.0@).update(h, (count + 1) as u8))
        }
    } else {
        match first_slot(node, start, 0, count, old.0@) {
            None => None,
            Some(idx) => if new.is_zero() {
                let last = count - 1;
                let moved = if idx != last {
                    overwrite(node, start + 5 * idx, slot_bytes(node, start, last))
                } else {
                    node
                };
                Some(
                    overwrite(moved, start + 5 * last, seq![0u8, 0u8, 0u8, 0u8, 0u8]).update(
                        h,
                        last as u8,
                    ),
                )
            } else {
                Some(overwrite(node, start + 5 * idx, new.0@))
            },
        }
    }
}

/// The message for a chunk index beyond the tape.
pub open spec fn chunk_error_message(idx: nat) -> Seq<char> {
    "Chunk "@ + decimal(idx) + " out of bounds"@
}

/// Builds the message for a chunk index beyond the tape.
pub fn chunk_out_of_bounds(idx: usize) -> (m: String)
    ensures
        m@ == chunk_error_message(idx as nat),
{
    let mut m = from_text("Chunk ");
    push_decimal(&mut m, idx);
    push_text(&mut m, " out of bounds");
    m
}

/// The all-zero identifier.
pub open spec fn empty_id() -> NodeId {
    NodeId([0u8, 0u8, 0u8, 0u8, 0u8])
}

/// The empty marker is the all-zero identifier.
pub proof fn lemma_empty_id(e: NodeId)
    requires
        e.is_zero(),
    ensures
        e == empty_id(),
{
    assert(empty_id().0@ =~= seq![0u8, 0u8, 0u8, 0u8, 0u8]);
    crate::hnsw::node_id::lemma_eq_from_bytes(e, empty_id());
}

/// Writing inside the middle part of a concatenation writes inside that part.
pub proof fn lemma_overwrite_inside(pre: Seq<u8>, mid: Seq<u8>, post: Seq<u8>, x: int, b: Seq<u8>)
    requires
        0 <= x,
        x + b.len() <= mid.len(),
    ensures
        overwrite(pre + mid + post, pre.len() + x, b) == pre + overwrite(mid, x, b) + post,
{
    assert(overwrite(pre + mid + post, pre.len() + x, b) =~= pre + overwrite(mid, x, b) + post);
}

/// Setting a byte inside the middle part of a concatenation sets it there.
pub proof fn lemma_update_inside(pre: Seq<u8>, mid: Seq<u8>, post: Seq<u8>, x: int, v: u8)
    requires
        0 <= x < mid.len(),
    ensures
        (pre + mid + post).update(pre.len() + x, v) == pre + mid.update(x, v) + post,
{
    assert((pre + mid + post).update(pre.len() + x, v) =~= pre + mid.update(x, v) + post);
}

/// Writes `bytes` into the chunk from position `at` on.
fn write_bytes<const CHUNK_SIZE: usize>(chunk: &mut AlignedChunk<u8, CHUNK_SIZE>, at: usize, bytes: &[u8])
    requires
        at + bytes@.len() <= CHUNK_SIZE,
    ensures
        final(chunk).data@ == overwrite(old(chunk).data@, at as int, bytes@),
{
    let mut i: usize = 0;
    while i < bytes.len()
        invariant
            at + bytes@.len() <= CHUNK_SIZE,
            i <= bytes@.len(),
            chunk.data@.len() == CHUNK_SIZE,
            chunk.data@ == overwrite(old(chunk).data@, at as int, bytes@.subrange(0, i as int)),
        decreases bytes@.len() - i,
    {
        chunk.data[at + i] = bytes[i];
        assert(chunk.data@ =~= overwrite(
            old(chunk).data@,
            at as int,
            bytes@.subrange(0, i + 1),
        ));
        i = i + 1;
    }
    assert(bytes@.subrange(0, i as int) =~= bytes@);
}

/// Whether the five bytes of the chunk at `at` are those of `id`.
fn slot_matches<const CHUNK_SIZE: usize>(data: &[u8; CHUNK_SIZE], at: usize, id: &NodeId) -> (b: bool)
    requires
        at + 5 <= CHUNK_SIZE,
    ensures
        b == (data@.subrange(at as int, at + 5) == id.0@),
{
    let r = data[at] == id.0[0] && data[at + 1] == id.0[1] && data[at + 2] == id.0[2] && data[at
        + 3] == id.0[3] && data[at + 4] == id.0[4];
    proof {
        if r {
            assert(data@.subrange(at as int, at + 5) =~= id.0@);
        } else {
            if data@.subrange(at as int, at + 5) == id.0@ {
                assert(data@.subrange(at as int, at + 5)[0] == data@[at as int]);
                assert(data@.subrange(at as int, at + 5)[1] == data@[at + 1]);
                assert(data@.subrange(at as int, at + 5)[2] == data@[at + 2]);
                assert(data@.subrange(at as int, at + 5)[3] == data@[at + 3]);
                assert(data@.subrange(at as int, at + 5)[4] == data@[at + 4]);
            }
        }
    }
    r
}

/// Searching slots inside the middle part of a concatenation searches that part.
pub proof fn lemma_first_slot_inside(
    pre: Seq<u8>,
    mid: Seq<u8>,
    post: Seq<u8>,
    start: int,
    i: int,
    count: int,
    t: Seq<u8>,
)
    requires
        0 <= start,
        0 <= i,
        start + 5 * count <= mid.len(),
    ensures
        first_slot(pre + mid + post, pre.len() + start, i, count, t) == first_slot(
            mid,
            start,
            i,
            count,
            t,
        ),
    decreases count - i,
{
    if i < count {
        assert(slot_bytes(pre + mid + post, pre.len() + start, i) =~= slot_bytes(mid, start, i));
        lemma_first_slot_inside(pre, mid, post, start, i + 1, count, t);
    }
}

/// A slot found by the search lies among the first `count`.
pub proof fn lemma_first_slot_range(node: Seq<u8>, start: int, i: int, count: int, t: Seq<u8>)
    requires
        0 <= i,
    ensures
        first_slot(node, start, i, count, t) matches Some(k) ==> i <= k < count && slot_bytes(
            node,
            start,
            k,
        ) == t,
    decreases count - i,
{
    if i < count {
        lemma_first_slot_range(node, start, i + 1, count, t);
    }
}

/// A swap inside the middle part of a concatenation is a swap of that part.
pub proof fn lemma_swap_inside(
    pre: Seq<u8>,
    node: Seq<u8>,
    post: Seq<u8>,
    h: int,
    capacity: nat,
    old: NodeId,
    new: NodeId,
)
    requires
        0 <= h,
        h + 1 + 5 * capacity <= node.len(),
        node[h] <= capacity,
    ensures
        swap_result(pre + node + post, pre.len() + h, capacity, old, new) == match swap_result(
            node,
            h,
            capacity,
            old,
            new,
        ) {
            Some(nn) => Some(pre + nn + post),
            None => None,
        },
        swap_result(node, h, capacity, old, new) matches Some(nn) ==> nn.len() == node.len(),
{
    let all = pre + node + post;
    let p = pre.len() as int;
    let count = node[h] as int;
    let start = h + 1;
    assert(all[p + h] == node[h]);
    lemma_first_slot_inside(pre, node, post, start, 0, count, old.0@);
    lemma_first_slot_range(node, start, 0, count, old.0@);
    if old.is_zero() {
        if new.is_zero() {
        } else if count < capacity {
            lemma_overwrite_inside(pre, node, post, start + 5 * count, new.0@);
            let w = overwrite(node, start + 5 * count, new.0@);
            lemma_update_inside(pre, w, post, h, (count + 1) as u8);
        }
    } else {
        match first_slot(node, start, 0, count, old.0@) {
            None => {},
            Some(idx) => {
                if new.is_zero() {
                    let last = count - 1;
                    assert(slot_bytes(all, p + start, last) =~= slot_bytes(node, start, last));
                    let moved = if idx != last {
                        overwrite(node, start + 5 * idx, slot_bytes(node, start, last))
                    } else {
                        node
                    };
                    if idx != last {
                        lemma_overwrite_inside(
                            pre,
                            node,
                            post,
                            start + 5 * idx,
                            slot_bytes(node, start, last),
                        );
                    }
                    lemma_overwrite_inside(
                        pre,
                        moved,
                        post,
                        start + 5 * last,
                        seq![0u8, 0u8, 0u8, 0u8, 0u8],
                    );
                    let z = overwrite(moved, start + 5 * last, seq![0u8, 0u8, 0u8, 0u8, 0u8]);
                    lemma_update_inside(pre, z, post, h, last as u8);
                } else {
                    lemma_overwrite_inside(pre, node, post, start + 5 * idx, new.0@);
                }
            },
        }
    }
}

/// Where a level is found, its count byte and slots lie inside the bytes.
pub proof fn lemma_level_position_bounds(
    rem: Seq<u8>,
    j: nat,
    target: nat,
    cap0: nat,
    cap: nat,
    pos: nat,
)
    ensures
        level_position(rem, j, target, cap0, cap, pos) matches Some(lp) ==> lp >= pos && lp - pos + 1
            + 5 * capacity_at(target as int, cap0, cap) <= rem.len() && rem[lp - pos]
            <= capacity_at(target as int, cap0, cap),
    decreases target - j,
{
    if j <= target {
        match decode_level(rem, capacity_at(j as int, cap0, cap)) {
            None => {},
            Some((ids, rest)) => {
                if j < target && rest.len() > 0 {
                    let c = capacity_at(j as int, cap0, cap);
                    lemma_level_position_bounds(rest, j + 1, target, cap0, cap, pos + level_size_spec(c));
                    match level_position(rest, j + 1, target, cap0, cap, pos + level_size_spec(c)) {
                        Some(lp) => {
                            assert(rest[lp - pos - level_size_spec(c)] == rem[lp - pos]);
                        },
                        None => {},
                    }
                }
            },
        }
    }
}

/// How appending `data` for `node_id` turns `before` into `after`: the
/// node reads back (its length kept to 16 bits), the table gets an entry
/// for the identifier and keeps every other, and the sizes stay.
pub open spec fn appended<K: KeySerialization, const CHUNK_SIZE: usize>(
    before: GraphTape<K, CHUNK_SIZE>,
    after: GraphTape<K, CHUNK_SIZE>,
    node_id: NodeId,
    data: Seq<u8>,
) -> bool {
    &&& after.stored_node(slot_of(node_id)) == Some(data.subrange(0, (data.len() % 0x10000) as int))
    &&& after.offsets@.len() == if slot_of(node_id) < before.offsets@.len() {
        before.offsets@.len() as int
    } else {
        slot_of(node_id) + 1
    }
    &&& forall|s: int|
        0 <= s < before.offsets@.len() && s != slot_of(node_id) ==> after.offsets@[s]
            == before.offsets@[s]
    &&& before.memory_manager.node_id_provider.drawn_to(after.memory_manager.node_id_provider)
    &&& after.max_connections_level0 == before.max_connections_level0
    &&& after.max_connections == before.max_connections
    &&& after.max_level == before.max_level
}

/// Encoded nodes of an HNSW graph on a chunked tape, with the memory manager
/// that places them and the table from identifiers to positions.
pub struct GraphTape<K: Sized + Copy, const CHUNK_SIZE: usize> {
    pub tape: Vec<AlignedChunk<u8, CHUNK_SIZE>>,
    pub offsets: Vec<TapeOffset>,
    pub memory_manager: MemoryManager<u8, CHUNK_SIZE>,
    pub _phantom: PhantomData<K>,
    pub max_connections_level0: usize,
    pub max_connections: usize,
    pub max_level: usize,
}

impl<K: KeySerialization, const CHUNK_SIZE: usize> GraphTape<K, CHUNK_SIZE> {
    /// The bytes of chunk `ci`.
    pub open spec fn chunk_data(&self, ci: int) -> Seq<u8> {
        self.tape@[ci].data@
    }

    /// Chunk and offset in chunk of the table entry at `slot`.
    pub open spec fn entry(&self, slot: int) -> Option<(int, int)> {
        if 0 <= slot < self.offsets@.len() {
            let off = self.offsets@[slot].0 as int;
            Some((off / (CHUNK_SIZE as int), off % (CHUNK_SIZE as int)))
        } else {
            None
        }
    }

    /// The table entry at `slot` leads to a length prefix inside a chunk.
    pub open spec fn has_header(&self, slot: int) -> bool {
        match self.entry(slot) {
            Some((ci, co)) => ci < self.tape@.len() && co + 2 <= CHUNK_SIZE,
            None => false,
        }
    }

    /// The length that the prefix at `slot` gives.
    pub open spec fn header_len(&self, slot: int) -> nat {
        let (ci, co) = self.entry(slot)->0;
        le16(self.chunk_data(ci)[co], self.chunk_data(ci)[co + 1])
    }

    /// The node stored for `slot`: the bytes after its length prefix, where
    /// they all lie inside the chunk.
    pub open spec fn stored_node(&self, slot: int) -> Option<Seq<u8>> {
        if self.has_header(slot) {
            let (ci, co) = self.entry(slot)->0;
            let len = self.header_len(slot);
            if co + 2 + len <= CHUNK_SIZE {
                Some(self.chunk_data(ci).subrange(co + 2, co + 2 + len))
            } else {
                None
            }
        } else {
            None
        }
    }

    /// Where a length prefix is found for `slot`, the node it announces fits
    /// in its chunk.
    pub open spec fn header_in_chunk(&self, slot: int) -> bool {
        self.has_header(slot) ==> self.stored_node(slot) is Some
    }

    /// Position of the count byte of `level` of the node at `slot`, computed
    /// from the fixed level sizes.
    pub open spec fn direct_header(&self, slot: int, level: u8) -> int {
        let (ci, co) = self.entry(slot)->0;
        co + 2 + K::key_size() + if level > 0 {
            (1 + 5 * self.max_connections_level0) + (level - 1) * (1 + 5 * self.max_connections)
        } else {
            0
        }
    }

    /// What the direct lookup of `level` of the node at `slot` finds: chunk,
    /// first slot and active count, where the level is within the tape's
    /// height, the identifier has an entry and the count fits the level.
    pub open spec fn direct_level(&self, slot: int, level: u8) -> Option<(usize, usize, usize)> {
        if level > self.max_level || self.entry(slot) is None {
            None
        } else {
            let (ci, co) = self.entry(slot)->0;
            let h = self.direct_header(slot, level);
            let count = self.chunk_data(ci)[h];
            if count > capacity_at(
                level as int,
                self.max_connections_level0 as nat,
                self.max_connections as nat,
            ) {
                None
            } else {
                Some((ci as usize, (h + 1) as usize, count as usize))
            }
        }
    }

    /// Where the lookup reaches a count byte, the chunk exists and the
    /// count byte and the active slots lie inside it.
    pub open spec fn direct_level_in_chunk(&self, slot: int, level: u8) -> bool {
        (level <= self.max_level && self.entry(slot) is Some) ==> {
            let (ci, co) = self.entry(slot)->0;
            let h = self.direct_header(slot, level);
            &&& ci < self.tape@.len()
            &&& h < CHUNK_SIZE
            &&& self.chunk_data(ci)[h] <= capacity_at(
                level as int,
                self.max_connections_level0 as nat,
                self.max_connections as nat,
            ) ==> h + 1 + 5 * self.chunk_data(ci)[h] <= CHUNK_SIZE
        }
    }

    /// The tape, the memory manager and the sizes agree.
    pub open spec fn wf(&self) -> bool {
        &&& self.memory_manager.wf()
        &&& self.tape@.len() == self.memory_manager.num_chunks + 1
        &&& CHUNK_SIZE > 0
        &&& 0x8000 * CHUNK_SIZE <= usize::MAX
        &&& 5 * self.max_connections_level0 + 1 <= usize::MAX
        &&& 5 * self.max_connections + 1 <= usize::MAX
    }

    /// An empty tape for nodes with the given slot counts and highest level.
    pub fn new(max_connections_level0: usize, max_connections: usize, max_level: usize) -> (t: Self)
        requires
            CHUNK_SIZE > 0,
            0x8000 * CHUNK_SIZE <= usize::MAX,
            5 * max_connections_level0 + 1 <= usize::MAX,
            5 * max_connections + 1 <= usize::MAX,
        ensures
            t.wf(),
            t.tape@.len() == 0,
            t.offsets@.len() == 0,
            t.max_connections_level0 == max_connections_level0,
            t.max_connections == max_connections,
            t.max_level == max_level,
            t.memory_manager.allocation_strategy is AppendOnly,
            t.memory_manager.node_id_provider.available_node_ids@.len() == 0,
            t.memory_manager.node_id_provider.max_node_id.value() == 1,
    {
        GraphTape {
            tape: Vec::new(),
            offsets: Vec::new(),
            memory_manager: MemoryManager::new(AllocationStrategy::AppendOnly),
            _phantom: PhantomData,
            max_connections_level0,
            max_connections,
            max_level,
        }
    }

    fn level_capacity(&self, level: u8) -> (c: usize)
        ensures
            c == capacity_at(level as int, self.max_connections_level0 as nat, self.max_connections as nat),
    {
        if level == 0 {
            self.max_connections_level0
        } else {
            self.max_connections
        }
    }

    /// Chunk index and offset in chunk of a tape position.
    pub fn tape_offset_to_chunk_offset(offset: TapeOffset) -> (r: (usize, usize))
        requires
            CHUNK_SIZE > 0,
        ensures
            r.0 == offset.0 / CHUNK_SIZE,
            r.1 == offset.0 % CHUNK_SIZE,
    {
        (offset.0 / CHUNK_SIZE, offset.0 % CHUNK_SIZE)
    }

    /// The table entry of an identifier, if it has one.
    pub fn get_offset(&self, node_id: &NodeId) -> (r: Option<TapeOffset>)
        ensures
            r == (if 0 <= slot_of(*node_id) < self.offsets@.len() {
                Some(self.offsets@[slot_of(*node_id)])
            } else {
                None
            }),
    {
        let i = node_id.to_usize();
        if i < self.offsets.len() {
            Some(self.offsets[i])
        } else {
            None
        }
    }

    /// The identifier that the next appended node gets.
    pub fn next_node_id(&self) -> (id: NodeId)
        ensures
            id == self.memory_manager.node_id_provider.next_id(),
    {
        self.memory_manager.next_node_id()
    }

    /// The number of chunks.
    pub fn chunks_count(&self) -> (n: usize)
        ensures
            n == self.tape@.len(),
    {
        self.tape.len()
    }

    /// All table entries, in identifier order.
    pub fn get_offsets(&self) -> (r: Result<Vec<usize>, String>)
        ensures
            r matches Ok(v) && v@.len() == self.offsets@.len() && forall|i: int|
                0 <= i < v@.len() ==> v@[i] == self.offsets@[i].0,
    {
        let mut out: Vec<usize> = Vec::new();
        let mut i: usize = 0;
        while i < self.offsets.len()
            invariant
                i <= self.offsets@.len(),
                out@.len() == i,
                forall|j: int| 0 <= j < i ==> out@[j] == self.offsets@[j].0,
            decreases self.offsets@.len() - i,
        {
            out.push(self.offsets[i].0);
            i = i + 1;
        }
        Ok(out)
    }

    /// Stores a node's bytes behind a length prefix and records its position
    /// for `node_id`.
    pub fn append_node(&mut self, node_id: NodeId, node_data: &[u8]) -> (r: Result<(), MutationError>)
        requires
            old(self).wf(),
            node_data@.len() + 2 <= CHUNK_SIZE,
            slot_of(node_id) < usize::MAX,
            !old(self).memory_manager.serves_from_free((node_data@.len() + 2) as usize)
                ==> old(self).memory_manager.num_chunks < 0x7fff,
        ensures
            final(self).wf(),
            r is Ok,
            appended(*old(self), *final(self), node_id, node_data@),
    {
        let len = node_data.len();
        let total_size = NODE_LENGTH_SIZE + len;
        let (_, range, new_chunk) = self.memory_manager.allocate(total_size);
        if let Some(chunk) = new_chunk {
            self.tape.push(chunk);
        }
        let ci = range.chunk_index as usize;
        let lo = (len & 0xff) as u8;
        let hi = ((len >> 8usize) & 0xff) as u8;
        assert(lo + 256 * hi == len % 0x10000) by (bit_vector)
            requires
                lo == (len & 0xff) as u8,
                hi == ((len >> 8usize) & 0xff) as u8,
        ;
        let ghost d0 = self.tape@[ci as int].data@;
        let start = range.offset;
        {
            let chunk = &mut self.tape[ci];
            chunk.data[start] = lo;
            chunk.data[start + 1] = hi;
            write_bytes(chunk, start + NODE_LENGTH_SIZE, node_data);
        }
        assert(ci * CHUNK_SIZE + start < 0x8000 * CHUNK_SIZE) by (nonlinear_arith)
            requires
                ci < 0x8000,
                start < CHUNK_SIZE,
        ;
        let tape_offset = TapeOffset(ci * CHUNK_SIZE + start);
        let slot = node_id.to_usize();
        if slot >= self.offsets.len() {
            self.offsets.resize(slot + 1, TapeOffset(0));
        }
        self.offsets.set(slot, tape_offset);
        proof {
            let cs = CHUNK_SIZE as int;
            vstd::arithmetic::div_mod::lemma_fundamental_div_mod_converse(
                (ci * cs + start) as int,
                cs,
                ci as int,
                start as int,
            );
            let d = self.chunk_data(ci as int);
            assert(d[start as int] == lo);
            assert(d[start + 1] == hi);
            assert(d.subrange(start + 2, start + 2 + len % 0x10000) =~= node_data@.subrange(
                0,
                (len % 0x10000) as int,
            ));
        }
        Ok(())
    }

    /// A parser over the node at a tape position, where its length prefix
    /// and all its bytes lie inside a chunk.
    pub fn node_at_offset<'a>(&'a self, offset: TapeOffset) -> (r: Option<NodeParser<'a, K, KeyToRead>>)
        requires
            self.wf(),
        ensures
            ({
                let ci = offset.0 / CHUNK_SIZE;
                let co = offset.0 % CHUNK_SIZE;
                let ok = ci < self.tape@.len() && co + 2 <= CHUNK_SIZE && co + 2 + le16(
                    self.chunk_data(ci as int)[co as int],
                    self.chunk_data(ci as int)[co + 1],
                ) <= CHUNK_SIZE;
                &&& ok ==> (r matches Some(p) && p.wf() && p.remaining_spec() == self.chunk_data(
                    ci as int,
                ).subrange(
                    co + 2,
                    co + 2 + le16(
                        self.chunk_data(ci as int)[co as int],
                        self.chunk_data(ci as int)[co + 1],
                    ),
                ) && p.next_level_spec() == 0 && p.consumed_spec() == 0 && p.cap0()
                    == self.max_connections_level0 && p.cap() == self.max_connections)
                &&& !ok ==> r is None
            }),
    {
        let (chunk_index, chunk_offset) = Self::tape_offset_to_chunk_offset(offset);
        if chunk_index >= self.tape.len() {
            return None;
        }
        let chunk = &self.tape[chunk_index];
        if chunk_offset >= CHUNK_SIZE {
            return None;
        }
        if chunk_offset + NODE_LENGTH_SIZE > CHUNK_SIZE {
            return None;
        }
        let node_length = (chunk.data[chunk_offset] as usize) + 256 * (chunk.data[chunk_offset
            + 1] as usize);
        let node_start = chunk_offset + NODE_LENGTH_SIZE;
        if node_start + node_length > CHUNK_SIZE {
            return None;
        }
        let node_bytes = vstd::slice::slice_subrange(
            chunk.data.as_slice(),
            node_start,
            node_start + node_length,
        );
        Some(node_parser(node_bytes, self.max_connections_level0, self.max_connections))
    }

    /// The node stored for `slot` with `old` replaced by `new` at `level`;
    /// none where the node or the level cannot be read, or the swap is refused.
    pub open spec fn swapped_node(&self, slot: int, level: u8, old: NodeId, new: NodeId) -> Option<
        Seq<u8>,
    > {
        match self.stored_node(slot) {
            None => None,
            Some(node) => match level_position(
                node.subrange(K::key_size() as int, node.len() as int),
                0,
                level as nat,
                self.max_connections_level0 as nat,
                self.max_connections as nat,
                0,
            ) {
                None => None,
                Some(lp) => swap_result(
                    node,
                    (K::key_size() + lp) as int,
                    capacity_at(
                        level as int,
                        self.max_connections_level0 as nat,
                        self.max_connections as nat,
                    ),
                    old,
                    new,
                ),
            },
        }
    }

    /// How a swap of `old` for `new` at `level` of the node of `node_id`
    /// relates this tape to the tape `after` it and to its outcome `ok`: on
    /// success only that node's bytes change, to the swapped node.
    pub open spec fn swap_outcome(&self, after: Self, node_id: NodeId, level: u8, old: NodeId, new: NodeId, ok: bool) -> bool {
        let slot = slot_of(node_id);
        &&& ok == (self.swapped_node(slot, level, old, new) is Some)
        &&& !ok ==> after == *self
        &&& ok ==> {
            let (ci, co) = self.entry(slot)->0;
            let nn = self.swapped_node(slot, level, old, new)->0;
            &&& after.chunk_data(ci) == overwrite(self.chunk_data(ci), co + 2, nn)
            &&& after.stored_node(slot) == Some(nn)
            &&& after.tape@.len() == self.tape@.len()
            &&& forall|c: int| 0 <= c < self.tape@.len() && c != ci ==> after.tape@[c] == self.tape@[c]
            &&& after.offsets == self.offsets
            &&& after.memory_manager == self.memory_manager
            &&& after.max_connections_level0 == self.max_connections_level0
            &&& after.max_connections == self.max_connections
            &&& after.max_level == self.max_level
        }
    }

    /// The node of `node_id`, where stored, is at least as long as a key.
    pub open spec fn keyed(&self, node_id: NodeId) -> bool {
        self.stored_node(slot_of(node_id)) matches Some(b) ==> b.len() >= K::key_size()
    }

    /// Whether the node of `node_id`, where stored, is at least as long as a key.
    pub fn node_keyed(&self, node_id: &NodeId) -> (b: bool)
        requires
            self.wf(),
        ensures
            b == self.keyed(*node_id),
    {
        let slot = node_id.to_usize();
        if slot >= self.offsets.len() {
            return true;
        }
        let (ci, co) = Self::tape_offset_to_chunk_offset(self.offsets[slot]);
        if ci >= self.tape.len() || co + NODE_LENGTH_SIZE > CHUNK_SIZE {
            return true;
        }
        let len = (self.tape[ci].data[co] as usize) + 256 * (self.tape[ci].data[co + 1] as usize);
        if co + NODE_LENGTH_SIZE + len > CHUNK_SIZE {
            return true;
        }
        len >= K::serialized_size()
    }

    /// The position in its chunk of the count byte of `level` of the node at
    /// a tape position, found by reading the node level by level.
    fn find_level_header(&self, offset: TapeOffset, level: u8) -> (r: Option<usize>)
        requires
            self.wf(),
            ({
                let ci = offset.0 / CHUNK_SIZE;
                let co = offset.0 % CHUNK_SIZE;
                (ci < self.tape@.len() && co + 2 <= CHUNK_SIZE && co + 2 + le16(
                    self.chunk_data(ci as int)[co as int],
                    self.chunk_data(ci as int)[co + 1],
                ) <= CHUNK_SIZE) ==> le16(
                    self.chunk_data(ci as int)[co as int],
                    self.chunk_data(ci as int)[co + 1],
                ) >= K::key_size()
            }),
        ensures
            ({
                let ci = offset.0 / CHUNK_SIZE;
                let co = offset.0 % CHUNK_SIZE;
                let len = le16(
                    self.chunk_data(ci as int)[co as int],
                    self.chunk_data(ci as int)[co + 1],
                );
                let ok = ci < self.tape@.len() && co + 2 <= CHUNK_SIZE && co + 2 + len <= CHUNK_SIZE;
                let node = self.chunk_data(ci as int).subrange(co + 2, co + 2 + len);
                &&& !ok ==> r is None
                &&& ok ==> r == match level_position(
                    node.subrange(K::key_size() as int, node.len() as int),
                    0,
                    level as nat,
                    self.max_connections_level0 as nat,
                    self.max_connections as nat,
                    0,
                ) {
                    Some(lp) => Some((co + 2 + K::key_size() + lp) as usize),
                    None => None,
                }
            }),
    {
        let (_chunk_index, chunk_offset) = Self::tape_offset_to_chunk_offset(offset);
        let opened = self.node_at_offset(offset);
        match opened {
            None => None,
            Some(p0) => {
                let ghost node = p0.remaining_spec();
                let ghost ci = _chunk_index as int;
                let ghost co = chunk_offset as int;
                let ghost len = le16(self.chunk_data(ci)[co], self.chunk_data(ci)[co + 1]);
                let (_, parser, key_bytes) = p0.read_key();
                let mut parser = parser;
                let ghost levels = parser.remaining_spec();
                let ghost cap0 = self.max_connections_level0 as nat;
                let ghost cap = self.max_connections as nat;
                let base = chunk_offset + NODE_LENGTH_SIZE + key_bytes;
                let mut absolute = base;
                assert(levels =~= node.subrange(K::key_size() as int, node.len() as int));
                loop
                    invariant
                        parser.wf(),
                        parser.cap0() == cap0,
                        parser.cap() == cap,
                        parser.next_level_spec() <= level,
                        level_position(levels, 0, level as nat, cap0, cap, 0) == level_position(
                            parser.remaining_spec(),
                            parser.next_level_spec() as nat,
                            level as nat,
                            cap0,
                            cap,
                            parser.consumed_spec(),
                        ),
                        absolute == base + parser.consumed_spec(),
                        base + parser.consumed_spec() + parser.remaining_spec().len() <= CHUNK_SIZE,
                        node == self.chunk_data(ci).subrange(co + 2, co + 2 + len),
                        levels == node.subrange(K::key_size() as int, node.len() as int),
                        base == co + 2 + K::key_size(),
                        ci == offset.0 / CHUNK_SIZE,
                        co == offset.0 % CHUNK_SIZE,
                        ci < self.tape@.len(),
                        co + 2 <= CHUNK_SIZE,
                        co + 2 + len <= CHUNK_SIZE,
                        len == le16(self.chunk_data(ci)[co], self.chunk_data(ci)[co + 1]),
                        cap0 == self.max_connections_level0 as nat,
                        cap == self.max_connections as nat,
                    decreases parser.remaining_spec().len(),
                {
                    let ghost j = parser.next_level_spec();
                    let ghost rem = parser.remaining_spec();
                    let ghost consumed = parser.consumed_spec();
                    let (data, next, used) = parser.read_level();
                    match data {
                        None => {
                            return None;
                        },
                        Some((lvl, _)) => {
                            if lvl == level {
                                return Some(absolute);
                            }
                            match next {
                                None => {
                                    return None;
                                },
                                Some(p) => {
                                    absolute = absolute + used;
                                    parser = p;
                                },
                            }
                        },
                    }
                }
            },
        }
    }

    /// Applies a neighbor swap to the level whose count byte is at `h` in
    /// chunk `ci`.
    fn edit_level(&mut self, ci: usize, h: usize, capacity: usize, old_neighbor: NodeId, new_neighbor: NodeId) -> (ok: bool)
        requires
            ci < old(self).tape@.len(),
            h + 1 + 5 * capacity <= CHUNK_SIZE,
            old(self).chunk_data(ci as int)[h as int] <= capacity,
        ensures
            match swap_result(
                old(self).chunk_data(ci as int),
                h as int,
                capacity as nat,
                old_neighbor,
                new_neighbor,
            ) {
                None => !ok && *final(self) == *old(self),
                Some(nd) => {
                    &&& ok
                    &&& final(self).chunk_data(ci as int) == nd
                    &&& final(self).tape@.len() == old(self).tape@.len()
                    &&& forall|c: int|
                        0 <= c < old(self).tape@.len() && c != ci ==> final(self).tape@[c] == old(self).tape@[c]
                    &&& final(self).offsets == old(self).offsets
                    &&& final(self).memory_manager == old(self).memory_manager
                    &&& final(self).max_connections_level0 == old(self).max_connections_level0
                    &&& final(self).max_connections == old(self).max_connections
                    &&& final(self).max_level == old(self).max_level
                },
            },
    {
        let ghost d0 = self.chunk_data(ci as int);
        let active_count = self.tape[ci].data[h] as usize;
        let start = h + NEIGHBORS_COUNT_SIZE;
        let e = empty_neighbor();
        if old_neighbor.same_as(&e) {
            if new_neighbor.same_as(&e) {
                return true;
            }
            if active_count >= capacity {
                return false;
            }
            let slot_offset = start + active_count * NODE_ID_SIZE;
            let chunk = &mut self.tape[ci];
            write_bytes(chunk, slot_offset, new_neighbor.0.as_slice());
            chunk.data[h] = (active_count + 1) as u8;
            return true;
        }
        let mut index: Option<usize> = None;
        let mut i: usize = 0;
        while i < active_count
            invariant_except_break
                index is None,
            invariant
                ci < self.tape@.len(),
                self.chunk_data(ci as int) == d0,
                active_count == d0[h as int],
                active_count <= capacity,
                h + 1 + 5 * capacity <= CHUNK_SIZE,
                start == h + 1,
                i <= active_count,
                *self == *old(self),
                first_slot(d0, start as int, 0, active_count as int, old_neighbor.0@) == first_slot(
                    d0,
                    start as int,
                    i as int,
                    active_count as int,
                    old_neighbor.0@,
                ),
            ensures
                index is None ==> first_slot(
                    d0,
                    start as int,
                    0,
                    active_count as int,
                    old_neighbor.0@,
                ) is None,
                index matches Some(k) ==> first_slot(
                    d0,
                    start as int,
                    0,
                    active_count as int,
                    old_neighbor.0@,
                ) == Some(k as int) && k < active_count,
                self.chunk_data(ci as int) == d0,
                *self == *old(self),
            decreases active_count - i,
        {
            let offset = start + i * NODE_ID_SIZE;
            if slot_matches(&self.tape[ci].data, offset, &old_neighbor) {
                index = Some(i);
                break;
            }
            i = i + 1;
        }
        match index {
            None => {
                return false;
            },
            Some(idx) => {
                if new_neighbor.same_as(&e) {
                    let last_index = active_count - 1;
                    let chunk = &mut self.tape[ci];
                    if idx != last_index {
                        let from_offset = start + last_index * NODE_ID_SIZE;
                        let dest_offset = start + idx * NODE_ID_SIZE;
                        let buf: [u8; 5] = [
                            chunk.data[from_offset],
                            chunk.data[from_offset + 1],
                            chunk.data[from_offset + 2],
                            chunk.data[from_offset + 3],
                            chunk.data[from_offset + 4],
                        ];
                        assert(buf@ =~= slot_bytes(d0, start as int, last_index as int));
                        write_bytes(chunk, dest_offset, buf.as_slice());
                    }
                    let last_offset = start + last_index * NODE_ID_SIZE;
                    let zeros: [u8; 5] = [0u8, 0u8, 0u8, 0u8, 0u8];
                    assert(zeros@ =~= seq![0u8, 0u8, 0u8, 0u8, 0u8]);
                    write_bytes(chunk, last_offset, zeros.as_slice());
                    chunk.data[h] = last_index as u8;
                    return true;
                }
                let offset = start + idx * NODE_ID_SIZE;
                let chunk = &mut self.tape[ci];
                write_bytes(chunk, offset, new_neighbor.0.as_slice());
                return true;
            },
        }
    }

    /// Replaces `old_neighbor` by `new_neighbor` at `level` of a node. An
    /// empty `old_neighbor` adds `new_neighbor` in the first free slot; an
    /// empty `new_neighbor` removes `old_neighbor`, the last active neighbor
    /// taking its slot. Returns whether the node was changed as asked.
    #[verifier::spinoff_prover]
    #[verifier::rlimit(40)]
    pub fn swap_neighbor(&mut self, node_id: NodeId, level: u8, old_neighbor: NodeId, new_neighbor: NodeId) -> (ok: bool)
        requires
            old(self).wf(),
            old(self).keyed(node_id),
        ensures
            final(self).wf(),
            old(self).swap_outcome(*final(self), node_id, level, old_neighbor, new_neighbor, ok),
    {
        let slot = node_id.to_usize();
        if slot >= self.offsets.len() {
            return false;
        }
        let tape_offset = self.offsets[slot];
        let (chunk_index, chunk_offset) = Self::tape_offset_to_chunk_offset(tape_offset);
        if chunk_index >= self.tape.len() {
            return false;
        }
        let found = self.find_level_header(tape_offset, level);
        match found {
            None => false,
            Some(header_offset) => {
                let capacity = self.level_capacity(level);
                let ghost d = self.chunk_data(chunk_index as int);
                let ghost co = chunk_offset as int;
                let ghost len = le16(d[co], d[co + 1]);
                let ghost node = d.subrange(co + 2, co + 2 + len);
                let ghost ks = K::key_size() as int;
                let ghost levels = node.subrange(ks, node.len() as int);
                let ghost cap0 = self.max_connections_level0 as nat;
                let ghost cap = self.max_connections as nat;
                proof {
                    lemma_level_position_bounds(levels, 0, level as nat, cap0, cap, 0);
                    let lp = level_position(levels, 0, level as nat, cap0, cap, 0)->0;
                    assert(levels[lp as int] == node[ks + lp]);
                    let pre = d.subrange(0, co + 2);
                    let post = d.subrange(co + 2 + len, d.len() as int);
                    assert(d =~= pre + node + post);
                    lemma_swap_inside(
                        pre,
                        node,
                        post,
                        ks + lp,
                        capacity as nat,
                        old_neighbor,
                        new_neighbor,
                    );
                }
                let ok = self.edit_level(
                    chunk_index,
                    header_offset,
                    capacity,
                    old_neighbor,
                    new_neighbor,
                );
                proof {
                    if ok {
                        let nn = swap_result(
                            node,
                            ks + level_position(levels, 0, level as nat, cap0, cap, 0)->0,
                            capacity as nat,
                            old_neighbor,
                            new_neighbor,
                        )->0;
                        let pre = d.subrange(0, co + 2);
                        let post = d.subrange(co + 2 + len, d.len() as int);
                        assert(overwrite(d, co + 2, nn) =~= pre + nn + post);
                        let fd = self.chunk_data(chunk_index as int);
                        assert(fd[co] == d[co]);
                        assert(fd[co + 1] == d[co + 1]);
                        assert(fd.subrange(co + 2, co + 2 + len) =~= nn);
                    }
                }
                ok
            },
        }
    }

    /// Adds `neighbor` at `level` of a node, where a slot is free.
    pub fn add_neighbor(&mut self, node_id: NodeId, level: u8, neighbor: NodeId) -> (ok: bool)
        requires
            old(self).wf(),
            old(self).keyed(node_id),
        ensures
            final(self).wf(),
            old(self).swap_outcome(*final(self), node_id, level, empty_id(), neighbor, ok),
    {
        let e = empty_neighbor();
        proof {
            lemma_empty_id(e);
        }
        self.swap_neighbor(node_id, level, e, neighbor)
    }

    /// Removes `neighbor` from `level` of a node, where it is there.
    pub fn drop_neighbor(&mut self, node_id: NodeId, level: u8, neighbor: NodeId) -> (ok: bool)
        requires
            old(self).wf(),
            old(self).keyed(node_id),
        ensures
            final(self).wf(),
            old(self).swap_outcome(*final(self), node_id, level, neighbor, empty_id(), ok),
    {
        let e = empty_neighbor();
        proof {
            lemma_empty_id(e);
        }
        self.swap_neighbor(node_id, level, neighbor, e)
    }

    /// Returns a node's memory and identifier to the memory manager. The
    /// table entry is kept. Returns whether a length prefix was found.
    pub fn remove_node(&mut self, node_id: NodeId) -> (removed: bool)
        requires
            old(self).wf(),
            old(self).header_in_chunk(slot_of(node_id)),
        ensures
            final(self).wf(),
            removed == old(self).has_header(slot_of(node_id)),
            final(self).tape == old(self).tape,
            final(self).offsets == old(self).offsets,
            final(self).max_connections_level0 == old(self).max_connections_level0,
            final(self).max_connections == old(self).max_connections,
            final(self).max_level == old(self).max_level,
            !removed ==> final(self).memory_manager == old(self).memory_manager,
            removed ==> {
                let (ci, co) = old(self).entry(slot_of(node_id))->0;
                let range = FreeRange {
                    chunk_index: ci as u16,
                    offset: co as usize,
                    length: (2 + old(self).header_len(slot_of(node_id))) as usize,
                };
                &&& final(self).memory_manager.node_id_provider.available_node_ids@ == (if node_id.is_zero() {
                    old(self).memory_manager.node_id_provider.available_node_ids@
                } else {
                    old(self).memory_manager.node_id_provider.available_node_ids@.push(node_id)
                })
                &&& final(self).memory_manager.node_id_provider.max_node_id
                    == old(self).memory_manager.node_id_provider.max_node_id
                &&& old(self).memory_manager.allocation_strategy is WithMemoryRecycling
                    ==> final(self).memory_manager.free_ranges.ranges@.to_multiset()
                    == old(self).memory_manager.free_ranges.ranges@.to_multiset().insert(range)
            },
    {
        let slot = node_id.to_usize();
        if slot >= self.offsets.len() {
            return false;
        }
        let tape_offset = self.offsets[slot];
        let (chunk_index, chunk_offset) = Self::tape_offset_to_chunk_offset(tape_offset);
        if chunk_index >= self.tape.len() {
            return false;
        }
        if chunk_offset + NODE_LENGTH_SIZE > CHUNK_SIZE {
            return false;
        }
        let node_length = (self.tape[chunk_index].data[chunk_offset] as usize) + 256 * (
        self.tape[chunk_index].data[chunk_offset + 1] as usize);
        let total_size = NODE_LENGTH_SIZE + node_length;
        let range = FreeRange {
            chunk_index: chunk_index as u16,
            offset: chunk_offset,
            length: total_size,
        };
        self.memory_manager.free(node_id, range);
        true
    }

    /// Chunk index, position of the first neighbor slot and number of active
    /// neighbors of `level` of a node, computed from the fixed level sizes.
    pub fn neighbors_at_level_ptr(&self, node_id: &NodeId, level: u8) -> (r: Option<(usize, usize, usize)>)
        requires
            self.wf(),
            self.direct_level_in_chunk(slot_of(*node_id), level),
        ensures
            r == self.direct_level(slot_of(*node_id), level),
    {
        if level as usize > self.max_level {
            return None;
        }
        let offset = match self.get_offset(node_id) {
            Some(o) => o,
            None => {
                return None;
            },
        };
        let (chunk_index, chunk_offset) = Self::tape_offset_to_chunk_offset(offset);
        let key_size = K::serialized_size();
        let mut current_offset = chunk_offset + NODE_LENGTH_SIZE + key_size;
        if level > 0 {
            let level0_size = NEIGHBORS_COUNT_SIZE + self.max_connections_level0 * NODE_ID_SIZE;
            let other_level_size = NEIGHBORS_COUNT_SIZE + self.max_connections * NODE_ID_SIZE;
            assert((level - 1) * other_level_size <= (level - 1) * (1 + 5 * self.max_connections))
                by (nonlinear_arith)
                requires
                    other_level_size == 1 + 5 * self.max_connections,
            ;
            current_offset = current_offset + level0_size + (level as usize - 1) * other_level_size;
        }
        let active_count = self.tape[chunk_index].data[current_offset] as usize;
        let level_capacity = self.level_capacity(level);
        if active_count > level_capacity {
            return None;
        }
        Some((chunk_index, current_offset + NEIGHBORS_COUNT_SIZE, active_count))
    }

    /// The active neighbors of `level` of a node, read at the position that
    /// the fixed level sizes give.
    pub fn neighbors_at_level(&self, node_id: &NodeId, level: u8) -> (r: Option<Vec<NodeId>>)
        requires
            self.wf(),
            self.direct_level_in_chunk(slot_of(*node_id), level),
        ensures
            (match r {
                Some(v) => Some(v@),
                None => None::<Seq<NodeId>>,
            }) == crate::hnsw::level_layout::level_neighbors(*self, slot_of(*node_id), level),
            match self.direct_level(slot_of(*node_id), level) {
                None => r is None,
                Some((ci, start, count)) => r matches Some(v) && v@ == Seq::new(
                    count as nat,
                    |i: int| crate::hnsw::node::id_from_bytes(
                        slot_bytes(self.chunk_data(ci as int), start as int, i),
                    ),
                ),
            },
    {
        match self.neighbors_at_level_ptr(node_id, level) {
            None => None,
            Some((ci, start, count)) => {
                let mut out: Vec<NodeId> = Vec::new();
                let mut i: usize = 0;
                while i < count
                    invariant
                        ci < self.tape@.len(),
                        start + 5 * count <= CHUNK_SIZE,
                        i <= count,
                        out@ == Seq::new(
                            i as nat,
                            |j: int| crate::hnsw::node::id_from_bytes(
                                slot_bytes(self.chunk_data(ci as int), start as int, j),
                            ),
                        ),
                    decreases count - i,
                {
                    assert(start + 5 * i + 5 <= start + 5 * count) by (nonlinear_arith)
                        requires
                            i < count,
                    ;
                    let at = start + i * NODE_ID_SIZE;
                    let d = &self.tape[ci].data;
                    let id = NodeId([d[at], d[at + 1], d[at + 2], d[at + 3], d[at + 4]]);
                    proof {
                        let sb = slot_bytes(self.chunk_data(ci as int), start as int, i as int);
                        assert(sb[0] == d@[at as int] && sb[1] == d@[at + 1] && sb[2] == d@[at + 2]
                            && sb[3] == d@[at + 3] && sb[4] == d@[at + 4]);
                    }
                    out.push(id);
                    assert(out@ =~= Seq::new(
                        (i + 1) as nat,
                        |j: int| crate::hnsw::node::id_from_bytes(
                            slot_bytes(self.chunk_data(ci as int), start as int, j),
                        ),
                    ));
                    i = i + 1;
                }
                Some(out)
            },
        }
    }

    /// The chunk at `idx`, or a message naming the index.
    pub fn get_chunk(&self, idx: usize) -> (r: Result<&AlignedChunk<u8, CHUNK_SIZE>, String>)
        ensures
            idx < self.tape@.len() ==> r == Ok::<&AlignedChunk<u8, CHUNK_SIZE>, String>(&self.tape@[idx as int]),
            idx >= self.tape@.len() ==> (r matches Err(m) && m@ == chunk_error_message(idx as nat)),
    {
        if idx < self.tape.len() {
            Ok(&self.tape[idx])
        } else {
            Err(chunk_out_of_bounds(idx))
        }
    }
}

} // verus!
