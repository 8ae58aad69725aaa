//! The graph side of an HNSW index: the tape of encoded nodes, the entry
//! point, the node count and the connection limits. Distances live with the
//! vectors, outside this module; here are the decisions that need none.

use vstd::prelude::*;

use crate::hnsw::format::IndexMetadata;
use crate::hnsw::key::KeySerialization;
use crate::hnsw::memory::AlignedChunk;
use crate::hnsw::node::{
    capacity_at, decode_level, encode_level, encode_levels_from, first_failing_level, id_from_bytes,
    lemma_node_roundtrip, sat_inc, NodeBuilder,
};
use crate::hnsw::node_id::NodeId;
use crate::hnsw::tape::{appended, chunk_error_message, slot_bytes, slot_of, GraphTape};
use crate::hnsw::tape_mutations::{
    applied, flattened, ran, MutationError, SequentialMutator, TapeMutation, TapeMutations, TapeMutator,
};

verus! {

/// The number of levels that can be read off `rem`, one after the other,
/// starting with level `level`; reading stops at the first level that is
/// malformed or when no bytes are left.
pub open spec fn levels_read(rem: Seq<u8>, level: u8, cap0: nat, cap: nat) -> nat
    decreases rem.len(),
{
    let c = capacity_at(level as int, cap0, cap);
    if rem.len() < 1 || rem[0] > c || rem.len() - 1 < 5 * c {
        0
    } else {
        let rest = rem.subrange((1 + 5 * c) as int, rem.len() as int);
        if rest.len() == 0 {
            1
        } else {
            1 + levels_read(rest, sat_inc(level), cap0, cap)
        }
    }
}

/// No more levels are read than there are bytes.
pub proof fn lemma_levels_read_len(rem: Seq<u8>, level: u8, cap0: nat, cap: nat)
    ensures
        levels_read(rem, level, cap0, cap) <= rem.len(),
    decreases rem.len(),
{
    let c = capacity_at(level as int, cap0, cap);
    if rem.len() >= 1 && rem[0] <= c && rem.len() - 1 >= 5 * c {
        let rest = rem.subrange((1 + 5 * c) as int, rem.len() as int);
        if rest.len() > 0 {
            lemma_levels_read_len(rest, sat_inc(level), cap0, cap);
        }
    }
}

/// The number of levels of the node stored for `id`: none where no node is
/// stored or it is shorter than a key.
pub open spec fn node_levels<K: KeySerialization, const CHUNK_SIZE: usize>(
    t: GraphTape<K, CHUNK_SIZE>,
    id: NodeId,
) -> nat {
    match t.stored_node(slot_of(id)) {
        None => 0,
        Some(node) => if node.len() < K::key_size() {
            0
        } else {
            levels_read(
                node.subrange(K::key_size() as int, node.len() as int),
                0,
                t.max_connections_level0 as nat,
                t.max_connections as nat,
            )
        },
    }
}

/// The highest level index among `n` levels, as a byte: 0 for none, and
/// 255 for more than 256.
pub open spec fn top_level(n: nat) -> u8 {
    if n == 0 {
        0
    } else if n <= 256 {
        (n - 1) as u8
    } else {
        255
    }
}

/// The bytes that `NodeBuilder::to_bytes` gives for `b`, where it gives any.
pub open spec fn built<K: KeySerialization>(b: NodeBuilder<K>) -> Option<Seq<u8>> {
    match b.key_spec() {
        None => None,
        Some(k) => if first_failing_level(b.levels_spec(), 0, b.cap0(), b.cap()) is None {
            Some(k.key_bytes() + encode_levels_from(b.levels_spec(), 0, b.cap0(), b.cap()))
        } else {
            None
        },
    }
}

/// The entry point after inserting `id` with top level `level`: the new
/// node where there was none or where it reaches above the old one.
pub open spec fn next_entry<K: KeySerialization, const CHUNK_SIZE: usize>(
    entry: Option<NodeId>,
    t: GraphTape<K, CHUNK_SIZE>,
    id: NodeId,
    level: u8,
) -> Option<NodeId> {
    match entry {
        None => Some(id),
        Some(e) => if level > top_level(node_levels(t, e)) {
            Some(id)
        } else {
            Some(e)
        },
    }
}

/// The entry point after inserting a node of top level `level` reaches at
/// least as high as both the old entry point and the new node: it is the
/// new node where there was none or where the new node reaches strictly
/// above the old one, and the old one otherwise (a tie keeps it).
pub proof fn lemma_next_entry_highest<K: KeySerialization, const CHUNK_SIZE: usize>(
    entry: Option<NodeId>,
    t: GraphTape<K, CHUNK_SIZE>,
    id: NodeId,
    level: u8,
)
    ensures
        next_entry(entry, t, id, level) matches Some(e) && match entry {
            None => e == id,
            Some(o) => {
                &&& e == id || e == o
                &&& level > top_level(node_levels(t, o)) ==> e == id
                &&& level <= top_level(node_levels(t, o)) ==> e == o
            },
        },
{
}

/// `after` comes from `before` by applying the edits `ms` in order, the
/// batch ending with `applied`.
#[verifier::opaque]
pub open spec fn edited<K: KeySerialization, const CHUNK_SIZE: usize>(
    before: GraphTape<K, CHUNK_SIZE>,
    after: GraphTape<K, CHUNK_SIZE>,
    ms: Seq<TapeMutation>,
    applied: Result<(), MutationError>,
) -> bool {
    exists|states: Seq<GraphTape<K, CHUNK_SIZE>>, k: int| #[trigger] ran(before, after, ms, states, k, applied)
}

/// `after` is `before` with `bytes` appended for `id` and the edits `ms`
/// then applied in order, the batch ending with `applied`.
pub open spec fn inserted_then_edited<K: KeySerialization, const CHUNK_SIZE: usize>(
    before: GraphTape<K, CHUNK_SIZE>,
    after: GraphTape<K, CHUNK_SIZE>,
    id: NodeId,
    bytes: Seq<u8>,
    ms: Seq<TapeMutation>,
    applied: Result<(), MutationError>,
) -> bool {
    exists|mid: GraphTape<K, CHUNK_SIZE>|
        #[trigger] appended(before, mid, id, bytes) && edited(mid, after, ms, applied)
}

/// Every tape of a run of edits has the limits of the first.
proof fn lemma_run_keeps_limits<K: KeySerialization, const CHUNK_SIZE: usize>(
    start: GraphTape<K, CHUNK_SIZE>,
    end: GraphTape<K, CHUNK_SIZE>,
    ms: Seq<TapeMutation>,
    states: Seq<GraphTape<K, CHUNK_SIZE>>,
    k: int,
    r: Result<(), MutationError>,
    i: int,
)
    requires
        ran(start, end, ms, states, k, r),
        0 <= i <= k,
    ensures
        states[i].max_connections == start.max_connections,
        states[i].max_connections_level0 == start.max_connections_level0,
        states[i].max_level == start.max_level,
    decreases i,
{
    if i > 0 {
        lemma_run_keeps_limits(start, end, ms, states, k, r, i - 1);
        assert(applied(states[i - 1], ms[i - 1], states[i], Ok(())));
    }
}

/// Edits keep the limits of the tape.
pub proof fn lemma_edited_keeps_limits<K: KeySerialization, const CHUNK_SIZE: usize>(
    before: GraphTape<K, CHUNK_SIZE>,
    after: GraphTape<K, CHUNK_SIZE>,
    ms: Seq<TapeMutation>,
    r: Result<(), MutationError>,
)
    requires
        edited(before, after, ms, r),
    ensures
        after.max_connections == before.max_connections,
        after.max_connections_level0 == before.max_connections_level0,
        after.max_level == before.max_level,
{
    reveal(edited);
    let (states, k) = choose|states: Seq<GraphTape<K, CHUNK_SIZE>>, k: int|
        #[trigger] ran(before, after, ms, states, k, r);
    lemma_run_keeps_limits(before, after, ms, states, k, r, k);
}

/// Applies a batch of edits, where there are any.
fn apply_edits<K: KeySerialization, const CHUNK_SIZE: usize>(
    tape: &mut GraphTape<K, CHUNK_SIZE>,
    mutations: Vec<TapeMutation>,
) -> (r: Result<(), MutationError>)
    requires
        old(tape).wf(),
    ensures
        final(tape).wf(),
        edited(*old(tape), *final(tape), mutations@, r),
{
    let ghost ms = mutations@;
    let nonempty = mutations.len() > 0;
    let batch = TapeMutations::Unordered(mutations);
    assert(flattened(batch) == ms);
    if nonempty {
        let applied = SequentialMutator::<K, CHUNK_SIZE>::apply_mutations(tape, batch);
        proof {
            reveal(edited);
        }
        applied
    } else {
        proof {
            reveal(edited);
            assert(ran(*tape, *tape, ms, seq![*tape], 0, Ok(())));
        }
        Ok(())
    }
}

/// The levels encoded from level `i` on read back as that many levels.
#[verifier::spinoff_prover]
#[verifier::rlimit(40)]
proof fn lemma_levels_read_encoded(levels: Seq<Seq<NodeId>>, i: int, cap0: nat, cap: nat)
    requires
        levels.len() <= 256,
        first_failing_level(levels, 0, cap0, cap) is None,
        0 <= i <= levels.len(),
    ensures
        levels_read(encode_levels_from(levels, i, cap0, cap), i as u8, cap0, cap) == levels.len() - i,
    decreases levels.len() - i,
{
    if i < levels.len() {
        lemma_node_roundtrip::<u32>(0u32, levels, cap0, cap);
        let enc = encode_levels_from(levels, i, cap0, cap);
        assert(decode_level(enc, capacity_at(i, cap0, cap)) == Some(
            (crate::hnsw::node::active_ids(levels[i]), encode_levels_from(levels, i + 1, cap0, cap)),
        ));
        assert(capacity_at((i as u8) as int, cap0, cap) == capacity_at(i, cap0, cap));
        if i + 1 < levels.len() {
            lemma_levels_read_encoded(levels, i + 1, cap0, cap);
            let c = capacity_at((i + 1) as int, cap0, cap);
            let next = encode_levels_from(levels, i + 1, cap0, cap);
            assert(next == encode_level(levels[i + 1], capacity_at(
                crate::hnsw::node::wire_level(i + 1),
                cap0,
                cap,
            )) + encode_levels_from(levels, i + 2, cap0, cap));
            assert(next.len() > 0);
            assert(sat_inc(i as u8) == (i + 1) as u8);
        } else {
            assert(encode_levels_from(levels, i + 1, cap0, cap).len() == 0);
        }
    } else {
        assert(encode_levels_from(levels, i, cap0, cap).len() == 0);
    }
}

/// A node stored from a builder's bytes, with no neighbor edits after it,
/// has the builder's number of levels, so its top level is the builder's
/// last level.
pub proof fn lemma_inserted_node_levels<K: KeySerialization, const CHUNK_SIZE: usize>(
    before: GraphTape<K, CHUNK_SIZE>,
    after: GraphTape<K, CHUNK_SIZE>,
    id: NodeId,
    b: NodeBuilder<K>,
    bytes: Seq<u8>,
)
    requires
        built(b) == Some(bytes),
        1 <= b.levels_spec().len() <= 256,
        bytes.len() < 0x10000,
        b.cap0() == before.max_connections_level0,
        b.cap() == before.max_connections,
        inserted_then_edited(before, after, id, bytes, Seq::empty(), Ok(())),
    ensures
        node_levels(after, id) == b.levels_spec().len(),
        top_level(node_levels(after, id)) == b.levels_spec().len() - 1,
{
    let levels = b.levels_spec();
    let k = b.key_spec()->0;
    let mid = choose|mid: GraphTape<K, CHUNK_SIZE>|
        #[trigger] appended(before, mid, id, bytes) && edited(mid, after, Seq::empty(), Ok(()));
    reveal(edited);
    let (states, kk) = choose|states: Seq<GraphTape<K, CHUNK_SIZE>>, kk: int|
        #[trigger] ran(mid, after, Seq::empty(), states, kk, Ok(()));
    assert(after == mid);
    assert(bytes.subrange(0, (bytes.len() % 0x10000) as int) =~= bytes);
    lemma_node_roundtrip::<K>(k, levels, b.cap0(), b.cap());
    K::lemma_key_bytes_len(k);
    lemma_levels_read_encoded(levels, 0, b.cap0(), b.cap());
}

/// The graph of an HNSW index.
pub struct HnswGraph<K: KeySerialization, const CHUNK_SIZE: usize> {
    pub graph_tape: GraphTape<K, CHUNK_SIZE>,
    pub entry_point: Option<NodeId>,
    pub node_count: usize,
    pub max_connections: usize,
    pub max_connections_level0: usize,
    pub max_level: u8,
}

impl<K: KeySerialization, const CHUNK_SIZE: usize> HnswGraph<K, CHUNK_SIZE> {
    /// The tape is well formed and built for the graph's limits.
    pub open spec fn wf(&self) -> bool {
        &&& self.graph_tape.wf()
        &&& self.graph_tape.max_connections == self.max_connections
        &&& self.graph_tape.max_connections_level0 == self.max_connections_level0
        &&& self.graph_tape.max_level == self.max_level as usize
    }

    /// An empty graph with the given limits.
    pub fn new(max_connections: usize, max_connections_level0: usize, max_level: u8) -> (g: Self)
        requires
            CHUNK_SIZE > 0,
            0x8000 * CHUNK_SIZE <= usize::MAX,
            5 * max_connections_level0 + 1 <= usize::MAX,
            5 * max_connections + 1 <= usize::MAX,
        ensures
            g.wf(),
            g.graph_tape.tape@.len() == 0,
            g.graph_tape.offsets@.len() == 0,
            g.entry_point is None,
            g.node_count == 0,
            g.max_connections == max_connections,
            g.max_connections_level0 == max_connections_level0,
            g.max_level == max_level,
    {
        HnswGraph {
            graph_tape: GraphTape::new(max_connections_level0, max_connections, max_level as usize),
            entry_point: None,
            node_count: 0,
            max_connections,
            max_connections_level0,
            max_level,
        }
    }

    /// The number of inserted nodes.
    pub fn len(&self) -> (n: usize)
        ensures
            n == self.node_count,
    {
        self.node_count
    }

    /// Whether no node was inserted.
    pub fn is_empty(&self) -> (b: bool)
        ensures
            b == (self.node_count == 0),
    {
        self.node_count == 0
    }

    /// The node searches start from.
    pub fn entry_point(&self) -> (e: Option<NodeId>)
        ensures
            e == self.entry_point,
    {
        self.entry_point
    }

    /// The slot count of a level: level 0 has its own.
    pub fn capacity_for_level(&self, level: u8) -> (c: usize)
        ensures
            c == capacity_at(level as int, self.max_connections_level0 as nat, self.max_connections as nat),
    {
        if level == 0 {
            self.max_connections_level0
        } else {
            self.max_connections
        }
    }

    /// The top level of a node: its number of levels less one, 0 where it
    /// has none or is not stored.
    pub fn node_level(&self, node_id: &NodeId) -> (l: u8)
        requires
            self.wf(),
        ensures
            l == top_level(node_levels(self.graph_tape, *node_id)),
    {
        let offset = match self.graph_tape.get_offset(node_id) {
            Some(o) => o,
            None => {
                return 0;
            },
        };
        if !self.graph_tape.node_keyed(node_id) {
            return 0;
        }
        let parser = match self.graph_tape.node_at_offset(offset) {
            Some(p) => p,
            None => {
                return 0;
            },
        };
        let ghost node = self.graph_tape.stored_node(slot_of(*node_id))->0;
        assert(parser.remaining_spec() == node);
        let ghost cap0 = self.graph_tape.max_connections_level0 as nat;
        let ghost cap = self.graph_tape.max_connections as nat;
        let ghost all = node_levels(self.graph_tape, *node_id);
        let (_, mut cur, _) = parser.read_key();
        proof {
            lemma_levels_read_len(cur.remaining_spec(), 0, cap0, cap);
        }
        let mut total: usize = 0;
        loop
            invariant_except_break
                cur.wf(),
                cur.cap0() == cap0,
                cur.cap() == cap,
                total + levels_read(cur.remaining_spec(), cur.next_level_spec(), cap0, cap) == all,
                all <= usize::MAX,
            ensures
                total == all,
            decreases cur.remaining_spec().len(),
        {
            let ghost before = cur.remaining_spec();
            let ghost lvl = cur.next_level_spec();
            let (data, next, _) = cur.read_level();
            if data.is_none() {
                break;
            }
            total = total + 1;
            match next {
                None => {
                    break;
                },
                Some(p) => {
                    cur = p;
                },
            }
        }
        if total == 0 {
            0
        } else if total <= 256 {
            (total - 1) as u8
        } else {
            255
        }
    }

    /// Stores a built node and applies the neighbor edits of its insertion;
    /// on success the node is counted and becomes the entry point where
    /// there was none or where it reaches above the current one.
    pub fn finalize_insertion(
        &mut self,
        builder: NodeBuilder<K>,
        node_id: NodeId,
        mutations: Vec<TapeMutation>,
        level: u8,
    ) -> (r: Result<NodeId, MutationError>)
        requires
            old(self).wf(),
            old(self).node_count < usize::MAX,
            slot_of(node_id) < usize::MAX,
            built(builder) matches Some(bytes) ==> bytes.len() + 2 <= CHUNK_SIZE && (
            !old(self).graph_tape.memory_manager.serves_from_free((bytes.len() + 2) as usize)
                ==> old(self).graph_tape.memory_manager.num_chunks < 0x7fff),
        ensures
            final(self).wf(),
            final(self).max_connections == old(self).max_connections,
            final(self).max_connections_level0 == old(self).max_connections_level0,
            final(self).max_level == old(self).max_level,
            built(builder) is None ==> r == Err::<NodeId, MutationError>(
                MutationError::NoEmptySlots { node_id, level: 0 },
            ) && *final(self) == *old(self),
            built(builder) matches Some(bytes) ==> exists|applied: Result<(), MutationError>|
                {
                    &&& #[trigger] inserted_then_edited(
                        old(self).graph_tape,
                        final(self).graph_tape,
                        node_id,
                        bytes,
                        mutations@,
                        applied,
                    )
                    &&& applied matches Err(e) ==> r == Err::<NodeId, MutationError>(e)
                        && final(self).entry_point == old(self).entry_point
                        && final(self).node_count == old(self).node_count
                    &&& applied is Ok ==> r == Ok::<NodeId, MutationError>(node_id)
                        && final(self).node_count == old(self).node_count + 1
                        && final(self).entry_point == next_entry(
                        old(self).entry_point,
                        final(self).graph_tape,
                        node_id,
                        level,
                    )
                },
            r is Ok ==> (final(self).entry_point matches Some(e) && match old(self).entry_point {
                None => e == node_id,
                Some(o) => {
                    &&& e == node_id || e == o
                    &&& level > top_level(node_levels(final(self).graph_tape, o)) ==> e == node_id
                    &&& level <= top_level(node_levels(final(self).graph_tape, o)) ==> e == o
                },
            }),
            r is Ok ==> final(self).node_count == old(self).node_count + 1,
    {
        let node_bytes = match builder.to_bytes() {
            Ok(b) => b,
            Err(_) => {
                return Err(MutationError::NoEmptySlots { node_id, level: 0 });
            },
        };
        let ghost before = self.graph_tape;
        let _ = self.graph_tape.append_node(node_id, node_bytes.as_slice());
        let ghost mid = self.graph_tape;
        let ghost ms = mutations@;
        let applied = apply_edits(&mut self.graph_tape, mutations);
        proof {
            lemma_edited_keeps_limits(mid, self.graph_tape, ms, applied);
            assert(inserted_then_edited(before, self.graph_tape, node_id, node_bytes@, ms, applied));
        }
        match applied {
            Ok(()) => {},
            Err(e) => {
                return Err(e);
            },
        }
        let entry_level = match self.entry_point {
            Some(ep) => self.node_level(&ep),
            None => 0,
        };
        let ghost old_entry = self.entry_point;
        if level > entry_level || self.entry_point.is_none() {
            self.entry_point = Some(node_id);
        }
        self.node_count = self.node_count + 1;
        proof {
            lemma_next_entry_highest(old_entry, self.graph_tape, node_id, level);
            assert(self.entry_point == next_entry(old_entry, self.graph_tape, node_id, level));
        }
        Ok(node_id)
    }

    /// The metadata that persists the graph.
    pub fn get_metadata(&self) -> (m: IndexMetadata)
        ensures
            m.entry_point == self.entry_point,
            m.node_count == self.node_count,
            m.max_connections == self.max_connections,
            m.max_connections_level0 == self.max_connections_level0,
            m.max_level == self.max_level,
    {
        IndexMetadata {
            entry_point: self.entry_point,
            node_count: self.node_count,
            max_connections: self.max_connections,
            max_connections_level0: self.max_connections_level0,
            max_level: self.max_level,
        }
    }

    /// The number of graph chunks.
    pub fn graph_chunks_count(&self) -> (n: usize)
        ensures
            n == self.graph_tape.tape@.len(),
    {
        self.graph_tape.chunks_count()
    }

    /// A graph chunk by index.
    pub fn get_graph_chunk(&self, idx: usize) -> (r: Result<&AlignedChunk<u8, CHUNK_SIZE>, String>)
        ensures
            idx < self.graph_tape.tape@.len() ==> r == Ok::<&AlignedChunk<u8, CHUNK_SIZE>, String>(
                &self.graph_tape.tape@[idx as int],
            ),
            idx >= self.graph_tape.tape@.len() ==> (r matches Err(m) && m@ == chunk_error_message(
                idx as nat,
            )),
    {
        self.graph_tape.get_chunk(idx)
    }

    /// The tape position of every node, in identifier order.
    pub fn get_graph_offsets(&self) -> (r: Result<Vec<usize>, String>)
        ensures
            r matches Ok(v) && v@.len() == self.graph_tape.offsets@.len() && forall|i: int|
                0 <= i < v@.len() ==> v@[i] == self.graph_tape.offsets@[i].0,
    {
        self.graph_tape.get_offsets()
    }

    /// The active neighbors of a node at a level.
    pub fn neighbors_at_level(&self, node_id: &NodeId, level: u8) -> (r: Option<Vec<NodeId>>)
        requires
            self.wf(),
            self.graph_tape.direct_level_in_chunk(slot_of(*node_id), level),
        ensures
            match self.graph_tape.direct_level(slot_of(*node_id), level) {
                None => r is None,
                Some((ci, start, count)) => r matches Some(v) && v@ == Seq::new(
                    count as nat,
                    |i: int| id_from_bytes(slot_bytes(self.graph_tape.chunk_data(ci as int), start as int, i)),
                ),
            },
    {
        self.graph_tape.neighbors_at_level(node_id, level)
    }
}

} // verus!
