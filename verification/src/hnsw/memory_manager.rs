//! Hands out tape memory and node identifiers, and takes both back.

use core::marker::PhantomData;
use vstd::multiset::Multiset;
use vstd::prelude::*;

use crate::hnsw::memory::{AlignedChunk, AllocationStrategy, FreeRange};
use crate::hnsw::node_id::{empty_neighbor, id_space, lemma_eq_from_bytes, NodeId};
use crate::hnsw::skiplist::{
    best_fit_of, first_fit, opt_seq, range_fits, FreeRangeSkipList,
};

verus! {

/// The key by which identifiers are ordered: their bytes read as a
/// big-endian number, which is the order of the byte arrays themselves.
pub open spec fn lex_key(id: NodeId) -> int {
    id.0@[0] * 0x1_0000_0000 + id.0@[1] * 0x100_0000 + id.0@[2] * 0x1_0000 + id.0@[3] * 0x100
        + id.0@[4]
}

/// `x` is a least element of `s` in identifier order.
pub open spec fn is_min_id(s: Seq<NodeId>, x: NodeId) -> bool {
    &&& s.contains(x)
    &&& forall|i: int| 0 <= i < s.len() ==> lex_key(x) <= lex_key(#[trigger] s[i])
}

/// Identifiers with the same key are the same identifier.
pub proof fn lemma_lex_key_injective(a: NodeId, b: NodeId)
    requires
        lex_key(a) == lex_key(b),
    ensures
        a == b,
{
    let (a0, a1, a2, a3, a4) = (a.0@[0], a.0@[1], a.0@[2], a.0@[3], a.0@[4]);
    let (b0, b1, b2, b3, b4) = (b.0@[0], b.0@[1], b.0@[2], b.0@[3], b.0@[4]);
    assert(a0 == b0 && a1 == b1 && a2 == b2 && a3 == b3 && a4 == b4) by (bit_vector)
        requires
            a0 * 0x1_0000_0000u64 + a1 * 0x100_0000u64 + a2 * 0x1_0000u64 + a3 * 0x100u64 + a4
                == b0 * 0x1_0000_0000u64 + b1 * 0x100_0000u64 + b2 * 0x1_0000u64 + b3 * 0x100u64
                + b4,
    ;
    assert(a.0@ =~= b.0@);
    lemma_eq_from_bytes(a, b);
}

/// Byte-wise lexicographic comparison of two identifiers.
fn id_less(a: &NodeId, b: &NodeId) -> (r: bool)
    ensures
        r == (lex_key(*a) < lex_key(*b)),
{
    let mut i: usize = 0;
    while i < 5
        invariant
            i <= 5,
            forall|j: int| 0 <= j < i ==> a.0@[j] == b.0@[j],
        decreases 5 - i,
    {
        if a.0[i] != b.0[i] {
            return a.0[i] < b.0[i];
        }
        i = i + 1;
    }
    false
}

/// The identifier that follows `id` in the 40-bit little-endian count.
fn id_successor(id: &NodeId) -> (n: NodeId)
    ensures
        n.value() == (id.value() + 1) % id_space(),
{
    let b0 = id.0[0];
    let b1 = id.0[1];
    let b2 = id.0[2];
    let b3 = id.0[3];
    let b4 = id.0[4];
    let v: u64 = (b0 as u64) | ((b1 as u64) << 8u64) | ((b2 as u64) << 16u64) | ((b3 as u64)
        << 24u64) | ((b4 as u64) << 32u64);
    assert(v == b0 + 0x100 * b1 + 0x1_0000 * b2 + 0x100_0000 * b3 + 0x1_0000_0000 * b4)
        by (bit_vector)
        requires
            v == (b0 as u64) | ((b1 as u64) << 8u64) | ((b2 as u64) << 16u64) | ((b3 as u64)
                << 24u64) | ((b4 as u64) << 32u64),
    ;
    let v1: u64 = v + 1;
    let w: u64 = v1 & 0xff_ffff_ffff;
    assert(w == v1 % 0x100_0000_0000) by (bit_vector)
        requires
            w == v1 & 0xff_ffff_ffff,
    ;
    let c0 = (w & 0xff) as u8;
    let c1 = ((w >> 8u64) & 0xff) as u8;
    let c2 = ((w >> 16u64) & 0xff) as u8;
    let c3 = ((w >> 24u64) & 0xff) as u8;
    let c4 = ((w >> 32u64) & 0xff) as u8;
    assert(c0 + 0x100 * c1 + 0x1_0000 * c2 + 0x100_0000 * c3 + 0x1_0000_0000 * c4 == w)
        by (bit_vector)
        requires
            w < 0x100_0000_0000,
            c0 == (w & 0xff) as u8,
            c1 == ((w >> 8u64) & 0xff) as u8,
            c2 == ((w >> 16u64) & 0xff) as u8,
            c3 == ((w >> 24u64) & 0xff) as u8,
            c4 == ((w >> 32u64) & 0xff) as u8,
    ;
    let n = NodeId([c0, c1, c2, c3, c4]);
    assert(n.0@ =~= seq![c0, c1, c2, c3, c4]);
    n
}

/// Recycled identifiers, handed out smallest first, and the next fresh one.
#[derive(Debug)]
pub struct NodeIDProvider {
    pub available_node_ids: Vec<NodeId>,
    pub max_node_id: NodeId,
}

impl NodeIDProvider {
    /// The least recycled identifier.
    pub open spec fn min_available(&self) -> NodeId {
        choose|x: NodeId| is_min_id(self.available_node_ids@, x)
    }

    /// The identifier that the next draw hands out.
    pub open spec fn next_id(&self) -> NodeId {
        if self.available_node_ids@.len() > 0 {
            self.min_available()
        } else {
            self.max_node_id
        }
    }

    /// `after` is this provider once its next identifier was drawn.
    pub open spec fn drawn_to(&self, after: NodeIDProvider) -> bool {
        if self.available_node_ids@.len() > 0 {
            &&& after.available_node_ids@.to_multiset()
                == self.available_node_ids@.to_multiset().remove(self.next_id())
            &&& after.max_node_id == self.max_node_id
        } else {
            &&& after.available_node_ids@ == self.available_node_ids@
            &&& after.max_node_id.value() == (self.max_node_id.value() + 1) % id_space()
        }
    }

    /// A provider whose first fresh identifier is 1 (0 marks empty slots).
    pub fn new() -> (p: Self)
        ensures
            p.available_node_ids@ == Seq::<NodeId>::empty(),
            p.max_node_id.value() == 1,
    {
        let p = NodeIDProvider {
            available_node_ids: Vec::new(),
            max_node_id: NodeId([1u8, 0u8, 0u8, 0u8, 0u8]),
        };
        assert(p.max_node_id.0@ =~= seq![1u8, 0u8, 0u8, 0u8, 0u8]);
        p
    }

    /// The position of the least recycled identifier.
    fn min_position(&self) -> (p: usize)
        requires
            self.available_node_ids@.len() > 0,
        ensures
            p < self.available_node_ids@.len(),
            self.available_node_ids@[p as int] == self.min_available(),
            is_min_id(self.available_node_ids@, self.min_available()),
    {
        let mut best: usize = 0;
        let mut i: usize = 1;
        while i < self.available_node_ids.len()
            invariant
                0 < self.available_node_ids@.len(),
                best < i <= self.available_node_ids@.len(),
                forall|j: int|
                    0 <= j < i ==> lex_key(self.available_node_ids@[best as int]) <= lex_key(
                        #[trigger] self.available_node_ids@[j],
                    ),
            decreases self.available_node_ids@.len() - i,
        {
            if id_less(&self.available_node_ids[i], &self.available_node_ids[best]) {
                best = i;
            }
            i = i + 1;
        }
        proof {
            let s = self.available_node_ids@;
            let x = s[best as int];
            assert(is_min_id(s, x));
            let m = self.min_available();
            assert(is_min_id(s, m));
            let k = choose|k: int| 0 <= k < s.len() && s[k] == m;
            assert(lex_key(x) <= lex_key(s[k]));
            lemma_lex_key_injective(x, m);
        }
        best
    }

    /// The identifier that `draw` would hand out.
    pub fn peek(&self) -> (id: NodeId)
        ensures
            id == self.next_id(),
    {
        if self.available_node_ids.len() > 0 {
            let p = self.min_position();
            self.available_node_ids[p]
        } else {
            self.max_node_id
        }
    }

    /// Hands out the least recycled identifier, or else the next fresh one.
    pub fn draw(&mut self) -> (id: NodeId)
        ensures
            id == old(self).next_id(),
            old(self).drawn_to(*final(self)),
    {
        if self.available_node_ids.len() > 0 {
            let p = self.min_position();
            let ghost s0 = self.available_node_ids@;
            let id = self.available_node_ids.remove(p);
            proof {
                vstd::seq_lib::to_multiset_remove(s0, p as int);
            }
            id
        } else {
            let current_id = self.max_node_id;
            self.increment_max_node_id();
            current_id
        }
    }

    /// Takes an identifier back for reuse; the empty marker is never reused.
    pub fn retire(&mut self, id: NodeId)
        ensures
            final(self).max_node_id == old(self).max_node_id,
            final(self).available_node_ids@ == (if id.is_zero() {
                old(self).available_node_ids@
            } else {
                old(self).available_node_ids@.push(id)
            }),
    {
        let e = empty_neighbor();
        if !id.same_as(&e) {
            self.available_node_ids.push(id);
        }
    }

    /// Advances the fresh identifier, wrapping after 2^40 - 1.
    pub fn increment_max_node_id(&mut self)
        ensures
            final(self).available_node_ids == old(self).available_node_ids,
            final(self).max_node_id.value() == (old(self).max_node_id.value() + 1) % id_space(),
    {
        self.max_node_id = id_successor(&self.max_node_id);
    }
}

/// Tape memory handed out in chunks of `CHUNK_SIZE` elements of `T`, with
/// the identifiers of the nodes stored in it.
#[derive(Debug)]
pub struct MemoryManager<T, const CHUNK_SIZE: usize> {
    /// The index of the last chunk created; -1 before the first.
    pub num_chunks: i16,
    pub free_ranges: FreeRangeSkipList<CHUNK_SIZE>,
    pub node_id_provider: NodeIDProvider,
    pub allocation_strategy: AllocationStrategy,
    pub _marker: PhantomData<T>,
}

/// The range lies in chunk `last_chunk` or an earlier one, inside the chunk.
pub open spec fn within_chunks(r: FreeRange, last_chunk: int, chunk_size: usize) -> bool {
    r.chunk_index <= last_chunk && r.offset + r.length <= chunk_size
}

/// Every range of `s` lies inside the chunks made so far.
pub open spec fn all_within(s: Seq<FreeRange>, last_chunk: int, chunk_size: usize) -> bool {
    forall|i: int| 0 <= i < s.len() ==> within_chunks(#[trigger] s[i], last_chunk, chunk_size)
}

/// A sub-multiset of ranges inside the chunks lies inside the chunks.
pub proof fn lemma_within_sub(s: Seq<FreeRange>, t: Seq<FreeRange>, last_chunk: int, chunk_size: usize)
    requires
        forall|x: FreeRange| s.to_multiset().count(x) <= t.to_multiset().count(x),
        all_within(t, last_chunk, chunk_size),
    ensures
        all_within(s, last_chunk, chunk_size),
{
    broadcast use vstd::seq_lib::group_to_multiset_ensures;

    assert forall|i: int| 0 <= i < s.len() implies within_chunks(
        #[trigger] s[i],
        last_chunk,
        chunk_size,
    ) by {
        let x = s[i];
        assert(s.contains(x));
        assert(s.to_multiset().count(x) > 0);
        assert(t.to_multiset().count(x) > 0);
        assert(t.contains(x));
        let j = choose|j: int| 0 <= j < t.len() && t[j] == x;
        assert(within_chunks(t[j], last_chunk, chunk_size));
    }
}

/// Ranges inside the chunks stay inside when more chunks are made.
pub proof fn lemma_within_grow(s: Seq<FreeRange>, a: int, b: int, chunk_size: usize)
    requires
        all_within(s, a, chunk_size),
        a <= b,
    ensures
        all_within(s, b, chunk_size),
{
    assert forall|i: int| 0 <= i < s.len() implies within_chunks(#[trigger] s[i], b, chunk_size) by {
        assert(within_chunks(s[i], a, chunk_size));
    }
}

/// The whole of chunk `index`, free.
pub open spec fn fresh_chunk_range(index: int, chunk_size: usize) -> FreeRange {
    FreeRange { chunk_index: index as u16, offset: 0, length: chunk_size }
}

impl<T: Copy + Default, const CHUNK_SIZE: usize> MemoryManager<T, CHUNK_SIZE> {
    /// The free list follows the manager's strategy and is well formed.
    pub open spec fn wf(&self) -> bool {
        &&& self.free_ranges.wf()
        &&& self.free_ranges.allocation_strategy == self.allocation_strategy
        &&& self.num_chunks >= -1
        &&& all_within(self.free_ranges.ranges@, self.num_chunks as int, CHUNK_SIZE)
        &&& all_within(self.free_ranges.pending_ranges@, self.num_chunks as int, CHUNK_SIZE)
        &&& all_within(opt_seq(self.free_ranges.current_furthest), self.num_chunks as int, CHUNK_SIZE)
    }

    /// Whether a request of `node_size` elements is served from free ranges
    /// already known, without a new chunk.
    pub open spec fn serves_from_free(&self, node_size: usize) -> bool {
        match self.allocation_strategy {
            AllocationStrategy::WithMemoryRecycling => exists|i: int|
                first_fit(self.free_ranges.ranges@, node_size, i)
                    && self.free_ranges.ranges@[i].length > 0,
            AllocationStrategy::AppendOnly => match self.free_ranges.current_furthest {
                Some(f) => f.length >= node_size,
                None => false,
            },
        }
    }

    /// A manager with no chunks yet.
    pub fn new(allocation_strategy: AllocationStrategy) -> (m: Self)
        ensures
            m.wf(),
            m.num_chunks == -1,
            m.allocation_strategy == allocation_strategy,
            m.free_ranges.ranges@ == Seq::<FreeRange>::empty(),
            m.free_ranges.pending_ranges@ == Seq::<FreeRange>::empty(),
            m.free_ranges.current_furthest is None,
            m.node_id_provider.available_node_ids@ == Seq::<NodeId>::empty(),
            m.node_id_provider.max_node_id.value() == 1,
    {
        MemoryManager {
            num_chunks: -1,
            free_ranges: FreeRangeSkipList::new(0, allocation_strategy),
            node_id_provider: NodeIDProvider::new(),
            allocation_strategy,
            _marker: PhantomData,
        }
    }

    /// Switches the allocation strategy of the manager and its free list.
    pub fn change_strategy(&mut self, allocation_strategy: AllocationStrategy)
        requires
            old(self).wf(),
        ensures
            final(self).wf(),
            final(self).allocation_strategy == allocation_strategy,
            final(self).num_chunks == old(self).num_chunks,
            final(self).node_id_provider == old(self).node_id_provider,
            final(self).free_ranges.ranges@.to_multiset() == (if old(self).allocation_strategy is AppendOnly
                && allocation_strategy is WithMemoryRecycling {
                old(self).free_ranges.ranges@.to_multiset().add(
                    (old(self).free_ranges.pending_ranges@ + opt_seq(
                        old(self).free_ranges.current_furthest,
                    )).to_multiset(),
                )
            } else {
                old(self).free_ranges.ranges@.to_multiset()
            }),
    {
        self.free_ranges.change_strategy(allocation_strategy);
        self.allocation_strategy = allocation_strategy;
        proof {
            let o = old(self).free_ranges;
            let last = self.num_chunks as int;
            if o.allocation_strategy is AppendOnly && allocation_strategy is WithMemoryRecycling {
                let drained = o.pending_ranges@ + opt_seq(o.current_furthest);
                let t = o.ranges@ + drained;
                vstd::seq_lib::lemma_multiset_commutative(o.ranges@, drained);
                assert(all_within(t, last, CHUNK_SIZE)) by {
                    assert forall|i: int| 0 <= i < t.len() implies within_chunks(
                        #[trigger] t[i],
                        last,
                        CHUNK_SIZE,
                    ) by {
                        if i < o.ranges@.len() {
                            assert(t[i] == o.ranges@[i]);
                        } else if i < o.ranges@.len() + o.pending_ranges@.len() {
                            assert(t[i] == o.pending_ranges@[i - o.ranges@.len()]);
                        } else {
                            assert(t[i] == opt_seq(o.current_furthest)[i - o.ranges@.len()
                                - o.pending_ranges@.len()]);
                        }
                    }
                }
                lemma_within_sub(self.free_ranges.ranges@, t, last, CHUNK_SIZE);
                assert(opt_seq(self.free_ranges.current_furthest) =~= Seq::<FreeRange>::empty());
            }
        }
    }

    /// The identifier that the next allocation will use.
    pub fn next_node_id(&self) -> (id: NodeId)
        ensures
            id == self.node_id_provider.next_id(),
    {
        self.node_id_provider.peek()
    }

    /// Allocates `node_size` elements and an identifier for a node; returns
    /// the new chunk when one had to be created.
    pub fn allocate(&mut self, node_size: usize) -> (r: (
        NodeId,
        FreeRange,
        Option<AlignedChunk<T, CHUNK_SIZE>>,
    ))
        requires
            old(self).wf(),
            !old(self).serves_from_free(node_size) ==> old(self).num_chunks < 0x7fff,
        ensures
            final(self).wf(),
            r.0 == old(self).node_id_provider.next_id(),
            old(self).node_id_provider.drawn_to(final(self).node_id_provider),
            final(self).allocation_strategy == old(self).allocation_strategy,
            within_chunks(r.1, final(self).num_chunks as int, CHUNK_SIZE),
            node_size <= CHUNK_SIZE ==> r.1.length == node_size,
            old(self).serves_from_free(node_size) ==> {
                &&& r.2 is None
                &&& final(self).num_chunks == old(self).num_chunks
            },
            !old(self).serves_from_free(node_size) ==> {
                let fresh = fresh_chunk_range(old(self).num_chunks + 1, CHUNK_SIZE);
                &&& r.2 is Some
                &&& final(self).num_chunks == old(self).num_chunks + 1
                &&& r.1 == fresh.split_spec(node_size).0
            },
            old(self).allocation_strategy is WithMemoryRecycling ==> {
                &&& forall|f: FreeRange|
                    #![trigger best_fit_of(old(self).free_ranges.ranges@, node_size, Some(f))]
                    best_fit_of(old(self).free_ranges.ranges@, node_size, Some(f)) ==> {
                        &&& r.1 == f.split_spec(node_size).0
                        &&& final(self).free_ranges.ranges@.to_multiset()
                            == old(self).free_ranges.ranges@.to_multiset().remove(f).add(
                            opt_seq(f.split_spec(node_size).1).to_multiset(),
                        )
                    }
                &&& !old(self).serves_from_free(node_size) ==> final(self).free_ranges.ranges@.to_multiset()
                    == old(self).free_ranges.ranges@.to_multiset().add(
                    opt_seq(
                        fresh_chunk_range(old(self).num_chunks + 1, CHUNK_SIZE).split_spec(
                            node_size,
                        ).1,
                    ).to_multiset(),
                )
            },
            old(self).allocation_strategy is AppendOnly ==> {
                &&& final(self).free_ranges.ranges == old(self).free_ranges.ranges
                &&& old(self).serves_from_free(node_size) ==> {
                    let f = old(self).free_ranges.current_furthest->0;
                    &&& r.1 == f.split_spec(node_size).0
                    &&& final(self).free_ranges.current_furthest == f.split_spec(node_size).1
                    &&& final(self).free_ranges.pending_ranges
                        == old(self).free_ranges.pending_ranges
                }
                &&& !old(self).serves_from_free(node_size) ==> {
                    let rest = fresh_chunk_range(old(self).num_chunks + 1, CHUNK_SIZE).split_spec(
                        node_size,
                    ).1;
                    match rest {
                        Some(rem) => {
                            &&& final(self).free_ranges.current_furthest == Some(rem)
                            &&& final(self).free_ranges.pending_ranges@
                                == old(self).free_ranges.pending_ranges@ + opt_seq(
                                old(self).free_ranges.current_furthest,
                            )
                        },
                        None => {
                            &&& final(self).free_ranges.current_furthest
                                == old(self).free_ranges.current_furthest
                            &&& final(self).free_ranges.pending_ranges
                                == old(self).free_ranges.pending_ranges
                        },
                    }
                }
            },
    {
        match self.allocation_strategy {
            AllocationStrategy::WithMemoryRecycling => self.allocate_with_memory_recycling(
                node_size,
            ),
            AllocationStrategy::AppendOnly => self.allocate_append(node_size),
        }
    }

    fn allocate_append(&mut self, node_size: usize) -> (r: (
        NodeId,
        FreeRange,
        Option<AlignedChunk<T, CHUNK_SIZE>>,
    ))
        requires
            old(self).wf(),
            old(self).allocation_strategy is AppendOnly,
            !old(self).serves_from_free(node_size) ==> old(self).num_chunks < 0x7fff,
        ensures
            final(self).wf(),
            r.0 == old(self).node_id_provider.next_id(),
            old(self).node_id_provider.drawn_to(final(self).node_id_provider),
            final(self).allocation_strategy == old(self).allocation_strategy,
            within_chunks(r.1, final(self).num_chunks as int, CHUNK_SIZE),
            node_size <= CHUNK_SIZE ==> r.1.length == node_size,
            final(self).free_ranges.ranges == old(self).free_ranges.ranges,
            old(self).serves_from_free(node_size) ==> {
                let f = old(self).free_ranges.current_furthest->0;
                &&& r.2 is None
                &&& final(self).num_chunks == old(self).num_chunks
                &&& r.1 == f.split_spec(node_size).0
                &&& final(self).free_ranges.current_furthest == f.split_spec(node_size).1
                &&& final(self).free_ranges.pending_ranges == old(self).free_ranges.pending_ranges
            },
            !old(self).serves_from_free(node_size) ==> {
                let fresh = fresh_chunk_range(old(self).num_chunks + 1, CHUNK_SIZE);
                let rest = fresh.split_spec(node_size).1;
                &&& r.2 is Some
                &&& final(self).num_chunks == old(self).num_chunks + 1
                &&& r.1 == fresh.split_spec(node_size).0
                &&& match rest {
                    Some(rem) => {
                        &&& final(self).free_ranges.current_furthest == Some(rem)
                        &&& final(self).free_ranges.pending_ranges@
                            == old(self).free_ranges.pending_ranges@ + opt_seq(
                            old(self).free_ranges.current_furthest,
                        )
                    },
                    None => {
                        &&& final(self).free_ranges.current_furthest
                            == old(self).free_ranges.current_furthest
                        &&& final(self).free_ranges.pending_ranges
                            == old(self).free_ranges.pending_ranges
                    },
                }
            },
    {
        if let Some(allocated_range) = self.free_ranges.allocate_from_furthest(node_size) {
            let id = self.node_id_provider.draw();
            proof {
                let f = old(self).free_ranges.current_furthest->0;
                assert(opt_seq(old(self).free_ranges.current_furthest)[0] == f);
                match self.free_ranges.current_furthest {
                    Some(rem) => {
                        assert(opt_seq(self.free_ranges.current_furthest)[0] == rem);
                    },
                    None => {},
                }
            }
            return (id, allocated_range, None);
        }
        let chunk = AlignedChunk::<T, CHUNK_SIZE>::new();
        self.num_chunks = self.num_chunks + 1;
        let new_range = FreeRange { chunk_index: self.num_chunks as u16, offset: 0, length: CHUNK_SIZE };
        let (allocated_range, remainder) = new_range.split(node_size);
        if let Some(remainder_range) = remainder {
            self.free_ranges.set_new_furthest(remainder_range);
        }
        let id = self.node_id_provider.draw();
        (id, allocated_range, Some(chunk))
    }

    fn allocate_with_memory_recycling(&mut self, node_size: usize) -> (r: (
        NodeId,
        FreeRange,
        Option<AlignedChunk<T, CHUNK_SIZE>>,
    ))
        requires
            old(self).wf(),
            old(self).allocation_strategy is WithMemoryRecycling,
            !old(self).serves_from_free(node_size) ==> old(self).num_chunks < 0x7fff,
        ensures
            final(self).wf(),
            r.0 == old(self).node_id_provider.next_id(),
            old(self).node_id_provider.drawn_to(final(self).node_id_provider),
            final(self).allocation_strategy == old(self).allocation_strategy,
            within_chunks(r.1, final(self).num_chunks as int, CHUNK_SIZE),
            node_size <= CHUNK_SIZE ==> r.1.length == node_size,
            old(self).serves_from_free(node_size) ==> {
                &&& r.2 is None
                &&& final(self).num_chunks == old(self).num_chunks
            },
            forall|f: FreeRange|
                #![trigger best_fit_of(old(self).free_ranges.ranges@, node_size, Some(f))]
                best_fit_of(old(self).free_ranges.ranges@, node_size, Some(f)) ==> {
                    &&& r.1 == f.split_spec(node_size).0
                    &&& final(self).free_ranges.ranges@.to_multiset()
                        == old(self).free_ranges.ranges@.to_multiset().remove(f).add(
                        opt_seq(f.split_spec(node_size).1).to_multiset(),
                    )
                },
            !old(self).serves_from_free(node_size) ==> {
                let fresh = fresh_chunk_range(old(self).num_chunks + 1, CHUNK_SIZE);
                &&& r.2 is Some
                &&& final(self).num_chunks == old(self).num_chunks + 1
                &&& r.1 == fresh.split_spec(node_size).0
                &&& final(self).free_ranges.ranges@.to_multiset()
                    == old(self).free_ranges.ranges@.to_multiset().add(
                    opt_seq(fresh.split_spec(node_size).1).to_multiset(),
                )
            },
    {
        let found = self.free_ranges.find_best_fit(node_size);
        if let Some(free_range) = found {
            proof {
                let s = self.free_ranges.ranges@;
                if forall|i: int| !first_fit(s, node_size, i) {
                    assert(false);
                }
                let i = choose|i: int| first_fit(s, node_size, i);
                assert(s[i] == free_range);
                assert(range_fits(s[i]));
                assert(self.serves_from_free(node_size));
            }
            let _removed = self.free_ranges.remove(&free_range);
            let (allocated_range, remainder) = free_range.split(node_size);
            let ghost mid = self.free_ranges.ranges@.to_multiset();
            if let Some(rest) = remainder {
                self.free_ranges.insert(rest);
            }
            let id = self.node_id_provider.draw();
            proof {
                broadcast use vstd::multiset::group_multiset_axioms;

                let s = old(self).free_ranges.ranges@;
                assert(s.contains(free_range));
                match remainder {
                    Some(rest) => {
                        assert(opt_seq(remainder) =~= seq![rest]);
                        vstd::seq_lib::to_multiset_len(Seq::<FreeRange>::empty());
                        vstd::multiset::lemma_multiset_empty_len(
                            Seq::<FreeRange>::empty().to_multiset(),
                        );
                        vstd::seq_lib::to_multiset_build(Seq::<FreeRange>::empty(), rest);
                        assert(Seq::<FreeRange>::empty().push(rest) =~= seq![rest]);
                        assert(mid.insert(rest) =~= mid.add(opt_seq(remainder).to_multiset()));
                    },
                    None => {
                        assert(opt_seq(remainder) =~= Seq::<FreeRange>::empty());
                        vstd::seq_lib::to_multiset_len(opt_seq(remainder));
                        vstd::multiset::lemma_multiset_empty_len(opt_seq(remainder).to_multiset());
                        assert(mid.add(opt_seq(remainder).to_multiset()) =~= mid);
                    },
                }
                assert forall|f: FreeRange|
                    #![trigger best_fit_of(s, node_size, Some(f))]
                    best_fit_of(s, node_size, Some(f)) implies f == free_range by {
                    let i = choose|i: int| first_fit(s, node_size, i);
                    assert(first_fit(s, node_size, i));
                }
            }
            proof {
                broadcast use vstd::multiset::group_multiset_axioms;

                let o = old(self).free_ranges.ranges@;
                let last = self.num_chunks as int;
                let rs = opt_seq(remainder);
                let t = o + rs;
                vstd::seq_lib::lemma_multiset_commutative(o, rs);
                let k = choose|k: int| 0 <= k < o.len() && o[k] == free_range;
                assert(within_chunks(o[k], last, CHUNK_SIZE));
                assert(all_within(t, last, CHUNK_SIZE)) by {
                    assert forall|i: int| 0 <= i < t.len() implies within_chunks(
                        #[trigger] t[i],
                        last,
                        CHUNK_SIZE,
                    ) by {
                        if i < o.len() {
                            assert(t[i] == o[i]);
                        } else {
                            assert(t[i] == rs[i - o.len()]);
                        }
                    }
                }
                assert forall|x: FreeRange|
                    self.free_ranges.ranges@.to_multiset().count(x) <= t.to_multiset().count(
                        x,
                    ) by {}
                lemma_within_sub(self.free_ranges.ranges@, t, last, CHUNK_SIZE);
            }
            (id, allocated_range, None)
        } else {
            proof {
                let s = self.free_ranges.ranges@;
                if self.serves_from_free(node_size) {
                    let i = choose|i: int| first_fit(s, node_size, i) && s[i].length > 0;
                    assert(first_fit(s, node_size, i));
                }
                assert forall|f: FreeRange|
                    #![trigger best_fit_of(s, node_size, Some(f))]
                    !best_fit_of(s, node_size, Some(f)) by {
                    if best_fit_of(s, node_size, Some(f)) {
                        if forall|i: int| !first_fit(s, node_size, i) {
                        } else {
                            let i = choose|i: int| first_fit(s, node_size, i);
                            assert(first_fit(s, node_size, i));
                        }
                    }
                }
            }
            let chunk = AlignedChunk::<T, CHUNK_SIZE>::new();
            let fresh = FreeRange {
                chunk_index: (self.num_chunks + 1) as u16,
                offset: 0,
                length: CHUNK_SIZE,
            };
            let (free_range, remainder) = fresh.split(node_size);
            let ghost mid = self.free_ranges.ranges@.to_multiset();
            if let Some(rest) = remainder {
                self.free_ranges.insert(rest);
            }
            self.num_chunks = self.num_chunks + 1;
            let id = self.node_id_provider.draw();
            proof {
                broadcast use vstd::multiset::group_multiset_axioms;

                match remainder {
                    Some(rest) => {
                        assert(opt_seq(remainder) =~= seq![rest]);
                        vstd::seq_lib::to_multiset_len(Seq::<FreeRange>::empty());
                        vstd::multiset::lemma_multiset_empty_len(
                            Seq::<FreeRange>::empty().to_multiset(),
                        );
                        vstd::seq_lib::to_multiset_build(Seq::<FreeRange>::empty(), rest);
                        assert(Seq::<FreeRange>::empty().push(rest) =~= seq![rest]);
                        assert(mid.insert(rest) =~= mid.add(opt_seq(remainder).to_multiset()));
                    },
                    None => {
                        assert(opt_seq(remainder) =~= Seq::<FreeRange>::empty());
                        vstd::seq_lib::to_multiset_len(opt_seq(remainder));
                        vstd::multiset::lemma_multiset_empty_len(opt_seq(remainder).to_multiset());
                        assert(mid.add(opt_seq(remainder).to_multiset()) =~= mid);
                    },
                }
            }
            proof {
                broadcast use vstd::multiset::group_multiset_axioms;

                let o = old(self).free_ranges.ranges@;
                let last = self.num_chunks as int;
                let rs = opt_seq(remainder);
                let t = o + rs;
                vstd::seq_lib::lemma_multiset_commutative(o, rs);
                lemma_within_grow(o, last - 1, last, CHUNK_SIZE);
                lemma_within_grow(self.free_ranges.pending_ranges@, last - 1, last, CHUNK_SIZE);
                lemma_within_grow(
                    opt_seq(self.free_ranges.current_furthest),
                    last - 1,
                    last,
                    CHUNK_SIZE,
                );
                assert(all_within(t, last, CHUNK_SIZE)) by {
                    assert forall|i: int| 0 <= i < t.len() implies within_chunks(
                        #[trigger] t[i],
                        last,
                        CHUNK_SIZE,
                    ) by {
                        if i < o.len() {
                            assert(t[i] == o[i]);
                        } else {
                            assert(t[i] == rs[i - o.len()]);
                        }
                    }
                }
                assert forall|x: FreeRange|
                    self.free_ranges.ranges@.to_multiset().count(x) <= t.to_multiset().count(
                        x,
                    ) by {}
                lemma_within_sub(self.free_ranges.ranges@, t, last, CHUNK_SIZE);
            }
            (id, free_range, Some(chunk))
        }
    }

    /// Returns a node's memory to the free list and its identifier to the pool.
    pub fn free(&mut self, id: NodeId, range: FreeRange)
        requires
            old(self).wf(),
            range_fits(range),
            within_chunks(range, old(self).num_chunks as int, CHUNK_SIZE),
        ensures
            final(self).wf(),
            final(self).num_chunks == old(self).num_chunks,
            final(self).allocation_strategy == old(self).allocation_strategy,
            final(self).node_id_provider.max_node_id == old(self).node_id_provider.max_node_id,
            final(self).node_id_provider.available_node_ids@ == (if id.is_zero() {
                old(self).node_id_provider.available_node_ids@
            } else {
                old(self).node_id_provider.available_node_ids@.push(id)
            }),
            old(self).allocation_strategy is WithMemoryRecycling
                ==> final(self).free_ranges.ranges@.to_multiset()
                == old(self).free_ranges.ranges@.to_multiset().insert(range),
    {
        self.free_ranges.insert(range);
        self.node_id_provider.retire(id);
        proof {
            broadcast use vstd::multiset::group_multiset_axioms;

            let o = old(self).free_ranges;
            let last = self.num_chunks as int;
            if o.allocation_strategy is WithMemoryRecycling {
                let t = o.ranges@.push(range);
                vstd::seq_lib::to_multiset_build(o.ranges@, range);
                assert(all_within(t, last, CHUNK_SIZE)) by {
                    assert forall|i: int| 0 <= i < t.len() implies within_chunks(
                        #[trigger] t[i],
                        last,
                        CHUNK_SIZE,
                    ) by {
                        if i < o.ranges@.len() {
                            assert(t[i] == o.ranges@[i]);
                        }
                    }
                }
                assert forall|x: FreeRange|
                    self.free_ranges.ranges@.to_multiset().count(x) <= t.to_multiset().count(
                        x,
                    ) by {}
                lemma_within_sub(self.free_ranges.ranges@, t, last, CHUNK_SIZE);
            } else {
                let p = self.free_ranges.pending_ranges@;
                assert forall|i: int| 0 <= i < p.len() implies within_chunks(
                    #[trigger] p[i],
                    last,
                    CHUNK_SIZE,
                ) by {
                    if i < o.pending_ranges@.len() {
                        assert(p[i] == o.pending_ranges@[i]);
                    } else {
                        match o.current_furthest {
                            Some(c) => {
                                assert(opt_seq(o.current_furthest)[0] == c);
                            },
                            None => {},
                        }
                    }
                }
                match self.free_ranges.current_furthest {
                    Some(c) => {
                        assert(opt_seq(self.free_ranges.current_furthest)[0] == c);
                        match o.current_furthest {
                            Some(c0) => {
                                assert(opt_seq(o.current_furthest)[0] == c0);
                            },
                            None => {},
                        }
                    },
                    None => {},
                }
            }
        }
    }
}

} // verus!
