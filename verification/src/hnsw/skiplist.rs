//! The ordered collection of free ranges behind the memory manager.
//!
//! In recycling mode the free ranges are kept in best-fit order (by length,
//! then chunk, then offset). In append-only mode they are parked in a queue
//! and only the range furthest along the tape is handed out.

use std::collections::VecDeque;
use vstd::multiset::Multiset;
use vstd::prelude::*;

use crate::hnsw::memory::{
    further, range_lt, wrap_add, wrap_sub, AllocationStrategy, FragmentationMetrics, FreeRange,
};

verus! {

/// `a` comes no later than `b` in best-fit order.
pub open spec fn range_le(a: FreeRange, b: FreeRange) -> bool {
    !range_lt(b, a)
}

/// The ranges are in best-fit order.
pub open spec fn sorted_ranges(s: Seq<FreeRange>) -> bool {
    forall|i: int, j: int| 0 <= i < j < s.len() ==> range_le(#[trigger] s[i], #[trigger] s[j])
}

/// The end of the range is addressable.
pub open spec fn range_fits(r: FreeRange) -> bool {
    r.offset + r.length <= usize::MAX
}

/// Every range of the sequence is addressable.
pub open spec fn all_fit(s: Seq<FreeRange>) -> bool {
    forall|i: int| 0 <= i < s.len() ==> range_fits(#[trigger] s[i])
}

/// The empty range at the start of the tape.
pub open spec fn zero_range() -> FreeRange {
    FreeRange { chunk_index: 0, offset: 0, length: 0 }
}

/// How an insertion updates the furthest free range.
pub open spec fn insert_furthest(acc: FreeRange, r: FreeRange) -> FreeRange {
    if acc.length == 0 || further(r, acc) {
        r
    } else {
        acc
    }
}

/// The furthest free range after inserting every range of `s` in order.
pub open spec fn fold_furthest(acc: FreeRange, s: Seq<FreeRange>) -> FreeRange
    decreases s.len(),
{
    if s.len() == 0 {
        acc
    } else {
        insert_furthest(fold_furthest(acc, s.drop_last()), s.last())
    }
}

/// The furthest non-empty range found by a scan of `s` in order.
pub open spec fn furthest_in(s: Seq<FreeRange>) -> FreeRange
    decreases s.len(),
{
    if s.len() == 0 {
        zero_range()
    } else {
        let acc = furthest_in(s.drop_last());
        let r = s.last();
        if r.length > 0 && (acc.length == 0 || further(r, acc)) {
            r
        } else {
            acc
        }
    }
}

/// The counters, padded with zeros so that `idx` is a valid index.
pub open spec fn metrics_grow(m: Seq<usize>, idx: int) -> Seq<usize> {
    if idx < m.len() {
        m
    } else {
        m + Seq::new((idx + 1 - m.len()) as nat, |i: int| 0usize)
    }
}

/// The per-chunk free counters after a range was added.
pub open spec fn metrics_after_insert(m: Seq<usize>, r: FreeRange) -> Seq<usize> {
    let g = metrics_grow(m, r.chunk_index as int);
    g.update(r.chunk_index as int, wrap_add(g[r.chunk_index as int], r.length))
}

/// The per-chunk free counters after every range of `s` was added in order.
pub open spec fn fold_metrics(m: Seq<usize>, s: Seq<FreeRange>) -> Seq<usize>
    decreases s.len(),
{
    if s.len() == 0 {
        m
    } else {
        metrics_after_insert(fold_metrics(m, s.drop_last()), s.last())
    }
}

/// The per-chunk free counters after a range was taken out.
pub open spec fn metrics_after_removal(m: Seq<usize>, r: FreeRange) -> Seq<usize> {
    let idx = r.chunk_index as int;
    if idx < m.len() && m[idx] >= r.length {
        m.update(idx, (m[idx] - r.length) as usize)
    } else {
        m
    }
}

/// `i` is the first position of `s` whose range holds at least `req` elements.
pub open spec fn first_fit(s: Seq<FreeRange>, req: usize, i: int) -> bool {
    &&& 0 <= i < s.len()
    &&& s[i].length >= req
    &&& forall|j: int| 0 <= j < i ==> (#[trigger] s[j]).length < req
}

/// What a best-fit search of `s` for `req` elements finds.
pub open spec fn best_fit_of(s: Seq<FreeRange>, req: usize, r: Option<FreeRange>) -> bool {
    &&& forall|i: int|
        first_fit(s, req, i) ==> r == (if s[i].length > 0 {
            Some(s[i])
        } else {
            None
        })
    &&& (forall|i: int| !first_fit(s, req, i)) ==> r is None
}

/// Some position holds the first range large enough, where any range is.
proof fn lemma_first_fit_exists(s: Seq<FreeRange>, req: usize, j: int)
    requires
        0 <= j < s.len(),
        s[j].length >= req,
    ensures
        exists|i: int| first_fit(s, req, i),
    decreases j,
{
    if forall|k: int| 0 <= k < j ==> (#[trigger] s[k]).length < req {
        assert(first_fit(s, req, j));
    } else {
        let k = choose|k: int| 0 <= k < j && (#[trigger] s[k]).length >= req;
        lemma_first_fit_exists(s, req, k);
    }
}

/// Over ranges of positive length kept in best-fit order, the best-fit
/// search finds nothing exactly when no range is large enough, and
/// otherwise a stored range large enough that comes no later in best-fit
/// order than any other range large enough.
proof fn lemma_best_fit_least(s: Seq<FreeRange>, req: usize, r: Option<FreeRange>)
    requires
        sorted_ranges(s),
        forall|i: int| 0 <= i < s.len() ==> (#[trigger] s[i]).length > 0,
        best_fit_of(s, req, r),
    ensures
        r is None <==> forall|i: int| 0 <= i < s.len() ==> (#[trigger] s[i]).length < req,
        r matches Some(x) ==> s.contains(x) && x.length >= req && forall|i: int|
            0 <= i < s.len() && (#[trigger] s[i]).length >= req ==> range_le(x, s[i]),
{
    if exists|j: int| 0 <= j < s.len() && (#[trigger] s[j]).length >= req {
        let j = choose|j: int| 0 <= j < s.len() && (#[trigger] s[j]).length >= req;
        lemma_first_fit_exists(s, req, j);
        let i = choose|i: int| first_fit(s, req, i);
        assert(s[i].length > 0);
        assert(r == Some(s[i]));
        assert forall|k: int| 0 <= k < s.len() && (#[trigger] s[k]).length >= req implies range_le(
            s[i],
            s[k],
        ) by {
            if k < i {
                assert(s[k].length < req);
            } else if k > i {
                assert(range_le(s[i], s[k]));
            }
        }
    } else {
        assert forall|i: int| !first_fit(s, req, i) by {
            if 0 <= i < s.len() {
                assert(s[i].length < req);
            }
        }
    }
}

/// The optional range as a sequence of zero or one ranges.
pub open spec fn opt_seq(o: Option<FreeRange>) -> Seq<FreeRange> {
    match o {
        Some(r) => seq![r],
        None => Seq::empty(),
    }
}

/// Counts the elements of `range` as free in its chunk.
fn add_free_bytes(metrics: &mut FragmentationMetrics, range: &FreeRange)
    ensures
        final(metrics).chunk_free_bytes@ == metrics_after_insert(
            old(metrics).chunk_free_bytes@,
            *range,
        ),
{
    let chunk_idx = range.chunk_index as usize;
    let length = range.length;
    let ghost m0 = metrics.chunk_free_bytes@;
    while metrics.chunk_free_bytes.len() <= chunk_idx
        invariant
            chunk_idx == range.chunk_index,
            m0.len() <= metrics.chunk_free_bytes@.len() <= if m0.len() > chunk_idx {
                m0.len() as int
            } else {
                chunk_idx + 1
            },
            metrics.chunk_free_bytes@ == m0 + Seq::new(
                (metrics.chunk_free_bytes@.len() - m0.len()) as nat,
                |i: int| 0usize,
            ),
        decreases chunk_idx + 1 - metrics.chunk_free_bytes@.len(),
    {
        metrics.chunk_free_bytes.push(0);
        assert(metrics.chunk_free_bytes@ =~= m0 + Seq::new(
            (metrics.chunk_free_bytes@.len() - m0.len()) as nat,
            |i: int| 0usize,
        ));
    }
    proof {
        assert(metrics.chunk_free_bytes@ =~= metrics_grow(m0, chunk_idx as int));
    }
    let cur = metrics.chunk_free_bytes[chunk_idx];
    metrics.chunk_free_bytes.set(chunk_idx, cur.wrapping_add(length));
    proof {
        assert(cur.wrapping_add(length) == wrap_add(cur, length));
    }
}

/// Free ranges of the tape, ordered for best-fit search in recycling mode and
/// queued behind the furthest one in append-only mode.
#[derive(Debug)]
pub struct FreeRangeSkipList<const CHUNK_SIZE: usize> {
    /// The ranges in best-fit order (recycling mode).
    pub ranges: Vec<FreeRange>,
    pub metrics: FragmentationMetrics,
    /// The number of ranges handed to the list (a wrapping counter).
    pub size: usize,
    /// The range furthest along the tape among those inserted.
    pub furthest_free_range: FreeRange,
    pub allocation_strategy: AllocationStrategy,
    /// Ranges parked in append-only mode.
    pub pending_ranges: VecDeque<FreeRange>,
    /// The range that append-only allocation draws from.
    pub current_furthest: Option<FreeRange>,
}

impl<const CHUNK_SIZE: usize> FreeRangeSkipList<CHUNK_SIZE> {
    /// The list is ordered and every range in it is addressable.
    pub open spec fn wf(&self) -> bool {
        &&& sorted_ranges(self.ranges@)
        &&& all_fit(self.ranges@)
        &&& all_fit(self.pending_ranges@)
        &&& all_fit(opt_seq(self.current_furthest))
    }

    /// An empty list with counters for `num_chunks` chunks.
    pub fn new(num_chunks: usize, allocation_strategy: AllocationStrategy) -> (l: Self)
        ensures
            l.wf(),
            l.ranges@ == Seq::<FreeRange>::empty(),
            l.metrics.chunk_free_bytes@ == Seq::new(num_chunks as nat, |i: int| 0usize),
            l.size == 0,
            l.furthest_free_range == zero_range(),
            l.allocation_strategy == allocation_strategy,
            l.pending_ranges@ == Seq::<FreeRange>::empty(),
            l.current_furthest is None,
    {
        FreeRangeSkipList {
            ranges: Vec::new(),
            metrics: FragmentationMetrics::new(num_chunks),
            size: 0,
            furthest_free_range: FreeRange { chunk_index: 0, offset: 0, length: 0 },
            allocation_strategy,
            pending_ranges: VecDeque::new(),
            current_furthest: None,
        }
    }

    /// The number of ranges handed to the list.
    pub fn size(&self) -> (s: usize)
        ensures
            s == self.size,
    {
        self.size
    }

    /// The furthest free range, if a non-empty one was recorded.
    pub fn get_furthest_free_range(&self) -> (r: Option<FreeRange>)
        ensures
            r == (if self.furthest_free_range.length > 0 {
                Some(self.furthest_free_range)
            } else {
                None
            }),
    {
        if self.furthest_free_range.length > 0 {
            Some(self.furthest_free_range)
        } else {
            None
        }
    }

    fn update_metrics_on_insert(&mut self, range: &FreeRange)
        ensures
            final(self).metrics.chunk_free_bytes@ == metrics_after_insert(
                old(self).metrics.chunk_free_bytes@,
                *range,
            ),
            final(self).ranges == old(self).ranges,
            final(self).size == old(self).size,
            final(self).furthest_free_range == old(self).furthest_free_range,
            final(self).allocation_strategy == old(self).allocation_strategy,
            final(self).pending_ranges == old(self).pending_ranges,
            final(self).current_furthest == old(self).current_furthest,
    {
        add_free_bytes(&mut self.metrics, range);
    }

    fn update_metrics_on_removal(&mut self, range: &FreeRange)
        requires
            old(self).wf(),
        ensures
            final(self).wf(),
            final(self).metrics.chunk_free_bytes@ == metrics_after_removal(
                old(self).metrics.chunk_free_bytes@,
                *range,
            ),
            final(self).furthest_free_range == (if *range == old(self).furthest_free_range {
                furthest_in(old(self).ranges@)
            } else {
                old(self).furthest_free_range
            }),
            final(self).ranges == old(self).ranges,
            final(self).size == old(self).size,
            final(self).allocation_strategy == old(self).allocation_strategy,
            final(self).pending_ranges == old(self).pending_ranges,
            final(self).current_furthest == old(self).current_furthest,
    {
        let chunk_idx = range.chunk_index as usize;
        let length = range.length;
        if chunk_idx < self.metrics.chunk_free_bytes.len() {
            if self.metrics.chunk_free_bytes[chunk_idx] >= length {
                let cur = self.metrics.chunk_free_bytes[chunk_idx];
                self.metrics.chunk_free_bytes.set(chunk_idx, cur - length);
            }
        }
        if *range == self.furthest_free_range {
            self.update_furthest_free_range();
        }
    }

    fn update_furthest_free_range(&mut self)
        ensures
            final(self).furthest_free_range == furthest_in(old(self).ranges@),
            final(self).ranges == old(self).ranges,
            final(self).metrics == old(self).metrics,
            final(self).size == old(self).size,
            final(self).allocation_strategy == old(self).allocation_strategy,
            final(self).pending_ranges == old(self).pending_ranges,
            final(self).current_furthest == old(self).current_furthest,
    {
        let mut acc = FreeRange { chunk_index: 0, offset: 0, length: 0 };
        let mut i: usize = 0;
        while i < self.ranges.len()
            invariant
                i <= self.ranges@.len(),
                acc == furthest_in(self.ranges@.take(i as int)),
            decreases self.ranges@.len() - i,
        {
            let r = self.ranges[i];
            proof {
                assert(self.ranges@.take(i + 1).drop_last() =~= self.ranges@.take(i as int));
            }
            if r.length > 0 && (acc.length == 0 || r.is_further_than(&acc)) {
                acc = r;
            }
            i = i + 1;
        }
        proof {
            assert(self.ranges@.take(i as int) =~= self.ranges@);
        }
        self.furthest_free_range = acc;
    }

    /// The position at which `range` belongs in best-fit order.
    fn lower_bound(&self, range: &FreeRange) -> (p: usize)
        requires
            self.wf(),
        ensures
            p <= self.ranges@.len(),
            forall|i: int| 0 <= i < p ==> range_lt(#[trigger] self.ranges@[i], *range),
            forall|i: int| p <= i < self.ranges@.len() ==> range_le(*range, #[trigger] self.ranges@[i]),
    {
        let mut p: usize = 0;
        while p < self.ranges.len() && self.ranges[p].less_than(range)
            invariant
                p <= self.ranges@.len(),
                forall|i: int| 0 <= i < p ==> range_lt(#[trigger] self.ranges@[i], *range),
            decreases self.ranges@.len() - p,
        {
            p = p + 1;
        }
        proof {
            assert forall|i: int| p <= i < self.ranges@.len() implies range_le(
                *range,
                #[trigger] self.ranges@[i],
            ) by {
                assert(range_le(self.ranges@[p as int], self.ranges@[i]));
            }
        }
        p
    }

    fn insert_into_skiplist_internal(&mut self, range: FreeRange, increment_size: bool)
        requires
            old(self).wf(),
            range_fits(range),
        ensures
            final(self).wf(),
            final(self).ranges@.to_multiset() == old(self).ranges@.to_multiset().insert(range),
            final(self).metrics.chunk_free_bytes@ == metrics_after_insert(
                old(self).metrics.chunk_free_bytes@,
                range,
            ),
            final(self).furthest_free_range == insert_furthest(
                old(self).furthest_free_range,
                range,
            ),
            final(self).size == (if increment_size {
                wrap_add(old(self).size, 1)
            } else {
                old(self).size
            }),
            final(self).allocation_strategy == old(self).allocation_strategy,
            final(self).pending_ranges == old(self).pending_ranges,
            final(self).current_furthest == old(self).current_furthest,
    {
        self.update_metrics_on_insert(&range);
        if self.furthest_free_range.length == 0 || range.is_further_than(&self.furthest_free_range) {
            self.furthest_free_range = range;
        }
        let p = self.lower_bound(&range);
        let ghost s0 = self.ranges@;
        self.ranges.insert(p, range);
        proof {
            vstd::seq_lib::to_multiset_insert(s0, p as int, range);
            assert forall|i: int, j: int| 0 <= i < j < self.ranges@.len() implies range_le(
                #[trigger] self.ranges@[i],
                #[trigger] self.ranges@[j],
            ) by {
                if j < p {
                    assert(self.ranges@[i] == s0[i] && self.ranges@[j] == s0[j]);
                } else if j == p {
                    assert(self.ranges@[i] == s0[i]);
                } else if i < p {
                    assert(self.ranges@[i] == s0[i] && self.ranges@[j] == s0[j - 1]);
                } else if i == p {
                    assert(self.ranges@[j] == s0[j - 1]);
                } else {
                    assert(self.ranges@[i] == s0[i - 1] && self.ranges@[j] == s0[j - 1]);
                }
            }
            assert forall|i: int| 0 <= i < self.ranges@.len() implies range_fits(
                #[trigger] self.ranges@[i],
            ) by {
                if i < p {
                    assert(self.ranges@[i] == s0[i]);
                } else if i > p {
                    assert(self.ranges@[i] == s0[i - 1]);
                }
            }
        }
        if increment_size {
            self.size = self.size.wrapping_add(1);
            proof {
                assert(self.size == wrap_add(old(self).size, 1));
            }
        }
    }

    fn insert_into_queue(&mut self, range: FreeRange)
        requires
            old(self).wf(),
            range_fits(range),
        ensures
            final(self).wf(),
            final(self).ranges == old(self).ranges,
            final(self).metrics.chunk_free_bytes@ == metrics_after_insert(
                old(self).metrics.chunk_free_bytes@,
                range,
            ),
            final(self).furthest_free_range == old(self).furthest_free_range,
            final(self).size == wrap_add(old(self).size, 1),
            final(self).allocation_strategy == old(self).allocation_strategy,
            match old(self).current_furthest {
                Some(c) => if further(range, c) {
                    &&& final(self).pending_ranges@ == old(self).pending_ranges@.push(c)
                    &&& final(self).current_furthest == Some(range)
                } else {
                    &&& final(self).pending_ranges@ == old(self).pending_ranges@.push(range)
                    &&& final(self).current_furthest == Some(c)
                },
                None => {
                    &&& final(self).pending_ranges@ == old(self).pending_ranges@
                    &&& final(self).current_furthest == Some(range)
                },
            },
    {
        self.update_metrics_on_insert(&range);
        match self.current_furthest {
            Some(current) => {
                if range.is_further_than(&current) {
                    self.pending_ranges.push_back(current);
                    self.current_furthest = Some(range);
                } else {
                    self.pending_ranges.push_back(range);
                }
            },
            None => {
                self.current_furthest = Some(range);
            },
        }
        self.size = self.size.wrapping_add(1);
        assert(self.size == wrap_add(old(self).size, 1));
        proof {
            let p0 = old(self).pending_ranges@;
            assert(all_fit(p0));
            assert forall|i: int| 0 <= i < self.pending_ranges@.len() implies range_fits(
                #[trigger] self.pending_ranges@[i],
            ) by {
                if i < p0.len() {
                    assert(self.pending_ranges@[i] == p0[i]);
                } else {
                    match old(self).current_furthest {
                        Some(c) => {
                            assert(opt_seq(old(self).current_furthest)[0] == c);
                        },
                        None => {},
                    }
                }
            }
            match self.current_furthest {
                Some(c) => {
                    assert(opt_seq(self.current_furthest) =~= seq![c]);
                    if c != range {
                        assert(opt_seq(old(self).current_furthest)[0] == c);
                    }
                },
                None => {},
            }
        }
    }

    /// Hands a free range to the list: into best-fit order when recycling,
    /// into the queue when appending.
    pub fn insert(&mut self, range: FreeRange)
        requires
            old(self).wf(),
            range_fits(range),
        ensures
            final(self).wf(),
            final(self).allocation_strategy == old(self).allocation_strategy,
            final(self).metrics.chunk_free_bytes@ == metrics_after_insert(
                old(self).metrics.chunk_free_bytes@,
                range,
            ),
            final(self).size == wrap_add(old(self).size, 1),
            old(self).allocation_strategy is WithMemoryRecycling ==> {
                &&& final(self).ranges@.to_multiset() == old(self).ranges@.to_multiset().insert(
                    range,
                )
                &&& final(self).furthest_free_range == insert_furthest(
                    old(self).furthest_free_range,
                    range,
                )
                &&& final(self).pending_ranges == old(self).pending_ranges
                &&& final(self).current_furthest == old(self).current_furthest
            },
            old(self).allocation_strategy is AppendOnly ==> {
                &&& final(self).ranges == old(self).ranges
                &&& final(self).furthest_free_range == old(self).furthest_free_range
                &&& match old(self).current_furthest {
                    Some(c) => if further(range, c) {
                        &&& final(self).pending_ranges@ == old(self).pending_ranges@.push(c)
                        &&& final(self).current_furthest == Some(range)
                    } else {
                        &&& final(self).pending_ranges@ == old(self).pending_ranges@.push(range)
                        &&& final(self).current_furthest == Some(c)
                    },
                    None => {
                        &&& final(self).pending_ranges@ == old(self).pending_ranges@
                        &&& final(self).current_furthest == Some(range)
                    },
                }
            },
    {
        match self.allocation_strategy {
            AllocationStrategy::WithMemoryRecycling => {
                self.insert_into_skiplist_internal(range, true);
            },
            AllocationStrategy::AppendOnly => {
                self.insert_into_queue(range);
            },
        }
    }

    /// Switches the strategy; leaving append-only mode moves every parked
    /// range (the queue first, then the current furthest) into best-fit order.
    pub fn change_strategy(&mut self, new_strategy: AllocationStrategy)
        requires
            old(self).wf(),
        ensures
            final(self).wf(),
            final(self).allocation_strategy == new_strategy,
            final(self).size == old(self).size,
            ({
                let drained = old(self).pending_ranges@ + opt_seq(old(self).current_furthest);
                if old(self).allocation_strategy is AppendOnly
                    && new_strategy is WithMemoryRecycling {
                    &&& final(self).ranges@.to_multiset() == old(self).ranges@.to_multiset().add(
                        drained.to_multiset(),
                    )
                    &&& final(self).metrics.chunk_free_bytes@ == fold_metrics(
                        old(self).metrics.chunk_free_bytes@,
                        drained,
                    )
                    &&& final(self).furthest_free_range == fold_furthest(
                        old(self).furthest_free_range,
                        drained,
                    )
                    &&& final(self).pending_ranges@ == Seq::<FreeRange>::empty()
                    &&& final(self).current_furthest is None
                } else {
                    &&& final(self).ranges == old(self).ranges
                    &&& final(self).metrics == old(self).metrics
                    &&& final(self).furthest_free_range == old(self).furthest_free_range
                    &&& final(self).pending_ranges == old(self).pending_ranges
                    &&& final(self).current_furthest == old(self).current_furthest
                }
            }),
    {
        let leaving_append = match self.allocation_strategy {
            AllocationStrategy::AppendOnly => true,
            AllocationStrategy::WithMemoryRecycling => false,
        };
        let entering_recycling = match new_strategy {
            AllocationStrategy::AppendOnly => false,
            AllocationStrategy::WithMemoryRecycling => true,
        };
        if leaving_append && entering_recycling {
            let ghost c0 = old(self).current_furthest;
            let ghost m0 = old(self).metrics.chunk_free_bytes@;
            let ghost f0 = old(self).furthest_free_range;
            let ghost r0 = old(self).ranges@.to_multiset();
            let ghost p0 = old(self).pending_ranges@;
            let ghost mut k: int = 0;
            proof {
                broadcast use vstd::multiset::group_multiset_axioms;

                assert(p0.take(0) =~= Seq::<FreeRange>::empty());
                vstd::seq_lib::to_multiset_len(p0.take(0));
                vstd::multiset::lemma_multiset_empty_len(p0.take(0).to_multiset());
                assert(p0.take(0).to_multiset() =~= Multiset::empty());
                assert(r0.add(p0.take(0).to_multiset()) =~= r0);
                assert(p0.subrange(0, p0.len() as int) =~= p0);
            }
            while self.pending_ranges.len() > 0
                invariant
                    self.wf(),
                    all_fit(p0),
                    0 <= k <= p0.len(),
                    self.pending_ranges@ == p0.subrange(k, p0.len() as int),
                    self.current_furthest == c0,
                    self.ranges@.to_multiset() == r0.add(p0.take(k).to_multiset()),
                    self.metrics.chunk_free_bytes@ == fold_metrics(m0, p0.take(k)),
                    self.furthest_free_range == fold_furthest(f0, p0.take(k)),
                    self.size == old(self).size,
                    self.allocation_strategy == old(self).allocation_strategy,
                decreases self.pending_ranges@.len(),
            {
                let popped = self.pending_ranges.pop_front();
                if let Some(range) = popped {
                    proof {
                        assert(range == p0[k]);
                        assert(range_fits(p0[k]));
                        assert(all_fit(self.pending_ranges@)) by {
                            assert forall|i: int| 0 <= i < self.pending_ranges@.len() implies range_fits(
                                #[trigger] self.pending_ranges@[i],
                            ) by {
                                assert(self.pending_ranges@[i] == p0[k + 1 + i]);
                            }
                        }
                    }
                    self.insert_into_skiplist_internal(range, false);
                    proof {
                        broadcast use vstd::multiset::group_multiset_axioms;

                        assert(p0.take(k + 1).drop_last() =~= p0.take(k));
                        assert(p0.take(k + 1) =~= p0.take(k).push(range));
                        vstd::seq_lib::to_multiset_build(p0.take(k), range);
                        assert(r0.add(p0.take(k).to_multiset()).insert(range) =~= r0.add(
                            p0.take(k + 1).to_multiset(),
                        ));
                        k = k + 1;
                    }
                }
            }
            proof {
                assert(p0.take(k) =~= p0);
            }
            let last = self.current_furthest.take();
            if let Some(range) = last {
                assert(opt_seq(c0)[0] == range);
                self.insert_into_skiplist_internal(range, false);
            }
            proof {
                broadcast use vstd::multiset::group_multiset_axioms;

                let drained = p0 + opt_seq(c0);
                match c0 {
                    Some(r) => {
                        assert(drained.drop_last() =~= p0);
                        vstd::seq_lib::to_multiset_build(p0, r);
                        assert(drained =~= p0.push(r));
                        assert(r0.add(p0.to_multiset()).insert(r) =~= r0.add(
                            drained.to_multiset(),
                        ));
                    },
                    None => {
                        assert(drained =~= p0);
                    },
                }
            }
        }
        self.allocation_strategy = new_strategy;
    }

    /// The range to serve a request of `required_size` elements from: in
    /// recycling mode the first fitting range in best-fit order, in
    /// append-only mode the current furthest range if it is large enough.
    pub fn find_best_fit(&self, required_size: usize) -> (r: Option<FreeRange>)
        requires
            self.wf(),
        ensures
            self.allocation_strategy is WithMemoryRecycling ==> best_fit_of(
                self.ranges@,
                required_size,
                r,
            ),
            self.allocation_strategy is AppendOnly ==> r == (match self.current_furthest {
                Some(c) => if c.length >= required_size {
                    Some(c)
                } else {
                    None
                },
                None => None,
            }),
            self.allocation_strategy is WithMemoryRecycling && (forall|i: int|
                0 <= i < self.ranges@.len() ==> (#[trigger] self.ranges@[i]).length > 0) ==> {
                &&& (r is None <==> forall|i: int|
                    0 <= i < self.ranges@.len() ==> (#[trigger] self.ranges@[i]).length < required_size)
                &&& (r matches Some(x) ==> self.ranges@.contains(x) && x.length >= required_size
                    && forall|i: int|
                    0 <= i < self.ranges@.len() && (#[trigger] self.ranges@[i]).length >= required_size
                        ==> range_le(x, self.ranges@[i]))
            },
    {
        match self.allocation_strategy {
            AllocationStrategy::WithMemoryRecycling => {
                let r = self.find_best_fit_skiplist(required_size);
                proof {
                    if forall|i: int| 0 <= i < self.ranges@.len() ==> (#[trigger] self.ranges@[i]).length > 0 {
                        lemma_best_fit_least(self.ranges@, required_size, r);
                    }
                }
                r
            },
            AllocationStrategy::AppendOnly => self.find_best_fit_queue(required_size),
        }
    }

    fn find_best_fit_skiplist(&self, required_size: usize) -> (r: Option<FreeRange>)
        requires
            self.wf(),
        ensures
            best_fit_of(self.ranges@, required_size, r),
    {
        let mut i: usize = 0;
        while i < self.ranges.len() && self.ranges[i].length < required_size
            invariant
                i <= self.ranges@.len(),
                forall|j: int| 0 <= j < i ==> (#[trigger] self.ranges@[j]).length < required_size,
            decreases self.ranges@.len() - i,
        {
            i = i + 1;
        }
        if i < self.ranges.len() {
            let found = self.ranges[i];
            proof {
                assert(first_fit(self.ranges@, required_size, i as int));
                assert forall|k: int| first_fit(self.ranges@, required_size, k) implies k == i by {
                    if k < i {
                        assert(self.ranges@[k].length < required_size);
                    } else if k > i {
                        assert(self.ranges@[i as int].length < required_size);
                    }
                }
            }
            if found.length >= required_size && found.length > 0 {
                Some(found)
            } else {
                None
            }
        } else {
            proof {
                assert forall|k: int| !first_fit(self.ranges@, required_size, k) by {
                    if 0 <= k < self.ranges@.len() {
                        assert(self.ranges@[k].length < required_size);
                    }
                }
            }
            None
        }
    }

    fn find_best_fit_queue(&self, required_size: usize) -> (r: Option<FreeRange>)
        ensures
            r == (match self.current_furthest {
                Some(c) => if c.length >= required_size {
                    Some(c)
                } else {
                    None
                },
                None => None,
            }),
    {
        match self.current_furthest {
            Some(range) => if range.length >= required_size {
                Some(range)
            } else {
                None
            },
            None => None,
        }
    }

    /// In append-only mode, cuts `required_size` elements off the front of
    /// the current furthest range if it is large enough; the rest stays
    /// current. Nothing happens in recycling mode.
    pub fn allocate_from_furthest(&mut self, required_size: usize) -> (r: Option<FreeRange>)
        requires
            old(self).wf(),
        ensures
            final(self).wf(),
            final(self).ranges == old(self).ranges,
            final(self).metrics == old(self).metrics,
            final(self).size == old(self).size,
            final(self).furthest_free_range == old(self).furthest_free_range,
            final(self).allocation_strategy == old(self).allocation_strategy,
            final(self).pending_ranges == old(self).pending_ranges,
            match (old(self).allocation_strategy, old(self).current_furthest) {
                (AllocationStrategy::AppendOnly, Some(f)) => if f.length >= required_size {
                    &&& r == Some(f.split_spec(required_size).0)
                    &&& final(self).current_furthest == f.split_spec(required_size).1
                } else {
                    &&& r is None
                    &&& final(self).current_furthest == old(self).current_furthest
                },
                _ => {
                    &&& r is None
                    &&& final(self).current_furthest == old(self).current_furthest
                },
            },
    {
        match self.allocation_strategy {
            AllocationStrategy::WithMemoryRecycling => {
                return None;
            },
            AllocationStrategy::AppendOnly => {},
        }
        match self.current_furthest {
            Some(furthest) => {
                if furthest.length >= required_size {
                    proof {
                        assert(opt_seq(self.current_furthest)[0] == furthest);
                    }
                    let (allocated, remainder) = furthest.split(required_size);
                    self.current_furthest = remainder;
                    proof {
                        match remainder {
                            Some(rem) => {
                                assert(opt_seq(remainder) =~= seq![rem]);
                            },
                            None => {
                                assert(opt_seq(remainder) =~= Seq::<FreeRange>::empty());
                            },
                        }
                    }
                    Some(allocated)
                } else {
                    None
                }
            },
            None => None,
        }
    }

    /// In append-only mode, makes `range` (the rest of a new chunk) the
    /// current furthest range and parks the previous one. Nothing happens in
    /// recycling mode.
    pub fn set_new_furthest(&mut self, range: FreeRange)
        requires
            old(self).wf(),
            range_fits(range),
        ensures
            final(self).wf(),
            final(self).ranges == old(self).ranges,
            final(self).furthest_free_range == old(self).furthest_free_range,
            final(self).allocation_strategy == old(self).allocation_strategy,
            old(self).allocation_strategy is WithMemoryRecycling ==> *final(self) == *old(self),
            old(self).allocation_strategy is AppendOnly ==> {
                &&& final(self).pending_ranges@ == old(self).pending_ranges@ + opt_seq(
                    old(self).current_furthest,
                )
                &&& final(self).current_furthest == Some(range)
                &&& final(self).metrics.chunk_free_bytes@ == metrics_after_insert(
                    old(self).metrics.chunk_free_bytes@,
                    range,
                )
                &&& final(self).size == wrap_add(old(self).size, 1)
            },
    {
        match self.allocation_strategy {
            AllocationStrategy::WithMemoryRecycling => {
                return ;
            },
            AllocationStrategy::AppendOnly => {},
        }
        let ghost p0 = self.pending_ranges@;
        let previous = self.current_furthest.take();
        if let Some(current) = previous {
            self.pending_ranges.push_back(current);
            proof {
                assert(opt_seq(old(self).current_furthest)[0] == current);
                assert(self.pending_ranges@ =~= p0 + opt_seq(old(self).current_furthest));
            }
        } else {
            proof {
                assert(self.pending_ranges@ =~= p0 + opt_seq(old(self).current_furthest));
            }
        }
        self.current_furthest = Some(range);
        self.update_metrics_on_insert(&range);
        self.size = self.size.wrapping_add(1);
        proof {
            assert(self.size == wrap_add(old(self).size, 1));
            assert(opt_seq(self.current_furthest) =~= seq![range]);
            assert forall|i: int| 0 <= i < self.pending_ranges@.len() implies range_fits(
                #[trigger] self.pending_ranges@[i],
            ) by {
                if i < p0.len() {
                    assert(self.pending_ranges@[i] == p0[i]);
                } else {
                    assert(self.pending_ranges@[i] == opt_seq(old(self).current_furthest)[0]);
                }
            }
        }
    }

    /// Takes `range` out of best-fit order; `true` if it was there.
    pub fn remove(&mut self, range: &FreeRange) -> (found: bool)
        requires
            old(self).wf(),
        ensures
            final(self).wf(),
            found == old(self).ranges@.contains(*range),
            final(self).allocation_strategy == old(self).allocation_strategy,
            final(self).pending_ranges == old(self).pending_ranges,
            final(self).current_furthest == old(self).current_furthest,
            found ==> {
                &&& final(self).ranges@.to_multiset() == old(self).ranges@.to_multiset().remove(
                    *range,
                )
                &&& final(self).metrics.chunk_free_bytes@ == metrics_after_removal(
                    old(self).metrics.chunk_free_bytes@,
                    *range,
                )
                &&& final(self).furthest_free_range == (if *range
                    == old(self).furthest_free_range {
                    furthest_in(final(self).ranges@)
                } else {
                    old(self).furthest_free_range
                })
                &&& final(self).size == wrap_sub(old(self).size, 1)
            },
            !found ==> *final(self) == *old(self),
    {
        let p = self.lower_bound(range);
        if p < self.ranges.len() && self.ranges[p] == *range {
            let ghost s0 = self.ranges@;
            self.ranges.remove(p);
            proof {
                vstd::seq_lib::to_multiset_remove(s0, p as int);
                assert(s0.contains(*range));
                assert forall|i: int, j: int| 0 <= i < j < self.ranges@.len() implies range_le(
                    #[trigger] self.ranges@[i],
                    #[trigger] self.ranges@[j],
                ) by {
                    if j < p {
                    } else if i < p {
                        assert(self.ranges@[j] == s0[j + 1]);
                    } else {
                        assert(self.ranges@[i] == s0[i + 1] && self.ranges@[j] == s0[j + 1]);
                    }
                }
                assert forall|i: int| 0 <= i < self.ranges@.len() implies range_fits(
                    #[trigger] self.ranges@[i],
                ) by {
                    if i >= p {
                        assert(self.ranges@[i] == s0[i + 1]);
                    }
                }
            }
            self.update_metrics_on_removal(range);
            self.size = self.size.wrapping_sub(1);
            proof {
                assert(self.size == wrap_sub(old(self).size, 1));
            }
            true
        } else {
            proof {
                if self.ranges@.contains(*range) {
                    let k = choose|k: int| 0 <= k < self.ranges@.len() && self.ranges@[k] == *range;
                    if k < p {
                        assert(range_lt(self.ranges@[k], *range));
                    } else {
                        assert(range_le(*range, self.ranges@[k]));
                        assert(range_le(self.ranges@[p as int], self.ranges@[k]));
                    }
                }
            }
            false
        }
    }
}

} // verus!
