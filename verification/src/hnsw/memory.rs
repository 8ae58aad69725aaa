//! Chunks of tape memory and the free ranges within them.

use core::ops::Deref;
use vstd::prelude::*;

verus! {

/// How freed tape memory is handed out again.
#[derive(Debug, Clone, Copy)]
pub enum AllocationStrategy {
    /// Freed ranges are recycled best-fit (serving mixed workloads).
    WithMemoryRecycling,
    /// Memory is handed out from the furthest free range only (bulk builds).
    AppendOnly,
}

/// A run of `length` free elements at `offset` in chunk `chunk_index`.
#[derive(Debug, Clone, Copy, PartialEq, Eq, Structural)]
pub struct FreeRange {
    pub chunk_index: u16,
    pub offset: usize,
    pub length: usize,
}

/// Order of free ranges: by length, then chunk, then offset.
pub open spec fn range_lt(a: FreeRange, b: FreeRange) -> bool {
    a.length < b.length || (a.length == b.length && (a.chunk_index < b.chunk_index || (
    a.chunk_index == b.chunk_index && a.offset < b.offset)))
}

/// Whether `a` lies further along the tape than `b` (by chunk, then offset).
pub open spec fn further(a: FreeRange, b: FreeRange) -> bool {
    a.chunk_index > b.chunk_index || (a.chunk_index == b.chunk_index && a.offset > b.offset)
}

/// Wrapping addition of counters.
pub open spec fn wrap_add(a: usize, b: usize) -> usize {
    if a + b <= usize::MAX {
        (a + b) as usize
    } else {
        (a + b - usize::MAX - 1) as usize
    }
}

/// Wrapping subtraction of counters.
pub open spec fn wrap_sub(a: usize, b: usize) -> usize {
    if a >= b {
        (a - b) as usize
    } else {
        (a - b + usize::MAX + 1) as usize
    }
}

impl FreeRange {
    /// The two parts that `split` produces.
    pub open spec fn split_spec(self, size: usize) -> (FreeRange, Option<FreeRange>) {
        if self.length <= size {
            (self, None)
        } else {
            (
                FreeRange { chunk_index: self.chunk_index, offset: self.offset, length: size },
                Some(
                    FreeRange {
                        chunk_index: self.chunk_index,
                        offset: (self.offset + size) as usize,
                        length: (self.length - size) as usize,
                    },
                ),
            )
        }
    }

    /// Cuts `size` elements off the front; the rest, if any, is returned too.
    pub fn split(self, size: usize) -> (r: (FreeRange, Option<FreeRange>))
        requires
            self.length > size ==> self.offset + size <= usize::MAX,
        ensures
            r == self.split_spec(size),
    {
        if self.length <= size {
            (self, None)
        } else {
            (
                FreeRange { chunk_index: self.chunk_index, offset: self.offset, length: size },
                Some(
                    FreeRange {
                        chunk_index: self.chunk_index,
                        offset: self.offset + size,
                        length: self.length - size,
                    },
                ),
            )
        }
    }

    /// Strict comparison in the order of `range_lt`.
    pub fn less_than(&self, other: &FreeRange) -> (b: bool)
        ensures
            b == range_lt(*self, *other),
    {
        self.length < other.length || (self.length == other.length && (self.chunk_index
            < other.chunk_index || (self.chunk_index == other.chunk_index && self.offset
            < other.offset)))
    }

    /// Whether `self` lies further along the tape than `other`.
    pub fn is_further_than(&self, other: &FreeRange) -> (b: bool)
        ensures
            b == further(*self, *other),
    {
        self.chunk_index > other.chunk_index || (self.chunk_index == other.chunk_index
            && self.offset > other.offset)
    }
}

/// Free bytes counted per chunk.
#[derive(Debug)]
pub struct FragmentationMetrics {
    pub chunk_free_bytes: Vec<usize>,
}

/// Sum of a sequence of counters.
pub open spec fn seq_sum(s: Seq<usize>) -> int
    decreases s.len(),
{
    if s.len() == 0 {
        0
    } else {
        seq_sum(s.drop_last()) + s.last()
    }
}

impl FragmentationMetrics {
    /// Metrics with `num_chunks` chunks counted at zero.
    pub fn new(num_chunks: usize) -> (m: Self)
        ensures
            m.chunk_free_bytes@ == Seq::new(num_chunks as nat, |i: int| 0usize),
    {
        let mut v: Vec<usize> = Vec::new();
        let mut i: usize = 0;
        while i < num_chunks
            invariant
                i <= num_chunks,
                v@ == Seq::new(i as nat, |j: int| 0usize),
            decreases num_chunks - i,
        {
            v.push(0);
            i = i + 1;
            assert(v@ =~= Seq::new(i as nat, |j: int| 0usize));
        }
        FragmentationMetrics { chunk_free_bytes: v }
    }

    /// The total of the free bytes counted in all chunks.
    pub fn total_free_bytes(&self) -> (t: usize)
        requires
            seq_sum(self.chunk_free_bytes@) <= usize::MAX,
        ensures
            t == seq_sum(self.chunk_free_bytes@),
    {
        let mut total: usize = 0;
        let mut i: usize = 0;
        while i < self.chunk_free_bytes.len()
            invariant
                i <= self.chunk_free_bytes@.len(),
                total == seq_sum(self.chunk_free_bytes@.take(i as int)),
                seq_sum(self.chunk_free_bytes@) <= usize::MAX,
            decreases self.chunk_free_bytes@.len() - i,
        {
            proof {
                assert(self.chunk_free_bytes@.take(i + 1).drop_last() =~= self.chunk_free_bytes@.take(i as int));
                lemma_seq_sum_prefix(self.chunk_free_bytes@, i + 1);
            }
            total = total + self.chunk_free_bytes[i];
            i = i + 1;
        }
        assert(self.chunk_free_bytes@.take(i as int) =~= self.chunk_free_bytes@);
        total
    }
}

/// A prefix sums to no more than the whole.
pub proof fn lemma_seq_sum_prefix(s: Seq<usize>, k: int)
    requires
        0 <= k <= s.len(),
    ensures
        seq_sum(s.take(k)) <= seq_sum(s),
    decreases s.len() - k,
{
    if k < s.len() {
        lemma_seq_sum_prefix(s, k + 1);
        assert(s.take(k + 1).drop_last() =~= s.take(k));
    } else {
        assert(s.take(k) =~= s);
    }
}

/// A fixed-size block of tape memory.
#[derive(Debug)]
pub struct AlignedChunk<T, const CHUNK_SIZE: usize> {
    pub data: [T; CHUNK_SIZE],
}

impl<T: Copy + Default, const CHUNK_SIZE: usize> AlignedChunk<T, CHUNK_SIZE> {
    /// A chunk filled with `T::default()`.
    pub fn new() -> (c: Self)
        ensures
            c.data@.len() == CHUNK_SIZE,
            forall|i: int| 0 <= i < CHUNK_SIZE ==> #[trigger] c.data@[i] == c.data@[0],
    {
        let d = T::default();
        AlignedChunk { data: [d; CHUNK_SIZE] }
    }
}

impl<T, const CHUNK_SIZE: usize> Deref for AlignedChunk<T, CHUNK_SIZE> {
    type Target = [T; CHUNK_SIZE];

    fn deref(&self) -> (r: &[T; CHUNK_SIZE])
        ensures
            *r == self.data,
    {
        &self.data
    }
}

} // verus!
