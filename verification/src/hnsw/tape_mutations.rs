//! Neighbor edits of graph nodes, applied to a tape one by one.

use core::marker::PhantomData;
use vstd::prelude::*;

use crate::hnsw::key::KeySerialization;
use crate::hnsw::node_id::{empty_neighbor, NodeId};
use crate::hnsw::tape::{empty_id, lemma_empty_id, GraphTape};

verus! {

/// Why a neighbor edit could not be applied.
#[derive(Debug, Clone, Copy, PartialEq, Eq)]
pub enum MutationError {
    NeighborNotFound { node_id: NodeId, level: u8, neighbor: NodeId },
    NoEmptySlots { node_id: NodeId, level: u8 },
}

/// A batch of neighbor edits.
pub enum TapeMutations {
    /// Edits that may be applied in any order.
    Unordered(Vec<TapeMutation>),
}

/// One neighbor edit of one level of one node.
#[derive(Debug, Clone, Copy)]
pub enum TapeMutation {
    /// Replace `old` by `new`.
    Swap { node: NodeId, level: u8, old: NodeId, new: NodeId },
    /// Add `neighbor` in a free slot.
    Add { node: NodeId, level: u8, neighbor: NodeId },
    /// Remove `neighbor`.
    Drop { node: NodeId, level: u8, neighbor: NodeId },
}

/// The edits of a batch, in order.
pub open spec fn flattened(mutations: TapeMutations) -> Seq<TapeMutation> {
    match mutations {
        TapeMutations::Unordered(v) => v@,
    }
}

/// The swap that an edit performs.
pub open spec fn as_swap(m: TapeMutation) -> (NodeId, u8, NodeId, NodeId) {
    match m {
        TapeMutation::Swap { node, level, old, new } => (node, level, old, new),
        TapeMutation::Add { node, level, neighbor } => (node, level, empty_id(), neighbor),
        TapeMutation::Drop { node, level, neighbor } => (node, level, neighbor, empty_id()),
    }
}

/// How applying edit `m` to `before` gives `after` and the result `r`.
/// An edit of a node shorter than a key changes nothing.
pub open spec fn applied<K: KeySerialization, const CHUNK_SIZE: usize>(
    before: GraphTape<K, CHUNK_SIZE>,
    m: TapeMutation,
    after: GraphTape<K, CHUNK_SIZE>,
    r: Result<(), MutationError>,
) -> bool {
    let (node, level, old, new) = as_swap(m);
    let done = before.keyed(node) && before.swapped_node(slot_of_id(node), level, old, new) is Some;
    &&& before.keyed(node) ==> before.swap_outcome(after, node, level, old, new, done)
    &&& !before.keyed(node) ==> after == before
    &&& r == match m {
        TapeMutation::Swap { .. } => Ok(()),
        TapeMutation::Add { node, level, .. } => if done {
            Ok(())
        } else {
            Err(MutationError::NoEmptySlots { node_id: node, level })
        },
        TapeMutation::Drop { node, level, neighbor } => if done {
            Ok(())
        } else {
            Err(MutationError::NeighborNotFound { node_id: node, level, neighbor })
        },
    }
}

/// `states` are the tapes from `start` to `end` while edits `ms[..k]`
/// succeed one after the other; the batch result `r` is `Ok` where all
/// edits succeeded, or the error of edit `k`, which left its tape unchanged.
pub open spec fn ran<K: KeySerialization, const CHUNK_SIZE: usize>(
    start: GraphTape<K, CHUNK_SIZE>,
    end: GraphTape<K, CHUNK_SIZE>,
    ms: Seq<TapeMutation>,
    states: Seq<GraphTape<K, CHUNK_SIZE>>,
    k: int,
    r: Result<(), MutationError>,
) -> bool {
    &&& 0 <= k <= ms.len()
    &&& states.len() == k + 1
    &&& states[0] == start
    &&& states[k] == end
    &&& forall|i: int| 0 <= i < k ==> applied(#[trigger] states[i], ms[i], states[i + 1], Ok(()))
    &&& r is Ok ==> k == ms.len()
    &&& r is Err ==> k < ms.len() && applied(states[k], ms[k], states[k], r)
}

/// The table slot of an identifier.
pub open spec fn slot_of_id(id: NodeId) -> int {
    crate::hnsw::tape::slot_of(id)
}

/// Applies a batch of edits to a tape.
pub trait TapeMutator<K: KeySerialization, const CHUNK_SIZE: usize> {
    /// Applies the edits in order and stops at the first that fails.
    fn apply_mutations(tape: &mut GraphTape<K, CHUNK_SIZE>, mutations: TapeMutations) -> (r: Result<
        (),
        MutationError,
    >)
        requires
            old(tape).wf(),
        ensures
            final(tape).wf(),
            exists|states: Seq<GraphTape<K, CHUNK_SIZE>>, k: int|
                #[trigger] ran(*old(tape), *final(tape), flattened(mutations), states, k, r),
    ;
}

/// Applies edits one after the other.
pub struct SequentialMutator<K: KeySerialization, const CHUNK_SIZE: usize> {
    pub _phantom: PhantomData<K>,
}

impl<K: KeySerialization, const CHUNK_SIZE: usize> SequentialMutator<K, CHUNK_SIZE> {
    /// Applies one edit: a swap always succeeds as a mutation, an addition
    /// fails where no slot is free, a removal where the neighbor is missing.
    pub fn apply(tape: &mut GraphTape<K, CHUNK_SIZE>, mutation: TapeMutation) -> (r: Result<
        (),
        MutationError,
    >)
        requires
            old(tape).wf(),
        ensures
            final(tape).wf(),
            applied(*old(tape), mutation, *final(tape), r),
    {
        let e = empty_neighbor();
        proof {
            lemma_empty_id(e);
        }
        match mutation {
            TapeMutation::Swap { node: node_id, level, old: old_neighbor, new: new_neighbor } => {
                if tape.node_keyed(&node_id) {
                    tape.swap_neighbor(node_id, level, old_neighbor, new_neighbor);
                }
                Ok(())
            },
            TapeMutation::Add { node: node_id, level, neighbor } => {
                if tape.node_keyed(&node_id) && tape.swap_neighbor(
                    node_id,
                    level,
                    e,
                    neighbor,
                ) {
                    Ok(())
                } else {
                    Self::diagnose_add_neighbor_failure(tape, node_id, level)
                }
            },
            TapeMutation::Drop { node: node_id, level, neighbor } => {
                if tape.node_keyed(&node_id) && tape.swap_neighbor(
                    node_id,
                    level,
                    neighbor,
                    e,
                ) {
                    Ok(())
                } else {
                    Self::diagnose_drop_neighbor_failure(tape, node_id, level, neighbor)
                }
            },
        }
    }

    /// The error of an addition that found no free slot.
    pub fn diagnose_add_neighbor_failure(
        _tape: &GraphTape<K, CHUNK_SIZE>,
        node_id: NodeId,
        level: u8,
    ) -> (r: Result<(), MutationError>)
        ensures
            r == Err::<(), MutationError>(MutationError::NoEmptySlots { node_id, level }),
    {
        Err(MutationError::NoEmptySlots { node_id, level })
    }

    /// The error of a removal that did not find the neighbor.
    pub fn diagnose_drop_neighbor_failure(
        _tape: &GraphTape<K, CHUNK_SIZE>,
        node_id: NodeId,
        level: u8,
        neighbor: NodeId,
    ) -> (r: Result<(), MutationError>)
        ensures
            r == Err::<(), MutationError>(
                MutationError::NeighborNotFound { node_id, level, neighbor },
            ),
    {
        Err(MutationError::NeighborNotFound { node_id, level, neighbor })
    }

    /// The edits of a batch, in order.
    pub fn flatten(mutations: TapeMutations) -> (v: Vec<TapeMutation>)
        ensures
            v@ == flattened(mutations),
    {
        match mutations {
            TapeMutations::Unordered(mutations) => mutations,
        }
    }
}

impl<K: KeySerialization, const CHUNK_SIZE: usize> TapeMutator<K, CHUNK_SIZE> for SequentialMutator<
    K,
    CHUNK_SIZE,
> {
    fn apply_mutations(tape: &mut GraphTape<K, CHUNK_SIZE>, mutations: TapeMutations) -> (r: Result<
        (),
        MutationError,
    >) {
        let ghost ms = flattened(mutations);
        let list = Self::flatten(mutations);
        let ghost mut states: Seq<GraphTape<K, CHUNK_SIZE>> = seq![*tape];
        let mut i: usize = 0;
        while i < list.len()
            invariant
                tape.wf(),
                list@ == ms,
                ms == flattened(mutations),
                i <= list@.len(),
                states.len() == i + 1,
                states[0] == *old(tape),
                states[i as int] == *tape,
                forall|j: int|
                    0 <= j < i ==> applied(#[trigger] states[j], ms[j], states[j + 1], Ok(())),
            decreases list@.len() - i,
        {
            let ghost before = *tape;
            let r = Self::apply(tape, list[i]);
            match r {
                Ok(()) => {
                    proof {
                        states = states.push(*tape);
                    }
                },
                Err(e) => {
                    proof {
                        assert(applied(before, ms[i as int], *tape, r));
                        assert(*tape == before);
                        assert(ran(*old(tape), *tape, ms, states, i as int, r));

                    }
                    return Err(e);
                },
            }
            i = i + 1;
        }
        assert(ran(*old(tape), *tape, ms, states, i as int, Ok(())));
        Ok(())
    }
}

} // verus!
