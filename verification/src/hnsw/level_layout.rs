//! Nodes whose level bytes lie level after level, each level a count byte
//! and its slots, and what a neighbor swap on such a node refuses, read
//! through the neighbors that a direct lookup gives.

use vstd::prelude::*;

use crate::hnsw::key::KeySerialization;
use crate::hnsw::node::{
    capacity_at, decode_level, encode_level, encode_levels_from, first_failing_level, id_from_bytes,
    lemma_id_from_bytes, lemma_level_roundtrip, lemma_no_failing_level, level_size_spec, wire_level,
};
use crate::hnsw::node_id::NodeId;
use crate::hnsw::tape::{
    appended, first_slot, lemma_first_slot_range, lemma_level_position_bounds, level_position,
    slot_bytes, slot_of, GraphTape,
};

verus! {

/// Where level `t` starts among the level bytes of a node: level 0 first,
/// every higher level after the level-0 block and the levels between.
pub open spec fn level_offset(t: int, cap0: nat, cap: nat) -> int {
    if t > 0 {
        (1 + 5 * cap0) + (t - 1) * (1 + 5 * cap)
    } else {
        0
    }
}

/// `rem` holds exactly levels `j..=top`, each a count byte no larger than
/// the level's capacity followed by the level's slots.
pub open spec fn levels_laid_out(rem: Seq<u8>, j: nat, top: nat, cap0: nat, cap: nat) -> bool
    decreases top - j,
{
    if j > top {
        false
    } else {
        let c = capacity_at(j as int, cap0, cap);
        &&& rem.len() >= 1 + 5 * c
        &&& rem[0] <= c
        &&& if j == top {
            rem.len() == 1 + 5 * c
        } else {
            levels_laid_out(rem.subrange((1 + 5 * c) as int, rem.len() as int), j + 1, top, cap0, cap)
        }
    }
}

/// The node stored for `slot` is a key followed by levels `0..=top`.
pub open spec fn node_laid_out<K: KeySerialization, const CHUNK_SIZE: usize>(
    t: GraphTape<K, CHUNK_SIZE>,
    slot: int,
    top: nat,
) -> bool {
    t.stored_node(slot) matches Some(node) && node.len() >= K::key_size() && levels_laid_out(
        node.subrange(K::key_size() as int, node.len() as int),
        0,
        top,
        t.max_connections_level0 as nat,
        t.max_connections as nat,
    )
}

/// The neighbors that the direct lookup reads at `level` of the node for
/// `slot`: those `neighbors_at_level` returns.
pub open spec fn level_neighbors<K: KeySerialization, const CHUNK_SIZE: usize>(
    t: GraphTape<K, CHUNK_SIZE>,
    slot: int,
    level: u8,
) -> Option<Seq<NodeId>> {
    match t.direct_level(slot, level) {
        None => None,
        Some((ci, start, count)) => Some(
            Seq::new(
                count as nat,
                |i: int| id_from_bytes(slot_bytes(t.chunk_data(ci as int), start as int, i)),
            ),
        ),
    }
}

/// One level further on, the offset grows by the size of the level.
proof fn lemma_level_offset_step(j: nat, cap0: nat, cap: nat)
    ensures
        level_offset((j + 1) as int, cap0, cap) == level_offset(j as int, cap0, cap) + level_size_spec(
            capacity_at(j as int, cap0, cap),
        ),
{
    let a: int = j as int;
    let w: int = 1 + 5 * (cap as int);
    assert(a * w == (a - 1) * w + w) by (nonlinear_arith);
    if j > 0 {
        assert(level_offset(a + 1, cap0, cap) == (1 + 5 * cap0) + a * w);
        assert(level_offset(a, cap0, cap) == (1 + 5 * cap0) + (a - 1) * w);
    } else {
        assert(level_offset(a + 1, cap0, cap) == (1 + 5 * cap0) + 0 * w);
    }
}

/// On laid-out levels, each level up to the top is found at its offset, and
/// none above it.
proof fn lemma_level_position_laid_out(
    rem: Seq<u8>,
    j: nat,
    top: nat,
    t: nat,
    cap0: nat,
    cap: nat,
    pos: nat,
)
    requires
        levels_laid_out(rem, j, top, cap0, cap),
        j <= t,
        pos >= level_offset(j as int, cap0, cap),
    ensures
        level_position(rem, j, t, cap0, cap, pos) == if t <= top {
            Some((pos + level_offset(t as int, cap0, cap) - level_offset(j as int, cap0, cap)) as nat)
        } else {
            None::<nat>
        },
    decreases top - j,
{
    let c = capacity_at(j as int, cap0, cap);
    let rest = rem.subrange((1 + 5 * c) as int, rem.len() as int);
    assert(decode_level(rem, c) is Some);
    if let Some((_, r)) = decode_level(rem, c) {
        assert(r == rest);
    }
    lemma_level_offset_step(j, cap0, cap);
    if j == t {
    } else if j == top {
        assert(rest.len() == 0);
    } else {
        assert(levels_laid_out(rest, j + 1, top, cap0, cap));
        assert(rest.len() > 0) by {
            reveal_with_fuel(levels_laid_out, 2);
        }
        lemma_level_position_laid_out(rest, j + 1, top, t, cap0, cap, pos + level_size_spec(c));
    }
}

/// The levels that the node writer encodes lie level after level: levels
/// `i..` of at most 256 levels, none of which the writer refuses, are laid
/// out up to the last.
pub proof fn lemma_encoded_levels_laid_out(levels: Seq<Seq<NodeId>>, i: int, cap0: nat, cap: nat)
    requires
        levels.len() <= 256,
        first_failing_level(levels, 0, cap0, cap) is None,
        0 <= i < levels.len(),
    ensures
        levels_laid_out(
            encode_levels_from(levels, i, cap0, cap),
            i as nat,
            (levels.len() - 1) as nat,
            cap0,
            cap,
        ),
    decreases levels.len() - i,
{
    let c = capacity_at(i, cap0, cap);
    let enc = encode_levels_from(levels, i, cap0, cap);
    let rest = encode_levels_from(levels, i + 1, cap0, cap);
    lemma_no_failing_level(levels, 0, i, cap0, cap);
    assert(wire_level(i) == i);
    assert(enc == encode_level(levels[i], c) + rest);
    lemma_level_roundtrip(levels[i], c, rest);
    if let Some((_, r)) = decode_level(enc, c) {
        assert(r == rest);
    }
    if i + 1 < levels.len() {
        lemma_encoded_levels_laid_out(levels, i + 1, cap0, cap);
    } else {
        assert(rest.len() == 0);
    }
}

/// A node appended with the bytes the node writer makes for a key and
/// levels (at most 256 levels, none refused, fewer than 2^16 bytes in all)
/// is laid out with levels `0..=levels.len() - 1`.
pub proof fn lemma_appended_laid_out<K: KeySerialization, const CHUNK_SIZE: usize>(
    before: GraphTape<K, CHUNK_SIZE>,
    after: GraphTape<K, CHUNK_SIZE>,
    node_id: NodeId,
    key: K,
    levels: Seq<Seq<NodeId>>,
)
    requires
        1 <= levels.len() <= 256,
        first_failing_level(
            levels,
            0,
            after.max_connections_level0 as nat,
            after.max_connections as nat,
        ) is None,
        ({
            let data = key.key_bytes() + encode_levels_from(
                levels,
                0,
                after.max_connections_level0 as nat,
                after.max_connections as nat,
            );
            data.len() < 0x10000 && appended(before, after, node_id, data)
        }),
    ensures
        node_laid_out(after, slot_of(node_id), (levels.len() - 1) as nat),
{
    let cap0 = after.max_connections_level0 as nat;
    let cap = after.max_connections as nat;
    let enc = encode_levels_from(levels, 0, cap0, cap);
    let data = key.key_bytes() + enc;
    K::lemma_key_bytes_len(key);
    assert(data.subrange(0, (data.len() % 0x10000) as int) =~= data);
    assert(data.subrange(K::key_size() as int, data.len() as int) =~= enc);
    lemma_encoded_levels_laid_out(levels, 0, cap0, cap);
}

/// Where the search finds no slot, no slot in the range holds the target.
proof fn lemma_first_slot_none(node: Seq<u8>, start: int, i: int, count: int, t: Seq<u8>)
    requires
        first_slot(node, start, i, count, t) is None,
    ensures
        forall|k: int| i <= k < count ==> slot_bytes(node, start, k) != t,
    decreases count - i,
{
    if i < count {
        lemma_first_slot_none(node, start, i + 1, count, t);
    }
}

/// A swap on a node laid out with levels `0..=top`, where `top` is within
/// the tape's height, is refused exactly when the level is above the top,
/// or a named old neighbor is not among the level's neighbors, or an empty
/// old neighbor would add a new one to a full level. Where the level is not
/// above the top, the direct lookup reads the level inside its chunk. By
/// the contract of `swap_neighbor`, a refused swap leaves the tape as it
/// was.
pub proof fn lemma_swap_refusal<K: KeySerialization, const CHUNK_SIZE: usize>(
    t: GraphTape<K, CHUNK_SIZE>,
    node_id: NodeId,
    level: u8,
    old: NodeId,
    new: NodeId,
    top: nat,
)
    requires
        t.wf(),
        node_laid_out(t, slot_of(node_id), top),
        top <= t.max_level,
    ensures
        level <= top ==> t.direct_level_in_chunk(slot_of(node_id), level) && level_neighbors(
            t,
            slot_of(node_id),
            level,
        ) is Some,
        t.swapped_node(slot_of(node_id), level, old, new) is None <==> {
            let act = level_neighbors(t, slot_of(node_id), level)->0;
            ||| level > top
            ||| (!old.is_zero() && !act.contains(old))
            ||| (old.is_zero() && !new.is_zero() && act.len() == capacity_at(
                level as int,
                t.max_connections_level0 as nat,
                t.max_connections as nat,
            ))
        },
        forall|after: GraphTape<K, CHUNK_SIZE>, ok: bool|
            #[trigger] t.swap_outcome(after, node_id, level, old, new, ok) ==> !ok ==> after == t,
{
    let slot = slot_of(node_id);
    let node = t.stored_node(slot)->0;
    let ks = K::key_size() as int;
    let lv = node.subrange(ks, node.len() as int);
    let cap0 = t.max_connections_level0 as nat;
    let cap = t.max_connections as nat;
    let (ci, co) = t.entry(slot)->0;
    let d = t.chunk_data(ci);
    lemma_level_position_laid_out(lv, 0, top, level as nat, cap0, cap, 0);
    if level as nat <= top {
        let lp = level_offset(level as int, cap0, cap);
        let c = capacity_at(level as int, cap0, cap);
        lemma_level_position_bounds(lv, 0, level as nat, cap0, cap, 0);
        let h = ks + lp;
        let count = node[h] as int;
        assert(lv[lp] == node[h]);
        assert(t.direct_header(slot, level) == co + 2 + h);
        assert(d[co + 2 + h] == node[h]);
        let start = co + 2 + h + 1;
        let act = level_neighbors(t, slot, level)->0;
        assert(act.len() == count);
        assert forall|i: int| 0 <= i < count implies slot_bytes(d, start, i) == slot_bytes(node, h + 1, i) by {
            assert(slot_bytes(d, start, i) =~= slot_bytes(node, h + 1, i));
        }
        assert forall|i: int| 0 <= i < count implies (#[trigger] act[i] == old) == (slot_bytes(
            node,
            h + 1,
            i,
        ) == old.0@) by {
            let sb = slot_bytes(node, h + 1, i);
            assert(act[i] == id_from_bytes(sb));
            lemma_id_from_bytes(old);
            if act[i] == old {
                assert(sb =~= old.0@);
            }
        }
        if !old.is_zero() {
            lemma_first_slot_range(node, h + 1, 0, count, old.0@);
            match first_slot(node, h + 1, 0, count, old.0@) {
                Some(k) => {
                    assert(act[k] == old);
                },
                None => {
                    lemma_first_slot_none(node, h + 1, 0, count, old.0@);
                    assert forall|i: int| 0 <= i < act.len() implies act[i] != old by {
                        assert(slot_bytes(node, h + 1, i) != old.0@);
                    }
                },
            }
        }
    }
}

/// A swap on an identifier beyond the offset table is always refused, and
/// so, by the contract of `swap_neighbor`, leaves the tape as it was.
pub proof fn lemma_swap_unknown_node<K: KeySerialization, const CHUNK_SIZE: usize>(
    t: GraphTape<K, CHUNK_SIZE>,
    node_id: NodeId,
    level: u8,
    old: NodeId,
    new: NodeId,
)
    requires
        slot_of(node_id) >= t.offsets@.len(),
    ensures
        t.swapped_node(slot_of(node_id), level, old, new) is None,
        forall|after: GraphTape<K, CHUNK_SIZE>, ok: bool|
            #[trigger] t.swap_outcome(after, node_id, level, old, new, ok) ==> !ok && after == t,
{
}

/// For a node appended with the node builder's bytes for `key` and
/// `levels` (at most 256 levels, none refused, fewer than 2^16 bytes, the
/// top level within the tape's height), a swap is refused exactly when the
/// level is above the node's top, or a named old neighbor is not among the
/// neighbors `neighbors_at_level` reads, or an empty old neighbor would add
/// a new one to a full level; a refused swap leaves the tape as it was.
pub proof fn lemma_swap_after_append<K: KeySerialization, const CHUNK_SIZE: usize>(
    before: GraphTape<K, CHUNK_SIZE>,
    after: GraphTape<K, CHUNK_SIZE>,
    node_id: NodeId,
    key: K,
    levels: Seq<Seq<NodeId>>,
    level: u8,
    old: NodeId,
    new: NodeId,
)
    requires
        after.wf(),
        1 <= levels.len() <= 256,
        levels.len() - 1 <= after.max_level,
        first_failing_level(
            levels,
            0,
            after.max_connections_level0 as nat,
            after.max_connections as nat,
        ) is None,
        ({
            let data = key.key_bytes() + encode_levels_from(
                levels,
                0,
                after.max_connections_level0 as nat,
                after.max_connections as nat,
            );
            data.len() < 0x10000 && appended(before, after, node_id, data)
        }),
    ensures
        level < levels.len() ==> after.direct_level_in_chunk(slot_of(node_id), level) && level_neighbors(
            after,
            slot_of(node_id),
            level,
        ) is Some,
        forall|later: GraphTape<K, CHUNK_SIZE>, ok: bool|
            #[trigger] after.swap_outcome(later, node_id, level, old, new, ok) ==> {
                let act = level_neighbors(after, slot_of(node_id), level)->0;
                &&& !ok <==> {
                    ||| level >= levels.len()
                    ||| (!old.is_zero() && !act.contains(old))
                    ||| (old.is_zero() && !new.is_zero() && act.len() == capacity_at(
                        level as int,
                        after.max_connections_level0 as nat,
                        after.max_connections as nat,
                    ))
                }
                &&& !ok ==> later == after
            },
{
    lemma_appended_laid_out(before, after, node_id, key, levels);
    lemma_swap_refusal(after, node_id, level, old, new, (levels.len() - 1) as nat);
}

} // verus!
