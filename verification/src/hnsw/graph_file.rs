//! Reading neighbor lists straight from the bytes of a stored graph, where
//! each node is its length (two bytes, little-endian) followed by its body:
//! a four-byte key, then per level a count byte and a fixed number of
//! five-byte neighbor slots.

use vstd::prelude::*;

use crate::hnsw::format::{CHUNK_SIZE, FILE_HEADER_SIZE};
use crate::hnsw::node_id::NodeId;

verus! {

/// The identifiers in five-byte slots of `b`, from `start`, `count` of them.
pub open spec fn ids_from(b: Seq<u8>, start: int, count: int) -> Seq<Seq<u8>> {
    Seq::new(count as nat, |i: int| b.subrange(start + 5 * i, start + 5 * i + 5))
}

/// The neighbors at level `target`, reading the level whose count byte is
/// at `offset` as level `level`; `None` where the bytes run out first or
/// the level is past the last one that the node can have.
pub open spec fn neighbors_from(
    b: Seq<u8>,
    target: u8,
    mc0: usize,
    mc: usize,
    offset: int,
    level: int,
) -> Option<Seq<Seq<u8>>>
    decreases 256 - level,
{
    if offset >= b.len() || level < 0 || level > 255 {
        None
    } else {
        let count = b[offset] as int;
        if level == target {
            if offset + 1 + 5 * count <= b.len() {
                Some(ids_from(b, offset + 1, count))
            } else {
                None
            }
        } else if level >= (mc0 as u8) as int {
            None
        } else {
            let cap = if level == 0 {
                mc0 as int
            } else {
                mc as int
            };
            neighbors_from(b, target, mc0, mc, offset + 1 + 5 * cap, level + 1)
        }
    }
}

/// The values of a list of identifiers.
pub open spec fn id_bytes(v: Seq<NodeId>) -> Seq<Seq<u8>> {
    v.map_values(|n: NodeId| n.0@)
}

/// The neighbors of a stored node at level `target`: the body is read
/// level by level after a four-byte key, level 0 holding
/// `max_connections_level0` slots and every other level `max_connections`.
pub fn parse_neighbors_at_level(
    node_bytes: &[u8],
    target_level: u8,
    max_connections_level0: usize,
    max_connections: usize,
) -> (r: Option<Vec<NodeId>>)
    requires
        node_bytes@.len() + 257 * (1 + 5 * max_connections_level0 + 5 * max_connections)
            <= usize::MAX,
    ensures
        match r {
            Some(v) => neighbors_from(
                node_bytes@,
                target_level,
                max_connections_level0,
                max_connections,
                4,
                0,
            ) == Some(id_bytes(v@)),
            None => neighbors_from(
                node_bytes@,
                target_level,
                max_connections_level0,
                max_connections,
                4,
                0,
            ) is None,
        },
{
    let ghost b = node_bytes@;
    let last_level: u8 = max_connections_level0 as u8;
    let mut offset: usize = 4;
    let mut current_level: u8 = 0;
    loop
        invariant
            b == node_bytes@,
            last_level == max_connections_level0 as u8,
            offset <= 4 + current_level as int * (1 + 5 * max_connections_level0 + 5 * max_connections),
            node_bytes@.len() + 257 * (1 + 5 * max_connections_level0 + 5 * max_connections) <= usize::MAX,
            neighbors_from(b, target_level, max_connections_level0, max_connections, 4, 0)
                == neighbors_from(
                b,
                target_level,
                max_connections_level0,
                max_connections,
                offset as int,
                current_level as int,
            ),
        decreases 256 - current_level,
    {
        if offset >= node_bytes.len() {
            return None;
        }
        let active_count = node_bytes[offset] as usize;
        if current_level == target_level {
            if 5 * active_count + 1 > node_bytes.len() - offset {
                return None;
            }
            let mut neighbors: Vec<NodeId> = Vec::new();
            let start = offset + 1;
            let mut i: usize = 0;
            while i < active_count
                invariant
                    i <= active_count,
                    start + 5 * active_count <= node_bytes.len(),
                    id_bytes(neighbors@) == ids_from(node_bytes@, start as int, i as int),
                decreases active_count - i,
            {
                assert(5 * i + 5 <= 5 * active_count);
                let p = start + 5 * i;
                let id = NodeId(
                    [node_bytes[p], node_bytes[p + 1], node_bytes[p + 2], node_bytes[p + 3], node_bytes[p + 4]],
                );
                let ghost n0 = neighbors@;
                neighbors.push(id);
                proof {
                    assert(id.0@ =~= node_bytes@.subrange(p as int, p + 5));
                    assert(id_bytes(neighbors@) =~= id_bytes(n0).push(id.0@));
                    assert(id_bytes(neighbors@) =~= ids_from(node_bytes@, start as int, i + 1));
                }
                i = i + 1;
            }
            return Some(neighbors);
        }
        if current_level >= last_level {
            return None;
        }
        let capacity = if current_level == 0 {
            max_connections_level0
        } else {
            max_connections
        };
        proof {
            assert(current_level < 255);
            assert(capacity <= max_connections_level0 + max_connections);
            assert(offset + 1 + 5 * capacity <= 4 + (current_level + 1) * (1 + 5 * max_connections_level0 + 5 * max_connections)) by (nonlinear_arith)
                requires
                    offset <= 4 + current_level as int * (1 + 5 * max_connections_level0 + 5 * max_connections),
                    capacity <= max_connections_level0 + max_connections,
            ;
            assert((current_level + 1) * (1 + 5 * max_connections_level0 + 5 * max_connections) <= 256 * (1 + 5 * max_connections_level0 + 5 * max_connections)) by (nonlinear_arith)
                requires
                    current_level < 255,
            ;
        }
        offset = offset + 1 + 5 * capacity;
        current_level = current_level + 1;
    }
}

/// Where graph chunk `chunk_idx` lies in a graph file of `file_len` bytes,
/// after the file header: `Some((start, end))` where it fits.
pub fn graph_chunk_span(chunk_idx: usize, file_len: usize) -> (r: Option<(usize, usize)>)
    requires
        FILE_HEADER_SIZE + (chunk_idx + 1) * CHUNK_SIZE <= usize::MAX,
    ensures
        match r {
            Some((a, b)) => a == FILE_HEADER_SIZE + chunk_idx * CHUNK_SIZE && b == a + CHUNK_SIZE
                && b <= file_len,
            None => FILE_HEADER_SIZE + (chunk_idx + 1) * CHUNK_SIZE > file_len,
        },
{
    assert((chunk_idx + 1) * CHUNK_SIZE == chunk_idx * CHUNK_SIZE + CHUNK_SIZE) by (nonlinear_arith);
    let offset = FILE_HEADER_SIZE + chunk_idx * CHUNK_SIZE;
    if offset + CHUNK_SIZE > file_len {
        None
    } else {
        Some((offset, offset + CHUNK_SIZE))
    }
}

/// Where the body of the node stored at `chunk_offset` of a chunk lies:
/// after its two-byte little-endian length, which must fit in the chunk,
/// as must the body.
pub fn node_span(chunk: &[u8], chunk_offset: usize) -> (r: Option<(usize, usize)>)
    requires
        chunk@.len() == CHUNK_SIZE,
    ensures
        match r {
            Some((a, b)) => chunk_offset + 2 <= CHUNK_SIZE && a == chunk_offset + 2 && b == a
                + chunk@[chunk_offset as int] + 256 * chunk@[chunk_offset + 1] && b <= CHUNK_SIZE,
            None => chunk_offset + 2 > CHUNK_SIZE || chunk_offset + 2 + chunk@[chunk_offset as int]
                + 256 * chunk@[chunk_offset + 1] > CHUNK_SIZE,
        },
{
    if chunk_offset > CHUNK_SIZE - 2 {
        return None;
    }
    let length = chunk[chunk_offset] as usize + 256 * (chunk[chunk_offset + 1] as usize);
    let start = chunk_offset + 2;
    if start + length > CHUNK_SIZE {
        return None;
    }
    Some((start, start + length))
}

} // verus!
