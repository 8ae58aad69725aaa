//! Headers and metadata of the persisted index files.

use vstd::prelude::*;
use vstd::slice::SliceAdditionalExecFns;

use super::key::{
    le16_value, le64_value, lemma_le16_of_bytes, lemma_le64_of_bytes, push_u16_le, push_u64_le,
    u16_from_le, u16_le_bytes, u64_from_le, u64_le_bytes,
};
use super::node::{id_from_bytes, lemma_id_from_bytes};
use super::node_id::NodeId;

verus! {

/// Format version written to every header.
pub const VERSION: u16 = 1;

/// Page-aligned chunk size of the persisted tapes.
pub const CHUNK_SIZE: usize = 4096;

/// Header size: magic (4), version (2), padding (2), count (8).
pub const FILE_HEADER_SIZE: usize = 16;

/// Byte size of the encoded `IndexMetadata`.
pub const METADATA_SIZE: usize = 19;

/// Magic of the graph tape file ("HTAP").
pub fn magic_tape() -> (m: [u8; 4])
    ensures
        m@ == seq![72u8, 84u8, 65u8, 80u8],
{
    let m = [72u8, 84u8, 65u8, 80u8];
    assert(m@ =~= seq![72u8, 84u8, 65u8, 80u8]);
    m
}

/// Magic of the vector file ("HVEC").
pub fn magic_vectors() -> (m: [u8; 4])
    ensures
        m@ == seq![72u8, 86u8, 69u8, 67u8],
{
    let m = [72u8, 86u8, 69u8, 67u8];
    assert(m@ =~= seq![72u8, 86u8, 69u8, 67u8]);
    m
}

/// Magic of the metadata file ("HMET").
pub fn magic_meta() -> (m: [u8; 4])
    ensures
        m@ == seq![72u8, 77u8, 69u8, 84u8],
{
    let m = [72u8, 77u8, 69u8, 84u8];
    assert(m@ =~= seq![72u8, 77u8, 69u8, 84u8]);
    m
}

/// Magic of the offsets file ("HOFF").
pub fn magic_offsets() -> (m: [u8; 4])
    ensures
        m@ == seq![72u8, 79u8, 70u8, 70u8],
{
    let m = [72u8, 79u8, 70u8, 70u8];
    assert(m@ =~= seq![72u8, 79u8, 70u8, 70u8]);
    m
}

/// Header of the tape, vector and offset files.
#[derive(Debug, Clone, Copy)]
pub struct FileHeader {
    pub magic: [u8; 4],
    pub version: u16,
}

impl FileHeader {
    /// A header with `magic` and the current version.
    pub fn new(magic: &[u8; 4]) -> (h: Self)
        ensures
            h.magic@ == magic@,
            h.version == VERSION,
    {
        FileHeader { magic: *magic, version: VERSION }
    }

    /// Writes magic and version into `buf[0..6]`; the other bytes stay.
    pub fn write_to(&self, buf: &mut [u8])
        requires
            old(buf)@.len() >= 6,
        ensures
            final(buf)@.len() == old(buf)@.len(),
            final(buf)@.subrange(0, 4) == self.magic@,
            final(buf)@.subrange(4, 6) == u16_le_bytes(self.version),
            final(buf)@.subrange(6, final(buf)@.len() as int) == old(buf)@.subrange(
                6,
                old(buf)@.len() as int,
            ),
    {
        buf.set(0, self.magic[0]);
        buf.set(1, self.magic[1]);
        buf.set(2, self.magic[2]);
        buf.set(3, self.magic[3]);
        buf.set(4, (self.version & 0xff) as u8);
        buf.set(5, ((self.version >> 8u16) & 0xff) as u8);
        assert(buf@.subrange(0, 4) =~= self.magic@);
        assert(buf@.subrange(4, 6) =~= u16_le_bytes(self.version));
        assert(buf@.subrange(6, buf@.len() as int) =~= old(buf)@.subrange(6, old(buf)@.len() as int));
    }

    /// Reads magic and version from the first six bytes, where there are six.
    pub fn read_from(buf: &[u8]) -> (r: Option<Self>)
        ensures
            buf@.len() < 6 ==> r is None,
            buf@.len() >= 6 ==> (r matches Some(h) && h.magic@ == buf@.subrange(0, 4) && h.version
                == le16_value(buf@.subrange(4, 6))),
    {
        if buf.len() < 6 {
            return None;
        }
        let magic = [buf[0], buf[1], buf[2], buf[3]];
        assert(magic@ =~= buf@.subrange(0, 4));
        let version = u16_from_le(buf[4], buf[5]);
        Some(FileHeader { magic, version })
    }

    /// Whether the header carries `expected_magic` and the current version.
    pub fn validate(&self, expected_magic: &[u8; 4]) -> (b: bool)
        ensures
            b == (self.magic@ == expected_magic@ && self.version == VERSION),
    {
        let same = self.magic[0] == expected_magic[0] && self.magic[1] == expected_magic[1]
            && self.magic[2] == expected_magic[2] && self.magic[3] == expected_magic[3];
        proof {
            if same {
                assert(self.magic@ =~= expected_magic@);
            }
        }
        same && self.version == VERSION
    }
}

/// A header written into a buffer reads back unchanged.
pub proof fn lemma_header_roundtrip(h: FileHeader, buf: Seq<u8>)
    requires
        buf.len() >= 6,
        buf.subrange(0, 4) == h.magic@,
        buf.subrange(4, 6) == u16_le_bytes(h.version),
    ensures
        buf.subrange(0, 4) == h.magic@,
        le16_value(buf.subrange(4, 6)) == h.version,
{
    lemma_le16_of_bytes(h.version);
}

/// Metadata stored in the `.meta` file.
#[derive(Debug, Clone)]
pub struct IndexMetadata {
    pub entry_point: Option<NodeId>,
    pub node_count: usize,
    pub max_connections: usize,
    pub max_connections_level0: usize,
    pub max_level: u8,
}

/// Encoding of the metadata: entry-point flag and five id bytes (zeros
/// where there is none), node count (8 bytes), both connection limits
/// truncated to 16 bits, and the maximum level.
pub open spec fn metadata_bytes(m: IndexMetadata) -> Seq<u8> {
    let ep = match m.entry_point {
        Some(id) => seq![1u8] + id.0@,
        None => seq![0u8, 0u8, 0u8, 0u8, 0u8, 0u8],
    };
    ep + u64_le_bytes(m.node_count as u64) + u16_le_bytes(m.max_connections as u16) + u16_le_bytes(
        m.max_connections_level0 as u16,
    ) + seq![m.max_level]
}

/// Decoding of metadata from the start of `buf`, where it is long enough.
pub open spec fn decode_metadata(buf: Seq<u8>) -> Option<IndexMetadata> {
    if buf.len() < 19 {
        None
    } else {
        Some(
            IndexMetadata {
                entry_point: if buf[0] != 0 {
                    Some(id_from_bytes(buf.subrange(1, 6)))
                } else {
                    None
                },
                node_count: le64_value(buf.subrange(6, 14)) as usize,
                max_connections: le16_value(buf.subrange(14, 16)) as usize,
                max_connections_level0: le16_value(buf.subrange(16, 18)) as usize,
                max_level: buf[18],
            },
        )
    }
}

impl IndexMetadata {
    /// Appends the encoding of the metadata.
    pub fn write_to(&self, buf: &mut Vec<u8>)
        ensures
            final(buf)@ == old(buf)@ + metadata_bytes(*self),
    {
        match self.entry_point {
            Some(ep) => {
                buf.push(1);
                buf.push(ep.0[0]);
                buf.push(ep.0[1]);
                buf.push(ep.0[2]);
                buf.push(ep.0[3]);
                buf.push(ep.0[4]);
                assert(buf@ =~= old(buf)@ + (seq![1u8] + ep.0@));
            },
            None => {
                buf.push(0);
                buf.push(0);
                buf.push(0);
                buf.push(0);
                buf.push(0);
                buf.push(0);
                assert(buf@ =~= old(buf)@ + seq![0u8, 0u8, 0u8, 0u8, 0u8, 0u8]);
            },
        }
        push_u64_le(buf, self.node_count as u64);
        push_u16_le(buf, self.max_connections as u16);
        push_u16_le(buf, self.max_connections_level0 as u16);
        buf.push(self.max_level);
        assert(buf@ =~= old(buf)@ + metadata_bytes(*self));
    }

    /// Decodes metadata from the start of `buf`.
    pub fn read_from(buf: &[u8]) -> (r: Option<Self>)
        ensures
            r == decode_metadata(buf@),
    {
        if buf.len() < 19 {
            return None;
        }
        let entry_point = if buf[0] != 0 {
            let id = NodeId([buf[1], buf[2], buf[3], buf[4], buf[5]]);
            assert(buf@.subrange(1, 6) =~= seq![buf@[1], buf@[2], buf@[3], buf@[4], buf@[5]]);
            Some(id)
        } else {
            None
        };
        let count_bytes = &buf[6..14];
        let node_count = u64_from_le(count_bytes) as usize;
        assert(count_bytes@.subrange(0, 8) =~= buf@.subrange(6, 14));
        let max_connections = u16_from_le(buf[14], buf[15]) as usize;
        let max_connections_level0 = u16_from_le(buf[16], buf[17]) as usize;
        let max_level = buf[18];
        proof {
            assert(buf@.subrange(14, 16) =~= seq![buf@[14], buf@[15]]);
            assert(buf@.subrange(16, 18) =~= seq![buf@[16], buf@[17]]);
        }
        Some(
            IndexMetadata {
                entry_point,
                node_count,
                max_connections,
                max_connections_level0,
                max_level,
            },
        )
    }
}

/// Metadata written out reads back as it was, but for the connection
/// limits, which keep their low 16 bits.
pub proof fn lemma_metadata_roundtrip(m: IndexMetadata, rest: Seq<u8>)
    ensures
        decode_metadata(metadata_bytes(m) + rest) == Some(
            IndexMetadata {
                entry_point: m.entry_point,
                node_count: m.node_count,
                max_connections: (m.max_connections as u16) as usize,
                max_connections_level0: (m.max_connections_level0 as u16) as usize,
                max_level: m.max_level,
            },
        ),
{
    let b = metadata_bytes(m) + rest;
    lemma_le64_of_bytes(m.node_count as u64);
    lemma_le16_of_bytes(m.max_connections as u16);
    lemma_le16_of_bytes(m.max_connections_level0 as u16);
    assert(b.subrange(6, 14) =~= u64_le_bytes(m.node_count as u64));
    assert(b.subrange(14, 16) =~= u16_le_bytes(m.max_connections as u16));
    assert(b.subrange(16, 18) =~= u16_le_bytes(m.max_connections_level0 as u16));
    assert(b[18] == m.max_level);
    match m.entry_point {
        Some(id) => {
            assert(b.subrange(1, 6) =~= id.0@);
            lemma_id_from_bytes(id);
        },
        None => {},
    }
}

} // verus!
