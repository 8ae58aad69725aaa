//! The byte layout of the offsets and metadata files of a persisted index,
//! and the 16-byte header that starts every file: magic (4 bytes), version
//! (2 bytes, little-endian), two zero bytes and a count (8 bytes,
//! little-endian).

use vstd::prelude::*;

use super::format::{
    decode_metadata, lemma_metadata_roundtrip, magic_meta, magic_offsets, metadata_bytes,
    FileHeader, IndexMetadata, FILE_HEADER_SIZE, VERSION,
};
use super::key::{le16_value, le64_value, lemma_le16_of_bytes, lemma_le64_of_bytes, push_u64_le, u16_le_bytes, u64_from_le, u64_le_bytes};

verus! {

/// Why the bytes of an offsets or metadata file were refused.
#[derive(Debug, Clone, Copy, PartialEq, Eq, Structural)]
pub enum IndexFileError {
    /// Fewer bytes than a header.
    TooSmall,
    /// Another magic or another version.
    InvalidMagic,
    /// Fewer offsets than the header announces.
    Truncated,
    /// The metadata after the header is too short.
    InvalidMetadata,
}

/// The header of a file with `magic` and `count`.
pub open spec fn header_bytes(magic: Seq<u8>, count: u64) -> Seq<u8> {
    magic + u16_le_bytes(VERSION) + seq![0u8, 0u8] + u64_le_bytes(count)
}

/// The offsets, each as eight little-endian bytes, one after the other.
pub open spec fn offsets_bytes(v: Seq<u64>) -> Seq<u8>
    decreases v.len(),
{
    if v.len() == 0 {
        Seq::empty()
    } else {
        offsets_bytes(v.drop_last()) + u64_le_bytes(v.last())
    }
}

/// The bytes of an offsets file holding `v`.
pub open spec fn offsets_file(v: Seq<u64>) -> Seq<u8> {
    header_bytes(seq![72u8, 79u8, 70u8, 70u8], v.len() as u64) + offsets_bytes(v)
}

/// The bytes of a metadata file holding `m`.
pub open spec fn metadata_file(m: IndexMetadata) -> Seq<u8> {
    header_bytes(seq![72u8, 77u8, 69u8, 84u8], 0) + metadata_bytes(m)
}

/// The header of `b` carries `magic` and the current version.
pub open spec fn header_matches(b: Seq<u8>, magic: Seq<u8>) -> bool {
    b.subrange(0, 4) == magic && le16_value(b.subrange(4, 6)) == VERSION
}

/// The count that the header of `b` announces.
pub open spec fn header_count(b: Seq<u8>) -> nat {
    le64_value(b.subrange(8, 16))
}

/// The `i`-th offset stored after the header of `b`.
pub open spec fn stored_offset(b: Seq<u8>, i: int) -> nat {
    le64_value(b.subrange(16 + 8 * i, 16 + 8 * i + 8))
}

/// What reading an offsets file gives: the header is checked, then as many
/// offsets as it announces are read after it.
pub open spec fn decoded_offsets(b: Seq<u8>) -> Result<Seq<nat>, IndexFileError> {
    if b.len() < 16 {
        Err(IndexFileError::TooSmall)
    } else if !header_matches(b, seq![72u8, 79u8, 70u8, 70u8]) {
        Err(IndexFileError::InvalidMagic)
    } else if 16 + 8 * header_count(b) > b.len() {
        Err(IndexFileError::Truncated)
    } else {
        Ok(Seq::new(header_count(b), |i: int| stored_offset(b, i)))
    }
}

/// What reading a metadata file gives: the header is checked, then the
/// metadata is decoded from the bytes after it.
pub open spec fn decoded_metadata_file(b: Seq<u8>) -> Result<IndexMetadata, IndexFileError> {
    if b.len() < 16 {
        Err(IndexFileError::TooSmall)
    } else if !header_matches(b, seq![72u8, 77u8, 69u8, 84u8]) {
        Err(IndexFileError::InvalidMagic)
    } else {
        match decode_metadata(b.subrange(16, b.len() as int)) {
            Some(m) => Ok(m),
            None => Err(IndexFileError::InvalidMetadata),
        }
    }
}

/// The 16-byte header of a file with `magic` and `count`.
pub fn header_block(magic: &[u8; 4], count: u64) -> (b: Vec<u8>)
    ensures
        b@ == header_bytes(magic@, count),
{
    let mut b: Vec<u8> = Vec::new();
    let mut k: usize = 0;
    while k < 8
        invariant
            k <= 8,
            b@.len() == k,
            forall|j: int| 0 <= j < k ==> b@[j] == 0u8,
        decreases 8 - k,
    {
        b.push(0u8);
        k = k + 1;
    }
    let ghost zeros = b@;
    let header = FileHeader::new(magic);
    header.write_to(b.as_mut_slice());
    let ghost mid = b@;
    assert(mid.subrange(6, 8) == zeros.subrange(6, 8));
    assert(mid.subrange(6, 8)[0] == zeros[6] && mid.subrange(6, 8)[1] == zeros[7]);
    push_u64_le(&mut b, count);
    proof {
        let w = b@.subrange(0, 8);
        assert(w =~= mid);
        assert(w =~= w.subrange(0, 4) + w.subrange(4, 6) + w.subrange(6, 8));
        assert(w.subrange(6, 8) =~= seq![0u8, 0u8]);
        assert(b@ =~= header_bytes(magic@, count));
    }
    b
}

/// Eight-byte groups of a concatenation of encodings are the encodings.
proof fn lemma_offsets_bytes(v: Seq<u64>, i: int)
    requires
        0 <= i < v.len(),
    ensures
        offsets_bytes(v).len() == 8 * v.len(),
        offsets_bytes(v).subrange(8 * i, 8 * i + 8) == u64_le_bytes(v[i]),
    decreases v.len(),
{
    let init = v.drop_last();
    if i < v.len() - 1 {
        lemma_offsets_bytes(init, i);
        assert(offsets_bytes(v).subrange(8 * i, 8 * i + 8) =~= offsets_bytes(init).subrange(
            8 * i,
            8 * i + 8,
        ));
    } else {
        if init.len() > 0 {
            lemma_offsets_bytes(init, 0);
        }
        assert(offsets_bytes(v).subrange(8 * i, 8 * i + 8) =~= u64_le_bytes(v[i]));
    }
}

/// The bytes of an offsets file holding `offsets`.
pub fn encode_offsets(offsets: &[u64]) -> (b: Vec<u8>)
    requires
        offsets@.len() <= u64::MAX,
    ensures
        b@ == offsets_file(offsets@),
{
    let magic = magic_offsets();
    let mut b = header_block(&magic, offsets.len() as u64);
    let ghost head = b@;
    let mut i: usize = 0;
    while i < offsets.len()
        invariant
            i <= offsets@.len(),
            b@ == head + offsets_bytes(offsets@.subrange(0, i as int)),
        decreases offsets@.len() - i,
    {
        push_u64_le(&mut b, offsets[i]);
        assert(offsets@.subrange(0, i + 1).drop_last() =~= offsets@.subrange(0, i as int));
        assert(b@ =~= head + offsets_bytes(offsets@.subrange(0, i + 1)));
        i = i + 1;
    }
    assert(offsets@.subrange(0, i as int) =~= offsets@);
    b
}

/// Reads the offsets of an offsets file: the header must be there with the
/// offsets magic and the current version, then as many eight-byte offsets
/// as it announces.
pub fn decode_offsets(bytes: &[u8]) -> (r: Result<Vec<u64>, IndexFileError>)
    ensures
        match decoded_offsets(bytes@) {
            Ok(v) => r matches Ok(out) && out@.len() == v.len() && forall|i: int|
                0 <= i < v.len() ==> out@[i] == v[i],
            Err(e) => r == Err::<Vec<u64>, IndexFileError>(e),
        },
{
    if bytes.len() < FILE_HEADER_SIZE {
        return Err(IndexFileError::TooSmall);
    }
    let header = match FileHeader::read_from(bytes) {
        Some(h) => h,
        None => {
            return Err(IndexFileError::TooSmall);
        },
    };
    let magic = magic_offsets();
    if !header.validate(&magic) {
        proof {
            if header_matches(bytes@, seq![72u8, 79u8, 70u8, 70u8]) {
                assert(header.magic@ == magic@);
            }
        }
        return Err(IndexFileError::InvalidMagic);
    }
    let count_bytes = &bytes[8..16];
    let count = u64_from_le(count_bytes);
    assert(count_bytes@.subrange(0, 8) =~= bytes@.subrange(8, 16));
    let avail = bytes.len() - FILE_HEADER_SIZE;
    let room = (avail / 8) as u64;
    assert(count > room <==> 8 * count > avail) by (nonlinear_arith)
        requires
            room == avail / 8,
    ;
    if count > room {
        return Err(IndexFileError::Truncated);
    }
    let n = count as usize;
    let blen = bytes.len();
    let mut out: Vec<u64> = Vec::new();
    let mut i: usize = 0;
    while i < n
        invariant
            i <= n,
            n == header_count(bytes@),
            blen == bytes@.len(),
            16 + 8 * n <= blen,
            out@.len() == i,
            forall|j: int| 0 <= j < i ==> out@[j] == stored_offset(bytes@, j),
        decreases n - i,
    {
        let at = FILE_HEADER_SIZE + 8 * i;
        let word = &bytes[at..at + 8];
        let v = u64_from_le(word);
        assert(word@.subrange(0, 8) =~= bytes@.subrange(16 + 8 * i, 16 + 8 * i + 8));
        out.push(v);
        i = i + 1;
    }
    Ok(out)
}

/// The bytes of a metadata file holding `meta`.
pub fn encode_metadata_file(meta: &IndexMetadata) -> (b: Vec<u8>)
    ensures
        b@ == metadata_file(*meta),
{
    let magic = magic_meta();
    let mut b = header_block(&magic, 0);
    meta.write_to(&mut b);
    b
}

/// Reads a metadata file: the header must be there with the metadata magic
/// and the current version, and the metadata whole after it.
pub fn decode_metadata_file(bytes: &[u8]) -> (r: Result<IndexMetadata, IndexFileError>)
    ensures
        r == decoded_metadata_file(bytes@),
{
    if bytes.len() < FILE_HEADER_SIZE {
        return Err(IndexFileError::TooSmall);
    }
    let header = match FileHeader::read_from(bytes) {
        Some(h) => h,
        None => {
            return Err(IndexFileError::TooSmall);
        },
    };
    let magic = magic_meta();
    if !header.validate(&magic) {
        proof {
            if header_matches(bytes@, seq![72u8, 77u8, 69u8, 84u8]) {
                assert(header.magic@ == magic@);
            }
        }
        return Err(IndexFileError::InvalidMagic);
    }
    let body = &bytes[FILE_HEADER_SIZE..bytes.len()];
    match IndexMetadata::read_from(body) {
        Some(m) => Ok(m),
        None => Err(IndexFileError::InvalidMetadata),
    }
}

/// A header reads back its magic, version and count.
pub proof fn lemma_header_bytes(magic: Seq<u8>, count: u64, rest: Seq<u8>)
    requires
        magic.len() == 4,
    ensures
        (header_bytes(magic, count) + rest).len() == 16 + rest.len(),
        header_matches(header_bytes(magic, count) + rest, magic),
        header_count(header_bytes(magic, count) + rest) == count,
        (header_bytes(magic, count) + rest).subrange(16, 16 + rest.len() as int) == rest,
{
    let b = header_bytes(magic, count) + rest;
    lemma_le16_of_bytes(VERSION);
    lemma_le64_of_bytes(count);
    assert(b.subrange(0, 4) =~= magic);
    assert(b.subrange(4, 6) =~= u16_le_bytes(VERSION));
    assert(b.subrange(8, 16) =~= u64_le_bytes(count));
    assert(b.subrange(16, 16 + rest.len() as int) =~= rest);
}

/// Offsets written to an offsets file read back as they were.
pub proof fn lemma_offsets_roundtrip(v: Seq<u64>)
    requires
        v.len() <= u64::MAX,
    ensures
        decoded_offsets(offsets_file(v)) == Ok::<Seq<nat>, IndexFileError>(
            Seq::new(v.len(), |i: int| v[i] as nat),
        ),
{
    let body = offsets_bytes(v);
    let b = offsets_file(v);
    lemma_header_bytes(seq![72u8, 79u8, 70u8, 70u8], v.len() as u64, body);
    if v.len() > 0 {
        lemma_offsets_bytes(v, 0);
    } else {
        assert(body.len() == 0);
    }
    assert forall|i: int| 0 <= i < v.len() implies stored_offset(b, i) == v[i] as nat by {
        lemma_offsets_bytes(v, i);
        assert(b.subrange(16 + 8 * i, 16 + 8 * i + 8) =~= body.subrange(8 * i, 8 * i + 8));
        lemma_le64_of_bytes(v[i]);
    }
    match decoded_offsets(b) {
        Ok(d) => {
            assert(d =~= Seq::new(v.len(), |i: int| v[i] as nat));
        },
        Err(_) => {},
    }
}

/// Metadata written to a metadata file reads back as it was, but for the
/// connection limits, which keep their low 16 bits.
pub proof fn lemma_metadata_file_roundtrip(m: IndexMetadata)
    ensures
        decoded_metadata_file(metadata_file(m)) == Ok::<IndexMetadata, IndexFileError>(
            IndexMetadata {
                entry_point: m.entry_point,
                node_count: m.node_count,
                max_connections: (m.max_connections as u16) as usize,
                max_connections_level0: (m.max_connections_level0 as u16) as usize,
                max_level: m.max_level,
            },
        ),
{
    let body = metadata_bytes(m);
    let b = metadata_file(m);
    lemma_header_bytes(seq![72u8, 77u8, 69u8, 84u8], 0, body);
    lemma_metadata_roundtrip(m, Seq::empty());
    assert(body + Seq::<u8>::empty() =~= body);
    assert(b.subrange(16, b.len() as int) =~= body);
}

} // verus!
