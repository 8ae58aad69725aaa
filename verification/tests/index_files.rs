use diffviz::hnsw::format::IndexMetadata;
use diffviz::hnsw::index_files::{
    decode_metadata_file, decode_offsets, encode_metadata_file, encode_offsets, header_block,
    IndexFileError,
};
use diffviz::hnsw::node_id::NodeId;

#[test]
fn header_block_layout() {
    let b = header_block(b"HOFF", 3);
    assert_eq!(b, vec![b'H', b'O', b'F', b'F', 1, 0, 0, 0, 3, 0, 0, 0, 0, 0, 0, 0]);
}

#[test]
fn offsets_round_trip() {
    let offsets = vec![0u64, 4096, 8194, u64::MAX];
    let bytes = encode_offsets(&offsets);
    assert_eq!(bytes.len(), 16 + 8 * offsets.len());
    assert_eq!(decode_offsets(&bytes), Ok(offsets));
    assert_eq!(decode_offsets(&encode_offsets(&[])), Ok(vec![]));
}

#[test]
fn offsets_errors() {
    assert_eq!(decode_offsets(&[0u8; 15]), Err(IndexFileError::TooSmall));
    let mut wrong_magic = encode_offsets(&[1, 2]);
    wrong_magic[0] = b'X';
    assert_eq!(decode_offsets(&wrong_magic), Err(IndexFileError::InvalidMagic));
    let mut wrong_version = encode_offsets(&[1, 2]);
    wrong_version[4] = 2;
    assert_eq!(decode_offsets(&wrong_version), Err(IndexFileError::InvalidMagic));
    let full = encode_offsets(&[1, 2]);
    assert_eq!(decode_offsets(&full[..full.len() - 1]), Err(IndexFileError::Truncated));
    let mut huge = header_block(b"HOFF", u64::MAX);
    huge.extend_from_slice(&[0u8; 8]);
    assert_eq!(decode_offsets(&huge), Err(IndexFileError::Truncated));
}

#[test]
fn metadata_file_round_trip() {
    let meta = IndexMetadata {
        entry_point: Some(NodeId([1, 2, 3, 4, 5])),
        node_count: 100,
        max_connections: 16,
        max_connections_level0: 32,
        max_level: 16,
    };
    let bytes = encode_metadata_file(&meta);
    assert_eq!(bytes.len(), 16 + 19);
    assert_eq!(&bytes[0..4], b"HMET");
    let back = decode_metadata_file(&bytes).unwrap();
    assert_eq!(back.entry_point, meta.entry_point);
    assert_eq!(back.node_count, 100);
    assert_eq!(back.max_connections, 16);
    assert_eq!(back.max_connections_level0, 32);
    assert_eq!(back.max_level, 16);
}

#[test]
fn metadata_file_errors() {
    let meta = IndexMetadata {
        entry_point: None,
        node_count: 0,
        max_connections: 1,
        max_connections_level0: 2,
        max_level: 3,
    };
    let bytes = encode_metadata_file(&meta);
    assert!(matches!(decode_metadata_file(&bytes[..10]), Err(IndexFileError::TooSmall)));
    assert!(matches!(decode_metadata_file(&bytes[..20]), Err(IndexFileError::InvalidMetadata)));
    let mut other = bytes.clone();
    other[3] = b'F';
    assert!(matches!(decode_metadata_file(&other), Err(IndexFileError::InvalidMagic)));
}
