use diffviz::hnsw::node::{node_parser, NodeBuilder, NodeWriter, NEIGHBORS_COUNT_SIZE, NODE_ID_SIZE};
use diffviz::hnsw::node_id::{empty_neighbor, NodeId};

const TEST_MAX_CONNECTIONS_LEVEL0: usize = 2;
const TEST_MAX_CONNECTIONS: usize = 1;

fn create_test_node_data() -> Vec<u8> {
    let mut builder = NodeBuilder::new(TEST_MAX_CONNECTIONS_LEVEL0, TEST_MAX_CONNECTIONS)
        .with_key(0x123456789ABCDEF0u64);

    builder
        .set_neighbors_at_level(
            0,
            vec![
                NodeId([0x01, 0x02, 0x03, 0x04, 0x05]),
                NodeId([0x06, 0x07, 0x08, 0x09, 0x0A]),
            ],
        )
        .unwrap();
    builder
        .set_neighbors_at_level(1, vec![NodeId([0x0B, 0x0C, 0x0D, 0x0E, 0x0F])])
        .unwrap();
    builder.set_neighbors_at_level(2, Vec::new()).unwrap();

    builder.to_bytes().unwrap()
}

fn create_empty_node_data() -> Vec<u8> {
    let mut builder =
        NodeBuilder::new(TEST_MAX_CONNECTIONS_LEVEL0, TEST_MAX_CONNECTIONS).with_key(42u32);
    builder.set_neighbors_at_level(0, Vec::new()).unwrap();
    builder.to_bytes().unwrap()
}

#[test]
fn test_read_key_u64() {
    let data = create_test_node_data();
    let parser = node_parser::<u64>(&data, TEST_MAX_CONNECTIONS_LEVEL0, TEST_MAX_CONNECTIONS);

    let (key, _, bytes_consumed) = parser.read_key();
    assert_eq!(key, 0x123456789ABCDEF0u64);
    assert_eq!(bytes_consumed, 8); // u64 is 8 bytes
}

#[test]
fn test_read_key_u32() {
    let data = create_empty_node_data();
    let parser = node_parser::<u32>(&data, TEST_MAX_CONNECTIONS_LEVEL0, TEST_MAX_CONNECTIONS);

    let (key, _, bytes_consumed) = parser.read_key();
    assert_eq!(key, 42u32);
    assert_eq!(bytes_consumed, 4); // u32 is 4 bytes
}

#[test]
fn test_read_single_level_with_neighbors() {
    let data = create_test_node_data();
    let parser = node_parser::<u64>(&data, TEST_MAX_CONNECTIONS_LEVEL0, TEST_MAX_CONNECTIONS);

    let (key, parser, _) = parser.read_key();
    assert_eq!(key, 0x123456789ABCDEF0u64);

    let (level_data, parser, _level_bytes) = parser.read_level();
    assert!(level_data.is_some());
    assert!(parser.is_some());

    let (level, neighbors) = level_data.unwrap();
    assert_eq!(level, 0);
    assert_eq!(neighbors.len(), 2);

    // Verify neighbor data
    let neighbor1_bytes = neighbors[0].as_bytes();
    let neighbor2_bytes = neighbors[1].as_bytes();

    assert_eq!(neighbor1_bytes, &[0x01, 0x02, 0x03, 0x04, 0x05]);
    assert_eq!(neighbor2_bytes, &[0x06, 0x07, 0x08, 0x09, 0x0A]);
}

#[test]
fn test_read_multiple_levels() {
    let data = create_test_node_data();
    let parser = node_parser::<u64>(&data, TEST_MAX_CONNECTIONS_LEVEL0, TEST_MAX_CONNECTIONS);

    let (_, mut parser, _) = parser.read_key();

    // Read level 0
    let (level_data, next_parser, _) = parser.read_level();
    assert!(level_data.is_some());
    assert!(next_parser.is_some());

    let (level, neighbors) = level_data.unwrap();
    assert_eq!(level, 0);
    assert_eq!(neighbors.len(), 2);

    parser = next_parser.unwrap();

    // Read level 1
    let (level_data, next_parser, _) = parser.read_level();
    assert!(level_data.is_some());
    assert!(next_parser.is_some());

    let (level, neighbors) = level_data.unwrap();
    assert_eq!(level, 1);
    assert_eq!(neighbors.len(), 1);

    let neighbor_bytes = neighbors[0].as_bytes();
    assert_eq!(neighbor_bytes, &[0x0B, 0x0C, 0x0D, 0x0E, 0x0F]);

    parser = next_parser.unwrap();

    // Read level 2 (empty)
    let (level_data, next_parser, _) = parser.read_level();
    assert!(level_data.is_some());
    assert!(next_parser.is_none()); // No more levels

    let (level, neighbors) = level_data.unwrap();
    assert_eq!(level, 2);
    assert_eq!(neighbors.len(), 0);
}

#[test]
fn test_level_offset_and_bytes_helpers() {
    let data = create_test_node_data();
    let parser = node_parser::<u64>(&data, TEST_MAX_CONNECTIONS_LEVEL0, TEST_MAX_CONNECTIONS);
    let (_, parser, _) = parser.read_key();

    assert_eq!(parser.level_offset(0), Some(0));
    assert_eq!(
        parser.level_offset(1),
        Some(NEIGHBORS_COUNT_SIZE + TEST_MAX_CONNECTIONS_LEVEL0 * NODE_ID_SIZE)
    );

    let level_one_bytes = parser.level_bytes(1).expect("level bytes");
    assert_eq!(
        level_one_bytes.len(),
        NEIGHBORS_COUNT_SIZE + TEST_MAX_CONNECTIONS * NODE_ID_SIZE
    );

    let level_two_parser = parser.seek_to_level(2).expect("seek to level 2");
    let (level_data, _, _) = level_two_parser.read_level();
    assert!(level_data.is_some());
    let (level, neighbors) = level_data.unwrap();
    assert_eq!(level, 2);
    assert_eq!(neighbors.len(), 0);
}

#[test]
fn test_read_empty_level() {
    let data = create_empty_node_data();
    let parser = node_parser::<u32>(&data, TEST_MAX_CONNECTIONS_LEVEL0, TEST_MAX_CONNECTIONS);

    let (_, parser, _) = parser.read_key();
    let (level_data, next_parser, _) = parser.read_level();

    assert!(level_data.is_some());
    assert!(next_parser.is_none());

    let (level, neighbors) = level_data.unwrap();
    assert_eq!(level, 0);
    assert_eq!(neighbors.len(), 0);
}

#[test]
fn test_skip_level() {
    let data = create_test_node_data();
    let parser = node_parser::<u64>(&data, TEST_MAX_CONNECTIONS_LEVEL0, TEST_MAX_CONNECTIONS);

    let (_, parser, _) = parser.read_key();

    // Skip level 0
    let parser = parser.skip_level();
    assert!(parser.is_some());

    let parser = parser.unwrap();

    // Read level 1 directly
    let (level_data, _, _) = parser.read_level();
    assert!(level_data.is_some());

    let (level, neighbors) = level_data.unwrap();
    assert_eq!(level, 1);
    assert_eq!(neighbors.len(), 1);
}

#[test]
fn test_skip_multiple_levels() {
    let data = create_test_node_data();
    let parser = node_parser::<u64>(&data, TEST_MAX_CONNECTIONS_LEVEL0, TEST_MAX_CONNECTIONS);

    let (_, parser, _) = parser.read_key();

    // Skip level 0
    let parser = parser.skip_level().unwrap();
    // Skip level 1
    let parser = parser.skip_level().unwrap();

    // Read level 2 directly
    let (level_data, next_parser, _) = parser.read_level();
    assert!(level_data.is_some());
    assert!(next_parser.is_none());

    let (level, neighbors) = level_data.unwrap();
    assert_eq!(level, 2);
    assert_eq!(neighbors.len(), 0);
}

#[test]
fn test_parser_exhaustion() {
    let data = create_empty_node_data();
    let parser = node_parser::<u32>(&data, TEST_MAX_CONNECTIONS_LEVEL0, TEST_MAX_CONNECTIONS);

    let (_, parser, _) = parser.read_key();
    let (_, next_parser, _) = parser.read_level();

    // Should be None - no more data
    assert!(next_parser.is_none());
}

#[test]
fn test_insufficient_level_data() {
    let mut data = Vec::new();
    data.extend_from_slice(&42u32.to_le_bytes()); // Valid key
    data.push(0); // Level byte
    // Missing count byte - should be handled gracefully

    let parser = node_parser::<u32>(&data, TEST_MAX_CONNECTIONS_LEVEL0, TEST_MAX_CONNECTIONS);
    let (_, parser, _) = parser.read_key();
    let (level_data, next_parser, _) = parser.read_level();

    assert!(level_data.is_none());
    assert!(next_parser.is_none());
}



#[test]
fn test_full_iteration_pattern() {
    let data = create_test_node_data();
    let parser = node_parser::<u64>(&data, TEST_MAX_CONNECTIONS_LEVEL0, TEST_MAX_CONNECTIONS);

    let (key, mut parser, _) = parser.read_key();
    assert_eq!(key, 0x123456789ABCDEF0u64);

    let mut level_count = 0;
    let mut total_neighbors = 0;

    while let (Some((level, active_neighbors, empty_count)), next, _) =
        parser.read_level_with_counts()
    {
        println!(
            "Level {}: {} neighbors ({} empty)",
            level,
            active_neighbors.len(),
            empty_count
        );
        assert_eq!(level as usize, level_count);
        total_neighbors += active_neighbors.len();
        level_count += 1;

        if let Some(p) = next {
            parser = p;
        } else {
            break;
        }
    }

    assert_eq!(level_count, 3); // 3 levels total
    assert_eq!(total_neighbors, 3); // 2 + 1 + 0 neighbors
}

// Round-trip tests for NodeBuilder/NodeWriter/NodeParser compatibility
#[test]
fn test_node_builder_writer_parser_roundtrip_u64() {
    let original_key = 0x123456789ABCDEF0u64;
    let neighbors_level_0 = vec![
        NodeId([0x01, 0x02, 0x03, 0x04, 0x05]),
        NodeId([0x06, 0x07, 0x08, 0x09, 0x0A]),
    ];
    let neighbors_level_1 = vec![NodeId([0x0B, 0x0C, 0x0D, 0x0E, 0x0F])];
    let neighbors_level_2: Vec<NodeId> = vec![]; // Empty level

    // Build with NodeBuilder
    let mut builder = NodeBuilder::new(5, 5).with_key(original_key);

    builder
        .set_neighbors_at_level(0, neighbors_level_0.clone())
        .unwrap();
    builder
        .set_neighbors_at_level(1, neighbors_level_1.clone())
        .unwrap();
    builder
        .set_neighbors_at_level(2, neighbors_level_2.clone())
        .unwrap();

    let wire_data = builder.to_bytes().unwrap();

    // Parse with NodeParser
    let parser = node_parser::<u64>(&wire_data, 5, 5);
    let (parsed_key, mut parser, _) = parser.read_key();

    // Verify key
    assert_eq!(parsed_key, original_key);

    // Parse level 0
    let (level_data, next_parser, _) = parser.read_level_with_counts();
    assert!(level_data.is_some());
    let (level, active_neighbors, empty_count) = level_data.unwrap();
    assert_eq!(level, 0);
    assert_eq!(active_neighbors.len(), neighbors_level_0.len());
    assert_eq!(empty_count, 5 - neighbors_level_0.len());
    assert_eq!(active_neighbors, neighbors_level_0);
    parser = next_parser.unwrap();

    // Parse level 1
    let (level_data, next_parser, _) = parser.read_level_with_counts();
    assert!(level_data.is_some());
    let (level, active_neighbors, empty_count) = level_data.unwrap();
    assert_eq!(level, 1);
    assert_eq!(active_neighbors.len(), neighbors_level_1.len());
    assert_eq!(empty_count, 5 - neighbors_level_1.len());
    assert_eq!(active_neighbors, neighbors_level_1);
    parser = next_parser.unwrap();

    // Parse level 2 (empty)
    let (level_data, next_parser, _) = parser.read_level_with_counts();
    assert!(level_data.is_some());
    let (level, active_neighbors, empty_count) = level_data.unwrap();
    assert_eq!(level, 2);
    assert!(active_neighbors.is_empty());
    assert_eq!(empty_count, 5);
    assert!(next_parser.is_none()); // No more levels
}

#[test]
fn test_node_builder_writer_parser_roundtrip_u32() {
    let original_key = 42u32;
    let neighbors_level_0 = [NodeId([0x01, 0x02, 0x03, 0x04, 0x05])];

    // Build with NodeBuilder
    let mut builder = NodeBuilder::new(5, 5).with_key(original_key);
    builder.add_neighbor(0, neighbors_level_0[0]).unwrap();

    let wire_data = builder.to_bytes().unwrap();

    // Parse with NodeParser
    let parser = node_parser::<u32>(&wire_data, 5, 5);
    let (parsed_key, parser, _) = parser.read_key();

    // Verify key
    assert_eq!(parsed_key, original_key);

    // Parse level 0
    let (level_data, next_parser, _) = parser.read_level_with_counts();
    assert!(level_data.is_some());
    let (level, active_neighbors, empty_count) = level_data.unwrap();
    assert_eq!(level, 0);
    assert_eq!(active_neighbors.len(), 1);
    assert_eq!(active_neighbors[0], neighbors_level_0[0]);
    assert_eq!(empty_count, 4);
    assert!(next_parser.is_none()); // Only one level
}

#[test]
fn test_node_builder_add_remove_neighbors() {
    let mut builder = NodeBuilder::<u64>::new(5, 5).with_key(123);

    let neighbor1 = NodeId([1, 2, 3, 4, 5]);
    let neighbor2 = NodeId([6, 7, 8, 9, 10]);

    // Add neighbors
    builder.add_neighbor(0, neighbor1).unwrap();
    builder.add_neighbor(0, neighbor2).unwrap();
    builder.add_neighbor(1, neighbor1).unwrap();

    assert_eq!(builder.get_neighbors_at_level(0).unwrap().len(), 2);
    assert_eq!(builder.get_neighbors_at_level(1).unwrap().len(), 1);
    assert_eq!(builder.level_count(), 2);

    // Remove neighbor
    assert!(builder.remove_neighbor(0, neighbor1));
    assert_eq!(builder.get_neighbors_at_level(0).unwrap().len(), 1);
    assert_eq!(builder.get_neighbors_at_level(0).unwrap()[0], neighbor2);

    // Try to remove non-existent neighbor
    assert!(!builder.remove_neighbor(0, neighbor1));
    assert_eq!(builder.get_neighbors_at_level(0).unwrap().len(), 1);
}

#[test]
fn test_node_builder_duplicate_neighbors() {
    let mut builder = NodeBuilder::<u32>::new(3, 3).with_key(42);
    let neighbor = NodeId([1, 2, 3, 4, 5]);

    // Add same neighbor twice
    builder.add_neighbor(0, neighbor).unwrap();
    builder.add_neighbor(0, neighbor).unwrap(); // Should not add duplicate

    assert_eq!(builder.get_neighbors_at_level(0).unwrap().len(), 1);
}


#[test]
fn test_node_writer_direct_usage() {
    let key = 42u64;
    let neighbors_level_0 = vec![NodeId([1, 2, 3, 4, 5])];
    let neighbors_level_1 = vec![NodeId([6, 7, 8, 9, 10]), NodeId([11, 12, 13, 14, 15])];

    // Use NodeWriter directly
    let wire_data = NodeWriter::new(4, 2, 3)
        .write_key(&key)
        .unwrap()
        .write_level(0, &neighbors_level_0)
        .unwrap()
        .write_level(1, &neighbors_level_1)
        .unwrap()
        .finish();

    // Verify with NodeParser
    let parser = node_parser::<u64>(&wire_data, 4, 2);
    let (parsed_key, mut parser, _) = parser.read_key();
    assert_eq!(parsed_key, key);

    // Parse levels
    let (level_data, next_parser, _) = parser.read_level_with_counts();
    let (level, active_neighbors, empty_count) = level_data.unwrap();
    assert_eq!(level, 0);
    assert_eq!(active_neighbors.len(), 1);
    assert_eq!(active_neighbors[0], neighbors_level_0[0]);
    assert_eq!(empty_count, 3);
    parser = next_parser.unwrap();

    let (level_data, next_parser, _) = parser.read_level_with_counts();
    let (level, active_neighbors, empty_count) = level_data.unwrap();
    assert_eq!(level, 1);
    assert_eq!(active_neighbors.len(), 2);
    assert_eq!(active_neighbors[0], neighbors_level_1[0]);
    assert_eq!(active_neighbors[1], neighbors_level_1[1]);
    assert_eq!(empty_count, 0);
    assert!(next_parser.is_none());
}

#[test]
fn test_neighbor_slot_provisioning_with_empty_neighbors() {
    // Test that nodes can be created with empty_neighbor() placeholders
    // and that read_level_with_counts correctly identifies them as empty slots
    let key = 42u64;
    let max_connections_level0 = 32;
    let max_connections = 16;

    let mut builder = NodeBuilder::new(max_connections_level0, max_connections).with_key(key);

    // Level 0: provision with empty_neighbor() placeholders (simulating HNSW node creation)
    let empty_neighbors_level0 = vec![empty_neighbor(); max_connections_level0];
    builder
        .set_neighbors_at_level(0, empty_neighbors_level0)
        .unwrap();

    // Level 1: provision with empty_neighbor() placeholders
    let empty_neighbors_level1 = vec![empty_neighbor(); max_connections];
    builder
        .set_neighbors_at_level(1, empty_neighbors_level1)
        .unwrap();

    let wire_data = builder.to_bytes().unwrap();

    // Parse and verify empty slots are correctly identified
    let parser = node_parser::<u64>(&wire_data, max_connections_level0, max_connections);
    let (parsed_key, mut parser, _) = parser.read_key();
    assert_eq!(parsed_key, key);

    // Check level 0 - should show all neighbors as empty
    let (level_data, next_parser, _) = parser.read_level_with_counts();
    assert!(level_data.is_some());
    let (level, active_neighbors, empty_count) = level_data.unwrap();
    assert_eq!(level, 0);
    assert_eq!(active_neighbors.len(), 0); // No active neighbors
    assert_eq!(empty_count, max_connections_level0); // All slots are empty
    parser = next_parser.unwrap();

    // Check level 1 - should show all neighbors as empty
    let (level_data, next_parser, _) = parser.read_level_with_counts();
    assert!(level_data.is_some());
    let (level, active_neighbors, empty_count) = level_data.unwrap();
    assert_eq!(level, 1);
    assert_eq!(active_neighbors.len(), 0); // No active neighbors
    assert_eq!(empty_count, max_connections); // All slots are empty
    assert!(next_parser.is_none());
}

#[test]
fn test_mixed_empty_and_active_neighbors() {
    // Test a node with some active neighbors and some empty slots
    let key = 123u32;
    let active_neighbor1 = NodeId([1, 2, 3, 4, 5]);
    let active_neighbor2 = NodeId([6, 7, 8, 9, 10]);

    // Create a level with 2 active neighbors and 3 empty slots (total 5 slots)
    let mixed_neighbors = vec![
        active_neighbor1,
        empty_neighbor(),
        active_neighbor2,
        empty_neighbor(),
        empty_neighbor(),
    ];

    let mut builder = NodeBuilder::new(5, 5).with_key(key);
    builder.set_neighbors_at_level(0, mixed_neighbors).unwrap();

    let wire_data = builder.to_bytes().unwrap();

    // Parse and verify counts
    let parser = node_parser::<u32>(&wire_data, 5, 5);
    let (parsed_key, parser, _) = parser.read_key();
    assert_eq!(parsed_key, key);

    let (level_data, next_parser, _) = parser.read_level_with_counts();
    assert!(level_data.is_some());
    let (level, active_neighbors, empty_count) = level_data.unwrap();
    assert_eq!(level, 0);
    assert_eq!(active_neighbors.len(), 2); // 2 active neighbors
    assert_eq!(empty_count, 3); // 3 empty slots
    assert_eq!(active_neighbors[0], active_neighbor1);
    assert_eq!(active_neighbors[1], active_neighbor2);
    assert!(next_parser.is_none());
}

#[test]
fn parser_debug_text_describes_position() {
    let data = create_empty_node_data();
    let parser = node_parser::<u32>(&data, TEST_MAX_CONNECTIONS_LEVEL0, TEST_MAX_CONNECTIONS);
    assert_eq!(
        parser.debug_text(),
        "NodeParser { state: KeyToRead, remaining: 15 bytes, expected: 4 bytes for key type, preview: [2a 00 00 00 00 00 00 00 ...] }"
    );
    let (_, levels, _) = parser.read_key();
    assert_eq!(
        levels.debug_text(),
        "NodeParser { state: LevelsToRead, level: 0, active: 0, capacity: 2, remaining: 11 bytes, needed: 11 bytes, preview: [00 00 00 00 00 00 00 00 00 00 00] }"
    );
    let (_, exhausted, _) = node_parser::<u32>(&[1, 0, 0, 0], 2, 1).read_key();
    assert_eq!(
        exhausted.debug_text(),
        "NodeParser { state: LevelsToRead, remaining: 0 bytes, status: exhausted }"
    );
}
