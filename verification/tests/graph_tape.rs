use diffviz::hnsw::node::NodeBuilder;
use diffviz::hnsw::node_id::{empty_neighbor, NodeId};
use diffviz::hnsw::tape::GraphTape;

const TEST_MAX_CONNECTIONS_LEVEL0: usize = 2;
const TEST_MAX_CONNECTIONS: usize = 1;
const TEST_MAX_LEVEL: usize = 2;

fn create_test_hnsw_node_data() -> Vec<u8> {
    let mut builder =
        NodeBuilder::new(TEST_MAX_CONNECTIONS_LEVEL0, TEST_MAX_CONNECTIONS).with_key(1000u32);

    builder
        .set_neighbors_at_level(
            0,
            vec![
                NodeId([0x01, 0x02, 0x03, 0x04, 0x05]),
                NodeId([0x06, 0x07, 0x08, 0x09, 0x0A]),
            ],
        )
        .unwrap();
    builder
        .set_neighbors_at_level(1, vec![NodeId([0x0B, 0x0C, 0x0D, 0x0E, 0x0F])])
        .unwrap();

    builder.to_bytes().unwrap()
}

fn create_simple_node_data() -> Vec<u8> {
    let mut builder =
        NodeBuilder::new(TEST_MAX_CONNECTIONS_LEVEL0, TEST_MAX_CONNECTIONS).with_key(42u32);
    builder
        .set_neighbors_at_level(0, vec![NodeId([0x01, 0x02, 0x03, 0x04, 0x05])])
        .unwrap();

    builder.to_bytes().unwrap()
}

#[test]
fn test_chunked_tape_new() {
    let tape = GraphTape::<u32, 1024>::new(
        TEST_MAX_CONNECTIONS_LEVEL0,
        TEST_MAX_CONNECTIONS,
        TEST_MAX_LEVEL,
    );
    assert_eq!(tape.tape.len(), 0);
    assert_eq!(tape.offsets.len(), 0);
}

#[test]
fn test_append_node_basic() {
    let mut tape = GraphTape::<u32, 1024>::new(
        TEST_MAX_CONNECTIONS_LEVEL0,
        TEST_MAX_CONNECTIONS,
        TEST_MAX_LEVEL,
    );
    let node_data = create_simple_node_data();

    let node_id = tape.next_node_id();
    tape.append_node(node_id, &node_data).unwrap();

    // Should have created one chunk
    assert_eq!(tape.tape.len(), 1);
    assert_eq!(tape.offsets.len(), 2);

    // Verify the node can be read back
    let tape_offset = tape.offsets[node_id.to_usize()];
    if let Some(parser) = tape.node_at_offset(tape_offset) {
        let (key, _, _) = parser.read_key();
        assert_eq!(key, 42u32);
    } else {
        panic!("Could not read back added node");
    }
}

#[test]
fn test_append_multiple_nodes() {
    let mut tape = GraphTape::<u32, 1024>::new(
        TEST_MAX_CONNECTIONS_LEVEL0,
        TEST_MAX_CONNECTIONS,
        TEST_MAX_LEVEL,
    );

    let node1_data = create_simple_node_data();
    let node2_data = create_test_hnsw_node_data();

    let node1_id = tape.next_node_id();
    tape.append_node(node1_id, &node1_data).unwrap();
    let node2_id = tape.next_node_id();
    tape.append_node(node2_id, &node2_data).unwrap();

    // Should still be in same chunk (1024 bytes is plenty)
    assert_eq!(tape.tape.len(), 1);
    assert_eq!(tape.offsets.len(), 3);

    // Verify both nodes can be read back
    let tape_offset1 = tape.offsets[node1_id.to_usize()];
    if let Some(parser) = tape.node_at_offset(tape_offset1) {
        let (key, _, _) = parser.read_key();
        assert_eq!(key, 42u32);
    } else {
        panic!("Could not read back first node");
    }

    let tape_offset2 = tape.offsets[node2_id.to_usize()];
    if let Some(parser) = tape.node_at_offset(tape_offset2) {
        let (key, _, _) = parser.read_key();
        assert_eq!(key, 1000u32);
    } else {
        panic!("Could not read back second node");
    }
}

#[test]
fn test_remove_node() {
    let mut tape = GraphTape::<u32, 1024>::new(
        TEST_MAX_CONNECTIONS_LEVEL0,
        TEST_MAX_CONNECTIONS,
        TEST_MAX_LEVEL,
    );
    let node_data = create_simple_node_data();

    let node_id = tape.next_node_id();
    tape.append_node(node_id, &node_data).unwrap();

    // Remove the node
    let removed = tape.remove_node(node_id);
    assert!(removed);

    // Note: Current implementation frees memory but doesn't invalidate offset mapping
    // So a second remove might succeed but be redundant
    // This is fine for the memory manager architecture as it handles double-frees gracefully
}

#[test]
fn test_remove_nonexistent_node() {
    let mut tape = GraphTape::<u32, 1024>::new(
        TEST_MAX_CONNECTIONS_LEVEL0,
        TEST_MAX_CONNECTIONS,
        TEST_MAX_LEVEL,
    );
    let fake_node_id = NodeId([1, 2, 3, 4, 5]);

    let removed = tape.remove_node(fake_node_id);
    assert!(!removed);
}

#[test]
fn test_swap_neighbor_basic() {
    let mut tape = GraphTape::<u32, 1024>::new(
        TEST_MAX_CONNECTIONS_LEVEL0,
        TEST_MAX_CONNECTIONS,
        TEST_MAX_LEVEL,
    );
    let node_data = create_simple_node_data();

    let node_id = tape.next_node_id();
    tape.append_node(node_id, &node_data).unwrap();

    // Original neighbor is NodeId([0x01, 0x02, 0x03, 0x04, 0x05])
    let old_neighbor = NodeId([0x01, 0x02, 0x03, 0x04, 0x05]);
    let new_neighbor = NodeId([0xFF, 0xFE, 0xFD, 0xFC, 0xFB]);

    // Swap neighbor at level 0
    let swapped = tape.swap_neighbor(node_id, 0, old_neighbor, new_neighbor);
    assert!(swapped);

    // Verify the swap worked by reading the node back
    let tape_offset = tape.offsets[node_id.to_usize()];
    if let Some(parser) = tape.node_at_offset(tape_offset) {
        let (_, parser, _) = parser.read_key();

        let (level_data, _, _) = parser.read_level_with_counts();
        assert!(level_data.is_some());
        let (level, active_neighbors, empty_count) = level_data.unwrap();
        assert_eq!(level, 0);
        assert_eq!(active_neighbors.len(), 1);
        assert_eq!(active_neighbors[0], new_neighbor);
        assert_eq!(empty_count, TEST_MAX_CONNECTIONS_LEVEL0 - 1);
    } else {
        panic!("Could not read back modified node");
    }
}

#[test]
fn test_swap_neighbor_multiple_levels() {
    let mut tape = GraphTape::<u32, 1024>::new(
        TEST_MAX_CONNECTIONS_LEVEL0,
        TEST_MAX_CONNECTIONS,
        TEST_MAX_LEVEL,
    );
    let node_data = create_test_hnsw_node_data();

    let node_id = tape.next_node_id();
    tape.append_node(node_id, &node_data).unwrap();

    // Swap neighbor in level 1 (originally NodeId([0x0B, 0x0C, 0x0D, 0x0E, 0x0F]))
    let old_neighbor = NodeId([0x0B, 0x0C, 0x0D, 0x0E, 0x0F]);
    let new_neighbor = NodeId([0xAA, 0xBB, 0xCC, 0xDD, 0xEE]);

    let swapped = tape.swap_neighbor(node_id, 1, old_neighbor, new_neighbor);
    assert!(swapped);

    // Verify level 0 is unchanged and level 1 is updated
    let tape_offset = tape.offsets[node_id.to_usize()];
    if let Some(parser) = tape.node_at_offset(tape_offset) {
        let (_, parser, _) = parser.read_key();

        // Check level 0 - should be unchanged
        let (level_data, next_parser, _) = parser.read_level_with_counts();
        assert!(level_data.is_some());
        let (level, active_neighbors, empty_count) = level_data.unwrap();
        assert_eq!(level, 0);
        assert_eq!(active_neighbors.len(), 2);
        assert_eq!(empty_count, TEST_MAX_CONNECTIONS_LEVEL0 - 2);
        assert_eq!(active_neighbors[0], NodeId([0x01, 0x02, 0x03, 0x04, 0x05]));
        assert_eq!(active_neighbors[1], NodeId([0x06, 0x07, 0x08, 0x09, 0x0A]));

        // Check level 1 - should be updated
        let parser = next_parser.unwrap();
        let (level_data, _, _) = parser.read_level_with_counts();
        assert!(level_data.is_some());
        let (level, active_neighbors, empty_count) = level_data.unwrap();
        assert_eq!(level, 1);
        assert_eq!(active_neighbors.len(), 1);
        assert_eq!(empty_count, TEST_MAX_CONNECTIONS - 1);
        assert_eq!(active_neighbors[0], new_neighbor);
    } else {
        panic!("Could not read back modified node");
    }
}

#[test]
fn test_swap_neighbor_nonexistent_level() {
    let mut tape = GraphTape::<u32, 1024>::new(
        TEST_MAX_CONNECTIONS_LEVEL0,
        TEST_MAX_CONNECTIONS,
        TEST_MAX_LEVEL,
    );
    let node_data = create_simple_node_data();

    let node_id = tape.next_node_id();
    tape.append_node(node_id, &node_data).unwrap();

    let old_neighbor = NodeId([0x01, 0x02, 0x03, 0x04, 0x05]);
    let new_neighbor = NodeId([0xFF, 0xFE, 0xFD, 0xFC, 0xFB]);

    // Try to swap at level 5 (doesn't exist)
    let swapped = tape.swap_neighbor(node_id, 5, old_neighbor, new_neighbor);
    assert!(!swapped);
}

#[test]
fn test_swap_neighbor_nonexistent_neighbor() {
    let mut tape = GraphTape::<u32, 1024>::new(
        TEST_MAX_CONNECTIONS_LEVEL0,
        TEST_MAX_CONNECTIONS,
        TEST_MAX_LEVEL,
    );
    let node_data = create_simple_node_data();

    let node_id = tape.next_node_id();
    tape.append_node(node_id, &node_data).unwrap();

    let fake_old_neighbor = NodeId([0x99, 0x98, 0x97, 0x96, 0x95]);
    let new_neighbor = NodeId([0xFF, 0xFE, 0xFD, 0xFC, 0xFB]);

    // Try to swap a neighbor that doesn't exist
    let swapped = tape.swap_neighbor(node_id, 0, fake_old_neighbor, new_neighbor);
    assert!(!swapped);
}

#[test]
fn test_swap_neighbor_nonexistent_node() {
    let mut tape = GraphTape::<u32, 1024>::new(
        TEST_MAX_CONNECTIONS_LEVEL0,
        TEST_MAX_CONNECTIONS,
        TEST_MAX_LEVEL,
    );
    let fake_node_id = NodeId([1, 2, 3, 4, 5]);

    let old_neighbor = NodeId([0x01, 0x02, 0x03, 0x04, 0x05]);
    let new_neighbor = NodeId([0xFF, 0xFE, 0xFD, 0xFC, 0xFB]);

    let swapped = tape.swap_neighbor(fake_node_id, 0, old_neighbor, new_neighbor);
    assert!(!swapped);
}

#[test]
fn test_node_id_recycling_after_remove() {
    let mut tape = GraphTape::<u32, 1024>::new(
        TEST_MAX_CONNECTIONS_LEVEL0,
        TEST_MAX_CONNECTIONS,
        TEST_MAX_LEVEL,
    );
    let node_data = create_simple_node_data();

    // Add and remove a node
    let node1_id = tape.next_node_id();
    tape.append_node(node1_id, &node_data).unwrap();

    let removed = tape.remove_node(node1_id);
    assert!(removed);

    // Add another node - should recycle the NodeId
    let node2_id = tape.next_node_id();
    tape.append_node(node2_id, &node_data).unwrap();
    assert_eq!(node2_id, node1_id); // Should reuse the same NodeId
}

#[test]
fn test_chunk_boundary_handling() {
    // Use very small chunk size to test boundary conditions
    let mut tape = GraphTape::<u32, 32>::new(
        TEST_MAX_CONNECTIONS_LEVEL0,
        TEST_MAX_CONNECTIONS,
        TEST_MAX_LEVEL,
    ); // Even smaller chunks
    let node_data = create_test_hnsw_node_data(); // This is about 25 bytes + 2 length prefix = ~27 bytes

    // Add multiple nodes to force chunk boundary crossings
    let mut node_ids = Vec::new();
    for _ in 0..3 {
        let node_id = tape.next_node_id();
        tape.append_node(node_id, &node_data).unwrap();
        node_ids.push(node_id);
    }

    // Should have created multiple chunks since each node is ~27 bytes and chunk is 32 bytes
    assert!(
        tape.tape.len() >= 2,
        "Expected at least 2 chunks, got {}",
        tape.tape.len()
    );
    assert_eq!(tape.offsets.len(), 4);

    // Verify all nodes can be read back correctly
    for (i, &node_id) in node_ids.iter().enumerate() {
        let tape_offset = tape.offsets[node_id.to_usize()];
        if let Some(parser) = tape.node_at_offset(tape_offset) {
            let (key, _, _) = parser.read_key();
            assert_eq!(key, 1000u32);
        } else {
            panic!(
                "Could not read back node {} at index {}",
                node_id.to_usize(),
                i
            );
        }
    }
}

#[test]
fn test_empty_slot_detection_and_add_neighbor() {
    // Create a node with empty neighbor slots (simulating HNSW node creation)
    let key = 42u64;
    let max_connections_level0 = 32;
    let max_connections = 16;

    let mut tape =
        GraphTape::<u64, 1024>::new(max_connections_level0, max_connections, TEST_MAX_LEVEL);

    let mut builder = NodeBuilder::new(max_connections_level0, max_connections).with_key(key);

    // Level 0: provision with EMPTY_NEIGHBOR placeholders
    let empty_neighbors_level0 = vec![empty_neighbor(); max_connections_level0];
    builder
        .set_neighbors_at_level(0, empty_neighbors_level0)
        .unwrap();

    // Level 1: provision with EMPTY_NEIGHBOR placeholders
    let empty_neighbors_level1 = vec![empty_neighbor(); max_connections];
    builder
        .set_neighbors_at_level(1, empty_neighbors_level1)
        .unwrap();

    let node_data = builder.to_bytes().unwrap();
    let node_id = tape.next_node_id();
    tape.append_node(node_id, &node_data).unwrap();

    // Verify the node was created and we can read it back
    let tape_offset = tape.offsets[node_id.to_usize()];
    let parser = tape
        .node_at_offset(tape_offset)
        .expect("Should be able to read node");
    let (parsed_key, mut parser, _) = parser.read_key();
    assert_eq!(parsed_key, key);

    // Verify level 0 has all empty slots
    let (level_data, next_parser, _) = parser.read_level_with_counts();
    assert!(level_data.is_some());
    let (level, active_neighbors, empty_count) = level_data.unwrap();
    assert_eq!(level, 0);
    assert_eq!(active_neighbors.len(), 0);
    assert_eq!(empty_count, max_connections_level0);
    parser = next_parser.unwrap();

    // Verify level 1 has all empty slots
    let (level_data, _next_parser, _) = parser.read_level_with_counts();
    assert!(level_data.is_some());
    let (level, active_neighbors, empty_count) = level_data.unwrap();
    assert_eq!(level, 1);
    assert_eq!(active_neighbors.len(), 0);
    assert_eq!(empty_count, max_connections);

    // Now test add_neighbor functionality
    let new_neighbor = NodeId([1, 2, 3, 4, 5]);

    // This should succeed since we have empty slots at level 0
    let result = tape.add_neighbor(node_id, 0, new_neighbor);
    assert!(
        result,
        "add_neighbor should succeed when empty slots are available"
    );

    // Verify the neighbor was added
    let tape_offset = tape.offsets[node_id.to_usize()];
    let parser = tape
        .node_at_offset(tape_offset)
        .expect("Should be able to read node after neighbor addition");
    let (_, mut parser, _) = parser.read_key();

    let (level_data, next_parser, _) = parser.read_level_with_counts();
    assert!(level_data.is_some());
    let (level, active_neighbors, empty_count) = level_data.unwrap();
    assert_eq!(level, 0);
    assert_eq!(active_neighbors.len(), 1, "Should have 1 active neighbor");
    assert_eq!(
        empty_count,
        max_connections_level0 - 1,
        "Should have 1 less empty slot"
    );
    assert_eq!(
        active_neighbors[0], new_neighbor,
        "Should contain the added neighbor"
    );
    parser = next_parser.unwrap();

    // Verify level 1 is still unchanged
    let (level_data, _next_parser, _) = parser.read_level_with_counts();
    assert!(level_data.is_some());
    let (level, active_neighbors, empty_count) = level_data.unwrap();
    assert_eq!(level, 1);
    assert_eq!(active_neighbors.len(), 0);
    assert_eq!(empty_count, max_connections);

    // Test adding another neighbor at level 1
    let another_neighbor = NodeId([6, 7, 8, 9, 10]);
    let result = tape.add_neighbor(node_id, 1, another_neighbor);
    assert!(
        result,
        "add_neighbor should succeed at level 1 when empty slots are available"
    );
}

#[test]
fn test_add_neighbor_no_empty_slots() {
    let mut tape = GraphTape::<u32, 1024>::new(2, 2, TEST_MAX_LEVEL);

    // Create a node with NO empty slots (all slots filled)
    let key = 123u32;
    let neighbor1 = NodeId([1, 1, 1, 1, 1]);
    let neighbor2 = NodeId([2, 2, 2, 2, 2]);

    let mut builder = NodeBuilder::new(2, 2).with_key(key);
    let filled_neighbors = vec![neighbor1, neighbor2]; // Only 2 slots, both filled
    builder.set_neighbors_at_level(0, filled_neighbors).unwrap();

    let node_data = builder.to_bytes().unwrap();
    let node_id = tape.next_node_id();
    tape.append_node(node_id, &node_data).unwrap();

    // Verify no empty slots
    let tape_offset = tape.offsets[node_id.to_usize()];
    let parser = tape
        .node_at_offset(tape_offset)
        .expect("Should be able to read node");
    let (_, parser, _) = parser.read_key();
    let (level_data, _next_parser, _) = parser.read_level_with_counts();
    assert!(level_data.is_some());
    let (level, active_neighbors, empty_count) = level_data.unwrap();
    assert_eq!(level, 0);
    assert_eq!(active_neighbors.len(), 2);
    assert_eq!(empty_count, 0); // No empty slots

    // Try to add a neighbor - should fail
    let new_neighbor = NodeId([3, 3, 3, 3, 3]);
    let result = tape.add_neighbor(node_id, 0, new_neighbor);
    assert!(
        !result,
        "add_neighbor should fail when no empty slots are available"
    );
}


#[test]
fn test_neighbors_at_level_ptr() {
    let mut tape = GraphTape::<u32, 1024>::new(TEST_MAX_CONNECTIONS_LEVEL0, TEST_MAX_CONNECTIONS, TEST_MAX_LEVEL);
    let node_data = create_test_hnsw_node_data();
    let node_id = tape.next_node_id();
    tape.append_node(node_id, &node_data).unwrap();

    let result = tape.neighbors_at_level_ptr(&node_id, 0);
    assert!(result.is_some());
    let (_, _, count) = result.unwrap();
    assert_eq!(count, 2);
    let neighbors = tape.neighbors_at_level(&node_id, 0).unwrap();
    assert_eq!(neighbors[0], NodeId([0x01, 0x02, 0x03, 0x04, 0x05]));
    assert_eq!(neighbors[1], NodeId([0x06, 0x07, 0x08, 0x09, 0x0A]));

    let result = tape.neighbors_at_level_ptr(&node_id, 1);
    assert!(result.is_some());
    let (_, _, count) = result.unwrap();
    assert_eq!(count, 1);
    let neighbors = tape.neighbors_at_level(&node_id, 1).unwrap();
    assert_eq!(neighbors[0], NodeId([0x0B, 0x0C, 0x0D, 0x0E, 0x0F]));

    assert!(tape.neighbors_at_level_ptr(&node_id, 99).is_none());
    let fake_node_id = NodeId([0xFF, 0xFF, 0xFF, 0xFF, 0xFF]);
    assert!(tape.neighbors_at_level_ptr(&fake_node_id, 0).is_none());
}

#[test]
fn test_neighbors_at_level_ptr_vs_original() {
    let mut tape = GraphTape::<u32, 1024>::new(TEST_MAX_CONNECTIONS_LEVEL0, TEST_MAX_CONNECTIONS, TEST_MAX_LEVEL);
    let node_data = create_test_hnsw_node_data();
    let node_id = tape.next_node_id();
    tape.append_node(node_id, &node_data).unwrap();
    for level in 0..3 {
        let listed = tape.neighbors_at_level(&node_id, level);
        let located = tape.neighbors_at_level_ptr(&node_id, level);
        match (listed, located) {
            (Some(list), Some((_, _, count))) => assert_eq!(list.len(), count),
            (None, None) => {}
            _ => panic!("Mismatch between listed and located neighbors at level {level}"),
        }
    }
}

#[test]
fn adding_to_a_full_level_is_refused_and_changes_nothing() {
    let mut tape = GraphTape::<u32, 1024>::new(
        TEST_MAX_CONNECTIONS_LEVEL0,
        TEST_MAX_CONNECTIONS,
        TEST_MAX_LEVEL,
    );
    let node_data = create_test_hnsw_node_data();
    let node_id = tape.next_node_id();
    tape.append_node(node_id, &node_data).unwrap();
    let before = tape.neighbors_at_level(&node_id, 0).unwrap();
    assert_eq!(before.len(), TEST_MAX_CONNECTIONS_LEVEL0);

    let newcomer = NodeId([0x21, 0x22, 0x23, 0x24, 0x25]);
    assert!(!tape.swap_neighbor(node_id, 0, empty_neighbor(), newcomer));
    assert_eq!(tape.neighbors_at_level(&node_id, 0).unwrap(), before);
    assert!(!tape.swap_neighbor(node_id, 1, empty_neighbor(), newcomer));

    // Once a slot is freed, the same addition goes through.
    let first = before[0];
    assert!(tape.swap_neighbor(node_id, 0, first, empty_neighbor()));
    assert!(tape.swap_neighbor(node_id, 0, empty_neighbor(), newcomer));
    let after = tape.neighbors_at_level(&node_id, 0).unwrap();
    assert_eq!(after.len(), 2);
    assert!(after.contains(&newcomer));
    assert!(!after.contains(&first));
}
