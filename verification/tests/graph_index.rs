use diffviz::hnsw::graph_index::HnswGraph;
use diffviz::hnsw::node::NodeBuilder;
use diffviz::hnsw::node_id::NodeId;
use diffviz::hnsw::tape_mutations::{MutationError, TapeMutation};

type Graph = HnswGraph<u32, 1024>;

fn node(key: u32, level: u8) -> NodeBuilder<u32> {
    NodeBuilder::with_hnsw_levels(key, level, 4, 2).unwrap()
}

#[test]
fn new_graph_is_empty() {
    let g = Graph::new(2, 4, 3);
    assert!(g.is_empty());
    assert_eq!(g.len(), 0);
    assert_eq!(g.entry_point(), None);
    assert_eq!(g.capacity_for_level(0), 4);
    assert_eq!(g.capacity_for_level(2), 2);
    assert_eq!(g.graph_chunks_count(), 0);
    assert!(g.get_graph_chunk(0).is_err());
}

#[test]
fn first_node_becomes_entry_point() {
    let mut g = Graph::new(2, 4, 3);
    let id = g.graph_tape.next_node_id();
    assert_eq!(g.finalize_insertion(node(7, 2), id, vec![], 2), Ok(id));
    assert_eq!(g.len(), 1);
    assert_eq!(g.entry_point(), Some(id));
    assert_eq!(g.node_level(&id), 2);
    let meta = g.get_metadata();
    assert_eq!(meta.entry_point, Some(id));
    assert_eq!(meta.node_count, 1);
    assert_eq!(meta.max_connections, 2);
    assert_eq!(meta.max_connections_level0, 4);
    assert_eq!(meta.max_level, 3);
}

#[test]
fn higher_node_takes_over_entry_point() {
    let mut g = Graph::new(2, 4, 3);
    let a = g.graph_tape.next_node_id();
    g.finalize_insertion(node(1, 1), a, vec![], 1).unwrap();
    let b = g.graph_tape.next_node_id();
    let edits = vec![
        TapeMutation::Add { node: b, level: 0, neighbor: a },
        TapeMutation::Add { node: a, level: 0, neighbor: b },
    ];
    g.finalize_insertion(node(2, 1), b, edits, 1).unwrap();
    assert_eq!(g.entry_point(), Some(a));
    assert_eq!(g.neighbors_at_level(&a, 0), Some(vec![b]));
    assert_eq!(g.neighbors_at_level(&b, 0), Some(vec![a]));
    let c = g.graph_tape.next_node_id();
    g.finalize_insertion(node(3, 3), c, vec![], 3).unwrap();
    assert_eq!(g.entry_point(), Some(c));
    assert_eq!(g.len(), 3);
    assert_eq!(g.get_graph_offsets().unwrap().len(), 4);
}

#[test]
fn failed_edit_is_reported_and_not_counted() {
    let mut g = Graph::new(2, 4, 3);
    let a = g.graph_tape.next_node_id();
    g.finalize_insertion(node(1, 0), a, vec![], 0).unwrap();
    let b = g.graph_tape.next_node_id();
    let ghost = NodeId([9, 9, 9, 9, 9]);
    let edits = vec![TapeMutation::Drop { node: a, level: 0, neighbor: ghost }];
    let r = g.finalize_insertion(node(2, 0), b, edits, 0);
    assert_eq!(r, Err(MutationError::NeighborNotFound { node_id: a, level: 0, neighbor: ghost }));
    assert_eq!(g.len(), 1);
    assert_eq!(g.entry_point(), Some(a));
}

#[test]
fn builder_without_key_is_refused() {
    let mut g = Graph::new(2, 4, 3);
    let id = g.graph_tape.next_node_id();
    let r = g.finalize_insertion(NodeBuilder::new(4, 2), id, vec![], 0);
    assert_eq!(r, Err(MutationError::NoEmptySlots { node_id: id, level: 0 }));
    assert!(g.is_empty());
    assert_eq!(g.node_level(&id), 0);
}
