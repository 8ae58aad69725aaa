use diffviz::hnsw::neighbor_diff::{diff_neighbors, id_less, sorted_copy};
use diffviz::hnsw::node_id::NodeId;
use diffviz::hnsw::tape_mutations::TapeMutation;

fn id(byte: u8) -> NodeId {
    NodeId([byte, 0, 0, 0, 0])
}

#[test]
fn diff_neighbors_prefers_swaps_when_possible() {
    let old = vec![id(1), id(2), id(3)];
    let new = [id(1), id(4), id(3)];
    let mutations = diff_neighbors(&id(9), 0, &old, &new);
    assert_eq!(mutations.len(), 1);
    match &mutations[0] {
        TapeMutation::Swap { old, new, .. } => {
            assert_eq!(*old, id(2));
            assert_eq!(*new, id(4));
        }
        other => panic!("expected swap mutation, got {other:?}"),
    }
}

#[test]
fn diff_neighbors_emits_add_for_extra_neighbors() {
    let old = vec![id(1), id(2)];
    let new = [id(2), id(3), id(4)];
    let mutations = diff_neighbors(&id(9), 0, &old, &new);
    assert_eq!(mutations.len(), 2);
    assert!(matches!(mutations[0], TapeMutation::Swap { old, new, .. } if old == id(1) && new == id(3)));
    assert!(matches!(mutations[1], TapeMutation::Add { neighbor, .. } if neighbor == id(4)));
}

#[test]
fn diff_neighbors_drops_what_is_gone() {
    let old = vec![id(5), id(1), id(3)];
    let new = [id(3)];
    let mutations = diff_neighbors(&id(9), 2, &old, &new);
    assert_eq!(mutations.len(), 2);
    assert!(matches!(mutations[0], TapeMutation::Drop { node, level: 2, neighbor } if neighbor == id(1) && node == id(9)));
    assert!(matches!(mutations[1], TapeMutation::Drop { neighbor, .. } if neighbor == id(5)));
    assert!(diff_neighbors(&id(9), 0, &new, &new).is_empty());
}

#[test]
fn byte_order_compares_first_byte_first() {
    assert!(id_less(&NodeId([0, 9, 9, 9, 9]), &NodeId([1, 0, 0, 0, 0])));
    assert!(!id_less(&NodeId([1, 0, 0, 0, 0]), &NodeId([1, 0, 0, 0, 0])));
    let sorted = sorted_copy(&[id(3), NodeId([1, 2, 0, 0, 0]), id(1), id(3)]);
    assert_eq!(sorted, vec![id(1), NodeId([1, 2, 0, 0, 0]), id(3), id(3)]);
}
