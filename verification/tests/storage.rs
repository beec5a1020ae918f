use sift::hnsw::HnswIndex;
use sift::index::{from_persisted, load_hnsw_index, persisted_graph_wf, save_hnsw_index, to_persisted, PersistedHnswIndex, PersistedHnswNode};

fn sample() -> PersistedHnswIndex {
    PersistedHnswIndex {
        nodes: vec![
            PersistedHnswNode { record_id: 10, neighbours: vec![vec![1], vec![]] },
            PersistedHnswNode { record_id: 20, neighbours: vec![vec![0]] },
        ],
        ef: 8,
        entry_point: Some(0),
        m: 32,
        max_layer: 1,
    }
}

#[test]
fn hnsw_index_round_trips() {
    let original_hnsw_index = sample();

    let bytes = save_hnsw_index(&original_hnsw_index).unwrap();
    let loaded: PersistedHnswIndex = load_hnsw_index(&bytes).unwrap();
    assert_eq!(loaded, original_hnsw_index);
}

#[test]
fn stored_bytes_follow_the_field_order() {
    let bytes = save_hnsw_index(&sample()).unwrap();
    // two nodes; node 10 with two layers [[1], []]; node 20 with one layer [[0]];
    // entry point Some(0); max layer 1; m 32; ef 8
    assert_eq!(bytes, vec![2, 10, 2, 1, 1, 0, 20, 1, 1, 0, 1, 0, 1, 32, 8]);
}

#[test]
fn truncated_bytes_are_refused() {
    let bytes = save_hnsw_index(&sample()).unwrap();
    assert!(load_hnsw_index(&bytes[..bytes.len() - 1]).is_err());
}

#[test]
fn graph_checks_reject_dangling_links() {
    assert!(persisted_graph_wf(&sample()));
    let mut broken = sample();
    broken.nodes[1].neighbours[0] = vec![5];
    assert!(!persisted_graph_wf(&broken));
    assert!(from_persisted(broken).is_none());
}

#[test]
fn graph_checks_reject_a_short_entry_point() {
    let mut broken = sample();
    broken.max_layer = 3;
    assert!(!persisted_graph_wf(&broken));
    let mut no_entry = sample();
    no_entry.entry_point = None;
    assert!(!persisted_graph_wf(&no_entry));
}

#[test]
fn rebuilt_graph_numbers_nodes_by_position_and_stores_back() {
    let index: HnswIndex = from_persisted(sample()).unwrap();
    assert_eq!(index.nodes.len(), 2);
    assert_eq!(index.nodes[1].id, 1);
    assert_eq!(index.nodes[1].record_id, 20);
    assert_eq!(to_persisted(index), sample());
}

#[test]
fn a_node_above_the_top_layer_is_not_well_formed_but_can_be_searched() {
    let mut high = sample();
    high.nodes[1].neighbours = vec![vec![0], vec![], vec![]];
    assert!(!persisted_graph_wf(&high));
    let index: HnswIndex = from_persisted(high).unwrap();
    assert_eq!(index.nodes[1].neighbours.len(), 3);
    assert_eq!(index.search(|i: usize| if i == 1 { 5 } else { 1 }, 2), vec![20, 10]);
}

#[test]
fn an_entry_point_above_the_top_layer_can_be_searched() {
    let mut tall = sample();
    tall.max_layer = 0;
    assert!(!persisted_graph_wf(&tall));
    let index: HnswIndex = from_persisted(tall).unwrap();
    assert_eq!(index.search(|i: usize| if i == 1 { 5 } else { 1 }, 2), vec![20, 10]);
}
