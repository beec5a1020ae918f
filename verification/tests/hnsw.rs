use sift::hnsw::{
    calculate_most_similiar_neighbours, insert, prune, search, search_greedy, search_layer, HnswIndex, Node,
};
use sift::scoring::QueryScorer;

fn cosine(a: &[f32], b: &[f32]) -> f32 {
    let mut dot = 0.0f32;
    let mut aa = 0.0f32;
    let mut bb = 0.0f32;
    for i in 0..a.len() {
        dot += a[i] * b[i];
        aa += a[i] * a[i];
        bb += b[i] * b[i];
    }
    dot / (aa.sqrt() * bb.sqrt())
}

/// An integer whose order is the total order of the float.
fn key(x: f32) -> i32 {
    let bits = x.to_bits() as i32;
    bits ^ ((((bits >> 31) as u32) >> 1) as i32)
}

fn empty_index() -> HnswIndex {
    HnswIndex { nodes: Vec::new(), entry_point: None, max_layer: 0, m: 2, ef: 2 }
}

fn node(id: usize, neighbours: Vec<Vec<usize>>) -> Node {
    Node { id, neighbours, record_id: id }
}

fn insert_embedding(index: &mut HnswIndex, embeddings: &mut Vec<Vec<f32>>, record_id: usize, embedding: Vec<f32>, level: usize) {
    embeddings.push(embedding);
    let table = embeddings.clone();
    let sim = move |a: usize, b: usize| key(cosine(&table[a], &table[b]));
    insert(index, record_id, level, &sim);
}

#[test]
fn first_insert_sets_entry_point_and_stores_node() {
    let mut index = empty_index();
    let mut embeddings = Vec::new();

    insert_embedding(&mut index, &mut embeddings, 0, vec![1.0, 0.0], 0);

    assert_eq!(index.entry_point, Some(0));
    assert_eq!(index.nodes.len(), 1);
    assert_eq!(index.nodes[0].id, 0);
    assert_eq!(embeddings[index.nodes[0].id], vec![1.0, 0.0]);
    assert!(index.nodes[0].neighbours[0].is_empty());
}

#[test]
fn second_insert_links_new_node_bidirectionally_to_entry_point() {
    let mut index = empty_index();
    let mut embeddings = Vec::new();

    insert_embedding(&mut index, &mut embeddings, 0, vec![1.0, 0.0], 0);
    insert_embedding(&mut index, &mut embeddings, 0, vec![0.9, 0.1], 0);

    assert_eq!(index.nodes.len(), 2);
    assert_eq!(index.nodes[0].neighbours[0], vec![1]);
    assert_eq!(index.nodes[1].neighbours[0], vec![0]);
}

#[test]
fn insert_uses_search_layer_to_link_to_closest_reachable_nodes() {
    let mut index = HnswIndex {
        nodes: vec![node(0, vec![vec![1]]), node(1, vec![vec![0]])],
        entry_point: Some(0),
        m: 2,
        ef: 2,
        max_layer: 0,
    };
    let mut embeddings = vec![vec![1.0, 0.0], vec![0.0, 1.0]];

    insert_embedding(&mut index, &mut embeddings, 0, vec![0.0, 0.9], 0);

    assert_eq!(index.nodes[2].neighbours[0], vec![1, 0]);
    assert_eq!(index.nodes[1].neighbours[0], vec![0, 2]);
    assert_eq!(index.nodes[0].neighbours[0], vec![1, 2]);
}

#[test]
fn taller_inserted_node_becomes_entry_point_and_updates_max_layer() {
    let mut index = HnswIndex {
        nodes: vec![node(0, vec![Vec::new()])],
        entry_point: Some(0),
        m: 2,
        ef: 2,
        max_layer: 0,
    };
    let mut embeddings = vec![vec![1.0, 0.0]];

    insert_embedding(&mut index, &mut embeddings, 1, vec![0.9, 0.1], 2);

    assert_eq!(index.entry_point, Some(1));
    assert_eq!(index.max_layer, 2);
    assert_eq!(index.nodes[1].neighbours.len(), 3);
}

#[test]
fn search_layer_returns_up_to_ef_best_reachable_nodes() {
    let index = HnswIndex {
        nodes: vec![node(0, vec![vec![1, 2]]), node(1, vec![vec![0]]), node(2, vec![vec![0]])],
        entry_point: Some(0),
        m: 2,
        ef: 2,
        max_layer: 3,
    };
    let embeddings = vec![vec![1.0, 0.0], vec![0.0, 1.0], vec![0.9, 0.1]];
    let query = vec![1.0f32, 0.0];
    let scorer = QueryScorer::new(|i: usize| key(cosine(&embeddings[i], &query)), embeddings.len());

    let results = search_layer(&index, &scorer, 0, index.ef, 0);

    assert_eq!(results.len(), 2);
    assert_eq!(results[0].0, 0);
    assert_eq!(results[1].0, 2);
    assert!(results[0].1 > results[1].1);
}

#[test]
fn search_descends_upper_layers_then_returns_top_k_from_layer_zero() {
    let index = HnswIndex {
        nodes: vec![
            node(0, vec![vec![1], vec![2]]),
            node(1, vec![vec![0, 2]]),
            node(2, vec![vec![0, 1], vec![0]]),
        ],
        entry_point: Some(0),
        m: 2,
        ef: 3,
        max_layer: 1,
    };
    let embeddings = vec![vec![1.0, 0.0], vec![0.0, 1.0], vec![0.9, 0.1]];
    let query = vec![0.8f32, 0.2];
    let scorer = QueryScorer::new(|i: usize| key(cosine(&embeddings[i], &query)), embeddings.len());

    let results = search(&index, &scorer, index.ef, 2);

    assert_eq!(results, vec![2, 0]);
}

#[test]
fn search_greedy_stops_when_no_neighbour_is_more_similar() {
    let index = HnswIndex {
        max_layer: 3,
        nodes: vec![node(0, vec![vec![1]]), node(1, vec![vec![0]])],
        entry_point: Some(0),
        m: 2,
        ef: 2,
    };
    let embeddings = vec![vec![1.0, 0.0], vec![0.0, 1.0]];
    let query = vec![0.9f32, 0.1];
    let scorer = QueryScorer::new(|i: usize| key(cosine(&embeddings[i], &query)), embeddings.len());

    assert_eq!(search_greedy(&index, &scorer, 0, 0), 0);
}

#[test]
fn calculate_most_similar_neighbours_sorts_by_descending_similarity() {
    let index = HnswIndex {
        max_layer: 3,
        nodes: vec![node(0, vec![vec![1, 2]]), node(1, vec![vec![0]]), node(2, vec![vec![0]])],
        entry_point: Some(0),
        m: 2,
        ef: 2,
    };
    let embeddings = vec![vec![1.0, 0.0], vec![0.0, 1.0], vec![0.8, 0.2]];
    let query = vec![1.0f32, 0.0];
    let scorer = QueryScorer::new(|i: usize| key(cosine(&embeddings[i], &query)), embeddings.len());

    let neighbours = calculate_most_similiar_neighbours(&index.nodes[0], &scorer, &index, 0);

    assert_eq!(neighbours.len(), 2);
    assert_eq!(neighbours[0].0, 2);
    assert_eq!(neighbours[1].0, 1);
    assert!(neighbours[0].1 > neighbours[1].1);
}

#[test]
fn prune_keeps_only_the_m_most_similar_neighbours() {
    let mut index = HnswIndex {
        nodes: vec![
            node(0, vec![vec![1, 2, 3]]),
            node(1, vec![vec![0]]),
            node(2, vec![vec![0]]),
            node(3, vec![vec![0]]),
        ],
        max_layer: 3,
        entry_point: Some(0),
        m: 2,
        ef: 3,
    };
    let embeddings = vec![vec![1.0, 0.0], vec![1.0, 0.0], vec![0.0, 1.0], vec![0.8, 0.2]];
    let sim = |a: usize, b: usize| key(cosine(&embeddings[a], &embeddings[b]));

    prune(&mut index, 0, 0, &sim);

    assert_eq!(index.nodes[0].neighbours[0], vec![1, 3]);
    assert!(!index.nodes[2].neighbours[0].contains(&0));
}

#[test]
fn insertion_keeps_every_node_within_max_degree() {
    let mut index = empty_index();
    let mut embeddings = Vec::new();
    let levels = [0usize, 1, 0, 0, 2, 0, 1, 0, 0, 0, 3, 0, 1, 0, 0, 0, 0, 2, 0, 1];

    for i in 0..20 {
        insert_embedding(&mut index, &mut embeddings, 0, vec![1.0, i as f32 / 100.0], levels[i]);
    }

    assert!(index.nodes.iter().all(|node| node.neighbours[0].len() <= index.m));
}

#[test]
fn insertion_keeps_every_layer_within_max_degree_and_links_valid() {
    let mut index = HnswIndex::new(3, 4);
    let mut embeddings = Vec::new();
    for i in 0..40usize {
        let angle = i as f32 * 0.37;
        insert_embedding(&mut index, &mut embeddings, 100 + i, vec![angle.cos(), angle.sin()], i % 4);
    }
    assert_eq!(index.nodes.len(), 40);
    for (i, node) in index.nodes.iter().enumerate() {
        assert_eq!(node.id, i);
        assert_eq!(node.record_id, 100 + i);
        for (layer, list) in node.neighbours.iter().enumerate() {
            assert!(list.len() <= index.m);
            for &j in list {
                assert!(j < index.nodes.len());
                assert!(layer < index.nodes[j].neighbours.len());
            }
        }
    }
    let e = index.entry_point.unwrap();
    assert_eq!(index.nodes[e].neighbours.len(), index.max_layer + 1);
}

#[test]
fn method_search_returns_at_most_top_k_records() {
    let mut index = HnswIndex::new(4, 8);
    let mut embeddings = Vec::new();
    for i in 0..10usize {
        let angle = i as f32 * 0.3;
        insert_embedding(&mut index, &mut embeddings, 50 + i, vec![angle.cos(), angle.sin()], i % 2);
    }
    let query = vec![1.0f32, 0.0];
    let table = embeddings.clone();
    let results = index.search(move |i: usize| key(cosine(&table[i], &query)), 3);
    assert!(results.len() <= 3);
    assert_eq!(results[0], 50);
}

#[test]
fn float_keys_follow_the_order_of_similarity() {
    let values = [-1.0f32, -0.5, -0.0, 0.0, 0.25, 0.5, 1.0];
    for w in values.windows(2) {
        assert!(key(w[0]) <= key(w[1]));
    }
}

#[test]
fn insertion_keeps_links_both_ways() {
    let mut index = HnswIndex::new(3, 5);
    let mut embeddings = Vec::new();
    for i in 0..60usize {
        let angle = (i * 7 % 13) as f32 * 0.41 + i as f32 * 0.01;
        insert_embedding(&mut index, &mut embeddings, i, vec![angle.cos(), angle.sin(), (i % 5) as f32 * 0.1], i % 3);
    }
    for (i, node) in index.nodes.iter().enumerate() {
        for (layer, list) in node.neighbours.iter().enumerate() {
            assert!(!list.contains(&i));
            for (a, &j) in list.iter().enumerate() {
                assert!(!list[a + 1..].contains(&j));
                assert!(index.nodes[j].neighbours[layer].contains(&i));
            }
        }
    }
}

#[test]
fn graph_search_returns_each_record_once() {
    let mut index = HnswIndex::new(2, 6);
    let mut embeddings = Vec::new();
    for i in 0..25usize {
        let angle = i as f32 * 0.25;
        insert_embedding(&mut index, &mut embeddings, 1000 + i, vec![angle.cos(), angle.sin()], i % 2);
    }
    let query = vec![0.0f32, 1.0];
    let table = embeddings.clone();
    let results = index.search(move |i: usize| key(cosine(&table[i], &query)), 6);
    let mut sorted = results.clone();
    sorted.sort();
    sorted.dedup();
    assert_eq!(sorted.len(), results.len());
}
