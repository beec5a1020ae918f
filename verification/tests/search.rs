use sift::cli::Cli;
use sift::index::{PersistedHnswIndex, PersistedHnswNode};
use sift::search::{query_search, record_positions, search_using_brute_force, search_using_hnsw, SearchError};

fn args(keywords: Option<&str>, top: usize, exact: bool) -> Cli {
    Cli { keywords: keywords.map(|k| k.to_string()), top, exact, commands: None }
}

#[test]
fn missing_query_is_refused_first() {
    assert_eq!(query_search(&args(None, 3, false), 0).unwrap_err(), SearchError::MissingQuery);
    assert_eq!(query_search(&args(None, 3, false), 5).unwrap_err(), SearchError::MissingQuery);
}

#[test]
fn empty_index_is_refused() {
    assert_eq!(query_search(&args(Some("q"), 3, false), 0).unwrap_err(), SearchError::EmptyIndex);
    assert!(SearchError::EmptyIndex.message().contains("sift ingest"));
}

#[test]
fn request_carries_the_arguments() {
    let request = query_search(&args(Some("load index"), 7, true), 2).unwrap();
    assert_eq!(request.keywords, "load index");
    assert_eq!(request.top_k, 7);
    assert!(request.exact);
}

#[test]
fn brute_force_ranks_by_score_then_position() {
    let scores = vec![5, 9, -2, 9, 7];
    assert_eq!(search_using_brute_force(&scores, 3), vec![1, 3, 4]);
    assert_eq!(search_using_brute_force(&scores, 10), vec![1, 3, 4, 0, 2]);
    assert_eq!(search_using_brute_force(&scores, 0), Vec::<usize>::new());
}

#[test]
fn record_ids_resolve_to_the_last_position() {
    let ids = vec![4, 7, 4, 9];
    assert_eq!(record_positions(&ids, &vec![4, 8, 9, 7]), vec![2, 3, 1]);
}

fn graph() -> PersistedHnswIndex {
    PersistedHnswIndex {
        nodes: vec![
            PersistedHnswNode { record_id: 0, neighbours: vec![vec![1, 2]] },
            PersistedHnswNode { record_id: 1, neighbours: vec![vec![0, 2]] },
            PersistedHnswNode { record_id: 2, neighbours: vec![vec![0, 1]] },
        ],
        entry_point: Some(0),
        max_layer: 0,
        m: 2,
        ef: 3,
    }
}

#[test]
fn graph_search_resolves_records() {
    let scores = [1, 30, 20];
    let ids = vec![0, 1, 2];
    let found = search_using_hnsw(graph(), &ids, |i: usize| scores[i], 2).unwrap();
    assert_eq!(found, vec![1, 2]);
}

#[test]
fn corrupt_graph_is_refused() {
    let mut g = graph();
    g.nodes[0].neighbours[0] = vec![3];
    let ids = vec![0, 1, 2];
    assert_eq!(search_using_hnsw(g, &ids, |_i: usize| 0, 2).unwrap_err(), SearchError::CorruptGraph);
    let empty = PersistedHnswIndex { nodes: vec![], entry_point: None, max_layer: 0, m: 2, ef: 3 };
    assert_eq!(search_using_hnsw(empty, &ids, |_i: usize| 0, 2).unwrap_err(), SearchError::CorruptGraph);
}
