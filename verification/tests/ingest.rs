use sift::ingest::{embedding_batches, index_embedded_functions, order_pending, pending_functions_for_file, PendingFunction};
use sift::language_specs::rust_spec;

fn pending(path: &str, source: &str, line: usize) -> PendingFunction {
    PendingFunction { path: path.to_string(), header: format!("h{line}"), source: source.to_string(), line_number: line }
}

#[test]
fn pending_functions_are_ordered_by_length_path_and_line() {
    let items = vec![
        pending("b.rs", "fn long() {}", 3),
        pending("b.rs", "fn x() {}", 9),
        pending("a.rs", "fn y() {}", 5),
        pending("a.rs", "fn z() {}", 1),
        pending("a.rs", "fn", 7),
    ];
    let ordered = order_pending(items);
    let keys: Vec<(String, usize)> = ordered.iter().map(|p| (p.path.clone(), p.line_number)).collect();
    assert_eq!(
        keys,
        vec![
            ("a.rs".to_string(), 7),
            ("a.rs".to_string(), 1),
            ("a.rs".to_string(), 5),
            ("b.rs".to_string(), 9),
            ("b.rs".to_string(), 3),
        ]
    );
    assert_eq!(ordered[0].header, "h7");
}

#[test]
fn source_length_counts_bytes() {
    let ordered = order_pending(vec![pending("a.rs", "ééé", 1), pending("a.rs", "abcd", 2)]);
    assert_eq!(ordered[0].line_number, 2);
}

#[test]
fn equal_keys_keep_their_input_order() {
    let ordered = order_pending(vec![
        PendingFunction { path: "a.rs".to_string(), header: "first".to_string(), source: "fn x() {}".to_string(), line_number: 4 },
        PendingFunction { path: "a.rs".to_string(), header: "second".to_string(), source: "fn y() {}".to_string(), line_number: 4 },
        PendingFunction { path: "a.rs".to_string(), header: "shorter".to_string(), source: "fn z(){}".to_string(), line_number: 9 },
    ]);
    let headers: Vec<&str> = ordered.iter().map(|p| p.header.as_str()).collect();
    assert_eq!(headers, vec!["shorter", "first", "second"]);
}

#[test]
fn batches_cover_every_function() {
    assert_eq!(embedding_batches(0), vec![]);
    assert_eq!(embedding_batches(3), vec![(0, 3)]);
    assert_eq!(embedding_batches(1024), vec![(0, 1024)]);
    assert_eq!(embedding_batches(2500), vec![(0, 1024), (1024, 2048), (2048, 2500)]);
}

#[test]
fn functions_of_a_file_carry_its_path() {
    let source = "fn a() {}\nfn b() { 1 }\n";
    let found = pending_functions_for_file("src/x.rs", &rust_spec(), source).ok().unwrap();
    assert_eq!(found.len(), 2);
    assert_eq!(found[0].path, "src/x.rs");
    assert_eq!(found[1].source, "fn b() { 1 }");
    assert_eq!(found[1].line_number, 2);
}

#[test]
fn embedded_functions_become_records_in_order() {
    let points: Vec<f32> = (0..30).map(|i| i as f32 * 0.1).collect();
    let sim = |a: usize, b: usize| -(((points[a] - points[b]).abs() * 1000.0) as i32);
    let levels: Vec<usize> = (0..30).map(|i| i % 3).collect();
    let index = index_embedded_functions(&levels, &sim);
    assert_eq!(index.nodes.len(), 30);
    assert_eq!(index.m, 32);
    assert_eq!(index.ef, 256);
    for (i, node) in index.nodes.iter().enumerate() {
        assert_eq!(node.record_id, i);
        assert_eq!(node.neighbours.len(), levels[i] + 1);
    }
    assert_eq!(index.max_layer, 2);
}
