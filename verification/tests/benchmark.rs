use sift::benchmark::{
    check_benchmark_arguments, check_evaluation_top, check_index_len, check_judgements, ideal_relevances, read_queries,
    recall_overlap, relevance_for_result, BenchmarkError, JudgedQuery, JudgementError, RelevantFunction,
};

fn relevant(path: &str, header: &str, relevance: u8) -> RelevantFunction {
    RelevantFunction { path: path.to_string(), header: header.to_string(), relevance }
}

/// Reads judgements the way the program does: JSON into plain values, then
/// the library's checks.
fn parse_judgements(contents: &str) -> Result<Vec<JudgedQuery>, String> {
    let value: serde_json::Value = serde_json::from_str(contents).map_err(|e| e.to_string())?;
    let mut judgements = Vec::new();
    for entry in value.as_array().ok_or("not a list")? {
        let query = entry["query"].as_str().ok_or("no query")?.to_string();
        let mut list = Vec::new();
        for f in entry["relevant"].as_array().ok_or("no relevant")? {
            list.push(relevant(
                f["path"].as_str().ok_or("no path")?,
                f["header"].as_str().ok_or("no header")?,
                u8::try_from(f["relevance"].as_u64().ok_or("no relevance")?).map_err(|e| e.to_string())?,
            ));
        }
        judgements.push(JudgedQuery { query, relevant: list });
    }
    check_judgements(judgements).map_err(|e| e.message().to_string())
}

#[test]
fn parses_labelled_queries() {
    let contents = r#"
        [
          {
            "query": "walk directories in parallel",
            "relevant": [
              {
                "path": "crates/ignore/src/walk.rs",
                "header": "pub fn build_parallel(self)",
                "relevance": 3
              },
              {
                "path": "crates/ignore/src/walk.rs",
                "header": "fn run(self)",
                "relevance": 2
              }
            ]
          }
        ]
        "#;

    let queries = parse_judgements(contents).unwrap();

    assert_eq!(queries.len(), 1);
    assert_eq!(queries[0].query, "walk directories in parallel");
    assert_eq!(queries[0].relevant.len(), 2);

    assert_eq!(queries[0].relevant[0].path, "crates/ignore/src/walk.rs");
    assert_eq!(queries[0].relevant[0].header, "pub fn build_parallel(self)");
    assert_eq!(queries[0].relevant[0].relevance, 3);

    assert_eq!(queries[0].relevant[1].path, "crates/ignore/src/walk.rs");
    assert_eq!(queries[0].relevant[1].header, "fn run(self)");
    assert_eq!(queries[0].relevant[1].relevance, 2);
}

#[test]
fn invalid_relevance_is_rejected() {
    let contents = r#"
        [
          {
            "query": "walk directories in parallel",
            "relevant": [
              {
                "path": "crates/ignore/src/walk.rs",
                "header": "pub fn build_parallel(self)",
                "relevance": 4
              },
              {
                "path": "crates/ignore/src/walk.rs",
                "header": "fn run(self)",
                "relevance": 2
              }
            ]
          }
        ]
        "#;

    let error = parse_judgements(contents).unwrap_err();
    assert!(error.contains("between 1 and 3"));
}

#[test]
fn judgement_errors_come_in_order() {
    assert_eq!(check_judgements(vec![]).unwrap_err(), JudgementError::NoQueries);
    let blank = JudgedQuery { query: "   ".to_string(), relevant: vec![relevant("a", "b", 0)] };
    assert_eq!(check_judgements(vec![blank]).unwrap_err(), JudgementError::EmptyQuery);
    let none = JudgedQuery { query: "q".to_string(), relevant: vec![] };
    assert_eq!(check_judgements(vec![none]).unwrap_err(), JudgementError::NoRelevantFunctions);
    let zero = JudgedQuery { query: "q".to_string(), relevant: vec![relevant("a", "b", 1), relevant("a", "c", 0)] };
    assert_eq!(check_judgements(vec![zero]).unwrap_err(), JudgementError::RelevanceOutOfRange);
}

#[test]
fn relevance_for_result_requires_matching_header_and_path() {
    let path = "/home/hussain/Projects/ripgrep/crates/ignore/src/walk.rs";
    let header = "pub fn build_parallel(self)";

    let matching_judgment = relevant("crates/ignore/src/walk.rs", "pub fn build_parallel(self)", 3);
    assert_eq!(relevance_for_result(path, header, &vec![matching_judgment]), 3);

    let same_header_wrong_path = relevant("crates/ignore/src/other.rs", "pub fn build_parallel(self)", 3);
    assert_eq!(relevance_for_result(path, header, &vec![same_header_wrong_path]), 0);
}

#[test]
fn relevance_takes_the_first_match_and_whole_components() {
    let path = "src/walk.rs";
    let list = vec![relevant("alk.rs", "fn a()", 3), relevant("walk.rs", "fn a()", 2), relevant("src/walk.rs", "fn a()", 1)];
    assert_eq!(relevance_for_result(path, "fn a()", &list), 2);
    assert_eq!(relevance_for_result(path, "fn b()", &list), 0);
}

#[test]
fn ideal_grades_are_sorted_and_cut() {
    assert_eq!(ideal_relevances(&vec![2, 3, 1, 3], 3), vec![3, 3, 2]);
    assert_eq!(ideal_relevances(&vec![2, 3], 5), vec![3, 2]);
    assert_eq!(ideal_relevances(&vec![], 2), Vec::<u8>::new());
}

#[test]
fn overlap_counts_common_records_once() {
    assert_eq!(recall_overlap(&vec![1, 2, 3, 4], &vec![4, 9, 2, 2]), 2);
    assert_eq!(recall_overlap(&vec![1, 1], &vec![1]), 1);
    assert_eq!(recall_overlap(&vec![], &vec![1]), 0);
}

#[test]
fn queries_are_trimmed_lines_without_blanks() {
    let contents = "load the stored index\n\n   \n  extract functions from source  \r\ncalculate vector similarity";
    assert_eq!(
        read_queries(contents),
        vec!["load the stored index", "extract functions from source", "calculate vector similarity"]
    );
    assert!(read_queries("\n\n").is_empty());
}

#[test]
fn benchmark_arguments_are_checked_in_order() {
    assert_eq!(check_benchmark_arguments(0, 0, 0), Err(BenchmarkError::NoQueries));
    assert_eq!(check_benchmark_arguments(2, 0, 0), Err(BenchmarkError::ZeroRuns));
    assert_eq!(check_benchmark_arguments(2, 5, 0), Err(BenchmarkError::ZeroBenchmarkTop));
    assert_eq!(BenchmarkError::ZeroBenchmarkTop.message(), "Benchmark top must be greater than zero");
    assert_eq!(check_benchmark_arguments(2, 5, 1), Ok(()));
    assert_eq!(check_evaluation_top(0), Err(BenchmarkError::ZeroTop));
    assert_eq!(check_evaluation_top(4), Ok(()));
    assert_eq!(check_index_len(0), Err(BenchmarkError::EmptyIndex));
    assert!(BenchmarkError::ZeroTop.message().contains("greater than 0"));
}
