use sift::cli::{Cli, CliErrorKind, Commands};

#[test]
fn exact_search_is_disabled_by_default() {
    let cli = Cli::try_parse_from(&["sift", "find a function"]).unwrap();

    assert!(!cli.exact);
}

#[test]
fn exact_flag_enables_exact_search() {
    let cli = Cli::try_parse_from(&["sift", "--exact", "find a function"]).unwrap();

    assert!(cli.exact);
}

#[test]
fn query_and_top_are_read() {
    let cli = Cli::try_parse_from(&["sift", "--top", "5", "load saved index records"]).unwrap();
    assert_eq!(cli.keywords.as_deref(), Some("load saved index records"));
    assert_eq!(cli.top, 5);
    assert!(!cli.exact);
    assert!(cli.commands.is_none());
}

#[test]
fn top_defaults_to_three() {
    let cli = Cli::try_parse_from(&["sift", "query"]).unwrap();
    assert_eq!(cli.top, 3);
}

#[test]
fn top_accepts_an_inline_value() {
    let cli = Cli::try_parse_from(&["sift", "query", "--top=7", "--exact"]).unwrap();
    assert_eq!(cli.top, 7);
    assert!(cli.exact);
}

#[test]
fn no_arguments_is_refused() {
    let err = Cli::try_parse_from(&["sift"]).unwrap_err();
    assert_eq!(err.kind, CliErrorKind::NoArguments);
}

#[test]
fn invalid_top_is_refused() {
    let err = Cli::try_parse_from(&["sift", "--top", "many", "q"]).unwrap_err();
    assert_eq!(err.kind, CliErrorKind::InvalidValue);
    assert_eq!(err.argument, "--top");
}

#[test]
fn missing_top_value_is_refused() {
    let err = Cli::try_parse_from(&["sift", "q", "--top"]).unwrap_err();
    assert_eq!(err.kind, CliErrorKind::MissingValue);
}

#[test]
fn repeated_flag_is_refused() {
    let err = Cli::try_parse_from(&["sift", "--exact", "--exact", "q"]).unwrap_err();
    assert_eq!(err.kind, CliErrorKind::DuplicateArgument);
}

#[test]
fn unknown_option_is_refused() {
    let err = Cli::try_parse_from(&["sift", "--fast", "q"]).unwrap_err();
    assert_eq!(err.kind, CliErrorKind::UnknownArgument);
    assert_eq!(err.argument, "--fast");
}

#[test]
fn second_query_is_refused() {
    let err = Cli::try_parse_from(&["sift", "one", "two"]).unwrap_err();
    assert_eq!(err.kind, CliErrorKind::UnexpectedArgument);
    assert_eq!(err.argument, "two");
}

#[test]
fn help_is_reported() {
    assert_eq!(Cli::try_parse_from(&["sift", "--help"]).unwrap_err().kind, CliErrorKind::Help);
    assert_eq!(Cli::try_parse_from(&["sift", "help"]).unwrap_err().kind, CliErrorKind::Help);
}

#[test]
fn escape_makes_a_dash_argument_the_query() {
    let cli = Cli::try_parse_from(&["sift", "--", "--exact"]).unwrap();
    assert_eq!(cli.keywords.as_deref(), Some("--exact"));
    assert!(!cli.exact);
}

#[test]
fn ingest_defaults_to_no_path() {
    let cli = Cli::try_parse_from(&["sift", "ingest"]).unwrap();
    match cli.commands {
        Some(Commands::Ingest { path }) => assert!(path.is_none()),
        _ => panic!("expected ingest"),
    }
}

#[test]
fn ingest_takes_a_path() {
    let cli = Cli::try_parse_from(&["sift", "ingest", "src"]).unwrap();
    match cli.commands {
        Some(Commands::Ingest { path }) => assert_eq!(path.as_deref(), Some("src")),
        _ => panic!("expected ingest"),
    }
}

#[test]
fn benchmark_uses_defaults() {
    let cli = Cli::try_parse_from(&["sift", "benchmark", "--queries", "queries.txt"]).unwrap();
    match cli.commands {
        Some(Commands::Benchmark { queries, top, runs }) => {
            assert_eq!(queries, "queries.txt");
            assert_eq!(top, 10);
            assert_eq!(runs, 50);
        }
        _ => panic!("expected benchmark"),
    }
}

#[test]
fn benchmark_reads_top_and_runs() {
    let cli = Cli::try_parse_from(&["sift", "benchmark", "--runs=3", "--queries", "q.txt", "--top", "+4"]).unwrap();
    match cli.commands {
        Some(Commands::Benchmark { queries, top, runs }) => {
            assert_eq!(queries, "q.txt");
            assert_eq!(top, 4);
            assert_eq!(runs, 3);
        }
        _ => panic!("expected benchmark"),
    }
}

#[test]
fn benchmark_requires_queries() {
    let err = Cli::try_parse_from(&["sift", "benchmark", "--top", "3"]).unwrap_err();
    assert_eq!(err.kind, CliErrorKind::MissingRequired);
    assert_eq!(err.argument, "--queries");
}

#[test]
fn evaluate_reads_judgements() {
    let cli = Cli::try_parse_from(&["sift", "--top", "2", "evaluate", "--judgements", "j.json"]).unwrap();
    assert_eq!(cli.top, 2);
    match cli.commands {
        Some(Commands::Evaluate { judgements, top }) => {
            assert_eq!(judgements, "j.json");
            assert_eq!(top, 10);
        }
        _ => panic!("expected evaluate"),
    }
}

#[test]
fn subcommand_options_do_not_leak_to_the_search() {
    let err = Cli::try_parse_from(&["sift", "evaluate", "--exact"]).unwrap_err();
    assert_eq!(err.kind, CliErrorKind::UnknownArgument);
}

#[test]
fn oversized_number_is_refused() {
    let err = Cli::try_parse_from(&["sift", "--top", "99999999999999999999999", "q"]).unwrap_err();
    assert_eq!(err.kind, CliErrorKind::InvalidValue);
}
