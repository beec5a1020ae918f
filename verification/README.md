# sift

Local semantic code search: functions are extracted with Tree-sitter,
embedded with a static embedding model, and searched either exhaustively
(cosine similarity over every function) or through a hierarchical navigable
small world (HNSW) graph.

## Layout

- `src/` — the library, verified with Verus:
  - `hnsw.rs` — the graph: greedy descent, best-first layer search,
    insertion with neighbour selection, back links and pruning;
  - `links.rs` — why the graph's links stay undirected and simple;
  - `ranking.rs`, `scoring.rs` — stable "best first" ordering by integer
    score keys, and the scoring functions the graph is searched with;
  - `index.rs` — the stored graph: conversion, well-formedness, bytes;
  - `ingest.rs` — functions of a file, order of embedding, batches, the
    graph over the embedded functions;
  - `search.rs` — which search runs, exact ranking, graph search resolved
    to positions of the index;
  - `benchmark.rs` — judgement checks, graded relevance, ideal grades,
    result overlap, query files;
  - `cli.rs` — the command-line grammar;
  - `language_specs.rs`, `treesitter_parse.rs`, `text.rs` — languages by
    extension (Rust, Python, C++ and Java), function extraction, text
    helpers.
- `app/` — the program: argument help, files, directory walking, the
  embedding model, random levels, floating-point scores and printing.
- `tests/` — tests of the library.

Similarities are floating point; the library never sees them. The program
turns each one into an `i32` key whose integer order is the total order of
the float, and the library ranks by keys.
