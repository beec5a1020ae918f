pub mod hnsw;
pub mod hnsw_laws;
pub mod benchmark;
pub mod cli;
pub mod index;
pub mod ingest;
pub mod language_specs;
pub mod links;
pub mod ranking;
pub mod scoring;
pub mod search;
pub mod text;
pub mod treesitter_parse;
