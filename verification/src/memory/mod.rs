//! Memory: the document store, the belief graph, file indexing and management.

pub mod belief_graph;
pub mod embedder;
pub mod file_indexer;
pub mod graph_search;
pub mod manager;
pub mod qmd_memory;
