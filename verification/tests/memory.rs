use cortex::memory::belief_graph::{Belief, BeliefGraph, Confidence};
use cortex::memory::embedder::{embedding_input, EmbeddingEndpoint};
use cortex::memory::file_indexer::{FileIndexer, FileIndexerConfig};
use cortex::memory::manager::{execute_actions, recommend_actions, MemoryAction, MemoryManager};
use cortex::memory::qmd_memory::{MemoryDocument, QmdMemory};

fn document(path: &str, content: &str) -> MemoryDocument {
    MemoryDocument {
        id: Some(format!("id-{path}")),
        path: path.to_string(),
        content: content.to_string(),
        metadata: serde_json::Value::Null,
        embedding_bits: vec![],
    }
}

#[test]
fn test_chunk_generation() {
    let indexer = FileIndexer::new(FileIndexerConfig::default());
    let content = "Line 1\nLine 2\n\nLine 4\nLine 5\n";
    let chunks = indexer.generate_chunks(content);

    assert!(!chunks.is_empty());
}

#[test]
fn test_exclude_patterns() {
    let indexer = FileIndexer::new(FileIndexerConfig::default());

    assert!(indexer.should_exclude("/foo/node_modules/bar"));
    assert!(indexer.should_exclude("/foo/.git/config"));
    assert!(!indexer.should_exclude("/foo/src/main.rs"));
}

#[test]
fn test_add_node() {
    let mut graph = BeliefGraph::new();
    graph.add_node("rust".to_string(), 0.9f32.to_bits());
    assert!(graph.get_node("rust").is_some());
}

#[test]
fn test_add_relation() {
    let mut graph = BeliefGraph::new();
    graph.add_node("rust".to_string(), 0.9f32.to_bits());
    graph.add_node("performance".to_string(), 0.8f32.to_bits());
    graph.add_relation(
        "rust".to_string(),
        "performance".to_string(),
        "enhances".to_string(),
        0.7f32.to_bits(),
    );

    let related = graph.get_related("rust");
    assert!(related.contains(&"performance".to_string()));
}

#[test]
fn test_serialization() {
    let mut graph = BeliefGraph::new();
    graph.add_node("test".to_string(), 0.5f32.to_bits());

    let loaded = BeliefGraph::from_parts(graph.get_nodes(), graph.get_relations());

    assert!(loaded.get_node("test").is_some());
}

#[test]
fn repeated_searches_hit_cache() {
    let mut memory = QmdMemory::new(Vec::new());
    memory.add(document("docs/cache", "cache acceleration for repeated searches"));

    let first = memory.search_with_cache("cache acceleration", 5);
    let second = memory.search_with_cache("cache acceleration", 5);
    let metrics = memory.cache_metrics();

    assert!(!first.cache_hit);
    assert!(second.cache_hit);
    assert_eq!(metrics.misses, 1);
    assert_eq!(metrics.hits, 1);
    assert_eq!(metrics.entries, 1);
}

#[test]
fn mutating_memory_invalidates_cache() {
    let mut memory = QmdMemory::new(Vec::new());
    memory.add(document("docs/original", "performance tuning for cortex"));

    let _ = memory.search_with_cache("performance", 5);
    assert_eq!(memory.cache_metrics().entries, 1);

    memory.add(document("docs/new", "new performance tuning guide"));

    assert_eq!(memory.cache_metrics().entries, 0);
}

#[test]
fn test_memory_manager_creation() {
    let manager = MemoryManager::new(QmdMemory::new(Vec::new()));

    assert_eq!(manager.max_documents(), 1000);
}

#[test]
fn test_analyze_and_recommend_empty() {
    let manager = MemoryManager::new(QmdMemory::new(Vec::new()));

    let actions = manager.analyze_and_recommend();
    assert!(actions.is_empty());
}

#[test]
fn test_analyze_recommends_consolidation() {
    let mut docs = Vec::new();
    for i in 0..1500 {
        docs.push(MemoryDocument {
            id: Some(format!("doc_{i}")),
            path: format!("memory/doc_{i}"),
            content: format!("content {i}"),
            metadata: serde_json::Value::Null,
            embedding_bits: vec![],
        });
    }

    let manager = MemoryManager::new(QmdMemory::new(docs));
    let actions = manager.analyze_and_recommend();

    assert!(!actions.is_empty());
    assert!(matches!(actions[0], MemoryAction::Consolidate { .. }));
}

#[test]
fn test_memory_action_variants() {
    let keep = MemoryAction::Keep;
    assert!(matches!(keep, MemoryAction::Keep));

    let compress = MemoryAction::Compress {
        doc_id: "doc1".to_string(),
        reason: "redundant".to_string(),
    };
    assert!(matches!(compress, MemoryAction::Compress { .. }));

    let delete = MemoryAction::Delete {
        doc_id: "doc2".to_string(),
        reason: "outdated".to_string(),
    };
    assert!(matches!(delete, MemoryAction::Delete { .. }));

    let update = MemoryAction::Update {
        doc_id: "doc3".to_string(),
        new_content: "new content".to_string(),
    };
    assert!(matches!(update, MemoryAction::Update { .. }));

    let consolidate = MemoryAction::Consolidate {
        doc_ids: vec!["doc4".to_string()],
        reason: "merge".to_string(),
    };
    assert!(matches!(consolidate, MemoryAction::Consolidate { .. }));
}

#[test]
fn consolidation_reason_names_both_counts() {
    let actions = recommend_actions(1500, 1000);
    assert_eq!(actions.len(), 1);
    match &actions[0] {
        MemoryAction::Consolidate { doc_ids, reason } => {
            assert!(doc_ids.is_empty());
            assert_eq!(reason, "Too many documents: 1500 > 1000");
        }
        _ => panic!("expected a consolidation"),
    }
    assert!(recommend_actions(1000, 1000).is_empty());
}

#[test]
fn only_deletions_and_compressions_are_executed() {
    let actions = vec![
        MemoryAction::Keep,
        MemoryAction::Delete { doc_id: "a".to_string(), reason: "old".to_string() },
        MemoryAction::Compress { doc_id: "b".to_string(), reason: "big".to_string() },
        MemoryAction::Update { doc_id: "c".to_string(), new_content: "x".to_string() },
        MemoryAction::Consolidate { doc_ids: vec![], reason: "r".to_string() },
        MemoryAction::Delete { doc_id: "d".to_string(), reason: "old".to_string() },
    ];
    assert_eq!(execute_actions(actions), 3);
}

#[test]
fn auto_manage_carries_out_nothing() {
    let mut docs = Vec::new();
    for i in 0..1001 {
        docs.push(document(&format!("memory/{i}"), "x"));
    }
    let manager = MemoryManager::new(QmdMemory::new(docs));
    assert_eq!(manager.auto_manage(), 0);
}

#[test]
fn embedding_endpoint_drops_trailing_slashes() {
    let endpoint = EmbeddingEndpoint::new("http://localhost:8002//", "model-a");
    assert_eq!(endpoint.base_url(), "http://localhost:8002");
    assert_eq!(endpoint.model(), "model-a");
    assert_eq!(endpoint.embeddings_url(), "http://localhost:8002/v1/embeddings");
}

#[test]
fn embedding_input_is_trimmed_and_empty_input_is_skipped() {
    assert_eq!(embedding_input("  hello world \n"), Some("hello world".to_string()));
    assert_eq!(embedding_input("   \t"), None);
}

#[test]
fn belief_graph_walks_links_and_searches() {
    let mut graph = BeliefGraph::new();
    graph.add_belief(Belief::new(
        "Rust".to_string(),
        "enables".to_string(),
        "Safety".to_string(),
        Confidence::High,
    ));
    graph.add_edge("Safety".to_string(), "Trust".to_string(), "builds".to_string());
    graph.add_node("Island".to_string(), 0.1f32.to_bits());

    let mut reached = graph.bfs("Rust");
    reached.sort();
    assert_eq!(reached, vec!["Safety".to_string(), "Trust".to_string()]);
    assert!(graph.bfs("Island").is_empty());

    let found = graph.search("SAFE");
    assert_eq!(found.len(), 2);
    assert_eq!(found[0].subject, "Rust");
    assert_eq!(found[0].confidence, Confidence::High);
    assert_eq!(found[1].subject, "Safety");
    assert_eq!(found[1].confidence, Confidence::High);

    let nodes = graph.query("is");
    assert_eq!(nodes.len(), 1);
    assert_eq!(nodes[0].concept, "Island");

    let edges = graph.get_edges();
    assert_eq!(edges.len(), 2);
    assert_eq!((edges[1].from.as_str(), edges[1].to.as_str()), ("Safety", "Trust"));

    graph.update_confidence("Island", 0.95f32.to_bits());
    assert_eq!(graph.get_node("Island").unwrap().confidence_bits, 0.95f32.to_bits());
}

#[test]
fn documents_are_found_by_path_or_id_and_deleted() {
    let mut memory = QmdMemory::new(Vec::new());
    memory.add(document("notes/a", "alpha"));
    memory.add(document("notes/b", "beta"));
    assert_eq!(memory.get("notes/b").unwrap().content, "beta");
    assert_eq!(memory.get("id-notes/a").unwrap().content, "alpha");
    assert!(memory.get("notes/c").is_none());
    let removed = memory.delete("notes/a").unwrap();
    assert_eq!(removed.path, "notes/a");
    assert_eq!(memory.count(), 1);
    assert!(memory.delete("notes/a").is_none());
    assert_eq!(memory.clear(), 1);
    assert_eq!(memory.count(), 0);
}

#[test]
fn search_ranks_by_hits_and_hybrid_query_merges() {
    let mut memory = QmdMemory::new(vec![
        document("docs/one", "rust rust memory"),
        document("docs/two", "rust memory"),
        document("docs/three", "nothing here"),
    ]);
    let found = memory.search("Rust!", 10);
    let paths: Vec<&str> = found.iter().map(|d| d.path.as_str()).collect();
    assert_eq!(paths, vec!["docs/one", "docs/two"]);

    let vector_hits = vec![document("docs/three", "nothing here"), document("docs/one", "rust rust memory")];
    let merged = memory.query("rust", Some(vector_hits), 3);
    let paths: Vec<&str> = merged.iter().map(|d| d.path.as_str()).collect();
    assert_eq!(paths, vec!["docs/one", "docs/two", "docs/three"]);
}

#[test]
fn should_index_markdown_outside_excluded_dirs() {
    let indexer = FileIndexer::new(FileIndexerConfig::default());
    assert!(indexer.should_index("/notes/README.MD"));
    assert!(indexer.should_index("docs/guide.md"));
    assert!(!indexer.should_index("/notes/main.rs"));
    assert!(!indexer.should_index("/repo/.git/notes.md"));
    assert!(!indexer.should_index("/notes/md"));
}

#[test]
fn chunks_keep_all_lines_and_number_in_order() {
    let mut config = FileIndexerConfig::default();
    config.chunk_size = 3;
    config.chunk_overlap = 1;
    let indexer = FileIndexer::new(config);
    let chunks = indexer.generate_chunks("a b\nc d\n\ne\nf g h\ni");
    let joined: String = chunks.iter().map(|c| c.content.as_str()).collect();
    assert_eq!(joined, "a b\nc d\n\ne\nf g h\ni\n");
    for (i, c) in chunks.iter().enumerate() {
        assert_eq!(c.index, i);
    }
    assert_eq!(chunks.len(), 4);
    assert_eq!((chunks[0].start_line, chunks[0].end_line), (0, 1));
}

#[test]
fn added_belief_nodes_get_uuid_ids() {
    let mut graph = BeliefGraph::new();
    graph.add_belief(Belief::new("a".to_string(), "p".to_string(), "b".to_string(), Confidence::Low));
    for n in graph.get_nodes() {
        assert_eq!(n.id.len(), 36);
    }
    assert_eq!(graph.get_relations()[0].id.len(), 36);
}

#[test]
fn bfs_lists_nearer_concepts_first() {
    let mut graph = BeliefGraph::new();
    graph.add_edge("a".to_string(), "b".to_string(), "r".to_string());
    graph.add_edge("b".to_string(), "c".to_string(), "r".to_string());
    graph.add_edge("a".to_string(), "d".to_string(), "r".to_string());
    graph.add_edge("c".to_string(), "e".to_string(), "r".to_string());
    graph.add_edge("d".to_string(), "c".to_string(), "r".to_string());
    let order = graph.bfs("a");
    assert_eq!(order.len(), 4);
    let pos = |x: &str| order.iter().position(|y| y == x).unwrap();
    assert!(pos("b") < pos("c") && pos("d") < pos("c") && pos("c") < pos("e"));
    assert!(graph.bfs("zzz").is_empty());
}
