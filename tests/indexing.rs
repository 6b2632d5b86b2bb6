use agentlens::chunker::ChunkInfo;
use agentlens::embedder::{check_batch, classify_failure, endpoint_of, first_vector, model_available, EmbedError, EmbedderConfig};
use agentlens::indexer::{ChunkingConfig, FileOutcome, IndexResult, Indexer, Prepared};
use agentlens::store::{Chunk, Document, IndexData};
use agentlens::chunker::ChunkType;
use agentlens::types::{FileEntry, Symbol, SymbolKind, Visibility};

fn file(path: &str) -> FileEntry {
    FileEntry::new(path.to_string(), path.to_string(), 100, 10, 500)
}

fn vectors_for(batches: &[Vec<String>]) -> Vec<Vec<Vec<u32>>> {
    batches.iter().map(|b| b.iter().map(|_| vec![1u32, 2, 3]).collect()).collect()
}

fn index_once(indexer: &Indexer, store: &mut IndexData, f: &FileEntry, content: &str, symbols: &[Symbol], force: bool, now: i64) -> Option<usize> {
    match indexer.prepare_file(store, f, content, symbols, force) {
        Prepared::Unchanged => None,
        Prepared::Fresh { hash, chunks } => {
            let batches = Indexer::embedding_batches(&chunks);
            let vectors = vectors_for(&batches);
            Some(Indexer::commit_file(store, f, hash, chunks, vectors, now).unwrap())
        }
    }
}

fn two_functions() -> (String, Vec<Symbol>) {
    let content = "fn a() {\n    1;\n}\nfn b() {\n    2;\n}".to_string();
    let symbols = vec![
        Symbol::new(SymbolKind::Function, "a".to_string(), 1, Visibility::Public).with_line_range(1, 3),
        Symbol::new(SymbolKind::Function, "b".to_string(), 4, Visibility::Public).with_line_range(4, 6),
    ];
    (content, symbols)
}

#[test]
fn unchanged_file_is_skipped_the_second_time() {
    let indexer = Indexer::new(&ChunkingConfig::default());
    let mut store = IndexData::new();
    let f = file("src/a.rs");
    let (content, symbols) = two_functions();
    assert_eq!(index_once(&indexer, &mut store, &f, &content, &symbols, false, 1), Some(2));
    let before = store.get_all_chunks().len();
    assert_eq!(index_once(&indexer, &mut store, &f, &content, &symbols, false, 2), None);
    assert_eq!(store.get_all_chunks().len(), before);
    let doc = store.get_document("src/a.rs").unwrap();
    assert_eq!(doc.chunk_ids, vec!["src/a.rs:a:1".to_string(), "src/a.rs:b:4".to_string()]);
    assert_eq!(doc.mod_time, 1);
}

#[test]
fn forced_reindex_replaces_fragments() {
    let indexer = Indexer::new(&ChunkingConfig::default());
    let mut store = IndexData::new();
    let f = file("src/a.rs");
    let (content, symbols) = two_functions();
    index_once(&indexer, &mut store, &f, &content, &symbols, false, 1);
    let only_a = vec![symbols[0].clone()];
    assert_eq!(index_once(&indexer, &mut store, &f, &content, &only_a, true, 5), Some(1));
    let chunks = store.get_all_chunks();
    assert_eq!(chunks.len(), 1);
    assert_eq!(chunks[0].id, "src/a.rs:a:1");
    assert_eq!(chunks[0].updated_at, 5);
    assert_eq!(index_once(&indexer, &mut store, &f, &content, &symbols, true, 6), Some(2));
    assert_eq!(store.get_all_chunks().len(), 2);
}

#[test]
fn changed_content_is_reindexed() {
    let indexer = Indexer::new(&ChunkingConfig::default());
    let mut store = IndexData::new();
    let f = file("notes.txt");
    assert_eq!(index_once(&indexer, &mut store, &f, "first", &[], false, 1), Some(1));
    assert_eq!(index_once(&indexer, &mut store, &f, "second", &[], false, 2), Some(1));
    let chunks = store.get_all_chunks();
    assert_eq!(chunks.len(), 1);
    assert!(chunks[0].content.ends_with("second"));
}

#[test]
fn file_without_fragments_is_skipped_when_unchanged() {
    let indexer = Indexer::new(&ChunkingConfig::default());
    let mut store = IndexData::new();
    let f = file("empty.txt");
    assert_eq!(index_once(&indexer, &mut store, &f, "   \n", &[], false, 1), Some(0));
    let doc = store.get_document("empty.txt").unwrap();
    assert!(doc.chunk_ids.is_empty());
    assert_eq!(store.counts().total_files, 1);
    assert_eq!(store.counts().total_chunks, 0);
    assert_eq!(index_once(&indexer, &mut store, &f, "   \n", &[], false, 2), None);
}

#[test]
fn prune_removes_deleted_files() {
    let indexer = Indexer::new(&ChunkingConfig::default());
    let mut store = IndexData::new();
    for p in ["a.txt", "b.txt", "c.txt"] {
        index_once(&indexer, &mut store, &file(p), &format!("content of {}", p), &[], false, 1);
    }
    let pruned = Indexer::prune_deleted(&mut store, &vec!["b.txt".to_string()]);
    assert_eq!(pruned, 2);
    assert_eq!(store.list_documents(), vec!["b.txt".to_string()]);
    let chunks = store.get_all_chunks();
    assert_eq!(chunks.len(), 1);
    assert_eq!(chunks[0].file_path, "b.txt");
    assert_eq!(Indexer::prune_deleted(&mut store, &vec!["b.txt".to_string()]), 0);
}

#[test]
fn batches_of_thirty_two() {
    let infos: Vec<ChunkInfo> = (0..70)
        .map(|i| ChunkInfo {
            id: format!("f:block:{}", i),
            file_path: "f".to_string(),
            start_line: i + 1,
            end_line: i + 1,
            content: format!("text {}", i),
            hash: "h".to_string(),
            chunk_type: ChunkType::Block,
        })
        .collect();
    let batches = Indexer::embedding_batches(&infos);
    assert_eq!(batches.len(), 3);
    assert_eq!(batches[0].len(), 32);
    assert_eq!(batches[2].len(), 6);
    assert_eq!(batches[1][0], "text 32");
    let mut store = IndexData::new();
    let mut short = vectors_for(&batches);
    short[1].truncate(30);
    let refused = Indexer::commit_file(&mut store, &file("f"), "h".to_string(), infos.clone(), short, 9);
    assert_eq!(refused, Err(EmbedError::WrongCount));
    assert!(store.get_document("f").is_none());
    let mut extra = vectors_for(&batches);
    extra.push(vec![vec![1u32]]);
    assert_eq!(Indexer::commit_file(&mut store, &file("f"), "h".to_string(), infos.clone(), extra, 9), Err(EmbedError::WrongCount));
    let stored = Indexer::commit_file(&mut store, &file("f"), "h".to_string(), infos, vectors_for(&batches), 9);
    assert_eq!(stored, Ok(70));
    assert_eq!(store.get_document("f").unwrap().chunk_ids.len(), 70);
}

#[test]
fn commit_records_the_time() {
    let mut store = IndexData::new();
    let info = ChunkInfo {
        id: "g:block:1".to_string(),
        file_path: "g".to_string(),
        start_line: 1,
        end_line: 1,
        content: "x".to_string(),
        hash: "h".to_string(),
        chunk_type: ChunkType::Block,
    };
    let now = chrono::Utc::now().timestamp_millis();
    let n = Indexer::commit_file(&mut store, &file("g"), "h".to_string(), vec![info], vec![vec![vec![7u32]]], now);
    assert_eq!(n, Ok(1));
    assert_eq!(store.get_all_chunks()[0].updated_at, now);
    assert_eq!(store.get_document("g").unwrap().mod_time, now);
}

#[test]
fn index_result_accumulates() {
    let mut r = IndexResult::new();
    r.record(FileOutcome::Indexed(3));
    r.record(FileOutcome::Skipped);
    r.record(FileOutcome::Failed("x.rs: unreadable".to_string()));
    r.record(FileOutcome::Indexed(2));
    assert_eq!(r.files_processed, 2);
    assert_eq!(r.chunks_created, 5);
    assert_eq!(r.files_skipped, 1);
    assert_eq!(r.errors, vec!["x.rs: unreadable".to_string()]);
}

#[test]
fn store_upserts_and_deletes() {
    let mut store = IndexData::new();
    let mk = |id: &str, path: &str, t: i64| Chunk {
        id: id.to_string(),
        file_path: path.to_string(),
        start_line: 1,
        end_line: 1,
        content: id.to_string(),
        vector: vec![],
        hash: "h".to_string(),
        updated_at: t,
        chunk_type: ChunkType::Block,
    };
    store.save_chunks(vec![mk("x", "p", 3), mk("y", "q", 8), mk("x", "p", 5)]);
    let all = store.get_all_chunks();
    assert_eq!(all.len(), 2);
    assert_eq!(all[0].updated_at, 5);
    store.save_document(Document { path: "p".to_string(), hash: "h1".to_string(), mod_time: 1, chunk_ids: vec!["x".to_string()] });
    store.save_document(Document { path: "p".to_string(), hash: "h2".to_string(), mod_time: 2, chunk_ids: vec!["x".to_string()] });
    assert_eq!(store.get_document("p").unwrap().hash, "h2");
    let c = store.counts();
    assert_eq!((c.total_files, c.total_chunks, c.last_updated), (1, 2, Some(8)));
    store.delete_by_file("p");
    assert!(store.get_document("p").is_none());
    assert_eq!(store.get_all_chunks().len(), 1);
    store.clear();
    assert_eq!(store.counts().last_updated, None);
}

#[test]
fn embedder_decisions() {
    let names = vec!["nomic-embed-text:latest".to_string(), "llama3".to_string()];
    assert!(model_available(&names, "nomic-embed-text"));
    assert!(model_available(&names, "llama3"));
    assert!(!model_available(&names, "nomic"));
    assert_eq!(classify_failure(404, ""), EmbedError::ModelNotFound);
    assert_eq!(classify_failure(500, "model \"x\" not found"), EmbedError::ModelNotFound);
    assert_eq!(classify_failure(500, "boom"), EmbedError::Provider(500));
    assert_eq!(first_vector(vec![]), Err(EmbedError::EmptyResponse));
    assert_eq!(first_vector(vec![vec![4u32], vec![5u32]]), Ok(vec![4u32]));
    let mut cfg = EmbedderConfig::default();
    assert_eq!(cfg.model, "nomic-embed-text");
    assert_eq!(cfg.dimensions, 768);
    assert_eq!(endpoint_of(&cfg), "http://localhost:11434");
    cfg.endpoint = Some("http://host:1//".to_string());
    assert_eq!(endpoint_of(&cfg), "http://host:1");
    assert_eq!(check_batch(2, vec![]), Err(EmbedError::EmptyResponse));
    assert_eq!(check_batch(2, vec![vec![1u32]]), Err(EmbedError::WrongCount));
    assert_eq!(check_batch(0, vec![vec![1u32]]), Err(EmbedError::WrongCount));
    assert_eq!(check_batch(1, vec![vec![1u32]]), Ok(vec![vec![1u32]]));
    assert_eq!(check_batch(0, vec![]), Ok(vec![]));
    let _ = EmbedError::Unreachable;
    let _ = EmbedError::ModelNotInstalled;
}

#[test]
fn scored_search_orders_and_limits() {
    let mut store = IndexData::new();
    let mk = |id: &str| Chunk {
        id: id.to_string(),
        file_path: "f".to_string(),
        start_line: 1,
        end_line: 1,
        content: id.to_string(),
        vector: vec![],
        hash: "h".to_string(),
        updated_at: 0,
        chunk_type: ChunkType::Block,
    };
    store.save_chunks(vec![mk("a"), mk("b"), mk("c")]);
    let r = store.search_scored(&vec![5, 9, 5], 2).unwrap();
    let ids: Vec<&str> = r.iter().map(|x| x.chunk.id.as_str()).collect();
    assert_eq!(ids, vec!["b", "a"]);
    assert_eq!(r[0].score, 9);
    assert!(store.search_scored(&vec![1], 2).is_none());
}

#[test]
fn indexer_test_hash_content() {
    let h1 = agentlens::hashing::hash_content("hello");
    let h2 = agentlens::hashing::hash_content("hello");
    let h3 = agentlens::hashing::hash_content("world");

    assert_eq!(h1, h2);
    assert_ne!(h1, h3);
    assert_eq!(h1.len(), 16);
}
