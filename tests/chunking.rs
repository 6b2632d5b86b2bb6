use agentlens::chunker::{ChunkType, Chunker};
use agentlens::hashing::hash_content;
use agentlens::types::{FileEntry, Symbol, SymbolKind, Visibility};

fn make_file(path: &str, lines: usize) -> FileEntry {
    FileEntry::new(path.to_string(), path.to_string(), 1000, lines, 500)
}

#[test]
fn test_chunk_by_window() {
    let chunker = Chunker::new(100, 20);
    let file = make_file("test.rs", 10);
    let content = "line 1\nline 2\nline 3\nline 4\nline 5\n\
                   line 6\nline 7\nline 8\nline 9\nline 10";

    let chunks = chunker.chunk_by_window(&file, content);
    assert!(!chunks.is_empty());
    assert!(chunks[0].content.contains("File: test.rs"));
}

#[test]
fn test_chunk_by_symbols() {
    let chunker = Chunker::new(500, 50);
    let file = make_file("test.rs", 20);
    let content = "// header\n\
                   fn foo() {\n\
                       println!(\"hello\");\n\
                   }\n\
                   \n\
                   fn bar() {\n\
                       println!(\"world\");\n\
                   }";

    let symbols = vec![
        Symbol::new(SymbolKind::Function, "foo".to_string(), 2, Visibility::Public).with_line_range(2, 4),
        Symbol::new(SymbolKind::Function, "bar".to_string(), 6, Visibility::Public).with_line_range(6, 8),
    ];

    let chunks = chunker.chunk_by_symbols(&file, content, &symbols);
    assert_eq!(chunks.len(), 2);
    assert!(chunks[0].content.contains("foo"));
    assert!(chunks[1].content.contains("bar"));
}

#[test]
fn chunker_test_hash_content() {
    let hash1 = hash_content("hello");
    let hash2 = hash_content("hello");
    let hash3 = hash_content("world");

    assert_eq!(hash1, hash2);
    assert_ne!(hash1, hash3);
    assert_eq!(hash1.len(), 16);
}

#[test]
fn hash_is_sha256_prefix() {
    assert_eq!(hash_content("hello"), "2cf24dba5fb0a30e");
    assert_eq!(hash_content(""), "e3b0c44298fc1c14");
}

#[test]
fn symbol_fragments_have_exact_text_and_lines() {
    let chunker = Chunker::new(500, 50);
    let file = make_file("src/a.rs", 8);
    let content = "// header\nfn foo() {\n    one();\n}\n\nfn bar() {\n    two();\n}";
    let symbols = vec![
        Symbol::new(SymbolKind::Function, "foo".to_string(), 2, Visibility::Public).with_line_range(2, 4),
        Symbol::new(SymbolKind::Function, "bar".to_string(), 6, Visibility::Public).with_line_range(6, 8),
    ];
    let chunks = chunker.chunk_by_symbols(&file, content, &symbols);
    assert_eq!(chunks.len(), 2);
    assert_eq!(chunks[0].id, "src/a.rs:foo:2");
    assert_eq!(chunks[0].start_line, 2);
    assert_eq!(chunks[0].end_line, 4);
    assert_eq!(
        chunks[0].content,
        "File: src/a.rs\nSymbol: foo (function)\nLines: 2-4\n\nfn foo() {\n    one();\n}"
    );
    assert_eq!(chunks[0].hash, hash_content("fn foo() {\n    one();\n}"));
    assert_eq!(chunks[0].chunk_type, ChunkType::Function);
    assert_eq!(chunks[1].id, "src/a.rs:bar:6");
    assert_eq!(chunks[1].start_line, 6);
    assert_eq!(chunks[1].end_line, 8);
}

#[test]
fn no_qualifying_symbols_fall_back_to_windows() {
    let chunker = Chunker::new(100, 20);
    let file = make_file("data.txt", 3);
    let content = "alpha\nbeta\ngamma";
    let symbols = vec![Symbol::new(SymbolKind::Const, "X".to_string(), 1, Visibility::Public)];
    let by_symbols = chunker.chunk_by_symbols(&file, content, &symbols);
    let by_window = chunker.chunk_by_window(&file, content);
    assert_eq!(by_symbols.len(), 1);
    assert_eq!(by_window.len(), 1);
    assert_eq!(by_symbols[0].id, "data.txt:block:1");
    assert_eq!(by_symbols[0].content, by_window[0].content);
    assert_eq!(by_symbols[0].content, "File: data.txt\nLines: 1-3\n\nalpha\nbeta\ngamma");
    assert_eq!(by_symbols[0].chunk_type, ChunkType::Block);
}

#[test]
fn windows_cover_the_file_with_bounded_overlap() {
    // 30 lines of 9 characters (10 with the newline); a budget of 100 takes
    // 10 lines per window; an overlap of 160 characters backs up 2 lines.
    let chunker = Chunker::new(100, 160);
    let file = make_file("big.txt", 30);
    let lines: Vec<String> = (1..=30).map(|i| format!("line {:04}", i)).collect();
    let content = lines.join("\n");
    let chunks = chunker.chunk_by_window(&file, &content);
    assert_eq!(chunks[0].start_line, 1);
    assert_eq!(chunks.last().unwrap().end_line, 30);
    for w in chunks.windows(2) {
        assert!(w[1].start_line <= w[0].end_line + 1);
        assert!(w[0].end_line + 1 - w[1].start_line <= 2);
        assert!(w[1].start_line > w[0].start_line);
    }
    assert_eq!(chunks[0].end_line, 10);
    assert_eq!(chunks[1].start_line, 9);
    assert_eq!(chunks[1].id, "big.txt:block:9");
}

#[test]
fn blank_windows_are_dropped() {
    let chunker = Chunker::new(100, 0);
    let file = make_file("blank.txt", 3);
    assert!(chunker.chunk_by_window(&file, "  \n\t\n   ").is_empty());
    assert!(chunker.chunk_by_window(&file, "").is_empty());
}

#[test]
fn oversized_symbol_is_split_with_absolute_lines() {
    let chunker = Chunker::new(20, 0);
    let file = make_file("s.rs", 6);
    let content = "// top\nfn big() {\n    aaaaaaaaaa;\n    bbbbbbbbbb;\n    cccccccccc;\n}";
    let symbols = vec![Symbol::new(SymbolKind::Method, "big".to_string(), 2, Visibility::Public).with_line_range(2, 6)];
    let chunks = chunker.chunk_by_symbols(&file, content, &symbols);
    assert!(chunks.len() >= 2);
    assert_eq!(chunks[0].id, "s.rs:split:2");
    assert_eq!(chunks[0].start_line, 2);
    assert_eq!(chunks.last().unwrap().end_line, 6);
    for c in &chunks {
        assert_eq!(c.chunk_type, ChunkType::Method);
        assert!(c.content.starts_with("File: s.rs\nLines: "));
    }
}

#[test]
fn crlf_line_endings_are_stripped() {
    let chunker = Chunker::new(100, 0);
    let file = make_file("w.txt", 2);
    let chunks = chunker.chunk_by_window(&file, "one\r\ntwo\r\n");
    assert_eq!(chunks.len(), 1);
    assert_eq!(chunks[0].content, "File: w.txt\nLines: 1-2\n\none\ntwo");
}

#[test]
fn chunker_from_tokens_and_default() {
    let a = Chunker::from_tokens(25, 5);
    let file = make_file("t.txt", 1);
    let chunks = a.chunk_by_window(&file, "x");
    assert_eq!(chunks.len(), 1);
    let d = Chunker::default();
    assert_eq!(d.chunk_by_window(&file, "x").len(), 1);
}

#[test]
fn windows_stay_within_the_budget() {
    let chunker = Chunker::new(10, 0);
    let file = make_file("ab.txt", 2);
    let chunks = chunker.chunk_by_window(&file, "aaaaaa\nbbbbbb");
    assert_eq!(chunks.len(), 2);
    assert_eq!((chunks[0].start_line, chunks[0].end_line), (1, 1));
    assert_eq!((chunks[1].start_line, chunks[1].end_line), (2, 2));
    let joined = chunker.chunk_by_window(&file, "aaa\nbbbbbb");
    assert_eq!(joined.len(), 1);
    assert_eq!(joined[0].end_line, 2);
}

#[test]
fn split_symbols_stay_within_the_budget() {
    let chunker = Chunker::new(10, 0);
    let file = make_file("f.rs", 2);
    let symbols = vec![Symbol::new(SymbolKind::Function, "f".to_string(), 1, Visibility::Public).with_line_range(1, 2)];
    let chunks = chunker.chunk_by_symbols(&file, "aaaaaa\nbbbbbb", &symbols);
    assert_eq!(chunks.len(), 2);
    assert_eq!(chunks[0].id, "f.rs:split:1");
    assert_eq!(chunks[1].id, "f.rs:split:2");
}

#[test]
fn each_window_ends_after_the_one_before() {
    // budget 100, overlap 160 characters (2 lines); lines of 10, 80 and 95 characters
    let chunker = Chunker::new(100, 160);
    let file = make_file("w.txt", 3);
    let content = format!("{}\n{}\n{}", "a".repeat(10), "b".repeat(80), "c".repeat(95));
    let chunks = chunker.chunk_by_window(&file, &content);
    let ranges: Vec<(usize, usize)> = chunks.iter().map(|c| (c.start_line, c.end_line)).collect();
    assert_eq!(ranges, vec![(1, 2), (3, 3)]);
    for w in chunks.windows(2) {
        assert!(w[1].end_line > w[0].end_line);
        assert!(w[1].start_line + 2 >= w[0].end_line + 1);
        assert!(w[1].start_line <= w[0].end_line + 1);
    }
}
