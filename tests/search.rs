use agentlens::chunker::ChunkType;
use agentlens::hybrid::{hybrid_rank, reciprocal_rank_fusion, text_search, SearchResult, SCORE_SCALE};
use agentlens::store::Chunk;

fn make_chunk(id: &str, content: &str) -> Chunk {
    Chunk {
        id: id.to_string(),
        file_path: "test.rs".to_string(),
        start_line: 1,
        end_line: 10,
        content: content.to_string(),
        vector: vec![0.1f32.to_bits(), 0.2f32.to_bits(), 0.3f32.to_bits()],
        hash: "abc123".to_string(),
        updated_at: chrono::Utc::now().timestamp_millis(),
        chunk_type: ChunkType::Function,
    }
}

fn score(x: f64) -> u128 {
    (x * SCORE_SCALE as f64) as u128
}

#[test]
fn test_rrf_single_list() {
    let list = vec![
        SearchResult::new(make_chunk("a", "content a"), score(0.9)),
        SearchResult::new(make_chunk("b", "content b"), score(0.8)),
    ];

    let results = reciprocal_rank_fusion(60, 10, vec![list]);
    assert_eq!(results.len(), 2);
    assert!(results[0].score > results[1].score);
}

#[test]
fn test_rrf_multiple_lists() {
    let list1 = vec![
        SearchResult::new(make_chunk("a", "a"), score(0.9)),
        SearchResult::new(make_chunk("b", "b"), score(0.8)),
    ];
    let list2 = vec![
        SearchResult::new(make_chunk("b", "b"), score(0.9)),
        SearchResult::new(make_chunk("c", "c"), score(0.8)),
    ];

    let results = reciprocal_rank_fusion(60, 10, vec![list1, list2]);

    assert_eq!(results[0].chunk.id, "b");
}

#[test]
fn rrf_scores_are_exact_fixed_point() {
    let list1 = vec![SearchResult::new(make_chunk("a", "a"), 0), SearchResult::new(make_chunk("b", "b"), 0)];
    let list2 = vec![SearchResult::new(make_chunk("b", "b"), 0), SearchResult::new(make_chunk("c", "c"), 0)];
    let results = reciprocal_rank_fusion(60, 10, vec![list1, list2]);
    let ids: Vec<&str> = results.iter().map(|r| r.chunk.id.as_str()).collect();
    assert_eq!(ids, vec!["b", "a", "c"]);
    assert_eq!(results[0].score, SCORE_SCALE / 62 + SCORE_SCALE / 61);
    assert_eq!(results[1].score, SCORE_SCALE / 61);
    assert_eq!(results[2].score, SCORE_SCALE / 62);
    let cut = reciprocal_rank_fusion(60, 1, vec![vec![SearchResult::new(make_chunk("x", "x"), 0)]]);
    assert_eq!(cut.len(), 1);
    assert!(reciprocal_rank_fusion(60, 10, vec![]).is_empty());
}

#[test]
fn rrf_keeps_first_copy_and_breaks_ties_by_first_occurrence() {
    let list1 = vec![SearchResult::new(make_chunk("p", "first copy"), 0)];
    let list2 = vec![SearchResult::new(make_chunk("q", "q"), 0), SearchResult::new(make_chunk("p", "second copy"), 0)];
    let results = reciprocal_rank_fusion(60, 10, vec![list1, list2]);
    assert_eq!(results[0].chunk.id, "p");
    assert_eq!(results[0].chunk.content, "first copy");
    let tie = reciprocal_rank_fusion(60, 10, vec![vec![SearchResult::new(make_chunk("m", "m"), 0)], vec![SearchResult::new(make_chunk("n", "n"), 0)]]);
    assert_eq!(tie[0].chunk.id, "m");
    assert_eq!(tie[1].chunk.id, "n");
}

#[test]
fn test_text_search_basic() {
    let chunks = vec![
        make_chunk("1", "This is authentication code"),
        make_chunk("2", "Database connection handler"),
        make_chunk("3", "User login authentication flow"),
    ];

    let results = text_search(&chunks, "authentication", 10);
    assert_eq!(results.len(), 2);
    assert!(results.iter().any(|r| r.chunk.id == "1"));
    assert!(results.iter().any(|r| r.chunk.id == "3"));
}

#[test]
fn test_text_search_phrase_bonus() {
    let chunks = vec![
        make_chunk("1", "user authentication"),
        make_chunk("2", "authentication for user accounts"),
    ];

    let results = text_search(&chunks, "user authentication", 10);
    assert_eq!(results.len(), 2);
    assert!(results[0].score > results[1].score);
    assert_eq!(results[0].chunk.id, "1");
}

#[test]
fn test_text_search_no_matches() {
    let chunks = vec![make_chunk("1", "hello world")];
    let results = text_search(&chunks, "foobar", 10);
    assert!(results.is_empty());
}

#[test]
fn text_search_scores_and_case() {
    let chunks = vec![
        make_chunk("1", "USER Authentication"),
        make_chunk("2", "only user here"),
        make_chunk("3", "nothing"),
    ];
    let results = text_search(&chunks, "User Authentication", 10);
    assert_eq!(results.len(), 2);
    assert_eq!(results[0].chunk.id, "1");
    assert_eq!(results[0].score, SCORE_SCALE * 3 / 2);
    assert_eq!(results[1].chunk.id, "2");
    assert_eq!(results[1].score, SCORE_SCALE / 2);
}

#[test]
fn text_search_drops_short_tokens_and_limits() {
    let chunks = vec![make_chunk("1", "a b c"), make_chunk("2", "ab ab"), make_chunk("3", "ab")];
    assert!(text_search(&chunks, "a b", 10).is_empty());
    assert!(text_search(&chunks, "   ", 10).is_empty());
    let limited = text_search(&chunks, "ab", 1);
    assert_eq!(limited.len(), 1);
    assert_eq!(limited[0].chunk.id, "2");
}

#[test]
fn hybrid_rank_without_fusion_truncates() {
    let vector = vec![
        SearchResult::new(make_chunk("v1", "v1"), 5),
        SearchResult::new(make_chunk("v2", "v2"), 4),
        SearchResult::new(make_chunk("v3", "v3"), 3),
    ];
    let r = hybrid_rank(false, 60, 2, vector, &[], "q");
    let ids: Vec<&str> = r.iter().map(|x| x.chunk.id.as_str()).collect();
    assert_eq!(ids, vec!["v1", "v2"]);
}

#[test]
fn hybrid_rank_fuses_vector_and_text() {
    let all = vec![make_chunk("a", "parser code"), make_chunk("b", "token parser"), make_chunk("c", "other")];
    let vector = vec![SearchResult::new(make_chunk("c", "other"), 0), SearchResult::new(make_chunk("b", "token parser"), 0)];
    let r = hybrid_rank(true, 60, 2, vector, &all, "parser");
    assert_eq!(r.len(), 2);
    assert_eq!(r[0].chunk.id, "b");
}

#[test]
fn repeated_query_tokens_count_once() {
    let chunks = vec![make_chunk("1", "user")];
    let results = text_search(&chunks, "User user", 10);
    assert_eq!(results.len(), 1);
    assert_eq!(results[0].score, SCORE_SCALE / 2);
}
