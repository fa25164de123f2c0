use kb_engine::search::{search_records, RELEVANCE_FLOOR};
use kb_engine::store::{append_chunks, empty_store, remove_chunks_by_filename, ChunkRecord};
use kb_engine::vector::{cosine_similarity, SIM_SCALE};

fn record(content: &str, filename: &str, embedding: Vec<i64>) -> ChunkRecord {
    ChunkRecord { content: content.to_string(), filename: filename.to_string(), embedding }
}

#[test]
fn cosine_of_a_vector_with_itself_is_one() {
    let v: Vec<i64> = vec![300_000, 400_000];
    assert_eq!(cosine_similarity(&v, &v), SIM_SCALE);
}

#[test]
fn cosine_self_is_exact_even_for_tiny_vectors() {
    let v: Vec<i64> = vec![1, 1, 1];
    assert_eq!(cosine_similarity(&v, &v), SIM_SCALE);
    let w: Vec<i64> = vec![2, 0, 1];
    assert_eq!(cosine_similarity(&w, &w), SIM_SCALE);
}

#[test]
fn cosine_never_leaves_the_unit_range() {
    let tiny: Vec<i64> = vec![1, 1, 1];
    let axis: Vec<i64> = vec![1, 0, 0];
    let s = cosine_similarity(&tiny, &axis);
    assert!(-SIM_SCALE <= s && s <= SIM_SCALE);
    let opposite: Vec<i64> = vec![-1, -1, -1];
    assert_eq!(cosine_similarity(&tiny, &opposite), -SIM_SCALE);
}

#[test]
fn cosine_against_zero_vector_is_zero() {
    let v: Vec<i64> = vec![300_000, 400_000];
    let zero: Vec<i64> = vec![0, 0];
    assert_eq!(cosine_similarity(&v, &zero), 0);
    assert_eq!(cosine_similarity(&zero, &v), 0);
}

#[test]
fn cosine_of_orthogonal_vectors_is_zero() {
    let a: Vec<i64> = vec![1_000_000, 0];
    let b: Vec<i64> = vec![0, 1_000_000];
    assert_eq!(cosine_similarity(&a, &b), 0);
}

#[test]
fn cosine_of_opposite_vectors_is_minus_one() {
    let a: Vec<i64> = vec![1_000_000, 0];
    let b: Vec<i64> = vec![-1_000_000, 0];
    assert_eq!(cosine_similarity(&a, &b), -SIM_SCALE);
}

#[test]
fn cosine_at_forty_five_degrees() {
    let a: Vec<i64> = vec![707_107, 707_107];
    let b: Vec<i64> = vec![1_000_000, 0];
    let s = cosine_similarity(&a, &b);
    assert!(s > 707_000 && s < 707_300, "unexpected similarity {}", s);
}

#[test]
fn search_on_empty_store_returns_empty() {
    let records = empty_store();
    let query: Vec<i64> = vec![1_000_000, 0];
    let results = search_records(&records, &query, 5);
    assert!(results.is_empty());
}

#[test]
fn search_never_exceeds_top_k_and_respects_floor() {
    let records = vec![
        record("east", "a.txt", vec![1_000_000, 0]),
        record("north-east", "a.txt", vec![707_107, 707_107]),
        record("north", "b.txt", vec![0, 1_000_000]),
        record("near-east", "b.txt", vec![960_000, 280_000]),
    ];
    let query: Vec<i64> = vec![1_000_000, 0];
    let results = search_records(&records, &query, 2);
    // "north" scores zero (orthogonal) and would be filtered anyway; only
    // the two best survive the cut to top_k = 2.
    assert_eq!(results.len(), 2);
    assert_eq!(results[0].content, "east");
    assert_eq!(results[1].content, "near-east");
    for hit in &results {
        assert!(hit.score > RELEVANCE_FLOOR);
    }
}

#[test]
fn search_filters_after_taking_top_k() {
    // Both stored chunks are orthogonal to the query: the top-k cut keeps
    // them, the relevance floor then drops them, and the result is empty
    // rather than padded.
    let records = vec![
        record("north", "a.txt", vec![0, 1_000_000]),
        record("also north", "b.txt", vec![0, 900_000]),
    ];
    let query: Vec<i64> = vec![1_000_000, 0];
    let results = search_records(&records, &query, 5);
    assert!(results.is_empty());
}

#[test]
fn search_ranks_identical_embedding_first() {
    let records = vec![
        record("north", "n.txt", vec![0, 1_000_000]),
        record("the answer", "hit.txt", vec![600_000, 800_000]),
        record("north-east", "ne.txt", vec![707_107, 707_107]),
    ];
    let query: Vec<i64> = vec![600_000, 800_000];
    let results = search_records(&records, &query, 3);
    assert!(results.len() >= 1);
    assert_eq!(results[0].filename, "hit.txt");
    assert_eq!(results[0].content, "the answer");
    assert!(results[0].score > 990_000, "score {} should be nearly one", results[0].score);
}

#[test]
fn search_keeps_store_order_on_ties() {
    let records = vec![
        record("first", "1.txt", vec![500_000, 500_000]),
        record("second", "2.txt", vec![500_000, 500_000]),
    ];
    let query: Vec<i64> = vec![500_000, 500_000];
    let results = search_records(&records, &query, 5);
    assert_eq!(results.len(), 2);
    assert_eq!(results[0].content, "first");
    assert_eq!(results[1].content, "second");
    assert_eq!(results[0].score, results[1].score);
}

#[test]
fn append_then_load_round_trips() {
    let mut records = empty_store();
    let texts = vec!["chunk one".to_string(), "chunk two".to_string()];
    let embeddings: Vec<Vec<i64>> = vec![vec![1, 2, 3], vec![4, 5, 6]];
    let n = append_chunks(&mut records, "doc.txt", &texts, &embeddings);
    assert_eq!(n, 2);
    assert_eq!(records.len(), 2);
    assert_eq!(records[0].content, "chunk one");
    assert_eq!(records[0].filename, "doc.txt");
    assert_eq!(records[0].embedding, vec![1, 2, 3]);
    assert_eq!(records[1].content, "chunk two");
    assert_eq!(records[1].filename, "doc.txt");
    assert_eq!(records[1].embedding, vec![4, 5, 6]);
}

#[test]
fn append_preserves_existing_records() {
    let mut records = empty_store();
    append_chunks(&mut records, "a.txt", &vec!["a1".to_string()], &vec![vec![1]]);
    append_chunks(&mut records, "b.txt", &vec!["b1".to_string(), "b2".to_string()], &vec![
        vec![2],
        vec![3],
    ]);
    assert_eq!(records.len(), 3);
    assert_eq!(records[0].filename, "a.txt");
    assert_eq!(records[1].filename, "b.txt");
    assert_eq!(records[2].filename, "b.txt");
}

#[test]
fn remove_by_filename_removes_exactly_one_document() {
    let mut records = empty_store();
    append_chunks(&mut records, "doc1.txt", &vec!["d1c1".to_string(), "d1c2".to_string()], &vec![
        vec![1],
        vec![2],
    ]);
    append_chunks(
        &mut records,
        "doc2.txt",
        &vec!["d2c1".to_string(), "d2c2".to_string(), "d2c3".to_string()],
        &vec![vec![3], vec![4], vec![5]],
    );
    remove_chunks_by_filename(&mut records, "doc1.txt");
    assert_eq!(records.len(), 3);
    for r in &records {
        assert_eq!(r.filename, "doc2.txt");
    }
    // The survivors keep their original relative order.
    assert_eq!(records[0].content, "d2c1");
    assert_eq!(records[1].content, "d2c2");
    assert_eq!(records[2].content, "d2c3");
}

#[test]
fn remove_from_empty_store_is_a_noop() {
    let mut records = empty_store();
    remove_chunks_by_filename(&mut records, "ghost.txt");
    assert!(records.is_empty());
}
