use kb_engine::chunk::{chunk_step, chunk_text};
use kb_engine::ingest::{prepare_chunks, EngineError};

#[test]
fn chunk_basic_windows() {
    let chunks = chunk_text("one two three four five", 2, 1);
    assert_eq!(chunks, vec!["one two", "two three", "three four", "four five"]);
}

#[test]
fn chunk_no_overlap() {
    let chunks = chunk_text("a b c d e f", 2, 0);
    assert_eq!(chunks, vec!["a b", "c d", "e f"]);
}

#[test]
fn chunk_empty_text_yields_nothing() {
    assert!(chunk_text("", 1, 0).is_empty());
    assert!(chunk_text("", 500, 50).is_empty());
    assert!(chunk_text("   \t\n  ", 5, 1).is_empty());
}

#[test]
fn chunk_single_window_when_text_is_short() {
    let chunks = chunk_text("just three words", 500, 50);
    assert_eq!(chunks, vec!["just three words"]);
}

#[test]
fn chunk_overlap_at_least_window_still_terminates() {
    // Window of 10 with an overlap of 50: the step floors at one word.
    let text = "w1 w2 w3 w4 w5 w6 w7 w8 w9 w10 w11 w12";
    let chunks = chunk_text(text, 10, 50);
    assert_eq!(chunks.len(), 3);
    assert_eq!(chunks[0], "w1 w2 w3 w4 w5 w6 w7 w8 w9 w10");
    assert_eq!(chunks[1], "w2 w3 w4 w5 w6 w7 w8 w9 w10 w11");
    assert_eq!(chunks[2], "w3 w4 w5 w6 w7 w8 w9 w10 w11 w12");
    assert_eq!(chunk_step(10, 50), 1);
}

#[test]
fn chunk_windows_reconstruct_the_words() {
    // Overlap smaller than the window: dropping the first `overlap` words of
    // every window after the first reconstructs the text's words.
    let text = "a b c d e";
    let chunks = chunk_text(text, 3, 1);
    assert_eq!(chunks, vec!["a b c", "c d e"]);
    let mut rebuilt: Vec<&str> = chunks[0].split_whitespace().collect();
    for window in &chunks[1..] {
        rebuilt.extend(window.split_whitespace().skip(1));
    }
    let original: Vec<&str> = text.split_whitespace().collect();
    assert_eq!(rebuilt, original);
}

#[test]
fn chunk_collapses_extra_whitespace() {
    let chunks = chunk_text("  spaced \t words\nhere ", 10, 0);
    assert_eq!(chunks, vec!["spaced words here"]);
}

#[test]
fn chunk_zero_window_yields_nothing() {
    assert!(chunk_text("a b c", 0, 0).is_empty());
}

#[test]
fn prepare_chunks_rejects_blank_text() {
    match prepare_chunks("   \n\t ", 500, 50) {
        Err(EngineError::EmptyDocument) => {}
        _ => panic!("blank text must be an EmptyDocument error"),
    }
}

#[test]
fn prepare_chunks_reports_no_chunks() {
    match prepare_chunks("some words here", 0, 0) {
        Err(EngineError::NoChunksProduced) => {}
        _ => panic!("a zero window must be a NoChunksProduced error"),
    }
}

#[test]
fn prepare_chunks_passes_real_text_through() {
    let chunks = prepare_chunks("alpha beta gamma delta", 3, 1).unwrap();
    assert_eq!(chunks, vec!["alpha beta gamma", "gamma delta"]);
}
