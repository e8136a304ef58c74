//! What is remembered of blocks.
use prsync::state::{BlockRow, StateStore};

#[test]
fn block_db_round_trip() {
    let mut state = StateStore::load(Vec::new());

    let path = "big/file.bin";
    let hash = "abcdef1234567890";

    // Initially no match.
    assert!(!state.block_matches(path, 0, hash));

    // Upsert and verify match.
    state.upsert_block(path, 0, hash, 5242880, "etag-1");
    assert!(state.block_matches(path, 0, hash));

    // Different hash doesn't match.
    assert!(!state.block_matches(path, 0, "different"));

    // Clear blocks.
    state.clear_blocks(path);
    assert!(!state.block_matches(path, 0, hash));
}

#[test]
fn files_have_their_own_tables() {
    let mut state = StateStore::load(Vec::new());
    state.upsert_block("a", 0, "a0", 1024, "");
    state.upsert_block("a", 1, "a1", 1024, "");
    state.upsert_block("b", 0, "b0", 1024, "");
    state.upsert_block("a", 0, "new", 1024, "");
    assert!(state.block_matches("a", 0, "new"));
    assert!(!state.block_matches("a", 0, "a0"));
    assert!(state.block_matches("a", 1, "a1"));
    assert!(!state.block_matches("a", 2, "a1"));
    state.clear_blocks("a");
    assert!(!state.block_matches("a", 0, "new"));
    assert!(!state.block_matches("a", 1, "a1"));
    assert!(state.block_matches("b", 0, "b0"));
}

#[test]
fn saved_rows_make_the_same_store() {
    let mut state = StateStore::load(Vec::new());
    state.upsert_block("a", 0, "x", 4, "tag");
    state.upsert_block("a", 1, "y", 4, "");
    state.upsert_block("a", 0, "z", 8, "tag");
    let saved: Vec<BlockRow> = state
        .rows()
        .iter()
        .map(|row| BlockRow {
            path: row.path.clone(),
            block_index: row.block_index,
            hash: row.hash.clone(),
            block_size: row.block_size,
            etag: row.etag.clone(),
        })
        .collect();
    assert_eq!(saved.len(), 2);
    let again = StateStore::load(saved);
    assert!(again.block_matches("a", 0, "z"));
    assert!(again.block_matches("a", 1, "y"));
    assert!(!again.block_matches("a", 0, "x"));
    assert_eq!(again.rows()[0].block_size, 8);
    assert_eq!(again.rows()[0].etag, "tag");
}

#[test]
fn later_row_of_a_block_counts() {
    let row = |hash: &str| BlockRow {
        path: "f".to_string(),
        block_index: 3,
        hash: hash.to_string(),
        block_size: 4,
        etag: String::new(),
    };
    let state = StateStore::load(vec![row("old"), row("new")]);
    assert!(state.block_matches("f", 3, "new"));
    assert!(!state.block_matches("f", 3, "old"));
    assert_eq!(state.rows().len(), 1);
}
