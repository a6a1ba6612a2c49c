use hugo_ai::store::GatheredFile;
use hugo_ai::store::Store;

fn file(name: &str, title: &str, draft: bool, chunks: &[&str]) -> GatheredFile {
    GatheredFile {
        filename: name.as_bytes().to_vec(),
        title: title.as_bytes().to_vec(),
        url: b"/post".to_vec(),
        date: Some(b"2024-01-01T00:00:00+00:00".to_vec()),
        is_draft: draft,
        chunks: chunks.iter().map(|c| c.as_bytes().to_vec()).collect(),
    }
}

#[test]
fn gather_assigns_sequential_ids() {
    let mut store = Store::new();
    let a = store.gather_file(&file("a.md", "A", false, &["a text"]));
    let b = store.gather_file(&file("b.md", "B", false, &["b text"]));
    assert_eq!(a, 1);
    assert_eq!(b, 2);
    assert_eq!(store.article_count(), 2);
}

#[test]
fn regather_updates_in_place_without_duplicating() {
    let mut store = Store::new();
    store.gather_file(&file("a.md", "Old title", false, &["one", "two"]));
    let id = store.gather_file(&file("a.md", "New title", false, &["one", "two"]));
    assert_eq!(id, 1);
    assert_eq!(store.article_count(), 1);
    assert_eq!(store.chunk_count(), 2);
    assert_eq!(store.article_at(0).title, b"New title".to_vec());
}

#[test]
fn gather_twice_keeps_embedding_of_unchanged_chunk() {
    let mut store = Store::new();
    let id = store.gather_file(&file("a.md", "A", false, &["chunk zero", "chunk one"]));
    store.set_embedding(id, 0, vec![7, 8, 9]);

    // Same directory contents again: no new rows, embedding retained.
    store.gather_file(&file("a.md", "A", false, &["chunk zero", "chunk one"]));
    assert_eq!(store.article_count(), 1);
    assert_eq!(store.chunk_count(), 2);
    let mut found = false;
    for i in 0..store.chunk_count() {
        let row = store.chunk_at(i);
        if row.article == id && row.index == 0 {
            assert_eq!(row.text, b"chunk zero".to_vec());
            assert_eq!(row.embedding, Some(vec![7, 8, 9]));
            found = true;
        }
    }
    assert!(found);
}

#[test]
fn changed_chunk_text_is_replaced() {
    let mut store = Store::new();
    let id = store.gather_file(&file("a.md", "A", false, &["original"]));
    store.gather_file(&file("a.md", "A", false, &["rewritten"]));
    assert_eq!(store.chunk_count(), 1);
    let row = store.chunk_at(0);
    assert_eq!(row.article, id);
    assert_eq!(row.text, b"rewritten".to_vec());
}

#[test]
fn chunks_needing_embedding_lists_only_unembedded() {
    let mut store = Store::new();
    let id = store.gather_file(&file("a.md", "A", false, &["first", "second"]));
    store.set_embedding(id, 0, vec![1]);
    let todo = store.chunks_needing_embedding(id);
    assert_eq!(todo.len(), 1);
    assert_eq!(todo[0].index, 1);
    assert_eq!(todo[0].text, b"second".to_vec());

    let done = store.embedded_chunks(id);
    assert_eq!(done, vec![vec![1u64]]);
}

#[test]
fn active_ids_skip_drafts_and_come_out_ascending() {
    let mut store = Store::new();
    store.gather_file(&file("a.md", "A", false, &["a"]));
    store.gather_file(&file("b.md", "B", true, &["b"]));
    store.gather_file(&file("c.md", "C", false, &["c"]));
    assert_eq!(store.active_article_ids(), vec![1, 3]);
}

#[test]
fn draft_flag_changes_are_picked_up_on_regather() {
    let mut store = Store::new();
    store.gather_file(&file("a.md", "A", true, &["a"]));
    assert_eq!(store.active_article_ids(), Vec::<u64>::new());
    store.gather_file(&file("a.md", "A", false, &["a"]));
    assert_eq!(store.active_article_ids(), vec![1]);
}

#[test]
fn record_similarity_overwrites_instead_of_duplicating() {
    let mut store = Store::new();
    store.gather_file(&file("a.md", "A", false, &["a"]));
    store.gather_file(&file("b.md", "B", false, &["b"]));
    store.record_similarity(1, 2, 500_000);
    store.record_similarity(2, 1, 650_000);
    assert_eq!(store.pair_count(), 1);
    let row = store.pair_at(0);
    assert_eq!((row.a, row.b), (1, 2));
    assert_eq!(row.similarity, 650_000);
}

#[test]
fn set_embedding_on_missing_chunk_changes_nothing() {
    let mut store = Store::new();
    let id = store.gather_file(&file("a.md", "A", false, &["a"]));
    store.set_embedding(id, 99, vec![1, 2]);
    assert_eq!(store.chunk_count(), 1);
    assert_eq!(store.chunk_at(0).embedding, None);
}
