use hugo_ai::front_matter::merge_related;
use hugo_ai::front_matter::split_document;
use hugo_ai::front_matter::FrontMatter;

fn sample_front_matter() -> FrontMatter {
    FrontMatter {
        title: b"A post".to_vec(),
        tagline: None,
        author: None,
        kind: None,
        date: b"2024-05-06T00:00:00+00:00".to_vec(),
        url: None,
        tags: Vec::new(),
        show_summary: false,
        summary: None,
        draft: false,
        related: Vec::new(),
        synopsis: None,
    }
}

#[test]
fn splits_document_into_block_and_body() {
    let doc = b"---\ntitle: Foo\ndate: 2024\n---\nbody line one\nbody line two".to_vec();
    let (block, size, body) = split_document(&doc);
    assert_eq!(block, b"title: Foo\ndate: 2024".to_vec());
    assert_eq!(size, 2);
    assert_eq!(body, b"body line one\nbody line two".to_vec());
}

#[test]
fn document_without_body_has_empty_body() {
    let doc = b"---\ntitle: Foo\n---".to_vec();
    let (block, size, body) = split_document(&doc);
    assert_eq!(block, b"title: Foo".to_vec());
    assert_eq!(size, 1);
    assert!(body.is_empty());
}

#[test]
fn empty_document_splits_to_nothing() {
    let (block, size, body) = split_document(&Vec::new());
    assert!(block.is_empty());
    assert_eq!(size, 0);
    assert!(body.is_empty());
}

#[test]
fn merge_fills_empty_related_list() {
    let mut fm = sample_front_matter();
    let computed = vec![b"peer-one.md".to_vec(), b"peer-two.md".to_vec()];
    let changed = merge_related(&mut fm, &computed);
    assert!(changed);
    assert_eq!(fm.related, computed);
}

#[test]
fn merge_never_overwrites_existing_related_list() {
    let mut fm = sample_front_matter();
    fm.related = vec![b"curated.md".to_vec()];
    let computed = vec![b"peer-one.md".to_vec()];
    let changed = merge_related(&mut fm, &computed);
    assert!(!changed);
    assert_eq!(fm.related, vec![b"curated.md".to_vec()]);
}

#[test]
fn merge_with_nothing_computed_changes_nothing() {
    let mut fm = sample_front_matter();
    let changed = merge_related(&mut fm, &Vec::new());
    assert!(!changed);
    assert!(fm.related.is_empty());
}

#[test]
fn second_write_is_a_no_op() {
    // The write stage run twice over unchanged similarity data: the
    // first run fills the list, the second finds it non-empty and
    // leaves the metadata alone.
    let mut fm = sample_front_matter();
    let computed = vec![b"peer-one.md".to_vec()];
    assert!(merge_related(&mut fm, &computed));
    let after_first = fm.related.clone();
    let changed_again = merge_related(&mut fm, &computed);
    assert!(!changed_again);
    assert_eq!(fm.related, after_first);
}
