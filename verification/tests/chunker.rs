use hugo_ai::chunker::chunk_body;

fn header(title: &str, date: &str) -> Vec<u8> {
    let mut h = title.as_bytes().to_vec();
    h.push(b'\n');
    h.extend_from_slice(date.as_bytes());
    h
}

#[test]
fn short_body_yields_single_chunk_of_header_and_body() {
    let title = b"A title".to_vec();
    let date = b"2024-01-02".to_vec();
    let body = b"A short body that stays under the threshold.".to_vec();
    let chunks = chunk_body(&title, &date, body.clone());
    assert_eq!(chunks.len(), 1);
    let mut expected = header("A title", "2024-01-02");
    expected.extend_from_slice(&body);
    assert_eq!(chunks[0], expected);
}

#[test]
fn empty_body_yields_single_chunk_of_header() {
    let title = b"T".to_vec();
    let date = b"D".to_vec();
    let chunks = chunk_body(&title, &date, Vec::new());
    assert_eq!(chunks.len(), 1);
    assert_eq!(chunks[0], header("T", "D"));
}

#[test]
fn body_at_threshold_stays_single_chunk() {
    // Exactly 2500 bytes: not strictly over the threshold.
    let body = vec![b'x'; 2500];
    let chunks = chunk_body(&b"t".to_vec(), &b"d".to_vec(), body.clone());
    assert_eq!(chunks.len(), 1);
}

#[test]
fn long_body_splits_at_spaces_and_reconstructs() {
    // "abcd " repeated 1200 times: 6000 bytes, spaces at 4 mod 5.
    let mut body = Vec::new();
    for _ in 0..1200 {
        body.extend_from_slice(b"abcd ");
    }
    let title = b"Long".to_vec();
    let date = b"2024".to_vec();
    let chunks = chunk_body(&title, &date, body.clone());

    // First cut: offset 2000 is not a space; the next space is at 2004.
    // Second cut: 2000 bytes into the rest lands on the space at 4004.
    // The remaining 1996 bytes stay in the final chunk.
    assert_eq!(chunks.len(), 3);

    let h = header("Long", "2024");
    let mut c0 = h.clone();
    c0.extend_from_slice(b"\n\n");
    c0.extend_from_slice(&body[..2004]);
    assert_eq!(chunks[0], c0);

    let mut c1 = h.clone();
    c1.extend_from_slice(b"\n\n");
    c1.extend_from_slice(&body[2004..4004]);
    assert_eq!(chunks[1], c1);

    // The final chunk carries no blank line between header and body.
    let mut c2 = h.clone();
    c2.extend_from_slice(&body[4004..]);
    assert_eq!(chunks[2], c2);

    // Every slice after the first begins with the space found at the cut.
    assert_eq!(body[2004], b' ');
    assert_eq!(body[4004], b' ');

    // Concatenating the slices reconstructs the body exactly.
    let mut rebuilt = Vec::new();
    rebuilt.extend_from_slice(&body[..2004]);
    rebuilt.extend_from_slice(&body[2004..4004]);
    rebuilt.extend_from_slice(&body[4004..]);
    assert_eq!(rebuilt, body);
}

#[test]
fn body_without_spaces_after_offset_keeps_tail_empty() {
    // 3000 bytes with no space anywhere: the scan runs to the end, the
    // whole body lands in the first chunk, and the final chunk is bare.
    let body = vec![b'y'; 3000];
    let title = b"t".to_vec();
    let date = b"d".to_vec();
    let chunks = chunk_body(&title, &date, body.clone());
    assert_eq!(chunks.len(), 2);
    let h = header("t", "d");
    let mut c0 = h.clone();
    c0.extend_from_slice(b"\n\n");
    c0.extend_from_slice(&body);
    assert_eq!(chunks[0], c0);
    assert_eq!(chunks[1], h);
}
