use search_engine::index::disk_inverted_index::DiskInvertedIndex;

fn be32(n: u32) -> Vec<u8> {
    n.to_be_bytes().to_vec()
}

fn be64(n: u64) -> Vec<u8> {
    n.to_be_bytes().to_vec()
}

fn scores(a: f64, b: f64, c: f64, d: f64) -> Vec<u8> {
    let mut v = Vec::new();
    for x in [a, b, c, d] {
        v.extend(be64(x.to_bits()));
    }
    v
}

/// Two terms: "apple" (document 3 at positions 1 and 5) and "banana"
/// (document 1 at position 2, document 3 at position 2), with
/// variable-byte numbers.
fn sample_index() -> (DiskInvertedIndex, usize) {
    let vocab = b"applebanana".to_vec();
    let mut postings = Vec::new();
    postings.extend(be32(1));
    postings.push(0x83);
    postings.extend(scores(1.5, 2.5, 3.5, 4.5));
    postings.push(0x82);
    postings.push(0x81);
    postings.push(0x84);
    let banana_at = postings.len();
    postings.extend(be32(2));
    postings.push(0x81);
    postings.extend(scores(0.5, 0.25, 0.125, 1.0));
    postings.push(0x81);
    postings.push(0x82);
    postings.push(0x82);
    postings.extend(scores(0.0, 0.0, 0.0, 0.0));
    postings.push(0x81);
    postings.push(0x82);
    let mut table = Vec::new();
    table.extend(be32(2));
    table.extend(be64(0));
    table.extend(be64(0));
    table.extend(be64(5));
    table.extend(be64(banana_at as u64));
    let mut weights = Vec::new();
    weights.extend(be64(7.0f64.to_bits()));
    for doc in 0..4u64 {
        weights.extend(be64((doc as f64 + 0.5).to_bits()));
        weights.extend(be64(10 + doc));
        weights.extend(be64(100 + doc));
        weights.extend(be64(1.25f64.to_bits()));
    }
    (DiskInvertedIndex::new("folder", vocab, weights, postings, &table), banana_at)
}

#[test]
fn vocabulary_table_is_read() {
    let mut table = be32(2);
    table.extend(be64(0));
    table.extend(be64(9));
    table.extend(vec![1, 2, 3]);
    assert_eq!(DiskInvertedIndex::read_vocab_table(&table), vec![0, 9]);
}

#[test]
fn binary_search_finds_terms() {
    let (index, banana_at) = sample_index();
    assert_eq!(index.binary_search_vocabulary("apple"), 0);
    assert_eq!(index.binary_search_vocabulary("banana"), banana_at as i64);
    assert_eq!(index.binary_search_vocabulary("cherry"), -1);
    assert!(index.contains_term("apple"));
    assert!(!index.contains_term("blueberry"));
    // A term before the first one makes the search step below zero.
    assert_eq!(index.try_binary_search_vocabulary("aardvark"), None);
    assert_eq!(index.get_term_count(), 2);
    assert_eq!(index.get_path(), "folder".to_string());
}

#[test]
fn postings_are_decoded() {
    let (index, _) = sample_index();
    let apple = index.get_postings("apple").unwrap();
    assert_eq!(
        apple,
        vec![(3, 2, 1.5f64.to_bits(), 2.5f64.to_bits(), 3.5f64.to_bits(), 4.5f64.to_bits(), vec![1, 5])]
    );
    let banana = index.get_postings("banana").unwrap();
    assert_eq!(banana.len(), 2);
    assert_eq!(banana[0].0, 1);
    assert_eq!(banana[0].6, vec![2]);
    assert_eq!(banana[1].0, 3);
    assert_eq!(banana[1].6, vec![2]);
    let no_positions = index.get_postings_no_positions("banana").unwrap();
    assert_eq!(no_positions[0], (1, 1, 0.5f64.to_bits(), 0.25f64.to_bits(), 0.125f64.to_bits(), 1.0f64.to_bits()));
    assert_eq!(no_positions[1].0, 3);
}

#[test]
fn frequencies_are_counted() {
    let (index, _) = sample_index();
    assert_eq!(index.get_document_frequency("banana"), 2);
    assert_eq!(index.get_document_frequency("cherry"), 0);
    assert_eq!(index.get_term_frequency("apple"), 2);
    assert_eq!(index.get_term_frequency("banana"), 2);
    assert_eq!(index.get_term_frequency("cherry"), 0);
    assert_eq!(index.try_get_total_term_frequency(), Some(4));
    assert_eq!(index.get_total_term_frequency(), 4);
}

#[test]
fn vocabulary_and_document_terms() {
    let (index, _) = sample_index();
    assert_eq!(index.get_vocab(), vec!["apple".to_string(), "banana".to_string()]);
    assert_eq!(index.try_get_terms_for_document(3), Some(vec!["apple".to_string(), "banana".to_string()]));
    assert_eq!(index.try_get_terms_for_document(1), Some(vec!["banana".to_string()]));
    assert_eq!(index.try_get_terms_for_document(2), Some(Vec::new()));
    assert_eq!(index.get_terms_for_document(1), vec!["banana".to_string()]);
}

#[test]
fn document_weights_are_read() {
    let (index, _) = sample_index();
    let w = index.get_document_weights(2).unwrap();
    assert_eq!(w, (7.0f64.to_bits(), 2.5f64.to_bits(), 12, 102, 1.25f64.to_bits()));
    assert_eq!(index.try_get_document_weights(4), None);
}

#[test]
fn malformed_postings_are_refused() {
    let vocab = b"a".to_vec();
    let mut table = be32(1);
    table.extend(be64(0));
    table.extend(be64(0));
    // A document frequency of one, but no bytes for the posting.
    let index = DiskInvertedIndex::new("f", vocab, Vec::new(), be32(1), &table);
    assert_eq!(index.try_get_postings("a"), None);
    assert_eq!(index.try_get_document_frequency("a"), Some(1));
    assert_eq!(index.try_get_term_frequency("a"), None);
}

#[test]
fn id_file_counts_documents() {
    let text = "{\"0\": \"documents/doc1.txt\", \"1\": \"documents/doc2.txt\", \"7\": \"documents/doc8.txt\"}";
    assert_eq!(DiskInvertedIndex::try_get_num_documents(text), Some(Ok(3)));
    assert_eq!(DiskInvertedIndex::get_num_documents(text), Ok(3));
    assert!(matches!(DiskInvertedIndex::try_get_num_documents("{}"), Some(Err(_))));
    assert_eq!(DiskInvertedIndex::try_get_num_documents("[1, 2]"), None);
    assert_eq!(DiskInvertedIndex::try_get_num_documents("{\"x\": \"a\"}"), None);
}
