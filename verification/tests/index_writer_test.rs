use search_engine::index::index_writer::IndexWriter;
use search_engine::index::positional_inverted_index::PositionalInvertedIndex;

#[test]
fn vocabulary_file_holds_the_words() {
    let writer = IndexWriter::new("folder");
    assert_eq!(writer.get_folder_path(), "folder");
    let apple = "apple".to_string();
    let banana = "banana".to_string();
    let dictionary = vec![&apple, &banana];
    let mut positions = Vec::new();
    let bytes = writer.build_vocab_file(&dictionary, &mut positions);
    assert_eq!(bytes, b"applebanana".to_vec());
    assert_eq!(positions, vec![0, 5]);
}

#[test]
fn document_id_file_holds_four_bytes_each() {
    let writer = IndexWriter::new("folder");
    let mut positions = Vec::new();
    let bytes = writer.build_doc_id_file(&vec![1, 258], &mut positions);
    assert_eq!(bytes, vec![0, 0, 0, 1, 0, 0, 1, 2]);
    assert_eq!(positions, vec![0, 4]);
}

#[test]
fn weights_file_layout() {
    let writer = IndexWriter::new("folder");
    let bytes = writer.build_doc_weights_file(2.0f64.to_bits(), &vec![(1.5f64.to_bits(), 7, 300, 0.5f64.to_bits())]);
    let mut expected = 2.0f64.to_bits().to_be_bytes().to_vec();
    expected.extend(1.5f64.to_bits().to_be_bytes());
    expected.extend(7u64.to_be_bytes());
    expected.extend(300u64.to_be_bytes());
    expected.extend(0.5f64.to_bits().to_be_bytes());
    assert_eq!(bytes, expected);
}

#[test]
fn postings_file_and_table_layout() {
    let mut index = PositionalInvertedIndex::new();
    index.add_term("fox", 2, 4);
    index.add_term("fox", 2, 9);
    index.add_term("dog", 1, 3);
    index.add_term("fox", 5, 1);
    let writer = IndexWriter::new("folder");
    let dictionary = index.get_dictionary();
    let mut vocab_positions = Vec::new();
    writer.build_vocab_file(&dictionary, &mut vocab_positions);
    let scores = vec![vec![(1, 2, 3, 4)], vec![(5, 6, 7, 8), (9, 10, 11, 12)]];
    let (postings, table) = writer.build_postings_file(&index, &dictionary, &vocab_positions, &scores);
    let mut expected = Vec::new();
    // "dog": one posting (four bytes), then variable-byte numbers: document
    // 1, the scores, one position, position 3.
    expected.extend(1u32.to_be_bytes());
    expected.push(0x81);
    for s in [1u64, 2, 3, 4] {
        expected.extend(s.to_be_bytes());
    }
    expected.push(0x81);
    expected.push(0x83);
    let fox_at = expected.len() as u64;
    // "fox": documents 2 and 5 (gap 3), positions 4, 9 (gaps 4, 5) and 1.
    expected.extend(2u32.to_be_bytes());
    expected.push(0x82);
    for s in [5u64, 6, 7, 8] {
        expected.extend(s.to_be_bytes());
    }
    expected.push(0x82);
    expected.push(0x84);
    expected.push(0x85);
    expected.push(0x83);
    for s in [9u64, 10, 11, 12] {
        expected.extend(s.to_be_bytes());
    }
    expected.push(0x81);
    expected.push(0x81);
    assert_eq!(postings, expected);
    let mut expected_table = 2u32.to_be_bytes().to_vec();
    expected_table.extend(0u64.to_be_bytes());
    expected_table.extend(0u64.to_be_bytes());
    expected_table.extend(3u64.to_be_bytes());
    expected_table.extend(fox_at.to_be_bytes());
    assert_eq!(table, expected_table);
}

#[test]
fn written_vocabulary_reads_back() {
    let mut index = PositionalInvertedIndex::new();
    index.add_term("zebra", 0, 1);
    index.add_term("apple", 0, 0);
    index.add_term("mango", 1, 0);
    let writer = IndexWriter::new("folder");
    let dictionary = index.get_dictionary();
    let mut vocab_positions = Vec::new();
    let vocab = writer.build_vocab_file(&dictionary, &mut vocab_positions);
    let scores = vec![vec![(0, 0, 0, 0)], vec![(0, 0, 0, 0)], vec![(0, 0, 0, 0)]];
    let (postings, table) = writer.build_postings_file(&index, &dictionary, &vocab_positions, &scores);
    let read = search_engine::index::disk_inverted_index::DiskInvertedIndex::new("folder", vocab, Vec::new(), postings, &table);
    assert_eq!(read.get_vocab(), vec!["apple".to_string(), "mango".to_string(), "zebra".to_string()]);
    assert_eq!(read.get_term_count(), 3);
    assert!(read.contains_term("mango"));
    // Each word is found at the position of its block: "apple"'s block holds
    // the four-byte count, the 32 bytes of scores and three one-byte
    // numbers.
    assert_eq!(read.binary_search_vocabulary("apple"), 0);
    assert_eq!(read.binary_search_vocabulary("mango"), 39);
    assert_eq!(read.binary_search_vocabulary("zebra"), 78);
    // The lists read back as written.
    assert_eq!(read.get_postings("apple"), Ok(vec![(0, 1, 0, 0, 0, 0, vec![0])]));
    assert_eq!(read.get_postings("mango"), Ok(vec![(1, 1, 0, 0, 0, 0, vec![0])]));
    assert_eq!(read.get_postings("zebra"), Ok(vec![(0, 1, 0, 0, 0, 0, vec![1])]));
    assert_eq!(read.get_term_frequency("zebra"), 1);
}

#[test]
fn written_postings_and_weights_read_back() {
    let mut index = PositionalInvertedIndex::new();
    index.add_term("fox", 2, 4);
    index.add_term("fox", 2, 9);
    index.add_term("dog", 1, 3);
    index.add_term("fox", 300, 200);
    let writer = IndexWriter::new("folder");
    let dictionary = index.get_dictionary();
    let mut vocab_positions = Vec::new();
    let vocab = writer.build_vocab_file(&dictionary, &mut vocab_positions);
    let scores = vec![vec![(1, 2, 3, 4)], vec![(5, 6, 7, 8), (9, 10, 11, 12)]];
    let (postings, table) = writer.build_postings_file(&index, &dictionary, &vocab_positions, &scores);
    let weights = writer.build_doc_weights_file(
        2.5f64.to_bits(),
        &vec![(1.5f64.to_bits(), 7, 300, 0.5f64.to_bits()), (3.0f64.to_bits(), 9, 400, 0.25f64.to_bits())],
    );
    let read = search_engine::index::disk_inverted_index::DiskInvertedIndex::new("folder", vocab, weights, postings, &table);
    assert_eq!(read.get_postings("dog"), Ok(vec![(1, 1, 1, 2, 3, 4, vec![3])]));
    assert_eq!(
        read.get_postings("fox"),
        Ok(vec![(2, 2, 5, 6, 7, 8, vec![4, 9]), (300, 1, 9, 10, 11, 12, vec![200])])
    );
    assert_eq!(read.get_postings_no_positions("fox"), Ok(vec![(2, 2, 5, 6, 7, 8), (300, 1, 9, 10, 11, 12)]));
    assert_eq!(read.get_term_frequency("fox"), 3);
    assert_eq!(read.get_document_weights(1), Ok((2.5f64.to_bits(), 3.0f64.to_bits(), 9, 400, 0.25f64.to_bits())));
    assert_eq!(read.get_document_weights(0), Ok((2.5f64.to_bits(), 1.5f64.to_bits(), 7, 300, 0.5f64.to_bits())));
}

#[test]
fn term_frequency_is_sum_of_read_postings() {
    let mut index = PositionalInvertedIndex::new();
    index.add_term("kilo", 0, 1);
    index.add_term("kilo", 0, 5);
    index.add_term("kilo", 0, 130);
    index.add_term("kilo", 4, 2);
    index.add_term("lima", 4, 3);
    let writer = IndexWriter::new("folder");
    let dictionary = index.get_dictionary();
    let mut vocab_positions = Vec::new();
    let vocab = writer.build_vocab_file(&dictionary, &mut vocab_positions);
    let scores = vec![vec![(0, 0, 0, 0), (0, 0, 0, 0)], vec![(0, 0, 0, 0)]];
    let (postings, table) = writer.build_postings_file(&index, &dictionary, &vocab_positions, &scores);
    let read = search_engine::index::disk_inverted_index::DiskInvertedIndex::new("folder", vocab, Vec::new(), postings, &table);
    for term in ["kilo", "lima"] {
        let with = read.get_postings(term).unwrap();
        let without = read.get_postings_no_positions(term).unwrap();
        let sum: u32 = with.iter().map(|p| p.1).sum();
        assert_eq!(read.get_term_frequency(term), sum);
        let stripped: Vec<(u32, u32, u64, u64, u64, u64)> =
            with.iter().map(|p| (p.0, p.1, p.2, p.3, p.4, p.5)).collect();
        assert_eq!(without, stripped);
    }
    assert_eq!(read.get_term_frequency("kilo"), 4);
    assert_eq!(read.get_term_frequency("mike"), 0);
}
