use search_engine::index::k_gram_index::KGramIndex;
use search_engine::index::positional_inverted_index::PositionalInvertedIndex;
use search_engine::parser::document_parser;
use search_engine::reader::read_file;

#[test]
fn text_document_fields() {
    let d = read_file::read_text_file("doc1.txt", "alpha bravo".to_string());
    assert_eq!(d.get_title(), "doc1.txt");
    assert_eq!(d.get_body(), "alpha bravo");
    assert_eq!(d.get_url(), "");
    let c = d.clone();
    assert_eq!(c.get_body(), "alpha bravo");
}

#[test]
fn json_document_body_is_respaced() {
    let d = read_file::read_json_file("T".to_string(), "  one\ttwo \n three".to_string(), "u".to_string());
    assert_eq!(d.get_body(), "one two three ");
    assert_eq!(d.get_title(), "T");
    assert_eq!(d.get_url(), "u");
}

#[test]
fn index_document_counts_terms() {
    let mut index = PositionalInvertedIndex::new();
    let counts = document_parser::index_document(&mut index, 4, "The cat, the DOG! well-known");
    assert_eq!(counts.get("the"), Some(&2));
    assert_eq!(counts.get("cat"), Some(&1));
    assert_eq!(counts.get("well"), Some(&1));
    assert_eq!(counts.get("wellknown"), Some(&1));
    assert_eq!(counts.len(), 6);
    let the = index.get_postings("the");
    assert_eq!(the.len(), 1);
    assert_eq!(the[0].get_doc_id(), 4);
    assert_eq!(the[0].get_positions(), vec![0, 2]);
    assert_eq!(index.get_postings("known")[0].get_positions(), vec![4]);
}

#[test]
fn index_document_grams_fills_enabled_index() {
    let mut kgram = KGramIndex::new();
    kgram.enable_k_gram();
    document_parser::index_document_grams(&mut kgram, "Cat cab, DOG");
    let grams = kgram.get_k_grams();
    for g in ["$c", "ca", "cat", "at$", "t$", "$do", "og$", "cab", "b"] {
        assert!(grams.contains(&&g.to_string()), "{} missing", g);
    }
    assert_eq!(kgram.get_terms("$ca"), vec!["cat".to_string(), "cab".to_string()]);
    assert_eq!(kgram.get_terms("og$"), vec!["dog".to_string()]);
    assert!(kgram.is_enabled());
}

#[test]
fn index_document_grams_leaves_disabled_index() {
    let mut kgram = KGramIndex::new();
    document_parser::index_document_grams(&mut kgram, "Cat cab, DOG");
    assert!(kgram.get_k_grams().is_empty());
    assert!(!kgram.is_enabled());
}
