use search_engine::index::positional_inverted_index::{PositionalInvertedIndex, PositionalPosting};
use search_engine::parser::document_parser;

#[test]
fn add_term() {
    let mut positional_inverted_index = PositionalInvertedIndex::new();

    let sentence_1 = "The quick brown fox jumps over the lazy dog";

    let sentence_2 = "The fox and the hound are friends";

    let sentence_3 = "Get over there quick";

    let tokens_1 = sentence_1.split(" ");

    let tokens_2 = sentence_2.split(" ");

    let tokens_3 = sentence_3.split(" ");

    for (i, token) in tokens_1.enumerate() {
        let normalize_term = document_parser::normalize_token(token.to_string());
        let term = normalize_term.get(0).unwrap();
        let doc_id = 1;
        let pos = i as u64;
        positional_inverted_index.add_term(term, doc_id, pos);
    }
    println!("Testing term count...\nThere should be 8 terms...");
    assert_eq!(positional_inverted_index.get_term_count(), 8);

    for (i, token) in tokens_2.enumerate() {
        let normalize_term = document_parser::normalize_token(token.to_string());
        let term = normalize_term.get(0).unwrap();
        let doc_id = 2;
        let pos = i as u64;
        positional_inverted_index.add_term(term, doc_id, pos);
    }
    println!("Testing term count...\nThere should be 12 terms...");
    assert_eq!(positional_inverted_index.get_term_count(), 12);
    for (i, token) in tokens_3.enumerate() {
        let normalize_term = document_parser::normalize_token(token.to_string());
        let term = normalize_term.get(0).unwrap();
        let doc_id = 3;
        let pos = i as u64;
        positional_inverted_index.add_term(term, doc_id, pos);
    }
    println!("Testing term count...\nThere should be 14 terms...");
    assert_eq!(positional_inverted_index.get_term_count(), 14);
}

/// The five documents indexed by `read_documents`: these bodies carry the
/// terms that the expected values look at.
fn documents() -> Vec<&'static str> {
    vec![
        "november one two three four alpha six seven november",
        "bravo charlie",
        "delta echo",
        "one two november november four five six seven alpha",
        "one two three four five november seven eight nine ten eleven twelve alpha",
    ]
}

#[test]
fn read_documents() {
    let mut positional_inverted_index = PositionalInvertedIndex::new();
    for (doc_id, body) in documents().iter().enumerate() {
        document_parser::index_document(&mut positional_inverted_index, doc_id as u64, body);
    }

    let alpha_postings_list = positional_inverted_index.get_postings("alpha");

    let alpha_test_case_1: Vec<u64> = vec![5]; // Positions for doc id 0
    let alpha_test_case_2: Vec<u64> = vec![8]; // Positions for doc id 3
    let alpha_test_case_3: Vec<u64> = vec![12]; // Positions for doc id 4
    {
        for posting in alpha_postings_list.iter() {
            println!("{} - {:?}", posting.get_doc_id(), posting.get_positions());
            if posting.get_doc_id() == 0 {
                for (i, position) in posting.get_positions().iter().enumerate() {
                    assert_eq!(position, &alpha_test_case_1[i]);
                }
            }
            if posting.get_doc_id() == 3 {
                for (i, position) in posting.get_positions().iter().enumerate() {
                    assert_eq!(position, &alpha_test_case_2[i]);
                }
            }
            if posting.get_doc_id() == 4 {
                for (i, position) in posting.get_positions().iter().enumerate() {
                    assert_eq!(position, &alpha_test_case_3[i]);
                }
            }
        }
    }
    let results = document_parser::normalize_token("november".to_string());
    let november_term = results.get(0).expect("Improper term");
    let november_postings_list = positional_inverted_index.get_postings(november_term);
    let november_test_case_1: Vec<u64> = vec![0, 8];
    let november_test_case_2: Vec<u64> = vec![2, 3];
    let november_test_case_3: Vec<u64> = vec![5];

    for posting in november_postings_list.iter() {
        println!("{} - {:?}", posting.get_doc_id(), posting.get_positions());
        if posting.get_doc_id() == 0 {
            for (i, position) in posting.get_positions().iter().enumerate() {
                assert_eq!(position, &november_test_case_1[i]);
            }
        }
        if posting.get_doc_id() == 3 {
            for (i, position) in posting.get_positions().iter().enumerate() {
                assert_eq!(position, &november_test_case_2[i]);
            }
        }
        if posting.get_doc_id() == 4 {
            for (i, position) in posting.get_positions().iter().enumerate() {
                assert_eq!(position, &november_test_case_3[i]);
            }
        }
    }
}

#[test]
fn positional_postings_keep_documents_and_positions() {
    let mut index = PositionalInvertedIndex::new();
    index.add_term("fox", 0, 3);
    index.add_term("fox", 0, 3);
    index.add_term("fox", 0, 7);
    index.add_term("fox", 2, 1);
    assert!(index.contains_term("fox"));
    assert!(!index.contains_term("dog"));
    let postings = index.get_postings("fox");
    assert_eq!(postings.len(), 2);
    assert_eq!(postings[0].get_doc_id(), 0);
    assert_eq!(postings[0].get_positions(), vec![3, 7]);
    assert_eq!(postings[1].get_doc_id(), 2);
    assert_eq!(postings[1].get_positions(), vec![1]);
}

#[test]
fn positional_dictionary_is_sorted() {
    let mut index = PositionalInvertedIndex::new();
    for (i, term) in ["pear", "apple", "zebra", "apple", "mango", "app"].iter().enumerate() {
        index.add_term(term, 1, i as u64);
    }
    let dictionary: Vec<String> = index.get_dictionary().into_iter().cloned().collect();
    assert_eq!(dictionary, vec!["app", "apple", "mango", "pear", "zebra"]);
}

#[test]
fn positional_posting_basics() {
    let mut posting = PositionalPosting::new(9);
    assert_eq!(posting.get_doc_id(), 9);
    assert!(posting.get_positions().is_empty());
    posting.add_position(4);
    posting.add_position(6);
    assert_eq!(posting.get_positions(), vec![4, 6]);
    let copy = posting.clone();
    assert_eq!(copy.get_doc_id(), 9);
    assert_eq!(copy.get_positions(), vec![4, 6]);
}

#[test]
fn add_term_counts_new_terms_once() {
    let mut index = PositionalInvertedIndex::new();
    assert_eq!(index.get_term_count(), 0);
    index.add_term("alpha", 0, 1);
    assert_eq!(index.get_term_count(), 1);
    index.add_term("alpha", 0, 2);
    index.add_term("alpha", 3, 0);
    assert_eq!(index.get_term_count(), 1);
    index.add_term("bravo", 3, 1);
    assert_eq!(index.get_term_count(), 2);
}
