use search_engine::index::disk_inverted_index::DiskInvertedIndex;
use search_engine::index::k_gram_index::KGramIndex;
use search_engine::parser::document_parser::EnglishStemmer;
use search_engine::processor::query_plan::{near_terms_with, phrase_terms_with};
use search_engine::processor::query_processor::{
    near_query, near_query_with, phrase_query, phrase_query_with, process_query_bool, process_query_bool_with,
};
use std::collections::HashMap;

fn be32(n: u32) -> Vec<u8> {
    n.to_be_bytes().to_vec()
}

fn be64(n: u64) -> Vec<u8> {
    n.to_be_bytes().to_vec()
}

/// A one-byte variable-byte number.
fn vb(n: u32) -> u8 {
    assert!(n < 128);
    0x80 | n as u8
}

/// An index of the given terms (in alphabetical order), each with its
/// documents and positions, written as the index writer lays it out.
fn build(terms: &[(&str, Vec<(u32, Vec<u32>)>)]) -> DiskInvertedIndex {
    let mut vocab = Vec::new();
    let mut postings = Vec::new();
    let mut table = be32(terms.len() as u32);
    for (term, list) in terms {
        table.extend(be64(vocab.len() as u64));
        table.extend(be64(postings.len() as u64));
        vocab.extend(term.as_bytes());
        postings.extend(be32(list.len() as u32));
        let mut last_doc = 0;
        for (doc, positions) in list {
            postings.push(vb(doc - last_doc));
            postings.extend(vec![0u8; 32]);
            postings.push(vb(positions.len() as u32));
            let mut last = 0;
            for p in positions {
                postings.push(vb(p - last));
                last = *p;
            }
            last_doc = *doc;
        }
    }
    DiskInvertedIndex::new("folder", vocab, Vec::new(), postings, &table)
}

/// Three documents: "alpha bravo", "x kilo y alpha mike" and "bravo".
fn sample() -> (DiskInvertedIndex, HashMap<u32, String>) {
    let index = build(&[
        ("alpha", vec![(0, vec![0]), (1, vec![3])]),
        ("bravo", vec![(0, vec![1]), (2, vec![0])]),
        ("kilo", vec![(1, vec![1])]),
        ("mike", vec![(1, vec![4])]),
    ]);
    let mut names = HashMap::new();
    names.insert(0, "doc1.txt".to_string());
    names.insert(1, "doc2.txt".to_string());
    names.insert(2, "doc3.txt".to_string());
    (index, names)
}

fn answer(query: &str, index: &DiskInvertedIndex, names: &HashMap<u32, String>) -> Vec<String> {
    let mut found = process_query_bool(query, index, &KGramIndex::new(), names).expect("answered");
    found.sort();
    found
}

fn strings(v: &[&str]) -> Vec<String> {
    v.iter().map(|s| s.to_string()).collect()
}

#[test]
fn boolean_queries_combine_entries() {
    let (index, names) = sample();
    assert_eq!(answer("alpha", &index, &names), strings(&["doc1.txt", "doc2.txt"]));
    assert_eq!(answer("alpha bravo", &index, &names), strings(&["doc1.txt"]));
    assert_eq!(answer("alpha -bravo", &index, &names), strings(&["doc2.txt"]));
    assert_eq!(answer("alpha + bravo", &index, &names), strings(&["doc1.txt", "doc2.txt", "doc3.txt"]));
}

#[test]
fn boolean_queries_with_missing_terms() {
    let (index, names) = sample();
    // A term that the vocabulary lacks is in no document: an AND with it
    // finds nothing, and a NOT of it takes nothing away.
    assert_eq!(answer("zulu", &index, &names), Vec::<String>::new());
    assert_eq!(answer("alpha zulu", &index, &names), Vec::<String>::new());
    assert_eq!(answer("zulu alpha", &index, &names), Vec::<String>::new());
    assert_eq!(answer("alpha -zulu", &index, &names), strings(&["doc1.txt", "doc2.txt"]));
    assert_eq!(answer("zulu + bravo", &index, &names), strings(&["doc1.txt", "doc3.txt"]));
}

#[test]
fn boolean_phrase_and_near_queries() {
    let (index, names) = sample();
    assert_eq!(answer("\"alpha bravo\"", &index, &names), strings(&["doc1.txt"]));
    assert_eq!(answer("\"bravo alpha\"", &index, &names), Vec::<String>::new());
    assert_eq!(answer("bravo -\"alpha bravo\"", &index, &names), strings(&["doc3.txt"]));
    assert_eq!(answer("kilo NEAR/3 mike", &index, &names), strings(&["doc2.txt"]));
    assert_eq!(answer("kilo NEAR/2 mike", &index, &names), Vec::<String>::new());
}

#[test]
fn boolean_query_without_a_name_fails() {
    let (index, mut names) = sample();
    names.remove(&2);
    assert_eq!(process_query_bool("bravo", &index, &KGramIndex::new(), &names), None);
    assert_eq!(answer("alpha", &index, &names), strings(&["doc1.txt", "doc2.txt"]));
}

#[test]
fn phrase_query_reads_the_index() {
    let (index, _) = sample();
    assert_eq!(phrase_query("alpha bravo".to_string(), &index), Some(vec![0]));
    assert_eq!(phrase_query("bravo".to_string(), &index), Some(vec![0, 2]));
    assert_eq!(phrase_query("alpha mike".to_string(), &index), Some(vec![1]));
    // A word that the vocabulary lacks cannot be read.
    assert_eq!(phrase_query("alpha zulu".to_string(), &index), None);
}

#[test]
fn near_query_reads_the_index() {
    let (index, _) = sample();
    assert_eq!(near_query("kilo NEAR/3 mike".to_string(), &index), Some(vec![1]));
    assert_eq!(near_query("kilo NEAR/1 mike".to_string(), &index), Some(vec![]));
    assert_eq!(near_query("kilo NEAR/x mike".to_string(), &index), None);
    assert_eq!(near_query("kilo mike".to_string(), &index), None);
}

/// The five documents that the queries below look at, indexed by their
/// stems: "alpha bravo november", "alpha bravo november kilo x mike",
/// "mike", "mike kilo" and "alpha november".
fn documents_index() -> (DiskInvertedIndex, HashMap<u32, String>) {
    let index = build(&[
        ("alpha", vec![(0, vec![0]), (1, vec![0]), (4, vec![0])]),
        ("bravo", vec![(0, vec![1]), (1, vec![1])]),
        ("kilo", vec![(1, vec![3]), (3, vec![1])]),
        ("mike", vec![(1, vec![5]), (2, vec![0]), (3, vec![0])]),
        ("novemb", vec![(0, vec![2]), (1, vec![2]), (4, vec![1])]),
    ]);
    let mut names = HashMap::new();
    for i in 0..5u32 {
        names.insert(i, format!("doc{}.txt", i + 1));
    }
    (index, names)
}

#[test]
fn test_queries() {
    let (index, docid_file) = documents_index();
    let kgram = KGramIndex::new();

    let test_query_1 = "alpha"; // Tests simple query
    let test_query_2 = "alpha bravo"; // Tests query with AND operator
    let test_query_3 = "alpha -november"; // Tests query with NOT operator
    let test_query_4 = "alpha + mike"; // Tests query with OR operator
    let test_query_5 = "kilo NEAR/3 mike"; // Tests query with NEAR operator

    let result_query_1 = process_query_bool(test_query_1, &index, &kgram, &docid_file).unwrap();
    let result_key_1 = vec!["doc1.txt", "doc2.txt", "doc5.txt"];
    let result_key_1_size = result_key_1.len();

    let result_query_2 = process_query_bool(test_query_2, &index, &kgram, &docid_file).unwrap();
    let result_key_2 = vec!["doc1.txt", "doc2.txt"];
    let result_key_2_size = result_key_2.len();

    let result_query_3 = process_query_bool(test_query_3, &index, &kgram, &docid_file).unwrap();

    let result_query_4 = process_query_bool(test_query_4, &index, &kgram, &docid_file).unwrap();
    let result_key_4 = vec!["doc1.txt", "doc2.txt", "doc3.txt", "doc4.txt", "doc5.txt"];
    let result_key_4_size = result_key_4.len();

    let result_query_5 = process_query_bool(test_query_5, &index, &kgram, &docid_file).unwrap();
    let result_key_5 = vec!["doc2.txt"];
    let result_key_5_size = result_key_5.len();

    for result in result_key_1 {
        assert!(result_query_1.contains(&result.to_string()));
    }

    assert_eq!(result_key_1_size, result_query_1.len());

    for result in result_key_2 {
        assert!(result_query_2.contains(&result.to_string()));
    }

    assert_eq!(result_key_2_size, result_query_2.len());

    assert!(result_query_3.is_empty());

    for result in result_key_4 {
        assert!(result_query_4.contains(&result.to_string()));
    }

    assert_eq!(result_key_4_size, result_query_4.len());

    for result in result_key_5 {
        assert!(result_query_5.contains(&result.to_string()));
    }

    assert_eq!(result_key_5_size, result_query_5.len());
}

#[test]
fn queries_with_a_given_stemmer() {
    let (index, names) = sample();
    let mut stemmer = EnglishStemmer::new().expect("No English stemmer");
    assert_eq!(phrase_terms_with(&mut stemmer, "cats running"), Some(vec!["cat".to_string(), "run".to_string()]));
    assert_eq!(near_terms_with(&mut stemmer, "kilo NEAR/3 mike"), Some(("kilo".to_string(), "mike".to_string(), 3)));
    assert_eq!(near_terms_with(&mut stemmer, "kilo NEAR/three mike"), None);
    assert_eq!(phrase_query_with(&mut stemmer, "alpha bravo".to_string(), &index), Some(vec![0]));
    assert_eq!(near_query_with(&mut stemmer, "kilo NEAR/3 mike".to_string(), &index), Some(vec![1]));
    let mut found = process_query_bool_with(&mut stemmer, "alpha + bravo", &index, &KGramIndex::new(), &names).unwrap();
    found.sort();
    assert_eq!(found, strings(&["doc1.txt", "doc2.txt", "doc3.txt"]));
}

#[test]
fn plus_joins_and_minus_excludes() {
    let (index, names) = sample();
    let union = |a: &str, b: &str| {
        let mut u = answer(a, &index, &names);
        for n in answer(b, &index, &names) {
            if !u.contains(&n) {
                u.push(n);
            }
        }
        u.sort();
        u
    };
    assert_eq!(answer("kilo + bravo", &index, &names), union("kilo", "bravo"));
    assert_eq!(answer("alpha bravo + mike", &index, &names), union("alpha bravo", "mike"));
    let difference = |a: &str, b: &str| {
        let exclude = answer(b, &index, &names);
        answer(a, &index, &names).into_iter().filter(|n| !exclude.contains(n)).collect::<Vec<String>>()
    };
    assert_eq!(answer("bravo -alpha", &index, &names), difference("bravo", "alpha"));
    assert_eq!(answer("alpha -kilo", &index, &names), difference("alpha", "kilo"));
    assert_eq!(answer("alpha -kilo", &index, &names), strings(&["doc1.txt"]));
}
