use search_engine::parser::document_parser;
use std::collections::HashMap;

#[test]
fn test_normalize() {
    let mut dictionary = HashMap::new();

    dictionary.insert("swim", vec!["swimming"]);
    dictionary.insert("swam", vec!["swam"]);
    dictionary.insert("swimmer", vec!["Swimmer"]);
    dictionary.insert("test", vec!["Tested", "tEsts", "Testing"]);
    dictionary.insert("needless", vec!["Needlessly"]);
    dictionary.insert("fast", vec!["Fasting"]);
    dictionary.insert("faster", vec!["Faster"]);
    dictionary.insert("seed", vec!["seeding", "seeds"]);

    for (term, variants) in dictionary.iter() {
        println!("Testing term: {}\n", term);
        for variant in variants {
            println!("Testing with variant: {}", variant);

            let normalized_results = document_parser::normalize_token(variant.to_string());
            let results = document_parser::stem_terms(normalized_results).expect("No English stemmer");

            let result = results.get(0).expect("Not a term");

            println!("Result - {}\n", result);

            assert_eq!(term, result, "Result {} does not stem into {}", result, term);
        }
    }
}

fn normalized(s: &str) -> Vec<String> {
    document_parser::normalize_token(s.to_string())
}

#[test]
fn normalize_strips_symbols_and_lowercases() {
    assert_eq!(normalized("\"Hello,"), vec!["hello"]);
    assert_eq!(normalized("WORLD!!"), vec!["world"]);
    assert_eq!(normalized("don't"), vec!["dont"]);
    assert_eq!(normalized("123abc"), vec!["123abc"]);
}

#[test]
fn normalize_splits_hyphens_and_parentheses() {
    assert_eq!(normalized("Hewlett-Packard"), vec!["hewlett", "packard", "hewlettpackard"]);
    assert_eq!(normalized("a(b)c"), vec!["a", "b", "c", "abc"]);
}

#[test]
fn normalize_all_symbols_gives_empty_term() {
    assert_eq!(normalized("$"), vec![""]);
    assert_eq!(normalized("!!!"), vec![""]);
    assert_eq!(normalized(""), vec![""]);
}

#[test]
fn normalize_trims_trailing_symbols_after_wide_letters() {
    // Every trailing symbol goes, also after a letter of two bytes.
    assert_eq!(normalized("é!"), vec!["é"]);
    assert_eq!(normalized("(café)?"), vec!["café"]);
}

#[test]
fn normalize_quote_text() {
    assert_eq!(normalized("it\u{2019}s"), vec!["its"]);
    assert_eq!(normalized("don\u{2019}t"), vec!["dont"]);
    assert_eq!(normalized("\u{2018}quoted\u{2019}"), vec!["quoted"]);
}

#[test]
fn stem_terms_stems_each_word() {
    let stems = document_parser::stem_terms(vec!["running".to_string(), "cats".to_string()]).expect("No English stemmer");
    assert_eq!(stems, vec!["run".to_string(), "cat".to_string()]);
}

#[test]
fn stem_terms_with_a_stemmer() {
    let mut stemmer = document_parser::EnglishStemmer::new().expect("No English stemmer");
    let stems = document_parser::stem_terms_with(&mut stemmer, vec!["running".to_string(), "cats".to_string()]);
    assert_eq!(stems, vec!["run".to_string(), "cat".to_string()]);
    assert_eq!(document_parser::stem_terms_with(&mut stemmer, Vec::new()), Vec::<String>::new());
}
