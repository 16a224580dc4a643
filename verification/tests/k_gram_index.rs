use search_engine::index::k_gram_index::KGramIndex;

fn assert_castle_grams(k_gram_index: &KGramIndex) {
    // Expected values in test cases
    let test_cases = [
        "c", "a", "s", "t", "l", "e", "$c", "ca", "as", "st", "tl", "le", "e$", "$ca", "cas", "ast", "stl",
        "tle", "le$",
    ];

    let k_grams = k_gram_index.get_k_grams();

    for gram in k_grams.iter() {
        println!("{}", gram);
    }

    for test_case in test_cases.iter() {
        let contain = k_grams.contains(&&test_case.to_string());
        assert!(contain, "{} not in k_gram", test_case);
    }
}

#[test]
fn test_castle() {
    let mut k_gram_index = KGramIndex::new();

    let castle = "castle";

    k_gram_index.check_term(castle);

    assert_castle_grams(&k_gram_index);
}

#[test]
fn k_gram_index_test_castle() {
    let mut k_gram_index = KGramIndex::new();

    // Term that will be tested
    let castle = vec!["castle"];

    // Builds index according to term
    for term in castle {
        k_gram_index.check_term(term);
    }

    assert_castle_grams(&k_gram_index);
}

#[test]
fn k_gram_terms_are_listed_once() {
    let mut k_gram_index = KGramIndex::new();
    k_gram_index.check_term("castle");
    k_gram_index.check_term("cast");
    k_gram_index.check_term("castle");
    assert_eq!(k_gram_index.get_terms("cas"), vec!["castle".to_string(), "cast".to_string()]);
    assert_eq!(k_gram_index.get_terms("le$"), vec!["castle".to_string()]);
    assert_eq!(k_gram_index.get_terms("$"), vec!["castle".to_string(), "cast".to_string()]);
    assert!(k_gram_index.get_terms("xyz").is_empty());
}

#[test]
fn k_gram_grams_of_a_short_term() {
    let mut k_gram_index = KGramIndex::new();
    k_gram_index.check_term("a");
    let mut grams: Vec<String> = k_gram_index.get_k_grams().into_iter().cloned().collect();
    grams.sort();
    assert_eq!(grams, vec!["$", "$a", "$a$", "a", "a$"]);
}

#[test]
fn k_gram_empty_term_adds_nothing() {
    let mut k_gram_index = KGramIndex::new();
    k_gram_index.check_term("");
    assert!(k_gram_index.get_k_grams().is_empty());
}

#[test]
fn k_gram_enable_disable() {
    let mut k_gram_index = KGramIndex::new();
    assert!(!k_gram_index.is_enabled());
    k_gram_index.enable_k_gram();
    assert!(k_gram_index.is_enabled());
    k_gram_index.disable_k_gram();
    assert!(!k_gram_index.is_enabled());
}

#[test]
fn k_gram_index_from_grams() {
    let entries = vec![
        ("$c".to_string(), vec!["castle".to_string(), "cat".to_string()]),
        ("at".to_string(), vec!["cat".to_string()]),
        ("$c".to_string(), vec!["cow".to_string()]),
    ];
    let k_gram_index = KGramIndex::from_grams(entries, true);
    assert!(k_gram_index.is_enabled());
    assert_eq!(k_gram_index.get_terms("$c"), vec!["cow".to_string()]);
    assert_eq!(k_gram_index.get_terms("at"), vec!["cat".to_string()]);
    assert_eq!(k_gram_index.get_terms("zz"), Vec::<String>::new());
    assert_eq!(k_gram_index.get_k_grams().len(), 2);
}

#[test]
fn switch_follows_last_call_and_grams_follow_checks() {
    let mut k = KGramIndex::new();
    assert!(!k.is_enabled());
    k.enable_k_gram();
    k.check_term("cat");
    k.disable_k_gram();
    assert!(!k.is_enabled());
    k.check_term("dog");
    k.enable_k_gram();
    k.enable_k_gram();
    assert!(k.is_enabled());
    let grams = k.get_k_grams();
    assert!(grams.contains(&&"cat".to_string()));
    assert!(grams.contains(&&"dog".to_string()));
    assert_eq!(k.get_terms("$"), vec!["cat".to_string(), "dog".to_string()]);
}
