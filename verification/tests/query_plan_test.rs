use search_engine::index::k_gram_index::KGramIndex;
use search_engine::processor::query_plan::{
    and_entries, classify_entry, combine_and_not, entry_contribution, expand_wildcard_entries, is_near_query,
    near_terms, parse_i32, phrase_terms, union_all,
};
use std::collections::HashSet;

fn strings(v: &[&str]) -> Vec<String> {
    v.iter().map(|s| s.to_string()).collect()
}

fn chars(s: &str) -> Vec<char> {
    s.chars().collect()
}

fn as_set(v: &[String]) -> HashSet<String> {
    v.iter().cloned().collect()
}

#[test]
fn entries_group_quoted_phrases() {
    assert_eq!(
        and_entries("alpha \"quick brown\" -\"lazy dog\" bravo"),
        strings(&["alpha", "quick brown", "-lazy dog", "bravo"])
    );
}

#[test]
fn entries_drop_an_unclosed_phrase() {
    assert_eq!(and_entries("a \"b c"), strings(&["a"]));
    // A one-word phrase is only closed by a later word.
    assert_eq!(and_entries("\"word\""), Vec::<String>::new());
    assert_eq!(and_entries("\"word\" next\""), strings(&["word\" next"]));
    assert_eq!(and_entries(""), Vec::<String>::new());
}

#[test]
fn entries_are_classified() {
    assert_eq!(classify_entry("-dog"), (true, false));
    assert_eq!(classify_entry("quick brown"), (false, true));
    assert_eq!(classify_entry("-lazy dog"), (true, true));
    assert_eq!(classify_entry("fox"), (false, false));
}

#[test]
fn parse_i32_follows_decimal_syntax() {
    assert_eq!(parse_i32(&chars("3")), Some(3));
    assert_eq!(parse_i32(&chars("-12")), Some(-12));
    assert_eq!(parse_i32(&chars("+7")), Some(7));
    assert_eq!(parse_i32(&chars("-2147483648")), Some(i32::MIN));
    assert_eq!(parse_i32(&chars("2147483647")), Some(i32::MAX));
    assert_eq!(parse_i32(&chars("2147483648")), None);
    assert_eq!(parse_i32(&chars("")), None);
    assert_eq!(parse_i32(&chars("-")), None);
    assert_eq!(parse_i32(&chars("12a")), None);
    assert_eq!(parse_i32(&chars("99999999999999999999")), None);
}

#[test]
fn near_literal_is_read() {
    assert!(is_near_query("kilo NEAR/3 mike"));
    assert!(!is_near_query("kilo near/3 mike"));
    assert_eq!(near_terms("kilo NEAR/3 mike"), Some(("kilo".to_string(), "mike".to_string(), 3)));
    assert_eq!(near_terms("Running NEAR/12 jumps"), Some(("run".to_string(), "jump".to_string(), 12)));
    assert_eq!(near_terms("a NEAR/x b"), None);
    assert_eq!(near_terms("a b"), None);
}

#[test]
fn phrase_words_are_stemmed() {
    assert_eq!(phrase_terms("quick brown foxes"), Some(strings(&["quick", "brown", "fox"])));
    assert_eq!(phrase_terms("Hello"), Some(strings(&["hello"])));
}

#[test]
fn entry_contributions() {
    let found = vec![Some(strings(&["a", "b"])), None, Some(strings(&["c"]))];
    // A term the index lacks leaves an empty list to meet.
    assert_eq!(
        entry_contribution(false, false, &found),
        (vec![strings(&["a", "b"]), Vec::<String>::new()], Vec::<String>::new())
    );
    assert_eq!(entry_contribution(true, false, &found), (Vec::<Vec<String>>::new(), strings(&["a", "b"])));
    let all = vec![Some(strings(&["a"])), Some(strings(&["b", "c"]))];
    assert_eq!(entry_contribution(true, false, &all), (Vec::<Vec<String>>::new(), strings(&["a", "b", "c"])));
    assert_eq!(entry_contribution(false, false, &all), (vec![strings(&["a"]), strings(&["b", "c"])], Vec::<String>::new()));
    let phrase = vec![Some(strings(&["x"]))];
    assert_eq!(entry_contribution(false, true, &phrase), (vec![strings(&["x"])], Vec::<String>::new()));
    assert_eq!(entry_contribution(true, true, &phrase), (Vec::<Vec<String>>::new(), strings(&["x"])));
}

#[test]
fn and_results_meet_and_not_results_are_removed() {
    let and_results = vec![strings(&["a", "b", "c", "a"]), strings(&["b", "c", "d"])];
    let result = combine_and_not(&and_results, &strings(&["c"])).unwrap();
    assert_eq!(as_set(&result), as_set(&strings(&["b"])));
    assert_eq!(result.len(), 1);
    assert_eq!(combine_and_not(&Vec::new(), &strings(&["c"])), None);
    let single = combine_and_not(&vec![strings(&["x", "x", "y"])], &Vec::new()).unwrap();
    assert_eq!(as_set(&single), as_set(&strings(&["x", "y"])));
    assert_eq!(single.len(), 2);
}

#[test]
fn or_results_join() {
    let result = union_all(&vec![strings(&["a", "b"]), strings(&["b", "c"]), Vec::new()]);
    assert_eq!(as_set(&result), as_set(&strings(&["a", "b", "c"])));
    assert_eq!(result.len(), 3);
    assert_eq!(union_all(&Vec::new()), Vec::<String>::new());
}

#[test]
fn wildcard_entries_expand_only_when_enabled() {
    let mut kgram = KGramIndex::new();
    for term in ["castle", "cast", "castles", "dog"] {
        kgram.check_term(term);
    }
    let entries = strings(&["cas*", "dog"]);
    assert_eq!(expand_wildcard_entries(entries.clone(), &kgram), entries);
    kgram.enable_k_gram();
    assert_eq!(
        expand_wildcard_entries(entries, &kgram),
        strings(&["castle", "cast", "castles", "dog"])
    );
}
