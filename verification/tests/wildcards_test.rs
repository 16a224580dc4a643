use search_engine::index::k_gram_index::KGramIndex;
use search_engine::processor::query_processor::get_wildcards;

fn sample_index() -> KGramIndex {
    let mut kgram = KGramIndex::new();
    for term in ["castle", "cast", "fast", "castles", "blast", "astle", "last"] {
        kgram.check_term(term);
    }
    kgram
}

fn strings(v: &[&str]) -> Vec<String> {
    v.iter().map(|s| s.to_string()).collect()
}

#[test]
fn wildcard_trailing_star_keeps_prefix_matches() {
    let kgram = sample_index();
    assert_eq!(get_wildcards("cas*", &kgram), strings(&["castle", "cast", "castles"]));
    assert_eq!(get_wildcards("fa*", &kgram), strings(&["fast"]));
    assert_eq!(get_wildcards("zz*", &kgram), Vec::<String>::new());
}

#[test]
fn wildcard_leading_star_keeps_suffix_or_middle_matches() {
    let kgram = sample_index();
    // "castles" contains the middle part "tl".
    assert_eq!(get_wildcards("*tle", &kgram), strings(&["castle", "castles", "astle"]));
    assert_eq!(
        get_wildcards("*st", &kgram),
        strings(&["cast", "fast", "blast", "last", "castle", "castles", "astle"])
    );
    assert_eq!(get_wildcards("*a", &kgram), Vec::<String>::new());
}

#[test]
fn wildcard_both_stars() {
    let kgram = sample_index();
    assert_eq!(
        get_wildcards("*ast*", &kgram),
        strings(&["castle", "cast", "fast", "castles", "blast", "astle", "last"])
    );
    assert_eq!(get_wildcards("**", &kgram), Vec::<String>::new());
}

#[test]
fn wildcard_inner_star() {
    let kgram = sample_index();
    assert_eq!(get_wildcards("c*e", &kgram), strings(&["castle"]));
    assert_eq!(get_wildcards("c*s", &kgram), strings(&["castles"]));
    assert_eq!(get_wildcards("b*t", &kgram), strings(&["blast"]));
}

#[test]
fn wildcards_find_every_matching_indexed_term() {
    let kgram = sample_index();
    let terms = ["castle", "cast", "fast", "castles", "blast", "astle", "last"];
    for pattern in ["ca*", "c*", "*st", "*e", "c*e", "b*t", "l*st"] {
        let found = get_wildcards(pattern, &kgram);
        for t in terms {
            let matches = if let Some(x) = pattern.strip_suffix('*') {
                t.starts_with(x)
            } else if let Some(x) = pattern.strip_prefix('*') {
                t.ends_with(x)
            } else {
                let (x, y) = pattern.split_once('*').unwrap();
                t.starts_with(x) && t.ends_with(y)
            };
            if matches {
                assert!(found.contains(&t.to_string()), "{} should find {}", pattern, t);
            }
        }
    }
}
