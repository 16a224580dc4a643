use search_engine::index::inverted_index::InvertedIndex;
use search_engine::index::term_map::TermMap;

#[test]
fn inverted_index() {
    let mut inverted_index = InvertedIndex { m_index: TermMap::new() };

    let term = "Test";

    for id in 1..10 {
        inverted_index.add_term(&term, id);
        println!("There are {} in index", inverted_index.get_term_count());

        let postings = inverted_index.get_postings(&term);

        let listed: Vec<String> = postings.iter().map(|p| p.to_string()).collect();
        println!("{} : {}\n", term, listed.join(" "));
    }
}

#[test]
fn inverted_index_keeps_one_entry_per_document() {
    let mut inverted_index = InvertedIndex { m_index: TermMap::new() };
    inverted_index.new();
    inverted_index.add_term("a", 1);
    inverted_index.add_term("a", 1);
    inverted_index.add_term("a", 2);
    inverted_index.add_term("b", 2);
    assert_eq!(inverted_index.get_postings("a"), &vec![1, 2]);
    assert_eq!(inverted_index.get_postings("b"), &vec![2]);
    assert_eq!(inverted_index.get_term_count(), 2);
    let mut dictionary: Vec<String> = inverted_index.get_dictionary().into_iter().cloned().collect();
    dictionary.sort();
    assert_eq!(dictionary, vec!["a".to_string(), "b".to_string()]);
    inverted_index.new();
    assert_eq!(inverted_index.get_term_count(), 0);
}
