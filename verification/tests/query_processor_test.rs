use search_engine::processor::query_processor;

#[test]
fn is_near_finds_close_positions() {
    assert!(query_processor::is_near(&vec![1, 10], &vec![4], 3));
    assert!(!query_processor::is_near(&vec![1, 10], &vec![5], 3));
    assert!(!query_processor::is_near(&vec![5], &vec![1], 10));
    assert!(query_processor::is_near(&vec![2, 9], &vec![1, 11], 2));
    assert!(!query_processor::is_near(&vec![], &vec![1], 2));
}

#[test]
fn is_near_moves_past_shared_positions() {
    assert!(!query_processor::is_near(&vec![2], &vec![2], 3));
    assert!(!query_processor::is_near(&vec![2, 7], &vec![2, 5], 1));
    assert!(query_processor::is_near(&vec![2, 3], &vec![2, 5], 3));
    assert!(query_processor::is_near(&vec![4], &vec![4, 6], 2));
}

#[test]
fn adjacent_positions_keeps_followers() {
    assert_eq!(query_processor::adjacent_positions(&vec![2, 5, 9], &vec![1, 4, 6]), vec![2, 5]);
    assert_eq!(query_processor::adjacent_positions(&vec![1], &vec![1]), Vec::<u32>::new());
    assert_eq!(query_processor::adjacent_positions(&vec![], &vec![1]), Vec::<u32>::new());
}

#[test]
fn intersection_of_sorted_lists() {
    let first = vec!["b".to_string(), "b".to_string(), "c".to_string(), "x".to_string(), "a".to_string()];
    let second = vec!["a".to_string(), "b".to_string(), "c".to_string()];
    assert_eq!(query_processor::intersection(first, second), vec!["b".to_string(), "c".to_string(), "a".to_string()]);
}

#[test]
fn phrase_merge_by_document() {
    // "new york city": doc 1 has it at 3,4,5; doc 2 only "new york"; doc 3 "york new"
    let new = vec![(1u32, vec![3u32, 10]), (2, vec![0]), (3, vec![2])];
    let york = vec![(1u32, vec![4u32]), (2, vec![1]), (3, vec![1])];
    let city = vec![(1u32, vec![5u32]), (3, vec![9])];
    assert_eq!(query_processor::phrase_merge(&vec![new.clone(), york.clone(), city]), vec![1]);
    assert_eq!(query_processor::phrase_merge(&vec![new.clone(), york]), vec![1, 2]);
    assert_eq!(query_processor::phrase_merge(&vec![new]), vec![1, 2, 3]);
}

#[test]
fn near_merge_reports_documents() {
    let kilo = vec![(0u32, vec![1u32]), (1, vec![2, 20])];
    let mike = vec![(1u32, vec![4u32]), (2, vec![1])];
    assert_eq!(query_processor::near_merge(&kilo, &mike, 3), vec![1]);
    assert_eq!(query_processor::near_merge(&kilo, &mike, 1), Vec::<u32>::new());
}
