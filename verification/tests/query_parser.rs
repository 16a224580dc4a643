use search_engine::parser::query_parser::QueryParser;

fn strings(v: &[&str]) -> Vec<String> {
    v.iter().map(|s| s.to_string()).collect()
}

#[test]
fn test_parser() {
    let parser = QueryParser::new();
    let query = "testing 1 2 + 3 \"hello1 世界 world\" hi + \"hello2 世界 world\" test (hello3 + \"hello4 world\" (inner + \"hello5 world\" \"(still + in + same + group)\")) + hello (banana + strawberry) + bye";
    println!("Original Query: \n{}", query);
    let new_query = "hey -y + \"this one\"  + \"hello world\" -y (hello world + (hello2 world2 + hello3 world3) + hello4 world4) + bye";
    println!("New Query: {}", new_query);
    let results = parser.process_query(new_query);
    println!("Process Query Results: {}", results.join(" + "));
    let multi = parser.multiply_query("hello NEAR\\2 david -y (1 world + 2 world)");
    println!("Process Multi Results: {}", multi.join(" + "));
}

#[test]
fn process_query_distributes_over_nested_groups() {
    let parser = QueryParser::new();
    let new_query = "hey -y + \"this one\"  + \"hello world\" -y (hello world + (hello2 world2 + hello3 world3) + hello4 world4) + bye";
    let results = parser.process_query(new_query);
    assert_eq!(
        results,
        strings(&[
            "hey -y",
            "\"this one\"",
            "\"hello world\" -y hello",
            "\"hello world\" -y world",
            "\"hello world\" -y hello2",
            "\"hello world\" -y world2",
            "\"hello world\" -y hello3",
            "\"hello world\" -y world3",
            "\"hello world\" -y hello4",
            "\"hello world\" -y world4",
            "bye",
        ])
    );
}

#[test]
fn multiply_query_splits_group_tokens() {
    let parser = QueryParser::new();
    let multi = parser.multiply_query("hello NEAR\\2 david -y (1 world + 2 world)");
    assert_eq!(
        multi,
        strings(&[
            "hello NEAR\\2 david -y 1",
            "hello NEAR\\2 david -y world",
            "hello NEAR\\2 david -y 2",
            "hello NEAR\\2 david -y world",
        ])
    );
}

#[test]
fn process_query_plain_alternatives() {
    let parser = QueryParser::new();
    assert_eq!(parser.process_query("a b + c"), strings(&["a b", "c"]));
    assert_eq!(parser.process_query("a +"), strings(&["a"]));
    assert_eq!(parser.process_query("+ + a"), strings(&["a"]));
    assert_eq!(parser.process_query(""), Vec::<String>::new());
    assert_eq!(parser.process_query("   "), Vec::<String>::new());
}

#[test]
fn process_query_groups() {
    let parser = QueryParser::new();
    assert_eq!(parser.process_query("a (b + c) + d"), strings(&["a b", "a c", "d"]));
    // With nothing before the group the alternatives keep a leading space.
    assert_eq!(parser.process_query("(b + c)"), strings(&[" b", " c"]));
    // The token right after a closed group is skipped.
    assert_eq!(parser.process_query("a (b + c) d + e"), strings(&["a b", "a c", "e"]));
}

#[test]
fn multiply_query_nested() {
    let parser = QueryParser::new();
    assert_eq!(parser.multiply_query("x (a + (b + c))"), strings(&["x a", "x b", "x c"]));
    assert_eq!(parser.multiply_query("x (ab)"), strings(&["x ab"]));
    assert_eq!(parser.multiply_query("x (a b)"), strings(&["x a", "x b"]));
}

#[test]
fn refused_queries() {
    let parser = QueryParser::new();
    // A group opened by the last token.
    assert_eq!(parser.try_process_query("a (b"), None);
    // No token opens a group.
    assert_eq!(parser.try_multiply_query("a b"), None);
    // The group's only multiplicand is empty.
    assert_eq!(parser.try_multiply_query("("), None);
    // The multiplicands take fewer than two bytes.
    assert_eq!(parser.try_multiply_query("x ( y"), None);
    // A multi-byte last character is kept, so the result is multiplied
    // again and has no group left.
    assert_eq!(parser.try_multiply_query("x (é)"), None);
    assert_eq!(parser.try_process_query("a b + c"), Some(strings(&["a b", "c"])));
    assert_eq!(parser.try_multiply_query("x (a)"), None);
    assert_eq!(parser.try_multiply_query("x (ab)"), Some(strings(&["x ab"])));
}
