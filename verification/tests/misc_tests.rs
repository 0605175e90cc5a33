use textutils::text::join_lines;

#[test]
fn works() {
    assert!(true)
}

#[test]
fn joins_fragments_with_the_separator() {
    let items: Vec<String> = vec!["Hello".to_string(), "world".to_string()];
    assert_eq!(join_lines(&items, " "), "Hello world".to_string());
    assert_eq!(join_lines(&items, ", "), "Hello, world".to_string());
}

#[test]
fn joining_no_or_one_fragment_adds_no_separator() {
    let none: Vec<String> = vec![];
    assert_eq!(join_lines(&none, " "), "".to_string());
    let one = vec!["solo".to_string()];
    assert_eq!(join_lines(&one, " "), "solo".to_string());
}
