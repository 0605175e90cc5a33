use regex::Regex;
use textutils::find::{entry_type_matches, name_matches, EntryType};

#[test]
fn empty_type_filter_accepts_everything() {
    assert!(entry_type_matches(&vec![], EntryType::File));
    assert!(entry_type_matches(&vec![], EntryType::Dir));
}

#[test]
fn type_filter_selects_listed_kinds_only() {
    let types = vec![EntryType::Dir, EntryType::Link];
    assert!(entry_type_matches(&types, EntryType::Dir));
    assert!(entry_type_matches(&types, EntryType::Link));
    assert!(!entry_type_matches(&types, EntryType::File));
}

#[test]
fn empty_name_filter_accepts_everything() {
    assert!(name_matches(&vec![], "anything.txt"));
}

#[test]
fn name_filter_follows_the_patterns() {
    let names = vec![Regex::new(r".*\.csv$").unwrap()];
    assert!(name_matches(&names, "report.csv"));
    assert!(!name_matches(&names, "report.txt"));

    let several = vec![Regex::new(r"^a").unwrap(), Regex::new(r"b$").unwrap()];
    assert!(name_matches(&several, "alpha"));
    assert!(name_matches(&several, "crab"));
    assert!(!name_matches(&several, "omega"));
}
