use textutils::comm::{comm_output, render_column, Column, Config};

fn config_with(
    show_col1: bool,
    show_col2: bool,
    show_col3: bool,
    insensitive: bool,
    delimiter: &str,
) -> Config {
    Config {
        file1: "file1.txt".to_string(),
        file2: "file2.txt".to_string(),
        show_col1,
        show_col2,
        show_col3,
        insensitive,
        delimiter: delimiter.to_string(),
    }
}

fn lines(items: &[&str]) -> Vec<String> {
    items.iter().map(|s| s.to_string()).collect()
}

#[test]
fn default_scenario() {
    let config = config_with(true, true, true, false, "\t");
    let out = comm_output(&config, &lines(&["a", "b", "c"]), &lines(&["b", "c", "d"]));
    assert_eq!(out, lines(&["a", "\t\tb", "\t\tc", "d"]));
}

#[test]
fn disjoint_inputs_interleave_in_sorted_order() {
    let config = config_with(true, true, true, false, "\t");
    let out = comm_output(&config, &lines(&["a", "c"]), &lines(&["b", "d"]));
    assert_eq!(out, lines(&["a", "\tb", "c", "d"]));
}

#[test]
fn identical_inputs_classify_as_common() {
    let config = config_with(true, true, true, false, "\t");
    let out = comm_output(&config, &lines(&["x", "y"]), &lines(&["x", "y"]));
    assert_eq!(out, lines(&["\t\tx", "\t\ty"]));
}

#[test]
fn suppressing_first_two_columns_prints_common_lines_bare() {
    let config = config_with(false, false, true, false, "\t");
    let out = comm_output(&config, &lines(&["a", "b"]), &lines(&["a", "b"]));
    assert_eq!(out, lines(&["a", "b"]));
}

#[test]
fn case_insensitive_comparison_groups_folded_lines() {
    let insensitive = config_with(true, true, true, true, "\t");
    let out = comm_output(&insensitive, &lines(&["Foo"]), &lines(&["foo"]));
    assert_eq!(out, lines(&["\t\tfoo"]));

    let sensitive = config_with(true, true, true, false, "\t");
    let out = comm_output(&sensitive, &lines(&["Foo"]), &lines(&["foo"]));
    assert_eq!(out, lines(&["Foo", "foo"]));
}

#[test]
fn delimiter_changes_joining_but_not_classification() {
    let tab = config_with(true, true, true, false, "\t");
    let comma = config_with(true, true, true, false, ",");
    let out_tab = comm_output(&tab, &lines(&["a", "b"]), &lines(&["b"]));
    let out_comma = comm_output(&comma, &lines(&["a", "b"]), &lines(&["b"]));
    assert_eq!(out_tab, lines(&["a", "\t\tb"]));
    assert_eq!(out_comma, lines(&["a", ",,b"]));
    assert_eq!(out_tab.len(), out_comma.len());
}

#[test]
fn empty_first_input_prints_second_bare() {
    let config = config_with(true, true, true, false, "\t");
    let out = comm_output(&config, &lines(&[]), &lines(&["x"]));
    assert_eq!(out, lines(&["x"]));
}

#[test]
fn exhaustion_path_ignores_column_suppression() {
    let config = config_with(false, false, false, false, "\t");
    let out = comm_output(&config, &lines(&[]), &lines(&["x"]));
    assert_eq!(out, lines(&["x"]));
}

#[test]
fn render_column_applies_visibility_rules() {
    assert_eq!(
        render_column(&Column::Col1("a".to_string()), true, true, "\t"),
        Some("a".to_string())
    );
    assert_eq!(render_column(&Column::Col1("a".to_string()), false, true, "\t"), None);
    assert_eq!(
        render_column(&Column::Col2("b".to_string()), true, true, "\t"),
        Some("\tb".to_string())
    );
    assert_eq!(
        render_column(&Column::Col2("b".to_string()), false, false, "\t"),
        Some("b".to_string())
    );
    assert_eq!(
        render_column(&Column::Col3("c".to_string()), true, true, "\t"),
        Some("\t\tc".to_string())
    );
    assert_eq!(
        render_column(&Column::Col3("c".to_string()), true, false, "\t"),
        Some("\tc".to_string())
    );
    assert_eq!(
        render_column(&Column::Col3("c".to_string()), false, false, "\t"),
        Some("c".to_string())
    );
}

#[test]
fn both_inputs_as_stdin_is_a_configuration_error() {
    let mut config = config_with(true, true, true, false, "\t");
    config.file1 = "-".to_string();
    config.file2 = "-".to_string();
    assert!(config.validate().is_err());

    config.file2 = "file2.txt".to_string();
    assert!(config.validate().is_ok());

    config.file1 = "file1.txt".to_string();
    config.file2 = "-".to_string();
    assert!(config.validate().is_ok());
}
