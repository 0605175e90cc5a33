use textutils::wc::{count, format_field, report_line, FileInfo};

#[test]
fn counts_a_small_text() {
    let info = count("hello world\n");
    assert_eq!(
        info,
        FileInfo { num_lines: 1, num_words: 2, num_bytes: 12, num_chars: 12 }
    );
}

#[test]
fn counts_empty_text() {
    let info = count("");
    assert_eq!(
        info,
        FileInfo { num_lines: 0, num_words: 0, num_bytes: 0, num_chars: 0 }
    );
}

#[test]
fn counts_unterminated_final_line() {
    let info = count("one\ntwo");
    assert_eq!(info.num_lines, 2);
    assert_eq!(info.num_words, 2);
}

#[test]
fn counts_words_split_by_tabs_and_repeated_blanks() {
    let info = count("a\tb  c\n");
    assert_eq!(info.num_words, 3);
    assert_eq!(info.num_lines, 1);
}

#[test]
fn counts_multibyte_characters_as_one_char_each() {
    let info = count("caf\u{e9}\n");
    assert_eq!(info.num_chars, 5);
    assert_eq!(info.num_bytes, 6);
    assert_eq!(info.num_lines, 1);
    assert_eq!(info.num_words, 1);
}

#[test]
fn report_line_shows_selected_fields_and_the_file_name() {
    let info = FileInfo { num_lines: 1, num_words: 2, num_bytes: 12, num_chars: 12 };
    assert_eq!(
        report_line(&info, true, true, true, false, "in.txt"),
        "       1       2      12 in.txt".to_string()
    );
    assert_eq!(
        report_line(&info, true, false, false, false, "-"),
        "       1".to_string()
    );
}

#[test]
fn format_field_right_aligns_in_eight_columns() {
    assert_eq!(format_field(3, true), "       3".to_string());
    assert_eq!(format_field(10, true), "      10".to_string());
    assert_eq!(format_field(0, true), "       0".to_string());
    assert_eq!(format_field(12345678, true), "12345678".to_string());
    assert_eq!(format_field(123456789, true), "123456789".to_string());
    assert_eq!(format_field(3, false), "".to_string());
}
