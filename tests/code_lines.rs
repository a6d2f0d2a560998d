use bumpalo::Bump;
use roc_core::code_lines::{split_inclusive, CodeLines, UIError};

#[test]
fn split_keeps_newline_at_start_of_next_line() {
    assert_eq!(split_inclusive("a\nb"), vec!["a".to_string(), "\nb".to_string()]);
}

#[test]
fn split_empty_text_has_no_lines() {
    assert!(split_inclusive("").is_empty());
}

#[test]
fn split_trailing_newline() {
    assert_eq!(split_inclusive("ab\n"), vec!["ab".to_string(), "\n".to_string()]);
}

#[test]
fn split_leading_newline_gives_empty_first_line() {
    assert_eq!(split_inclusive("\nx\n\ny"), vec![
        "".to_string(),
        "\nx".to_string(),
        "\n".to_string(),
        "\ny".to_string(),
    ]);
}

#[test]
fn from_str_counts_bytes() {
    let code = CodeLines::from_str("é = 1\nx");
    assert_eq!(code.lines, vec!["é = 1".to_string(), "\nx".to_string()]);
    assert_eq!(code.nr_of_chars, 8);
}

#[test]
fn get_line_in_and_out_of_range() {
    let code = CodeLines::from_str("ab\ncd");
    assert_eq!(code.get_line(1), Ok("\ncd"));
    assert_eq!(
        code.get_line(2),
        Err(UIError::OutOfBounds { index: 2, collection_name: "lines".to_string(), len: 2 })
    );
}

#[test]
fn line_len_counts_bytes() {
    let code = CodeLines::from_str("é\nxy");
    assert_eq!(code.line_len(0), Ok(2));
    assert_eq!(code.line_len(1), Ok(3));
    assert!(code.line_len(5).is_err());
}

#[test]
fn counts_of_lines_and_chars() {
    let code = CodeLines::from_str("one\ntwo\nthree");
    assert_eq!(code.nr_of_lines(), 3);
    assert_eq!(code.nr_of_chars(), 13);
}

#[test]
fn all_lines_joins_back() {
    let text = "first\n\nthird\n";
    let code = CodeLines::from_str(text);
    let arena = Bump::new();
    assert_eq!(code.all_lines(&arena).as_str(), text);
    assert_eq!(CodeLines::from_str("").all_lines(&arena).as_str(), "");
}

#[test]
fn last_char_of_lines() {
    let code = CodeLines::from_str("\nab\n");
    assert_eq!(code.last_char(0), Ok(None));
    assert_eq!(code.last_char(1), Ok(Some('b')));
    assert_eq!(code.last_char(2), Ok(Some('\n')));
    assert!(code.last_char(3).is_err());
}
