use kvstore::codec::{decode, encode, find_char_in, split_lines_text};

#[test]
fn encode_tab_separates_key_and_value() {
    assert_eq!(encode("a", "b"), "a\tb");
    assert_eq!(encode("FOO", "bar"), "FOO\tbar");
    assert_eq!(encode("", ""), "\t");
}

#[test]
fn decode_splits_at_first_tab_only() {
    assert_eq!(decode("a\tb"), Some(("a".to_string(), "b".to_string())));
    assert_eq!(decode("a\tx\ty"), Some(("a".to_string(), "x\ty".to_string())));
    assert_eq!(decode("\t"), Some((String::new(), String::new())));
}

#[test]
fn decode_rejects_line_without_tab() {
    assert_eq!(decode("no separator here"), None);
    assert_eq!(decode(""), None);
}

#[test]
fn find_char_returns_first_position() {
    assert_eq!(find_char_in("a\tb\tc", '\t'), Some(1));
    assert_eq!(find_char_in("abc", '\t'), None);
    assert_eq!(find_char_in("\tabc", '\t'), Some(0));
}

#[test]
fn split_lines_drops_final_newline_only() {
    assert_eq!(
        split_lines_text("a\tb\nc\td\n"),
        vec!["a\tb".to_string(), "c\td".to_string()]
    );
    assert_eq!(split_lines_text("x"), vec!["x".to_string()]);
    assert_eq!(split_lines_text(""), Vec::<String>::new());
    assert_eq!(split_lines_text("a\n\nb"), vec![
        "a".to_string(),
        String::new(),
        "b".to_string()
    ]);
}
