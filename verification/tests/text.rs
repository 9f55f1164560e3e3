use chewing::text::{split_once_char, str_eq, text_lines};

#[test]
fn lines_end_at_newlines() {
    assert_eq!(vec!["a", "b"], text_lines("a\nb"));
    assert_eq!(vec!["a", "b"], text_lines("a\nb\n"));
    assert_eq!(vec!["a", ""], text_lines("a\n\n"));
    assert_eq!(Vec::<String>::new(), text_lines(""));
    assert_eq!(vec![""], text_lines("\n"));
}

#[test]
fn carriage_return_before_newline_is_dropped() {
    assert_eq!(vec!["a", "b\r"], text_lines("a\r\nb\r"));
    assert_eq!(vec!["a\r"], text_lines("a\r\r\n"));
}

#[test]
fn split_once_at_first_separator() {
    assert_eq!(
        Some(("常用".to_string(), "，=、".to_string())),
        split_once_char("常用=，=、", '=')
    );
    assert_eq!(Some((String::new(), String::new())), split_once_char("=", '='));
    assert_eq!(None, split_once_char("常用", '='));
}

#[test]
fn strings_compare_by_text() {
    assert!(str_eq("好", "好"));
    assert!(!str_eq("好", "好\u{E0100}"));
}
