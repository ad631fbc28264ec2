use btree_database::text::{chars_of, join_strings, key_less, split_on_char, trim_newline};

#[test]
fn split_on_char_keeps_empty_pieces() {
    assert_eq!(split_on_char("a/b//c", '/'), vec!["a", "b", "", "c"]);
    assert_eq!(split_on_char("", '/'), vec![""]);
    assert_eq!(split_on_char("/", '/'), vec!["", ""]);
}

#[test]
fn join_strings_puts_separator_between() {
    let parts: Vec<String> = vec!["a".to_string(), "b".to_string(), "c".to_string()];
    assert_eq!(join_strings(&parts, "/"), "a/b/c");
    assert_eq!(join_strings(&Vec::new(), "/"), "");
}

#[test]
fn key_order_is_code_point_order() {
    assert!(key_less("a", "b"));
    assert!(key_less("", "a"));
    assert!(key_less("ab", "abc"));
    assert!(key_less("Z", "a"));
    assert!(!key_less("b", "a"));
    assert!(!key_less("a", "a"));
    assert!(key_less("z", "é"));
}

#[test]
fn trim_newline_removes_one_line_end() {
    let mut s = "abc\r\n".to_string();
    trim_newline(&mut s);
    assert_eq!(s, "abc");
    let mut s = "abc\n\n".to_string();
    trim_newline(&mut s);
    assert_eq!(s, "abc\n");
    let mut s = "abc\r".to_string();
    trim_newline(&mut s);
    assert_eq!(s, "abc\r");
}

#[test]
fn chars_of_lists_characters() {
    assert_eq!(chars_of("hé!"), vec!['h', 'é', '!']);
}
