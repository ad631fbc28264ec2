use btree_database::tools::{
    all_to_uppercase, char_change_case, get_char, get_choice, menu_option, parse_i32, parse_option,
    remove_character, replace_char_with, split_by_string, split_pieces, trim, without_char, Choice,
    MenuOption,
};

#[test]
fn get_char_takes_the_first_character() {
    assert_eq!(get_char("hello\n"), 'h');
    assert_eq!(get_char(""), '\n');
    assert_eq!(get_char("\n"), '\n');
}

#[test]
fn trim_removes_unicode_white_space() {
    assert_eq!(trim("  a b \t\n"), "a b");
    assert_eq!(trim("\u{3000}x\u{a0}"), "x");
    assert_eq!(trim("   "), "");
}

#[test]
fn remove_character_drops_every_occurrence() {
    assert_eq!(remove_character("  banana \n", 'a'), "bnn");
    assert_eq!(without_char("a\0b\0", '\0'), "ab");
}

#[test]
fn all_to_uppercase_trims_and_capitalizes() {
    assert_eq!(all_to_uppercase("  hello straße \n"), "HELLO STRASSE");
}

#[test]
fn char_change_case_changes_only_the_chosen_character() {
    assert_eq!(char_change_case("hello world\n", 'o', 'u'), "hellO wOrld");
    assert_eq!(char_change_case("HELLO", 'L', 'l'), "HEllO");
    assert_eq!(char_change_case("straße", 'ß', 'u'), "straSSe");
    assert_eq!(char_change_case("hello", 'l', 'x'), "");
    assert_eq!(replace_char_with("a-b-c", '-', "::"), "a::b::c");
}

#[test]
fn split_by_string_joins_pieces_with_bars() {
    assert_eq!(split_by_string("a,b,,c\n", ",\n"), "a|b||c");
    assert_eq!(split_by_string("aaa\r\n", "aa\n"), "|a");
    assert_eq!(split_by_string("ab\n", "\n"), "|a|b|");
    assert_eq!(split_by_string("\n", "x\n"), "");
    assert_eq!(split_pieces("one--two--", "--"), vec!["one", "two", ""]);
    assert_eq!(split_pieces("", ""), vec!["", ""]);
}

#[test]
fn split_by_string_matches_std() {
    for (text, pat) in [("a--b---c", "--"), ("xyz", "y"), ("abab", "ab"), ("héé", "é"), ("", "q"), ("ab", "")] {
        let expected = text.split(pat).collect::<Vec<&str>>().join("|");
        assert_eq!(split_by_string(text, pat), expected);
    }
}

#[test]
fn menu_options_one_to_four() {
    assert!(matches!(menu_option(1), Some(MenuOption::RemoveCharacter)));
    assert!(matches!(menu_option(2), Some(MenuOption::AllToUppercase)));
    assert!(matches!(menu_option(3), Some(MenuOption::CharChangeCase)));
    assert!(matches!(menu_option(4), Some(MenuOption::SplitByString)));
    assert!(menu_option(0).is_none());
    assert!(menu_option(5).is_none());
}

#[test]
fn get_choice_reads_the_first_character() {
    assert!(matches!(get_choice("  y\n", 'y', 'n'), Choice::Chosen('y')));
    assert!(matches!(get_choice("no", 'y', 'n'), Choice::Chosen('n')));
    assert!(matches!(get_choice("maybe", 'y', 'n'), Choice::Invalid('m')));
    assert!(matches!(get_choice(" \n", 'y', 'n'), Choice::Blank));
}

#[test]
fn parse_numbers_like_std() {
    assert_eq!(parse_option("  42 \n"), Some(42));
    assert_eq!(parse_i32("+7"), Some(7));
    assert_eq!(parse_i32("-2147483648"), Some(i32::MIN));
    assert_eq!(parse_i32("2147483647"), Some(i32::MAX));
    assert_eq!(parse_i32("2147483648"), None);
    assert_eq!(parse_i32("99999999999x"), None);
    assert_eq!(parse_i32("abc"), None);
    assert_eq!(parse_i32(""), None);
    assert_eq!(parse_i32("-"), None);
    assert_eq!(parse_i32("+"), None);
    assert_eq!(parse_i32("1 2"), None);
    for s in ["0", "-0", "007", "12a", "-12", "+-1", "4294967296"] {
        assert_eq!(parse_i32(s), s.parse::<i32>().ok());
    }
}
