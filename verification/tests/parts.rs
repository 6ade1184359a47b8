use eocarcinus::align_comments::align_consecutive_comments;
use eocarcinus::align_comments::lines::find_line_end;
use eocarcinus::align_comments::modify_whitespace::{
    classify, find_content_end, find_content_start, remove_leading_whitespace,
    remove_trailing_whitespace,
};
use eocarcinus::align_comments::search::find;
use eocarcinus::align_comments::slicing::{byte_len, char_width, chars_of, split_at_char};

#[test]
fn run_is_appended_to_what_is_there() {
    let mut transformed = vec!["first".to_string()];
    let buffer = vec![("ab", "x"), ("abcd", "y"), ("", "z")];

    align_consecutive_comments(&buffer, 4, "//", &mut transformed);

    assert_eq!(transformed, vec!["first", "ab   // x", "abcd // y", "     // z"]);
}

#[test]
fn run_is_padded_to_the_given_width() {
    let mut transformed = Vec::new();

    align_consecutive_comments(&[("ab", "x")], 6, "#", &mut transformed);

    assert_eq!(transformed, vec!["ab     # x"]);
}

#[test]
fn empty_run_appends_nothing() {
    let mut transformed = vec!["first".to_string()];

    align_consecutive_comments(&[], 0, "//", &mut transformed);

    assert_eq!(transformed, vec!["first"]);
}

#[test]
fn find_gives_the_first_occurrence() {
    let text: Vec<char> = "a // b // c".chars().collect();
    let pattern: Vec<char> = "//".chars().collect();

    assert_eq!(find(&text, &pattern), Some(2));
    assert_eq!(find(&text, &['c']), Some(10));
    assert_eq!(find(&text, &['a']), Some(0));
}

#[test]
fn find_gives_none_where_the_pattern_is_missing() {
    let text: Vec<char> = "a / b".chars().collect();
    let pattern: Vec<char> = "//".chars().collect();

    assert_eq!(find(&text, &pattern), None);
    assert_eq!(find(&['/'], &pattern), None);
    assert_eq!(find(&[], &pattern), None);
}

#[test]
fn find_handles_repeated_prefixes() {
    let text: Vec<char> = "aaab".chars().collect();
    let pattern: Vec<char> = "aab".chars().collect();

    assert_eq!(find(&text, &pattern), Some(1));
}

#[test]
fn empty_pattern_stands_at_the_start() {
    assert_eq!(find(&['a', 'b'], &[]), Some(0));
    assert_eq!(find(&[], &[]), Some(0));
}

#[test]
fn line_ends_at_the_first_line_feed() {
    assert_eq!(find_line_end(&['a', 'b', '\n', 'c', '\n']), 2);
    assert_eq!(find_line_end(&['\n', 'a']), 0);
    assert_eq!(find_line_end(&['a', 'b', '\r']), 3);
    assert_eq!(find_line_end(&[]), 0);
}

#[test]
fn content_ends_after_the_last_unset_flag() {
    assert_eq!(find_content_end(&[false, true, false, true, true]), 3);
    assert_eq!(find_content_end(&[false, false]), 2);
    assert_eq!(find_content_end(&[true, true]), 0);
    assert_eq!(find_content_end(&[]), 0);
}

#[test]
fn content_starts_at_the_first_unset_flag() {
    assert_eq!(find_content_start(&[true, true, false, true]), 2);
    assert_eq!(find_content_start(&[false, true]), 0);
    assert_eq!(find_content_start(&[true, true]), 2);
    assert_eq!(find_content_start(&[]), 0);
}

#[test]
fn classify_flags_whitespace() {
    assert_eq!(
        classify("a \t\u{a0}b\n\u{3000}é"),
        vec![false, true, true, true, false, true, true, false]
    );
    assert_eq!(classify(""), Vec::<bool>::new());
}

#[test]
fn split_at_char_counts_characters() {
    assert_eq!(split_at_char("héllo", 2), ("hé", "llo"));
    assert_eq!(split_at_char("héllo", 0), ("", "héllo"));
    assert_eq!(split_at_char("héllo", 5), ("héllo", ""));
    assert_eq!(split_at_char("a😀€", 2), ("a😀", "€"));
    assert_eq!(split_at_char("", 0), ("", ""));
}

#[test]
fn char_width_is_the_utf8_length() {
    assert_eq!(char_width('a'), 1);
    assert_eq!(char_width('\u{7f}'), 1);
    assert_eq!(char_width('\u{80}'), 2);
    assert_eq!(char_width('é'), 2);
    assert_eq!(char_width('\u{7ff}'), 2);
    assert_eq!(char_width('\u{800}'), 3);
    assert_eq!(char_width('€'), 3);
    assert_eq!(char_width('\u{ffff}'), 3);
    assert_eq!(char_width('\u{10000}'), 4);
    assert_eq!(char_width('😀'), 4);
    for c in ['a', 'é', '€', '😀', '\u{3000}'] {
        assert_eq!(char_width(c), c.len_utf8());
    }
}

#[test]
fn byte_len_counts_code_units() {
    assert_eq!(byte_len("héllo"), 6);
    assert_eq!(byte_len(""), 0);
    assert_eq!(byte_len("😀"), 4);
}

#[test]
fn chars_of_gives_the_characters() {
    assert_eq!(chars_of("hé\n"), vec!['h', 'é', '\n']);
    assert_eq!(chars_of(""), Vec::<char>::new());
}

#[test]
fn trailing_whitespace_of_several_bytes_is_removed() {
    assert_eq!(remove_trailing_whitespace("abc\u{3000}\u{2003} \u{a0}"), "abc");
    assert_eq!(remove_trailing_whitespace("é\u{2003}"), "é");
}

#[test]
fn leading_whitespace_of_several_bytes_is_removed() {
    assert_eq!(remove_leading_whitespace("\u{3000}\u{2003} \u{a0}abc "), "abc ");
    assert_eq!(remove_leading_whitespace("\u{2003}é"), "é");
}

#[test]
fn whitespace_only_strings_become_empty() {
    assert_eq!(remove_trailing_whitespace(" \t\r\n"), "");
    assert_eq!(remove_leading_whitespace(" \t\r\n"), "");
    assert_eq!(remove_trailing_whitespace(""), "");
    assert_eq!(remove_leading_whitespace(""), "");
}

#[test]
fn whitespace_inside_stays() {
    assert_eq!(remove_trailing_whitespace("a b  c "), "a b  c");
    assert_eq!(remove_leading_whitespace(" a b  c"), "a b  c");
}

#[test]
fn trimming_agrees_with_the_standard_library() {
    for s in ["", " ", "a", " a ", "\u{a0}a\u{a0}", "\ta\u{85}", "a\u{200b}", "\u{feff}a"] {
        assert_eq!(remove_trailing_whitespace(s), s.trim_end());
        assert_eq!(remove_leading_whitespace(s), s.trim_start());
    }
}
