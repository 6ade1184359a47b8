use eocarcinus::align_comments::{align_comments, pad_text, split_text_and_comments};

fn align_text(text: &str, delimiter: &str) -> Vec<String> {
    align_comments(text.to_string(), delimiter)
}

fn written(lines: &[String]) -> String {
    let mut text = String::new();
    for line in lines {
        text.push_str(line);
        text.push('\n');
    }
    text
}

#[test]
fn text_without_delimiter_comes_out_trimmed() {
    let input = "  foo  \nbar\t\n\nbaz \u{a0}";

    let result = align_text(input, "//");

    let expected: Vec<&str> = input.lines().map(|line| line.trim_end()).collect();
    assert_eq!(result, expected);
    assert_eq!(result, vec!["  foo", "bar", "", "baz"]);
}

#[test]
fn single_commented_line_has_no_padding() {
    let split = split_text_and_comments("  code   //   comment  ", "//");
    assert_eq!(split, vec![("  code", Some("comment  "))]);

    let result = align_text("  code   //   comment  ", "//");

    assert_eq!(result, vec!["  code // comment  "]);
}

#[test]
fn delimiters_of_a_run_stand_one_after_the_widest_code() {
    let input = "a // 1\nabcdef // 2\nabc // 3\nab // 4";

    let result = align_text(input, "//");

    assert_eq!(result.len(), 4);
    for line in &result {
        assert_eq!(line.find("//"), Some(6 + 1));
    }
    assert_eq!(
        result,
        vec!["a      // 1", "abcdef // 2", "abc    // 3", "ab     // 4"]
    );
}

#[test]
fn uncommented_line_separates_two_runs() {
    let input = "a // 1\nbbbb // 2\nplain\ncc // 3\nd // 4";

    let result = align_text(input, "//");

    assert_eq!(
        result,
        vec!["a    // 1", "bbbb // 2", "plain", "cc // 3", "d  // 4"]
    );
}

#[test]
fn runs_are_aligned_by_themselves() {
    let before = vec![("a", Some("1")), ("bbbb", Some("2"))];
    let after = vec![("cc", Some("3")), ("d", Some("4"))];
    let mut all = before.clone();
    all.push(("plain", None));
    all.extend(after.iter().cloned());

    let mut expected = pad_text(&before, "//");
    expected.push("plain".to_string());
    expected.extend(pad_text(&after, "//"));

    assert_eq!(pad_text(&all, "//"), expected);
}

#[test]
fn aligning_twice_changes_nothing() {
    let input = "fn main() {   // entry\n    let x = 1; // one\n\n    let yy = 22;     // two\n}\n// end";

    let once = align_text(input, "//");
    let twice = align_text(&written(&once), "//");

    assert_eq!(
        once,
        vec![
            "fn main() {    // entry",
            "    let x = 1; // one",
            "",
            "    let yy = 22; // two",
            "}",
            " // end",
        ]
    );
    assert_eq!(twice, once);
}

#[test]
fn written_records_split_back() {
    let input = "a // 1\nabcdef //2\nplain  \n   // 3  ";
    let records = split_text_and_comments(input, "//");

    let text = written(&pad_text(&records, "//"));

    assert_eq!(split_text_and_comments(&text, "//"), records);
}

#[test]
fn delimiters_of_spaces_are_found_after_the_code() {
    for (input, delimiter, expected) in [
        ("a  b", "  ", "a    b"),
        ("x //y", " //", "x  // y"),
        ("k :v\nlonger key :w", " :", "k           : v"),
    ] {
        let once = align_text(input, delimiter);
        assert_eq!(once[0], expected);

        let twice = align_text(&written(&once), delimiter);

        assert_eq!(twice, once);
    }
}

#[test]
fn delimiter_with_a_space_may_be_found_earlier() {
    let once = align_text("xa  a a c", "a a");
    assert_eq!(once, vec!["xa a a c"]);

    let twice = align_text(&written(&once), "a a");

    assert_eq!(twice, vec!["x a a a c"]);
}

#[test]
fn records_are_trimmed() {
    let input = " a \t // \u{2003} b \n\u{a0}\nc\u{3000}//d\n// ";

    let records = split_text_and_comments(input, "//");

    assert_eq!(records.len(), 4);
    for (code, comment) in &records {
        assert!(!code.ends_with(char::is_whitespace));
        assert!(!code.contains("//"));
        assert!(!code.contains('\n'));
        if let Some(comment) = comment {
            assert!(!comment.starts_with(char::is_whitespace));
            assert!(!comment.contains('\n'));
        }
    }
    assert_eq!(
        records,
        vec![(" a", Some("b ")), ("", None), ("c", Some("d")), ("", Some(""))]
    );
}

#[test]
fn one_line_comes_out_for_each_line() {
    let input = "a\n\nb // c\n// d\n\n";

    assert_eq!(align_text(input, "//").len(), input.lines().count());
    assert_eq!(split_text_and_comments(input, "//").len(), 5);
}
