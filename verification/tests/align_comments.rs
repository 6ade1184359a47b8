use eocarcinus::align_comments::{pad_text, split_text_and_comments};

const COMMENT_DELIMITER: &str = "//";

#[test]
fn simple_line() {
    let text = "Hello, world!";
    let comment = "this is a comment";
    let input = format!("{} {} {}", text, COMMENT_DELIMITER, comment);

    let result = split_text_and_comments(&input, COMMENT_DELIMITER);

    assert_eq!(result.first().unwrap().0, text);
    assert_eq!(result.first().unwrap().1.unwrap(), comment);
}

#[test]
fn multi_line() {
    let text = "Hello, world!";
    let comment = "this is a comment";
    let input = format!("{}\n{} {}", text, COMMENT_DELIMITER, comment);

    let result = split_text_and_comments(&input, COMMENT_DELIMITER);

    let mut it = result.iter();
    assert_eq!(*it.next().unwrap(), (text, None));
    assert_eq!(*it.next().unwrap(), ("", Some(comment)));
}

#[test]
fn indented_line() {
    let text = "    Hello, world";
    let comment = "    this is a comment";
    let input = format!("{} {} {}", text, COMMENT_DELIMITER, comment);

    let result = split_text_and_comments(&input, COMMENT_DELIMITER);

    assert_eq!(result.first().unwrap().0, text);
    assert_eq!(result.first().unwrap().1.unwrap(), comment.trim());
}

#[test]
fn two_lines_with_comments() {
    let hello = "hello";
    let this_is_a_comment = "this_is_a_comment";
    let you = "you";
    let this_is_also_a_comment = "this_is_also_a_comment";
    let input_a = format!("{hello} // {this_is_a_comment}");
    let input_b = format!("{you} // {this_is_also_a_comment}");
    let sample = format!("{}\n{}", input_a, input_b);
    let split = split_text_and_comments(&sample, COMMENT_DELIMITER);

    let result = pad_text(&split, COMMENT_DELIMITER);

    let mut it = result.iter();
    let expected_a = format!("{hello} // {this_is_a_comment}");
    let expected_b = format!("{you}   // {this_is_also_a_comment}");
    assert_eq!(*it.next().unwrap(), expected_a);
    assert_eq!(*it.next().unwrap(), expected_b);
}

#[test]
fn one_with_comments_another_without() {
    let text = "Hello, world!";
    let comment = "this is a comment";
    let with_comment = format!("{}    {} {}", text, COMMENT_DELIMITER, comment);
    let only_text = "No comment here";
    let sample = format!("{}\n{}", with_comment, only_text);
    let split = split_text_and_comments(&sample, COMMENT_DELIMITER);

    let result = pad_text(&split, COMMENT_DELIMITER);

    let mut it = result.iter();
    let expected_with_comment = format!("{} {} {}", text, COMMENT_DELIMITER, comment);
    assert_eq!(*it.next().unwrap(), expected_with_comment);
    assert_eq!(*it.next().unwrap(), only_text);
}
