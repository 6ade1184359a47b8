//! Aligning the trailing comments of a text.
//!
//! The text is split into line records, one per line: the code before the
//! comment delimiter and, where the line has one, the comment after it. The
//! records are then written out again, each run of consecutive commented
//! lines padded so that its delimiters stand in one column.

use vstd::prelude::*;

pub mod laws;
pub mod layout;
pub mod lines;
pub mod modify_whitespace;
pub mod search;
pub mod slicing;

use laws::law_records_are_line_records;
use layout::{
    is_run, lemma_run_width, lemma_widest_bounds, pad_records, render, spaces, widest, Record,
};
use lines::{find_line_end, first_line_len, lemma_first_line_len, lines_of};
use modify_whitespace::{
    ends_clean, remove_leading_whitespace, remove_trailing_whitespace, starts_clean, trim_end,
    trim_start,
};
use search::{
    find, first_occurrence, free_of, is_first_occurrence, lemma_first_occurrence, occurs,
};
use slicing::{byte_len, chars_of, split_at_char, utf8_len};
use vstd::slice::slice_subrange;

verus! {

/// The record of a line. Where the delimiter stands in the line, the code is
/// what comes before its first occurrence, without the whitespace at its end,
/// and the comment is what comes after that occurrence, without the whitespace
/// at its start. Where it does not, the code is the line without the
/// whitespace at its end, and there is no comment.
pub open spec fn split_line(line: Seq<char>, delimiter: Seq<char>) -> Record {
    match first_occurrence(line, delimiter) {
        Some(at) => (
            trim_end(line.take(at)),
            Some(trim_start(line.skip(at + delimiter.len()))),
        ),
        None => (trim_end(line), None),
    }
}

/// What holds of every record that comes from a line: the code does not end
/// in whitespace and the comment does not start with it, neither holds a line
/// feed, the delimiter does not stand in the code, and where there is a
/// comment the delimiter holds no line feed either.
pub open spec fn is_line_record(record: Record, delimiter: Seq<char>) -> bool {
    &&& ends_clean(record.0)
    &&& free_of(record.0, '\n')
    &&& !occurs(record.0, delimiter)
    &&& record.1 matches Some(comment) ==> {
        &&& starts_clean(comment)
        &&& free_of(comment, '\n')
        &&& free_of(delimiter, '\n')
    }
}

/// The records of the lines of `text`, one per line and in their order.
pub open spec fn split_records(text: Seq<char>, delimiter: Seq<char>) -> Seq<Record> {
    lines_of(text).map_values(|line: Seq<char>| split_line(line, delimiter))
}

/// The lines of `text` with their comments aligned.
pub open spec fn aligned(text: Seq<char>, delimiter: Seq<char>) -> Seq<Seq<char>> {
    pad_records(split_records(text, delimiter), delimiter)
}

/// The records of a text are the record of its first line and then the
/// records of what follows that line's line feed.
proof fn lemma_split_records_step(text: Seq<char>, delimiter: Seq<char>)
    requires
        text.len() > 0,
    ensures
        first_line_len(text) < text.len() ==> split_records(text, delimiter) == seq![
            split_line(text.take(first_line_len(text)), delimiter),
        ] + split_records(text.skip(first_line_len(text) + 1), delimiter),
        first_line_len(text) >= text.len() ==> split_records(text, delimiter) == seq![
            split_line(text, delimiter),
        ],
{
    let n = first_line_len(text);
    lemma_first_line_len(text, n);
    let records = split_records(text, delimiter);
    if n < text.len() {
        let rest = split_records(text.skip(n + 1), delimiter);
        assert(records =~= seq![split_line(text.take(n), delimiter)] + rest);
    } else {
        assert(records =~= seq![split_line(text, delimiter)]);
    }
}

/// The record of one line, cut from the line.
fn split_one_line<'a>(line: &'a str, chars: &[char], pattern: &[char]) -> (record: (
    &'a str,
    Option<&'a str>,
))
    requires
        chars@ == line@,
    ensures
        record.deep_view() == split_line(line@, pattern@),
{
    proof {
        lemma_first_occurrence(line@, pattern@);
    }
    match find(chars, pattern) {
        Some(at) => {
            let (left, rest) = split_at_char(line, at);
            let (_, right) = split_at_char(rest, pattern.len());
            assert(right@ =~= line@.skip(at + pattern@.len()));
            (remove_trailing_whitespace(left), Some(remove_leading_whitespace(right)))
        },
        None => (remove_trailing_whitespace(line), None),
    }
}

/// Splits `file` into its line records, one per line and in their order: the
/// code before the first occurrence of the delimiter, without the whitespace
/// at its end, and the comment after it, without the whitespace at its start.
/// A line without the delimiter has no comment.
pub fn split_text_and_comments<'a>(file: &'a str, delimiter: &str) -> (split: Vec<
    (&'a str, Option<&'a str>),
>)
    requires
        delimiter@.len() > 0,
    ensures
        split.deep_view() == split_records(file@, delimiter@),
        split@.len() == lines_of(file@).len(),
        forall|k: int|
            0 <= k < split@.len() ==> is_line_record(#[trigger] split.deep_view()[k], delimiter@),
{
    let chars = chars_of(file);
    let pattern = chars_of(delimiter);
    let mut split: Vec<(&'a str, Option<&'a str>)> = Vec::new();
    let mut rest: &'a str = file;
    let mut start: usize = 0;
    while start < chars.len()
        invariant
            chars@ == file@,
            pattern@ == delimiter@,
            start <= chars@.len(),
            rest@ == file@.skip(start as int),
            split.deep_view() + split_records(rest@, delimiter@) == split_records(
                file@,
                delimiter@,
            ),
        decreases chars@.len() - start,
    {
        let tail = slice_subrange(chars.as_slice(), start, chars.len());
        let n = find_line_end(tail);
        proof {
            lemma_first_line_len(rest@, n as int);
            lemma_split_records_step(rest@, delimiter@);
        }
        let (line, after) = split_at_char(rest, n);
        let record = split_one_line(line, slice_subrange(tail, 0, n), pattern.as_slice());
        let ghost remaining = rest@;
        split.push(record);
        if start + n < chars.len() {
            rest = split_at_char(after, 1).1;
            start = start + n + 1;
            assert(rest@ =~= remaining.skip(n + 1));
        } else {
            rest = after;
            start = start + n;
            assert(line@ =~= remaining);
        }
    }
    assert forall|k: int| 0 <= k < split@.len() implies is_line_record(
        #[trigger] split.deep_view()[k],
        delimiter@,
    ) by {
        law_records_are_line_records(file@, delimiter@, k);
    }
    split
}

/// The rendered lines of a run of commented records, all padded to `width`.
pub open spec fn render_run(
    run: Seq<(Seq<char>, Seq<char>)>,
    width: int,
    delimiter: Seq<char>,
) -> Seq<Seq<char>> {
    Seq::new(run.len(), |k: int| render(run[k].0, run[k].1, width, delimiter))
}

/// Appends to `transformed` the lines of one run: for each pair of code and
/// comment in `buffer`, the code, padded with spaces to `longest` code units,
/// then a space, the delimiter, a space and the comment.
pub fn align_consecutive_comments(
    buffer: &[(&str, &str)],
    longest: usize,
    delimiter: &str,
    transformed: &mut Vec<String>,
)
    requires
        forall|k: int|
            0 <= k < buffer.deep_view().len() ==> utf8_len(#[trigger] buffer.deep_view()[k].0)
                <= longest,
    ensures
        final(transformed).deep_view() == old(transformed).deep_view() + render_run(
            buffer.deep_view(),
            longest as int,
            delimiter@,
        ),
{
    let ghost before = transformed.deep_view();
    let ghost lines = render_run(buffer.deep_view(), longest as int, delimiter@);
    for i in 0..buffer.len()
        invariant
            transformed.deep_view() == before + lines.take(i as int),
            lines == render_run(buffer.deep_view(), longest as int, delimiter@),
            forall|k: int|
                0 <= k < buffer.deep_view().len() ==> utf8_len(#[trigger] buffer.deep_view()[k].0)
                    <= longest,
    {
        let (text, comment) = buffer[i];
        assert(utf8_len(buffer.deep_view()[i as int].0) <= longest);
        let padding: usize = longest - byte_len(text);
        let mut line = text.to_owned();
        let mut j: usize = 0;
        while j < padding
            invariant
                j <= padding,
                line@ == text@ + spaces(j as nat),
            decreases padding - j,
        {
            proof {
                reveal_strlit(" ");
            }
            line.append(" ");
            j = j + 1;
        }
        proof {
            reveal_strlit(" ");
        }
        line.append(" ");
        line.append(delimiter);
        line.append(" ");
        line.append(comment);
        assert(line@ == lines[i as int]);
        let ghost earlier = transformed.deep_view();
        transformed.push(line);
        assert(transformed.deep_view() =~= earlier.push(lines[i as int]));
    }
}

/// The records that a buffer of codes and comments stands for are those of
/// `records` from `lo` on.
spec fn buffered(
    records: Seq<Record>,
    run: Seq<(Seq<char>, Seq<char>)>,
    lo: int,
) -> bool {
    &&& 0 <= lo
    &&& lo + run.len() <= records.len()
    &&& forall|k: int|
        0 <= k < run.len() ==> #[trigger] records[lo + k] == (run[k].0, Some(run[k].1))
}

/// Writing out a buffered run, padded to its widest code, continues the
/// output from the run's first record to its last.
proof fn lemma_flush(
    records: Seq<Record>,
    delimiter: Seq<char>,
    run: Seq<(Seq<char>, Seq<char>)>,
    lo: int,
)
    requires
        buffered(records, run, lo),
        lo > 0 ==> records[lo - 1].1 is None,
        lo + run.len() < records.len() ==> records[lo + run.len()].1 is None,
    ensures
        forall|k: int|
            0 <= k < run.len() ==> utf8_len(#[trigger] run[k].0) <= widest(
                records,
                lo,
                lo + run.len(),
            ),
        pad_records(records, delimiter).take(lo) + render_run(
            run,
            widest(records, lo, lo + run.len()),
            delimiter,
        ) == pad_records(records, delimiter).take(lo + run.len()),
{
    let hi = lo + run.len();
    let width = widest(records, lo, hi);
    let target = pad_records(records, delimiter);
    assert forall|k: int| 0 <= k < run.len() implies utf8_len(#[trigger] run[k].0) <= width by {
        lemma_widest_bounds(records, lo, hi, lo + k);
    }
    assert forall|k: int| 0 <= k < run.len() implies #[trigger] render_run(
        run,
        width,
        delimiter,
    )[k] == target[lo + k] by {
        assert(is_run(records, lo, hi)) by {
            assert forall|j: int| lo <= j < hi implies (#[trigger] records[j]).1 is Some by {
                assert(records[lo + (j - lo)] == (run[j - lo].0, Some(run[j - lo].1)));
            }
        }
        lemma_run_width(records, lo, hi, lo + k);
    }
}

/// Writes the line records out: an uncommented record as its code, a
/// commented one with its code padded to the widest code of its run, then a
/// space, the delimiter, a space and the comment.
pub fn pad_text(split: &[(&str, Option<&str>)], delimiter: &str) -> (transformed: Vec<String>)
    ensures
        transformed.deep_view() == pad_records(split.deep_view(), delimiter@),
        transformed@.len() == split@.len(),
{
    let ghost records = split.deep_view();
    let ghost target = pad_records(records, delimiter@);
    let mut transformed: Vec<String> = Vec::new();
    let mut buffer: Vec<(&str, &str)> = Vec::new();
    let mut longest: usize = 0;
    for i in 0..split.len()
        invariant
            records == split.deep_view(),
            target == pad_records(records, delimiter@),
            buffer.len() <= i,
            buffered(records, buffer.deep_view(), i - buffer.len()),
            i - buffer.len() > 0 ==> records[i - buffer.len() - 1].1 is None,
            longest == widest(records, i - buffer.len(), i as int),
            transformed.deep_view() == target.take(i - buffer.len()),
    {
        let ghost lo = i - buffer.len();
        let (text, comment) = split[i];
        match comment {
            Some(comment) => {
                let len = byte_len(text);
                if len > longest {
                    longest = len;
                }
                let ghost earlier = buffer.deep_view();
                buffer.push((text, comment));
                proof {
                    let run = buffer.deep_view();
                    assert forall|k: int| 0 <= k < run.len() implies #[trigger] records[lo + k]
                        == (run[k].0, Some(run[k].1)) by {
                        if k < earlier.len() {
                            assert(run[k] == earlier[k]);
                        }
                    }
                }
            },
            None => {
                proof {
                    lemma_flush(records, delimiter@, buffer.deep_view(), lo);
                }
                align_consecutive_comments(buffer.as_slice(), longest, delimiter, &mut transformed);
                transformed.push(text.to_owned());
                buffer.clear();
                longest = 0;
                proof {
                    assert(target.take(i + 1) =~= target.take(i as int).push(text@));
                }
            },
        }
    }
    if buffer.len() > 0 {
        proof {
            lemma_flush(records, delimiter@, buffer.deep_view(), split.len() - buffer.len());
        }
        align_consecutive_comments(buffer.as_slice(), longest, delimiter, &mut transformed);
    }
    transformed
}

/// Aligns the comments of `file`. The result holds one line for each line of
/// `file`, in their order: a line without the delimiter comes out without the
/// whitespace at its end, and each run of consecutive lines with the delimiter
/// comes out with the delimiters in one column, one space after the widest
/// code of the run.
pub fn align_comments(file: String, delimiter: &str) -> (lines: Vec<String>)
    requires
        delimiter@.len() > 0,
    ensures
        lines.deep_view() == aligned(file@, delimiter@),
        lines@.len() == lines_of(file@).len(),
{
    let split = split_text_and_comments(file.as_str(), delimiter);

    pad_text(split.as_slice(), delimiter)
}

} // verus!
