//! What holds of the aligned output, whatever the text.

use vstd::prelude::*;
use super::layout::{
    is_run, lemma_render_column, lemma_run_of, lemma_run_width, lemma_widest_attained,
    lemma_widest_bounds, lemma_widest_shift, pad_line, pad_records, render, run_end, run_start,
    run_width, spaces, widest, Record,
};
use super::lines::{
    lemma_first_line_len, lemma_line_is_part, lemma_lines_free_of_line_feed,
    lemma_lines_of_unlines, lines_of, unlines,
};
use super::modify_whitespace::{
    is_blank, lemma_trim_end, lemma_trim_end_of_padded, lemma_trim_start,
    lemma_trim_start_of_padded, trim_end, trim_start,
};
use super::search::{
    first_occurrence, free_of, is_first_occurrence, lemma_first_occurrence, occurs, occurs_at,
};
use super::slicing::utf8_len;
use super::{aligned, is_line_record, split_line, split_records};

verus! {

/// Within a run, the delimiters stand in one column: every line of the run
/// reads code, padding, a space, and then the delimiter, and what comes before
/// the delimiter is one code unit longer than the widest code of the run.
/// That width is the largest code length in the run: no code of the run is
/// longer, and one is as long.
pub proof fn law_run_alignment(
    records: Seq<Record>,
    delimiter: Seq<char>,
    lo: int,
    hi: int,
    i: int,
)
    requires
        is_run(records, lo, hi),
        lo <= i < hi,
    ensures
        ({
            let width = widest(records, lo, hi);
            let code = records[i].0;
            let comment = records[i].1.unwrap();
            let head = code + spaces((width - utf8_len(code)) as nat) + seq![' '];
            &&& pad_records(records, delimiter)[i] == head + (delimiter + seq![' '] + comment)
            &&& utf8_len(head) == width + 1
            &&& forall|k: int| lo <= k < hi ==> utf8_len(#[trigger] records[k].0) <= width
            &&& exists|k: int| lo <= k < hi && utf8_len(#[trigger] records[k].0) == width
        }),
{
    let width = widest(records, lo, hi);
    lemma_run_width(records, lo, hi, i);
    lemma_widest_bounds(records, lo, hi, i);
    lemma_render_column(records[i].0, records[i].1.unwrap(), width, delimiter);
    assert forall|k: int| lo <= k < hi implies utf8_len(#[trigger] records[k].0) <= width by {
        lemma_widest_bounds(records, lo, hi, k);
    }
    let widest_at = lemma_widest_attained(records, lo, hi);
    assert(utf8_len(records[widest_at].0) == width);
}

/// A run of one sequence of records is a run of another that holds the same
/// records there, `shift` places further on, and that has no commented record
/// right before or right after them.
proof fn lemma_run_moves(
    part: Seq<Record>,
    all: Seq<Record>,
    lo: int,
    hi: int,
    shift: int,
    i: int,
)
    requires
        is_run(part, lo, hi),
        lo <= i < hi,
        0 <= shift,
        shift + part.len() <= all.len(),
        forall|k: int| 0 <= k < part.len() ==> #[trigger] part[k] == all[k + shift],
        shift > 0 ==> all[shift - 1].1 is None,
        shift + part.len() < all.len() ==> all[shift + part.len()].1 is None,
    ensures
        run_width(all, i + shift) == run_width(part, i),
{
    assert(is_run(all, lo + shift, hi + shift)) by {
        assert forall|k: int| lo + shift <= k < hi + shift implies (#[trigger] all[k]).1
            is Some by {
            assert(part[k - shift] == all[k - shift + shift]);
        }
        if lo > 0 {
            assert(part[lo - 1] == all[lo - 1 + shift]);
        }
        if hi < part.len() {
            assert(part[hi] == all[hi + shift]);
        }
    }
    lemma_run_width(all, lo + shift, hi + shift, i + shift);
    lemma_run_width(part, lo, hi, i);
    lemma_widest_shift(part, all, lo, hi, shift);
}

/// An uncommented line separates what is aligned: the output for records
/// around an uncommented one is the output for those before it, its code, and
/// the output for those after it, each side aligned by itself.
pub proof fn law_uncommented_line_separates(
    before: Seq<Record>,
    code: Seq<char>,
    after: Seq<Record>,
    delimiter: Seq<char>,
)
    ensures
        pad_records(before + seq![(code, None::<Seq<char>>)] + after, delimiter) == pad_records(
            before,
            delimiter,
        ) + seq![code] + pad_records(after, delimiter),
{
    let all = before + seq![(code, None::<Seq<char>>)] + after;
    let first = before.len() as int;
    let joined = pad_records(before, delimiter) + seq![code] + pad_records(after, delimiter);
    assert forall|i: int| 0 <= i < all.len() implies pad_line(all, i, delimiter) == joined[i] by {
        if i < first && before[i].1 is Some {
            lemma_run_of(before, i);
            lemma_run_moves(before, all, run_start(before, i), run_end(before, i), 0, i);
        } else if i > first && after[i - first - 1].1 is Some {
            let j = i - first - 1;
            lemma_run_of(after, j);
            lemma_run_moves(after, all, run_start(after, j), run_end(after, j), first + 1, j);
        }
    }
    assert(pad_records(all, delimiter) =~= joined);
}

/// The record of a line is a line record.
proof fn lemma_split_line_record(line: Seq<char>, delimiter: Seq<char>)
    requires
        delimiter.len() > 0,
        free_of(line, '\n'),
    ensures
        is_line_record(split_line(line, delimiter), delimiter),
{
    lemma_first_occurrence(line, delimiter);
    let record = split_line(line, delimiter);
    let code = record.0;
    let m = delimiter.len() as int;
    // The code is the start of the line, up to the delimiter at most.
    match first_occurrence(line, delimiter) {
        Some(at) => {
            assert(is_first_occurrence(line, delimiter, at));
            lemma_trim_end(line.take(at));
            lemma_trim_start(line.skip(at + m));
        },
        None => {
            lemma_trim_end(line);
        },
    }
    assert forall|j: int| !occurs_at(code, delimiter, j) by {
        if occurs_at(code, delimiter, j) {
            assert(line.subrange(j, j + m) =~= code.subrange(j, j + m));
            assert(occurs_at(line, delimiter, j));
        }
    }
}

/// The records of a text keep to the data model: every one of them is a line
/// record.
pub proof fn law_records_are_line_records(text: Seq<char>, delimiter: Seq<char>, k: int)
    requires
        delimiter.len() > 0,
        0 <= k < split_records(text, delimiter).len(),
    ensures
        is_line_record(split_records(text, delimiter)[k], delimiter),
{
    lemma_lines_free_of_line_feed(text, k);
    lemma_split_line_record(lines_of(text)[k], delimiter);
}

/// A text in which the delimiter stands nowhere comes out as its lines, each
/// without the whitespace at its end.
pub proof fn law_text_without_delimiter(text: Seq<char>, delimiter: Seq<char>)
    requires
        !occurs(text, delimiter),
    ensures
        aligned(text, delimiter) == lines_of(text).map_values(|line: Seq<char>| trim_end(line)),
{
    let lines = lines_of(text);
    let records = split_records(text, delimiter);
    assert forall|k: int| 0 <= k < lines.len() implies #[trigger] records[k] == (
        trim_end(lines[k]),
        None::<Seq<char>>,
    ) by {
        lemma_first_occurrence(lines[k], delimiter);
        if occurs(lines[k], delimiter) {
            // The delimiter would stand in the text, where the line starts.
            let i = choose|i: int| occurs_at(lines[k], delimiter, i);
            let at = lemma_line_is_part(text, k);
            assert(text.subrange(at + i, at + i + delimiter.len()) =~= lines[k].subrange(
                i,
                i + delimiter.len(),
            ));
            assert(occurs_at(text, delimiter, at + i));
        }
    }
    assert(aligned(text, delimiter) =~= lines.map_values(|line: Seq<char>| trim_end(line)));
}

/// A text of one line in which the delimiter stands comes out as one line:
/// the code, a space, the delimiter, a space and the comment, with no padding.
pub proof fn law_single_commented_line(line: Seq<char>, delimiter: Seq<char>)
    requires
        delimiter.len() > 0,
        free_of(line, '\n'),
        occurs(line, delimiter),
    ensures
        split_line(line, delimiter).1 is Some,
        aligned(line, delimiter) == seq![
            split_line(line, delimiter).0 + seq![' '] + delimiter + seq![' '] + split_line(
                line,
                delimiter,
            ).1.unwrap(),
        ],
{
    lemma_first_occurrence(line, delimiter);
    lemma_first_line_len(line, line.len() as int);
    let record = split_line(line, delimiter);
    let records = split_records(line, delimiter);
    assert(records =~= seq![record]);
    // The record is a run by itself, as wide as its code.
    assert(widest(records, 0, 0) == 0);
    assert(run_width(records, 0) == utf8_len(record.0));
    assert(aligned(line, delimiter) =~= seq![
        record.0 + seq![' '] + delimiter + seq![' '] + record.1.unwrap(),
    ]);
}

/// Trimming is idempotent: what is left holds no whitespace at the trimmed
/// end, and trimming it again changes nothing.
pub proof fn law_trimming_is_idempotent(s: Seq<char>)
    ensures
        trim_end(trim_end(s)) == trim_end(s),
        trim_start(trim_start(s)) == trim_start(s),
{
    lemma_trim_end(s);
    lemma_trim_end_of_padded(trim_end(s), Seq::empty());
    assert(trim_end(s) + Seq::empty() =~= trim_end(s));
    lemma_trim_start(s);
    lemma_trim_start_of_padded(Seq::empty(), trim_start(s));
    assert(Seq::empty() + trim_start(s) =~= trim_start(s));
}

/// In no line that is written for a commented record does the delimiter stand
/// at an index inside the code.
pub open spec fn found_after_code(records: Seq<Record>, delimiter: Seq<char>) -> bool {
    forall|i: int, j: int|
        0 <= i < records.len() && records[i].1 is Some && 0 <= j < records[i].0.len()
            ==> !#[trigger] occurs_at(pad_line(records, i, delimiter), delimiter, j)
}

/// A pattern that stands in a text twice, `shift` places apart, with nothing
/// but spaces from the first place to the second, holds nothing but spaces.
proof fn lemma_pattern_of_spaces(
    text: Seq<char>,
    pattern: Seq<char>,
    at: int,
    shift: int,
    i: int,
)
    requires
        occurs_at(text, pattern, at),
        occurs_at(text, pattern, at + shift),
        shift > 0,
        forall|q: int| at <= q < at + shift ==> text[q] == ' ',
        0 <= i < pattern.len(),
    ensures
        pattern[i] == ' ',
    decreases i,
{
    let m = pattern.len() as int;
    assert(pattern[i] == text.subrange(at, at + m)[i]);
    if i >= shift {
        lemma_pattern_of_spaces(text, pattern, at, shift, i - shift);
        assert(pattern[i - shift] == text.subrange(at + shift, at + shift + m)[i - shift]);
    }
}

/// A rendered line holds no line feed, and it splits back into the code and
/// the comment that it was rendered from exactly where the delimiter stands
/// in it at no index inside the code.
proof fn lemma_rendered_splits_back(
    code: Seq<char>,
    comment: Seq<char>,
    width: int,
    delimiter: Seq<char>,
)
    requires
        utf8_len(code) <= width,
        delimiter.len() > 0,
        is_line_record((code, Some(comment)), delimiter),
    ensures
        free_of(render(code, comment, width, delimiter), '\n'),
        split_line(render(code, comment, width, delimiter), delimiter) == (code, Some(comment))
            <==> forall|j: int|
            0 <= j < code.len() ==> !#[trigger] occurs_at(
                render(code, comment, width, delimiter),
                delimiter,
                j,
            ),
{
    let padding = spaces((width - utf8_len(code)) as nat) + seq![' '];
    let line = render(code, comment, width, delimiter);
    let written = (code.len() + padding.len()) as int;
    let m = delimiter.len() as int;
    assert(line =~= code + padding + delimiter + seq![' '] + comment);
    assert(line.subrange(written, written + m) =~= delimiter);
    assert(occurs_at(line, delimiter, written));
    lemma_first_occurrence(line, delimiter);
    let at = first_occurrence(line, delimiter).unwrap();
    assert(is_first_occurrence(line, delimiter, at));
    if at < code.len() {
        // What is split off before the delimiter is shorter than the code.
        lemma_trim_end(line.take(at));
    } else {
        // The code, and spaces after it, come before the delimiter.
        let before = line.subrange(code.len() as int, at);
        assert(line.take(at) =~= code + before);
        lemma_trim_end_of_padded(code, before);
        // Spaces, and the comment after them, come after the delimiter: what
        // is left of the padding, of the delimiter as it was written, which
        // holds nothing but spaces where it is found before that place, and
        // the space that follows it.
        let after = line.subrange(at + m, written + m + 1);
        assert forall|q: int| 0 <= q < after.len() implies is_blank(#[trigger] after[q]) by {
            let i = at + m + q - written;
            if 0 <= i < m {
                lemma_pattern_of_spaces(line, delimiter, at, written - at, i);
                assert(after[q] == line.subrange(written, written + m)[i]);
            }
        }
        assert(line.skip(at + m) =~= after + comment);
        lemma_trim_start_of_padded(after, comment);
    }
}

/// Line records that are written out and split again are the same records
/// exactly where the delimiter stands, in the lines that are written, at no
/// index inside the code.
pub proof fn law_written_records_split_back(records: Seq<Record>, delimiter: Seq<char>)
    requires
        delimiter.len() > 0,
        forall|k: int| 0 <= k < records.len() ==> is_line_record(#[trigger] records[k], delimiter),
    ensures
        split_records(unlines(pad_records(records, delimiter)), delimiter) == records
            <==> found_after_code(records, delimiter),
{
    let written = pad_records(records, delimiter);
    let again = split_records(unlines(written), delimiter);
    assert forall|k: int| 0 <= k < written.len() implies free_of(#[trigger] written[k], '\n')
        && (records[k].1 is None ==> split_line(written[k], delimiter) == records[k])
        && (records[k].1 is Some ==> (split_line(written[k], delimiter) == records[k]
        <==> forall|j: int|
        0 <= j < records[k].0.len() ==> !#[trigger] occurs_at(written[k], delimiter, j))) by {
        match records[k].1 {
            Some(comment) => {
                lemma_run_of(records, k);
                lemma_widest_bounds(records, run_start(records, k), run_end(records, k), k);
                lemma_rendered_splits_back(
                    records[k].0,
                    comment,
                    run_width(records, k),
                    delimiter,
                );
            },
            None => {
                lemma_first_occurrence(records[k].0, delimiter);
                lemma_trim_end_of_padded(records[k].0, Seq::<char>::empty());
            },
        }
    }
    lemma_lines_of_unlines(written);
    assert(again.len() == records.len());
    if found_after_code(records, delimiter) {
        assert forall|k: int| 0 <= k < records.len() implies again[k] == records[k] by {
            if records[k].1 is Some {
                assert forall|j: int| 0 <= j < records[k].0.len() implies !#[trigger] occurs_at(
                    written[k],
                    delimiter,
                    j,
                ) by {
                    assert(!occurs_at(pad_line(records, k, delimiter), delimiter, j));
                }
            }
        }
        assert(again =~= records);
    }
    if again == records {
        assert forall|i: int, j: int|
            0 <= i < records.len() && records[i].1 is Some && 0 <= j < records[i].0.len()
            implies !#[trigger] occurs_at(pad_line(records, i, delimiter), delimiter, j) by {
            assert(split_line(written[i], delimiter) == again[i]);
        }
    }
}

/// A delimiter that holds no space stands at no index inside the code, in
/// every line that is written for line records.
pub proof fn law_space_free_delimiter_found_after_code(records: Seq<Record>, delimiter: Seq<char>)
    requires
        delimiter.len() > 0,
        free_of(delimiter, ' '),
        forall|k: int| 0 <= k < records.len() ==> is_line_record(#[trigger] records[k], delimiter),
    ensures
        found_after_code(records, delimiter),
{
    assert forall|i: int, j: int|
        0 <= i < records.len() && records[i].1 is Some && 0 <= j < records[i].0.len()
        implies !#[trigger] occurs_at(pad_line(records, i, delimiter), delimiter, j) by {
        let code = records[i].0;
        let line = pad_line(records, i, delimiter);
        let m = delimiter.len() as int;
        if occurs_at(line, delimiter, j) {
            if j + m <= code.len() {
                // The delimiter would stand in the code.
                assert(code.subrange(j, j + m) =~= line.subrange(j, j + m));
                assert(occurs_at(code, delimiter, j));
            } else {
                // The delimiter would hold the space that follows the code.
                assert(line[code.len() as int] == ' ');
                assert(delimiter[code.len() - j] == line.subrange(j, j + m)[code.len() - j]);
            }
        }
    }
}

/// Aligning is idempotent where the delimiter stands, in the aligned lines,
/// at no index inside the code: the aligned text, written out as lines,
/// splits into the records of the text that it was made from, and aligning it
/// changes nothing.
pub proof fn law_idempotent(text: Seq<char>, delimiter: Seq<char>)
    requires
        delimiter.len() > 0,
        found_after_code(split_records(text, delimiter), delimiter),
    ensures
        split_records(unlines(aligned(text, delimiter)), delimiter) == split_records(
            text,
            delimiter,
        ),
        aligned(unlines(aligned(text, delimiter)), delimiter) == aligned(text, delimiter),
{
    let records = split_records(text, delimiter);
    assert forall|k: int| 0 <= k < records.len() implies is_line_record(
        #[trigger] records[k],
        delimiter,
    ) by {
        law_records_are_line_records(text, delimiter, k);
    }
    law_written_records_split_back(records, delimiter);
}

/// Aligning is idempotent for every delimiter that holds no space.
pub proof fn law_idempotent_space_free(text: Seq<char>, delimiter: Seq<char>)
    requires
        delimiter.len() > 0,
        free_of(delimiter, ' '),
    ensures
        aligned(unlines(aligned(text, delimiter)), delimiter) == aligned(text, delimiter),
{
    let records = split_records(text, delimiter);
    assert forall|k: int| 0 <= k < records.len() implies is_line_record(
        #[trigger] records[k],
        delimiter,
    ) by {
        law_records_are_line_records(text, delimiter, k);
    }
    law_space_free_delimiter_found_after_code(records, delimiter);
    law_idempotent(text, delimiter);
}

} // verus!
