//! The lines of a text. A line ends at a line feed or at the end of the text;
//! the line feed belongs to no line, and a text that ends in one has no empty
//! line after it.

use vstd::prelude::*;
use super::search::free_of;

verus! {

/// Number of characters of `text` before its first line feed, or all of them
/// where it has none.
pub open spec fn first_line_len(text: Seq<char>) -> int
    decreases text.len(),
{
    if text.len() == 0 || text[0] == '\n' {
        0
    } else {
        1 + first_line_len(text.drop_first())
    }
}

/// The lines of `text`, in order.
pub open spec fn lines_of(text: Seq<char>) -> Seq<Seq<char>>
    decreases text.len(),
{
    if text.len() == 0 {
        Seq::empty()
    } else {
        let n = first_line_len(text);
        if 0 <= n < text.len() {
            seq![text.take(n)] + lines_of(text.skip(n + 1))
        } else {
            seq![text]
        }
    }
}

/// The text whose lines are `lines`: each line followed by a line feed.
pub open spec fn unlines(lines: Seq<Seq<char>>) -> Seq<char>
    decreases lines.len(),
{
    if lines.len() == 0 {
        Seq::empty()
    } else {
        lines[0] + seq!['\n'] + unlines(lines.drop_first())
    }
}

/// The first line has length `n` exactly where no character before index `n`
/// is a line feed and the text ends at `n` or has a line feed there.
pub proof fn lemma_first_line_len(text: Seq<char>, n: int)
    ensures
        first_line_len(text) == n <==> {
            &&& 0 <= n <= text.len()
            &&& forall|i: int| 0 <= i < n ==> text[i] != '\n'
            &&& (n < text.len() ==> text[n] == '\n')
        },
    decreases text.len(),
{
    if text.len() > 0 && text[0] != '\n' {
        let rest = text.drop_first();
        lemma_first_line_len(rest, n - 1);
        lemma_first_line_len(rest, first_line_len(rest));
        if first_line_len(text) == n {
            assert forall|i: int| 0 <= i < n implies text[i] != '\n' by {
                if i > 0 {
                    assert(rest[i - 1] != '\n');
                }
            }
        } else if 0 < n <= text.len() && (forall|i: int| 0 <= i < n ==> text[i] != '\n') && (n
            < text.len() ==> text[n] == '\n') {
            assert forall|i: int| 0 <= i < n - 1 implies rest[i] != '\n' by {
                assert(rest[i] == text[i + 1]);
            }
        }
    }
}

/// No line holds a line feed.
pub proof fn lemma_lines_free_of_line_feed(text: Seq<char>, k: int)
    requires
        0 <= k < lines_of(text).len(),
    ensures
        free_of(lines_of(text)[k], '\n'),
    decreases text.len(),
{
    let n = first_line_len(text);
    lemma_first_line_len(text, n);
    if n < text.len() && k > 0 {
        lemma_lines_free_of_line_feed(text.skip(n + 1), k - 1);
    }
}

/// Every line is a part of the text: it stands in it at some index.
pub proof fn lemma_line_is_part(text: Seq<char>, k: int) -> (at: int)
    requires
        0 <= k < lines_of(text).len(),
    ensures
        0 <= at,
        at + lines_of(text)[k].len() <= text.len(),
        text.subrange(at, at + lines_of(text)[k].len()) == lines_of(text)[k],
    decreases text.len(),
{
    let n = first_line_len(text);
    lemma_first_line_len(text, n);
    if n < text.len() && k > 0 {
        n + 1 + lemma_line_is_part(text.skip(n + 1), k - 1)
    } else {
        0
    }
}

/// A text written as lines that hold no line feed has those lines.
pub proof fn lemma_lines_of_unlines(lines: Seq<Seq<char>>)
    requires
        forall|k: int| 0 <= k < lines.len() ==> free_of(#[trigger] lines[k], '\n'),
    ensures
        lines_of(unlines(lines)) == lines,
    decreases lines.len(),
{
    if lines.len() > 0 {
        let text = unlines(lines);
        let first = lines[0];
        let rest = lines.drop_first();
        assert forall|k: int| 0 <= k < rest.len() implies free_of(#[trigger] rest[k], '\n') by {
            assert(rest[k] == lines[k + 1]);
        }
        lemma_lines_of_unlines(rest);
        // The first line ends at the line feed that was written after it.
        assert(free_of(first, '\n'));
        lemma_first_line_len(text, first.len() as int);
        assert(text.take(first.len() as int) =~= first);
        assert(text.skip(first.len() as int + 1) =~= unlines(rest));
        assert(seq![first] + rest =~= lines);
    }
}

/// Number of characters of `text` before its first line feed, or all of them
/// where it has none.
pub fn find_line_end(text: &[char]) -> (n: usize)
    ensures
        n == first_line_len(text@),
        n <= text@.len(),
        forall|i: int| 0 <= i < n ==> text@[i] != '\n',
        n < text@.len() ==> text@[n as int] == '\n',
{
    let mut n: usize = 0;
    while n < text.len() && text[n] != '\n'
        invariant
            n <= text@.len(),
            forall|i: int| 0 <= i < n ==> text@[i] != '\n',
        decreases text@.len() - n,
    {
        n = n + 1;
    }
    proof {
        lemma_first_line_len(text@, n as int);
    }
    n
}

} // verus!
