//! What the aligned output is: runs of commented lines and the column that
//! each run is padded to.

use vstd::prelude::*;
use super::slicing::{lemma_utf8_len_concat, lemma_utf8_len_push, utf8_len};

verus! {

/// A line record: the code of a line and, where the line has one, its comment.
pub type Record = (Seq<char>, Option<Seq<char>>);

/// `n` space characters.
pub open spec fn spaces(n: nat) -> Seq<char> {
    Seq::new(n, |i: int| ' ')
}

/// A commented line, its code padded with spaces to `width` code units: the
/// code, the padding, a space, the delimiter, a space, the comment.
pub open spec fn render(
    code: Seq<char>,
    comment: Seq<char>,
    width: int,
    delimiter: Seq<char>,
) -> Seq<char>
    recommends
        utf8_len(code) <= width,
{
    code + spaces((width - utf8_len(code)) as nat) + seq![' '] + delimiter + seq![' '] + comment
}

/// Index of the first record of the run that record `i` belongs to: the
/// commented records right before `i` are in the same run.
pub open spec fn run_start(records: Seq<Record>, i: int) -> int
    decreases i,
{
    if 0 < i <= records.len() && records[i - 1].1 is Some {
        run_start(records, i - 1)
    } else {
        i
    }
}

/// Index after the last record of the run that record `i` belongs to: the
/// commented records right after `i` are in the same run.
pub open spec fn run_end(records: Seq<Record>, i: int) -> int
    decreases records.len() - i,
{
    if 0 <= i + 1 < records.len() && records[i + 1].1 is Some {
        run_end(records, i + 1)
    } else {
        i + 1
    }
}

/// The largest code length, in code units, among the records from `lo` up to
/// `hi`; 0 where there is none.
pub open spec fn widest(records: Seq<Record>, lo: int, hi: int) -> int
    decreases hi - lo,
{
    if lo >= hi {
        0
    } else {
        let rest = widest(records, lo, hi - 1);
        let last = utf8_len(records[hi - 1].0);
        if last > rest {
            last
        } else {
            rest
        }
    }
}

/// The width that the run of record `i` is padded to.
pub open spec fn run_width(records: Seq<Record>, i: int) -> int {
    widest(records, run_start(records, i), run_end(records, i))
}

/// The output line for record `i`.
pub open spec fn pad_line(records: Seq<Record>, i: int, delimiter: Seq<char>) -> Seq<char> {
    match records[i].1 {
        Some(comment) => render(records[i].0, comment, run_width(records, i), delimiter),
        None => records[i].0,
    }
}

/// The output lines for `records`, one per record and in their order.
pub open spec fn pad_records(records: Seq<Record>, delimiter: Seq<char>) -> Seq<Seq<char>> {
    Seq::new(records.len(), |i: int| pad_line(records, i, delimiter))
}

/// `[lo, hi)` is a run of `records`: its records all have a comment, and the
/// records on either side of it, where there are any, have none.
pub open spec fn is_run(records: Seq<Record>, lo: int, hi: int) -> bool {
    &&& 0 <= lo < hi <= records.len()
    &&& forall|k: int| lo <= k < hi ==> (#[trigger] records[k]).1 is Some
    &&& (lo > 0 ==> records[lo - 1].1 is None)
    &&& (hi < records.len() ==> records[hi].1 is None)
}

/// Going back from `i` over commented records only, the run's start stays the
/// same.
pub proof fn lemma_run_start(records: Seq<Record>, lo: int, i: int)
    requires
        0 <= lo <= i <= records.len(),
        forall|k: int| lo <= k < i ==> (#[trigger] records[k]).1 is Some,
        lo > 0 ==> records[lo - 1].1 is None,
    ensures
        run_start(records, i) == lo,
    decreases i - lo,
{
    if i > lo {
        lemma_run_start(records, lo, i - 1);
    }
}

/// Going on from `i` over commented records only, the run's end stays the
/// same.
pub proof fn lemma_run_end(records: Seq<Record>, i: int, hi: int)
    requires
        0 <= i < hi <= records.len(),
        forall|k: int| i < k < hi ==> (#[trigger] records[k]).1 is Some,
        hi < records.len() ==> records[hi].1 is None,
    ensures
        run_end(records, i) == hi,
    decreases hi - i,
{
    if i + 1 < hi {
        lemma_run_end(records, i + 1, hi);
    }
}

/// Before `i` the run of `i` holds commented records only, and it starts at
/// the front or after an uncommented record.
pub proof fn lemma_run_start_bounds(records: Seq<Record>, i: int)
    requires
        0 <= i <= records.len(),
    ensures
        0 <= run_start(records, i) <= i,
        forall|k: int| run_start(records, i) <= k < i ==> (#[trigger] records[k]).1 is Some,
        run_start(records, i) > 0 ==> records[run_start(records, i) - 1].1 is None,
    decreases i,
{
    if 0 < i && records[i - 1].1 is Some {
        lemma_run_start_bounds(records, i - 1);
    }
}

/// After `i` the run of `i` holds commented records only, and it ends at the
/// back or before an uncommented record.
pub proof fn lemma_run_end_bounds(records: Seq<Record>, i: int)
    requires
        0 <= i < records.len(),
    ensures
        i < run_end(records, i) <= records.len(),
        forall|k: int| i < k < run_end(records, i) ==> (#[trigger] records[k]).1 is Some,
        run_end(records, i) < records.len() ==> records[run_end(records, i)].1 is None,
    decreases records.len() - i,
{
    if i + 1 < records.len() && records[i + 1].1 is Some {
        lemma_run_end_bounds(records, i + 1);
    }
}

/// A commented record lies in the run that `run_start` and `run_end` give for
/// it.
pub proof fn lemma_run_of(records: Seq<Record>, i: int)
    requires
        0 <= i < records.len(),
        records[i].1 is Some,
    ensures
        is_run(records, run_start(records, i), run_end(records, i)),
        run_start(records, i) <= i < run_end(records, i),
{
    lemma_run_start_bounds(records, i);
    lemma_run_end_bounds(records, i);
}

/// `widest` looks at the codes in its range only: two sequences that hold the
/// same records there, the second `shift` places further on, agree on it.
pub proof fn lemma_widest_shift(
    first: Seq<Record>,
    second: Seq<Record>,
    lo: int,
    hi: int,
    shift: int,
)
    requires
        forall|k: int| lo <= k < hi ==> #[trigger] first[k] == second[k + shift],
    ensures
        widest(first, lo, hi) == widest(second, lo + shift, hi + shift),
    decreases hi - lo,
{
    if lo < hi {
        lemma_widest_shift(first, second, lo, hi - 1, shift);
    }
}

/// Every record of a run is padded to the widest code of that run.
pub proof fn lemma_run_width(records: Seq<Record>, lo: int, hi: int, i: int)
    requires
        is_run(records, lo, hi),
        lo <= i < hi,
    ensures
        run_start(records, i) == lo,
        run_end(records, i) == hi,
        run_width(records, i) == widest(records, lo, hi),
{
    lemma_run_start(records, lo, i);
    lemma_run_end(records, i, hi);
}

/// `widest` is an upper bound of the code lengths in its range.
pub proof fn lemma_widest_bounds(records: Seq<Record>, lo: int, hi: int, k: int)
    requires
        lo <= k < hi,
    ensures
        0 <= utf8_len(records[k].0) <= widest(records, lo, hi),
    decreases hi - lo,
{
    if k < hi - 1 {
        lemma_widest_bounds(records, lo, hi - 1, k);
    }
}

/// `widest` is the code length of one of the records in its range.
pub proof fn lemma_widest_attained(records: Seq<Record>, lo: int, hi: int) -> (k: int)
    requires
        lo < hi,
    ensures
        lo <= k < hi,
        utf8_len(records[k].0) == widest(records, lo, hi),
    decreases hi - lo,
{
    if lo == hi - 1 {
        assert(widest(records, lo, hi - 1) == 0);
        hi - 1
    } else {
        let rest = lemma_widest_attained(records, lo, hi - 1);
        if utf8_len(records[hi - 1].0) > widest(records, lo, hi - 1) {
            hi - 1
        } else {
            rest
        }
    }
}

/// Spaces take one code unit each.
pub proof fn lemma_utf8_len_spaces(n: nat)
    ensures
        utf8_len(spaces(n)) == n,
    decreases n,
{
    if n > 0 {
        lemma_utf8_len_spaces((n - 1) as nat);
        assert(spaces(n) =~= spaces((n - 1) as nat).push(' '));
        lemma_utf8_len_push(spaces((n - 1) as nat), ' ');
    }
}

/// In a rendered line the delimiter starts `width + 1` code units in, where
/// the code is no wider than `width`.
pub proof fn lemma_render_column(
    code: Seq<char>,
    comment: Seq<char>,
    width: int,
    delimiter: Seq<char>,
)
    requires
        utf8_len(code) <= width,
    ensures
        render(code, comment, width, delimiter) == (code + spaces(
            (width - utf8_len(code)) as nat,
        ) + seq![' ']) + (delimiter + seq![' '] + comment),
        utf8_len(code + spaces((width - utf8_len(code)) as nat) + seq![' ']) == width + 1,
{
    let padding = spaces((width - utf8_len(code)) as nat);
    lemma_utf8_len_spaces((width - utf8_len(code)) as nat);
    lemma_utf8_len_concat(code, padding);
    lemma_utf8_len_push(code + padding, ' ');
    assert(code + padding + seq![' '] =~= (code + padding).push(' '));
}

} // verus!
