//! Removing whitespace from the ends of a string.
//!
//! Which characters are whitespace is the standard library's decision
//! (`char::is_whitespace`, which goes by what Unicode marks `White_Space`).
//! The decision is taken once per character and kept as a flag; everything
//! else in this module works on the flags.

use vstd::prelude::*;
use super::slicing::split_at_char;

verus! {

/// What `char::is_whitespace` answers for `c`.
pub uninterp spec fn white_space(c: char) -> bool;

/// `char::is_whitespace` tells whether Unicode marks a character
/// `White_Space`. This contract is believed, not proved. It takes the answer
/// as it comes, under the name `white_space`, and adds the one fact that the
/// proofs of this library rest on, which the documentation of the function
/// gives as an example: the answer for U+0020 SPACE is `true`.
pub assume_specification[ char::is_whitespace ](c: char) -> (b: bool)
    ensures
        b == white_space(c),
        c == ' ' ==> b,
;

/// Whether `c` is whitespace: the space character is, and for every other
/// character the standard library decides.
pub open spec fn is_blank(c: char) -> bool {
    c == ' ' || white_space(c)
}

/// The whitespace flags of `s`, one per character.
pub open spec fn blanks(s: Seq<char>) -> Seq<bool> {
    Seq::new(s.len(), |i: int| is_blank(s[i]))
}

/// Where the content ends: the length of `blank` once the set flags at its end
/// are dropped.
pub open spec fn content_end(blank: Seq<bool>) -> int
    decreases blank.len(),
{
    if blank.len() > 0 && blank.last() {
        content_end(blank.drop_last())
    } else {
        blank.len() as int
    }
}

/// Where the content starts: the number of set flags before the first unset
/// one.
pub open spec fn content_start(blank: Seq<bool>) -> int
    decreases blank.len(),
{
    if blank.len() > 0 && blank.first() {
        1 + content_start(blank.drop_first())
    } else {
        0
    }
}

/// `s` without the whitespace at its end.
pub open spec fn trim_end(s: Seq<char>) -> Seq<char> {
    s.take(content_end(blanks(s)))
}

/// `s` without the whitespace at its start.
pub open spec fn trim_start(s: Seq<char>) -> Seq<char> {
    s.skip(content_start(blanks(s)))
}

/// The content ends at `k` exactly where every flag from `k` on is set and
/// the one before `k` is not.
pub proof fn lemma_content_end(blank: Seq<bool>, k: int)
    ensures
        content_end(blank) == k <==> {
            &&& 0 <= k <= blank.len()
            &&& forall|i: int| k <= i < blank.len() ==> blank[i]
            &&& (k > 0 ==> !blank[k - 1])
        },
    decreases blank.len(),
{
    if blank.len() > 0 && blank.last() {
        let shorter = blank.drop_last();
        lemma_content_end(shorter, k);
        lemma_content_end(shorter, content_end(shorter));
        assert forall|i: int| 0 <= i < shorter.len() implies shorter[i] == blank[i] by {}
    }
}

/// The content starts at `k` exactly where every flag before `k` is set and
/// the one at `k` is not.
pub proof fn lemma_content_start(blank: Seq<bool>, k: int)
    ensures
        content_start(blank) == k <==> {
            &&& 0 <= k <= blank.len()
            &&& forall|i: int| 0 <= i < k ==> blank[i]
            &&& (k < blank.len() ==> !blank[k])
        },
    decreases blank.len(),
{
    if blank.len() > 0 && blank.first() {
        let shorter = blank.drop_first();
        lemma_content_start(shorter, k - 1);
        lemma_content_start(shorter, content_start(shorter));
        assert forall|i: int| 0 <= i < shorter.len() implies shorter[i] == blank[i + 1] by {}
        if content_start(blank) == k {
            assert forall|i: int| 0 <= i < k implies blank[i] by {
                if i > 0 {
                    assert(shorter[i - 1]);
                }
            }
        } else if 0 < k <= blank.len() && (forall|i: int| 0 <= i < k ==> blank[i]) && (k
            < blank.len() ==> !blank[k]) {
            assert forall|i: int| 0 <= i < k - 1 implies shorter[i] by {
                assert(shorter[i] == blank[i + 1]);
            }
        }
    }
}

/// `s` does not end in whitespace.
pub open spec fn ends_clean(s: Seq<char>) -> bool {
    s.len() == 0 || !is_blank(s.last())
}

/// `s` does not start with whitespace.
pub open spec fn starts_clean(s: Seq<char>) -> bool {
    s.len() == 0 || !is_blank(s.first())
}

/// Every character of `s` is whitespace.
pub open spec fn all_blank(s: Seq<char>) -> bool {
    forall|i: int| 0 <= i < s.len() ==> is_blank(#[trigger] s[i])
}

/// `trim_end` cuts a run of whitespace off the end and leaves a string that
/// does not end in whitespace.
pub proof fn lemma_trim_end(s: Seq<char>)
    ensures
        trim_end(s).len() <= s.len(),
        trim_end(s) == s.take(trim_end(s).len() as int),
        all_blank(s.skip(trim_end(s).len() as int)),
        ends_clean(trim_end(s)),
{
    let end = content_end(blanks(s));
    lemma_content_end(blanks(s), end);
    let tail = s.skip(end);
    assert forall|i: int| 0 <= i < tail.len() implies is_blank(#[trigger] tail[i]) by {
        assert(blanks(s)[end + i]);
    }
}

/// `trim_start` cuts a run of whitespace off the start and leaves a string
/// that does not start with whitespace.
pub proof fn lemma_trim_start(s: Seq<char>)
    ensures
        trim_start(s).len() <= s.len(),
        trim_start(s) == s.skip(s.len() - trim_start(s).len()),
        all_blank(s.take(s.len() - trim_start(s).len())),
        starts_clean(trim_start(s)),
{
    let start = content_start(blanks(s));
    lemma_content_start(blanks(s), start);
    let head = s.take(start);
    assert forall|i: int| 0 <= i < head.len() implies is_blank(#[trigger] head[i]) by {
        assert(blanks(s)[i]);
    }
}

/// Whitespace after a string that does not end in whitespace is what
/// `trim_end` removes.
pub proof fn lemma_trim_end_of_padded(s: Seq<char>, padding: Seq<char>)
    requires
        ends_clean(s),
        all_blank(padding),
    ensures
        trim_end(s + padding) == s,
{
    let padded = s + padding;
    assert forall|i: int| s.len() <= i < padded.len() implies blanks(padded)[i] by {
        assert(padded[i] == padding[i - s.len()]);
    }
    lemma_content_end(blanks(padded), s.len() as int);
    assert(padded.take(s.len() as int) =~= s);
}

/// Whitespace before a string that does not start with whitespace is what
/// `trim_start` removes.
pub proof fn lemma_trim_start_of_padded(padding: Seq<char>, s: Seq<char>)
    requires
        all_blank(padding),
        starts_clean(s),
    ensures
        trim_start(padding + s) == s,
{
    let padded = padding + s;
    assert forall|i: int| 0 <= i < padding.len() implies blanks(padded)[i] by {
        assert(padded[i] == padding[i]);
    }
    lemma_content_start(blanks(padded), padding.len() as int);
    assert(padded.skip(padding.len() as int) =~= s);
}

/// Where the content of `blank` ends: the index after its last unset flag.
pub fn find_content_end(blank: &[bool]) -> (k: usize)
    ensures
        k == content_end(blank@),
        k <= blank@.len(),
        forall|i: int| k <= i < blank@.len() ==> blank@[i],
        k > 0 ==> !blank@[k - 1],
{
    proof {
        lemma_content_end(blank@, content_end(blank@));
    }
    let mut k: usize = blank.len();
    assert(blank@.take(k as int) =~= blank@);
    while k > 0 && blank[k - 1]
        invariant
            k <= blank@.len(),
            content_end(blank@) == content_end(blank@.take(k as int)),
        decreases k,
    {
        assert(blank@.take(k as int).drop_last() =~= blank@.take(k - 1));
        k = k - 1;
    }
    k
}

/// Where the content of `blank` starts: the index of its first unset flag.
pub fn find_content_start(blank: &[bool]) -> (k: usize)
    ensures
        k == content_start(blank@),
        k <= blank@.len(),
        forall|i: int| 0 <= i < k ==> blank@[i],
        k < blank@.len() ==> !blank@[k as int],
{
    proof {
        lemma_content_start(blank@, content_start(blank@));
    }
    let mut k: usize = 0;
    assert(blank@.skip(0) =~= blank@);
    while k < blank.len() && blank[k]
        invariant
            k <= blank@.len(),
            content_start(blank@) == k + content_start(blank@.skip(k as int)),
        decreases blank@.len() - k,
    {
        assert(blank@.skip(k as int).drop_first() =~= blank@.skip(k + 1));
        k = k + 1;
    }
    k
}

/// The whitespace flags of the characters of `s`.
pub fn classify(s: &str) -> (blank: Vec<bool>)
    ensures
        blank@ == blanks(s@),
{
    let mut blank: Vec<bool> = Vec::new();
    for c in it: s.chars()
        invariant
            blank@ == blanks(s@.take(it.index())),
            it.seq() == s@,
    {
        blank.push(c.is_whitespace());
    }
    blank
}

/// `s` without the whitespace at its end: the start of `s` up to the last
/// character that is not whitespace.
pub fn remove_trailing_whitespace(s: &str) -> (text: &str)
    ensures
        text@ == trim_end(s@),
        text@ == s@.take(text@.len() as int),
        all_blank(s@.skip(text@.len() as int)),
        ends_clean(text@),
{
    let blank = classify(s);
    let end = find_content_end(blank.as_slice());
    proof {
        lemma_trim_end(s@);
    }
    split_at_char(s, end).0
}

/// `s` without the whitespace at its start: the end of `s` from the first
/// character that is not whitespace.
pub fn remove_leading_whitespace(s: &str) -> (text: &str)
    ensures
        text@ == trim_start(s@),
        text@ == s@.skip(s@.len() - text@.len()),
        all_blank(s@.take(s@.len() - text@.len())),
        starts_clean(text@),
{
    let blank = classify(s);
    let start = find_content_start(blank.as_slice());
    proof {
        lemma_trim_start(s@);
    }
    split_at_char(s, start).1
}

} // verus!
