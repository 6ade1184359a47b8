//! Finding the comment delimiter in a line.

use vstd::prelude::*;

verus! {

/// The character `c` is none of the characters of `text`.
pub open spec fn free_of(text: Seq<char>, c: char) -> bool {
    forall|i: int| 0 <= i < text.len() ==> #[trigger] text[i] != c
}

/// `pattern` stands in `text` at index `i`.
pub open spec fn occurs_at(text: Seq<char>, pattern: Seq<char>, i: int) -> bool {
    &&& 0 <= i
    &&& i + pattern.len() <= text.len()
    &&& text.subrange(i, i + pattern.len()) == pattern
}

/// `pattern` stands somewhere in `text`.
pub open spec fn occurs(text: Seq<char>, pattern: Seq<char>) -> bool {
    exists|i: int| occurs_at(text, pattern, i)
}

/// `pattern` stands in `text` at index `i` and at no index before it.
pub open spec fn is_first_occurrence(text: Seq<char>, pattern: Seq<char>, i: int) -> bool {
    &&& occurs_at(text, pattern, i)
    &&& forall|j: int| 0 <= j < i ==> !occurs_at(text, pattern, j)
}

/// The first index at which `pattern` stands in `text`, if it stands in it at
/// all.
pub open spec fn first_occurrence(text: Seq<char>, pattern: Seq<char>) -> Option<int> {
    if occurs(text, pattern) {
        Some(choose|i: int| is_first_occurrence(text, pattern, i))
    } else {
        None
    }
}

/// Below an occurrence there is a first one.
proof fn lemma_least_occurrence(text: Seq<char>, pattern: Seq<char>, i: int) -> (least: int)
    requires
        occurs_at(text, pattern, i),
    ensures
        is_first_occurrence(text, pattern, least),
        least <= i,
    decreases i,
{
    if exists|j: int| 0 <= j < i && occurs_at(text, pattern, j) {
        let j = choose|j: int| 0 <= j < i && occurs_at(text, pattern, j);
        lemma_least_occurrence(text, pattern, j)
    } else {
        i
    }
}

/// `first_occurrence` is `Some(i)` exactly for the first index `i` at which the
/// pattern stands, and `None` exactly where it stands nowhere.
pub proof fn lemma_first_occurrence(text: Seq<char>, pattern: Seq<char>)
    ensures
        forall|i: int|
            first_occurrence(text, pattern) == Some(i) <==> #[trigger] is_first_occurrence(
                text,
                pattern,
                i,
            ),
        first_occurrence(text, pattern) is None <==> !occurs(text, pattern),
{
    if occurs(text, pattern) {
        let any = choose|i: int| occurs_at(text, pattern, i);
        let least = lemma_least_occurrence(text, pattern, any);
        // Two first occurrences are the same: neither stands before the other.
        let chosen = choose|i: int| is_first_occurrence(text, pattern, i);
        assert(is_first_occurrence(text, pattern, chosen));
    }
}

/// The first index at which `pattern` stands in `text`, if it stands in it at
/// all.
pub fn find(text: &[char], pattern: &[char]) -> (found: Option<usize>)
    ensures
        match found {
            Some(i) => first_occurrence(text@, pattern@) == Some(i as int) && is_first_occurrence(
                text@,
                pattern@,
                i as int,
            ),
            None => first_occurrence(text@, pattern@) is None && !occurs(text@, pattern@),
        },
{
    let n = text.len();
    let m = pattern.len();
    proof {
        lemma_first_occurrence(text@, pattern@);
    }
    if m > n {
        return None;
    }
    let mut i: usize = 0;
    while i <= n - m
        invariant
            n == text@.len(),
            m == pattern@.len(),
            m <= n,
            forall|j: int| 0 <= j < i ==> !occurs_at(text@, pattern@, j),
            forall|k: int|
                first_occurrence(text@, pattern@) == Some(k) <==> #[trigger] is_first_occurrence(
                    text@,
                    pattern@,
                    k,
                ),
            first_occurrence(text@, pattern@) is None <==> !occurs(text@, pattern@),
        decreases n - i,
    {
        let mut j: usize = 0;
        while j < m && text[i + j] == pattern[j]
            invariant
                n == text@.len(),
                m == pattern@.len(),
                i + m <= n,
                j <= m,
                forall|k: int| 0 <= k < j ==> text@[i + k] == pattern@[k],
            decreases m - j,
        {
            j = j + 1;
        }
        if j == m {
            assert(text@.subrange(i as int, i + m) =~= pattern@);
            assert(is_first_occurrence(text@, pattern@, i as int));
            return Some(i);
        }
        assert(!occurs_at(text@, pattern@, i as int)) by {
            if occurs_at(text@, pattern@, i as int) {
                assert(text@.subrange(i as int, i + m)[j as int] == pattern@[j as int]);
            }
        }
        i = i + 1;
    }
    None
}

} // verus!
