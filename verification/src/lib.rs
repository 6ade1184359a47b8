//! Aligns trailing line comments: within each run of consecutive commented
//! lines, the comment delimiters are moved to a common column, one space
//! after the widest code of the run.
//!
//! ```text
//! hello // this_is_a_comment          hello // this_is_a_comment
//! you // this_is_also_a_comment   =>  you   // this_is_also_a_comment
//! ```
//!
//! [`align_comments::align_comments`] does the whole work on a text;
//! [`align_comments::split_text_and_comments`] and [`align_comments::pad_text`]
//! are its two steps. Their contracts say what comes out, over sequences of
//! characters, and [`align_comments::laws`] holds what follows from them.
//!
//! Everything here is proved, from what `vstd` states of `str`, `String`,
//! slices and `Vec`, but for one contract that is believed: that of
//! `char::is_whitespace`, in [`align_comments::modify_whitespace`]. Which
//! characters are whitespace is left to the standard library.

pub mod align_comments;
