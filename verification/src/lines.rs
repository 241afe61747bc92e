//! Splitting a text into lines that keep their terminators.

use vstd::prelude::*;

verus! {

/// The contents of owned lines, each as a sequence of characters.
pub open spec fn line_texts(lines: Seq<String>) -> Seq<Seq<char>> {
    lines.map_values(|l: String| l@)
}

/// Number of characters in the first line of `s`, terminator included.
/// A line ends after `"\r\n"`, after a `'\n'`, after a `'\r'` that no `'\n'`
/// follows, or where the text ends.
pub open spec fn first_line_len(s: Seq<char>) -> nat
    decreases s.len(),
{
    if s.len() == 0 {
        0
    } else if s[0] == '\n' {
        1
    } else if s[0] == '\r' {
        if s.len() > 1 && s[1] == '\n' {
            2
        } else {
            1
        }
    } else {
        1 + first_line_len(s.skip(1))
    }
}

/// The lines of `s` in order, each with its terminator.
pub open spec fn split_lines(s: Seq<char>) -> Seq<Seq<char>>
    decreases s.len(),
    via split_lines_decreases
{
    if s.len() == 0 {
        Seq::empty()
    } else {
        let k = first_line_len(s) as int;
        seq![s.take(k)] + split_lines(s.skip(k))
    }
}

#[via_fn]
proof fn split_lines_decreases(s: Seq<char>) {
    if s.len() != 0 {
        lemma_first_line_len_bounds(s);
    }
}

/// The first line of a text that is not empty has at least one character and
/// does not reach past the text.
pub proof fn lemma_first_line_len_bounds(s: Seq<char>)
    requires
        s.len() > 0,
    ensures
        1 <= first_line_len(s) <= s.len(),
    decreases s.len(),
{
    if s[0] != '\n' && s[0] != '\r' {
        if s.len() > 1 {
            lemma_first_line_len_bounds(s.skip(1));
        } else {
            assert(first_line_len(s.skip(1)) == 0);
        }
    }
}

/// Joining the lines of a text gives the text back, character for character.
pub proof fn lemma_split_lines_joins(s: Seq<char>)
    ensures
        split_lines(s).flatten() == s,
    decreases s.len(),
{
    if s.len() == 0 {
        assert(split_lines(s).flatten() =~= s);
    } else {
        lemma_first_line_len_bounds(s);
        let k = first_line_len(s) as int;
        let head = seq![s.take(k)];
        let tail = split_lines(s.skip(k));
        lemma_split_lines_joins(s.skip(k));
        vstd::seq_lib::lemma_flatten_concat(head, tail);
        head.lemma_flatten_one_element();
        assert(s.take(k) + s.skip(k) =~= s);
    }
}

/// No line of a text is empty, and an empty text has no lines.
pub proof fn lemma_split_lines_nonempty(s: Seq<char>, i: int)
    requires
        0 <= i < split_lines(s).len(),
    ensures
        split_lines(s)[i].len() > 0,
        s.len() > 0,
    decreases s.len(),
{
    if s.len() != 0 {
        lemma_first_line_len_bounds(s);
        let k = first_line_len(s) as int;
        if i > 0 {
            lemma_split_lines_nonempty(s.skip(k), i - 1);
        }
    }
}

/// Before the end of its first line a text holds no line feed.
pub proof fn lemma_first_line_has_no_inner_feed(s: Seq<char>, j: int)
    requires
        0 <= j < first_line_len(s) - 1,
    ensures
        s[j] != '\n',
    decreases s.len(),
{
    if s.len() > 0 {
        lemma_first_line_len_bounds(s);
        if s[0] == '\r' {
            assert(j == 0);
        } else if s[0] != '\n' && j > 0 {
            lemma_first_line_has_no_inner_feed(s.skip(1), j - 1);
            assert(s.skip(1)[j - 1] == s[j]);
        }
    }
}

/// A line of a text holds a line feed at its end or nowhere.
pub proof fn lemma_line_feed_only_at_end(s: Seq<char>, i: int, j: int)
    requires
        0 <= i < split_lines(s).len(),
        0 <= j < split_lines(s)[i].len() - 1,
    ensures
        split_lines(s)[i][j] != '\n',
    decreases s.len(),
{
    if s.len() != 0 {
        lemma_first_line_len_bounds(s);
        let k = first_line_len(s) as int;
        if i == 0 {
            lemma_first_line_has_no_inner_feed(s, j);
        } else {
            lemma_line_feed_only_at_end(s.skip(k), i - 1, j);
        }
    }
}

/// Calls `similar::DiffableStr::tokenize_lines` on `text` and copies each
/// slice it returns into an owned line. The contract writes out what that
/// function does: it cuts after every `"\r\n"`, lone `'\r'` and `'\n'`, and
/// keeps what follows the last terminator as a final line if anything does.
#[verifier::external_body]
fn tokenize_lines(text: &str) -> (lines: Vec<String>)
    ensures
        line_texts(lines@) == split_lines(text@),
{
    similar::DiffableStr::tokenize_lines(text).into_iter().map(String::from).collect()
}

/// Splits `text` into its lines. Every line keeps its terminator, so the
/// lines joined in order are the text again.
pub fn lines_of(text: &str) -> (lines: Vec<String>)
    ensures
        line_texts(lines@) == split_lines(text@),
        line_texts(lines@).flatten() == text@,
{
    proof {
        lemma_split_lines_joins(text@);
    }
    tokenize_lines(text)
}

} // verus!
