//! The unified format: file header, hunk headers and marked lines.

use vstd::prelude::*;

use crate::hunks::hunk_runs;
use crate::lines::{lemma_line_feed_only_at_end, line_texts, split_lines};
use crate::ops::{contiguous, lemma_spans_bounds, lemma_spans_without_last, EditOp};

verus! {

/// The decimal digit `d` as text.
pub open spec fn digit_text(d: int) -> Seq<char> {
    if d == 0 {
        "0"@
    } else if d == 1 {
        "1"@
    } else if d == 2 {
        "2"@
    } else if d == 3 {
        "3"@
    } else if d == 4 {
        "4"@
    } else if d == 5 {
        "5"@
    } else if d == 6 {
        "6"@
    } else if d == 7 {
        "7"@
    } else if d == 8 {
        "8"@
    } else {
        "9"@
    }
}

/// `n` in decimal, without sign or leading zeros.
pub open spec fn decimal(n: nat) -> Seq<char>
    decreases n,
{
    if n < 10 {
        digit_text(n as int)
    } else {
        decimal(n / 10) + digit_text((n % 10) as int)
    }
}

/// Whether a line ends in a line feed.
pub open spec fn ends_in_line_feed(line: Seq<char>) -> bool {
    line.len() > 0 && line.last() == '\n'
}

/// A line as it stands in a hunk: as it is if it ends in a line feed, and
/// with a line feed behind it if not, so that whatever follows starts a line
/// of its own.
pub open spec fn closed_line(line: Seq<char>) -> Seq<char> {
    if ends_in_line_feed(line) {
        line
    } else {
        line + "\n"@
    }
}

/// The lines of `lines` one after the other, each behind `marker` and each
/// closed by a line feed.
pub open spec fn marked_lines(marker: Seq<char>, lines: Seq<Seq<char>>) -> Seq<char>
    decreases lines.len(),
{
    if lines.len() == 0 {
        Seq::empty()
    } else {
        marked_lines(marker, lines.drop_last()) + marker + closed_line(lines.last())
    }
}

/// A text that is one line of output: it ends in a line feed and holds no
/// other.
pub open spec fn is_one_line(text: Seq<char>) -> bool {
    &&& ends_in_line_feed(text)
    &&& forall|j: int| 0 <= j < text.len() - 1 ==> text[j] != '\n'
}

/// A line that holds a line feed at its end or nowhere stands, behind a
/// marker without line feed, on one line of output, and that line starts as
/// the marker does.
pub proof fn lemma_marked_line_is_one_line(marker: Seq<char>, line: Seq<char>)
    requires
        forall|j: int| 0 <= j < marker.len() ==> marker[j] != '\n',
        forall|j: int| 0 <= j < line.len() - 1 ==> line[j] != '\n',
    ensures
        is_one_line(marker + closed_line(line)),
        (marker + closed_line(line)).subrange(0, marker.len() as int) == marker,
{
    reveal_strlit("\n");
    let row = marker + closed_line(line);
    assert forall|j: int| 0 <= j < row.len() - 1 implies row[j] != '\n' by {
        if j >= marker.len() {
            let at = j - marker.len();
            if !ends_in_line_feed(line) && at < line.len() {
                assert(closed_line(line)[at] == line[at]);
            }
        }
    }
    assert(row.subrange(0, marker.len() as int) =~= marker);
}

/// Every line of a text stands in a hunk on one line of output, whether it
/// is kept, removed or added.
pub proof fn lemma_text_line_is_one_line(text: Seq<char>, i: int)
    requires
        0 <= i < split_lines(text).len(),
    ensures
        is_one_line(" "@ + closed_line(split_lines(text)[i])),
        is_one_line("-"@ + closed_line(split_lines(text)[i])),
        is_one_line("+"@ + closed_line(split_lines(text)[i])),
{
    reveal_strlit(" ");
    reveal_strlit("-");
    reveal_strlit("+");
    let line = split_lines(text)[i];
    assert forall|j: int| 0 <= j < line.len() - 1 implies line[j] != '\n' by {
        lemma_line_feed_only_at_end(text, i, j);
    }
    lemma_marked_line_is_one_line(" "@, line);
    lemma_marked_line_is_one_line("-"@, line);
    lemma_marked_line_is_one_line("+"@, line);
}

/// The lines of one operation as they stand in a hunk: unchanged lines behind
/// a blank, removed lines behind `-`, added lines behind `+`; a replacement
/// gives the removed lines first.
pub open spec fn op_text(op: EditOp, old: Seq<Seq<char>>, new: Seq<Seq<char>>) -> Seq<char> {
    match op {
        EditOp::Equal { .. } => marked_lines(" "@, old.subrange(op.old_start(), op.old_end())),
        EditOp::Delete { .. } => marked_lines("-"@, old.subrange(op.old_start(), op.old_end())),
        EditOp::Insert { .. } => marked_lines("+"@, new.subrange(op.new_start(), op.new_end())),
        EditOp::Replace { .. } => marked_lines("-"@, old.subrange(op.old_start(), op.old_end()))
            + marked_lines("+"@, new.subrange(op.new_start(), op.new_end())),
    }
}

/// The lines of a run of operations, in order.
pub open spec fn ops_text(ops: Seq<EditOp>, old: Seq<Seq<char>>, new: Seq<Seq<char>>) -> Seq<char>
    decreases ops.len(),
{
    if ops.len() == 0 {
        Seq::empty()
    } else {
        ops_text(ops.drop_last(), old, new) + op_text(ops.last(), old, new)
    }
}

/// Where a hunk stands: the zero-based position that it reports on either
/// side and the number of lines it holds there.
#[derive(Clone, Copy, Debug, PartialEq, Eq, Structural)]
pub struct HunkHeader {
    pub old_start: usize,
    pub old_len: usize,
    pub new_start: usize,
    pub new_len: usize,
}

/// The header line of a hunk. Positions are written one-based, also where a
/// side spans no lines.
pub open spec fn header_text(header: HunkHeader) -> Seq<char> {
    "@@ -"@ + decimal((header.old_start + 1) as nat) + ","@ + decimal(header.old_len as nat) + " +"@
        + decimal((header.new_start + 1) as nat) + ","@ + decimal(header.new_len as nat)
        + " @@\n"@
}

/// Whether a hunk is an insertion somewhere below the top: it holds no old
/// lines, and old lines come before it.
pub open spec fn inserts_below_top(hunk: Seq<EditOp>) -> bool {
    hunk.last().old_end() == hunk[0].old_start() && hunk[0].old_start() > 0
}

/// The old-side start that the header of a hunk reports. That is where the
/// hunk's first operation stands. An insertion below the top has no old line
/// of its own to name, and reports the old line before it.
pub open spec fn reported_old_start(hunk: Seq<EditOp>) -> int {
    if inserts_below_top(hunk) {
        hunk[0].old_start() - 1
    } else {
        hunk[0].old_start()
    }
}

/// The header that belongs to a hunk.
pub open spec fn header_of(hunk: Seq<EditOp>) -> HunkHeader {
    HunkHeader {
        old_start: reported_old_start(hunk) as usize,
        old_len: (hunk.last().old_end() - hunk[0].old_start()) as usize,
        new_start: hunk[0].new_start() as usize,
        new_len: (hunk.last().new_end() - hunk[0].new_start()) as usize,
    }
}

/// A hunk as text: its header line, then its lines.
pub open spec fn hunk_text(hunk: Seq<EditOp>, old: Seq<Seq<char>>, new: Seq<Seq<char>>) -> Seq<
    char,
> {
    header_text(header_of(hunk)) + ops_text(hunk, old, new)
}

/// The hunks as text, in order.
pub open spec fn hunks_text(hunks: Seq<Seq<EditOp>>, old: Seq<Seq<char>>, new: Seq<Seq<char>>) -> Seq<
    char,
>
    decreases hunks.len(),
{
    if hunks.len() == 0 {
        Seq::empty()
    } else {
        hunks_text(hunks.drop_last(), old, new) + hunk_text(hunks.last(), old, new)
    }
}

/// The two lines that name the old and the new file.
pub open spec fn file_header_text(old_label: Seq<char>, new_label: Seq<char>) -> Seq<char> {
    "--- a/"@ + old_label + "\n"@ + "+++ b/"@ + new_label + "\n"@
}

/// A whole unified diff: the file header, then the hunks.
pub open spec fn unified_text(
    old_label: Seq<char>,
    new_label: Seq<char>,
    hunks: Seq<Seq<EditOp>>,
    old: Seq<Seq<char>>,
    new: Seq<Seq<char>>,
) -> Seq<char> {
    file_header_text(old_label, new_label) + hunks_text(hunks, old, new)
}

/// Number of old-side lines that a run of operations holds.
pub open spec fn old_line_count(ops: Seq<EditOp>) -> int
    decreases ops.len(),
{
    if ops.len() == 0 {
        0
    } else {
        old_line_count(ops.drop_last()) + ops.last().old_span()
    }
}

/// Number of new-side lines that a run of operations holds.
pub open spec fn new_line_count(ops: Seq<EditOp>) -> int
    decreases ops.len(),
{
    if ops.len() == 0 {
        0
    } else {
        new_line_count(ops.drop_last()) + ops.last().new_span()
    }
}

/// A run of operations without gaps ends as many lines past its start as its
/// operations hold, on either side.
pub proof fn lemma_run_length(ops: Seq<EditOp>)
    requires
        ops.len() > 0,
        contiguous(ops),
    ensures
        ops.last().old_end() - ops[0].old_start() == old_line_count(ops),
        ops.last().new_end() - ops[0].new_start() == new_line_count(ops),
    decreases ops.len(),
{
    let rest = ops.drop_last();
    if rest.len() == 0 {
        assert(old_line_count(rest) == 0);
        assert(new_line_count(rest) == 0);
    } else {
        lemma_spans_without_last(
            ops,
            ops[0].old_start(),
            ops[0].new_start(),
            ops.last().old_end(),
            ops.last().new_end(),
        );
        lemma_run_length(rest);
        assert(rest[0] == ops[0]);
    }
}

/// The header of a hunk holds the numbers of old and of new lines of the
/// hunk. On the new side its start and length add up to where the hunk's last
/// operation ends. On the old side they do so too, unless the hunk is an
/// insertion below the top: that one reports the line before it.
pub proof fn lemma_header_reaches_end(hunk: Seq<EditOp>)
    requires
        hunk.len() > 0,
        contiguous(hunk),
        hunk.last().old_end() <= usize::MAX,
        hunk.last().new_end() <= usize::MAX,
    ensures
        header_of(hunk).new_start == hunk[0].new_start(),
        header_of(hunk).new_start + header_of(hunk).new_len == hunk.last().new_end(),
        header_of(hunk).old_len == old_line_count(hunk),
        header_of(hunk).new_len == new_line_count(hunk),
        !inserts_below_top(hunk) ==> header_of(hunk).old_start == hunk[0].old_start()
            && header_of(hunk).old_start + header_of(hunk).old_len == hunk.last().old_end(),
        inserts_below_top(hunk) ==> header_of(hunk).old_start + 1 == hunk[0].old_start()
            && header_of(hunk).old_len == 0,
{
    lemma_spans_bounds(
        hunk,
        hunk[0].old_start(),
        hunk[0].new_start(),
        hunk.last().old_end(),
        hunk.last().new_end(),
        0,
    );
    lemma_run_length(hunk);
}

/// A hunk that can be written out against sides of `old_count` and
/// `new_count` lines: it is not empty, has no gaps and ends within both sides.
pub open spec fn hunk_in_bounds(hunk: Seq<EditOp>, old_count: int, new_count: int) -> bool {
    &&& hunk.len() > 0
    &&& contiguous(hunk)
    &&& hunk.last().old_end() <= old_count
    &&& hunk.last().new_end() <= new_count
}

/// Computes the header of a hunk from its first and its last operation.
pub fn hunk_header(hunk: &Vec<EditOp>) -> (header: HunkHeader)
    requires
        hunk.len() > 0,
        contiguous(hunk@),
        hunk@.last().old_end() <= usize::MAX,
        hunk@.last().new_end() <= usize::MAX,
    ensures
        header == header_of(hunk@),
        header.new_start == hunk@[0].new_start(),
        header.new_start + header.new_len == hunk@.last().new_end(),
        header.old_len == old_line_count(hunk@),
        header.new_len == new_line_count(hunk@),
        !inserts_below_top(hunk@) ==> header.old_start == hunk@[0].old_start()
            && header.old_start + header.old_len == hunk@.last().old_end(),
        inserts_below_top(hunk@) ==> header.old_start + 1 == hunk@[0].old_start()
            && header.old_len == 0,
{
    proof {
        lemma_header_reaches_end(hunk@);
    }
    let first = hunk[0];
    let last = hunk[hunk.len() - 1];
    let old_at: usize = first.old_index();
    let new_at: usize = first.new_index();
    let old_end: usize = last.old_index() + last.old_len();
    let new_end: usize = last.new_index() + last.new_len();
    let old_start: usize = if old_end == old_at && old_at > 0 {
        old_at - 1
    } else {
        old_at
    };
    HunkHeader { old_start, old_len: old_end - old_at, new_start: new_at, new_len: new_end - new_at }
}

fn digit_str(d: u8) -> (s: &'static str)
    requires
        d < 10,
    ensures
        s@ == digit_text(d as int),
{
    match d {
        0 => "0",
        1 => "1",
        2 => "2",
        3 => "3",
        4 => "4",
        5 => "5",
        6 => "6",
        7 => "7",
        8 => "8",
        _ => "9",
    }
}

/// Appends `n` in decimal to `out`.
pub fn push_decimal(out: &mut String, n: u128)
    ensures
        final(out)@ == old(out)@ + decimal(n as nat),
    decreases n,
{
    if n >= 10 {
        push_decimal(out, n / 10);
    }
    out.append(digit_str((n % 10) as u8));
    proof {
        let before = old(out)@;
        if n >= 10 {
            assert(before + decimal((n / 10) as nat) + digit_text((n % 10) as int) =~= before + (
            decimal((n / 10) as nat) + digit_text((n % 10) as int)));
        }
    }
}

/// Appends the header line of a hunk to `out`.
pub fn push_header(out: &mut String, header: HunkHeader)
    ensures
        final(out)@ == old(out)@ + header_text(header),
{
    let ghost before = out@;
    out.append("@@ -");
    push_decimal(out, header.old_start as u128 + 1);
    out.append(",");
    push_decimal(out, header.old_len as u128);
    out.append(" +");
    push_decimal(out, header.new_start as u128 + 1);
    out.append(",");
    push_decimal(out, header.new_len as u128);
    out.append(" @@\n");
    assert(out@ =~= before + header_text(header));
}

/// Tells whether `line` ends in a line feed.
pub fn line_feed_ends(line: &str) -> (ends: bool)
    ensures
        ends == ends_in_line_feed(line@),
{
    let count: usize = line.unicode_len();
    count > 0 && line.get_char(count - 1) == '\n'
}

/// Appends `line` to `out`, and a line feed where the line does not end in
/// one.
pub fn push_closed_line(out: &mut String, line: &str)
    ensures
        final(out)@ == old(out)@ + closed_line(line@),
{
    let ghost before = out@;
    out.append(line);
    if !line_feed_ends(line) {
        out.append("\n");
        assert(out@ =~= before + closed_line(line@));
    }
}

/// Appends `len` lines of `lines` from `from` on to `out`, each behind
/// `marker` and each closed by a line feed.
pub fn push_marked_lines(out: &mut String, marker: &str, lines: &Vec<String>, from: usize, len: usize)
    requires
        from + len <= lines.len(),
    ensures
        final(out)@ == old(out)@ + marked_lines(
            marker@,
            line_texts(lines@).subrange(from as int, from + len),
        ),
{
    let ghost before = out@;
    let ghost texts = line_texts(lines@);
    let mut j: usize = 0;
    while j < len
        invariant
            j <= len,
            from + len <= lines.len(),
            texts == line_texts(lines@),
            out@ == before + marked_lines(marker@, texts.subrange(from as int, from + j)),
        decreases len - j,
    {
        out.append(marker);
        push_closed_line(out, lines[from + j].as_str());
        proof {
            let grown = texts.subrange(from as int, from + j + 1);
            assert(grown.drop_last() =~= texts.subrange(from as int, from + j));
            assert(grown.last() == lines@[from + j]@);
            assert(out@ =~= before + marked_lines(marker@, grown));
        }
        j += 1;
    }
}

/// Appends the lines of one operation to `out`.
pub fn push_op(out: &mut String, op: EditOp, old_lines: &Vec<String>, new_lines: &Vec<String>)
    requires
        op.old_end() <= old_lines.len(),
        op.new_end() <= new_lines.len(),
    ensures
        final(out)@ == old(out)@ + op_text(op, line_texts(old_lines@), line_texts(new_lines@)),
{
    let ghost before = out@;
    match op {
        EditOp::Equal { old_index, len, .. } => {
            push_marked_lines(out, " ", old_lines, old_index, len);
        },
        EditOp::Delete { old_index, old_len, .. } => {
            push_marked_lines(out, "-", old_lines, old_index, old_len);
        },
        EditOp::Insert { new_index, new_len, .. } => {
            push_marked_lines(out, "+", new_lines, new_index, new_len);
        },
        EditOp::Replace { old_index, old_len, new_index, new_len } => {
            push_marked_lines(out, "-", old_lines, old_index, old_len);
            push_marked_lines(out, "+", new_lines, new_index, new_len);
            assert(out@ =~= before + op_text(op, line_texts(old_lines@), line_texts(new_lines@)));
        },
    }
}

/// Appends a hunk to `out`: its header line, then its lines.
pub fn push_hunk(out: &mut String, hunk: &Vec<EditOp>, old_lines: &Vec<String>, new_lines: &Vec<String>)
    requires
        hunk_in_bounds(hunk@, old_lines.len() as int, new_lines.len() as int),
    ensures
        final(out)@ == old(out)@ + hunk_text(hunk@, line_texts(old_lines@), line_texts(new_lines@)),
{
    let ghost before = out@;
    let ghost old_texts = line_texts(old_lines@);
    let ghost new_texts = line_texts(new_lines@);
    push_header(out, hunk_header(hunk));
    let ghost headed = out@;
    let mut i: usize = 0;
    while i < hunk.len()
        invariant
            i <= hunk.len(),
            hunk_in_bounds(hunk@, old_lines.len() as int, new_lines.len() as int),
            old_texts == line_texts(old_lines@),
            new_texts == line_texts(new_lines@),
            out@ == headed + ops_text(hunk@.take(i as int), old_texts, new_texts),
        decreases hunk.len() - i,
    {
        proof {
            lemma_spans_bounds(
                hunk@,
                hunk@[0].old_start(),
                hunk@[0].new_start(),
                hunk@.last().old_end(),
                hunk@.last().new_end(),
                i as int,
            );
        }
        push_op(out, hunk[i], old_lines, new_lines);
        proof {
            let grown = hunk@.take(i + 1);
            assert(grown.drop_last() =~= hunk@.take(i as int));
            assert(out@ =~= headed + ops_text(grown, old_texts, new_texts));
        }
        i += 1;
    }
    assert(hunk@.take(hunk.len() as int) =~= hunk@);
    assert(out@ =~= before + hunk_text(hunk@, old_texts, new_texts));
}

/// Writes a unified diff: the two file header lines with their labels, then
/// every hunk with its header and its lines.
pub fn format_unified(
    old_label: &str,
    new_label: &str,
    hunks: &Vec<Vec<EditOp>>,
    old_lines: &Vec<String>,
    new_lines: &Vec<String>,
) -> (text: String)
    requires
        forall|k: int|
            0 <= k < hunks.len() ==> hunk_in_bounds(
                (#[trigger] hunks@[k])@,
                old_lines.len() as int,
                new_lines.len() as int,
            ),
    ensures
        text@ == unified_text(
            old_label@,
            new_label@,
            hunk_runs(hunks@),
            line_texts(old_lines@),
            line_texts(new_lines@),
        ),
{
    let ghost hs = hunk_runs(hunks@);
    let ghost old_texts = line_texts(old_lines@);
    let ghost new_texts = line_texts(new_lines@);
    let mut out = String::new();
    out.append("--- a/");
    out.append(old_label);
    out.append("\n");
    out.append("+++ b/");
    out.append(new_label);
    out.append("\n");
    assert(out@ =~= file_header_text(old_label@, new_label@));
    let ghost headed = out@;
    let mut k: usize = 0;
    while k < hunks.len()
        invariant
            k <= hunks.len(),
            hs == hunk_runs(hunks@),
            old_texts == line_texts(old_lines@),
            new_texts == line_texts(new_lines@),
            forall|j: int|
                0 <= j < hunks.len() ==> hunk_in_bounds(
                    (#[trigger] hunks@[j])@,
                    old_lines.len() as int,
                    new_lines.len() as int,
                ),
            out@ == headed + hunks_text(hs.take(k as int), old_texts, new_texts),
        decreases hunks.len() - k,
    {
        push_hunk(&mut out, &hunks[k], old_lines, new_lines);
        proof {
            let grown = hs.take(k + 1);
            assert(grown.drop_last() =~= hs.take(k as int));
            assert(grown.last() == hunks@[k as int]@);
            assert(out@ =~= headed + hunks_text(grown, old_texts, new_texts));
        }
        k += 1;
    }
    assert(hs.take(hunks.len() as int) =~= hs);
    out
}

} // verus!
