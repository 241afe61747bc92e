//! The line-level edit distance, and what it says of edit scripts.

use vstd::prelude::*;

use crate::engine::{accepted_script, edit_script};
use crate::lines::line_texts;
use crate::ops::{
    changed_lines, check_script, is_edit_script, joins_equal_lines, lemma_spans_bounds,
    lemma_spans_without_last, spans, EditOp,
};

verus! {

/// Length of a longest common subsequence of two sequences of lines.
pub open spec fn lcs_len(a: Seq<Seq<char>>, b: Seq<Seq<char>>) -> nat
    decreases a.len() + b.len(),
{
    if a.len() == 0 || b.len() == 0 {
        0
    } else if a.last() == b.last() {
        1 + lcs_len(a.drop_last(), b.drop_last())
    } else {
        let without_a = lcs_len(a.drop_last(), b);
        let without_b = lcs_len(a, b.drop_last());
        if without_a >= without_b {
            without_a
        } else {
            without_b
        }
    }
}

/// The least number of lines to delete from `a` and to insert to arrive at
/// `b`: all lines of both but those of a longest common subsequence.
pub open spec fn edit_distance(a: Seq<Seq<char>>, b: Seq<Seq<char>>) -> int {
    a.len() + b.len() - 2 * lcs_len(a, b)
}

/// Number of lines that the operations leave as they are.
pub open spec fn unchanged_lines(ops: Seq<EditOp>) -> int
    decreases ops.len(),
{
    if ops.len() == 0 {
        0
    } else {
        unchanged_lines(ops.drop_last()) + (if ops.last().is_change() {
            0
        } else {
            ops.last().old_span()
        })
    }
}

/// Dropping the last line of either side shortens a longest common
/// subsequence by one line at most, and never lengthens it.
pub proof fn lemma_lcs_steps(a: Seq<Seq<char>>, b: Seq<Seq<char>>)
    ensures
        a.len() > 0 ==> lcs_len(a.drop_last(), b) <= lcs_len(a, b) <= 1 + lcs_len(a.drop_last(), b),
        b.len() > 0 ==> lcs_len(a, b.drop_last()) <= lcs_len(a, b) <= 1 + lcs_len(a, b.drop_last()),
    decreases a.len() + b.len(),
{
    if a.len() > 0 && b.len() > 0 {
        lemma_lcs_steps(a.drop_last(), b);
        lemma_lcs_steps(a, b.drop_last());
    }
}

/// A longest common subsequence is no longer than either side.
pub proof fn lemma_lcs_bounded(a: Seq<Seq<char>>, b: Seq<Seq<char>>)
    ensures
        lcs_len(a, b) <= a.len(),
        lcs_len(a, b) <= b.len(),
    decreases a.len() + b.len(),
{
    if a.len() > 0 && b.len() > 0 {
        lemma_lcs_bounded(a.drop_last(), b.drop_last());
        lemma_lcs_bounded(a.drop_last(), b);
        lemma_lcs_bounded(a, b.drop_last());
    }
}

/// A longer start of the old side has a common subsequence at least as long.
pub proof fn lemma_lcs_grows_with_old(a: Seq<Seq<char>>, b: Seq<Seq<char>>, i: int, j: int)
    requires
        0 <= i <= j <= a.len(),
    ensures
        lcs_len(a.take(i), b) <= lcs_len(a.take(j), b),
    decreases j - i,
{
    if i < j {
        lemma_lcs_grows_with_old(a, b, i, j - 1);
        lemma_lcs_steps(a.take(j), b);
        assert(a.take(j).drop_last() =~= a.take(j - 1));
    }
}

/// A longer start of the new side has a common subsequence at least as long.
pub proof fn lemma_lcs_grows_with_new(a: Seq<Seq<char>>, b: Seq<Seq<char>>, i: int, j: int)
    requires
        0 <= i <= j <= b.len(),
    ensures
        lcs_len(a, b.take(i)) <= lcs_len(a, b.take(j)),
    decreases j - i,
{
    if i < j {
        lemma_lcs_grows_with_new(a, b, i, j - 1);
        lemma_lcs_steps(a, b.take(j));
        assert(b.take(j).drop_last() =~= b.take(j - 1));
    }
}

/// Where the last `len` lines before two positions are the same on both
/// sides, they lengthen a longest common subsequence by `len`.
pub proof fn lemma_lcs_common_tail(
    a: Seq<Seq<char>>,
    b: Seq<Seq<char>>,
    a_to: int,
    b_to: int,
    len: int,
)
    requires
        0 <= len <= a_to <= a.len(),
        len <= b_to <= b.len(),
        forall|j: int| 0 <= j < len ==> #[trigger] a[a_to - len + j] == b[b_to - len + j],
    ensures
        lcs_len(a.take(a_to), b.take(b_to)) == len + lcs_len(
            a.take(a_to - len),
            b.take(b_to - len),
        ),
    decreases len,
{
    if len > 0 {
        assert(a[a_to - len + (len - 1)] == b[b_to - len + (len - 1)]);
        assert(a.take(a_to).last() == a[a_to - 1]);
        assert(b.take(b_to).last() == b[b_to - 1]);
        assert(a.take(a_to).drop_last() =~= a.take(a_to - 1));
        assert(b.take(b_to).drop_last() =~= b.take(b_to - 1));
        assert forall|j: int| 0 <= j < len - 1 implies #[trigger] a[(a_to - 1) - (len - 1) + j]
            == b[(b_to - 1) - (len - 1) + j] by {
            assert(a[a_to - len + j] == b[b_to - len + j]);
        }
        lemma_lcs_common_tail(a, b, a_to - 1, b_to - 1, len - 1);
    }
}

/// The lines of a run of operations are its changed lines and, once for each
/// side, its unchanged lines.
pub proof fn lemma_lines_split(ops: Seq<EditOp>, old_to: int, new_to: int)
    requires
        spans(ops, 0, 0, old_to, new_to),
    ensures
        changed_lines(ops) + 2 * unchanged_lines(ops) == old_to + new_to,
        0 <= unchanged_lines(ops) <= old_to,
        0 <= changed_lines(ops),
    decreases ops.len(),
{
    if ops.len() > 0 {
        lemma_spans_without_last(ops, 0, 0, old_to, new_to);
        lemma_lines_split(ops.drop_last(), ops.last().old_start(), ops.last().new_start());
    }
}

/// What a run of operations from the top leaves unchanged is a common
/// subsequence of the lines it has passed, so it is no longer than a longest
/// one.
pub proof fn lemma_unchanged_within_lcs(
    ops: Seq<EditOp>,
    old: Seq<Seq<char>>,
    new: Seq<Seq<char>>,
    old_to: int,
    new_to: int,
)
    requires
        spans(ops, 0, 0, old_to, new_to),
        old_to <= old.len(),
        new_to <= new.len(),
        forall|i: int| 0 <= i < ops.len() ==> joins_equal_lines(#[trigger] ops[i], old, new),
    ensures
        unchanged_lines(ops) <= lcs_len(old.take(old_to), new.take(new_to)),
    decreases ops.len(),
{
    if ops.len() > 0 {
        let last = ops.last();
        let rest = ops.drop_last();
        lemma_spans_without_last(ops, 0, 0, old_to, new_to);
        lemma_spans_bounds(ops, 0, 0, old_to, new_to, ops.len() - 1);
        assert forall|i: int| 0 <= i < rest.len() implies joins_equal_lines(
            #[trigger] rest[i],
            old,
            new,
        ) by {
            assert(rest[i] == ops[i]);
        }
        lemma_unchanged_within_lcs(rest, old, new, last.old_start(), last.new_start());
        if last is Equal {
            assert(joins_equal_lines(ops[ops.len() - 1], old, new));
            let len = last.old_span();
            assert forall|j: int| 0 <= j < len implies #[trigger] old[old_to - len + j]
                == new[new_to - len + j] by {
                assert(old[last.old_start() + j] == new[last.new_start() + j]);
            }
            lemma_lcs_common_tail(old, new, old_to, new_to, len);
        } else {
            lemma_lcs_grows_with_old(old, new.take(last.new_start()), last.old_start(), old_to);
            lemma_lcs_grows_with_new(old.take(old_to), new, last.new_start(), new_to);
        }
    }
}

/// No edit script between two sequences of lines changes fewer lines than
/// their edit distance.
pub proof fn lemma_script_costs_the_distance(
    ops: Seq<EditOp>,
    old: Seq<Seq<char>>,
    new: Seq<Seq<char>>,
)
    requires
        is_edit_script(ops, old, new),
    ensures
        changed_lines(ops) >= edit_distance(old, new),
        changed_lines(ops) == edit_distance(old, new) <==> unchanged_lines(ops) == lcs_len(old, new),
{
    lemma_lines_split(ops, old.len() as int, new.len() as int);
    lemma_unchanged_within_lcs(ops, old, new, old.len() as int, new.len() as int);
    assert(old.take(old.len() as int) =~= old);
    assert(new.take(new.len() as int) =~= new);
}

/// An edit script stays an edit script when one more operation follows it
/// that starts where the script ends, calls equal only what is equal and
/// holds a line if it is a change, and the sides grow by the lines of that
/// operation.
pub proof fn lemma_script_grows(
    ops: Seq<EditOp>,
    op: EditOp,
    old: Seq<Seq<char>>,
    new: Seq<Seq<char>>,
    longer_old: Seq<Seq<char>>,
    longer_new: Seq<Seq<char>>,
)
    requires
        is_edit_script(ops, old, new),
        op.old_start() == old.len(),
        op.new_start() == new.len(),
        op.old_end() == longer_old.len(),
        op.new_end() == longer_new.len(),
        longer_old.take(old.len() as int) == old,
        longer_new.take(new.len() as int) == new,
        joins_equal_lines(op, longer_old, longer_new),
        op.is_change() ==> op.holds_lines(),
    ensures
        is_edit_script(ops.push(op), longer_old, longer_new),
        changed_lines(ops.push(op)) == changed_lines(ops) + (if op.is_change() {
            op.old_span() + op.new_span()
        } else {
            0
        }),
{
    let grown = ops.push(op);
    assert(grown.drop_last() =~= ops);
    assert forall|i: int| 0 <= i < grown.len() implies joins_equal_lines(
        #[trigger] grown[i],
        longer_old,
        longer_new,
    ) by {
        if i < ops.len() {
            assert(grown[i] == ops[i]);
            assert(joins_equal_lines(ops[i], old, new));
            lemma_spans_bounds(ops, 0, 0, old.len() as int, new.len() as int, i);
            if let EditOp::Equal { old_index, new_index, len } = ops[i] {
                assert forall|j: int| 0 <= j < len implies #[trigger] longer_old[old_index + j]
                    == longer_new[new_index + j] by {
                    assert(old[old_index + j] == new[new_index + j]);
                    assert(old[old_index + j] == longer_old[old_index + j]);
                    assert(new[new_index + j] == longer_new[new_index + j]);
                }
            }
        }
    }
    assert forall|i: int| 0 < i < grown.len() implies (#[trigger] grown[i]).old_start() == grown[i
        - 1].old_end() && grown[i].new_start() == grown[i - 1].new_end() by {
        if i < ops.len() {
            assert(grown[i] == ops[i]);
            assert(grown[i - 1] == ops[i - 1]);
        } else {
            assert(grown[i - 1] == ops.last());
        }
    }
}

/// Between any two sequences of lines there is an edit script that changes
/// exactly as many lines as their edit distance.
pub proof fn lemma_distance_is_reached(old: Seq<Seq<char>>, new: Seq<Seq<char>>) -> (ops: Seq<
    EditOp,
>)
    requires
        old.len() <= usize::MAX,
        new.len() <= usize::MAX,
    ensures
        is_edit_script(ops, old, new),
        changed_lines(ops) == edit_distance(old, new),
    decreases old.len() + new.len(),
{
    let m = old.len() as usize;
    let n = new.len() as usize;
    let none = Seq::<EditOp>::empty();
    if m == 0 && n == 0 {
        none
    } else if m == 0 {
        let op = EditOp::Insert { old_index: 0, new_index: 0, new_len: n };
        assert(old.take(0) =~= old);
        assert(new.take(0) =~= Seq::<Seq<char>>::empty());
        lemma_script_grows(none, op, old, Seq::empty(), old, new);
        none.push(op)
    } else if n == 0 {
        let op = EditOp::Delete { old_index: 0, old_len: m, new_index: 0 };
        assert(old.take(0) =~= Seq::<Seq<char>>::empty());
        assert(new.take(0) =~= new);
        lemma_script_grows(none, op, Seq::empty(), new, old, new);
        none.push(op)
    } else if old.last() == new.last() {
        let shorter = lemma_distance_is_reached(old.drop_last(), new.drop_last());
        let op = EditOp::Equal { old_index: (m - 1) as usize, new_index: (n - 1) as usize, len: 1 };
        assert(old.take(m - 1) =~= old.drop_last());
        assert(new.take(n - 1) =~= new.drop_last());
        lemma_script_grows(shorter, op, old.drop_last(), new.drop_last(), old, new);
        shorter.push(op)
    } else if lcs_len(old.drop_last(), new) >= lcs_len(old, new.drop_last()) {
        let shorter = lemma_distance_is_reached(old.drop_last(), new);
        let op = EditOp::Delete { old_index: (m - 1) as usize, old_len: 1, new_index: n };
        assert(old.take(m - 1) =~= old.drop_last());
        assert(new.take(n as int) =~= new);
        lemma_script_grows(shorter, op, old.drop_last(), new, old, new);
        shorter.push(op)
    } else {
        let shorter = lemma_distance_is_reached(old, new.drop_last());
        let op = EditOp::Insert { old_index: m, new_index: (n - 1) as usize, new_len: 1 };
        assert(old.take(m as int) =~= old);
        assert(new.take(n - 1) =~= new.drop_last());
        lemma_script_grows(shorter, op, old, new.drop_last(), old, new);
        shorter.push(op)
    }
}

/// The first operations of a run from the top are a run from the top to
/// where the last of them ends.
pub proof fn lemma_spans_start(ops: Seq<EditOp>, old_to: int, new_to: int, count: int)
    requires
        spans(ops, 0, 0, old_to, new_to),
        0 < count <= ops.len(),
    ensures
        spans(ops.take(count), 0, 0, ops[count - 1].old_end(), ops[count - 1].new_end()),
{
    let start = ops.take(count);
    assert forall|i: int| 0 < i < start.len() implies (#[trigger] start[i]).old_start() == start[i
        - 1].old_end() && start[i].new_start() == start[i - 1].new_end() by {
        assert(start[i] == ops[i]);
        assert(start[i - 1] == ops[i - 1]);
    }
    assert(start[0] == ops[0]);
    assert(start.last() == ops[count - 1]);
}

/// Where two sequences of lines start with the same line, that line
/// lengthens a longest common subsequence of what follows by one.
pub proof fn lemma_lcs_common_first(a: Seq<Seq<char>>, b: Seq<Seq<char>>)
    requires
        a.len() > 0,
        b.len() > 0,
        a[0] == b[0],
    ensures
        lcs_len(a, b) == 1 + lcs_len(a.skip(1), b.skip(1)),
    decreases a.len() + b.len(),
{
    let a_rest = a.skip(1);
    let b_rest = b.skip(1);
    let a_start = a.drop_last();
    let b_start = b.drop_last();
    if a.len() == 1 && b.len() == 1 {
        assert(a.last() == a[0]);
        assert(b.last() == b[0]);
        assert(lcs_len(a_start, b_start) == 0);
        assert(lcs_len(a_rest, b_rest) == 0);
    } else if a.len() == 1 {
        assert(lcs_len(a_rest, b_rest) == 0);
        assert(lcs_len(a_start, b_start) == 0);
        assert(lcs_len(a_start, b) == 0);
        if a.last() != b.last() {
            assert(b_start[0] == b[0]);
            lemma_lcs_common_first(a, b_start);
            assert(lcs_len(a_rest, b_start.skip(1)) == 0);
        }
    } else if b.len() == 1 {
        assert(lcs_len(a_rest, b_rest) == 0);
        assert(lcs_len(a_start, b_start) == 0);
        assert(lcs_len(a, b_start) == 0);
        if a.last() != b.last() {
            assert(a_start[0] == a[0]);
            lemma_lcs_common_first(a_start, b);
            assert(lcs_len(a_start.skip(1), b_rest) == 0);
        }
    } else {
        assert(a_start.skip(1) =~= a_rest.drop_last());
        assert(b_start.skip(1) =~= b_rest.drop_last());
        assert(a_rest.last() == a.last());
        assert(b_rest.last() == b.last());
        assert(a_start[0] == a[0]);
        assert(b_start[0] == b[0]);
        if a.last() == b.last() {
            lemma_lcs_common_first(a_start, b_start);
        } else {
            lemma_lcs_common_first(a_start, b);
            lemma_lcs_common_first(a, b_start);
        }
    }
}

/// Where the first `len` lines are the same on both sides, they lengthen a
/// longest common subsequence of what follows by `len`.
pub proof fn lemma_lcs_common_head(a: Seq<Seq<char>>, b: Seq<Seq<char>>, len: int)
    requires
        0 <= len <= a.len(),
        len <= b.len(),
        forall|j: int| 0 <= j < len ==> #[trigger] a[j] == b[j],
    ensures
        lcs_len(a, b) == len + lcs_len(a.skip(len), b.skip(len)),
    decreases len,
{
    if len == 0 {
        assert(a.skip(0) =~= a);
        assert(b.skip(0) =~= b);
    } else {
        assert(a[0] == b[0]);
        lemma_lcs_common_first(a, b);
        assert forall|j: int| 0 <= j < len - 1 implies #[trigger] a.skip(1)[j] == b.skip(1)[j] by {
            assert(a[j + 1] == b[j + 1]);
        }
        lemma_lcs_common_head(a.skip(1), b.skip(1), len - 1);
        assert(a.skip(1).skip(len - 1) =~= a.skip(len));
        assert(b.skip(1).skip(len - 1) =~= b.skip(len));
    }
}

/// Counts the lines with which both sides start alike.
pub fn common_head_len(old_lines: &Vec<String>, new_lines: &Vec<String>) -> (len: usize)
    ensures
        len <= old_lines.len(),
        len <= new_lines.len(),
        forall|j: int|
            0 <= j < len ==> #[trigger] line_texts(old_lines@)[j] == line_texts(new_lines@)[j],
        len < old_lines.len() && len < new_lines.len() ==> line_texts(old_lines@)[len as int]
            != line_texts(new_lines@)[len as int],
{
    let mut len: usize = 0;
    while len < old_lines.len() && len < new_lines.len() && old_lines[len] == new_lines[len]
        invariant
            len <= old_lines.len(),
            len <= new_lines.len(),
            forall|j: int|
                0 <= j < len ==> #[trigger] line_texts(old_lines@)[j] == line_texts(
                    new_lines@,
                )[j],
        decreases old_lines.len() - len,
    {
        len += 1;
    }
    len
}

/// Counts the lines with which both sides end alike, the first `skip` lines
/// of either side left aside.
pub fn common_tail_len(old_lines: &Vec<String>, new_lines: &Vec<String>, skip: usize) -> (len:
    usize)
    requires
        skip <= old_lines.len(),
        skip <= new_lines.len(),
    ensures
        len <= old_lines.len() - skip,
        len <= new_lines.len() - skip,
        forall|j: int|
            0 <= j < len ==> #[trigger] line_texts(old_lines@)[old_lines.len() - len + j]
                == line_texts(new_lines@)[new_lines.len() - len + j],
{
    let m: usize = old_lines.len();
    let n: usize = new_lines.len();
    let mut len: usize = 0;
    while len < m - skip && len < n - skip && old_lines[m - 1 - len] == new_lines[n - 1 - len]
        invariant
            m == old_lines.len(),
            n == new_lines.len(),
            skip <= m,
            skip <= n,
            len <= m - skip,
            len <= n - skip,
            forall|j: int|
                0 <= j < len ==> #[trigger] line_texts(old_lines@)[m - len + j] == line_texts(
                    new_lines@,
                )[n - len + j],
        decreases m - len,
    {
        proof {
            let ghost_old = line_texts(old_lines@);
            let ghost_new = line_texts(new_lines@);
            assert forall|j: int| 0 <= j < len + 1 implies #[trigger] ghost_old[m - (len + 1) + j]
                == ghost_new[n - (len + 1) + j] by {
                if j > 0 {
                    assert(ghost_old[m - len + (j - 1)] == ghost_new[n - len + (j - 1)]);
                }
            }
        }
        len += 1;
    }
    len
}

/// Computes the length of a longest common subsequence of a stretch of old
/// lines and a stretch of new lines, in time proportional to the product of
/// their lengths and room proportional to the length of the new stretch.
pub fn lcs_length_between(
    old_lines: &Vec<String>,
    old_from: usize,
    old_to: usize,
    new_lines: &Vec<String>,
    new_from: usize,
    new_to: usize,
) -> (len: usize)
    requires
        old_from <= old_to <= old_lines.len(),
        new_from <= new_to <= new_lines.len(),
    ensures
        len == lcs_len(
            line_texts(old_lines@).subrange(old_from as int, old_to as int),
            line_texts(new_lines@).subrange(new_from as int, new_to as int),
        ),
{
    let ghost a = line_texts(old_lines@).subrange(old_from as int, old_to as int);
    let ghost b = line_texts(new_lines@).subrange(new_from as int, new_to as int);
    let m: usize = old_to - old_from;
    let n: usize = new_to - new_from;
    let mut row: Vec<usize> = Vec::new();
    let mut t: usize = 0;
    while t < n
        invariant
            t <= n,
            row.len() == t,
            forall|s: int| 0 <= s < t ==> #[trigger] row@[s] == lcs_len(a.take(0), b.take(s + 1)),
        decreases n - t,
    {
        row.push(0);
        t += 1;
    }
    let mut i: usize = 0;
    while i < m
        invariant
            i <= m,
            m == old_to - old_from,
            n == new_to - new_from,
            old_from <= old_to <= old_lines.len(),
            new_from <= new_to <= new_lines.len(),
            a == line_texts(old_lines@).subrange(old_from as int, old_to as int),
            b == line_texts(new_lines@).subrange(new_from as int, new_to as int),
            row.len() == n,
            forall|s: int| 0 <= s < n ==> #[trigger] row@[s] == lcs_len(a.take(i as int), b.take(s + 1)),
        decreases m - i,
    {
        let mut diag: usize = 0;
        let mut left: usize = 0;
        let mut t: usize = 0;
        while t < n
            invariant
                t <= n,
                i < m,
                m == old_to - old_from,
                n == new_to - new_from,
                old_from <= old_to <= old_lines.len(),
                new_from <= new_to <= new_lines.len(),
                a == line_texts(old_lines@).subrange(old_from as int, old_to as int),
                b == line_texts(new_lines@).subrange(new_from as int, new_to as int),
                row.len() == n,
                forall|s: int|
                    0 <= s < t ==> #[trigger] row@[s] == lcs_len(a.take(i + 1), b.take(s + 1)),
                forall|s: int|
                    t <= s < n ==> #[trigger] row@[s] == lcs_len(a.take(i as int), b.take(s + 1)),
                diag == lcs_len(a.take(i as int), b.take(t as int)),
                left == lcs_len(a.take(i + 1), b.take(t as int)),
            decreases n - t,
        {
            let up = row[t];
            proof {
                let longer_a = a.take(i + 1);
                let longer_b = b.take(t + 1);
                assert(longer_a.drop_last() =~= a.take(i as int));
                assert(longer_b.drop_last() =~= b.take(t as int));
                assert(longer_a.last() == line_texts(old_lines@)[old_from + i]);
                assert(longer_b.last() == line_texts(new_lines@)[new_from + t]);
                lemma_lcs_bounded(a.take(i as int), b.take(t as int));
            }
            let value = if old_lines[old_from + i] == new_lines[new_from + t] {
                diag + 1
            } else if up >= left {
                up
            } else {
                left
            };
            row.set(t, value);
            diag = up;
            left = value;
            t += 1;
        }
        i += 1;
    }
    if n == 0 {
        0
    } else {
        assert(a.take(m as int) =~= a);
        assert(b.take(n as int) =~= b);
        row[n - 1]
    }
}

/// Computes the length of a longest common subsequence of two sequences of
/// lines. The lines with which both start alike and those with which both end
/// alike belong to it; between them the search takes time proportional to
/// the product of what is left of the two sides.
pub fn lcs_length(old_lines: &Vec<String>, new_lines: &Vec<String>) -> (len: usize)
    ensures
        len == lcs_len(line_texts(old_lines@), line_texts(new_lines@)),
{
    let ghost a = line_texts(old_lines@);
    let ghost b = line_texts(new_lines@);
    let m: usize = old_lines.len();
    let n: usize = new_lines.len();
    let head: usize = common_head_len(old_lines, new_lines);
    let tail: usize = common_tail_len(old_lines, new_lines, head);
    let between: usize = lcs_length_between(old_lines, head, m - tail, new_lines, head, n - tail);
    proof {
        let a_cut = a.take(m - tail);
        let b_cut = b.take(n - tail);
        lemma_lcs_common_tail(a, b, m as int, n as int, tail as int);
        assert(a.take(m as int) =~= a);
        assert(b.take(n as int) =~= b);
        assert forall|j: int| 0 <= j < head implies #[trigger] a_cut[j] == b_cut[j] by {
            assert(a[j] == b[j]);
        }
        lemma_lcs_common_head(a_cut, b_cut, head as int);
        assert(a_cut.skip(head as int) =~= a.subrange(head as int, m - tail));
        assert(b_cut.skip(head as int) =~= b.subrange(head as int, n - tail));
        lemma_lcs_bounded(a, b);
    }
    head + tail + between
}

/// Counts the lines that the operations of an edit script leave as they are.
pub fn unchanged_line_count(ops: &Vec<EditOp>, old_lines: &Vec<String>, new_lines: &Vec<String>) -> (count:
    usize)
    requires
        is_edit_script(ops@, line_texts(old_lines@), line_texts(new_lines@)),
    ensures
        count == unchanged_lines(ops@),
{
    let mut count: usize = 0;
    let mut i: usize = 0;
    while i < ops.len()
        invariant
            i <= ops.len(),
            is_edit_script(ops@, line_texts(old_lines@), line_texts(new_lines@)),
            count == unchanged_lines(ops@.take(i as int)),
            count <= (if i == 0 { 0 } else { ops@[i - 1].old_end() }),
        decreases ops.len() - i,
    {
        proof {
            let grown = ops@.take(i + 1);
            assert(grown.drop_last() =~= ops@.take(i as int));
            assert(grown.last() == ops@[i as int]);
            lemma_spans_start(ops@, old_lines.len() as int, new_lines.len() as int, i + 1);
            lemma_lines_split(grown, ops@[i as int].old_end(), ops@[i as int].new_end());
            lemma_spans_bounds(
                ops@,
                0,
                0,
                old_lines.len() as int,
                new_lines.len() as int,
                i as int,
            );
        }
        if let EditOp::Equal { len, .. } = ops[i] {
            count = count + len;
        }
        i += 1;
    }
    assert(ops@.take(ops.len() as int) =~= ops@);
    count
}

/// Decides whether `ops` is an edit script from `old_lines` to `new_lines`
/// that changes no more lines than their edit distance.
pub fn is_minimal_script(ops: &Vec<EditOp>, old_lines: &Vec<String>, new_lines: &Vec<String>) -> (minimal:
    bool)
    ensures
        minimal == (is_edit_script(ops@, line_texts(old_lines@), line_texts(new_lines@))
            && changed_lines(ops@) == edit_distance(
            line_texts(old_lines@),
            line_texts(new_lines@),
        )),
{
    if !check_script(ops, old_lines, new_lines) {
        return false;
    }
    proof {
        lemma_script_costs_the_distance(ops@, line_texts(old_lines@), line_texts(new_lines@));
    }
    unchanged_line_count(ops, old_lines, new_lines) == lcs_length(old_lines, new_lines)
}

/// The edit script that `minimal_edit_script` answers with, if it gives one:
/// the script that `edit_script` gives, provided it changes exactly as many
/// lines as the edit distance of the two sides.
pub open spec fn accepted_minimal_script(old: Seq<Seq<char>>, new: Seq<Seq<char>>) -> Option<
    Seq<EditOp>,
> {
    match accepted_script(old, new) {
        Some(ops) => if changed_lines(ops) == edit_distance(old, new) {
            Some(ops)
        } else {
            None
        },
        None => None,
    }
}

/// A sequence of lines is its own longest common subsequence with itself, so
/// its edit distance to itself is nothing.
pub proof fn lemma_same_lines_no_distance(a: Seq<Seq<char>>)
    ensures
        lcs_len(a, a) == a.len(),
        edit_distance(a, a) == 0,
    decreases a.len(),
{
    if a.len() > 0 {
        lemma_same_lines_no_distance(a.drop_last());
    }
}

/// Asks for the edit script between two sequences of lines, as `edit_script`
/// does, and keeps it only if it changes no more lines than their edit
/// distance. The test takes time proportional to the product of the two
/// lengths, and room proportional to the shorter one.
pub fn minimal_edit_script(old_lines: &Vec<String>, new_lines: &Vec<String>) -> (script: Option<
    Vec<EditOp>,
>)
    ensures
        match accepted_minimal_script(line_texts(old_lines@), line_texts(new_lines@)) {
            Some(ops) => script matches Some(found) && found@ == ops,
            None => script is None,
        },
        script matches Some(found) ==> is_edit_script(
            found@,
            line_texts(old_lines@),
            line_texts(new_lines@),
        ) && changed_lines(found@) == edit_distance(
            line_texts(old_lines@),
            line_texts(new_lines@),
        ),
{
    match edit_script(old_lines, new_lines) {
        Some(ops) => {
            if is_minimal_script(&ops, old_lines, new_lines) {
                Some(ops)
            } else {
                None
            }
        },
        None => None,
    }
}

} // verus!
