//! Edit operations over two sequences of lines.

use vstd::prelude::*;

use crate::lines::{lemma_split_lines_joins, line_texts, split_lines};

verus! {

/// One step of an edit script. Indices are zero-based positions in the old
/// and the new sequence of lines; lengths count lines. An operation that
/// holds no lines on one side still has a position there: where the script
/// stands when it comes to the operation.
#[derive(Clone, Copy, Debug, PartialEq, Eq, Structural)]
pub enum EditOp {
    /// `len` lines are the same on both sides.
    Equal { old_index: usize, new_index: usize, len: usize },
    /// `old_len` lines of the old side are removed.
    Delete { old_index: usize, old_len: usize, new_index: usize },
    /// `new_len` lines of the new side are added.
    Insert { old_index: usize, new_index: usize, new_len: usize },
    /// `old_len` lines of the old side give way to `new_len` lines of the new side.
    Replace { old_index: usize, old_len: usize, new_index: usize, new_len: usize },
}

/// `x` as a position: itself where it is one, else the nearest there is.
pub open spec fn clamped(x: int) -> usize {
    if x < 0 {
        0
    } else if x > usize::MAX {
        usize::MAX
    } else {
        x as usize
    }
}

impl EditOp {
    /// First old-side position of the operation.
    pub open spec fn old_start(self) -> int {
        match self {
            EditOp::Equal { old_index, .. } => old_index as int,
            EditOp::Delete { old_index, .. } => old_index as int,
            EditOp::Insert { old_index, .. } => old_index as int,
            EditOp::Replace { old_index, .. } => old_index as int,
        }
    }

    /// First new-side position of the operation.
    pub open spec fn new_start(self) -> int {
        match self {
            EditOp::Equal { new_index, .. } => new_index as int,
            EditOp::Delete { new_index, .. } => new_index as int,
            EditOp::Insert { new_index, .. } => new_index as int,
            EditOp::Replace { new_index, .. } => new_index as int,
        }
    }

    /// Number of old-side lines the operation consumes.
    pub open spec fn old_span(self) -> int {
        match self {
            EditOp::Equal { len, .. } => len as int,
            EditOp::Delete { old_len, .. } => old_len as int,
            EditOp::Insert { .. } => 0,
            EditOp::Replace { old_len, .. } => old_len as int,
        }
    }

    /// Number of new-side lines the operation consumes.
    pub open spec fn new_span(self) -> int {
        match self {
            EditOp::Equal { len, .. } => len as int,
            EditOp::Delete { .. } => 0,
            EditOp::Insert { new_len, .. } => new_len as int,
            EditOp::Replace { new_len, .. } => new_len as int,
        }
    }

    /// Old-side position just past the operation.
    pub open spec fn old_end(self) -> int {
        self.old_start() + self.old_span()
    }

    /// New-side position just past the operation.
    pub open spec fn new_end(self) -> int {
        self.new_start() + self.new_span()
    }

    /// Whether the operation changes anything, that is, is not `Equal`.
    pub open spec fn is_change(self) -> bool {
        !(self is Equal)
    }

    /// Whether the operation holds a line on either side.
    pub open spec fn holds_lines(self) -> bool {
        self.old_span() + self.new_span() > 0
    }

    /// The operation with the side on which it holds no lines moved to
    /// `(old_at, new_at)`: the new side of a deletion, the old side of an
    /// insertion. Other operations stay as they are.
    pub open spec fn placed(self, old_at: usize, new_at: usize) -> EditOp {
        match self {
            EditOp::Delete { old_index, old_len, .. } => EditOp::Delete {
                old_index,
                old_len,
                new_index: new_at,
            },
            EditOp::Insert { new_index, new_len, .. } => EditOp::Insert {
                old_index: old_at,
                new_index,
                new_len,
            },
            _ => self,
        }
    }

    /// Moves the side on which the operation holds no lines to
    /// `(old_at, new_at)`.
    pub fn place(&self, old_at: usize, new_at: usize) -> (op: EditOp)
        ensures
            op == self.placed(old_at, new_at),
    {
        match *self {
            EditOp::Delete { old_index, old_len, .. } => EditOp::Delete {
                old_index,
                old_len,
                new_index: new_at,
            },
            EditOp::Insert { new_index, new_len, .. } => EditOp::Insert {
                old_index: old_at,
                new_index,
                new_len,
            },
            _ => *self,
        }
    }

    /// Old-side position just past the operation, or the largest position
    /// there is if that is less.
    pub fn old_end_clamped(&self) -> (end: usize)
        ensures
            end == clamped(self.old_end()),
    {
        let start = self.old_index();
        let len = self.old_len();
        if len > usize::MAX - start {
            usize::MAX
        } else {
            start + len
        }
    }

    /// New-side position just past the operation, or the largest position
    /// there is if that is less.
    pub fn new_end_clamped(&self) -> (end: usize)
        ensures
            end == clamped(self.new_end()),
    {
        let start = self.new_index();
        let len = self.new_len();
        if len > usize::MAX - start {
            usize::MAX
        } else {
            start + len
        }
    }

    /// First old-side position of the operation.
    pub fn old_index(&self) -> (r: usize)
        ensures
            r == self.old_start(),
    {
        match *self {
            EditOp::Equal { old_index, .. } => old_index,
            EditOp::Delete { old_index, .. } => old_index,
            EditOp::Insert { old_index, .. } => old_index,
            EditOp::Replace { old_index, .. } => old_index,
        }
    }

    /// First new-side position of the operation.
    pub fn new_index(&self) -> (r: usize)
        ensures
            r == self.new_start(),
    {
        match *self {
            EditOp::Equal { new_index, .. } => new_index,
            EditOp::Delete { new_index, .. } => new_index,
            EditOp::Insert { new_index, .. } => new_index,
            EditOp::Replace { new_index, .. } => new_index,
        }
    }

    /// Number of old-side lines the operation consumes.
    pub fn old_len(&self) -> (r: usize)
        ensures
            r == self.old_span(),
    {
        match *self {
            EditOp::Equal { len, .. } => len,
            EditOp::Delete { old_len, .. } => old_len,
            EditOp::Insert { .. } => 0,
            EditOp::Replace { old_len, .. } => old_len,
        }
    }

    /// Number of new-side lines the operation consumes.
    pub fn new_len(&self) -> (r: usize)
        ensures
            r == self.new_span(),
    {
        match *self {
            EditOp::Equal { len, .. } => len,
            EditOp::Delete { .. } => 0,
            EditOp::Insert { new_len, .. } => new_len,
            EditOp::Replace { new_len, .. } => new_len,
        }
    }

    /// Whether the operation holds a line on either side.
    pub fn has_lines(&self) -> (r: bool)
        ensures
            r == self.holds_lines(),
    {
        self.old_len() > 0 || self.new_len() > 0
    }

    /// Whether the operation is anything but `Equal`.
    pub fn changes(&self) -> (r: bool)
        ensures
            r == self.is_change(),
    {
        match *self {
            EditOp::Equal { .. } => false,
            _ => true,
        }
    }
}

/// The operations with every deletion and insertion placed, on the side where
/// it holds no lines, where the operation before it ends; the first is placed
/// at `(old_from, new_from)`. An engine need not keep that side up to date.
pub open spec fn settled_from(ops: Seq<EditOp>, old_from: usize, new_from: usize) -> Seq<EditOp>
    decreases ops.len(),
{
    if ops.len() == 0 {
        Seq::empty()
    } else {
        let before = settled_from(ops.drop_last(), old_from, new_from);
        if before.len() == 0 {
            before.push(ops.last().placed(old_from, new_from))
        } else {
            before.push(
                ops.last().placed(
                    clamped(before.last().old_end()),
                    clamped(before.last().new_end()),
                ),
            )
        }
    }
}

/// Each operation but the first starts, on both sides, where the one
/// before it ends.
pub open spec fn contiguous(ops: Seq<EditOp>) -> bool {
    forall|i: int|
        0 < i < ops.len() ==> (#[trigger] ops[i]).old_start() == ops[i - 1].old_end()
            && ops[i].new_start() == ops[i - 1].new_end()
}

/// The operations lead without gap or overlap from position
/// `(old_from, new_from)` to position `(old_to, new_to)`.
pub open spec fn spans(
    ops: Seq<EditOp>,
    old_from: int,
    new_from: int,
    old_to: int,
    new_to: int,
) -> bool {
    if ops.len() == 0 {
        old_from == old_to && new_from == new_to
    } else {
        &&& ops[0].old_start() == old_from
        &&& ops[0].new_start() == new_from
        &&& contiguous(ops)
        &&& ops.last().old_end() == old_to
        &&& ops.last().new_end() == new_to
    }
}

/// The operations cover an old side of `old_count` lines and a new side of
/// `new_count` lines exactly.
pub open spec fn covers(ops: Seq<EditOp>, old_count: int, new_count: int) -> bool {
    spans(ops, 0, 0, old_count, new_count)
}

/// The lines that an `Equal` operation joins are the same on both sides.
/// Of other operations this asks nothing.
pub open spec fn joins_equal_lines(op: EditOp, old: Seq<Seq<char>>, new: Seq<Seq<char>>) -> bool {
    op matches EditOp::Equal { old_index, new_index, len } ==> forall|j: int|
        0 <= j < len ==> #[trigger] old[old_index + j] == new[new_index + j]
}

/// Every change among the operations deletes or inserts at least one line.
pub open spec fn changes_hold_lines(ops: Seq<EditOp>) -> bool {
    forall|i: int| 0 <= i < ops.len() && (#[trigger] ops[i]).is_change() ==> ops[i].holds_lines()
}

/// `ops` is an edit script from `old` to `new`: it covers both sequences of
/// lines, what it calls equal is equal, and what it calls a change changes
/// at least one line.
pub open spec fn is_edit_script(ops: Seq<EditOp>, old: Seq<Seq<char>>, new: Seq<Seq<char>>) -> bool {
    &&& covers(ops, old.len() as int, new.len() as int)
    &&& forall|i: int| 0 <= i < ops.len() ==> joins_equal_lines(#[trigger] ops[i], old, new)
    &&& changes_hold_lines(ops)
}

/// Number of lines that the operations delete or insert. A replacement counts
/// the lines it removes and the lines it adds.
pub open spec fn changed_lines(ops: Seq<EditOp>) -> int
    decreases ops.len(),
{
    if ops.len() == 0 {
        0
    } else {
        changed_lines(ops.drop_last()) + (if ops.last().is_change() {
            ops.last().old_span() + ops.last().new_span()
        } else {
            0
        })
    }
}

/// Every operation ends, on both sides, at a position that there is.
pub open spec fn spans_fit(ops: Seq<EditOp>) -> bool {
    forall|i: int|
        0 <= i < ops.len() ==> (#[trigger] ops[i]).old_end() <= usize::MAX && ops[i].new_end()
            <= usize::MAX
}

/// No `Equal` operation follows another directly. In an edit script, whose
/// changes all hold lines, this says that lines that stay are told in one
/// operation as far as they go.
pub open spec fn equal_runs_merged(ops: Seq<EditOp>) -> bool {
    forall|i: int| 0 < i < ops.len() ==> !((#[trigger] ops[i]) is Equal && ops[i - 1] is Equal)
}

/// In a run of operations without gaps, an earlier one ends no later than a
/// later one starts, on either side.
pub proof fn lemma_contiguous_ordered(ops: Seq<EditOp>, i: int, j: int)
    requires
        contiguous(ops),
        0 <= i < j < ops.len(),
    ensures
        ops[i].old_end() <= ops[j].old_start(),
        ops[i].new_end() <= ops[j].new_start(),
    decreases j - i,
{
    if i + 1 < j {
        lemma_contiguous_ordered(ops, i, j - 1);
    }
    assert(ops[j].old_start() == ops[j - 1].old_end());
}

/// Every operation of a run from one position to another lies between the two.
pub proof fn lemma_spans_bounds(
    ops: Seq<EditOp>,
    old_from: int,
    new_from: int,
    old_to: int,
    new_to: int,
    i: int,
)
    requires
        spans(ops, old_from, new_from, old_to, new_to),
        0 <= i < ops.len(),
    ensures
        old_from <= ops[i].old_start() <= ops[i].old_end() <= old_to,
        new_from <= ops[i].new_start() <= ops[i].new_end() <= new_to,
{
    if 0 < i {
        lemma_contiguous_ordered(ops, 0, i);
    }
    if i < ops.len() - 1 {
        lemma_contiguous_ordered(ops, i, ops.len() - 1);
    }
}

/// A covering edit script splits the old side without gap or overlap: every
/// old position belongs to the span of one operation and of no other.
pub proof fn lemma_old_side_partitioned(ops: Seq<EditOp>, old_count: int, new_count: int, k: int)
    requires
        covers(ops, old_count, new_count),
        0 <= k < old_count,
    ensures
        exists|i: int| 0 <= i < ops.len() && (#[trigger] ops[i]).old_start() <= k < ops[i].old_end(),
        forall|i: int, j: int|
            0 <= i < ops.len() && 0 <= j < ops.len() && (#[trigger] ops[i]).old_start() <= k
                < ops[i].old_end() && (#[trigger] ops[j]).old_start() <= k < ops[j].old_end()
                ==> i == j,
{
    lemma_old_position_found(ops, old_count, new_count, k, ops.len() as int);
    assert forall|i: int, j: int|
        0 <= i < ops.len() && 0 <= j < ops.len() && (#[trigger] ops[i]).old_start() <= k
            < ops[i].old_end() && (#[trigger] ops[j]).old_start() <= k
            < ops[j].old_end() implies i == j by {
        if i < j {
            lemma_contiguous_ordered(ops, i, j);
        } else if j < i {
            lemma_contiguous_ordered(ops, j, i);
        }
    }
}

/// A covering edit script splits the new side without gap or overlap: every
/// new position belongs to the span of one operation and of no other.
pub proof fn lemma_new_side_partitioned(ops: Seq<EditOp>, old_count: int, new_count: int, k: int)
    requires
        covers(ops, old_count, new_count),
        0 <= k < new_count,
    ensures
        exists|i: int| 0 <= i < ops.len() && (#[trigger] ops[i]).new_start() <= k < ops[i].new_end(),
        forall|i: int, j: int|
            0 <= i < ops.len() && 0 <= j < ops.len() && (#[trigger] ops[i]).new_start() <= k
                < ops[i].new_end() && (#[trigger] ops[j]).new_start() <= k < ops[j].new_end()
                ==> i == j,
{
    lemma_new_position_found(ops, old_count, new_count, k, ops.len() as int);
    assert forall|i: int, j: int|
        0 <= i < ops.len() && 0 <= j < ops.len() && (#[trigger] ops[i]).new_start() <= k
            < ops[i].new_end() && (#[trigger] ops[j]).new_start() <= k
            < ops[j].new_end() implies i == j by {
        if i < j {
            lemma_contiguous_ordered(ops, i, j);
        } else if j < i {
            lemma_contiguous_ordered(ops, j, i);
        }
    }
}

/// Among the first `upto` operations of a covering script, one holds the old
/// position `k`, provided these operations reach past `k`.
proof fn lemma_old_position_found(ops: Seq<EditOp>, old_count: int, new_count: int, k: int, upto: int)
    requires
        covers(ops, old_count, new_count),
        0 <= k,
        0 < upto <= ops.len(),
        k < ops[upto - 1].old_end(),
    ensures
        exists|i: int| 0 <= i < ops.len() && (#[trigger] ops[i]).old_start() <= k < ops[i].old_end(),
    decreases upto,
{
    let last = ops[upto - 1];
    if last.old_start() <= k {
        assert(ops[upto - 1].old_start() <= k < ops[upto - 1].old_end());
    } else {
        assert(upto > 1);
        assert(ops[upto - 1].old_start() == ops[upto - 2].old_end());
        lemma_old_position_found(ops, old_count, new_count, k, upto - 1);
    }
}

/// Among the first `upto` operations of a covering script, one holds the new
/// position `k`, provided these operations reach past `k`.
proof fn lemma_new_position_found(ops: Seq<EditOp>, old_count: int, new_count: int, k: int, upto: int)
    requires
        covers(ops, old_count, new_count),
        0 <= k,
        0 < upto <= ops.len(),
        k < ops[upto - 1].new_end(),
    ensures
        exists|i: int| 0 <= i < ops.len() && (#[trigger] ops[i]).new_start() <= k < ops[i].new_end(),
    decreases upto,
{
    let last = ops[upto - 1];
    if last.new_start() <= k {
        assert(ops[upto - 1].new_start() <= k < ops[upto - 1].new_end());
    } else {
        assert(upto > 1);
        assert(ops[upto - 1].new_start() == ops[upto - 2].new_end());
        lemma_new_position_found(ops, old_count, new_count, k, upto - 1);
    }
}

/// The old-side lines of the operations, one operation after the other. An
/// insertion has none.
pub open spec fn old_side(ops: Seq<EditOp>, old: Seq<Seq<char>>) -> Seq<Seq<char>>
    decreases ops.len(),
{
    if ops.len() == 0 {
        Seq::empty()
    } else {
        old_side(ops.drop_last(), old) + old.subrange(ops.last().old_start(), ops.last().old_end())
    }
}

/// The new-side lines of the operations, one operation after the other. A
/// deletion has none.
pub open spec fn new_side(ops: Seq<EditOp>, new: Seq<Seq<char>>) -> Seq<Seq<char>>
    decreases ops.len(),
{
    if ops.len() == 0 {
        Seq::empty()
    } else {
        new_side(ops.drop_last(), new) + new.subrange(ops.last().new_start(), ops.last().new_end())
    }
}

/// A run of operations without the last is a run up to where the last starts.
pub proof fn lemma_spans_without_last(
    ops: Seq<EditOp>,
    old_from: int,
    new_from: int,
    old_to: int,
    new_to: int,
)
    requires
        spans(ops, old_from, new_from, old_to, new_to),
        ops.len() > 0,
    ensures
        spans(
            ops.drop_last(),
            old_from,
            new_from,
            ops.last().old_start(),
            ops.last().new_start(),
        ),
{
    let rest = ops.drop_last();
    assert forall|i: int| 0 < i < rest.len() implies (#[trigger] rest[i]).old_start() == rest[i
        - 1].old_end() && rest[i].new_start() == rest[i - 1].new_end() by {
        assert(rest[i] == ops[i]);
        assert(rest[i - 1] == ops[i - 1]);
    }
    if rest.len() > 0 {
        assert(rest[0] == ops[0]);
        assert(rest.last() == ops[ops.len() - 2]);
        assert(ops[ops.len() - 1].old_start() == ops[ops.len() - 2].old_end());
    }
}

/// The old-side lines of a run of operations that starts at the top are the
/// old lines up to where the run ends, and likewise on the new side.
pub proof fn lemma_sides_are_prefixes(
    ops: Seq<EditOp>,
    old: Seq<Seq<char>>,
    new: Seq<Seq<char>>,
    old_to: int,
    new_to: int,
)
    requires
        spans(ops, 0, 0, old_to, new_to),
        old_to <= old.len(),
        new_to <= new.len(),
    ensures
        old_side(ops, old) == old.take(old_to),
        new_side(ops, new) == new.take(new_to),
    decreases ops.len(),
{
    if ops.len() == 0 {
        assert(old_side(ops, old) =~= old.take(old_to));
        assert(new_side(ops, new) =~= new.take(new_to));
    } else {
        let last = ops.last();
        lemma_spans_without_last(ops, 0, 0, old_to, new_to);
        lemma_spans_bounds(ops, 0, 0, old_to, new_to, ops.len() - 1);
        lemma_sides_are_prefixes(ops.drop_last(), old, new, last.old_start(), last.new_start());
        assert(old.take(last.old_start()) + old.subrange(last.old_start(), last.old_end())
            =~= old.take(old_to));
        assert(new.take(last.new_start()) + new.subrange(last.new_start(), last.new_end())
            =~= new.take(new_to));
    }
}

/// The old-side lines of a covering script are the old lines, and its
/// new-side lines are the new lines.
pub proof fn lemma_script_rebuilds_lines(ops: Seq<EditOp>, old: Seq<Seq<char>>, new: Seq<Seq<char>>)
    requires
        covers(ops, old.len() as int, new.len() as int),
    ensures
        old_side(ops, old) == old,
        new_side(ops, new) == new,
{
    lemma_sides_are_prefixes(ops, old, new, old.len() as int, new.len() as int);
    assert(old.take(old.len() as int) =~= old);
    assert(new.take(new.len() as int) =~= new);
}

/// Joining what a script over the lines of two texts holds on the old side
/// gives the old text, and joining what it holds on the new side gives the
/// new text.
pub proof fn lemma_script_rebuilds_texts(ops: Seq<EditOp>, old_text: Seq<char>, new_text: Seq<char>)
    requires
        covers(ops, split_lines(old_text).len() as int, split_lines(new_text).len() as int),
    ensures
        old_side(ops, split_lines(old_text)).flatten() == old_text,
        new_side(ops, split_lines(new_text)).flatten() == new_text,
{
    lemma_script_rebuilds_lines(ops, split_lines(old_text), split_lines(new_text));
    lemma_split_lines_joins(old_text);
    lemma_split_lines_joins(new_text);
}

/// Tells whether `len` lines of `old` from `old_index` on are, one by one,
/// the `len` lines of `new` from `new_index` on.
pub fn same_lines(
    old: &Vec<String>,
    old_index: usize,
    new: &Vec<String>,
    new_index: usize,
    len: usize,
) -> (same: bool)
    requires
        old_index + len <= old.len(),
        new_index + len <= new.len(),
    ensures
        same == forall|j: int|
            0 <= j < len ==> #[trigger] line_texts(old@)[old_index + j] == line_texts(
                new@,
            )[new_index + j],
{
    let mut j: usize = 0;
    while j < len
        invariant
            j <= len,
            old_index + len <= old.len(),
            new_index + len <= new.len(),
            forall|k: int|
                0 <= k < j ==> #[trigger] line_texts(old@)[old_index + k] == line_texts(
                    new@,
                )[new_index + k],
        decreases len - j,
    {
        if !(old[old_index + j] == new[new_index + j]) {
            assert(line_texts(old@)[old_index + j] != line_texts(new@)[new_index + j]);
            return false;
        }
        j += 1;
    }
    true
}

/// Decides whether `ops` is an edit script from the lines `old` to the lines
/// `new`.
pub fn check_script(ops: &Vec<EditOp>, old: &Vec<String>, new: &Vec<String>) -> (ok: bool)
    ensures
        ok == is_edit_script(ops@, line_texts(old@), line_texts(new@)),
{
    let ghost old_texts = line_texts(old@);
    let ghost new_texts = line_texts(new@);
    let mut old_at: usize = 0;
    let mut new_at: usize = 0;
    let mut i: usize = 0;
    while i < ops.len()
        invariant
            i <= ops.len(),
            old_texts == line_texts(old@),
            new_texts == line_texts(new@),
            old_at <= old.len(),
            new_at <= new.len(),
            i > 0 ==> ops@[0].old_start() == 0 && ops@[0].new_start() == 0,
            forall|k: int|
                0 < k < i ==> (#[trigger] ops@[k]).old_start() == ops@[k - 1].old_end()
                    && ops@[k].new_start() == ops@[k - 1].new_end(),
            old_at == (if i == 0 { 0 } else { ops@[i - 1].old_end() }),
            new_at == (if i == 0 { 0 } else { ops@[i - 1].new_end() }),
            forall|k: int| 0 <= k < i ==> joins_equal_lines(#[trigger] ops@[k], old_texts, new_texts),
            forall|k: int| 0 <= k < i && (#[trigger] ops@[k]).is_change() ==> ops@[k].holds_lines(),
        decreases ops.len() - i,
    {
        let op = ops[i];
        if op.old_index() != old_at || op.new_index() != new_at {
            return false;
        }
        if op.changes() && !op.has_lines() {
            assert(!changes_hold_lines(ops@));
            return false;
        }
        if op.old_len() > old.len() - old_at || op.new_len() > new.len() - new_at {
            proof {
                if is_edit_script(ops@, old_texts, new_texts) {
                    lemma_spans_bounds(ops@, 0, 0, old.len() as int, new.len() as int, i as int);
                }
            }
            return false;
        }
        if let EditOp::Equal { old_index, new_index, len } = op {
            if !same_lines(old, old_index, new, new_index, len) {
                assert(!joins_equal_lines(ops@[i as int], old_texts, new_texts));
                return false;
            }
        }
        old_at = old_at + op.old_len();
        new_at = new_at + op.new_len();
        i += 1;
    }
    old_at == old.len() && new_at == new.len()
}

/// Settling keeps the number of operations.
pub proof fn lemma_settled_len(ops: Seq<EditOp>, old_from: usize, new_from: usize)
    ensures
        settled_from(ops, old_from, new_from).len() == ops.len(),
    decreases ops.len(),
{
    if ops.len() > 0 {
        lemma_settled_len(ops.drop_last(), old_from, new_from);
    }
}

/// Operations that already run on without gaps from `(old_from, new_from)`
/// stay as they are when they are settled from there.
pub proof fn lemma_settled_keeps_runs(ops: Seq<EditOp>, old_from: usize, new_from: usize)
    requires
        ops.len() > 0 ==> ops[0].old_start() == old_from && ops[0].new_start() == new_from,
        contiguous(ops),
        forall|i: int|
            0 <= i < ops.len() ==> (#[trigger] ops[i]).old_end() <= usize::MAX && ops[i].new_end()
                <= usize::MAX,
    ensures
        settled_from(ops, old_from, new_from) == ops,
    decreases ops.len(),
{
    if ops.len() > 0 {
        let rest = ops.drop_last();
        assert forall|i: int| 0 < i < rest.len() implies (#[trigger] rest[i]).old_start() == rest[i
            - 1].old_end() && rest[i].new_start() == rest[i - 1].new_end() by {
            assert(rest[i] == ops[i]);
            assert(rest[i - 1] == ops[i - 1]);
        }
        assert forall|i: int| 0 <= i < rest.len() implies (#[trigger] rest[i]).old_end()
            <= usize::MAX && rest[i].new_end() <= usize::MAX by {
            assert(rest[i] == ops[i]);
        }
        if rest.len() > 0 {
            assert(rest[0] == ops[0]);
            assert(ops[ops.len() - 1].old_start() == ops[ops.len() - 2].old_end());
            assert(rest.last() == ops[ops.len() - 2]);
        }
        lemma_settled_keeps_runs(rest, old_from, new_from);
        assert(settled_from(ops, old_from, new_from) =~= ops);
    }
}

/// Places every deletion and insertion of `ops`, on the side where it holds
/// no lines, where the operation before it ends, starting from
/// `(old_from, new_from)`.
pub fn settle_from(ops: &Vec<EditOp>, old_from: usize, new_from: usize) -> (settled: Vec<EditOp>)
    ensures
        settled@ == settled_from(ops@, old_from, new_from),
        settled.len() == ops.len(),
{
    let mut settled: Vec<EditOp> = Vec::new();
    let mut old_at = old_from;
    let mut new_at = new_from;
    let mut i: usize = 0;
    while i < ops.len()
        invariant
            i <= ops.len(),
            settled.len() == i,
            settled@ == settled_from(ops@.take(i as int), old_from, new_from),
            old_at == (if i == 0 { old_from } else { clamped(settled@.last().old_end()) }),
            new_at == (if i == 0 { new_from } else { clamped(settled@.last().new_end()) }),
        decreases ops.len() - i,
    {
        let op = ops[i].place(old_at, new_at);
        proof {
            let grown = ops@.take(i + 1);
            assert(grown.drop_last() =~= ops@.take(i as int));
            assert(grown.last() == ops@[i as int]);
        }
        old_at = op.old_end_clamped();
        new_at = op.new_end_clamped();
        settled.push(op);
        i += 1;
    }
    assert(ops@.take(ops.len() as int) =~= ops@);
    settled
}

/// Decides whether no `Equal` operation of `ops` follows another directly.
pub fn check_runs_merged(ops: &Vec<EditOp>) -> (ok: bool)
    ensures
        ok == equal_runs_merged(ops@),
{
    let mut after_equal = false;
    let mut i: usize = 0;
    while i < ops.len()
        invariant
            i <= ops.len(),
            after_equal == (i > 0 && ops@[i - 1] is Equal),
            forall|k: int| 0 < k < i ==> !((#[trigger] ops@[k]) is Equal && ops@[k - 1] is Equal),
        decreases ops.len() - i,
    {
        let equal = !ops[i].changes();
        if equal && after_equal {
            return false;
        }
        after_equal = equal;
        i += 1;
    }
    true
}

/// Each settled operation is the given one, placed where the settled
/// operation before it ends, and the first where the settling starts.
pub proof fn lemma_settled_places_each(ops: Seq<EditOp>, old_from: usize, new_from: usize, i: int)
    requires
        0 <= i < ops.len(),
    ensures
        settled_from(ops, old_from, new_from).len() == ops.len(),
        i == 0 ==> settled_from(ops, old_from, new_from)[i] == ops[i].placed(old_from, new_from),
        i > 0 ==> settled_from(ops, old_from, new_from)[i] == ops[i].placed(
            clamped(settled_from(ops, old_from, new_from)[i - 1].old_end()),
            clamped(settled_from(ops, old_from, new_from)[i - 1].new_end()),
        ),
    decreases ops.len(),
{
    lemma_settled_len(ops, old_from, new_from);
    lemma_settled_len(ops.drop_last(), old_from, new_from);
    if i < ops.len() - 1 {
        lemma_settled_places_each(ops.drop_last(), old_from, new_from, i);
    }
}

/// The first operations of a sequence change no more lines than all of them.
pub proof fn lemma_changed_lines_grow(ops: Seq<EditOp>, count: int)
    requires
        0 <= count <= ops.len(),
    ensures
        0 <= changed_lines(ops.take(count)) <= changed_lines(ops),
    decreases ops.len() - count,
{
    if count < ops.len() {
        lemma_changed_lines_grow(ops, count + 1);
        assert(ops.take(count + 1).drop_last() =~= ops.take(count));
        lemma_changed_lines_positive(ops.take(count));
    } else {
        assert(ops.take(count) =~= ops);
        lemma_changed_lines_positive(ops);
    }
}

/// Operations change no fewer than no lines.
pub proof fn lemma_changed_lines_positive(ops: Seq<EditOp>)
    ensures
        0 <= changed_lines(ops),
    decreases ops.len(),
{
    if ops.len() > 0 {
        lemma_changed_lines_positive(ops.drop_last());
    }
}

/// Counts the lines that a run of operations without gaps deletes or
/// inserts. They are no more than the lines that the run spans.
pub fn changed_line_count(ops: &Vec<EditOp>) -> (count: u128)
    requires
        contiguous(ops@),
        ops.len() > 0 ==> ops@.last().old_end() <= usize::MAX && ops@.last().new_end()
            <= usize::MAX,
    ensures
        count == changed_lines(ops@),
        ops.len() > 0 ==> count <= (ops@.last().old_end() - ops@[0].old_start()) + (
        ops@.last().new_end() - ops@[0].new_start()),
{
    let mut count: u128 = 0;
    let mut i: usize = 0;
    while i < ops.len()
        invariant
            i <= ops.len(),
            contiguous(ops@),
            ops.len() > 0 ==> ops@.last().old_end() <= usize::MAX && ops@.last().new_end()
                <= usize::MAX,
            count == changed_lines(ops@.take(i as int)),
            i > 0 ==> count <= (ops@[i - 1].old_end() - ops@[0].old_start()) + (ops@[i
                - 1].new_end() - ops@[0].new_start()),
            i == 0 ==> count == 0,
        decreases ops.len() - i,
    {
        let op = ops[i];
        proof {
            let grown = ops@.take(i + 1);
            assert(grown.drop_last() =~= ops@.take(i as int));
            assert(grown.last() == ops@[i as int]);
            lemma_spans_bounds(
                ops@,
                ops@[0].old_start(),
                ops@[0].new_start(),
                ops@.last().old_end(),
                ops@.last().new_end(),
                i as int,
            );
            if i > 0 {
                assert(ops@[i as int].old_start() == ops@[i - 1].old_end());
                lemma_spans_bounds(
                    ops@,
                    ops@[0].old_start(),
                    ops@[0].new_start(),
                    ops@.last().old_end(),
                    ops@.last().new_end(),
                    i - 1,
                );
            }
        }
        if op.changes() {
            count = count + (op.old_len() as u128 + op.new_len() as u128);
        }
        i += 1;
    }
    assert(ops@.take(ops.len() as int) =~= ops@);
    count
}

/// Decides whether the operations delete and insert `expected` lines in all.
pub fn changed_lines_are(ops: &Vec<EditOp>, expected: u128) -> (ok: bool)
    requires
        expected <= 2 * usize::MAX,
    ensures
        ok == (changed_lines(ops@) == expected),
{
    let mut count: u128 = 0;
    let mut i: usize = 0;
    while i < ops.len()
        invariant
            i <= ops.len(),
            expected <= 2 * usize::MAX,
            count == changed_lines(ops@.take(i as int)),
            count <= expected,
        decreases ops.len() - i,
    {
        let op = ops[i];
        proof {
            let grown = ops@.take(i + 1);
            assert(grown.drop_last() =~= ops@.take(i as int));
            assert(grown.last() == ops@[i as int]);
            lemma_changed_lines_grow(ops@, i + 1);
        }
        if op.changes() {
            count = count + (op.old_len() as u128 + op.new_len() as u128);
            if count > expected {
                return false;
            }
        }
        i += 1;
    }
    assert(ops@.take(ops.len() as int) =~= ops@);
    count == expected
}

} // verus!
