//! Hunks: the changed stretches of an edit script with their context, and
//! what makes a list of hunks a patch from one sequence of lines to another.

use vstd::prelude::*;

use crate::lines::line_texts;
use crate::ops::{
    changed_line_count, changed_lines, changes_hold_lines, clamped, contiguous,
    joins_equal_lines, lemma_spans_bounds, lemma_spans_without_last, same_lines, settle_from,
    settled_from, EditOp,
};

verus! {

/// The run of operations of each hunk of `hunks`.
pub open spec fn hunk_runs(hunks: Seq<Vec<EditOp>>) -> Seq<Seq<EditOp>> {
    hunks.map_values(|hunk: Vec<EditOp>| hunk@)
}

/// Number of unchanged lines with which a hunk opens.
pub open spec fn leading_context(hunk: Seq<EditOp>) -> int {
    if hunk.len() > 0 && hunk[0] is Equal {
        hunk[0].old_span()
    } else {
        0
    }
}

/// Number of unchanged lines with which a hunk closes.
pub open spec fn trailing_context(hunk: Seq<EditOp>) -> int {
    if hunk.len() > 0 && hunk.last() is Equal {
        hunk.last().old_span()
    } else {
        0
    }
}

/// Some operation of the hunk is a change. In a hunk, whose changes all hold
/// lines, such a change deletes or inserts a line.
pub open spec fn has_change(hunk: Seq<EditOp>) -> bool {
    exists|i: int| 0 <= i < hunk.len() && (#[trigger] hunk[i]).is_change()
}

/// What the context limit asks of operation `i` of a hunk, if it is `Equal`:
/// at most `context` lines at either end of the hunk, at most twice that
/// between two changes, and no `Equal` right before it.
pub open spec fn context_kept_at(hunk: Seq<EditOp>, i: int, context: int) -> bool {
    hunk[i] is Equal ==> {
        &&& hunk[i].old_span() <= (if i == 0 || i == hunk.len() - 1 {
            context
        } else {
            2 * context
        })
        &&& i > 0 ==> hunk[i - 1].is_change()
    }
}

/// A hunk: a run of operations without gaps that is not empty and changes
/// something, every change in it holding at least one line.
pub open spec fn is_hunk(hunk: Seq<EditOp>) -> bool {
    &&& hunk.len() > 0
    &&& contiguous(hunk)
    &&& has_change(hunk)
    &&& changes_hold_lines(hunk)
}

/// A hunk of a patch from `old` to `new` with `context` lines of context: a
/// hunk that stays within both sides, calls equal only what is equal, and
/// keeps to the context limit.
pub open spec fn hunk_fits(
    hunk: Seq<EditOp>,
    old: Seq<Seq<char>>,
    new: Seq<Seq<char>>,
    context: int,
) -> bool {
    &&& is_hunk(hunk)
    &&& hunk.last().old_end() <= old.len()
    &&& hunk.last().new_end() <= new.len()
    &&& forall|i: int| 0 <= i < hunk.len() ==> joins_equal_lines(#[trigger] hunk[i], old, new)
    &&& forall|i: int| 0 <= i < hunk.len() ==> context_kept_at(hunk, i, context)
}

/// Old-side position where the stretch before hunk `k` begins: the end of
/// the hunk before it, or the start of the text.
pub open spec fn gap_old_from(hunks: Seq<Seq<EditOp>>, k: int) -> int {
    if k <= 0 {
        0
    } else {
        hunks[k - 1].last().old_end()
    }
}

/// New-side position where the stretch before hunk `k` begins.
pub open spec fn gap_new_from(hunks: Seq<Seq<EditOp>>, k: int) -> int {
    if k <= 0 {
        0
    } else {
        hunks[k - 1].last().new_end()
    }
}

/// Old-side position where the stretch before hunk `k` ends: the start of
/// hunk `k`, or the end of the text after the last hunk.
pub open spec fn gap_old_to(hunks: Seq<Seq<EditOp>>, k: int, old_count: int) -> int {
    if k >= hunks.len() {
        old_count
    } else {
        hunks[k][0].old_start()
    }
}

/// New-side position where the stretch before hunk `k` ends.
pub open spec fn gap_new_to(hunks: Seq<Seq<EditOp>>, k: int, new_count: int) -> int {
    if k >= hunks.len() {
        new_count
    } else {
        hunks[k][0].new_start()
    }
}

/// Number of lines left out between hunk `k - 1` and hunk `k`.
pub open spec fn gap_len(hunks: Seq<Seq<EditOp>>, k: int, old_count: int) -> int {
    gap_old_to(hunks, k, old_count) - gap_old_from(hunks, k)
}

/// What a patch asks of the stretch between hunk `k - 1` and hunk `k` (before
/// the first hunk for `k == 0`, after the last for `k == hunks.len()`): it
/// lies within both sides and holds the same lines on both; two hunks are
/// apart; and where lines are left out, the hunks beside them carry the full
/// context.
pub open spec fn gap_fits(
    hunks: Seq<Seq<EditOp>>,
    old: Seq<Seq<char>>,
    new: Seq<Seq<char>>,
    context: int,
    k: int,
) -> bool {
    let old_from = gap_old_from(hunks, k);
    let new_from = gap_new_from(hunks, k);
    let old_to = gap_old_to(hunks, k, old.len() as int);
    let new_to = gap_new_to(hunks, k, new.len() as int);
    let len = old_to - old_from;
    &&& old_from <= old_to <= old.len()
    &&& new_from <= new_to <= new.len()
    &&& new_to - new_from == len
    &&& forall|j: int| 0 <= j < len ==> #[trigger] old[old_from + j] == new[new_from + j]
    &&& 0 < k < hunks.len() ==> len > 0
    &&& len > 0 && k < hunks.len() ==> leading_context(hunks[k]) == context
    &&& len > 0 && k > 0 ==> trailing_context(hunks[k - 1]) == context
}

/// `hunks` is a patch from `old` to `new` with `context` lines of context:
/// every hunk fits, and so does every stretch between and around them.
pub open spec fn is_patch(
    hunks: Seq<Seq<EditOp>>,
    old: Seq<Seq<char>>,
    new: Seq<Seq<char>>,
    context: int,
) -> bool {
    &&& forall|k: int| 0 <= k < hunks.len() ==> hunk_fits(#[trigger] hunks[k], old, new, context)
    &&& forall|k: int| 0 <= k <= hunks.len() ==> #[trigger] gap_fits(hunks, old, new, context, k)
}

/// Number of lines that the hunks delete or insert in all.
pub open spec fn patch_changed_lines(hunks: Seq<Seq<EditOp>>) -> int
    decreases hunks.len(),
{
    if hunks.len() == 0 {
        0
    } else {
        patch_changed_lines(hunks.drop_last()) + changed_lines(hunks.last())
    }
}

/// Where a hunk opens that follows position `(old_from, new_from)`. Its first
/// operation says so itself on each side where it holds lines; a deletion or
/// an insertion holds none on one side, and there the hunk opens as far from
/// the position before it as on the other side.
pub open spec fn opening(first: EditOp, old_from: usize, new_from: usize) -> (usize, usize) {
    match first {
        EditOp::Delete { old_index, .. } => (old_index, clamped(new_from + old_index - old_from)),
        EditOp::Insert { new_index, .. } => (clamped(old_from + new_index - new_from), new_index),
        EditOp::Equal { old_index, new_index, .. } => (old_index, new_index),
        EditOp::Replace { old_index, new_index, .. } => (old_index, new_index),
    }
}

/// A hunk that follows position `(old_from, new_from)` with every deletion
/// and insertion placed where it stands.
pub open spec fn settled_hunk(hunk: Seq<EditOp>, old_from: usize, new_from: usize) -> Seq<EditOp> {
    if hunk.len() == 0 {
        hunk
    } else {
        let at = opening(hunk[0], old_from, new_from);
        settled_from(hunk, at.0, at.1)
    }
}

/// The position at which the last of `hunks` ends, and the top where there
/// is none or it is empty.
pub open spec fn end_of_hunks(hunks: Seq<Seq<EditOp>>) -> (usize, usize) {
    if hunks.len() == 0 || hunks.last().len() == 0 {
        (0, 0)
    } else {
        (clamped(hunks.last().last().old_end()), clamped(hunks.last().last().new_end()))
    }
}

/// The hunks with every deletion and insertion placed where it stands, each
/// hunk following the one before it.
pub open spec fn settled_hunks(hunks: Seq<Seq<EditOp>>) -> Seq<Seq<EditOp>>
    decreases hunks.len(),
{
    if hunks.len() == 0 {
        Seq::empty()
    } else {
        let before = settled_hunks(hunks.drop_last());
        let from = end_of_hunks(before);
        before.push(settled_hunk(hunks.last(), from.0, from.1))
    }
}

/// In a patch, a hunk opens with as many unchanged lines as the context
/// asks for, or with all the lines left before it if those are fewer; and it
/// closes in the same way.
pub proof fn lemma_context_is_exact(
    hunks: Seq<Seq<EditOp>>,
    old: Seq<Seq<char>>,
    new: Seq<Seq<char>>,
    context: int,
    k: int,
)
    requires
        is_patch(hunks, old, new, context),
        0 <= context,
        0 <= k < hunks.len(),
    ensures
        leading_context(hunks[k]) == vstd::math::min(
            context,
            leading_context(hunks[k]) + gap_len(hunks, k, old.len() as int),
        ),
        trailing_context(hunks[k]) == vstd::math::min(
            context,
            trailing_context(hunks[k]) + gap_len(hunks, k + 1, old.len() as int),
        ),
{
    let hunk = hunks[k];
    assert(hunk_fits(hunk, old, new, context));
    assert(context_kept_at(hunk, 0, context));
    assert(context_kept_at(hunk, hunk.len() - 1, context));
    assert(gap_fits(hunks, old, new, context, k));
    assert(gap_fits(hunks, old, new, context, k + 1));
}

/// A patch without context holds no unchanged lines: every `Equal` operation
/// in its hunks is empty.
pub proof fn lemma_no_context_no_equal_lines(
    hunks: Seq<Seq<EditOp>>,
    old: Seq<Seq<char>>,
    new: Seq<Seq<char>>,
    k: int,
    i: int,
)
    requires
        is_patch(hunks, old, new, 0),
        0 <= k < hunks.len(),
        0 <= i < hunks[k].len(),
        hunks[k][i] is Equal,
    ensures
        hunks[k][i].old_span() == 0,
        hunks[k][i].new_span() == 0,
{
    assert(hunk_fits(hunks[k], old, new, 0));
    assert(context_kept_at(hunks[k], i, 0));
}

/// Between two hunks of a patch lie more unchanged lines than two contexts
/// hold: the context that closes the one, the context that opens the other,
/// and at least one line that is left out.
pub proof fn lemma_hunks_are_apart(
    hunks: Seq<Seq<EditOp>>,
    old: Seq<Seq<char>>,
    new: Seq<Seq<char>>,
    context: int,
    k: int,
)
    requires
        is_patch(hunks, old, new, context),
        0 < k < hunks.len(),
    ensures
        trailing_context(hunks[k - 1]) + gap_len(hunks, k, old.len() as int) + leading_context(
            hunks[k],
        ) > 2 * context,
{
    assert(gap_fits(hunks, old, new, context, k));
}

/// The lines that an operation leaves in the place of its old lines: those
/// old lines themselves if it is `Equal`, else its new lines.
pub open spec fn op_result(op: EditOp, old: Seq<Seq<char>>, new: Seq<Seq<char>>) -> Seq<Seq<char>> {
    if op is Equal {
        old.subrange(op.old_start(), op.old_end())
    } else {
        new.subrange(op.new_start(), op.new_end())
    }
}

/// The lines that a run of operations leaves in the place of its old lines.
pub open spec fn run_result(ops: Seq<EditOp>, old: Seq<Seq<char>>, new: Seq<Seq<char>>) -> Seq<
    Seq<char>,
>
    decreases ops.len(),
{
    if ops.len() == 0 {
        Seq::empty()
    } else {
        run_result(ops.drop_last(), old, new) + op_result(ops.last(), old, new)
    }
}

/// What comes of `old` up to the end of hunk `count - 1` when the first
/// `count` hunks are applied: before each hunk the old lines that are left
/// out, then what the hunk leaves.
pub open spec fn patched_upto(
    hunks: Seq<Seq<EditOp>>,
    old: Seq<Seq<char>>,
    new: Seq<Seq<char>>,
    count: int,
) -> Seq<Seq<char>>
    decreases count,
{
    if count <= 0 {
        Seq::empty()
    } else {
        patched_upto(hunks, old, new, count - 1) + old.subrange(
            gap_old_from(hunks, count - 1),
            gap_old_to(hunks, count - 1, old.len() as int),
        ) + run_result(hunks[count - 1], old, new)
    }
}

/// What comes of `old` when the hunks are applied to it.
pub open spec fn patched(hunks: Seq<Seq<EditOp>>, old: Seq<Seq<char>>, new: Seq<Seq<char>>) -> Seq<
    Seq<char>,
> {
    patched_upto(hunks, old, new, hunks.len() as int) + old.subrange(
        gap_old_from(hunks, hunks.len() as int),
        old.len() as int,
    )
}

/// A run of operations that has no gaps, stays within both sides and calls
/// equal only what is equal leaves the new lines that it spans.
pub proof fn lemma_run_leaves_new_lines(ops: Seq<EditOp>, old: Seq<Seq<char>>, new: Seq<Seq<char>>)
    requires
        ops.len() > 0,
        contiguous(ops),
        ops.last().old_end() <= old.len(),
        ops.last().new_end() <= new.len(),
        forall|i: int| 0 <= i < ops.len() ==> joins_equal_lines(#[trigger] ops[i], old, new),
    ensures
        run_result(ops, old, new) == new.subrange(ops[0].new_start(), ops.last().new_end()),
    decreases ops.len(),
{
    let last = ops.last();
    let rest = ops.drop_last();
    let from_old = ops[0].old_start();
    let from_new = ops[0].new_start();
    lemma_spans_bounds(ops, from_old, from_new, last.old_end(), last.new_end(), ops.len() - 1);
    assert(op_result(last, old, new) =~= new.subrange(last.new_start(), last.new_end())) by {
        assert(joins_equal_lines(ops[ops.len() - 1], old, new));
        if let EditOp::Equal { old_index, new_index, len } = last {
            assert forall|j: int| 0 <= j < len implies old.subrange(
                last.old_start(),
                last.old_end(),
            )[j] == new.subrange(last.new_start(), last.new_end())[j] by {
                assert(old[old_index + j] == new[new_index + j]);
            }
        }
    }
    if rest.len() == 0 {
        assert(run_result(rest, old, new) =~= Seq::<Seq<char>>::empty());
        assert(run_result(ops, old, new) =~= op_result(last, old, new));
    } else {
        lemma_spans_without_last(ops, from_old, from_new, last.old_end(), last.new_end());
        assert forall|i: int| 0 <= i < rest.len() implies joins_equal_lines(
            #[trigger] rest[i],
            old,
            new,
        ) by {
            assert(rest[i] == ops[i]);
        }
        lemma_spans_bounds(
            rest,
            from_old,
            from_new,
            last.old_start(),
            last.new_start(),
            0,
        );
        lemma_run_leaves_new_lines(rest, old, new);
        assert(rest[0] == ops[0]);
        assert(new.subrange(from_new, last.new_start()) + new.subrange(
            last.new_start(),
            last.new_end(),
        ) =~= new.subrange(from_new, last.new_end()));
    }
}

/// Applying the first `count` hunks of a patch gives the new lines up to the
/// end of the last of them.
pub proof fn lemma_patch_gives_new_start(
    hunks: Seq<Seq<EditOp>>,
    old: Seq<Seq<char>>,
    new: Seq<Seq<char>>,
    context: int,
    count: int,
)
    requires
        is_patch(hunks, old, new, context),
        0 <= count <= hunks.len(),
    ensures
        patched_upto(hunks, old, new, count) == new.take(gap_new_from(hunks, count)),
        0 <= gap_new_from(hunks, count) <= new.len(),
    decreases count,
{
    if count == 0 {
        assert(patched_upto(hunks, old, new, count) =~= new.take(0));
    } else {
        let k = count - 1;
        let hunk = hunks[k];
        lemma_patch_gives_new_start(hunks, old, new, context, k);
        assert(hunk_fits(hunk, old, new, context));
        assert(gap_fits(hunks, old, new, context, k));
        let old_from = gap_old_from(hunks, k);
        let new_from = gap_new_from(hunks, k);
        let old_to = gap_old_to(hunks, k, old.len() as int);
        let new_to = gap_new_to(hunks, k, new.len() as int);
        assert(old.subrange(old_from, old_to) =~= new.subrange(new_from, new_to)) by {
            assert forall|j: int| 0 <= j < old_to - old_from implies old.subrange(
                old_from,
                old_to,
            )[j] == new.subrange(new_from, new_to)[j] by {
                assert(old[old_from + j] == new[new_from + j]);
            }
        }
        lemma_run_leaves_new_lines(hunk, old, new);
        lemma_spans_bounds(
            hunk,
            hunk[0].old_start(),
            hunk[0].new_start(),
            hunk.last().old_end(),
            hunk.last().new_end(),
            0,
        );
        assert(new.take(new_from) + new.subrange(new_from, new_to) + new.subrange(
            new_to,
            hunk.last().new_end(),
        ) =~= new.take(hunk.last().new_end()));
    }
}

/// Applying a patch from `old` to `new` to the lines of `old` gives the
/// lines of `new`.
pub proof fn lemma_patch_gives_new(
    hunks: Seq<Seq<EditOp>>,
    old: Seq<Seq<char>>,
    new: Seq<Seq<char>>,
    context: int,
)
    requires
        is_patch(hunks, old, new, context),
    ensures
        patched(hunks, old, new) == new,
{
    let count = hunks.len() as int;
    lemma_patch_gives_new_start(hunks, old, new, context, count);
    assert(gap_fits(hunks, old, new, context, count));
    let old_from = gap_old_from(hunks, count);
    let new_from = gap_new_from(hunks, count);
    assert(old.subrange(old_from, old.len() as int) =~= new.subrange(new_from, new.len() as int))
        by {
        assert forall|j: int| 0 <= j < old.len() - old_from implies old.subrange(
            old_from,
            old.len() as int,
        )[j] == new.subrange(new_from, new.len() as int)[j] by {
            assert(old[old_from + j] == new[new_from + j]);
        }
    }
    assert(new.take(new_from) + new.subrange(new_from, new.len() as int) =~= new);
}

/// Decides whether `hunk` fits as a hunk of a patch from `old` to `new` with
/// `context` lines of context.
pub fn check_hunk(hunk: &Vec<EditOp>, old: &Vec<String>, new: &Vec<String>, context: usize) -> (ok:
    bool)
    ensures
        ok == hunk_fits(hunk@, line_texts(old@), line_texts(new@), context as int),
{
    let ghost old_texts = line_texts(old@);
    let ghost new_texts = line_texts(new@);
    let count = hunk.len();
    if count == 0 {
        return false;
    }
    let mut old_at: usize = hunk[0].old_index();
    let mut new_at: usize = hunk[0].new_index();
    if old_at > old.len() || new_at > new.len() {
        proof {
            if hunk_fits(hunk@, old_texts, new_texts, context as int) {
                lemma_spans_bounds(
                    hunk@,
                    hunk@[0].old_start(),
                    hunk@[0].new_start(),
                    hunk@.last().old_end(),
                    hunk@.last().new_end(),
                    0,
                );
            }
        }
        return false;
    }
    let mut changed = false;
    let mut after_equal = false;
    let mut i: usize = 0;
    while i < count
        invariant
            count == hunk.len(),
            count > 0,
            i <= count,
            old_texts == line_texts(old@),
            new_texts == line_texts(new@),
            old_at <= old.len(),
            new_at <= new.len(),
            forall|k: int|
                0 < k < i ==> (#[trigger] hunk@[k]).old_start() == hunk@[k - 1].old_end()
                    && hunk@[k].new_start() == hunk@[k - 1].new_end(),
            old_at == (if i == 0 { hunk@[0].old_start() } else { hunk@[i - 1].old_end() }),
            new_at == (if i == 0 { hunk@[0].new_start() } else { hunk@[i - 1].new_end() }),
            changed == exists|k: int| 0 <= k < i && (#[trigger] hunk@[k]).is_change(),
            after_equal == (i > 0 && hunk@[i - 1] is Equal),
            forall|k: int| 0 <= k < i ==> joins_equal_lines(#[trigger] hunk@[k], old_texts, new_texts),
            forall|k: int| 0 <= k < i ==> context_kept_at(hunk@, k, context as int),
            forall|k: int| 0 <= k < i && (#[trigger] hunk@[k]).is_change() ==> hunk@[k].holds_lines(),
        decreases count - i,
    {
        let op = hunk[i];
        if op.old_index() != old_at || op.new_index() != new_at {
            return false;
        }
        if op.changes() && !op.has_lines() {
            assert(!changes_hold_lines(hunk@));
            return false;
        }
        if op.old_len() > old.len() - old_at || op.new_len() > new.len() - new_at {
            proof {
                if hunk_fits(hunk@, old_texts, new_texts, context as int) {
                    lemma_spans_bounds(
                        hunk@,
                        hunk@[0].old_start(),
                        hunk@[0].new_start(),
                        hunk@.last().old_end(),
                        hunk@.last().new_end(),
                        i as int,
                    );
                }
            }
            return false;
        }
        if let EditOp::Equal { old_index, new_index, len } = op {
            if !same_lines(old, old_index, new, new_index, len) {
                assert(!joins_equal_lines(hunk@[i as int], old_texts, new_texts));
                return false;
            }
            let at_end = i == 0 || i == count - 1;
            let short = len <= context || (!at_end && len - context <= context);
            if after_equal || !short {
                assert(!context_kept_at(hunk@, i as int, context as int));
                return false;
            }
            after_equal = true;
        } else {
            changed = true;
            after_equal = false;
        }
        old_at = old_at + op.old_len();
        new_at = new_at + op.new_len();
        i += 1;
    }
    changed
}

/// Number of unchanged lines with which `hunk` opens.
pub fn leading_lines(hunk: &Vec<EditOp>) -> (count: usize)
    ensures
        count == leading_context(hunk@),
{
    if hunk.len() == 0 {
        return 0;
    }
    match hunk[0] {
        EditOp::Equal { len, .. } => len,
        _ => 0,
    }
}

/// Number of unchanged lines with which `hunk` closes.
pub fn trailing_lines(hunk: &Vec<EditOp>) -> (count: usize)
    ensures
        count == trailing_context(hunk@),
{
    if hunk.len() == 0 {
        return 0;
    }
    match hunk[hunk.len() - 1] {
        EditOp::Equal { len, .. } => len,
        _ => 0,
    }
}

/// Decides whether `hunks` is a patch from the lines `old` to the lines `new`
/// with `context` lines of context.
pub fn check_patch(
    hunks: &Vec<Vec<EditOp>>,
    old: &Vec<String>,
    new: &Vec<String>,
    context: usize,
) -> (ok: bool)
    ensures
        ok == is_patch(hunk_runs(hunks@), line_texts(old@), line_texts(new@), context as int),
{
    let ghost hs = hunk_runs(hunks@);
    let ghost old_texts = line_texts(old@);
    let ghost new_texts = line_texts(new@);
    let ghost c = context as int;
    let mut old_at: usize = 0;
    let mut new_at: usize = 0;
    let mut full_before = true;
    let mut k: usize = 0;
    while k < hunks.len()
        invariant
            k <= hunks.len(),
            hs == hunk_runs(hunks@),
            old_texts == line_texts(old@),
            new_texts == line_texts(new@),
            c == context as int,
            old_at <= old.len(),
            new_at <= new.len(),
            old_at == gap_old_from(hs, k as int),
            new_at == gap_new_from(hs, k as int),
            full_before == (k > 0 ==> trailing_context(hs[k - 1]) == c),
            forall|j: int| 0 <= j < k ==> hunk_fits(#[trigger] hs[j], old_texts, new_texts, c),
            forall|j: int| 0 <= j < k ==> #[trigger] gap_fits(hs, old_texts, new_texts, c, j),
        decreases hunks.len() - k,
    {
        let hunk = &hunks[k];
        assert(hs[k as int] == hunk@);
        if !check_hunk(hunk, old, new, context) {
            return false;
        }
        let first = hunk[0];
        let last = hunk[hunk.len() - 1];
        proof {
            lemma_spans_bounds(
                hunk@,
                first.old_start(),
                first.new_start(),
                last.old_end(),
                last.new_end(),
                0,
            );
        }
        let old_start = first.old_index();
        let new_start = first.new_index();
        if old_start < old_at || new_start < new_at || old_start - old_at != new_start - new_at {
            assert(!gap_fits(hs, old_texts, new_texts, c, k as int));
            return false;
        }
        let gap = old_start - old_at;
        if !same_lines(old, old_at, new, new_at, gap) {
            proof {
                if gap_fits(hs, old_texts, new_texts, c, k as int) {
                    assert forall|j: int| 0 <= j < gap implies #[trigger] old_texts[old_at + j]
                        == new_texts[new_at + j] by {}
                }
            }
            return false;
        }
        if k > 0 && gap == 0 {
            assert(!gap_fits(hs, old_texts, new_texts, c, k as int));
            return false;
        }
        if gap > 0 && (leading_lines(hunk) != context || !full_before) {
            assert(!gap_fits(hs, old_texts, new_texts, c, k as int));
            return false;
        }
        assert(gap_fits(hs, old_texts, new_texts, c, k as int));
        old_at = last.old_index() + last.old_len();
        new_at = last.new_index() + last.new_len();
        full_before = trailing_lines(hunk) == context;
        k += 1;
    }
    let ghost end = hunks.len() as int;
    if old.len() - old_at != new.len() - new_at {
        assert(!gap_fits(hs, old_texts, new_texts, c, end));
        return false;
    }
    let gap = old.len() - old_at;
    if !same_lines(old, old_at, new, new_at, gap) {
        proof {
            if gap_fits(hs, old_texts, new_texts, c, end) {
                assert forall|j: int| 0 <= j < gap implies #[trigger] old_texts[old_at + j]
                    == new_texts[new_at + j] by {}
            }
        }
        return false;
    }
    if gap > 0 && !full_before {
        assert(!gap_fits(hs, old_texts, new_texts, c, end));
        return false;
    }
    assert(gap_fits(hs, old_texts, new_texts, c, end));
    true
}

/// The position `to - from` lines past `base`, kept within the positions
/// there are.
fn shifted(base: usize, to: usize, from: usize) -> (at: usize)
    ensures
        at == clamped(base + to - from),
{
    if to >= from {
        let ahead = to - from;
        if ahead > usize::MAX - base {
            usize::MAX
        } else {
            base + ahead
        }
    } else {
        let back = from - to;
        if back > base {
            0
        } else {
            base - back
        }
    }
}

/// Places every deletion and insertion of a hunk that follows position
/// `(old_from, new_from)` where it stands.
pub fn settle_hunk(hunk: &Vec<EditOp>, old_from: usize, new_from: usize) -> (settled: Vec<EditOp>)
    ensures
        settled@ == settled_hunk(hunk@, old_from, new_from),
        settled.len() == hunk.len(),
{
    if hunk.len() == 0 {
        let none: Vec<EditOp> = Vec::new();
        assert(none@ =~= hunk@);
        return none;
    }
    match hunk[0] {
        EditOp::Delete { old_index, .. } => settle_from(
            hunk,
            old_index,
            shifted(new_from, old_index, old_from),
        ),
        EditOp::Insert { new_index, .. } => settle_from(
            hunk,
            shifted(old_from, new_index, new_from),
            new_index,
        ),
        EditOp::Equal { old_index, new_index, .. } => settle_from(hunk, old_index, new_index),
        EditOp::Replace { old_index, new_index, .. } => settle_from(hunk, old_index, new_index),
    }
}

/// Places every deletion and insertion of the hunks where it stands, each
/// hunk following the one before it.
pub fn settle_hunks(hunks: &Vec<Vec<EditOp>>) -> (settled: Vec<Vec<EditOp>>)
    ensures
        hunk_runs(settled@) == settled_hunks(hunk_runs(hunks@)),
{
    let ghost groups = hunk_runs(hunks@);
    let mut settled: Vec<Vec<EditOp>> = Vec::new();
    let mut old_at: usize = 0;
    let mut new_at: usize = 0;
    let mut k: usize = 0;
    assert(hunk_runs(settled@) =~= settled_hunks(groups.take(0)));
    while k < hunks.len()
        invariant
            k <= hunks.len(),
            groups == hunk_runs(hunks@),
            hunk_runs(settled@) == settled_hunks(groups.take(k as int)),
            (old_at, new_at) == end_of_hunks(hunk_runs(settled@)),
        decreases hunks.len() - k,
    {
        let hunk = settle_hunk(&hunks[k], old_at, new_at);
        proof {
            let grown = groups.take(k + 1);
            assert(grown.drop_last() =~= groups.take(k as int));
            assert(grown.last() == hunks@[k as int]@);
            assert(hunk_runs(settled@.push(hunk)) =~= hunk_runs(settled@).push(hunk@));
        }
        if hunk.len() == 0 {
            old_at = 0;
            new_at = 0;
        } else {
            let last = hunk[hunk.len() - 1];
            old_at = last.old_end_clamped();
            new_at = last.new_end_clamped();
        }
        settled.push(hunk);
        k += 1;
    }
    assert(groups.take(hunks.len() as int) =~= groups);
    settled
}

/// Counts the lines that the hunks of a patch delete or insert in all. They
/// are no more than the lines of both sides.
pub fn patch_changed_line_count(
    hunks: &Vec<Vec<EditOp>>,
    old_lines: &Vec<String>,
    new_lines: &Vec<String>,
    context: usize,
) -> (count: u128)
    requires
        is_patch(
            hunk_runs(hunks@),
            line_texts(old_lines@),
            line_texts(new_lines@),
            context as int,
        ),
    ensures
        count == patch_changed_lines(hunk_runs(hunks@)),
        count <= old_lines.len() + new_lines.len(),
{
    let ghost hs = hunk_runs(hunks@);
    let ghost old_texts = line_texts(old_lines@);
    let ghost new_texts = line_texts(new_lines@);
    let mut count: u128 = 0;
    let mut k: usize = 0;
    while k < hunks.len()
        invariant
            k <= hunks.len(),
            hs == hunk_runs(hunks@),
            old_texts == line_texts(old_lines@),
            new_texts == line_texts(new_lines@),
            is_patch(hs, old_texts, new_texts, context as int),
            count == patch_changed_lines(hs.take(k as int)),
            count <= gap_old_from(hs, k as int) + gap_new_from(hs, k as int),
            gap_old_from(hs, k as int) <= old_lines.len(),
            gap_new_from(hs, k as int) <= new_lines.len(),
        decreases hunks.len() - k,
    {
        let hunk = &hunks[k];
        proof {
            assert(hs[k as int] == hunk@);
            assert(hunk_fits(hs[k as int], old_texts, new_texts, context as int));
            assert(gap_fits(hs, old_texts, new_texts, context as int, k as int));
            let grown = hs.take(k + 1);
            assert(grown.drop_last() =~= hs.take(k as int));
            assert(grown.last() == hunk@);
        }
        count = count + changed_line_count(hunk);
        k += 1;
    }
    assert(hs.take(hunks.len() as int) =~= hs);
    count
}

} // verus!
