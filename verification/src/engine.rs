//! The edit script and its grouping, as the `similar` crate computes them,
//! and what is kept of them.

use vstd::prelude::*;

use crate::hunks::{
    check_patch, hunk_runs, is_patch, patch_changed_line_count, patch_changed_lines,
    settle_hunks, settled_hunks,
};
use crate::lines::line_texts;
use crate::ops::{
    changed_lines, changed_lines_are, check_runs_merged, check_script, covers,
    equal_runs_merged, is_edit_script, settle_from, settled_from, spans_fit, EditOp,
};

verus! {

/// An operation as `similar` holds it. Nothing is read of such a value here:
/// it is made from an `EditOp` and handed back to `similar`.
#[verifier::external_type_specification]
#[verifier::external_body]
pub struct ExCapturedOp(similar::DiffOp);

/// The operations that operations of `similar` stand for: each with the same
/// tag and the same fields.
pub uninterp spec fn op_models(raw: Seq<similar::DiffOp>) -> Seq<EditOp>;

/// The operations that `similar` captures for two sequences of lines, with
/// its default algorithm and no deadline.
pub uninterp spec fn captured_ops(old: Seq<Seq<char>>, new: Seq<Seq<char>>) -> Seq<EditOp>;

/// The groups into which `similar` cuts a sequence of operations for a given
/// number of context lines.
pub uninterp spec fn grouped_ops(ops: Seq<EditOp>, context: nat) -> Seq<Seq<EditOp>>;

/// Most lines that the two sides may have together when they are handed to
/// `similar`, which numbers distinct lines with 32-bit integers and sizes its
/// tables by the total: this many lines it can take wherever `usize` has 32
/// bits or more.
pub const MAX_TOTAL_LINES: usize = 0x0fff_ffff;

/// Calls `similar::TextDiff::from_slices` on the two sequences of lines and
/// copies out the operations it holds. Nothing is claimed of them but that
/// they are a function of the lines alone.
#[verifier::external_body]
fn capture_ops(old: &Vec<String>, new: &Vec<String>) -> (ops: Vec<EditOp>)
    requires
        old.len() + new.len() <= MAX_TOTAL_LINES,
    ensures
        ops@ == captured_ops(line_texts(old@), line_texts(new@)),
{
    let old_refs: Vec<&str> = old.iter().map(String::as_str).collect();
    let new_refs: Vec<&str> = new.iter().map(String::as_str).collect();
    similar::TextDiff::from_slices(&old_refs, &new_refs).ops().iter().map(|op| match *op {
        similar::DiffOp::Equal { old_index, new_index, len } => EditOp::Equal { old_index, new_index, len },
        similar::DiffOp::Delete { old_index, old_len, new_index } => EditOp::Delete { old_index, old_len, new_index },
        similar::DiffOp::Insert { old_index, new_index, new_len } => EditOp::Insert { old_index, new_index, new_len },
        similar::DiffOp::Replace { old_index, old_len, new_index, new_len } => EditOp::Replace { old_index, old_len, new_index, new_len },
    }).collect()
}

/// Builds for each operation the `similar::DiffOp` with the same tag and the
/// same fields, so that the operations can be handed to `similar`. The
/// contract says that these values stand for the operations given.
#[verifier::external_body]
fn raw_ops(ops: &Vec<EditOp>) -> (raw: Vec<similar::DiffOp>)
    ensures
        op_models(raw@) == ops@,
{
    ops.iter().map(|op| match *op {
        EditOp::Equal { old_index, new_index, len } => similar::DiffOp::Equal { old_index, new_index, len },
        EditOp::Delete { old_index, old_len, new_index } => similar::DiffOp::Delete { old_index, old_len, new_index },
        EditOp::Insert { old_index, new_index, new_len } => similar::DiffOp::Insert { old_index, new_index, new_len },
        EditOp::Replace { old_index, old_len, new_index, new_len } => similar::DiffOp::Replace { old_index, old_len, new_index, new_len },
    }).collect()
}

/// Calls `similar::group_diff_ops` and copies out the groups. That function
/// adds within the spans of `Equal` operations and doubles `context` without
/// checks, so these spans have to end within `usize` and twice `context` has
/// to fit. Nothing is claimed of the groups but that they are a function of
/// the operations and of `context`.
#[verifier::external_body]
fn group_ops(raw: Vec<similar::DiffOp>, context: usize) -> (groups: Vec<Vec<EditOp>>)
    requires
        2 * context <= usize::MAX,
        spans_fit(op_models(raw@)),
    ensures
        hunk_runs(groups@) == grouped_ops(op_models(raw@), context as nat),
{
    similar::group_diff_ops(raw, context).into_iter().map(|g| g.into_iter().map(|op| match op {
        similar::DiffOp::Equal { old_index, new_index, len } => EditOp::Equal { old_index, new_index, len },
        similar::DiffOp::Delete { old_index, old_len, new_index } => EditOp::Delete { old_index, old_len, new_index },
        similar::DiffOp::Insert { old_index, new_index, new_len } => EditOp::Insert { old_index, new_index, new_len },
        similar::DiffOp::Replace { old_index, old_len, new_index, new_len } => EditOp::Replace { old_index, old_len, new_index, new_len },
    }).collect()).collect()
}

/// The number of context lines that is asked of the grouping: more than
/// there can be lines adds nothing.
pub open spec fn context_in_reach(context: usize) -> nat {
    if context <= MAX_TOTAL_LINES {
        context as nat
    } else {
        MAX_TOTAL_LINES as nat
    }
}

/// The edit script that `edit_script` answers with, if it gives one: the
/// operations that the outside engine captures, every deletion and insertion
/// placed where it stands, provided there are not too many lines and these
/// operations are an edit script that tells the lines that stay in whole
/// runs.
pub open spec fn accepted_script(old: Seq<Seq<char>>, new: Seq<Seq<char>>) -> Option<Seq<EditOp>> {
    let ops = settled_from(captured_ops(old, new), 0, 0);
    if old.len() + new.len() <= MAX_TOTAL_LINES && is_edit_script(ops, old, new)
        && equal_runs_merged(ops) {
        Some(ops)
    } else {
        None
    }
}

/// The hunks that `group_hunks` answers with, if it gives any: the groups
/// into which the outside engine cuts the operations, every deletion and
/// insertion placed where it stands, provided the spans of the operations
/// fit, these groups are a patch with the context asked for, and they change
/// as many lines as the operations do.
pub open spec fn accepted_groups(
    ops: Seq<EditOp>,
    old: Seq<Seq<char>>,
    new: Seq<Seq<char>>,
    context: usize,
) -> Option<Seq<Seq<EditOp>>> {
    let groups = settled_hunks(grouped_ops(ops, context_in_reach(context)));
    if spans_fit(ops) && is_patch(groups, old, new, context as int) && patch_changed_lines(groups)
        == changed_lines(ops) {
        Some(groups)
    } else {
        None
    }
}

/// Asks the outside engine for the operations between two sequences of
/// lines, places every deletion and insertion where it stands, and keeps the
/// operations only if they are an edit script from the one sequence to the
/// other in which no `Equal` follows an `Equal`.
pub fn edit_script(old_lines: &Vec<String>, new_lines: &Vec<String>) -> (script: Option<Vec<EditOp>>)
    ensures
        match accepted_script(line_texts(old_lines@), line_texts(new_lines@)) {
            Some(ops) => script matches Some(found) && found@ == ops,
            None => script is None,
        },
        script matches Some(found) ==> is_edit_script(
            found@,
            line_texts(old_lines@),
            line_texts(new_lines@),
        ),
        script matches Some(found) ==> covers(
            found@,
            old_lines.len() as int,
            new_lines.len() as int,
        ),
        script matches Some(found) ==> equal_runs_merged(found@),
{
    if old_lines.len() > MAX_TOTAL_LINES || new_lines.len() > MAX_TOTAL_LINES - old_lines.len() {
        return None;
    }
    let ops = settle_from(&capture_ops(old_lines, new_lines), 0, 0);
    if check_script(&ops, old_lines, new_lines) && check_runs_merged(&ops) {
        Some(ops)
    } else {
        None
    }
}

/// Decides whether every operation ends, on both sides, at a position that
/// there is.
pub fn check_spans_fit(ops: &Vec<EditOp>) -> (ok: bool)
    ensures
        ok == spans_fit(ops@),
{
    let mut i: usize = 0;
    while i < ops.len()
        invariant
            i <= ops.len(),
            forall|k: int|
                0 <= k < i ==> (#[trigger] ops@[k]).old_end() <= usize::MAX && ops@[k].new_end()
                    <= usize::MAX,
        decreases ops.len() - i,
    {
        let op = ops[i];
        if op.old_len() > usize::MAX - op.old_index() || op.new_len() > usize::MAX
            - op.new_index() {
            return false;
        }
        i += 1;
    }
    true
}

/// Asks the outside engine to cut `ops` into groups with `context` lines of
/// context, places every deletion and insertion where it stands, and keeps
/// the groups only if they are a patch from `old_lines` to `new_lines` with
/// that context which changes as many lines as `ops` does.
pub fn group_hunks(
    ops: &Vec<EditOp>,
    old_lines: &Vec<String>,
    new_lines: &Vec<String>,
    context: usize,
) -> (hunks: Option<Vec<Vec<EditOp>>>)
    ensures
        match accepted_groups(ops@, line_texts(old_lines@), line_texts(new_lines@), context) {
            Some(groups) => hunks matches Some(found) && hunk_runs(found@) == groups,
            None => hunks is None,
        },
        hunks matches Some(found) ==> is_patch(
            hunk_runs(found@),
            line_texts(old_lines@),
            line_texts(new_lines@),
            context as int,
        ),
        hunks matches Some(found) ==> patch_changed_lines(hunk_runs(found@)) == changed_lines(
            ops@,
        ),
{
    if !check_spans_fit(ops) {
        return None;
    }
    let reach = if context <= MAX_TOTAL_LINES {
        context
    } else {
        MAX_TOTAL_LINES
    };
    let groups = settle_hunks(&group_ops(raw_ops(ops), reach));
    if !check_patch(&groups, old_lines, new_lines, context) {
        return None;
    }
    let changed = patch_changed_line_count(&groups, old_lines, new_lines, context);
    if changed_lines_are(ops, changed) {
        Some(groups)
    } else {
        None
    }
}

} // verus!
