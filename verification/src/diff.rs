//! From two texts to a unified diff.

use vstd::prelude::*;

use crate::distance::{
    accepted_minimal_script, edit_distance, lemma_same_lines_no_distance, minimal_edit_script,
};
use crate::engine::{accepted_groups, group_hunks};
use crate::format::{file_header_text, format_unified, hunk_in_bounds, unified_text};
use crate::hunks::{gap_fits, hunk_fits, hunk_runs, is_patch, patch_changed_lines};
use crate::lines::{line_texts, lines_of, split_lines};
use crate::ops::{same_lines, EditOp};

verus! {

/// The hunks between two sequences of lines, if any are given: none are
/// needed where the two are the same; else the edit script between them is
/// asked for, kept if it changes as few lines as can be, and cut into hunks.
pub open spec fn accepted_hunks(old: Seq<Seq<char>>, new: Seq<Seq<char>>, context: usize) -> Option<
    Seq<Seq<EditOp>>,
> {
    if old == new {
        Some(Seq::empty())
    } else {
        match accepted_minimal_script(old, new) {
            Some(script) => accepted_groups(script, old, new, context),
            None => None,
        }
    }
}

/// The hunks that are given between two sequences of lines are a patch from
/// the one to the other with the context asked for, and they delete and
/// insert exactly as many lines as the edit distance of the two.
pub proof fn lemma_accepted_hunks_are_a_patch(
    old: Seq<Seq<char>>,
    new: Seq<Seq<char>>,
    context: usize,
)
    ensures
        accepted_hunks(old, new, context) matches Some(hunks) ==> is_patch(
            hunks,
            old,
            new,
            context as int,
        ) && patch_changed_lines(hunks) == edit_distance(old, new),
{
    if old == new {
        let none = Seq::<Seq<EditOp>>::empty();
        assert(gap_fits(none, old, new, context as int, 0));
        lemma_same_lines_no_distance(old);
    }
}

/// Tells whether the two sides hold the same lines.
pub fn all_lines_same(old_lines: &Vec<String>, new_lines: &Vec<String>) -> (same: bool)
    ensures
        same == (line_texts(old_lines@) == line_texts(new_lines@)),
{
    let ghost old_texts = line_texts(old_lines@);
    let ghost new_texts = line_texts(new_lines@);
    if old_lines.len() != new_lines.len() {
        assert(old_texts.len() != new_texts.len());
        return false;
    }
    let same = same_lines(old_lines, 0, new_lines, 0, old_lines.len());
    proof {
        if same {
            assert forall|j: int| 0 <= j < old_texts.len() implies old_texts[j] == new_texts[j] by {
                assert(old_texts[0 + j] == new_texts[0 + j]);
            }
            assert(old_texts =~= new_texts);
        }
    }
    same
}

/// Finds the hunks of a patch from the lines `old_lines` to the lines
/// `new_lines` with `context` lines of context. Where the two sides hold the
/// same lines there are none. Else the edit script between the two is asked
/// for, tested for changing as few lines as can be, and cut into hunks.
/// `None` marks a defect of the outside engine, whose answer was not what a
/// script or a patch has to be, or more lines than the engine is handed.
pub fn patch_hunks(old_lines: &Vec<String>, new_lines: &Vec<String>, context: usize) -> (hunks:
    Option<Vec<Vec<EditOp>>>)
    ensures
        match accepted_hunks(line_texts(old_lines@), line_texts(new_lines@), context) {
            Some(groups) => hunks matches Some(found) && hunk_runs(found@) == groups,
            None => hunks is None,
        },
        hunks matches Some(found) ==> is_patch(
            hunk_runs(found@),
            line_texts(old_lines@),
            line_texts(new_lines@),
            context as int,
        ),
        hunks matches Some(found) ==> patch_changed_lines(hunk_runs(found@)) == edit_distance(
            line_texts(old_lines@),
            line_texts(new_lines@),
        ),
        line_texts(old_lines@) == line_texts(new_lines@) ==> (hunks matches Some(found)
            && found@.len() == 0),
{
    let ghost old_texts = line_texts(old_lines@);
    let ghost new_texts = line_texts(new_lines@);
    if all_lines_same(old_lines, new_lines) {
        let none: Vec<Vec<EditOp>> = Vec::new();
        proof {
            assert(hunk_runs(none@) =~= Seq::<Seq<EditOp>>::empty());
            assert(gap_fits(hunk_runs(none@), old_texts, new_texts, context as int, 0));
            lemma_same_lines_no_distance(old_texts);
        }
        return Some(none);
    }
    match minimal_edit_script(old_lines, new_lines) {
        Some(script) => group_hunks(&script, old_lines, new_lines, context),
        None => None,
    }
}

/// Writes the unified diff between `old_text` and `new_text` with
/// `context_lines` lines of context around each change, under the labels
/// given for the two files. The hunks written are a patch from the lines of
/// the one text to the lines of the other that deletes and inserts as few
/// lines as can be. `None` is no answer about the texts: it marks a defect of
/// the outside engine, whose answer was not what a script or a patch has to
/// be, or more lines than the engine is handed.
pub fn unified_diff(
    old_label: &str,
    new_label: &str,
    old_text: &str,
    new_text: &str,
    context_lines: usize,
) -> (diff: Option<String>)
    ensures
        match accepted_hunks(split_lines(old_text@), split_lines(new_text@), context_lines) {
            Some(groups) => diff matches Some(text) && text@ == unified_text(
                old_label@,
                new_label@,
                groups,
                split_lines(old_text@),
                split_lines(new_text@),
            ),
            None => diff is None,
        },
        old_text@ == new_text@ ==> (diff matches Some(text) && text@ == file_header_text(
            old_label@,
            new_label@,
        )),
{
    let old_lines = lines_of(old_text);
    let new_lines = lines_of(new_text);
    match patch_hunks(&old_lines, &new_lines, context_lines) {
        Some(hunks) => {
            proof {
                let groups = hunk_runs(hunks@);
                assert forall|k: int| 0 <= k < hunks.len() implies hunk_in_bounds(
                    (#[trigger] hunks@[k])@,
                    old_lines.len() as int,
                    new_lines.len() as int,
                ) by {
                    assert(hunk_fits(
                        groups[k],
                        line_texts(old_lines@),
                        line_texts(new_lines@),
                        context_lines as int,
                    ));
                }
                if old_text@ == new_text@ {
                    assert(groups =~= Seq::<Seq<EditOp>>::empty());
                    assert(unified_text(
                        old_label@,
                        new_label@,
                        groups,
                        split_lines(old_text@),
                        split_lines(new_text@),
                    ) =~= file_header_text(old_label@, new_label@));
                }
            }
            Some(format_unified(old_label, new_label, &hunks, &old_lines, &new_lines))
        },
        None => None,
    }
}

/// Writes the unified diff between `old_text` and `new_text` with
/// `context_lines` lines of context, with nothing behind `a/` and `b/` in
/// the file header. `None` marks a defect of the outside engine or more
/// lines than it is handed, as in `unified_diff`.
pub fn generate_diff(old_text: &str, new_text: &str, context_lines: usize) -> (diff: Option<String>)
    ensures
        match accepted_hunks(split_lines(old_text@), split_lines(new_text@), context_lines) {
            Some(groups) => diff matches Some(text) && text@ == unified_text(
                Seq::empty(),
                Seq::empty(),
                groups,
                split_lines(old_text@),
                split_lines(new_text@),
            ),
            None => diff is None,
        },
        old_text@ == new_text@ ==> (diff matches Some(text) && text@ == file_header_text(
            Seq::empty(),
            Seq::empty(),
        )),
{
    proof {
        reveal_strlit("");
        assert(""@ =~= Seq::<char>::empty());
    }
    unified_diff("", "", old_text, new_text, context_lines)
}

} // verus!
