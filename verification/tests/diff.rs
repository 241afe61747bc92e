use linediff::diff::{generate_diff, patch_hunks, unified_diff};
use linediff::distance::lcs_length;
use linediff::lines::lines_of;
use linediff::hunks::{leading_lines, trailing_lines};
use linediff::ops::EditOp;

#[test]
fn one_changed_line_with_full_context() {
    let diff = generate_diff("a\nb\nc\n", "a\nx\nc\n", 3).unwrap();
    assert_eq!(diff, "--- a/\n+++ b/\n@@ -1,3 +1,3 @@\n a\n-b\n+x\n c\n");
}

#[test]
fn insert_into_empty_text() {
    for context in [0usize, 1, 3, 100] {
        let diff = generate_diff("", "hello\n", context).unwrap();
        assert_eq!(diff, "--- a/\n+++ b/\n@@ -1,0 +1,1 @@\n+hello\n");
    }
}

#[test]
fn delete_whole_text() {
    let diff = generate_diff("hello\n", "", 3).unwrap();
    assert_eq!(diff, "--- a/\n+++ b/\n@@ -1,1 +1,0 @@\n-hello\n");
}

#[test]
fn context_of_one_line_trims_the_rest() {
    let old = "1\n2\n3\n4\n5\n6\n7\n";
    let new = "1\n2\nX\n4\n5\n6\n7\n";
    let diff = generate_diff(old, new, 1).unwrap();
    assert_eq!(diff, "--- a/\n+++ b/\n@@ -2,3 +2,3 @@\n 2\n-3\n+X\n 4\n");
    let hunks = patch_hunks(&lines_of(old), &lines_of(new), 1).unwrap();
    assert_eq!(
        hunks,
        vec![vec![
            EditOp::Equal { old_index: 1, new_index: 1, len: 1 },
            EditOp::Replace { old_index: 2, old_len: 1, new_index: 2, new_len: 1 },
            EditOp::Equal { old_index: 3, new_index: 3, len: 1 },
        ]]
    );
}

#[test]
fn no_context_leaves_only_changes() {
    let diff = generate_diff("1\n2\n3\n4\n5\n", "1\n2\nX\n4\n5\n", 0).unwrap();
    assert_eq!(diff, "--- a/\n+++ b/\n@@ -3,1 +3,1 @@\n-3\n+X\n");
}

#[test]
fn same_text_gives_no_hunks() {
    for context in [0usize, 1, 3, usize::MAX] {
        assert_eq!(generate_diff("a\nb\n", "a\nb\n", context).unwrap(), "--- a/\n+++ b/\n");
        assert_eq!(generate_diff("", "", context).unwrap(), "--- a/\n+++ b/\n");
    }
}

#[test]
fn labels_stand_in_the_file_header() {
    let diff = unified_diff("old.txt", "new.txt", "a\n", "b\n", 3).unwrap();
    assert_eq!(diff, "--- a/old.txt\n+++ b/new.txt\n@@ -1,1 +1,1 @@\n-a\n+b\n");
}

#[test]
fn far_changes_give_two_hunks() {
    let old = "1\n2\n3\n4\n5\n6\n7\n8\n9\n";
    let new = "1\n2\n4\n5\n6\n7\n8\n8a\n9\n";
    let diff = generate_diff(old, new, 2).unwrap();
    assert_eq!(
        diff,
        "--- a/\n+++ b/\n@@ -1,5 +1,4 @@\n 1\n 2\n-3\n 4\n 5\n@@ -7,3 +6,4 @@\n 7\n 8\n+8a\n 9\n"
    );
}

#[test]
fn near_changes_share_a_hunk() {
    let old = "1\n2\n3\n4\n5\n6\n7\n8\n9\n";
    let new = "1\n2\n4\n5\n6\n7\n8\n8a\n9\n";
    let diff = generate_diff(old, new, 3).unwrap();
    assert_eq!(
        diff,
        "--- a/\n+++ b/\n@@ -1,9 +1,9 @@\n 1\n 2\n-3\n 4\n 5\n 6\n 7\n 8\n+8a\n 9\n"
    );
}

#[test]
fn appended_line_counts_the_context_before_it() {
    let diff = generate_diff("a\n", "a\nb\n", 3).unwrap();
    assert_eq!(diff, "--- a/\n+++ b/\n@@ -1,1 +1,2 @@\n a\n+b\n");
}

#[test]
fn last_lines_without_terminator_stand_on_lines_of_their_own() {
    let diff = generate_diff("a", "b", 3).unwrap();
    assert_eq!(diff, "--- a/\n+++ b/\n@@ -1,1 +1,1 @@\n-a\n+b\n");
    assert_eq!(
        diff.lines().collect::<Vec<_>>(),
        vec!["--- a/", "+++ b/", "@@ -1,1 +1,1 @@", "-a", "+b"]
    );
    let diff = generate_diff("x\na", "x\na\n", 3).unwrap();
    assert_eq!(diff, "--- a/\n+++ b/\n@@ -1,2 +1,2 @@\n x\n-a\n+a\n");
}

#[test]
fn lines_that_end_in_a_carriage_return_stand_on_lines_of_their_own() {
    let diff = generate_diff("a\rb\r", "a\rc\r", 3).unwrap();
    assert_eq!(diff, "--- a/\n+++ b/\n@@ -1,2 +1,2 @@\n a\r\n-b\r\n+c\r\n");
}

#[test]
fn huge_context_is_all_context() {
    let old = "1\n2\n3\n4\n5\n6\n7\n";
    let new = "1\n2\nX\n4\n5\n6\n7\n";
    let diff = generate_diff(old, new, usize::MAX).unwrap();
    assert_eq!(
        diff,
        "--- a/\n+++ b/\n@@ -1,7 +1,7 @@\n 1\n 2\n-3\n+X\n 4\n 5\n 6\n 7\n"
    );
}

#[test]
fn header_numbers_have_several_digits() {
    let mut old = String::new();
    let mut new = String::new();
    for i in 0..120 {
        old.push_str(&format!("line {}\n", i));
        if i == 110 {
            new.push_str("changed\n");
        } else {
            new.push_str(&format!("line {}\n", i));
        }
    }
    let diff = generate_diff(&old, &new, 2).unwrap();
    assert_eq!(
        diff,
        "--- a/\n+++ b/\n@@ -109,5 +109,5 @@\n line 108\n line 109\n-line 110\n+changed\n line 111\n line 112\n"
    );
}

#[test]
fn context_is_what_is_asked_or_what_is_there() {
    let old = lines_of("1\n2\n3\n4\n5\n6\n7\n8\n9\n");
    let new = lines_of("1\nX\n3\n4\n5\n6\n7\n8\n9\n");
    for (context, leading, trailing) in [(0usize, 0usize, 0usize), (1, 1, 1), (2, 1, 2), (3, 1, 3), (7, 1, 7), (8, 1, 7), (100, 1, 7)] {
        let hunks = patch_hunks(&old, &new, context).unwrap();
        assert_eq!(hunks.len(), 1);
        assert_eq!(leading_lines(&hunks[0]), leading);
        assert_eq!(trailing_lines(&hunks[0]), trailing);
    }
}

#[test]
fn hunks_between_far_changes_carry_full_context() {
    let old = lines_of("a\n1\n2\n3\n4\n5\n6\n7\nb\n");
    let new = lines_of("A\n1\n2\n3\n4\n5\n6\n7\nB\n");
    for context in [0usize, 1, 2, 3] {
        let hunks = patch_hunks(&old, &new, context).unwrap();
        assert_eq!(hunks.len(), 2);
        assert_eq!(leading_lines(&hunks[0]), 0);
        assert_eq!(trailing_lines(&hunks[0]), context);
        assert_eq!(leading_lines(&hunks[1]), context);
        assert_eq!(trailing_lines(&hunks[1]), 0);
    }
    for context in [4usize, 5, 100] {
        let hunks = patch_hunks(&old, &new, context).unwrap();
        assert_eq!(hunks.len(), 1);
    }
}

#[test]
fn carriage_returns_stay_with_their_lines() {
    let diff = generate_diff("a\r\nb\r\n", "a\r\nc\r\n", 3).unwrap();
    assert_eq!(diff, "--- a/\n+++ b/\n@@ -1,2 +1,2 @@\n a\r\n-b\r\n+c\r\n");
    let diff = generate_diff("a\nb\n", "a\r\nb\n", 0).unwrap();
    assert_eq!(diff, "--- a/\n+++ b/\n@@ -1,1 +1,1 @@\n-a\n+a\r\n");
}

#[test]
fn lines_of_any_script_are_diffed() {
    let diff = unified_diff("é", "ü", "grüße\nworld\n", "grüße\nwelt\n", 1).unwrap();
    assert_eq!(diff, "--- a/é\n+++ b/ü\n@@ -1,2 +1,2 @@\n grüße\n-world\n+welt\n");
}

#[test]
fn a_change_in_the_first_line_has_no_context_before_it() {
    let diff = generate_diff("a\nb\nc\nd\ne\n", "A\nb\nc\nd\ne\n", 2).unwrap();
    assert_eq!(diff, "--- a/\n+++ b/\n@@ -1,3 +1,3 @@\n-a\n+A\n b\n c\n");
}

#[test]
fn a_change_in_the_last_line_has_no_context_after_it() {
    let diff = generate_diff("a\nb\nc\nd\ne\n", "a\nb\nc\nd\nE\n", 2).unwrap();
    assert_eq!(diff, "--- a/\n+++ b/\n@@ -3,3 +3,3 @@\n c\n d\n-e\n+E\n");
}

#[test]
fn an_insertion_in_the_middle_without_context() {
    let diff = generate_diff("a\nb\n", "a\nx\nb\n", 0).unwrap();
    assert_eq!(diff, "--- a/\n+++ b/\n@@ -1,0 +2,1 @@\n+x\n");
    let diff = generate_diff("a\nb\nc\n", "a\nb\nc\nd\ne\n", 0).unwrap();
    assert_eq!(diff, "--- a/\n+++ b/\n@@ -3,0 +4,2 @@\n+d\n+e\n");
}

#[test]
fn a_deletion_in_the_middle_without_context() {
    let diff = generate_diff("a\nx\nb\n", "a\nb\n", 0).unwrap();
    assert_eq!(diff, "--- a/\n+++ b/\n@@ -2,1 +2,0 @@\n-x\n");
}

#[test]
fn a_diff_changes_as_few_lines_as_can_be() {
    for (old, new) in [
        ("a\nb\n", "a\nc\n"),
        ("a\nb\nc\nb\nd\na\nb\n", "b\nd\nc\na\nb\na\n"),
        ("1\n2\n3\n4\n5\n6\n7\n8\n9\n", "1\n2\n4\n5\n6\n7\n8\n8a\n9\n"),
        ("", "x\ny\n"),
        ("x\ny\n", ""),
        ("same\n", "same\n"),
    ] {
        let old_lines = lines_of(old);
        let new_lines = lines_of(new);
        let distance = old_lines.len() + new_lines.len() - 2 * lcs_length(&old_lines, &new_lines);
        for context in [0usize, 1, 3, usize::MAX] {
            let diff = generate_diff(old, new, context).unwrap();
            let changed = diff
                .lines()
                .skip(2)
                .filter(|line| line.starts_with('-') || line.starts_with('+'))
                .count();
            assert_eq!(changed, distance);
        }
    }
}
