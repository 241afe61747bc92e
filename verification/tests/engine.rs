use linediff::engine::{check_spans_fit, edit_script, group_hunks};
use linediff::lines::lines_of;
use linediff::ops::EditOp;

#[test]
fn script_of_one_changed_line() {
    let old = lines_of("a\nb\nc\n");
    let new = lines_of("a\nx\nc\n");
    let script = edit_script(&old, &new).unwrap();
    assert_eq!(
        script,
        vec![
            EditOp::Equal { old_index: 0, new_index: 0, len: 1 },
            EditOp::Replace { old_index: 1, old_len: 1, new_index: 1, new_len: 1 },
            EditOp::Equal { old_index: 2, new_index: 2, len: 1 },
        ]
    );
}

#[test]
fn script_of_empty_sides_is_empty() {
    let none: Vec<String> = Vec::new();
    assert_eq!(edit_script(&none, &none), Some(vec![]));
}

#[test]
fn script_of_pure_insert() {
    let old = lines_of("");
    let new = lines_of("hello\n");
    assert_eq!(
        edit_script(&old, &new),
        Some(vec![EditOp::Insert { old_index: 0, new_index: 0, new_len: 1 }])
    );
}

#[test]
fn script_of_pure_delete() {
    let old = lines_of("hello\nworld\n");
    let new = lines_of("");
    assert_eq!(
        edit_script(&old, &new),
        Some(vec![EditOp::Delete { old_index: 0, old_len: 2, new_index: 0 }])
    );
}

#[test]
fn deletions_and_insertions_stand_where_the_script_stands() {
    let old = lines_of("line 2\nline 0\n");
    let new = lines_of("line 0\nline 1\nline 0\n");
    assert_eq!(
        edit_script(&old, &new),
        Some(vec![
            EditOp::Delete { old_index: 0, old_len: 1, new_index: 0 },
            EditOp::Equal { old_index: 1, new_index: 0, len: 1 },
            EditOp::Insert { old_index: 2, new_index: 1, new_len: 2 },
        ])
    );
}

#[test]
fn same_sides_give_one_equal_operation() {
    let lines = lines_of("a\nb\nc\n");
    assert_eq!(
        edit_script(&lines, &lines),
        Some(vec![EditOp::Equal { old_index: 0, new_index: 0, len: 3 }])
    );
}

#[test]
fn a_script_is_cut_into_hunks() {
    let old = lines_of("1\n2\n3\n4\n5\n6\n7\n8\n9\n");
    let new = lines_of("1\n2\n4\n5\n6\n7\n8\n8a\n9\n");
    let script = vec![
        EditOp::Equal { old_index: 0, new_index: 0, len: 2 },
        EditOp::Delete { old_index: 2, old_len: 1, new_index: 2 },
        EditOp::Equal { old_index: 3, new_index: 2, len: 5 },
        EditOp::Insert { old_index: 8, new_index: 7, new_len: 1 },
        EditOp::Equal { old_index: 8, new_index: 8, len: 1 },
    ];
    assert_eq!(edit_script(&old, &new), Some(script.clone()));
    assert_eq!(
        group_hunks(&script, &old, &new, 1),
        Some(vec![
            vec![
                EditOp::Equal { old_index: 1, new_index: 1, len: 1 },
                EditOp::Delete { old_index: 2, old_len: 1, new_index: 2 },
                EditOp::Equal { old_index: 3, new_index: 2, len: 1 },
            ],
            vec![
                EditOp::Equal { old_index: 7, new_index: 6, len: 1 },
                EditOp::Insert { old_index: 8, new_index: 7, new_len: 1 },
                EditOp::Equal { old_index: 8, new_index: 8, len: 1 },
            ],
        ])
    );
    assert_eq!(group_hunks(&script, &old, &new, 3), Some(vec![script.clone()]));
    assert_eq!(group_hunks(&script, &old, &new, usize::MAX), Some(vec![script.clone()]));
    assert_eq!(
        group_hunks(&script, &old, &new, 0),
        Some(vec![
            vec![
                EditOp::Equal { old_index: 2, new_index: 2, len: 0 },
                EditOp::Delete { old_index: 2, old_len: 1, new_index: 2 },
                EditOp::Equal { old_index: 3, new_index: 2, len: 0 },
            ],
            vec![
                EditOp::Equal { old_index: 8, new_index: 7, len: 0 },
                EditOp::Insert { old_index: 8, new_index: 7, new_len: 1 },
                EditOp::Equal { old_index: 8, new_index: 8, len: 0 },
            ],
        ])
    );
}

#[test]
fn a_script_without_changes_has_no_hunks() {
    let lines = lines_of("a\nb\nc\n");
    let script = vec![EditOp::Equal { old_index: 0, new_index: 0, len: 3 }];
    for context in [0usize, 1, 5] {
        assert_eq!(group_hunks(&script, &lines, &lines, context), Some(vec![]));
    }
    let none: Vec<String> = Vec::new();
    assert_eq!(group_hunks(&vec![], &none, &none, 3), Some(vec![]));
}

#[test]
fn groups_that_are_no_patch_are_not_kept() {
    let old = lines_of("a\nb\nc\n");
    let new = lines_of("a\nx\nc\n");
    let wrong_lines = vec![EditOp::Equal { old_index: 0, new_index: 0, len: 3 }];
    assert_eq!(group_hunks(&wrong_lines, &old, &new, 3), None);
    let short = vec![
        EditOp::Equal { old_index: 0, new_index: 0, len: 1 },
        EditOp::Replace { old_index: 1, old_len: 1, new_index: 1, new_len: 1 },
    ];
    assert_eq!(group_hunks(&short, &old, &new, 3), None);
    let unmerged = vec![
        EditOp::Equal { old_index: 0, new_index: 0, len: 1 },
        EditOp::Delete { old_index: 1, old_len: 1, new_index: 1 },
        EditOp::Insert { old_index: 2, new_index: 1, new_len: 1 },
        EditOp::Equal { old_index: 2, new_index: 2, len: 1 },
    ];
    assert_eq!(group_hunks(&unmerged, &old, &new, 3), Some(vec![unmerged.clone()]));
}

#[test]
fn spans_that_do_not_fit_are_not_grouped() {
    let old = lines_of("a\n");
    let new = lines_of("b\n");
    let huge = vec![EditOp::Equal { old_index: 2, new_index: 0, len: usize::MAX }];
    assert!(!check_spans_fit(&huge));
    assert_eq!(group_hunks(&huge, &old, &new, 3), None);
    let fits = vec![EditOp::Replace { old_index: 0, old_len: usize::MAX, new_index: usize::MAX, new_len: 0 }];
    assert!(check_spans_fit(&fits));
    assert_eq!(group_hunks(&fits, &old, &new, 3), None);
    assert!(check_spans_fit(&vec![]));
}

#[test]
fn the_sides_of_a_script_rebuild_the_texts() {
    for (old_text, new_text) in [
        ("a\nb\nc\n", "a\nx\nc\n"),
        ("", "hello\n"),
        ("one\ntwo\nthree", "zero\none\nthree\nfour\n"),
        ("x\r\ny\rz", "y\rz\nx\r\n"),
    ] {
        let old = lines_of(old_text);
        let new = lines_of(new_text);
        let script = edit_script(&old, &new).unwrap();
        let mut old_side = String::new();
        let mut new_side = String::new();
        for op in &script {
            old_side.push_str(&old[op.old_index()..op.old_index() + op.old_len()].concat());
            new_side.push_str(&new[op.new_index()..op.new_index() + op.new_len()].concat());
        }
        assert_eq!(old_side, old_text);
        assert_eq!(new_side, new_text);
    }
}

#[test]
fn the_spans_of_a_script_follow_one_another() {
    let old = lines_of("a\nb\nc\nd\ne\nf\n");
    let new = lines_of("b\nc\nX\ne\nf\ng\n");
    let script = edit_script(&old, &new).unwrap();
    let mut old_at = 0;
    let mut new_at = 0;
    for op in &script {
        assert_eq!(op.old_index(), old_at);
        assert_eq!(op.new_index(), new_at);
        old_at += op.old_len();
        new_at += op.new_len();
    }
    assert_eq!((old_at, new_at), (old.len(), new.len()));
}

#[test]
fn groups_must_change_the_lines_that_the_operations_change() {
    let old = lines_of("a\nb\n");
    let new = lines_of("a\nc\n");
    let script = vec![
        EditOp::Equal { old_index: 0, new_index: 0, len: 1 },
        EditOp::Replace { old_index: 1, old_len: 1, new_index: 1, new_len: 1 },
    ];
    assert_eq!(group_hunks(&script, &old, &new, 3), Some(vec![script.clone()]));
    let wasteful = vec![EditOp::Replace { old_index: 0, old_len: 2, new_index: 0, new_len: 2 }];
    assert_eq!(group_hunks(&wasteful, &old, &new, 3), Some(vec![wasteful.clone()]));
}
