use linediff::lines::lines_of;
use linediff::ops::{
    changed_line_count, changed_lines_are, check_runs_merged, check_script, same_lines,
    settle_from, EditOp,
};

#[test]
fn operations_tell_their_spans() {
    let equal = EditOp::Equal { old_index: 2, new_index: 5, len: 3 };
    assert_eq!((equal.old_index(), equal.old_len(), equal.new_index(), equal.new_len()), (2, 3, 5, 3));
    assert!(!equal.changes());
    let delete = EditOp::Delete { old_index: 2, old_len: 4, new_index: 5 };
    assert_eq!((delete.old_index(), delete.old_len(), delete.new_index(), delete.new_len()), (2, 4, 5, 0));
    assert!(delete.changes());
    let insert = EditOp::Insert { old_index: 2, new_index: 5, new_len: 6 };
    assert_eq!((insert.old_index(), insert.old_len(), insert.new_index(), insert.new_len()), (2, 0, 5, 6));
    assert!(insert.changes());
    let replace = EditOp::Replace { old_index: 2, old_len: 1, new_index: 5, new_len: 7 };
    assert_eq!((replace.old_index(), replace.old_len(), replace.new_index(), replace.new_len()), (2, 1, 5, 7));
    assert!(replace.changes());
}

#[test]
fn same_lines_compares_stretches() {
    let old = lines_of("a\nb\nc\nd\n");
    let new = lines_of("x\nb\nc\ny\n");
    assert!(same_lines(&old, 1, &new, 1, 2));
    assert!(!same_lines(&old, 0, &new, 0, 2));
    assert!(!same_lines(&old, 1, &new, 1, 3));
    assert!(same_lines(&old, 4, &new, 0, 0));
}

#[test]
fn a_covering_script_is_accepted() {
    let old = lines_of("a\nb\nc\n");
    let new = lines_of("a\nx\ny\nc\n");
    let script = vec![
        EditOp::Equal { old_index: 0, new_index: 0, len: 1 },
        EditOp::Replace { old_index: 1, old_len: 1, new_index: 1, new_len: 2 },
        EditOp::Equal { old_index: 2, new_index: 3, len: 1 },
    ];
    assert!(check_script(&script, &old, &new));
    let split = vec![
        EditOp::Equal { old_index: 0, new_index: 0, len: 1 },
        EditOp::Delete { old_index: 1, old_len: 1, new_index: 1 },
        EditOp::Insert { old_index: 2, new_index: 1, new_len: 2 },
        EditOp::Equal { old_index: 2, new_index: 3, len: 1 },
    ];
    assert!(check_script(&split, &old, &new));
}

#[test]
fn an_empty_script_covers_only_empty_sides() {
    let none: Vec<String> = Vec::new();
    assert!(check_script(&vec![], &none, &none));
    assert!(!check_script(&vec![], &lines_of("a\n"), &none));
    assert!(!check_script(&vec![], &none, &lines_of("a\n")));
}

#[test]
fn a_script_with_a_gap_is_refused() {
    let old = lines_of("a\nb\nc\n");
    let new = lines_of("a\nb\nc\n");
    let script = vec![
        EditOp::Equal { old_index: 0, new_index: 0, len: 1 },
        EditOp::Equal { old_index: 2, new_index: 2, len: 1 },
    ];
    assert!(!check_script(&script, &old, &new));
}

#[test]
fn a_script_with_an_overlap_is_refused() {
    let old = lines_of("a\nb\nc\n");
    let new = lines_of("a\nb\nc\n");
    let script = vec![
        EditOp::Equal { old_index: 0, new_index: 0, len: 2 },
        EditOp::Equal { old_index: 1, new_index: 1, len: 2 },
    ];
    assert!(!check_script(&script, &old, &new));
}

#[test]
fn a_script_that_starts_late_or_stops_early_is_refused() {
    let old = lines_of("a\nb\n");
    let new = lines_of("a\nb\n");
    assert!(!check_script(&vec![EditOp::Equal { old_index: 1, new_index: 1, len: 1 }], &old, &new));
    assert!(!check_script(&vec![EditOp::Equal { old_index: 0, new_index: 0, len: 1 }], &old, &new));
}

#[test]
fn a_script_past_the_end_is_refused() {
    let old = lines_of("a\n");
    let new = lines_of("a\n");
    assert!(!check_script(&vec![EditOp::Equal { old_index: 0, new_index: 0, len: 2 }], &old, &new));
    assert!(!check_script(
        &vec![EditOp::Replace { old_index: 0, old_len: usize::MAX, new_index: 0, new_len: 1 }],
        &old,
        &new
    ));
}

#[test]
fn a_script_that_calls_different_lines_equal_is_refused() {
    let old = lines_of("a\nb\n");
    let new = lines_of("a\nc\n");
    assert!(!check_script(&vec![EditOp::Equal { old_index: 0, new_index: 0, len: 2 }], &old, &new));
    assert!(check_script(
        &vec![
            EditOp::Equal { old_index: 0, new_index: 0, len: 1 },
            EditOp::Replace { old_index: 1, old_len: 1, new_index: 1, new_len: 1 },
        ],
        &old,
        &new
    ));
}

#[test]
fn a_script_with_a_shifted_side_is_refused() {
    let old = lines_of("a\nb\n");
    let new = lines_of("b\n");
    let wrong = vec![
        EditOp::Delete { old_index: 0, old_len: 1, new_index: 0 },
        EditOp::Equal { old_index: 1, new_index: 1, len: 1 },
    ];
    assert!(!check_script(&wrong, &old, &new));
    let right = vec![
        EditOp::Delete { old_index: 0, old_len: 1, new_index: 0 },
        EditOp::Equal { old_index: 1, new_index: 0, len: 1 },
    ];
    assert!(check_script(&right, &old, &new));
}

#[test]
fn settling_places_the_empty_side() {
    let given = vec![
        EditOp::Delete { old_index: 0, old_len: 1, new_index: 1 },
        EditOp::Equal { old_index: 1, new_index: 0, len: 1 },
        EditOp::Insert { old_index: 1, new_index: 1, new_len: 2 },
    ];
    assert_eq!(
        settle_from(&given, 0, 0),
        vec![
            EditOp::Delete { old_index: 0, old_len: 1, new_index: 0 },
            EditOp::Equal { old_index: 1, new_index: 0, len: 1 },
            EditOp::Insert { old_index: 2, new_index: 1, new_len: 2 },
        ]
    );
}

#[test]
fn settling_leaves_other_operations_alone() {
    let given = vec![
        EditOp::Equal { old_index: 3, new_index: 9, len: 1 },
        EditOp::Replace { old_index: 7, old_len: 1, new_index: 2, new_len: 2 },
    ];
    assert_eq!(settle_from(&given, 0, 0), given);
    assert_eq!(settle_from(&vec![], 4, 5), vec![]);
}

#[test]
fn settling_starts_where_it_is_told() {
    let given = vec![
        EditOp::Insert { old_index: 0, new_index: 6, new_len: 2 },
        EditOp::Delete { old_index: 4, old_len: 3, new_index: 0 },
    ];
    assert_eq!(
        settle_from(&given, 4, 6),
        vec![
            EditOp::Insert { old_index: 4, new_index: 6, new_len: 2 },
            EditOp::Delete { old_index: 4, old_len: 3, new_index: 8 },
        ]
    );
}

#[test]
fn settling_stops_at_the_largest_position() {
    let given = vec![
        EditOp::Replace { old_index: usize::MAX, old_len: 2, new_index: 1, new_len: usize::MAX },
        EditOp::Insert { old_index: 0, new_index: 0, new_len: 1 },
        EditOp::Delete { old_index: 0, old_len: 1, new_index: 0 },
    ];
    assert_eq!(
        settle_from(&given, 0, 0),
        vec![
            EditOp::Replace { old_index: usize::MAX, old_len: 2, new_index: 1, new_len: usize::MAX },
            EditOp::Insert { old_index: usize::MAX, new_index: 0, new_len: 1 },
            EditOp::Delete { old_index: 0, old_len: 1, new_index: 1 },
        ]
    );
}

#[test]
fn a_script_with_a_change_without_lines_is_refused() {
    let old = lines_of("a\nb\n");
    let new = lines_of("a\nb\n");
    for empty in [
        EditOp::Delete { old_index: 1, old_len: 0, new_index: 1 },
        EditOp::Insert { old_index: 1, new_index: 1, new_len: 0 },
        EditOp::Replace { old_index: 1, old_len: 0, new_index: 1, new_len: 0 },
    ] {
        let script = vec![
            EditOp::Equal { old_index: 0, new_index: 0, len: 1 },
            empty,
            EditOp::Equal { old_index: 1, new_index: 1, len: 1 },
        ];
        assert!(!check_script(&script, &old, &new));
        assert!(check_runs_merged(&script));
    }
    let whole = vec![EditOp::Equal { old_index: 0, new_index: 0, len: 2 }];
    assert!(check_script(&whole, &old, &new));
}

#[test]
fn equal_operations_in_a_row_are_told() {
    let doubled = vec![
        EditOp::Equal { old_index: 0, new_index: 0, len: 1 },
        EditOp::Equal { old_index: 1, new_index: 1, len: 1 },
    ];
    assert!(!check_runs_merged(&doubled));
    let parted = vec![
        EditOp::Equal { old_index: 0, new_index: 0, len: 1 },
        EditOp::Delete { old_index: 1, old_len: 1, new_index: 1 },
        EditOp::Equal { old_index: 2, new_index: 1, len: 1 },
    ];
    assert!(check_runs_merged(&parted));
    assert!(check_runs_merged(&vec![]));
}

#[test]
fn changed_lines_of_operations_are_counted() {
    let ops = vec![
        EditOp::Equal { old_index: 0, new_index: 0, len: 4 },
        EditOp::Replace { old_index: 4, old_len: 2, new_index: 4, new_len: 3 },
        EditOp::Delete { old_index: 6, old_len: 1, new_index: 7 },
        EditOp::Insert { old_index: 7, new_index: 7, new_len: 5 },
        EditOp::Equal { old_index: 7, new_index: 12, len: 1 },
    ];
    assert_eq!(changed_line_count(&ops), 11);
    assert_eq!(changed_line_count(&vec![]), 0);
    assert!(changed_lines_are(&ops, 11));
    assert!(!changed_lines_are(&ops, 10));
    assert!(!changed_lines_are(&ops, 12));
    assert!(!changed_lines_are(&ops, 0));
    assert!(changed_lines_are(&vec![], 0));
    let huge = vec![EditOp::Replace { old_index: 0, old_len: usize::MAX, new_index: 0, new_len: usize::MAX }];
    assert!(changed_lines_are(&huge, 2 * (usize::MAX as u128)));
    assert!(!changed_lines_are(&huge, 5));
}
