use languagetool_lsp::changes::Changes;

#[test]
fn changes() {
    let mut changes = Changes::new();
    changes.add_change(0..5, 3);
    assert_eq!(changes.changes(), &vec![0..3]);
    changes.add_change(3..7, 4);
    assert_eq!(changes.changes(), &vec![0..7]);
    changes.add_change(20..30, 3);
    assert_eq!(changes.changes(), &vec![0..7, 20..23]);
    changes.add_change(0..1, 0);
    assert_eq!(changes.changes(), &vec![0..6, 19..22]);
    changes.add_change(0..0, 10);
    assert_eq!(changes.changes(), &vec![0..16, 29..32]);
}

#[test]
fn changes_stay_sorted_and_apart() {
    let mut changes = Changes::new();
    changes.add_change(10..12, 2);
    changes.add_change(0..1, 1);
    changes.add_change(5..6, 1);
    changes.add_change(2..3, 1);
    assert_eq!(changes.changes(), &vec![0..1, 2..3, 5..6, 10..12]);
    // touching ranges merge
    changes.add_change(1..2, 1);
    assert_eq!(changes.changes(), &vec![0..3, 5..6, 10..12]);
    let v = changes.changes();
    for i in 1..v.len() {
        assert!(v[i - 1].end < v[i].start);
    }
}

#[test]
fn changes_repeated_edit_is_absorbed() {
    let mut changes = Changes::new();
    changes.add_change(4..6, 2);
    changes.add_change(4..6, 2);
    assert_eq!(changes.changes(), &vec![4..6]);
}

#[test]
fn changes_clear_and_room() {
    let mut changes = Changes::new();
    changes.add_change(0..2, 2);
    assert!(changes.can_add(&(0..2), 5));
    assert!(!changes.can_add(&(3..2), 1));
    assert!(!changes.can_add(&(0..usize::MAX), 1));
    changes.clear();
    assert!(changes.changes().is_empty());
}

#[test]
fn empty_inserted_range_merges_when_touching() {
    let mut changes = Changes::new();
    changes.add_change(2..4, 2);
    // two lines 4..5 removed: the inserted range 4..4 is empty and touches 2..4
    changes.add_change(4..5, 0);
    assert_eq!(changes.changes(), &vec![2..4]);
    // an empty range apart from the others stays on its own
    changes.add_change(8..9, 0);
    assert_eq!(changes.changes(), &vec![2..4, 8..8]);
}
