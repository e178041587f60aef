use dictsync::loaddata::Dict;
use dictsync::script::emit_script;
use dictsync::sync::{apply_sync_result, compare_dict, reconcile_pairwise, reconcile_three_way};
use dictsync::words::{Word, WordSet};

fn w(code: &str, word: &str) -> Word {
    Word { code: code.to_string(), word: word.to_string() }
}

fn set(entries: &[(&str, &str)]) -> WordSet {
    let mut r = WordSet::new();
    for (c, s) in entries {
        r = r.insert(w(c, s));
    }
    r
}

fn assert_set(ws: &WordSet, entries: &[(&str, &str)]) {
    assert_eq!(ws.len(), entries.len());
    for (c, s) in entries {
        assert!(ws.contains(&w(c, s)));
    }
}

fn dict(
    base: &[(&str, &str)],
    added: &[(&str, &str)],
    deleted: &[(&str, &str)],
) -> Dict {
    Dict { main: set(base), user_new: set(added), user_deleted: set(deleted) }
}

#[test]
fn all_words_is_base_plus_added_minus_deleted() {
    let d = dict(&[("a", "x"), ("b", "y")], &[("c", "z")], &[("a", "x")]);
    let all = d.all_words();
    assert_set(&all, &[("b", "y"), ("c", "z")]);
}

#[test]
fn compare_dict_reports_additions_and_deletions() {
    let before = set(&[("a", "x"), ("b", "y")]);
    let after = set(&[("b", "y"), ("c", "z")]);
    let changes = compare_dict(&before, &after);
    assert_set(&changes.added, &[("c", "z")]);
    assert_set(&changes.deleted, &[("a", "x")]);
}

#[test]
fn pairwise_propagates_local_addition() {
    let a = dict(&[], &[("1", "foo")], &[]);
    let b = dict(&[], &[], &[]);
    let (for_a, for_b) = reconcile_pairwise(&a, &b);
    assert_set(&for_b.to_insert, &[("1", "foo")]);
    assert!(for_b.to_delete.is_empty());
    assert!(for_a.to_insert.is_empty());
    assert!(for_a.to_delete.is_empty());
    assert_eq!(emit_script(&for_a), "");
}

#[test]
fn pairwise_already_known_no_propagation() {
    let a = dict(&[("1", "foo")], &[], &[]);
    let b = dict(&[("1", "foo")], &[], &[]);
    let (for_a, for_b) = reconcile_pairwise(&a, &b);
    assert!(for_a.to_insert.is_empty());
    assert!(for_a.to_delete.is_empty());
    assert!(for_b.to_insert.is_empty());
    assert!(for_b.to_delete.is_empty());
}

#[test]
fn pairwise_identical_replicas_no_op_and_no_save_line() {
    let a = dict(&[("a", "x")], &[("b", "y")], &[("c", "z")]);
    let b = dict(&[("a", "x")], &[("b", "y")], &[("c", "z")]);
    let (for_a, for_b) = reconcile_pairwise(&a, &b);
    assert!(for_a.to_insert.is_empty());
    assert!(for_a.to_delete.is_empty());
    assert!(for_b.to_insert.is_empty());
    assert!(for_b.to_delete.is_empty());
    assert_eq!(emit_script(&for_a), "");
    assert_eq!(emit_script(&for_b), "");
}

#[test]
fn pairwise_tombstone_precedence() {
    let a = dict(&[], &[("1", "foo")], &[]);
    let b = dict(&[], &[], &[("1", "foo")]);
    let (_for_a, for_b) = reconcile_pairwise(&a, &b);
    assert!(!for_b.to_insert.contains(&w("1", "foo")));
    assert!(for_b.to_insert.is_empty());
}

#[test]
fn pairwise_propagates_deletion_of_visible_entry() {
    let a = dict(&[("1", "foo")], &[], &[]);
    let b = dict(&[("1", "foo")], &[], &[("1", "foo")]);
    let (for_a, for_b) = reconcile_pairwise(&a, &b);
    assert_set(&for_a.to_delete, &[("1", "foo")]);
    assert!(for_a.to_insert.is_empty());
    assert!(for_b.to_insert.is_empty());
    assert!(for_b.to_delete.is_empty());
}

#[test]
fn pairwise_entry_added_and_deleted_on_same_side_is_not_sent() {
    let a = dict(&[], &[("1", "foo")], &[("1", "foo")]);
    let b = dict(&[], &[], &[]);
    let (for_a, for_b) = reconcile_pairwise(&a, &b);
    assert!(for_b.to_insert.is_empty());
    assert!(for_b.to_delete.is_empty());
    assert!(for_a.to_insert.is_empty());
    assert!(for_a.to_delete.is_empty());
}

#[test]
fn pairwise_symmetry() {
    let a = dict(&[("a", "x")], &[("b", "y")], &[("c", "z")]);
    let b = dict(&[("a", "x"), ("c", "z")], &[("d", "q")], &[]);
    let (for_a_1, for_b_1) = reconcile_pairwise(&a, &b);
    let (for_b_2, for_a_2) = reconcile_pairwise(&b, &a);
    assert_eq!(for_a_1.to_insert.len(), for_a_2.to_insert.len());
    assert_eq!(for_a_1.to_delete.len(), for_a_2.to_delete.len());
    assert_eq!(for_b_1.to_insert.len(), for_b_2.to_insert.len());
    assert_eq!(for_b_1.to_delete.len(), for_b_2.to_delete.len());
    for i in 0..for_a_1.to_insert.len() {
        assert!(for_a_2.to_insert.contains(for_a_1.to_insert.get(i)));
    }
    for i in 0..for_a_1.to_delete.len() {
        assert!(for_a_2.to_delete.contains(for_a_1.to_delete.get(i)));
    }
    for i in 0..for_b_1.to_insert.len() {
        assert!(for_b_2.to_insert.contains(for_b_1.to_insert.get(i)));
    }
    for i in 0..for_b_1.to_delete.len() {
        assert!(for_b_2.to_delete.contains(for_b_1.to_delete.get(i)));
    }
}

#[test]
fn pairwise_idempotent_after_applying_edits() {
    let a = dict(&[("a", "x")], &[("b", "y")], &[("c", "z")]);
    let b = dict(&[("a", "x"), ("c", "z")], &[("d", "q")], &[("a", "x")]);
    let (for_a, for_b) = reconcile_pairwise(&a, &b);
    let a2 = apply_sync_result(&a, &for_a);
    let b2 = apply_sync_result(&b, &for_b);
    let (for_a2, for_b2) = reconcile_pairwise(&a2, &b2);
    assert!(for_a2.to_insert.is_empty());
    assert!(for_a2.to_delete.is_empty());
    assert!(for_b2.to_insert.is_empty());
    assert!(for_b2.to_delete.is_empty());
}

#[test]
fn three_way_convergence_scenario() {
    let base = dict(&[("c1", "w1")], &[], &[]);
    let a = dict(&[("c1", "w1")], &[("c2", "w2")], &[]);
    let b = dict(&[("c1", "w1")], &[], &[("c1", "w1")]);
    let (for_a, for_b) = reconcile_three_way(&base, &a, &b);
    assert_set(&for_a.to_delete, &[("c1", "w1")]);
    assert!(for_a.to_insert.is_empty());
    assert_set(&for_b.to_insert, &[("c2", "w2")]);
    assert!(for_b.to_delete.is_empty());
}

#[test]
fn three_way_identical_replicas_no_op() {
    let base = dict(&[("a", "x"), ("b", "y")], &[], &[]);
    let a = dict(&[("a", "x"), ("b", "y")], &[("c", "z")], &[("a", "x")]);
    let b = dict(&[("a", "x"), ("b", "y")], &[("c", "z")], &[("a", "x")]);
    let (for_a, for_b) = reconcile_three_way(&base, &a, &b);
    assert!(for_a.to_insert.is_empty());
    assert!(for_a.to_delete.is_empty());
    assert!(for_b.to_insert.is_empty());
    assert!(for_b.to_delete.is_empty());
    assert_eq!(emit_script(&for_a), "");
}

#[test]
fn three_way_idempotent_and_convergent_after_applying_edits() {
    let base = dict(&[("a", "x"), ("b", "y")], &[], &[]);
    let a = dict(&[("a", "x"), ("b", "y")], &[("c", "z")], &[("a", "x")]);
    let b = dict(&[("a", "x"), ("b", "y")], &[("d", "q")], &[("b", "y")]);
    let (for_a, for_b) = reconcile_three_way(&base, &a, &b);
    let a2 = apply_sync_result(&a, &for_a);
    let b2 = apply_sync_result(&b, &for_b);
    let a2_all = a2.all_words();
    let b2_all = b2.all_words();
    assert_eq!(a2_all.len(), b2_all.len());
    for i in 0..a2_all.len() {
        assert!(b2_all.contains(a2_all.get(i)));
    }
    let (for_a2, for_b2) = reconcile_three_way(&base, &a2, &b2);
    assert!(for_a2.to_insert.is_empty());
    assert!(for_a2.to_delete.is_empty());
    assert!(for_b2.to_insert.is_empty());
    assert!(for_b2.to_delete.is_empty());
}

#[test]
fn three_way_both_sides_added_same_entry_is_no_op() {
    let base = dict(&[], &[], &[]);
    let a = dict(&[], &[("1", "foo")], &[]);
    let b = dict(&[], &[("1", "foo")], &[]);
    let (for_a, for_b) = reconcile_three_way(&base, &a, &b);
    assert!(for_a.to_insert.is_empty());
    assert!(for_a.to_delete.is_empty());
    assert!(for_b.to_insert.is_empty());
    assert!(for_b.to_delete.is_empty());
}

#[test]
fn three_way_same_code_different_words_both_propagate() {
    let base = dict(&[], &[], &[]);
    let a = dict(&[], &[("1", "foo")], &[]);
    let b = dict(&[], &[("1", "bar")], &[]);
    let (for_a, for_b) = reconcile_three_way(&base, &a, &b);
    assert_set(&for_a.to_insert, &[("1", "bar")]);
    assert_set(&for_b.to_insert, &[("1", "foo")]);
}
