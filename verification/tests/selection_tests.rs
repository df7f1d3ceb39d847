use entity_hierarchy::entity::Entity;
use entity_hierarchy::selection::{SelectedEntities, SelectionMode};

fn no_range(_from: Entity, _to: Entity) -> Vec<Entity> {
    Vec::new()
}

fn selected(sel: &SelectedEntities) -> Vec<u64> {
    sel.as_slice().iter().map(|e| e.0).collect()
}

#[test]
fn from_ctrl_shift_prefers_add() {
    assert!(matches!(
        SelectionMode::from_ctrl_shift(true, true),
        SelectionMode::Add
    ));
    assert!(matches!(
        SelectionMode::from_ctrl_shift(true, false),
        SelectionMode::Add
    ));
    assert!(matches!(
        SelectionMode::from_ctrl_shift(false, true),
        SelectionMode::Extend
    ));
    assert!(matches!(
        SelectionMode::from_ctrl_shift(false, false),
        SelectionMode::Replace
    ));
}

#[test]
fn empty_selection_bootstraps_for_every_mode() {
    for mode in [
        SelectionMode::Replace,
        SelectionMode::Add,
        SelectionMode::Extend,
    ] {
        let mut sel = SelectedEntities::default();
        sel.select(mode, Entity(42), no_range);
        assert_eq!(selected(&sel), vec![42]);
        let (last_mode, last_entity) = sel.last_action().expect("anchor recorded");
        assert_eq!(last_entity, Entity(42));
        assert_eq!(last_mode, mode);
    }
}

#[test]
fn replace_yields_exactly_the_click() {
    let mut sel = SelectedEntities::default();
    sel.select(SelectionMode::Add, Entity(1), no_range);
    sel.select(SelectionMode::Add, Entity(2), no_range);
    sel.select(SelectionMode::Add, Entity(3), no_range);
    assert_eq!(selected(&sel), vec![1, 2, 3]);
    sel.select(SelectionMode::Replace, Entity(9), no_range);
    assert_eq!(selected(&sel), vec![9]);
    assert_eq!(sel.last_action(), Some((SelectionMode::Replace, Entity(9))));
}

#[test]
fn add_twice_restores_the_set() {
    let mut sel = SelectedEntities::default();
    sel.select(SelectionMode::Add, Entity(1), no_range);
    sel.select(SelectionMode::Add, Entity(2), no_range);
    sel.select(SelectionMode::Add, Entity(5), no_range);
    assert_eq!(selected(&sel), vec![1, 2, 5]);
    sel.select(SelectionMode::Add, Entity(5), no_range);
    assert_eq!(selected(&sel), vec![1, 2]);
    sel.select(SelectionMode::Add, Entity(5), no_range);
    assert_eq!(selected(&sel), vec![1, 2, 5]);
}

#[test]
fn add_toggles_off_a_middle_entry() {
    let mut sel = SelectedEntities::default();
    sel.select(SelectionMode::Add, Entity(1), no_range);
    sel.select(SelectionMode::Add, Entity(2), no_range);
    sel.select(SelectionMode::Add, Entity(3), no_range);
    sel.select(SelectionMode::Add, Entity(2), no_range);
    assert_eq!(selected(&sel), vec![1, 3]);
}

#[test]
fn select_never_duplicates() {
    let mut sel = SelectedEntities::default();
    sel.select(SelectionMode::Replace, Entity(1), no_range);
    sel.select(SelectionMode::Extend, Entity(9), |_c, _a| {
        vec![Entity(1), Entity(1), Entity(2), Entity(2), Entity(9)]
    });
    assert_eq!(selected(&sel), vec![1, 2, 9]);
}

#[test]
fn extend_anchors_on_original() {
    let a = Entity(1);
    let b = Entity(2);
    let c = Entity(3);
    let d = Entity(4);
    let mut sel = SelectedEntities::default();
    sel.select(SelectionMode::Replace, a, no_range);
    assert_eq!(sel.last_action(), Some((SelectionMode::Replace, a)));

    sel.select(SelectionMode::Extend, c, move |clicked, anchor| {
        assert_eq!(clicked, c);
        assert_eq!(anchor, a, "first extend measures from the anchor A");
        vec![a, b, c]
    });
    assert_eq!(selected(&sel), vec![1, 2, 3]);
    assert_eq!(
        sel.last_action(),
        Some((SelectionMode::Replace, a)),
        "extend must not move the anchor"
    );

    sel.select(SelectionMode::Extend, d, move |clicked, anchor| {
        assert_eq!(clicked, d);
        assert_eq!(anchor, a, "second extend still measures from A, not C");
        vec![a, b, c, d]
    });
    assert_eq!(selected(&sel), vec![1, 2, 3, 4]);
    assert_eq!(sel.last_action(), Some((SelectionMode::Replace, a)));
}

#[test]
fn extend_after_add_anchor_starts_fresh_range() {
    let mut sel = SelectedEntities::default();
    sel.select(SelectionMode::Add, Entity(1), no_range);
    sel.select(SelectionMode::Add, Entity(7), no_range);
    assert_eq!(selected(&sel), vec![1, 7]);
    sel.select(SelectionMode::Extend, Entity(9), |_c, _a| {
        vec![Entity(7), Entity(8), Entity(9)]
    });
    assert_eq!(selected(&sel), vec![7, 8, 9], "the old selection is cleared first");
    assert_eq!(sel.last_action(), Some((SelectionMode::Add, Entity(7))));
}

#[test]
fn extend_after_extend_bootstrap_accumulates() {
    let mut sel = SelectedEntities::default();
    // an extend on an empty selection degrades to an insert and records itself
    sel.select(SelectionMode::Extend, Entity(3), no_range);
    assert_eq!(selected(&sel), vec![3]);
    assert_eq!(sel.last_action(), Some((SelectionMode::Extend, Entity(3))));
    // a following extend keeps the existing selection and unions the range
    sel.select(SelectionMode::Extend, Entity(5), |_c, _a| {
        vec![Entity(4), Entity(5)]
    });
    assert_eq!(selected(&sel), vec![3, 4, 5]);
    assert_eq!(sel.last_action(), Some((SelectionMode::Extend, Entity(3))));
}

#[test]
fn extend_with_empty_range_clears_to_nothing() {
    let mut sel = SelectedEntities::default();
    sel.select(SelectionMode::Replace, Entity(1), no_range);
    sel.select(SelectionMode::Extend, Entity(99), no_range);
    assert_eq!(selected(&sel), vec![], "unresolvable range contributes nothing");
    assert_eq!(sel.last_action(), Some((SelectionMode::Replace, Entity(1))));
}

#[test]
fn select_replace_records_anchor() {
    let mut sel = SelectedEntities::default();
    sel.select_replace(Entity(6));
    assert_eq!(selected(&sel), vec![6]);
    assert_eq!(sel.last_action(), Some((SelectionMode::Replace, Entity(6))));
}

#[test]
fn select_maybe_add_toggles_or_replaces() {
    let mut sel = SelectedEntities::default();
    sel.select_maybe_add(Entity(1), false);
    sel.select_maybe_add(Entity(2), true);
    assert_eq!(selected(&sel), vec![1, 2]);
    sel.select_maybe_add(Entity(1), true);
    assert_eq!(selected(&sel), vec![2]);
    sel.select_maybe_add(Entity(9), false);
    assert_eq!(selected(&sel), vec![9]);
}

#[test]
fn remove_returns_the_entity_once() {
    let mut sel = SelectedEntities::default();
    sel.select(SelectionMode::Add, Entity(1), no_range);
    sel.select(SelectionMode::Add, Entity(2), no_range);
    assert_eq!(sel.remove(Entity(1)), Some(Entity(1)));
    assert_eq!(selected(&sel), vec![2]);
    assert_eq!(sel.remove(Entity(1)), None);
    assert_eq!(selected(&sel), vec![2]);
    assert_eq!(
        sel.last_action(),
        Some((SelectionMode::Add, Entity(2))),
        "remove leaves the anchor alone"
    );
}

#[test]
fn retain_prunes_by_predicate() {
    let mut sel = SelectedEntities::default();
    for id in [1, 2, 3, 4, 5] {
        sel.select(SelectionMode::Add, Entity(id), no_range);
    }
    sel.retain(|e| e.0 % 2 == 1);
    assert_eq!(selected(&sel), vec![1, 3, 5]);
    sel.retain(|_e| false);
    assert_eq!(selected(&sel), vec![]);
}

#[test]
fn clear_empties_but_keeps_anchor() {
    let mut sel = SelectedEntities::default();
    sel.select(SelectionMode::Replace, Entity(4), no_range);
    sel.clear();
    assert!(sel.is_empty());
    assert_eq!(sel.len(), 0);
    assert_eq!(sel.last_action(), Some((SelectionMode::Replace, Entity(4))));
}

#[test]
fn membership_and_views_agree() {
    let mut sel = SelectedEntities::default();
    sel.select(SelectionMode::Add, Entity(3), no_range);
    sel.select(SelectionMode::Add, Entity(1), no_range);
    assert!(sel.contains(Entity(3)));
    assert!(sel.contains(Entity(1)));
    assert!(!sel.contains(Entity(2)));
    assert_eq!(sel.len(), 2);
    assert!(!sel.is_empty());
    assert_eq!(sel.iter(), vec![Entity(3), Entity(1)]);
    assert_eq!(sel.as_slice(), &[Entity(3), Entity(1)]);
}
