use entity_hierarchy::entity::Entity;
use entity_hierarchy::hierarchy::{ExpandedStore, GraphNode, GraphSnapshot, HierarchyStructure};
use entity_hierarchy::selection::{SelectedEntities, SelectionMode};

/// Roots `[R1, R2]`, `R1` with children `[C1, C2]`, everything expanded: one
/// full frame of the driver loop, a plain click on C1, then a shift-click on
/// R2 resolved against the visible order.
#[test]
fn click_then_shift_click_selects_the_visible_range() {
    let r1 = Entity(1);
    let c1 = Entity(2);
    let c2 = Entity(3);
    let r2 = Entity(4);
    let graph = GraphSnapshot {
        nodes: vec![
            GraphNode {
                entity: r1,
                name: "r1".to_string(),
                children: vec![c1, c2],
                has_parent: false,
            },
            GraphNode {
                entity: r2,
                name: "r2".to_string(),
                children: vec![],
                has_parent: false,
            },
            GraphNode {
                entity: c1,
                name: "c1".to_string(),
                children: vec![],
                has_parent: true,
            },
            GraphNode {
                entity: c2,
                name: "c2".to_string(),
                children: vec![],
                has_parent: true,
            },
        ],
    };

    let mut store = ExpandedStore::default();
    store.set_expanded(r1, true);
    store.set_expanded(r2, true);

    let mut hierarchy = HierarchyStructure::default();
    hierarchy.read_from_world(&graph);
    hierarchy.read_expanded(&store);
    assert_eq!(hierarchy.visible_elements(), &vec![r1, c1, c2, r2]);

    let mut selected = SelectedEntities::default();

    // plain click on C1
    let mode = SelectionMode::from_ctrl_shift(false, false);
    selected.select(mode, c1, |from, to| hierarchy.range_between(from, to));
    assert_eq!(selected.as_slice(), &[c1]);

    // shift-click on R2: the resolver reads the visible order
    let mode = SelectionMode::from_ctrl_shift(false, true);
    assert_eq!(hierarchy.range_between(r2, c1), vec![c1, c2, r2]);
    selected.select(mode, r2, |from, to| hierarchy.range_between(from, to));
    assert_eq!(selected.as_slice(), &[c1, c2, r2]);
    assert_eq!(selected.last_action(), Some((SelectionMode::Replace, c1)));
}

/// Selection survives a rebuild; `retain` prunes entities that left the
/// graph, as the driver does after each refresh.
#[test]
fn retain_prunes_after_rebuild() {
    let a = Entity(1);
    let b = Entity(2);
    let graph = GraphSnapshot {
        nodes: vec![
            GraphNode { entity: a, name: "a".to_string(), children: vec![], has_parent: false },
            GraphNode { entity: b, name: "b".to_string(), children: vec![], has_parent: false },
        ],
    };
    let mut hierarchy = HierarchyStructure::default();
    hierarchy.read_from_world(&graph);

    let mut selected = SelectedEntities::default();
    selected.select(SelectionMode::Add, a, |_f, _t| Vec::new());
    selected.select(SelectionMode::Add, b, |_f, _t| Vec::new());

    // the graph loses `b`
    let smaller = GraphSnapshot {
        nodes: vec![GraphNode {
            entity: a,
            name: "a".to_string(),
            children: vec![],
            has_parent: false,
        }],
    };
    hierarchy.read_from_world(&smaller);
    let alive: Vec<Entity> = hierarchy.elements().iter().map(|e| e.entity).collect();
    selected.retain(|e| alive.contains(&e));
    assert_eq!(selected.as_slice(), &[a]);
}
