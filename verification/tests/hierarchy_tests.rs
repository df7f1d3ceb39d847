use entity_hierarchy::entity::Entity;
use entity_hierarchy::hierarchy::{ExpandedStore, GraphNode, GraphSnapshot, HierarchyStructure};

fn node(id: u64, name: &str, children: &[u64], has_parent: bool) -> GraphNode {
    GraphNode {
        entity: Entity(id),
        name: name.to_string(),
        children: children.iter().map(|&c| Entity(c)).collect(),
        has_parent,
    }
}

/// Roots R1, R2; R1 has children C1 (with grandchild G1) and C2. Nodes are
/// listed parents-first, as the snapshot layout asks.
fn sample_graph() -> GraphSnapshot {
    GraphSnapshot {
        nodes: vec![
            node(10, "r1", &[11, 12], false),
            node(20, "r2", &[], false),
            node(11, "c1", &[13], true),
            node(12, "c2", &[], true),
            node(13, "g1", &[], true),
        ],
    }
}

fn entities_of(h: &HierarchyStructure) -> Vec<u64> {
    h.elements().iter().map(|e| e.entity.0).collect()
}

#[test]
fn preorder_flatten_orders_children() {
    let g = sample_graph();
    let mut h = HierarchyStructure::default();
    h.read_from_world(&g);
    assert_eq!(entities_of(&h), vec![10, 11, 13, 12, 20]);
    let depths: Vec<usize> = h.elements().iter().map(|e| e.depth).collect();
    assert_eq!(depths, vec![0, 1, 2, 1, 0]);
    let parents: Vec<Option<u64>> = h.elements().iter().map(|e| e.parent.map(|p| p.0)).collect();
    assert_eq!(parents, vec![None, Some(10), Some(11), Some(10), None]);
    let names: Vec<String> = h.elements().iter().map(|e| e.name.clone()).collect();
    assert_eq!(names, vec!["r1", "c1", "g1", "c2", "r2"]);
    let kids: Vec<bool> = h.elements().iter().map(|e| e.has_children).collect();
    assert_eq!(kids, vec![true, true, false, false, false]);
}

#[test]
fn preorder_parent_appears_earlier() {
    let g = sample_graph();
    let mut h = HierarchyStructure::default();
    h.read_from_world(&g);
    let els = h.elements();
    for (i, el) in els.iter().enumerate() {
        if let Some(p) = el.parent {
            let j = els.iter().position(|o| o.entity == p).expect("parent row exists");
            assert!(j < i, "parent must appear earlier");
            assert_eq!(els[j].depth + 1, el.depth);
        } else {
            assert_eq!(el.depth, 0);
        }
    }
}

#[test]
fn roots_sorted_by_id() {
    let g = GraphSnapshot {
        nodes: vec![
            node(30, "c", &[], false),
            node(10, "a", &[], false),
            node(20, "b", &[], false),
        ],
    };
    let mut h = HierarchyStructure::default();
    h.read_from_world(&g);
    assert_eq!(entities_of(&h), vec![10, 20, 30]);
}

#[test]
fn snapshot_deterministic() {
    let g = sample_graph();
    let mut h1 = HierarchyStructure::default();
    let mut h2 = HierarchyStructure::default();
    h1.read_from_world(&g);
    h2.read_from_world(&g);
    assert_eq!(h1.elements(), h2.elements());
    // rereading with the same structure also leaves the rows unchanged
    let before = h1.elements().clone();
    h1.read_from_world(&g);
    assert_eq!(h1.elements(), &before);
}

#[test]
fn empty_graph_yields_nothing() {
    let g = GraphSnapshot { nodes: vec![] };
    let mut h = HierarchyStructure::default();
    h.read_from_world(&g);
    h.read_expanded(&ExpandedStore::default());
    assert!(h.elements().is_empty());
    assert!(h.visible_elements().is_empty());
}

#[test]
fn dangling_child_becomes_leaf() {
    let g = GraphSnapshot { nodes: vec![node(1, "root", &[99], false)] };
    let mut h = HierarchyStructure::default();
    h.read_from_world(&g);
    assert_eq!(entities_of(&h), vec![1, 99]);
    let orphan = &h.elements()[1];
    assert_eq!(orphan.name, "");
    assert!(!orphan.has_children);
    assert_eq!(orphan.depth, 1);
    assert_eq!(orphan.parent, Some(Entity(1)));
}

#[test]
fn all_collapsed_shows_only_roots() {
    let g = sample_graph();
    let mut h = HierarchyStructure::default();
    h.read_from_world(&g);
    h.read_expanded(&ExpandedStore::default());
    assert_eq!(h.visible_elements(), &vec![Entity(10), Entity(20)]);
}

#[test]
fn expanding_reveals_children_in_order() {
    let g = sample_graph();
    let mut h = HierarchyStructure::default();
    h.read_from_world(&g);
    let mut store = ExpandedStore::default();
    store.set_expanded(Entity(10), true);
    h.read_expanded(&store);
    assert_eq!(
        h.visible_elements(),
        &vec![Entity(10), Entity(11), Entity(12), Entity(20)]
    );
    store.set_expanded(Entity(11), true);
    h.read_expanded(&store);
    assert_eq!(
        h.visible_elements(),
        &vec![Entity(10), Entity(11), Entity(13), Entity(12), Entity(20)]
    );
}

#[test]
fn collapsing_ancestor_hides_descendants() {
    let g = sample_graph();
    let mut h = HierarchyStructure::default();
    h.read_from_world(&g);
    let mut store = ExpandedStore::default();
    // G1's own chain below R1 is fully expanded, but R1 itself is collapsed:
    // neither C1 nor G1 may show, whatever their own flags say.
    store.set_expanded(Entity(11), true);
    store.set_expanded(Entity(13), true);
    h.read_expanded(&store);
    assert_eq!(h.visible_elements(), &vec![Entity(10), Entity(20)]);
    // expanding R1 again reveals the chain
    store.set_expanded(Entity(10), true);
    h.read_expanded(&store);
    assert_eq!(
        h.visible_elements(),
        &vec![Entity(10), Entity(11), Entity(13), Entity(12), Entity(20)]
    );
    // and collapsing R1 once more hides the whole subtree again
    store.set_expanded(Entity(10), false);
    h.read_expanded(&store);
    assert_eq!(h.visible_elements(), &vec![Entity(10), Entity(20)]);
}

#[test]
fn is_visible_follows_ancestor_chain() {
    let g = sample_graph();
    let mut h = HierarchyStructure::default();
    h.read_from_world(&g);
    let mut store = ExpandedStore::default();
    store.set_expanded(Entity(10), true);
    let els = h.elements().clone();
    let c1 = els.iter().find(|e| e.entity == Entity(11)).unwrap();
    let g1 = els.iter().find(|e| e.entity == Entity(13)).unwrap();
    let r1 = els.iter().find(|e| e.entity == Entity(10)).unwrap();
    assert!(h.is_visible(r1, &store));
    assert!(h.is_visible(c1, &store));
    assert!(!h.is_visible(g1, &store), "C1 is still collapsed");
    store.set_expanded(Entity(11), true);
    assert!(h.is_visible(g1, &store));
}

#[test]
fn visible_children_reads_own_flag() {
    let g = sample_graph();
    let mut h = HierarchyStructure::default();
    h.read_from_world(&g);
    let mut store = ExpandedStore::default();
    let r1 = h.elements()[0].clone();
    assert!(!r1.visible_children(&store));
    store.set_expanded(Entity(10), true);
    assert!(r1.visible_children(&store));
    store.set_expanded(Entity(10), false);
    assert!(!r1.visible_children(&store));
}

#[test]
fn range_between_is_inclusive_both_orders() {
    let g = sample_graph();
    let mut h = HierarchyStructure::default();
    h.read_from_world(&g);
    let mut store = ExpandedStore::default();
    store.set_expanded(Entity(10), true);
    h.read_expanded(&store);
    // visible: [10, 11, 12, 20]
    assert_eq!(
        h.range_between(Entity(11), Entity(20)),
        vec![Entity(11), Entity(12), Entity(20)]
    );
    assert_eq!(
        h.range_between(Entity(20), Entity(11)),
        vec![Entity(11), Entity(12), Entity(20)]
    );
    assert_eq!(h.range_between(Entity(10), Entity(10)), vec![Entity(10)]);
}

#[test]
fn range_between_missing_endpoint_is_empty() {
    let g = sample_graph();
    let mut h = HierarchyStructure::default();
    h.read_from_world(&g);
    h.read_expanded(&ExpandedStore::default());
    // visible: [10, 20]; 13 is hidden and 77 does not exist
    assert_eq!(h.range_between(Entity(10), Entity(13)), vec![]);
    assert_eq!(h.range_between(Entity(77), Entity(20)), vec![]);
}
