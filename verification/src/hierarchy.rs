use vstd::prelude::*;

use crate::entity::{Entity, first_index_of, lemma_first_index_of, no_dups, insert_one,
    remove_first, lemma_insert_one_no_dups, lemma_remove_no_dups};

verus! {

// ------------------------------------------------------------------
// Graph snapshot: the read-only input handed in by the driver.
// ------------------------------------------------------------------

/// Mathematical model of one graph node.
pub struct NodeModel {
    pub entity: Entity,
    pub name: Seq<char>,
    pub children: Seq<Entity>,
    pub has_parent: bool,
}

/// One node of a graph snapshot: its identifier, resolved display name,
/// ordered children, and whether the source grants it a parent relation.
#[derive(Debug, Clone)]
pub struct GraphNode {
    pub entity: Entity,
    pub name: String,
    pub children: Vec<Entity>,
    pub has_parent: bool,
}

impl View for GraphNode {
    type V = NodeModel;

    open spec fn view(&self) -> NodeModel {
        NodeModel {
            entity: self.entity,
            name: self.name@,
            children: self.children@,
            has_parent: self.has_parent,
        }
    }
}

/// A read-only snapshot of the source graph: one entry per node.
#[derive(Debug, Clone)]
pub struct GraphSnapshot {
    pub nodes: Vec<GraphNode>,
}

impl View for GraphSnapshot {
    type V = Seq<NodeModel>;

    open spec fn view(&self) -> Seq<NodeModel> {
        self.nodes@.map_values(|n: GraphNode| n@)
    }
}

/// Index of the first node of `g` with identifier `e`; `g.len()` when absent.
pub open spec fn node_idx(g: Seq<NodeModel>, e: Entity) -> int
    decreases g.len(),
{
    if g.len() == 0 {
        0
    } else if g[0].entity == e {
        0
    } else {
        1 + node_idx(g.skip(1), e)
    }
}

/// `node_idx` is the least index whose node carries `e`, or the length.
pub proof fn lemma_node_idx(g: Seq<NodeModel>, e: Entity)
    ensures
        0 <= node_idx(g, e) <= g.len(),
        node_idx(g, e) < g.len() ==> g[node_idx(g, e)].entity == e,
        forall|j: int| 0 <= j < node_idx(g, e) ==> g[j].entity != e,
    decreases g.len(),
{
    if g.len() > 0 && g[0].entity != e {
        lemma_node_idx(g.skip(1), e);
        let t = g.skip(1);
        assert(forall|j: int| 0 <= j < t.len() ==> t[j] == g[j + 1]);
        assert forall|j: int| 0 <= j < node_idx(g, e) implies g[j].entity != e by {
            if j > 0 {
                assert(t[j - 1] == g[j]);
            }
        }
    }
}

/// Every child reference points strictly forward: the first node of a child
/// entity, if there is one, stands after the node whose child list names it.
/// This is how a snapshot of an acyclic parent/child graph is laid out
/// (parents before children), and it is what bounds the traversal.
pub open spec fn wf_graph(g: Seq<NodeModel>) -> bool {
    forall|i: int, k: int|
        0 <= i < g.len() && 0 <= k < g[i].children.len() ==> #[trigger] node_idx(
            g,
            g[i].children[k],
        ) > i
}

/// Nodes left at or after position `lo`; the measure that shrinks along
/// child links of a well-formed snapshot.
pub open spec fn remaining(g: Seq<NodeModel>, lo: int) -> nat {
    if lo < 0 {
        g.len() + 1
    } else if lo >= g.len() {
        0
    } else {
        (g.len() - lo) as nat
    }
}

// ------------------------------------------------------------------
// Flattened snapshot.
// ------------------------------------------------------------------

/// Mathematical model of one row of the flattened snapshot.
pub struct ElementModel {
    pub entity: Entity,
    pub parent: Option<Entity>,
    pub name: Seq<char>,
    pub depth: nat,
    pub has_children: bool,
}

/// One node of the flattened snapshot: identifier, immediate ancestor (none
/// for roots), resolved display name, recursion depth, and whether the node
/// had children at snapshot time.
#[derive(Debug, Clone, PartialEq)]
pub struct HierarchyElement {
    pub entity: Entity,
    pub parent: Option<Entity>,
    pub name: String,
    pub depth: usize,
    pub has_children: bool,
}

impl View for HierarchyElement {
    type V = ElementModel;

    open spec fn view(&self) -> ElementModel {
        ElementModel {
            entity: self.entity,
            parent: self.parent,
            name: self.name@,
            depth: self.depth as nat,
            has_children: self.has_children,
        }
    }
}

/// The element the walk records for `e`: name and child flag come from the
/// first node of `e` in the snapshot; a dangling reference gets an empty
/// name and no children.
pub open spec fn elem_model(
    g: Seq<NodeModel>,
    e: Entity,
    parent: Option<Entity>,
    depth: nat,
) -> ElementModel {
    let i = node_idx(g, e);
    ElementModel {
        entity: e,
        parent: parent,
        name: if 0 <= i && i < g.len() {
            g[i].name
        } else {
            Seq::empty()
        },
        depth: depth,
        has_children: 0 <= i && i < g.len() && g[i].children.len() > 0,
    }
}

/// The pre-order block of `e`: its own element, then its children's blocks
/// in child-list order.
pub open spec fn flatten_node(
    g: Seq<NodeModel>,
    e: Entity,
    parent: Option<Entity>,
    depth: nat,
) -> Seq<ElementModel>
    decreases remaining(g, node_idx(g, e)), 1int, 0int,
{
    let i = node_idx(g, e);
    if 0 <= i && i < g.len() {
        seq![elem_model(g, e, parent, depth)] + flatten_children(g, g[i].children, e, depth + 1, i)
    } else {
        seq![elem_model(g, e, parent, depth)]
    }
}

/// The concatenated blocks of the children `cs` of the node at index `lo`.
/// A child whose own node does not stand strictly after `lo` is passed over;
/// a well-formed snapshot has no such child.
pub open spec fn flatten_children(
    g: Seq<NodeModel>,
    cs: Seq<Entity>,
    parent_entity: Entity,
    depth: nat,
    lo: int,
) -> Seq<ElementModel>
    decreases remaining(g, lo), 0int, cs.len() as int,
{
    if cs.len() == 0 {
        Seq::empty()
    } else {
        let head = if 0 <= lo && lo < g.len() && lo < node_idx(g, cs[0]) {
            flatten_node(g, cs[0], Some(parent_entity), depth)
        } else {
            Seq::empty()
        };
        head + flatten_children(g, cs.skip(1), parent_entity, depth, lo)
    }
}

/// The blocks of the given roots, in order, each at depth zero.
pub open spec fn flatten_roots(g: Seq<NodeModel>, rs: Seq<Entity>) -> Seq<ElementModel>
    decreases rs.len(),
{
    if rs.len() == 0 {
        Seq::empty()
    } else {
        flatten_node(g, rs[0], None, 0) + flatten_roots(g, rs.skip(1))
    }
}

/// Identifiers of the nodes among the first `n` of `g` without a parent
/// relation, in snapshot order.
pub open spec fn roots_to(g: Seq<NodeModel>, n: int) -> Seq<Entity>
    decreases n,
{
    if n <= 0 || n > g.len() {
        Seq::empty()
    } else {
        roots_to(g, n - 1) + (if !g[n - 1].has_parent {
            seq![g[n - 1].entity]
        } else {
            Seq::empty()
        })
    }
}

/// All root identifiers of the snapshot, in snapshot order.
pub open spec fn roots_of(g: Seq<NodeModel>) -> Seq<Entity> {
    roots_to(g, g.len() as int)
}

/// `e` placed before the first entry of `s` with an id not below its own.
pub open spec fn sorted_insert(e: Entity, s: Seq<Entity>) -> Seq<Entity>
    decreases s.len(),
{
    if s.len() == 0 {
        seq![e]
    } else if e.0 <= s[0].0 {
        seq![e] + s
    } else {
        seq![s[0]] + sorted_insert(e, s.skip(1))
    }
}

/// Insertion sort by identifier: the deterministic total order that makes
/// rebuilt snapshots stable.
pub open spec fn sort_entities(s: Seq<Entity>) -> Seq<Entity>
    decreases s.len(),
{
    if s.len() == 0 {
        s
    } else {
        sorted_insert(s[0], sort_entities(s.skip(1)))
    }
}

/// The whole flattened snapshot of `g`: a pre-order walk from every root,
/// roots visited in ascending id order. A function of the graph alone.
pub open spec fn spec_read(g: Seq<NodeModel>) -> Seq<ElementModel> {
    flatten_roots(g, sort_entities(roots_of(g)))
}

// ------------------------------------------------------------------
// Exec: snapshot lookup, sort, and the walk itself.
// ------------------------------------------------------------------

/// Finds the first node of `e` in the snapshot, as `node_idx` names it.
fn find_node(g: &GraphSnapshot, e: Entity) -> (r: Option<usize>)
    ensures
        match r {
            Some(i) => i == node_idx(g@, e) && i < g@.len(),
            None => node_idx(g@, e) == g@.len(),
        },
{
    let n = g.nodes.len();
    let mut i: usize = 0;
    while i < n
        invariant
            n == g.nodes@.len(),
            g@.len() == n,
            i <= n,
            forall|j: int| 0 <= j < i ==> g@[j].entity != e,
        decreases n - i,
    {
        if g.nodes[i].entity == e {
            proof {
                lemma_node_idx(g@, e);
                assert(g@[i as int] == g.nodes@[i as int]@);
                assert(g@[i as int].entity == e);
                let ni = node_idx(g@, e);
                assert(ni == i) by {
                    if ni < i {
                        assert(g@[ni].entity == e);
                    }
                    if ni > i {
                        assert(g@[i as int].entity != e);
                    }
                }
            }
            return Some(i);
        }
        proof {
            assert(g@[i as int] == g.nodes@[i as int]@);
        }
        i += 1;
    }
    proof {
        lemma_node_idx(g@, e);
        let ni = node_idx(g@, e);
        if ni < g@.len() {
            assert(g@[ni].entity == e);
        }
    }
    None
}

/// Finds the first position of `e` in `v`, as `first_index_of` names it.
fn position_of(v: &Vec<Entity>, e: Entity) -> (r: Option<usize>)
    ensures
        match r {
            Some(i) => i == first_index_of(v@, e) && i < v@.len(),
            None => first_index_of(v@, e) == v@.len(),
        },
{
    let n = v.len();
    let mut i: usize = 0;
    while i < n
        invariant
            n == v@.len(),
            i <= n,
            forall|j: int| 0 <= j < i ==> v@[j] != e,
        decreases n - i,
    {
        if v[i] == e {
            proof {
                lemma_first_index_of(v@, e);
                assert(v@.contains(e));
                let fi = first_index_of(v@, e);
                assert(fi == i) by {
                    if fi < i {
                        assert(v@[fi] == e);
                    }
                    if fi > i {
                        assert(v@[i as int] != e);
                    }
                }
            }
            return Some(i);
        }
        i += 1;
    }
    proof {
        lemma_first_index_of(v@, e);
        let fi = first_index_of(v@, e);
        if fi < v@.len() {
            assert(v@[fi] == e);
        }
    }
    None
}

/// Inserts `e` into the sorted vector `s` where `sorted_insert` puts it.
fn insert_sorted(e: Entity, s: &Vec<Entity>) -> (r: Vec<Entity>)
    ensures
        r@ == sorted_insert(e, s@),
{
    let n = s.len();
    let mut p: usize = 0;
    while p < n && s[p].0 < e.0
        invariant
            n == s@.len(),
            p <= n,
            forall|j: int| 0 <= j < p ==> s@[j].0 < e.0,
        decreases n - p,
    {
        p += 1;
    }
    let mut r: Vec<Entity> = Vec::new();
    let mut i: usize = 0;
    while i < n
        invariant
            n == s@.len(),
            i <= n,
            r@ == s@.take(i as int),
        decreases n - i,
    {
        r.push(s[i]);
        proof {
            assert(s@.take(i + 1) =~= s@.take(i as int).push(s@[i as int]));
        }
        i += 1;
    }
    proof {
        assert(s@.take(n as int) =~= s@);
    }
    r.insert(p, e);
    proof {
        lemma_sorted_insert_at(e, s@, p as int);
    }
    r
}

/// `sorted_insert` places `e` exactly at the first position whose id is not
/// below it.
proof fn lemma_sorted_insert_at(e: Entity, s: Seq<Entity>, p: int)
    requires
        0 <= p <= s.len(),
        forall|j: int| 0 <= j < p ==> s[j].0 < e.0,
        p < s.len() ==> e.0 <= s[p].0,
    ensures
        sorted_insert(e, s) == s.insert(p, e),
    decreases s.len(),
{
    if s.len() == 0 {
        assert(sorted_insert(e, s) =~= s.insert(0, e));
    } else if p == 0 {
        assert(sorted_insert(e, s) =~= s.insert(0, e));
    } else {
        assert(s[0].0 < e.0);
        let t = s.skip(1);
        assert(forall|j: int| 0 <= j < t.len() ==> t[j] == s[j + 1]);
        lemma_sorted_insert_at(e, t, p - 1);
        assert((seq![s[0]] + t.insert(p - 1, e)) =~= s.insert(p, e));
    }
}

// ------------------------------------------------------------------
// The structure itself.
// ------------------------------------------------------------------

/// Mathematical state of a flattened hierarchy: the depth-annotated rows and
/// the identifiers currently visible.
pub struct StructureModel {
    pub elements: Seq<ElementModel>,
    pub visible_elements: Seq<Entity>,
}

/// Flat, depth-annotated, insertion-ordered snapshot of the entity graph,
/// with the visible subsequence derived from the expand/collapse flags.
#[derive(Debug, Clone)]
pub struct HierarchyStructure {
    elements: Vec<HierarchyElement>,
    visible_elements: Vec<Entity>,
}

impl View for HierarchyStructure {
    type V = StructureModel;

    closed spec fn view(&self) -> StructureModel {
        StructureModel {
            elements: self.elements@.map_values(|e: HierarchyElement| e@),
            visible_elements: self.visible_elements@,
        }
    }
}

impl Default for HierarchyStructure {
    /// An empty snapshot with nothing visible.
    fn default() -> (r: HierarchyStructure)
        ensures
            r@.elements == Seq::<ElementModel>::empty(),
            r@.visible_elements == Seq::<Entity>::empty(),
    {
        let r = HierarchyStructure { elements: Vec::new(), visible_elements: Vec::new() };
        proof {
            assert(r@.elements =~= Seq::<ElementModel>::empty());
        }
        r
    }
}

impl HierarchyStructure {
    /// The flattened rows, in pre-order.
    pub fn elements(&self) -> (r: &Vec<HierarchyElement>)
        ensures
            r@.len() == self@.elements.len(),
            forall|i: int| 0 <= i < r@.len() ==> (#[trigger] r@[i])@ == self@.elements[i],
    {
        &self.elements
    }

    /// The identifiers of the currently visible rows, in pre-order.
    pub fn visible_elements(&self) -> (r: &Vec<Entity>)
        ensures
            r@ == self@.visible_elements,
    {
        &self.visible_elements
    }

    /// Appends the pre-order block of `entity` to the rows: the element
    /// itself, then, recursively, every child block in order.
    fn add_recursive(
        &mut self,
        depth: usize,
        entity: Entity,
        parent: Option<Entity>,
        world: &GraphSnapshot,
    )
        requires
            wf_graph(world@),
            depth as int <= node_idx(world@, entity),
        ensures
            final(self)@.elements == old(self)@.elements + flatten_node(
                world@,
                entity,
                parent,
                depth as nat,
            ),
            final(self)@.visible_elements == old(self)@.visible_elements,
        decreases remaining(world@, node_idx(world@, entity)),
    {
        let found = find_node(world, entity);
        match found {
            None => {
                let element = HierarchyElement {
                    entity,
                    parent,
                    name: String::new(),
                    depth,
                    has_children: false,
                };
                proof {
                    assert(element@ == elem_model(world@, entity, parent, depth as nat));
                }
                self.elements.push(element);
                proof {
                    assert(self@.elements =~= old(self)@.elements + flatten_node(
                        world@, entity, parent, depth as nat));
                }
            },
            Some(i) => {
                let name = world.nodes[i].name.clone();
                let has_children = world.nodes[i].children.len() > 0;
                let element = HierarchyElement { entity, parent, name, depth, has_children };
                proof {
                    assert(world@[i as int] == world.nodes@[i as int]@);
                    assert(element@ == elem_model(world@, entity, parent, depth as nat));
                }
                self.elements.push(element);
                let ghost base = self@.elements;
                proof {
                    assert(base =~= old(self)@.elements + seq![
                        elem_model(world@, entity, parent, depth as nat)]);
                }
                let total = world.nodes.len();
                proof {
                    assert(i < total);
                    assert(depth < usize::MAX);
                }
                let child_count = world.nodes[i].children.len();
                let ghost cs = world@[i as int].children;
                let mut k: usize = 0;
                while k < child_count
                    invariant
                        wf_graph(world@),
                        world@.len() == world.nodes@.len(),
                        i < world.nodes@.len(),
                        i == node_idx(world@, entity),
                        depth as int <= i,
                        depth < usize::MAX,
                        cs == world@[i as int].children,
                        child_count == cs.len(),
                        k <= child_count,
                        self@.elements == base + flatten_children(
                            world@, cs.take(k as int), entity, (depth + 1) as nat, i as int),
                        self@.visible_elements == old(self)@.visible_elements,
                    decreases child_count - k,
                {
                    let child = world.nodes[i].children[k];
                    proof {
                        assert(cs[k as int] == child);
                        assert(node_idx(world@, world@[i as int].children[k as int]) > i);
                        lemma_node_idx(world@, child);
                    }
                    self.add_recursive(depth + 1, child, Some(entity), world);
                    proof {
                        lemma_flatten_children_take_snoc(
                            world@, cs, entity, (depth + 1) as nat, i as int, k as int);
                        assert(self@.elements =~= base + flatten_children(
                            world@, cs.take(k + 1), entity, (depth + 1) as nat, i as int));
                    }
                    k += 1;
                }
                proof {
                    assert(cs.take(cs.len() as int) =~= cs);
                    assert(self@.elements =~= old(self)@.elements + flatten_node(
                        world@, entity, parent, depth as nat));
                }
            },
        }
    }

    /// Rebuilds the rows from scratch: collects the root entities (no parent
    /// relation), sorts them by id, and walks each root in pre-order. The
    /// visible rows are left as they were until the next visibility pass.
    pub fn read_from_world(&mut self, world: &GraphSnapshot)
        requires
            wf_graph(world@),
        ensures
            final(self)@.elements == spec_read(world@),
            final(self)@.visible_elements == old(self)@.visible_elements,
    {
        self.elements.clear();
        let ghost cleared = self@.elements;
        proof {
            assert(cleared =~= Seq::<ElementModel>::empty());
        }
        let n = world.nodes.len();
        let mut roots: Vec<Entity> = Vec::new();
        let mut i: usize = 0;
        while i < n
            invariant
                n == world.nodes@.len(),
                world@.len() == n,
                i <= n,
                roots@ == roots_to(world@, i as int),
            decreases n - i,
        {
            proof {
                assert(world@[i as int] == world.nodes@[i as int]@);
            }
            if !world.nodes[i].has_parent {
                roots.push(world.nodes[i].entity);
                proof {
                    assert(roots@ =~= roots_to(world@, i as int) + seq![
                        world@[i as int].entity]);
                }
            } else {
                proof {
                    assert(roots_to(world@, i + 1) =~= roots_to(world@, i as int));
                }
            }
            i += 1;
        }
        let sorted = sort_roots(roots);
        let ghost rs = sorted@;
        proof {
            assert(rs == sort_entities(roots_of(world@)));
        }
        let m = sorted.len();
        let mut j: usize = 0;
        while j < m
            invariant
                wf_graph(world@),
                m == rs.len(),
                rs == sorted@,
                j <= m,
                self@.elements == flatten_roots_to(world@, rs, j as int),
                self@.visible_elements == old(self)@.visible_elements,
            decreases m - j,
        {
            let root = sorted[j];
            proof {
                lemma_node_idx(world@, root);
            }
            self.add_recursive(0, root, None, world);
            proof {
                assert(self@.elements =~= flatten_roots_to(world@, rs, j + 1));
            }
            j += 1;
        }
        proof {
            lemma_flatten_roots_to_full(world@, rs);
        }
    }
}

/// Prefix form of `flatten_roots`: the blocks of the first `n` roots.
pub open spec fn flatten_roots_to(g: Seq<NodeModel>, rs: Seq<Entity>, n: int) -> Seq<ElementModel>
    decreases n,
{
    if n <= 0 || n > rs.len() {
        Seq::empty()
    } else {
        flatten_roots_to(g, rs, n - 1) + flatten_node(g, rs[n - 1], None, 0)
    }
}

/// The prefix form at full length agrees with `flatten_roots`.
proof fn lemma_flatten_roots_to_full(g: Seq<NodeModel>, rs: Seq<Entity>)
    ensures
        flatten_roots_to(g, rs, rs.len() as int) == flatten_roots(g, rs),
    decreases rs.len(),
{
    lemma_flatten_roots_to_eq(g, rs, rs.len() as int);
    assert(rs.take(rs.len() as int) =~= rs);
}

/// The prefix form agrees with `flatten_roots` on any prefix.
proof fn lemma_flatten_roots_to_eq(g: Seq<NodeModel>, rs: Seq<Entity>, n: int)
    ensures
        0 <= n <= rs.len() ==> flatten_roots_to(g, rs, n) == flatten_roots(g, rs.take(n)),
    decreases n,
{
    if 0 < n <= rs.len() {
        lemma_flatten_roots_to_eq(g, rs, n - 1);
        lemma_flatten_roots_take_snoc(g, rs, n - 1);
    } else if n == 0 {
        assert(rs.take(0) =~= Seq::<Entity>::empty());
    }
}

/// Walking one more root appends exactly its block.
proof fn lemma_flatten_roots_take_snoc(g: Seq<NodeModel>, rs: Seq<Entity>, k: int)
    requires
        0 <= k < rs.len(),
    ensures
        flatten_roots(g, rs.take(k + 1)) == flatten_roots(g, rs.take(k)) + flatten_node(
            g,
            rs[k],
            None,
            0,
        ),
    decreases k,
{
    if k == 0 {
        let one = rs.take(1);
        assert(one.len() == 1);
        assert(one[0] == rs[0]);
        assert(one.skip(1) =~= Seq::<Entity>::empty());
        assert(flatten_roots(g, rs.take(0)) =~= Seq::<ElementModel>::empty());
        assert(flatten_roots(g, one) == flatten_node(g, one[0], None, 0) + flatten_roots(
            g, one.skip(1)));
        assert(flatten_roots(g, one.skip(1)) =~= Seq::<ElementModel>::empty());
        assert(flatten_roots(g, one) =~= flatten_node(g, rs[0], None, 0) + Seq::<
            ElementModel,
        >::empty());
        assert(flatten_roots(g, rs.take(0)) + flatten_node(g, rs[0], None, 0) =~= flatten_node(
            g, rs[0], None, 0) + Seq::<ElementModel>::empty());
    } else {
        let a = rs.take(k + 1);
        let b = rs.take(k);
        assert(a[0] == rs[0] && b[0] == rs[0]);
        assert(a.skip(1) =~= rs.skip(1).take(k));
        assert(b.skip(1) =~= rs.skip(1).take(k - 1));
        assert(rs.skip(1)[k - 1] == rs[k]);
        lemma_flatten_roots_take_snoc(g, rs.skip(1), k - 1);
        assert(flatten_roots(g, a) == flatten_node(g, rs[0], None, 0) + flatten_roots(
            g, rs.skip(1).take(k)));
        assert(flatten_roots(g, b) == flatten_node(g, rs[0], None, 0) + flatten_roots(
            g, rs.skip(1).take(k - 1)));
        assert((flatten_node(g, rs[0], None, 0) + (flatten_roots(g, rs.skip(1).take(k - 1))
            + flatten_node(g, rs[k], None, 0))) =~= (flatten_node(g, rs[0], None, 0)
            + flatten_roots(g, rs.skip(1).take(k - 1))) + flatten_node(g, rs[k], None, 0));
    }
}

/// Walking one more child appends exactly its block (or nothing, for a child
/// that a well-formed snapshot would not have).
proof fn lemma_flatten_children_take_snoc(
    g: Seq<NodeModel>,
    cs: Seq<Entity>,
    parent_entity: Entity,
    depth: nat,
    lo: int,
    k: int,
)
    requires
        0 <= k < cs.len(),
    ensures
        flatten_children(g, cs.take(k + 1), parent_entity, depth, lo) == flatten_children(
            g,
            cs.take(k),
            parent_entity,
            depth,
            lo,
        ) + (if 0 <= lo && lo < g.len() && lo < node_idx(g, cs[k]) {
            flatten_node(g, cs[k], Some(parent_entity), depth)
        } else {
            Seq::<ElementModel>::empty()
        }),
    decreases k,
{
    let tail = (if 0 <= lo && lo < g.len() && lo < node_idx(g, cs[k]) {
        flatten_node(g, cs[k], Some(parent_entity), depth)
    } else {
        Seq::<ElementModel>::empty()
    });
    if k == 0 {
        let one = cs.take(1);
        assert(one.len() == 1);
        assert(one[0] == cs[0]);
        assert(one.skip(1) =~= Seq::<Entity>::empty());
        assert(flatten_children(g, cs.take(0), parent_entity, depth, lo) =~= Seq::<
            ElementModel,
        >::empty());
        let head0 = (if 0 <= lo && lo < g.len() && lo < node_idx(g, one[0]) {
            flatten_node(g, one[0], Some(parent_entity), depth)
        } else {
            Seq::<ElementModel>::empty()
        });
        assert(flatten_children(g, one, parent_entity, depth, lo) == head0 + flatten_children(
            g, one.skip(1), parent_entity, depth, lo));
        assert(flatten_children(g, one.skip(1), parent_entity, depth, lo) =~= Seq::<
            ElementModel,
        >::empty());
        assert(head0 == tail);
        assert(flatten_children(g, one, parent_entity, depth, lo) =~= tail + Seq::<
            ElementModel,
        >::empty());
        assert(tail + Seq::<ElementModel>::empty() =~= tail);
        assert(flatten_children(g, cs.take(0), parent_entity, depth, lo) + tail =~= tail);
    } else {
        let a = cs.take(k + 1);
        let b = cs.take(k);
        assert(a[0] == cs[0] && b[0] == cs[0]);
        assert(a.skip(1) =~= cs.skip(1).take(k));
        assert(b.skip(1) =~= cs.skip(1).take(k - 1));
        assert(cs.skip(1)[k - 1] == cs[k]);
        lemma_flatten_children_take_snoc(g, cs.skip(1), parent_entity, depth, lo, k - 1);
        let head = (if 0 <= lo && lo < g.len() && lo < node_idx(g, cs[0]) {
            flatten_node(g, cs[0], Some(parent_entity), depth)
        } else {
            Seq::<ElementModel>::empty()
        });
        assert(flatten_children(g, a, parent_entity, depth, lo) == head + flatten_children(
            g, cs.skip(1).take(k), parent_entity, depth, lo));
        assert(flatten_children(g, b, parent_entity, depth, lo) == head + flatten_children(
            g, cs.skip(1).take(k - 1), parent_entity, depth, lo));
        assert((head + (flatten_children(g, cs.skip(1).take(k - 1), parent_entity, depth, lo)
            + tail)) =~= (head + flatten_children(
            g, cs.skip(1).take(k - 1), parent_entity, depth, lo)) + tail);
    }
}

/// Sorts the root list by id, as `sort_entities` describes.
fn sort_roots(v: Vec<Entity>) -> (r: Vec<Entity>)
    ensures
        r@ == sort_entities(v@),
{
    let n = v.len();
    let mut r: Vec<Entity> = Vec::new();
    let mut i: usize = n;
    proof {
        assert(v@.skip(n as int) =~= Seq::<Entity>::empty());
    }
    while i > 0
        invariant
            n == v@.len(),
            i <= n,
            r@ == sort_entities(v@.skip(i as int)),
        decreases i,
    {
        i -= 1;
        let next = insert_sorted(v[i], &r);
        r = next;
        proof {
            assert(v@.skip(i as int)[0] == v@[i as int]);
            assert(v@.skip(i as int).skip(1) =~= v@.skip(i + 1));
        }
    }
    proof {
        assert(v@.skip(0) =~= v@);
    }
    r
}

// ------------------------------------------------------------------
// Expand/collapse flags and visibility.
// ------------------------------------------------------------------

/// The driver-owned expand/collapse flag store, keyed by entity: an entity
/// is expanded iff it is listed. Entities default to collapsed.
#[derive(Debug, Clone)]
pub struct ExpandedStore {
    expanded: Vec<Entity>,
}

impl View for ExpandedStore {
    type V = Seq<Entity>;

    closed spec fn view(&self) -> Seq<Entity> {
        self.expanded@
    }
}

impl Default for ExpandedStore {
    /// A store with every entity collapsed.
    fn default() -> (r: ExpandedStore)
        ensures
            r@ == Seq::<Entity>::empty(),
            r.wf(),
    {
        ExpandedStore { expanded: Vec::new() }
    }
}

impl ExpandedStore {
    /// The store lists no entity twice.
    pub open spec fn wf(&self) -> bool {
        no_dups(self@)
    }

    /// Whether `e` is currently marked expanded.
    pub fn is_expanded(&self, e: Entity) -> (r: bool)
        ensures
            r == self@.contains(e),
    {
        let found = position_of(&self.expanded, e);
        proof {
            lemma_first_index_of(self@, e);
        }
        found.is_some()
    }

    /// Marks `e` expanded or collapsed.
    pub fn set_expanded(&mut self, e: Entity, value: bool)
        requires
            old(self).wf(),
        ensures
            final(self).wf(),
            value ==> final(self)@ == insert_one(old(self)@, e),
            !value ==> final(self)@ == remove_first(old(self)@, e),
    {
        proof {
            lemma_insert_one_no_dups(self@, e);
            lemma_first_index_of(self@, e);
        }
        if value {
            if !self.is_expanded(e) {
                self.expanded.push(e);
            }
        } else {
            match position_of(&self.expanded, e) {
                Some(i) => {
                    proof {
                        lemma_remove_no_dups(self@, i as int);
                        assert(self@.contains(e));
                    }
                    let _removed = self.expanded.remove(i);
                },
                None => {
                    proof {
                        assert(!self@.contains(e));
                    }
                },
            }
        }
    }
}

/// Index of the first element of `s` carrying entity `e`; `s.len()` when
/// absent.
pub open spec fn elem_idx(s: Seq<ElementModel>, e: Entity) -> int
    decreases s.len(),
{
    if s.len() == 0 {
        0
    } else if s[0].entity == e {
        0
    } else {
        1 + elem_idx(s.skip(1), e)
    }
}

/// `elem_idx` is the least index whose element carries `e`, or the length.
pub proof fn lemma_elem_idx(s: Seq<ElementModel>, e: Entity)
    ensures
        0 <= elem_idx(s, e) <= s.len(),
        elem_idx(s, e) < s.len() ==> s[elem_idx(s, e)].entity == e,
        forall|j: int| 0 <= j < elem_idx(s, e) ==> s[j].entity != e,
    decreases s.len(),
{
    if s.len() > 0 && s[0].entity != e {
        lemma_elem_idx(s.skip(1), e);
        let t = s.skip(1);
        assert(forall|j: int| 0 <= j < t.len() ==> t[j] == s[j + 1]);
        assert forall|j: int| 0 <= j < elem_idx(s, e) implies s[j].entity != e by {
            if j > 0 {
                assert(t[j - 1] == s[j]);
            }
        }
    }
}

/// The parent-gated visibility rule at row `i`: a root is always visible,
/// any other row is visible exactly when its parent row (the first row of
/// the parent entity, which must stand earlier) is visible and its parent
/// entity is expanded.
pub open spec fn visible_at(s: Seq<ElementModel>, expanded: Seq<Entity>, i: int) -> bool
    decreases i,
{
    if 0 <= i && i < s.len() {
        match s[i].parent {
            None => true,
            Some(p) => {
                let j = elem_idx(s, p);
                if 0 <= j && j < i {
                    expanded.contains(p) && visible_at(s, expanded, j)
                } else {
                    false
                }
            },
        }
    } else {
        false
    }
}

/// Identifiers of the visible rows among the first `n`, in row order.
pub open spec fn visible_to(s: Seq<ElementModel>, expanded: Seq<Entity>, n: int) -> Seq<Entity>
    decreases n,
{
    if n <= 0 || n > s.len() {
        Seq::empty()
    } else {
        visible_to(s, expanded, n - 1) + (if visible_at(s, expanded, n - 1) {
            seq![s[n - 1].entity]
        } else {
            Seq::empty()
        })
    }
}

/// Identifiers of all visible rows, in row order.
pub open spec fn spec_visible(s: Seq<ElementModel>, expanded: Seq<Entity>) -> Seq<Entity> {
    visible_to(s, expanded, s.len() as int)
}

/// The visibility of a row handed in by value: the same rule as
/// `visible_at`, anchored at the first row of the parent entity.
pub open spec fn spec_elem_visible(
    s: Seq<ElementModel>,
    expanded: Seq<Entity>,
    el: ElementModel,
) -> bool {
    match el.parent {
        None => true,
        Some(p) => {
            let j = elem_idx(s, p);
            if 0 <= j && j < s.len() {
                expanded.contains(p) && visible_at(s, expanded, j)
            } else {
                false
            }
        },
    }
}

impl HierarchyStructure {
    /// Finds the first row of entity `e`, as `elem_idx` names it.
    fn find_element(&self, e: Entity) -> (r: Option<usize>)
        ensures
            match r {
                Some(i) => i == elem_idx(self@.elements, e) && i < self@.elements.len(),
                None => elem_idx(self@.elements, e) == self@.elements.len(),
            },
    {
        let ghost s = self@.elements;
        let n = self.elements.len();
        let mut i: usize = 0;
        while i < n
            invariant
                s == self@.elements,
                n == self.elements@.len(),
                s.len() == n,
                i <= n,
                forall|j: int| 0 <= j < i ==> s[j].entity != e,
            decreases n - i,
        {
            if self.elements[i].entity == e {
                proof {
                    lemma_elem_idx(s, e);
                    assert(s[i as int] == self.elements@[i as int]@);
                    assert(s[i as int].entity == e);
                    let ni = elem_idx(s, e);
                    assert(ni == i) by {
                        if ni < i {
                            assert(s[ni].entity == e);
                        }
                        if ni > i {
                            assert(s[i as int].entity != e);
                        }
                    }
                }
                return Some(i);
            }
            proof {
                assert(s[i as int] == self.elements@[i as int]@);
            }
            i += 1;
        }
        proof {
            lemma_elem_idx(s, e);
            let ni = elem_idx(s, e);
            if ni < s.len() {
                assert(s[ni].entity == e);
            }
        }
        None
    }

    /// Visibility of the row at `idx`, following parent links upward.
    fn visible_index(&self, store: &ExpandedStore, idx: usize) -> (r: bool)
        requires
            idx < self@.elements.len(),
        ensures
            r == visible_at(self@.elements, store@, idx as int),
    {
        let ghost s = self@.elements;
        let mut cur = idx;
        loop
            invariant
                s == self@.elements,
                cur < s.len(),
                visible_at(s, store@, idx as int) == visible_at(s, store@, cur as int),
            decreases cur,
        {
            proof {
                assert(s[cur as int] == self.elements@[cur as int]@);
            }
            let parent = self.elements[cur].parent;
            match parent {
                None => {
                    return true;
                },
                Some(p) => {
                    match self.find_element(p) {
                        None => {
                            return false;
                        },
                        Some(j) => {
                            if j >= cur {
                                return false;
                            }
                            if !store.is_expanded(p) {
                                return false;
                            }
                            cur = j;
                        },
                    }
                },
            }
        }
    }

    /// Whether the given row is visible under the current flags: every
    /// ancestor on its path to a root expanded. A row whose parent has no
    /// row in the snapshot is not visible.
    pub fn is_visible(&self, el: &HierarchyElement, store: &ExpandedStore) -> (r: bool)
        ensures
            r == spec_elem_visible(self@.elements, store@, el@),
    {
        let parent = el.parent;
        match parent {
            None => true,
            Some(p) => {
                match self.find_element(p) {
                    None => false,
                    Some(j) => {
                        if !store.is_expanded(p) {
                            return false;
                        }
                        self.visible_index(store, j)
                    },
                }
            },
        }
    }

    /// Recomputes the visible rows from the expand/collapse flags: the
    /// identifiers of exactly the rows the visibility rule admits, in row
    /// order. The rows themselves are untouched.
    pub fn read_expanded(&mut self, store: &ExpandedStore)
        ensures
            final(self)@.elements == old(self)@.elements,
            final(self)@.visible_elements == spec_visible(old(self)@.elements, store@),
    {
        self.visible_elements.clear();
        let ghost s = self@.elements;
        let n = self.elements.len();
        let mut vis: Vec<bool> = Vec::new();
        let mut i: usize = 0;
        while i < n
            invariant
                s == self@.elements,
                n == self.elements@.len(),
                s.len() == n,
                i <= n,
                vis@.len() == i,
                forall|j: int| 0 <= j < i ==> vis@[j] == visible_at(s, store@, j),
                self@.visible_elements == visible_to(s, store@, i as int),
            decreases n - i,
        {
            proof {
                assert(s[i as int] == self.elements@[i as int]@);
            }
            let parent = self.elements[i].parent;
            let v: bool = match parent {
                None => true,
                Some(p) => {
                    match self.find_element(p) {
                        Some(j) => {
                            if j < i {
                                let expanded = store.is_expanded(p);
                                expanded && vis[j]
                            } else {
                                false
                            }
                        },
                        None => false,
                    }
                },
            };
            proof {
                assert(v == visible_at(s, store@, i as int));
            }
            if v {
                self.visible_elements.push(self.elements[i].entity);
            }
            vis.push(v);
            proof {
                if v {
                    assert(self@.visible_elements =~= visible_to(s, store@, i as int)
                        + seq![s[i as int].entity]);
                }
                assert(self@.visible_elements == visible_to(s, store@, i + 1));
            }
            i += 1;
        }
    }

    /// The inclusive range of visible identifiers between `from` and `to`
    /// (their first visible positions, in either order); empty when either
    /// endpoint is not currently visible.
    pub fn range_between(&self, from: Entity, to: Entity) -> (r: Vec<Entity>)
        ensures
            r@ == spec_range(self@.visible_elements, from, to),
    {
        let ghost v = self@.visible_elements;
        proof {
            lemma_first_index_of(v, from);
            lemma_first_index_of(v, to);
        }
        let fp = position_of(&self.visible_elements, from);
        let tp = position_of(&self.visible_elements, to);
        match (fp, tp) {
            (Some(a), Some(b)) => {
                let (lo, hi): (usize, usize) = if a <= b {
                    (a, b)
                } else {
                    (b, a)
                };
                let n = self.visible_elements.len();
                let mut out: Vec<Entity> = Vec::new();
                let mut idx: usize = lo;
                while idx <= hi
                    invariant
                        v == self@.visible_elements,
                        v.len() == n,
                        lo <= idx,
                        idx <= hi + 1,
                        hi < n,
                        out@ == v.subrange(lo as int, idx as int),
                    decreases hi + 1 - idx,
                {
                    out.push(self.visible_elements[idx]);
                    proof {
                        assert(v.subrange(lo as int, idx + 1) =~= v.subrange(
                            lo as int, idx as int).push(v[idx as int]));
                    }
                    idx += 1;
                }
                out
            },
            _ => {
                Vec::new()
            },
        }
    }
}

/// The inclusive slice of `v` between the first positions of `from` and
/// `to`, in either order; empty when either is absent.
pub open spec fn spec_range(v: Seq<Entity>, from: Entity, to: Entity) -> Seq<Entity> {
    if v.contains(from) && v.contains(to) {
        let i = first_index_of(v, from);
        let j = first_index_of(v, to);
        if i <= j {
            v.subrange(i, j + 1)
        } else {
            v.subrange(j, i + 1)
        }
    } else {
        Seq::empty()
    }
}

impl HierarchyElement {
    /// Whether this row's own expand flag is set, i.e. whether its children
    /// are unfolded (visible) when the row itself is.
    pub fn visible_children(&self, store: &ExpandedStore) -> (r: bool)
        ensures
            r == store@.contains(self.entity),
    {
        store.is_expanded(self.entity)
    }
}

// ------------------------------------------------------------------
// Laws of the flattened snapshot.
// ------------------------------------------------------------------

/// Row `i` finds its parent row strictly earlier, one level up.
pub open spec fn inner_linked(s: Seq<ElementModel>, i: int) -> bool {
    &&& s[i].parent is Some
    &&& exists|j: int|
        0 <= j < i && (#[trigger] s[j]).entity == s[i].parent.unwrap() && s[j].depth + 1
            == s[i].depth
}

/// The pre-order invariant at row `i`: a row with a parent finds it strictly
/// earlier with depth one less; a parentless row sits at depth zero.
pub open spec fn wf_elem_at(s: Seq<ElementModel>, i: int) -> bool {
    match s[i].parent {
        Some(_) => inner_linked(s, i),
        None => s[i].depth == 0,
    }
}

/// The pre-order invariant over the whole flattened sequence.
pub open spec fn wf_elements(s: Seq<ElementModel>) -> bool {
    forall|i: int| 0 <= i < s.len() ==> #[trigger] wf_elem_at(s, i)
}

proof fn lemma_flatten_node_wf(g: Seq<NodeModel>, e: Entity, parent: Option<Entity>, depth: nat)
    ensures
        ({
            let s = flatten_node(g, e, parent, depth);
            &&& s.len() >= 1
            &&& s[0] == elem_model(g, e, parent, depth)
            &&& forall|i: int| 1 <= i < s.len() ==> #[trigger] inner_linked(s, i)
        }),
    decreases remaining(g, node_idx(g, e)), 1int, 0int,
{
    let s = flatten_node(g, e, parent, depth);
    let idx = node_idx(g, e);
    if 0 <= idx && idx < g.len() {
        let rest = flatten_children(g, g[idx].children, e, depth + 1, idx);
        lemma_flatten_children_wf(g, g[idx].children, e, depth + 1, idx);
        assert(s == seq![elem_model(g, e, parent, depth)] + rest);
        assert(s[0] == elem_model(g, e, parent, depth));
        assert forall|i: int| 1 <= i < s.len() implies #[trigger] inner_linked(s, i) by {
            let t = i - 1;
            assert(s[i] == rest[t]);
            if inner_linked(rest, t) {
                let j = choose|j: int|
                    0 <= j < t && (#[trigger] rest[j]).entity == rest[t].parent.unwrap()
                        && rest[j].depth + 1 == rest[t].depth;
                assert(s[j + 1] == rest[j]);
            } else {
                assert(rest[t].parent == Some(e) && rest[t].depth == depth + 1);
                assert(s[0].entity == e && s[0].depth == depth);
            }
        }
    }
}

proof fn lemma_flatten_children_wf(
    g: Seq<NodeModel>,
    cs: Seq<Entity>,
    parent_entity: Entity,
    depth: nat,
    lo: int,
)
    ensures
        ({
            let s = flatten_children(g, cs, parent_entity, depth, lo);
            forall|i: int|
                0 <= i < s.len() ==> #[trigger] inner_linked(s, i) || (s[i].parent == Some(
                    parent_entity,
                ) && s[i].depth == depth)
        }),
    decreases remaining(g, lo), 0int, cs.len() as int,
{
    if cs.len() != 0 {
        let guard = 0 <= lo && lo < g.len() && lo < node_idx(g, cs[0]);
        let head = if guard {
            flatten_node(g, cs[0], Some(parent_entity), depth)
        } else {
            Seq::<ElementModel>::empty()
        };
        let rest = flatten_children(g, cs.skip(1), parent_entity, depth, lo);
        let s = flatten_children(g, cs, parent_entity, depth, lo);
        assert(s == head + rest);
        lemma_flatten_children_wf(g, cs.skip(1), parent_entity, depth, lo);
        if guard {
            lemma_flatten_node_wf(g, cs[0], Some(parent_entity), depth);
        }
        assert forall|i: int|
            0 <= i < s.len() implies #[trigger] inner_linked(s, i) || (s[i].parent == Some(
            parent_entity,
        ) && s[i].depth == depth) by {
            if i < head.len() {
                assert(s[i] == head[i]);
                if i == 0 {
                    assert(head[0] == elem_model(g, cs[0], Some(parent_entity), depth));
                } else {
                    assert(inner_linked(head, i));
                    let j = choose|j: int|
                        0 <= j < i && (#[trigger] head[j]).entity == head[i].parent.unwrap()
                            && head[j].depth + 1 == head[i].depth;
                    assert(s[j] == head[j]);
                }
            } else {
                let t = i - head.len();
                assert(s[i] == rest[t]);
                if inner_linked(rest, t) {
                    let j = choose|j: int|
                        0 <= j < t && (#[trigger] rest[j]).entity == rest[t].parent.unwrap()
                            && rest[j].depth + 1 == rest[t].depth;
                    assert(s[j + head.len()] == rest[j]);
                }
            }
        }
    }
}

proof fn lemma_flatten_roots_wf(g: Seq<NodeModel>, rs: Seq<Entity>)
    ensures
        ({
            let s = flatten_roots(g, rs);
            forall|i: int|
                0 <= i < s.len() ==> #[trigger] inner_linked(s, i) || (s[i].parent is None
                    && s[i].depth == 0)
        }),
    decreases rs.len(),
{
    if rs.len() != 0 {
        let head = flatten_node(g, rs[0], None, 0);
        let rest = flatten_roots(g, rs.skip(1));
        let s = flatten_roots(g, rs);
        assert(s == head + rest);
        lemma_flatten_node_wf(g, rs[0], None, 0);
        lemma_flatten_roots_wf(g, rs.skip(1));
        assert forall|i: int|
            0 <= i < s.len() implies #[trigger] inner_linked(s, i) || (s[i].parent is None
            && s[i].depth == 0) by {
            if i < head.len() {
                assert(s[i] == head[i]);
                if i == 0 {
                    assert(head[0] == elem_model(g, rs[0], None, 0));
                } else {
                    assert(inner_linked(head, i));
                    let j = choose|j: int|
                        0 <= j < i && (#[trigger] head[j]).entity == head[i].parent.unwrap()
                            && head[j].depth + 1 == head[i].depth;
                    assert(s[j] == head[j]);
                }
            } else {
                let t = i - head.len();
                assert(s[i] == rest[t]);
                if inner_linked(rest, t) {
                    let j = choose|j: int|
                        0 <= j < t && (#[trigger] rest[j]).entity == rest[t].parent.unwrap()
                            && rest[j].depth + 1 == rest[t].depth;
                    assert(s[j + head.len()] == rest[j]);
                }
            }
        }
    }
}

/// Pre-order invariant, as a law: in the flattened snapshot of any graph,
/// every row with a parent finds that parent strictly earlier in the
/// sequence with depth exactly one less, and every parentless row has depth
/// zero.
pub proof fn lemma_preorder_invariant(g: Seq<NodeModel>)
    ensures
        wf_elements(spec_read(g)),
{
    let s = spec_read(g);
    lemma_flatten_roots_wf(g, sort_entities(roots_of(g)));
    assert forall|i: int| 0 <= i < s.len() implies #[trigger] wf_elem_at(s, i) by {
        assert(inner_linked(s, i) || (s[i].parent is None && s[i].depth == 0));
    }
}

/// Deterministic snapshot, as a law: the flattened sequence is a function of
/// the graph alone, so two reads of an unchanged graph agree exactly.
pub proof fn lemma_snapshot_deterministic(
    g: Seq<NodeModel>,
    first: Seq<ElementModel>,
    second: Seq<ElementModel>,
)
    requires
        first == spec_read(g),
        second == spec_read(g),
    ensures
        first == second,
{
}

// ------------------------------------------------------------------
// Laws of visibility.
// ------------------------------------------------------------------

/// Row `i` reaches a root through parent rows.
pub open spec fn rooted(s: Seq<ElementModel>, i: int) -> bool
    decreases i,
{
    if 0 <= i && i < s.len() {
        match s[i].parent {
            None => true,
            Some(p) => {
                let j = elem_idx(s, p);
                if 0 <= j && j < i {
                    rooted(s, j)
                } else {
                    false
                }
            },
        }
    } else {
        false
    }
}

/// The entities on row `i`'s path to its root, the row itself excluded.
pub open spec fn ancestors(s: Seq<ElementModel>, i: int) -> Set<Entity>
    decreases i,
{
    if 0 <= i && i < s.len() {
        match s[i].parent {
            None => Set::empty(),
            Some(p) => {
                let j = elem_idx(s, p);
                if 0 <= j && j < i {
                    ancestors(s, j).insert(p)
                } else {
                    Set::empty()
                }
            },
        }
    } else {
        Set::empty()
    }
}

/// Visibility gating, as a law: a row is visible exactly when it hangs off a
/// root through parent rows and every ancestor entity on that path is
/// expanded. In particular a row's own flag never hides the row itself.
pub proof fn lemma_visibility_gating(s: Seq<ElementModel>, expanded: Seq<Entity>, i: int)
    ensures
        visible_at(s, expanded, i) <==> (rooted(s, i) && (forall|a: Entity|
            ancestors(s, i).contains(a) ==> expanded.contains(a))),
    decreases i,
{
    if 0 <= i && i < s.len() {
        match s[i].parent {
            None => {
                assert(forall|a: Entity| !ancestors(s, i).contains(a));
            },
            Some(p) => {
                let j = elem_idx(s, p);
                if 0 <= j && j < i {
                    lemma_visibility_gating(s, expanded, j);
                    let anc = ancestors(s, i);
                    assert(anc == ancestors(s, j).insert(p));
                    if visible_at(s, expanded, i) {
                        assert forall|a: Entity|
                            anc.contains(a) implies expanded.contains(a) by {
                            if a != p {
                                assert(ancestors(s, j).contains(a));
                            }
                        }
                    }
                    if rooted(s, i) && (forall|a: Entity|
                        anc.contains(a) ==> expanded.contains(a)) {
                        assert(anc.contains(p));
                        assert forall|a: Entity|
                            ancestors(s, j).contains(a) implies expanded.contains(a) by {
                            assert(anc.contains(a));
                        }
                    }
                }
            },
        }
    }
}

/// Collapsing any ancestor hides the row, whatever the flags of the row and
/// of its other ancestors say.
pub proof fn lemma_collapse_hides(
    s: Seq<ElementModel>,
    expanded: Seq<Entity>,
    i: int,
    a: Entity,
)
    requires
        ancestors(s, i).contains(a),
        !expanded.contains(a),
    ensures
        !visible_at(s, expanded, i),
{
    lemma_visibility_gating(s, expanded, i);
}

proof fn lemma_visible_to_membership(
    s: Seq<ElementModel>,
    expanded: Seq<Entity>,
    n: int,
    e: Entity,
)
    requires
        n <= s.len(),
    ensures
        visible_to(s, expanded, n).contains(e) <==> exists|i: int|
            0 <= i < n && s[i].entity == e && #[trigger] visible_at(s, expanded, i),
    decreases n,
{
    if n <= 0 {
        assert(forall|x: Entity| !visible_to(s, expanded, n).contains(x));
    } else {
        lemma_visible_to_membership(s, expanded, n - 1, e);
        let prev = visible_to(s, expanded, n - 1);
        let cur = visible_to(s, expanded, n);
        if visible_at(s, expanded, n - 1) {
            assert(cur =~= prev.push(s[n - 1].entity));
            if cur.contains(e) {
                let k = choose|k: int| 0 <= k < cur.len() && cur[k] == e;
                if k < prev.len() {
                    assert(prev[k] == e);
                    assert(prev.contains(e));
                } else {
                    assert(s[n - 1].entity == e);
                }
            }
            if exists|i: int|
                0 <= i < n && s[i].entity == e && #[trigger] visible_at(s, expanded, i) {
                let i = choose|i: int|
                    0 <= i < n && s[i].entity == e && #[trigger] visible_at(s, expanded, i);
                if i < n - 1 {
                    assert(prev.contains(e));
                    let k = choose|k: int| 0 <= k < prev.len() && prev[k] == e;
                    assert(cur[k] == e);
                } else {
                    assert(cur[cur.len() - 1] == e);
                }
            }
        } else {
            assert(cur =~= prev);
            if exists|i: int|
                0 <= i < n && s[i].entity == e && #[trigger] visible_at(s, expanded, i) {
                let i = choose|i: int|
                    0 <= i < n && s[i].entity == e && #[trigger] visible_at(s, expanded, i);
                assert(i < n - 1);
            }
        }
    }
}

/// Visible-row membership, as a law: an entity is listed among the visible
/// rows exactly when some row of the snapshot carries it and the visibility
/// rule admits that row.
pub proof fn lemma_visible_membership(s: Seq<ElementModel>, expanded: Seq<Entity>, e: Entity)
    ensures
        spec_visible(s, expanded).contains(e) <==> exists|i: int|
            0 <= i < s.len() && s[i].entity == e && #[trigger] visible_at(s, expanded, i),
{
    lemma_visible_to_membership(s, expanded, s.len() as int, e);
}

/// Decides `wf_graph` at run time: whether every child reference of the
/// snapshot points strictly forward. Drivers call this before walking a
/// snapshot they did not lay out themselves.
pub fn graph_is_well_formed(g: &GraphSnapshot) -> (r: bool)
    ensures
        r == wf_graph(g@),
{
    let n = g.nodes.len();
    let mut i: usize = 0;
    while i < n
        invariant
            n == g.nodes@.len(),
            g@.len() == n,
            i <= n,
            forall|a: int, b: int|
                0 <= a < i && 0 <= b < g@[a].children.len() ==> #[trigger] node_idx(
                    g@,
                    g@[a].children[b],
                ) > a,
        decreases n - i,
    {
        let child_count = g.nodes[i].children.len();
        let mut k: usize = 0;
        while k < child_count
            invariant
                n == g.nodes@.len(),
                g@.len() == n,
                i < n,
                child_count == g@[i as int].children.len(),
                k <= child_count,
                forall|a: int, b: int|
                    0 <= a < i && 0 <= b < g@[a].children.len() ==> #[trigger] node_idx(
                        g@,
                        g@[a].children[b],
                    ) > a,
                forall|b: int|
                    0 <= b < k ==> #[trigger] node_idx(g@, g@[i as int].children[b]) > i,
            decreases child_count - k,
        {
            proof {
                assert(g@[i as int] == g.nodes@[i as int]@);
            }
            let child = g.nodes[i].children[k];
            match find_node(g, child) {
                Some(j) => {
                    if j <= i {
                        proof {
                            assert(g@[i as int].children[k as int] == child);
                            assert(node_idx(g@, g@[i as int].children[k as int]) <= i);
                            assert(!wf_graph(g@));
                        }
                        return false;
                    }
                },
                None => {
                    proof {
                        assert(g@[i as int].children[k as int] == child);
                    }
                },
            }
            k += 1;
        }
        i += 1;
    }
    true
}

/// Ascending id order.
pub open spec fn sorted_by_id(s: Seq<Entity>) -> bool {
    forall|a: int, b: int| 0 <= a < b < s.len() ==> s[a].0 <= s[b].0
}

proof fn lemma_sorted_insert_props(e: Entity, s: Seq<Entity>)
    requires
        sorted_by_id(s),
    ensures
        ({
            let t = sorted_insert(e, s);
            &&& sorted_by_id(t)
            &&& t.len() == s.len() + 1
            &&& forall|x: Entity| #[trigger] t.contains(x) <==> (s.contains(x) || x == e)
        }),
    decreases s.len(),
{
    let t = sorted_insert(e, s);
    if s.len() == 0 {
        assert(t == seq![e]);
        assert(t[0] == e);
        assert forall|x: Entity| #[trigger] t.contains(x) implies (s.contains(x) || x == e) by {
            let k = choose|k: int| 0 <= k < t.len() && t[k] == x;
        }
        assert(t.contains(e));
    } else if e.0 <= s[0].0 {
        assert(t == seq![e] + s);
        assert(t[0] == e);
        assert(forall|k: int| 1 <= k < t.len() ==> t[k] == s[k - 1]);
        assert forall|a: int, b: int| 0 <= a < b < t.len() implies t[a].0 <= t[b].0 by {
            if a > 0 {
                assert(t[a] == s[a - 1] && t[b] == s[b - 1]);
            } else {
                assert(t[b] == s[b - 1]);
                assert(s[0].0 <= s[b - 1].0);
            }
        }
        assert forall|x: Entity| #[trigger] t.contains(x) implies (s.contains(x) || x == e) by {
            let k = choose|k: int| 0 <= k < t.len() && t[k] == x;
            if k > 0 {
                assert(s[k - 1] == x);
            }
        }
        assert forall|x: Entity| (s.contains(x) || x == e) implies #[trigger] t.contains(x) by {
            if s.contains(x) {
                let k = choose|k: int| 0 <= k < s.len() && s[k] == x;
                assert(t[k + 1] == x);
            } else {
                assert(t[0] == x);
            }
        }
    } else {
        let rest = s.skip(1);
        assert(forall|k: int| 0 <= k < rest.len() ==> rest[k] == s[k + 1]);
        assert(sorted_by_id(rest));
        lemma_sorted_insert_props(e, rest);
        let si = sorted_insert(e, rest);
        assert(t == seq![s[0]] + si);
        assert(t[0] == s[0]);
        assert(forall|k: int| 1 <= k < t.len() ==> t[k] == si[k - 1]);
        assert forall|j: int| 0 <= j < si.len() implies s[0].0 <= si[j].0 by {
            assert(si.contains(si[j]));
            if si[j] == e {
                assert(s[0].0 < e.0);
            } else {
                assert(rest.contains(si[j]));
                let k = choose|k: int| 0 <= k < rest.len() && rest[k] == si[j];
                assert(s[k + 1] == si[j]);
                assert(s[0].0 <= s[k + 1].0);
            }
        }
        assert forall|a: int, b: int| 0 <= a < b < t.len() implies t[a].0 <= t[b].0 by {
            if a > 0 {
                assert(t[a] == si[a - 1] && t[b] == si[b - 1]);
            } else {
                assert(t[b] == si[b - 1]);
            }
        }
        assert forall|x: Entity| #[trigger] t.contains(x) implies (s.contains(x) || x == e) by {
            let k = choose|k: int| 0 <= k < t.len() && t[k] == x;
            if k > 0 {
                assert(si[k - 1] == x);
                assert(si.contains(x));
                if x != e {
                    assert(rest.contains(x));
                    let m = choose|m: int| 0 <= m < rest.len() && rest[m] == x;
                    assert(s[m + 1] == x);
                }
            }
        }
        assert forall|x: Entity| (s.contains(x) || x == e) implies #[trigger] t.contains(x) by {
            if x == e || !s.contains(x) {
                assert(si.contains(x));
                let m = choose|m: int| 0 <= m < si.len() && si[m] == x;
                assert(t[m + 1] == x);
            } else {
                let k = choose|k: int| 0 <= k < s.len() && s[k] == x;
                if k == 0 {
                    assert(t[0] == x);
                } else {
                    assert(rest[k - 1] == x);
                    assert(rest.contains(x));
                    assert(si.contains(x));
                    let m = choose|m: int| 0 <= m < si.len() && si[m] == x;
                    assert(t[m + 1] == x);
                }
            }
        }
    }
}

/// Root order, as a law: the sort of the root list is in ascending id
/// order, has the same length, and lists exactly the same identifiers.
/// This is the deterministic total order that keeps rebuilt snapshots
/// stable.
pub proof fn lemma_sort_entities_sorts(s: Seq<Entity>)
    ensures
        ({
            let t = sort_entities(s);
            &&& sorted_by_id(t)
            &&& t.len() == s.len()
            &&& forall|x: Entity| #[trigger] t.contains(x) <==> s.contains(x)
        }),
    decreases s.len(),
{
    if s.len() != 0 {
        let rest = s.skip(1);
        assert(forall|k: int| 0 <= k < rest.len() ==> rest[k] == s[k + 1]);
        lemma_sort_entities_sorts(rest);
        lemma_sorted_insert_props(s[0], sort_entities(rest));
        assert forall|x: Entity|
            #[trigger] sort_entities(s).contains(x) implies s.contains(x) by {
            if x != s[0] {
                assert(rest.contains(x));
                let m = choose|m: int| 0 <= m < rest.len() && rest[m] == x;
                assert(s[m + 1] == x);
            } else {
                assert(s[0] == x);
            }
        }
        assert forall|x: Entity|
            s.contains(x) implies #[trigger] sort_entities(s).contains(x) by {
            let k = choose|k: int| 0 <= k < s.len() && s[k] == x;
            if k > 0 {
                assert(rest[k - 1] == x);
                assert(rest.contains(x));
            }
        }
    }
}

} // verus!
