use vstd::prelude::*;

use crate::entity::{
    Entity, first_index_of, insert_all, insert_one, lemma_first_index_of,
    lemma_insert_all_no_dups, lemma_insert_all_push, lemma_insert_one_no_dups,
    lemma_remove_no_dups, no_dups, remove_first,
};

verus! {

/// Kind of selection modifier.
#[derive(Debug, Clone, Copy, PartialEq, Eq, Structural)]
pub enum SelectionMode {
    /// No modifiers: a plain click replaces the selection.
    Replace,
    /// Ctrl (or Cmd): a click toggles membership.
    Add,
    /// Shift: a click extends a contiguous range from the recorded anchor.
    Extend,
}

impl SelectionMode {
    /// Ctrl wins over shift; neither held means a plain replace.
    pub fn from_ctrl_shift(ctrl: bool, shift: bool) -> (mode: SelectionMode)
        ensures
            ctrl ==> mode == SelectionMode::Add,
            !ctrl && shift ==> mode == SelectionMode::Extend,
            !ctrl && !shift ==> mode == SelectionMode::Replace,
    {
        match (ctrl, shift) {
            (true, _) => SelectionMode::Add,
            (false, true) => SelectionMode::Extend,
            (false, false) => SelectionMode::Replace,
        }
    }
}

/// Mathematical state of a selection: the ordered identifiers and the
/// recorded anchor action.
pub struct SelectionModel {
    pub entities: Seq<Entity>,
    pub last_action: Option<(SelectionMode, Entity)>,
}

/// The selected identifiers as a set.
pub open spec fn entity_set(s: Seq<Entity>) -> Set<Entity> {
    Set::new(|x: Entity| s.contains(x))
}

/// `s` with the membership of `e` flipped: its first occurrence removed if
/// present, else `e` appended.
pub open spec fn toggle_one(s: Seq<Entity>, e: Entity) -> Seq<Entity> {
    if s.contains(e) {
        remove_first(s, e)
    } else {
        s.push(e)
    }
}

/// One step of the selection state machine.
///
/// An empty selection bootstraps: any mode inserts the clicked entity and
/// records it as the anchor. On a non-empty selection, `Replace` keeps only
/// the clicked entity, `Add` toggles it, and both record the click as the new
/// anchor. `Extend` with no recorded anchor degrades to a plain insert;
/// `Extend` with an anchor first clears the selection (unless the anchor
/// action was itself an `Extend` bootstrap) and then inserts every entity of
/// `range`, leaving the anchor untouched. `range` only matters in that last
/// case: it stands for what the caller's range resolver returned for the
/// clicked entity and the anchor.
pub open spec fn spec_select(
    m: SelectionModel,
    mode: SelectionMode,
    entity: Entity,
    range: Seq<Entity>,
) -> SelectionModel {
    if m.entities.len() == 0 {
        SelectionModel { entities: seq![entity], last_action: Some((mode, entity)) }
    } else {
        match mode {
            SelectionMode::Replace => SelectionModel {
                entities: seq![entity],
                last_action: Some((mode, entity)),
            },
            SelectionMode::Add => SelectionModel {
                entities: toggle_one(m.entities, entity),
                last_action: Some((mode, entity)),
            },
            SelectionMode::Extend => match m.last_action {
                None => SelectionModel {
                    entities: insert_one(m.entities, entity),
                    last_action: Some((mode, entity)),
                },
                Some((last_mode, _)) => SelectionModel {
                    entities: insert_all(
                        if last_mode == SelectionMode::Extend {
                            m.entities
                        } else {
                            Seq::empty()
                        },
                        range,
                    ),
                    last_action: m.last_action,
                },
            },
        }
    }
}

/// Entities kept by a retain pass: those of `s` before index `n` whose slot
/// of `keep` is true, in order.
pub open spec fn mask_filter_to(s: Seq<Entity>, keep: Seq<bool>, n: int) -> Seq<Entity>
    decreases n,
{
    if n <= 0 || n > s.len() || n > keep.len() {
        Seq::empty()
    } else {
        mask_filter_to(s, keep, n - 1) + (if keep[n - 1] {
            seq![s[n - 1]]
        } else {
            Seq::empty()
        })
    }
}

/// Ordered set of currently selected entities, plus the anchor of the most
/// recent non-extend action.
#[derive(Debug)]
pub struct SelectedEntities {
    entities: Vec<Entity>,
    last_action: Option<(SelectionMode, Entity)>,
}

impl View for SelectedEntities {
    type V = SelectionModel;

    closed spec fn view(&self) -> SelectionModel {
        SelectionModel { entities: self.entities@, last_action: self.last_action }
    }
}

impl Default for SelectedEntities {
    /// A fresh, empty selection with no recorded action.
    fn default() -> (r: SelectedEntities)
        ensures
            r@.entities == Seq::<Entity>::empty(),
            r@.last_action is None,
            r.wf(),
    {
        SelectedEntities { entities: Vec::new(), last_action: None }
    }
}

impl SelectedEntities {
    /// The selection never holds an identifier twice.
    pub open spec fn wf(&self) -> bool {
        no_dups(self@.entities)
    }

    /// Membership test against the current selection.
    pub fn contains(&self, entity: Entity) -> (r: bool)
        ensures
            r == self@.entities.contains(entity),
    {
        let n = self.entities.len();
        let mut i: usize = 0;
        while i < n
            invariant
                n == self@.entities.len(),
                i <= n,
                forall|j: int| 0 <= j < i ==> self@.entities[j] != entity,
            decreases n - i,
        {
            if self.entities[i] == entity {
                assert(self@.entities.contains(entity));
                return true;
            }
            i += 1;
        }
        false
    }

    /// Appends `entity` unless it is already selected.
    fn insert(&mut self, entity: Entity)
        requires
            old(self).wf(),
        ensures
            final(self).wf(),
            final(self)@.entities == insert_one(old(self)@.entities, entity),
            final(self)@.last_action == old(self)@.last_action,
    {
        proof {
            lemma_insert_one_no_dups(self@.entities, entity);
        }
        if !self.contains(entity) {
            self.entities.push(entity);
        }
    }

    /// Replaces the whole selection with `entity` alone.
    fn insert_replace(&mut self, entity: Entity)
        ensures
            final(self).wf(),
            final(self)@.entities == seq![entity],
            final(self)@.last_action == old(self)@.last_action,
    {
        self.entities.clear();
        self.entities.push(entity);
        assert(self@.entities =~= seq![entity]);
    }

    /// Flips the membership of `entity`.
    fn toggle(&mut self, entity: Entity)
        requires
            old(self).wf(),
        ensures
            final(self).wf(),
            final(self)@.entities == toggle_one(old(self)@.entities, entity),
            final(self)@.last_action == old(self)@.last_action,
    {
        proof {
            lemma_insert_one_no_dups(self@.entities, entity);
        }
        if self.remove(entity).is_none() {
            self.entities.push(entity);
        }
    }

    /// Removes `entity` if selected, returning it; the anchor is untouched.
    pub fn remove(&mut self, entity: Entity) -> (r: Option<Entity>)
        requires
            old(self).wf(),
        ensures
            final(self).wf(),
            final(self)@.entities == remove_first(old(self)@.entities, entity),
            final(self)@.last_action == old(self)@.last_action,
            old(self)@.entities.contains(entity) ==> r == Some(entity),
            !old(self)@.entities.contains(entity) ==> r is None,
    {
        proof {
            lemma_first_index_of(self@.entities, entity);
        }
        let n = self.entities.len();
        let mut i: usize = 0;
        while i < n
            invariant
                self == old(self),
                self.wf(),
                n == self@.entities.len(),
                i <= n,
                forall|j: int| 0 <= j < i ==> self@.entities[j] != entity,
            decreases n - i,
        {
            if self.entities[i] == entity {
                proof {
                    lemma_first_index_of(self@.entities, entity);
                    assert(self@.entities[i as int] == entity);
                    assert(self@.entities.contains(entity));
                    let fi = first_index_of(self@.entities, entity);
                    assert(fi == i) by {
                        if fi < i {
                            assert(self@.entities[fi] == entity);
                        }
                        if fi > i {
                            assert(self@.entities[i as int] != entity);
                        }
                    }
                    lemma_remove_no_dups(self@.entities, i as int);
                }
                let removed = self.entities.remove(i);
                return Some(removed);
            }
            i += 1;
        }
        assert(!self@.entities.contains(entity));
        None
    }

    /// Applies one click of the selection state machine, as `spec_select`
    /// describes. `extend_with`, given the clicked entity and the anchor,
    /// resolves the inclusive range between them in the current visible
    /// order; it is consulted only for an `Extend` click on a non-empty
    /// selection with a recorded anchor.
    pub fn select<F: Fn(Entity, Entity) -> Vec<Entity>>(
        &mut self,
        mode: SelectionMode,
        entity: Entity,
        extend_with: F,
    )
        requires
            old(self).wf(),
            forall|a: Entity, b: Entity| call_requires(extend_with, (a, b)),
        ensures
            final(self).wf(),
            ({
                let m0 = old(self)@;
                if m0.entities.len() > 0 && mode == SelectionMode::Extend
                    && m0.last_action is Some {
                    exists|r: Vec<Entity>|
                        call_ensures(extend_with, (entity, m0.last_action.unwrap().1), r)
                            && final(self)@ == spec_select(m0, mode, entity, r@)
                } else {
                    final(self)@ == spec_select(m0, mode, entity, Seq::empty())
                }
            }),
    {
        if self.entities.len() == 0 {
            self.insert(entity);
            self.last_action = Some((mode, entity));
            assert(self@.entities =~= seq![entity]);
            return;
        }
        match mode {
            SelectionMode::Replace => {
                self.insert_replace(entity);
                self.last_action = Some((mode, entity));
            },
            SelectionMode::Add => {
                self.toggle(entity);
                self.last_action = Some((mode, entity));
            },
            SelectionMode::Extend => {
                match self.last_action {
                    None => {
                        self.insert(entity);
                        self.last_action = Some((mode, entity));
                    },
                    Some((last_mode, last_entity)) => {
                        match last_mode {
                            SelectionMode::Add | SelectionMode::Replace => self.clear(),
                            SelectionMode::Extend => {},
                        }
                        let ghost start = self@.entities;
                        let range = extend_with(entity, last_entity);
                        let mut k: usize = 0;
                        while k < range.len()
                            invariant
                                self.wf(),
                                k <= range@.len(),
                                self@.entities == insert_all(start, range@.take(k as int)),
                                self@.last_action == Some((last_mode, last_entity)),
                            decreases range@.len() - k,
                        {
                            proof {
                                assert(range@.take(k as int + 1)
                                    =~= range@.take(k as int).push(range@[k as int]));
                                lemma_insert_all_push(start, range@.take(k as int),
                                    range@[k as int]);
                            }
                            self.insert(range[k]);
                            k += 1;
                        }
                        proof {
                            assert(range@.take(range@.len() as int) =~= range@);
                            assert(self@.entities == insert_all(start, range@));
                            assert(call_ensures(extend_with, (entity, last_entity), range));
                            assert(self@ == spec_select(old(self)@, mode, entity, range@));
                        }
                    },
                }
            },
        }
    }

    /// A plain click: the selection becomes exactly `entity`, recorded as a
    /// `Replace` anchor.
    pub fn select_replace(&mut self, entity: Entity)
        ensures
            final(self).wf(),
            final(self)@.entities == seq![entity],
            final(self)@.last_action == Some((SelectionMode::Replace, entity)),
    {
        self.insert_replace(entity);
        self.last_action = Some((SelectionMode::Replace, entity));
    }

    /// A click with or without the toggle modifier; no range extension.
    pub fn select_maybe_add(&mut self, entity: Entity, add: bool)
        requires
            old(self).wf(),
        ensures
            final(self).wf(),
            final(self)@ == spec_select(
                old(self)@,
                if add {
                    SelectionMode::Add
                } else {
                    SelectionMode::Replace
                },
                entity,
                Seq::empty(),
            ),
    {
        let mode = match add {
            true => SelectionMode::Add,
            false => SelectionMode::Replace,
        };
        let empty_range = (|_from: Entity, _to: Entity| -> Vec<Entity> { Vec::new() });
        self.select(mode, entity, empty_range);
    }

    /// The anchor of the most recent replace, toggle or degraded-extend click.
    pub fn last_action(&self) -> (r: Option<(SelectionMode, Entity)>)
        ensures
            r == self@.last_action,
    {
        self.last_action
    }

    /// Empties the selection; the anchor is untouched.
    pub fn clear(&mut self)
        ensures
            final(self).wf(),
            final(self)@.entities == Seq::<Entity>::empty(),
            final(self)@.last_action == old(self)@.last_action,
    {
        self.entities.clear();
    }

    /// Drops every selected entity that `f` rejects, keeping the order of the
    /// rest; the anchor is untouched. The kept entities are exactly those of
    /// some boolean mask that `f` answered for, slot by slot.
    pub fn retain<F: Fn(Entity) -> bool>(&mut self, f: F)
        requires
            old(self).wf(),
            forall|e: Entity| call_requires(f, (e,)),
        ensures
            final(self).wf(),
            final(self)@.last_action == old(self)@.last_action,
            exists|keep: Seq<bool>|
                keep.len() == old(self)@.entities.len() && (forall|i: int|
                    0 <= i < keep.len() ==> call_ensures(
                        f,
                        (old(self)@.entities[i],),
                        keep[i],
                    )) && final(self)@.entities == mask_filter_to(
                    old(self)@.entities,
                    keep,
                    keep.len() as int,
                ),
    {
        let ghost before = self@.entities;
        let mut kept: Vec<Entity> = Vec::new();
        let ghost keep = Seq::<bool>::empty();
        let n = self.entities.len();
        let mut i: usize = 0;
        while i < n
            invariant
                forall|e: Entity| call_requires(f, (e,)),
                n == self.entities@.len(),
                self.entities@ == before,
                i <= n,
                keep.len() == i,
                forall|j: int| 0 <= j < i ==> call_ensures(f, (before[j],), keep[j]),
                kept@ == mask_filter_to(before, keep, i as int),
                no_dups(before),
            decreases n - i,
        {
            let e = self.entities[i];
            let keep_it = f(e);
            if keep_it {
                kept.push(e);
            }
            proof {
                let keep0 = keep;
                keep = keep.push(keep_it);
                lemma_mask_filter_to_stable(before, keep0, keep, i as int);
                if keep_it {
                    assert(kept@ =~= mask_filter_to(before, keep, i as int)
                        + seq![before[i as int]]);
                } else {
                    assert(kept@ =~= mask_filter_to(before, keep, i as int)
                        + Seq::<Entity>::empty());
                }
            }
            i += 1;
        }
        proof {
            lemma_mask_filter_to_no_dups(before, keep, n as int);
        }
        self.entities = kept;
        proof {
            assert(keep.len() == old(self)@.entities.len() && (forall|j: int|
                0 <= j < keep.len() ==> call_ensures(f, (old(self)@.entities[j],), keep[j]))
                && self@.entities == mask_filter_to(old(self)@.entities, keep,
                keep.len() as int));
        }
    }

    /// Number of selected entities.
    pub fn len(&self) -> (r: usize)
        ensures
            r == self@.entities.len(),
    {
        self.entities.len()
    }

    /// Whether nothing is selected.
    pub fn is_empty(&self) -> (r: bool)
        ensures
            r == (self@.entities.len() == 0),
    {
        self.entities.len() == 0
    }

    /// The selected entities in insertion order, as a fresh vector.
    pub fn iter(&self) -> (r: Vec<Entity>)
        ensures
            r@ == self@.entities,
    {
        let n = self.entities.len();
        let mut out: Vec<Entity> = Vec::new();
        let mut i: usize = 0;
        while i < n
            invariant
                n == self@.entities.len(),
                i <= n,
                out@ == self@.entities.take(i as int),
            decreases n - i,
        {
            out.push(self.entities[i]);
            proof {
                assert(self@.entities.take(i + 1)
                    =~= self@.entities.take(i as int).push(self@.entities[i as int]));
            }
            i += 1;
        }
        proof {
            assert(self@.entities.take(n as int) =~= self@.entities);
        }
        out
    }

    /// The selected entities in insertion order, borrowed.
    pub fn as_slice(&self) -> (r: &[Entity])
        ensures
            r@ == self@.entities,
    {
        self.entities.as_slice()
    }
}

/// A longer mask agrees with its prefix on what the prefix kept.
proof fn lemma_mask_filter_to_stable(s: Seq<Entity>, short: Seq<bool>, long: Seq<bool>, n: int)
    requires
        n <= short.len(),
        short.len() <= long.len(),
        forall|j: int| 0 <= j < n ==> short[j] == long[j],
    ensures
        mask_filter_to(s, short, n) == mask_filter_to(s, long, n),
    decreases n,
{
    if n > 0 {
        lemma_mask_filter_to_stable(s, short, long, n - 1);
    }
}

/// A retain pass keeps identifiers distinct.
proof fn lemma_mask_filter_to_no_dups(s: Seq<Entity>, keep: Seq<bool>, n: int)
    requires
        no_dups(s),
    ensures
        no_dups(mask_filter_to(s, keep, n)),
        forall|x: Entity| #[trigger] mask_filter_to(s, keep, n).contains(x) ==> exists|j: int|
            0 <= j < n && j < s.len() && s[j] == x,
    decreases n,
{
    if !(n <= 0 || n > s.len() || n > keep.len()) {
        lemma_mask_filter_to_no_dups(s, keep, n - 1);
        let prev = mask_filter_to(s, keep, n - 1);
        let cur = mask_filter_to(s, keep, n);
        if keep[n - 1] {
            assert(cur =~= prev.push(s[n - 1]));
            assert(!prev.contains(s[n - 1])) by {
                if prev.contains(s[n - 1]) {
                    let j = choose|j: int| 0 <= j < n - 1 && j < s.len() && #[trigger] s[j] == s[n - 1];
                    assert(s[j] == s[n - 1]);
                }
            }
            assert forall|x: Entity| #[trigger] cur.contains(x) implies exists|j: int|
                0 <= j < n && j < s.len() && s[j] == x by {
                if x != s[n - 1] {
                    let k = choose|k: int| 0 <= k < cur.len() && cur[k] == x;
                    assert(prev[k] == x);
                    assert(prev.contains(x));
                } else {
                    assert(s[n - 1] == x);
                }
            }
        } else {
            assert(cur =~= prev);
        }
    } else {
        assert(forall|x: Entity| !mask_filter_to(s, keep, n).contains(x));
    }
}

/// Every selection step leaves the selected identifiers free of duplicates.
pub proof fn lemma_select_preserves_no_dups(
    m: SelectionModel,
    mode: SelectionMode,
    entity: Entity,
    range: Seq<Entity>,
)
    requires
        no_dups(m.entities),
    ensures
        no_dups(spec_select(m, mode, entity, range).entities),
{
    let after = spec_select(m, mode, entity, range).entities;
    if m.entities.len() == 0 {
        assert(no_dups(seq![entity]));
    } else {
        match mode {
            SelectionMode::Replace => {
                assert(no_dups(seq![entity]));
            },
            SelectionMode::Add => {
                lemma_toggle_one_props(m.entities, entity);
            },
            SelectionMode::Extend => match m.last_action {
                None => {
                    lemma_insert_one_no_dups(m.entities, entity);
                },
                Some((last_mode, _)) => {
                    if last_mode == SelectionMode::Extend {
                        lemma_insert_all_no_dups(m.entities, range);
                    } else {
                        lemma_insert_all_no_dups(Seq::empty(), range);
                    }
                },
            },
        }
    }
}

/// What toggling does to the selected set: removes the entity when present,
/// adds it when absent, and keeps everything else.
pub proof fn lemma_toggle_one_props(s: Seq<Entity>, e: Entity)
    requires
        no_dups(s),
    ensures
        no_dups(toggle_one(s, e)),
        s.contains(e) ==> entity_set(toggle_one(s, e)) == entity_set(s).remove(e),
        !s.contains(e) ==> entity_set(toggle_one(s, e)) == entity_set(s).insert(e),
        s.contains(e) ==> toggle_one(s, e).len() == s.len() - 1,
        !s.contains(e) ==> toggle_one(s, e).len() == s.len() + 1,
        s.contains(e) ==> !toggle_one(s, e).contains(e),
        !s.contains(e) ==> toggle_one(s, e).contains(e),
{
    lemma_first_index_of(s, e);
    if s.contains(e) {
        let i = first_index_of(s, e);
        let t = s.remove(i);
        lemma_remove_no_dups(s, i);
        assert(entity_set(t) =~= entity_set(s).remove(e)) by {
            assert forall|x: Entity| entity_set(t).contains(x) implies entity_set(s).remove(
                e,
            ).contains(x) by {
                let k = choose|k: int| 0 <= k < t.len() && t[k] == x;
                if k < i {
                    assert(s[k] == x);
                } else {
                    assert(s[k + 1] == x);
                }
                assert(s.contains(x));
                if x == e {
                    if k < i {
                        assert(s[k] == e);
                    } else {
                        assert(s[k + 1] == e && s[i] == e);
                    }
                }
            }
            assert forall|x: Entity|
                entity_set(s).remove(e).contains(x) implies entity_set(t).contains(x) by {
                let k = choose|k: int| 0 <= k < s.len() && s[k] == x;
                if k < i {
                    assert(t[k] == x);
                    assert(t.contains(x));
                } else {
                    assert(k != i);
                    assert(t[k - 1] == x);
                    assert(t.contains(x));
                }
            }
        }
        assert(entity_set(t).contains(e) == t.contains(e));
        assert(!entity_set(s).remove(e).contains(e));
    } else {
        let t = s.push(e);
        lemma_insert_one_no_dups(s, e);
        assert(t[s.len() as int] == e);
        assert(t.contains(e));
        assert(entity_set(t) =~= entity_set(s).insert(e));
    }
}

/// A replace click yields exactly the clicked entity, whatever was selected.
pub proof fn lemma_replace_selects_exactly(m: SelectionModel, e: Entity, range: Seq<Entity>)
    ensures
        spec_select(m, SelectionMode::Replace, e, range).entities == seq![e],
        spec_select(m, SelectionMode::Replace, e, range).last_action == Some(
            (SelectionMode::Replace, e),
        ),
{
}

/// Two toggle clicks on the same entity restore the selected set (and its
/// size); only the recorded anchor may differ.
pub proof fn lemma_add_twice_restores(
    m: SelectionModel,
    e: Entity,
    r1: Seq<Entity>,
    r2: Seq<Entity>,
)
    requires
        no_dups(m.entities),
    ensures
        ({
            let twice = spec_select(spec_select(m, SelectionMode::Add, e, r1),
                SelectionMode::Add, e, r2);
            entity_set(twice.entities) == entity_set(m.entities) && twice.entities.len()
                == m.entities.len() && no_dups(twice.entities)
        }),
{
    let m1 = spec_select(m, SelectionMode::Add, e, r1);
    let m2 = spec_select(m1, SelectionMode::Add, e, r2);
    lemma_toggle_one_props(m.entities, e);
    if m.entities.len() == 0 {
        assert(m1.entities == seq![e]);
        assert(m1.entities[0] == e);
        assert(m1.entities.contains(e));
        lemma_toggle_one_props(m1.entities, e);
        assert(m2.entities =~= Seq::<Entity>::empty());
        assert(entity_set(m2.entities) =~= entity_set(m.entities)) by {
            assert(forall|x: Entity| !m.entities.contains(x));
            assert(forall|x: Entity| !m2.entities.contains(x));
        }
    } else {
        assert(m1.entities == toggle_one(m.entities, e));
        if m1.entities.len() == 0 {
            assert(m.entities.contains(e));
            assert(m.entities.len() == 1);
            assert(m.entities[0] == e) by {
                let k = choose|k: int| 0 <= k < m.entities.len() && m.entities[k] == e;
            }
            assert(m2.entities == seq![e]);
            assert(entity_set(m2.entities) =~= entity_set(m.entities)) by {
                assert(m.entities =~= seq![e]);
            }
        } else {
            lemma_toggle_one_props(m1.entities, e);
            assert(m2.entities == toggle_one(m1.entities, e));
            if m.entities.contains(e) {
                assert(entity_set(m1.entities) == entity_set(m.entities).remove(e));
                assert(!m1.entities.contains(e)) by {
                    if m1.entities.contains(e) {
                        assert(entity_set(m1.entities).contains(e));
                    }
                }
                assert(entity_set(m2.entities) =~= entity_set(m.entities));
            } else {
                assert(entity_set(m1.entities) == entity_set(m.entities).insert(e));
                assert(m1.entities.contains(e)) by {
                    assert(entity_set(m1.entities).contains(e));
                }
                assert(entity_set(m2.entities) =~= entity_set(m.entities)) by {
                    assert(entity_set(m2.entities) == entity_set(m1.entities).remove(e));
                }
            }
        }
    }
}

/// An extend click on a non-empty selection with a recorded anchor never
/// moves the anchor; it replaces the selection with the deduplicated range
/// (or grows it, when the anchor action was itself an extend bootstrap).
pub proof fn lemma_extend_keeps_anchor(m: SelectionModel, e: Entity, range: Seq<Entity>)
    requires
        m.entities.len() > 0,
        m.last_action is Some,
    ensures
        ({
            let m1 = spec_select(m, SelectionMode::Extend, e, range);
            &&& m1.last_action == m.last_action
            &&& (m.last_action.unwrap().0 != SelectionMode::Extend ==> m1.entities
                == insert_all(Seq::empty(), range))
            &&& (m.last_action.unwrap().0 == SelectionMode::Extend ==> m1.entities
                == insert_all(m.entities, range))
        }),
{
}

/// Chained extends are both measured from the original anchor: after a
/// replace or toggle anchor, each extend click rebuilds the selection from
/// its own resolved range, and the anchor never moves.
pub proof fn lemma_extend_chain_anchors_on_original(
    m: SelectionModel,
    anchor_mode: SelectionMode,
    anchor: Entity,
    c: Entity,
    d: Entity,
    r1: Seq<Entity>,
    r2: Seq<Entity>,
)
    requires
        m.entities.len() > 0,
        m.last_action == Some((anchor_mode, anchor)),
        anchor_mode != SelectionMode::Extend,
        r1.len() > 0,
    ensures
        ({
            let m1 = spec_select(m, SelectionMode::Extend, c, r1);
            let m2 = spec_select(m1, SelectionMode::Extend, d, r2);
            &&& m1.last_action == Some((anchor_mode, anchor))
            &&& m2.last_action == Some((anchor_mode, anchor))
            &&& m1.entities == insert_all(Seq::empty(), r1)
            &&& m2.entities == insert_all(Seq::empty(), r2)
        }),
{
    let m1 = spec_select(m, SelectionMode::Extend, c, r1);
    lemma_insert_all_no_dups(Seq::empty(), r1);
    assert(r1.contains(r1[0]));
    assert(m1.entities.contains(r1[0]));
    assert(m1.entities.len() > 0);
}

/// Any click on an empty selection selects exactly the clicked entity and
/// records it, with the click's mode, as the anchor.
pub proof fn lemma_empty_selection_bootstrap(
    m: SelectionModel,
    mode: SelectionMode,
    x: Entity,
    range: Seq<Entity>,
)
    requires
        m.entities.len() == 0,
    ensures
        spec_select(m, mode, x, range).entities == seq![x],
        spec_select(m, mode, x, range).last_action == Some((mode, x)),
{
}

} // verus!
