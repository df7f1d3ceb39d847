use vstd::prelude::*;

verus! {

/// Stable, opaque identifier of a node in the source graph. The numeric
/// payload gives the deterministic total order used to sort traversal roots.
#[derive(Clone, Copy, PartialEq, Eq, Structural, Debug, Hash)]
pub struct Entity(pub u64);

/// No identifier occurs twice in `s`.
pub open spec fn no_dups(s: Seq<Entity>) -> bool {
    forall|i: int, j: int| 0 <= i < j < s.len() ==> s[i] != s[j]
}

/// Index of the first occurrence of `e` in `s`; `s.len()` when absent.
pub open spec fn first_index_of(s: Seq<Entity>, e: Entity) -> int
    decreases s.len(),
{
    if s.len() == 0 {
        0
    } else if s[0] == e {
        0
    } else {
        1 + first_index_of(s.skip(1), e)
    }
}

/// `first_index_of` is the least index holding `e`, or the length when `e` is absent.
pub proof fn lemma_first_index_of(s: Seq<Entity>, e: Entity)
    ensures
        0 <= first_index_of(s, e) <= s.len(),
        s.contains(e) <==> first_index_of(s, e) < s.len(),
        first_index_of(s, e) < s.len() ==> s[first_index_of(s, e)] == e,
        forall|j: int| 0 <= j < first_index_of(s, e) ==> s[j] != e,
    decreases s.len(),
{
    if s.len() > 0 && s[0] != e {
        lemma_first_index_of(s.skip(1), e);
        assert(s.contains(e) <==> s.skip(1).contains(e)) by {
            if s.contains(e) {
                let i = choose|i: int| 0 <= i < s.len() && s[i] == e;
                assert(s.skip(1)[i - 1] == e);
            }
            if s.skip(1).contains(e) {
                let i = choose|i: int| 0 <= i < s.skip(1).len() && s.skip(1)[i] == e;
                assert(s[i + 1] == e);
            }
        }
        assert(forall|j: int| 0 <= j < first_index_of(s, e) ==> s[j] != e) by {
            assert(forall|j: int| 1 <= j < first_index_of(s, e) ==> s[j] == s.skip(1)[j - 1]);
        }
    }
}

/// `s` with `e` appended, unless `e` is already present.
pub open spec fn insert_one(s: Seq<Entity>, e: Entity) -> Seq<Entity> {
    if s.contains(e) {
        s
    } else {
        s.push(e)
    }
}

/// Entities of `r` inserted into `s` in order, front first, each skipped if
/// already present.
pub open spec fn insert_all(s: Seq<Entity>, r: Seq<Entity>) -> Seq<Entity>
    decreases r.len(),
{
    if r.len() == 0 {
        s
    } else {
        insert_all(insert_one(s, r[0]), r.skip(1))
    }
}

/// `s` with its first occurrence of `e` removed; `s` itself when `e` is absent.
pub open spec fn remove_first(s: Seq<Entity>, e: Entity) -> Seq<Entity> {
    if s.contains(e) {
        s.remove(first_index_of(s, e))
    } else {
        s
    }
}

pub proof fn lemma_insert_one_no_dups(s: Seq<Entity>, e: Entity)
    requires
        no_dups(s),
    ensures
        no_dups(insert_one(s, e)),
        forall|x: Entity| insert_one(s, e).contains(x) <==> (s.contains(x) || x == e),
{
    if !s.contains(e) {
        let t = s.push(e);
        assert(forall|i: int| 0 <= i < s.len() ==> t[i] == s[i]);
        assert forall|x: Entity| #[trigger] s.contains(x) implies t.contains(x) by {
            let i = choose|i: int| 0 <= i < s.len() && s[i] == x;
            assert(t[i] == x);
        }
        assert(t[s.len() as int] == e);
        assert(t.contains(e));
        assert forall|x: Entity| #[trigger] t.contains(x) && x != e implies s.contains(x) by {
            let i = choose|i: int| 0 <= i < t.len() && t[i] == x;
            assert(s[i] == x);
        }
    }
}

pub proof fn lemma_insert_all_no_dups(s: Seq<Entity>, r: Seq<Entity>)
    requires
        no_dups(s),
    ensures
        no_dups(insert_all(s, r)),
        forall|x: Entity| insert_all(s, r).contains(x) <==> (s.contains(x) || r.contains(x)),
    decreases r.len(),
{
    if r.len() == 0 {
        assert(forall|x: Entity| !r.contains(x));
    } else {
        lemma_insert_one_no_dups(s, r[0]);
        lemma_insert_all_no_dups(insert_one(s, r[0]), r.skip(1));
        assert(r.contains(r[0]));
        assert forall|x: Entity| #[trigger] r.contains(x) implies (x == r[0] || r.skip(
            1,
        ).contains(x)) by {
            let i = choose|i: int| 0 <= i < r.len() && r[i] == x;
            if i > 0 {
                assert(r.skip(1)[i - 1] == x);
            }
        }
        assert forall|x: Entity| #[trigger] r.skip(1).contains(x) implies r.contains(x) by {
            let i = choose|i: int| 0 <= i < r.skip(1).len() && r.skip(1)[i] == x;
            assert(r[i + 1] == x);
        }
    }
}

/// Appending one entity to the batch inserts it last.
pub proof fn lemma_insert_all_push(s: Seq<Entity>, r: Seq<Entity>, e: Entity)
    ensures
        insert_all(s, r.push(e)) == insert_one(insert_all(s, r), e),
    decreases r.len(),
{
    let rp = r.push(e);
    if r.len() == 0 {
        assert(rp[0] == e);
        assert(rp.skip(1) =~= Seq::<Entity>::empty());
        assert(insert_all(s, rp) == insert_all(insert_one(s, rp[0]), rp.skip(1)));
        assert(insert_all(insert_one(s, e), Seq::<Entity>::empty()) == insert_one(s, e));
        assert(insert_all(s, r) == s);
    } else {
        assert(rp[0] == r[0]);
        assert(rp.skip(1) =~= r.skip(1).push(e));
        lemma_insert_all_push(insert_one(s, r[0]), r.skip(1), e);
        assert(insert_all(s, rp) == insert_all(insert_one(s, r[0]), rp.skip(1)));
        assert(insert_all(s, r) == insert_all(insert_one(s, r[0]), r.skip(1)));
    }
}

/// Dropping one index keeps the remaining identifiers distinct.
pub proof fn lemma_remove_no_dups(s: Seq<Entity>, i: int)
    requires
        no_dups(s),
        0 <= i < s.len(),
    ensures
        no_dups(s.remove(i)),
{
    let t = s.remove(i);
    assert forall|a: int, b: int| 0 <= a < b < t.len() implies t[a] != t[b] by {
        if a < i {
            assert(t[a] == s[a]);
        } else {
            assert(t[a] == s[a + 1]);
        }
        if b < i {
            assert(t[b] == s[b]);
        } else {
            assert(t[b] == s[b + 1]);
        }
    }
}

} // verus!
