use vstd::prelude::*;
use std::collections::{HashMap, HashSet};
use crate::place::{lemma_lookup_at, lemma_lookup_none, lookup, Action, NormalizedElement, Place};

verus! {

broadcast use vstd::std_specs::hash::group_hash_axioms;

/// Whether some element of the snapshot carries `id`.
pub open spec fn in_snapshot(fresh: Seq<NormalizedElement>, id: i64) -> bool {
    exists|j: int| 0 <= j < fresh.len() && #[trigger] fresh[j].id == id
}

/// The soft-deletes owed to the places of `cached`, in their order: one for
/// each live place whose id the snapshot lacks.
pub open spec fn deletions(cached: Seq<Place>, fresh: Seq<NormalizedElement>, now: i64) -> Seq<
    Action,
>
    decreases cached.len(),
{
    if cached.len() == 0 {
        seq![]
    } else {
        let rest = deletions(cached.drop_last(), fresh, now);
        let p = cached.last();
        if !in_snapshot(fresh, p.id) && p.deleted_at is None {
            rest.push(Action::SoftDelete { id: p.id, at: now })
        } else {
            rest
        }
    }
}

/// The write owed to one fresh element: an insert when no cached place has
/// its id, a tag update when the cached tags differ, else none.
pub open spec fn upsert(e: NormalizedElement, cached: Seq<Place>, now: i64) -> Option<Action> {
    match lookup(cached, e.id) {
        None => Some(Action::Insert { element: e, at: now }),
        Some(p) => if p.tags@ == e.tags@ {
            None
        } else {
            Some(Action::UpdateTags { id: e.id, tags: e.tags, at: now })
        },
    }
}

/// The writes owed to the elements of `fresh`, in their order.
pub open spec fn upserts(fresh: Seq<NormalizedElement>, cached: Seq<Place>, now: i64) -> Seq<
    Action,
>
    decreases fresh.len(),
{
    if fresh.len() == 0 {
        seq![]
    } else {
        let rest = upserts(fresh.drop_last(), cached, now);
        match upsert(fresh.last(), cached, now) {
            Some(a) => rest.push(a),
            None => rest,
        }
    }
}

/// The actions of one reconciliation pass: the soft-deletes first, then the
/// inserts and tag updates.
pub open spec fn reconciliation(fresh: Seq<NormalizedElement>, cached: Seq<Place>, now: i64) -> Seq<
    Action,
> {
    deletions(cached, fresh, now) + upserts(fresh, cached, now)
}

/// The set of ids that the snapshot carries.
fn snapshot_ids(fresh: &Vec<NormalizedElement>) -> (r: HashSet<i64>)
    ensures
        forall|id: i64| r@.contains(id) <==> in_snapshot(fresh@, id),
{
    let mut ids: HashSet<i64> = HashSet::new();
    let mut i: usize = 0;
    while i < fresh.len()
        invariant
            i <= fresh@.len(),
            forall|id: i64|
                ids@.contains(id) <==> exists|j: int| 0 <= j < i && #[trigger] fresh@[j].id == id,
        decreases fresh@.len() - i,
    {
        ids.insert(fresh[i].id);
        proof {
            assert forall|id: i64|
                (exists|j: int| 0 <= j < i + 1 && #[trigger] fresh@[j].id == id) implies ids@.contains(
                id,
            ) by {
                let j = choose|j: int| 0 <= j < i + 1 && #[trigger] fresh@[j].id == id;
                if j < i {
                    assert(exists|j: int| 0 <= j < i && #[trigger] fresh@[j].id == id);
                }
            }
        }
        i = i + 1;
    }
    ids
}

/// Maps each id of the cached places to the position of the first place
/// that carries it.
fn cached_index(cached: &Vec<Place>) -> (r: HashMap<i64, usize>)
    ensures
        forall|id: i64|
            #[trigger] r@.contains_key(id) ==> r@[id] < cached@.len() && lookup(cached@, id) == Some(
                cached@[r@[id] as int],
            ),
        forall|id: i64| !#[trigger] r@.contains_key(id) ==> lookup(cached@, id) is None,
{
    let mut index: HashMap<i64, usize> = HashMap::new();
    let mut i: usize = 0;
    while i < cached.len()
        invariant
            i <= cached@.len(),
            forall|id: i64|
                #[trigger] index@.contains_key(id) ==> index@[id] < i && cached@[index@[id] as int].id
                    == id && forall|k: int| 0 <= k < index@[id] ==> #[trigger] cached@[k].id != id,
            forall|id: i64|
                !#[trigger] index@.contains_key(id) ==> forall|k: int|
                    0 <= k < i ==> #[trigger] cached@[k].id != id,
        decreases cached@.len() - i,
    {
        let id = cached[i].id;
        if !index.contains_key(&id) {
            index.insert(id, i);
        }
        i = i + 1;
    }
    proof {
        assert forall|id: i64| #[trigger] index@.contains_key(id) implies lookup(cached@, id) == Some(
            cached@[index@[id] as int],
        ) by {
            lemma_lookup_at(cached@, id, index@[id] as int);
        }
        assert forall|id: i64| !#[trigger] index@.contains_key(id) implies lookup(cached@, id) is None by {
            lemma_lookup_none(cached@, id);
        }
    }
    index
}

/// Computes the actions that bring the cached places in line with a fresh
/// snapshot: a soft-delete for each live cached place whose id the snapshot
/// lacks, then, for each fresh element, an insert when no cached place has
/// its id, or a tag update when the cached tags differ from the fresh ones.
pub fn reconcile(fresh: &Vec<NormalizedElement>, cached: &Vec<Place>, now: i64) -> (r: Vec<Action>)
    ensures
        r@ == reconciliation(fresh@, cached@, now),
{
    let ids = snapshot_ids(fresh);
    let index = cached_index(cached);
    let mut actions: Vec<Action> = Vec::new();
    let mut i: usize = 0;
    while i < cached.len()
        invariant
            i <= cached@.len(),
            forall|id: i64| ids@.contains(id) <==> in_snapshot(fresh@, id),
            actions@ == deletions(cached@.take(i as int), fresh@, now),
        decreases cached@.len() - i,
    {
        let p = &cached[i];
        assert(cached@.take(i + 1).drop_last() == cached@.take(i as int));
        if !ids.contains(&p.id) && p.deleted_at.is_none() {
            actions.push(Action::SoftDelete { id: p.id, at: now });
        }
        i = i + 1;
    }
    assert(cached@.take(cached@.len() as int) == cached@);
    let mut j: usize = 0;
    while j < fresh.len()
        invariant
            j <= fresh@.len(),
            actions@ == deletions(cached@, fresh@, now) + upserts(fresh@.take(j as int), cached@, now),
            forall|id: i64|
                #[trigger] index@.contains_key(id) ==> index@[id] < cached@.len() && lookup(cached@, id)
                    == Some(cached@[index@[id] as int]),
            forall|id: i64| !#[trigger] index@.contains_key(id) ==> lookup(cached@, id) is None,
        decreases fresh@.len() - j,
    {
        let e = &fresh[j];
        assert(fresh@.take(j + 1).drop_last() == fresh@.take(j as int));
        match index.get(&e.id) {
            None => {
                actions.push(Action::Insert { element: e.clone(), at: now });
            },
            Some(k) => {
                if cached[*k].tags != e.tags {
                    actions.push(Action::UpdateTags { id: e.id, tags: e.tags.clone(), at: now });
                }
            },
        }
        j = j + 1;
    }
    assert(fresh@.take(fresh@.len() as int) == fresh@);
    actions
}

} // verus!
