//! Properties of a reconciliation pass followed by its application.
use vstd::prelude::*;
use crate::normalize::{
    distinct_ids, first_fault, lemma_normal_forms_distinct, normal_forms, normalizes_to, RawElement,
};
use crate::place::{
    lemma_lookup_found, lemma_lookup_unique, lookup, records_valid, unique_ids, Action,
    NormalizedElement, Place,
};
use crate::reconcile::{deletions, in_snapshot, reconciliation, upsert, upserts};
use crate::repository::{applied, inserted, lemma_step_keeps_valid, retagged, step, ApplyError};
use crate::sync::{synced, SyncError};

verus! {

/// The actions of `acts` that write the record `id`, in order.
pub open spec fn actions_for(acts: Seq<Action>, id: i64) -> Seq<Action>
    decreases acts.len(),
{
    if acts.len() == 0 {
        seq![]
    } else {
        let rest = actions_for(acts.drop_last(), id);
        if acts.last().target() == id {
            rest.push(acts.last())
        } else {
            rest
        }
    }
}

proof fn lemma_actions_for_concat(a: Seq<Action>, b: Seq<Action>, id: i64)
    ensures
        actions_for(a + b, id) == actions_for(a, id) + actions_for(b, id),
    decreases b.len(),
{
    if b.len() == 0 {
        assert(a + b == a);
        assert(actions_for(a, id) + actions_for(b, id) == actions_for(a, id));
    } else {
        assert((a + b).drop_last() == a + b.drop_last());
        lemma_actions_for_concat(a, b.drop_last(), id);
    }
}

proof fn lemma_actions_for_push(acts: Seq<Action>, x: Action, id: i64)
    ensures
        actions_for(acts.push(x), id) == if x.target() == id {
            actions_for(acts, id).push(x)
        } else {
            actions_for(acts, id)
        },
{
    assert(acts.push(x).drop_last() == acts);
}

proof fn lemma_deletions_skip(cached: Seq<Place>, fresh: Seq<NormalizedElement>, now: i64, id: i64)
    requires
        in_snapshot(fresh, id),
    ensures
        actions_for(deletions(cached, fresh, now), id) == Seq::<Action>::empty(),
    decreases cached.len(),
{
    if cached.len() > 0 {
        let p = cached.last();
        lemma_deletions_skip(cached.drop_last(), fresh, now, id);
        if !in_snapshot(fresh, p.id) && p.deleted_at is None {
            lemma_actions_for_push(
                deletions(cached.drop_last(), fresh, now),
                Action::SoftDelete { id: p.id, at: now },
                id,
            );
        }
    }
}

proof fn lemma_upserts_for(
    fresh: Seq<NormalizedElement>,
    cached: Seq<Place>,
    now: i64,
    i: int,
    n: int,
)
    requires
        distinct_ids(fresh),
        0 <= i < fresh.len(),
        0 <= n <= fresh.len(),
    ensures
        actions_for(upserts(fresh.take(n), cached, now), fresh[i].id) == if i < n {
            match upsert(fresh[i], cached, now) {
                Some(a) => seq![a],
                None => Seq::<Action>::empty(),
            }
        } else {
            Seq::<Action>::empty()
        },
    decreases n,
{
    if n > 0 {
        let pre = fresh.take(n);
        assert(pre.drop_last() == fresh.take(n - 1));
        assert(pre.last() == fresh[n - 1]);
        lemma_upserts_for(fresh, cached, now, i, n - 1);
        if n - 1 != i {
            assert(fresh[n - 1].id != fresh[i].id);
        }
        let rest = upserts(fresh.take(n - 1), cached, now);
        match upsert(fresh[n - 1], cached, now) {
            Some(a) => {
                lemma_actions_for_push(rest, a, fresh[i].id);
                if n - 1 == i {
                    assert(actions_for(rest, fresh[i].id) == Seq::<Action>::empty());
                    assert(Seq::<Action>::empty().push(a) == seq![a]);
                }
            },
            None => {},
        }
    }
}

/// Tag-change detection: where a cached place and a fresh element share an
/// id, the pass writes that id exactly once, with a tag update carrying the
/// fresh tags, when the tags differ, and not at all when they are the same.
pub proof fn lemma_tag_change_detection(
    fresh: Seq<NormalizedElement>,
    cached: Seq<Place>,
    now: i64,
    i: int,
    k: int,
)
    requires
        distinct_ids(fresh),
        unique_ids(cached),
        0 <= i < fresh.len(),
        0 <= k < cached.len(),
        fresh[i].id == cached[k].id,
    ensures
        actions_for(reconciliation(fresh, cached, now), fresh[i].id) == if cached[k].tags@
            == fresh[i].tags@ {
            Seq::<Action>::empty()
        } else {
            seq![Action::UpdateTags { id: fresh[i].id, tags: fresh[i].tags, at: now }]
        },
{
    let id = fresh[i].id;
    lemma_actions_for_concat(deletions(cached, fresh, now), upserts(fresh, cached, now), id);
    lemma_deletions_skip(cached, fresh, now, id);
    lemma_upserts_for(fresh, cached, now, i, fresh.len() as int);
    assert(fresh.take(fresh.len() as int) == fresh);
    lemma_lookup_unique(cached, k);
    assert(Seq::<Action>::empty() + actions_for(upserts(fresh, cached, now), id) == actions_for(
        upserts(fresh, cached, now),
        id,
    ));
}

/// Applying `a` and then `b` is applying `a + b`.
pub proof fn lemma_applied_concat(s: Seq<Place>, a: Seq<Action>, b: Seq<Action>)
    ensures
        applied(s, a + b) == match applied(s, a) {
            Ok(m) => applied(m, b),
            Err(e) => Err(e),
        },
    decreases b.len(),
{
    if b.len() == 0 {
        assert(a + b == a);
    } else {
        assert((a + b).drop_last() == a + b.drop_last());
        assert((a + b).last() == b.last());
        lemma_applied_concat(s, a, b.drop_last());
    }
}

/// A batch that applies cleanly leaves a valid record set valid.
pub proof fn lemma_applied_keeps_valid(s: Seq<Place>, acts: Seq<Action>)
    requires
        records_valid(s),
        applied(s, acts) is Ok,
    ensures
        records_valid(applied(s, acts)->Ok_0),
    decreases acts.len(),
{
    if acts.len() > 0 {
        lemma_applied_keeps_valid(s, acts.drop_last());
        lemma_step_keeps_valid(applied(s, acts.drop_last())->Ok_0, acts.last());
    }
}

/// No batch of actions moves a stored place or lifts its soft-delete.
pub proof fn lemma_tombstones_kept(s: Seq<Place>, acts: Seq<Action>, k: int)
    requires
        records_valid(s),
        0 <= k < s.len(),
        applied(s, acts) is Ok,
    ensures
        k < applied(s, acts)->Ok_0.len(),
        applied(s, acts)->Ok_0[k].id == s[k].id,
        s[k].deleted_at is Some ==> applied(s, acts)->Ok_0[k].deleted_at == s[k].deleted_at,
    decreases acts.len(),
{
    if acts.len() > 0 {
        let m = applied(s, acts.drop_last())->Ok_0;
        lemma_tombstones_kept(s, acts.drop_last(), k);
        lemma_applied_keeps_valid(s, acts.drop_last());
        lemma_lookup_unique(m, k);
    }
}

/// Soft-delete monotonicity: once a place is soft-deleted, applying a later
/// reconciliation pass keeps it stored with the same deletion time.
pub proof fn lemma_soft_delete_permanent(
    fresh: Seq<NormalizedElement>,
    s: Seq<Place>,
    now: i64,
    k: int,
)
    requires
        records_valid(s),
        0 <= k < s.len(),
        s[k].deleted_at is Some,
        applied(s, reconciliation(fresh, s, now)) is Ok,
    ensures
        ({
            let t = applied(s, reconciliation(fresh, s, now))->Ok_0;
            lookup(t, s[k].id) is Some && lookup(t, s[k].id)->Some_0.deleted_at == s[k].deleted_at
        }),
{
    let acts = reconciliation(fresh, s, now);
    lemma_tombstones_kept(s, acts, k);
    lemma_applied_keeps_valid(s, acts);
    lemma_lookup_unique(applied(s, acts)->Ok_0, k);
}

/// A batch with no action on a stored place leaves that place as it was.
pub proof fn lemma_untouched(s: Seq<Place>, acts: Seq<Action>, k: int)
    requires
        records_valid(s),
        0 <= k < s.len(),
        applied(s, acts) is Ok,
        actions_for(acts, s[k].id) == Seq::<Action>::empty(),
    ensures
        k < applied(s, acts)->Ok_0.len(),
        applied(s, acts)->Ok_0[k] == s[k],
    decreases acts.len(),
{
    if acts.len() > 0 {
        let pre = acts.drop_last();
        if acts.last().target() == s[k].id {
            assert(actions_for(acts, s[k].id).len() > 0);
        }
        lemma_untouched(s, pre, k);
    }
}

/// A batch whose only action on a stored place is one tag update leaves
/// that place retagged by it.
pub proof fn lemma_retagged_once(s: Seq<Place>, acts: Seq<Action>, k: int, tags: String, at: i64)
    requires
        records_valid(s),
        0 <= k < s.len(),
        applied(s, acts) is Ok,
        actions_for(acts, s[k].id) == seq![Action::UpdateTags { id: s[k].id, tags, at }],
    ensures
        k < applied(s, acts)->Ok_0.len(),
        applied(s, acts)->Ok_0[k] == retagged(s[k], tags, at),
    decreases acts.len(),
{
    let id = s[k].id;
    if acts.len() == 0 {
        assert(actions_for(acts, id).len() == 0);
    } else {
        let pre = acts.drop_last();
        if acts.last().target() == id {
            assert(actions_for(acts, id) == actions_for(pre, id).push(acts.last()));
            assert(actions_for(pre, id) == Seq::<Action>::empty());
            assert(acts.last() == actions_for(acts, id)[0]);
            lemma_untouched(s, pre, k);
            let m = applied(s, pre)->Ok_0;
            assert(m[k] == s[k]);
            let t = step(m, acts.last())->Ok_0;
            assert(t[k] == retagged(m[k], tags, at));
        } else {
            lemma_retagged_once(s, pre, k, tags, at);
        }
    }
}

/// Tag-change detection, on the store: after the pass is applied, a cached
/// place that shares its id with a fresh element is unchanged when the tags
/// are the same, and otherwise carries the fresh tags, updated at `now`.
pub proof fn lemma_tag_change_applied(
    fresh: Seq<NormalizedElement>,
    s: Seq<Place>,
    now: i64,
    i: int,
    k: int,
)
    requires
        distinct_ids(fresh),
        records_valid(s),
        0 <= i < fresh.len(),
        0 <= k < s.len(),
        fresh[i].id == s[k].id,
        applied(s, reconciliation(fresh, s, now)) is Ok,
    ensures
        lookup(applied(s, reconciliation(fresh, s, now))->Ok_0, s[k].id) == Some(
            if s[k].tags@ == fresh[i].tags@ {
                s[k]
            } else {
                retagged(s[k], fresh[i].tags, now)
            },
        ),
{
    let acts = reconciliation(fresh, s, now);
    lemma_tag_change_detection(fresh, s, now, i, k);
    if s[k].tags@ == fresh[i].tags@ {
        lemma_untouched(s, acts, k);
    } else {
        lemma_retagged_once(s, acts, k, fresh[i].tags, now);
    }
    lemma_applied_keeps_valid(s, acts);
    lemma_lookup_unique(applied(s, acts)->Ok_0, k);
}

/// A cached place that the pass must soft-delete.
pub open spec fn owes_deletion(p: Place, fresh: Seq<NormalizedElement>) -> bool {
    !in_snapshot(fresh, p.id) && p.deleted_at is None
}

/// Applying the soft-deletes owed to the first `i` cached places keeps every
/// place in its position with its id and tags, and leaves each of those `i`
/// either in the snapshot or deleted.
proof fn lemma_deletions_effect(s: Seq<Place>, fresh: Seq<NormalizedElement>, now: i64, i: int)
    requires
        records_valid(s),
        0 <= i <= s.len(),
        applied(s, deletions(s.take(i), fresh, now)) is Ok,
    ensures
        ({
            let m = applied(s, deletions(s.take(i), fresh, now))->Ok_0;
            &&& records_valid(m)
            &&& m.len() == s.len()
            &&& forall|k: int|
                #![trigger m[k]]
                0 <= k < s.len() ==> m[k].id == s[k].id && m[k].tags == s[k].tags && (
                s[k].deleted_at is Some ==> m[k].deleted_at is Some)
            &&& forall|k: int|
                #![trigger m[k]]
                0 <= k < i ==> in_snapshot(fresh, m[k].id) || m[k].deleted_at is Some
        }),
    decreases i,
{
    let d = deletions(s.take(i), fresh, now);
    if i == 0 {
        assert(d == Seq::<Action>::empty());
    } else {
        let pre = s.take(i);
        assert(pre.drop_last() == s.take(i - 1));
        assert(pre.last() == s[i - 1]);
        let p = s[i - 1];
        let d0 = deletions(s.take(i - 1), fresh, now);
        if owes_deletion(p, fresh) {
            let sd = Action::SoftDelete { id: p.id, at: now };
            assert(d == d0.push(sd));
            assert(d0.push(sd).drop_last() == d0);
            lemma_deletions_effect(s, fresh, now, i - 1);
            let m0 = applied(s, d0)->Ok_0;
            lemma_lookup_unique(m0, i - 1);
            lemma_step_keeps_valid(m0, sd);
            let m = step(m0, sd)->Ok_0;
            assert forall|k: int| 0 <= k < s.len() && k != i - 1 implies #[trigger] m[k] == m0[k] by {
                assert(m0[k].id != m0[i - 1].id);
            }
        } else {
            assert(d == d0);
            lemma_deletions_effect(s, fresh, now, i - 1);
        }
    }
}

/// What applying the writes owed to the first `j` fresh elements does to
/// the record set `t1` that the soft-deletes left.
pub open spec fn upserts_done(
    s: Seq<Place>,
    t1: Seq<Place>,
    fresh: Seq<NormalizedElement>,
    j: int,
    m: Seq<Place>,
) -> bool {
    &&& records_valid(m)
    &&& m.len() >= s.len()
    &&& forall|k: int|
        #![trigger m[k]]
        0 <= k < s.len() ==> m[k].id == s[k].id && m[k].deleted_at == t1[k].deleted_at
    &&& forall|k: int| #![trigger m[k]] s.len() <= k < m.len() ==> in_snapshot(fresh, m[k].id)
    &&& forall|x: int|
        #![trigger fresh[x]]
        0 <= x < j ==> exists|k: int|
            0 <= k < m.len() && #[trigger] m[k].id == fresh[x].id && m[k].tags@ == fresh[x].tags@
    &&& forall|k: int|
        #![trigger m[k]]
        0 <= k < s.len() && (forall|x: int| 0 <= x < j ==> #[trigger] fresh[x].id != s[k].id)
            ==> m[k].tags == s[k].tags
}

/// Applying the writes owed to the first `j` fresh elements establishes
/// `upserts_done`.
proof fn lemma_upserts_effect(
    s: Seq<Place>,
    t1: Seq<Place>,
    fresh: Seq<NormalizedElement>,
    now: i64,
    j: int,
)
    requires
        distinct_ids(fresh),
        records_valid(t1),
        t1.len() == s.len(),
        forall|k: int|
            #![trigger t1[k]]
            0 <= k < s.len() ==> t1[k].id == s[k].id && t1[k].tags == s[k].tags,
        0 <= j <= fresh.len(),
        applied(t1, upserts(fresh.take(j), s, now)) is Ok,
    ensures
        upserts_done(s, t1, fresh, j, applied(t1, upserts(fresh.take(j), s, now))->Ok_0),
    decreases j,
{
    let u = upserts(fresh.take(j), s, now);
    if j == 0 {
        assert(u == Seq::<Action>::empty());
        assert forall|k: int| #![trigger t1[k]] 0 <= k < s.len() implies t1[k].id == s[k].id by {}
    } else {
        let pre = fresh.take(j);
        assert(pre.drop_last() == fresh.take(j - 1));
        assert(pre.last() == fresh[j - 1]);
        let e = fresh[j - 1];
        let u0 = upserts(fresh.take(j - 1), s, now);
        match upsert(e, s, now) {
            Some(a) => {
                assert(u == u0.push(a));
                assert(u0.push(a).drop_last() == u0);
            },
            None => {
                assert(u == u0);
            },
        }
        lemma_upserts_effect(s, t1, fresh, now, j - 1);
        let m0 = applied(t1, u0)->Ok_0;
        let m = applied(t1, u)->Ok_0;
        assert forall|x: int| 0 <= x < j - 1 implies #[trigger] fresh[x].id != e.id by {
            assert(fresh[x].id != fresh[j - 1].id);
        }
        match upsert(e, s, now) {
            None => {
                lemma_lookup_found(s, e.id);
                let k0 = choose|k: int| 0 <= k < s.len() && #[trigger] s[k].id == e.id && lookup(s, e.id) == Some(s[k]);
                assert(m[k0].tags == s[k0].tags);
                assert(m[k0].id == fresh[j - 1].id);
                assert forall|x: int| #![trigger fresh[x]] 0 <= x < j implies exists|k: int|
                    0 <= k < m.len() && #[trigger] m[k].id == fresh[x].id && m[k].tags@ == fresh[x].tags@ by {
                    if x == j - 1 {
                        assert(m[k0].id == fresh[x].id);
                    }
                }
            },
            Some(a) => {
                lemma_step_keeps_valid(m0, a);
                match a {
                    Action::Insert { element, at } => {
                        assert(m == m0.push(inserted(element, at)));
                        let kn = m0.len() as int;
                        assert(m[kn].id == fresh[j - 1].id);
                        assert forall|k: int| #![trigger m[k]] s.len() <= k < m.len() implies in_snapshot(fresh, m[k].id) by {
                            if k == kn {
                                assert(fresh[j - 1].id == m[k].id);
                            } else {
                                assert(m[k] == m0[k]);
                            }
                        }
                        assert forall|x: int| #![trigger fresh[x]] 0 <= x < j implies exists|k: int|
                            0 <= k < m.len() && #[trigger] m[k].id == fresh[x].id && m[k].tags@ == fresh[x].tags@ by {
                            if x == j - 1 {
                                assert(m[kn].id == fresh[x].id);
                            } else {
                                let k = choose|k: int| 0 <= k < m0.len() && #[trigger] m0[k].id == fresh[x].id && m0[k].tags@ == fresh[x].tags@;
                                assert(m[k] == m0[k]);
                            }
                        }
                    },
                    Action::UpdateTags { id, tags, at } => {
                        lemma_lookup_found(m0, id);
                        let kk = choose|k: int| 0 <= k < m0.len() && #[trigger] m0[k].id == id && lookup(m0, id) == Some(m0[k]);
                        assert(m[kk].id == fresh[j - 1].id);
                        assert forall|x: int| #![trigger fresh[x]] 0 <= x < j implies exists|k: int|
                            0 <= k < m.len() && #[trigger] m[k].id == fresh[x].id && m[k].tags@ == fresh[x].tags@ by {
                            if x == j - 1 {
                                assert(m[kk].id == fresh[x].id);
                            } else {
                                let k = choose|k: int| 0 <= k < m0.len() && #[trigger] m0[k].id == fresh[x].id && m0[k].tags@ == fresh[x].tags@;
                                assert(m[k] == m0[k]);
                            }
                        }
                    },
                    Action::SoftDelete { .. } => {},
                }
            },
        }
    }
}

proof fn lemma_no_deletions(t: Seq<Place>, fresh: Seq<NormalizedElement>, now: i64)
    requires
        forall|k: int| #![trigger t[k]] 0 <= k < t.len() ==> !owes_deletion(t[k], fresh),
    ensures
        deletions(t, fresh, now) == Seq::<Action>::empty(),
    decreases t.len(),
{
    if t.len() > 0 {
        assert forall|k: int| #![trigger t.drop_last()[k]] 0 <= k < t.drop_last().len() implies !owes_deletion(t.drop_last()[k], fresh) by {
            assert(t.drop_last()[k] == t[k]);
        }
        lemma_no_deletions(t.drop_last(), fresh, now);
        assert(t.last() == t[t.len() - 1]);
    }
}

proof fn lemma_no_upserts(fresh: Seq<NormalizedElement>, t: Seq<Place>, now: i64, n: int)
    requires
        unique_ids(t),
        0 <= n <= fresh.len(),
        forall|x: int|
            #![trigger fresh[x]]
            0 <= x < fresh.len() ==> exists|k: int|
                0 <= k < t.len() && #[trigger] t[k].id == fresh[x].id && t[k].tags@ == fresh[x].tags@,
    ensures
        upserts(fresh.take(n), t, now) == Seq::<Action>::empty(),
    decreases n,
{
    if n > 0 {
        let pre = fresh.take(n);
        assert(pre.drop_last() == fresh.take(n - 1));
        assert(pre.last() == fresh[n - 1]);
        lemma_no_upserts(fresh, t, now, n - 1);
        let k = choose|k: int| 0 <= k < t.len() && #[trigger] t[k].id == fresh[n - 1].id && t[k].tags@ == fresh[n - 1].tags@;
        lemma_lookup_unique(t, k);
    }
}

/// Whether two snapshots carry the same ids and the same tag texts,
/// position by position.
pub open spec fn same_content(a: Seq<NormalizedElement>, b: Seq<NormalizedElement>) -> bool {
    &&& a.len() == b.len()
    &&& forall|x: int| #![trigger b[x]] 0 <= x < a.len() ==> a[x].id == b[x].id && a[x].tags@ == b[x].tags@
}

/// Idempotence: once a pass over a snapshot has been applied, a second pass
/// over a snapshot with the same content, at any later time, owes no write.
pub proof fn lemma_reconcile_idempotent_on(
    fresh: Seq<NormalizedElement>,
    again: Seq<NormalizedElement>,
    s: Seq<Place>,
    now: i64,
    later: i64,
)
    requires
        records_valid(s),
        distinct_ids(fresh),
        same_content(fresh, again),
        applied(s, reconciliation(fresh, s, now)) is Ok,
    ensures
        reconciliation(again, applied(s, reconciliation(fresh, s, now))->Ok_0, later)
            == Seq::<Action>::empty(),
{
    let d = deletions(s, fresh, now);
    let u = upserts(fresh, s, now);
    lemma_applied_concat(s, d, u);
    assert(s.take(s.len() as int) == s);
    assert(fresh.take(fresh.len() as int) == fresh);
    assert(again.take(again.len() as int) == again);
    lemma_deletions_effect(s, fresh, now, s.len() as int);
    let t1 = applied(s, d)->Ok_0;
    lemma_upserts_effect(s, t1, fresh, now, fresh.len() as int);
    let t = applied(t1, u)->Ok_0;
    assert forall|k: int| #![trigger t[k]] 0 <= k < t.len() implies !owes_deletion(t[k], again) by {
        if k < s.len() {
            assert(t1[k].id == s[k].id);
        }
        if in_snapshot(fresh, t[k].id) {
            let j = choose|j: int| 0 <= j < fresh.len() && #[trigger] fresh[j].id == t[k].id;
            assert(again[j].id == t[k].id);
        }
    }
    assert forall|x: int| #![trigger again[x]] 0 <= x < again.len() implies exists|k: int|
        0 <= k < t.len() && #[trigger] t[k].id == again[x].id && t[k].tags@ == again[x].tags@ by {
        assert(fresh[x].id == again[x].id);
        let k = choose|k: int| 0 <= k < t.len() && #[trigger] t[k].id == fresh[x].id && t[k].tags@ == fresh[x].tags@;
        assert(t[k].id == again[x].id);
    }
    lemma_no_deletions(t, again, later);
    lemma_no_upserts(again, t, later, again.len() as int);
    assert(Seq::<Action>::empty() + Seq::<Action>::empty() == Seq::<Action>::empty());
}

/// Idempotence: once a pass over a snapshot has been applied, a second pass
/// over the same snapshot, at any later time, owes no write at all.
pub proof fn lemma_reconcile_idempotent(
    fresh: Seq<NormalizedElement>,
    s: Seq<Place>,
    now: i64,
    later: i64,
)
    requires
        records_valid(s),
        distinct_ids(fresh),
        applied(s, reconciliation(fresh, s, now)) is Ok,
    ensures
        reconciliation(fresh, applied(s, reconciliation(fresh, s, now))->Ok_0, later)
            == Seq::<Action>::empty(),
{
    lemma_reconcile_idempotent_on(fresh, fresh, s, now, later);
}

/// Idempotence of whole runs: after a run on a raw snapshot has succeeded,
/// a second run on the same raw snapshot, at any later time, succeeds with
/// no action and leaves the store exactly as the first run left it.
pub proof fn lemma_sync_idempotent(
    raws: Seq<RawElement>,
    fresh: Seq<NormalizedElement>,
    again: Seq<NormalizedElement>,
    s: Seq<Place>,
    now: i64,
    later: i64,
    first: Result<Vec<Action>, SyncError>,
    t: Seq<Place>,
    second: Result<Vec<Action>, SyncError>,
    u: Seq<Place>,
)
    requires
        records_valid(s),
        first_fault(raws) is None,
        normal_forms(raws, fresh),
        normal_forms(raws, again),
        synced(s, fresh, now, first, t),
        first is Ok,
        synced(t, again, later, second, u),
    ensures
        second is Ok,
        second->Ok_0@ == Seq::<Action>::empty(),
        u == t,
{
    lemma_normal_forms_distinct(raws, fresh);
    assert forall|x: int| #![trigger again[x]] 0 <= x < fresh.len() implies fresh[x].id == again[x].id
        && fresh[x].tags@ == again[x].tags@ by {
        assert(normalizes_to(raws[x], fresh[x]));
        assert(normalizes_to(raws[x], again[x]));
    }
    lemma_reconcile_idempotent_on(fresh, again, s, now, later);
    assert(applied(t, Seq::<Action>::empty()) == Ok::<Seq<Place>, ApplyError>(t));
}

} // verus!
