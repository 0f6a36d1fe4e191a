use vstd::prelude::*;
use std::collections::HashSet;
use crate::place::{
    find_cached, lemma_lookup_found, lemma_lookup_unique, lookup, records_valid, Action,
    NormalizedElement, Place,
};

verus! {

broadcast use vstd::std_specs::hash::group_hash_axioms;

/// Why a batch of actions could not be applied.
#[derive(Debug, PartialEq, Eq, Clone, Copy)]
pub enum ApplyError {
    /// An insert named an id that is already stored.
    DuplicateId(i64),
    /// An update or soft-delete named an id that is not stored.
    UnknownId(i64),
    /// A tag update was dated before the place was created.
    StaleTimestamp(i64),
}

/// The place that inserting `e` at time `at` stores.
pub open spec fn inserted(e: NormalizedElement, at: i64) -> Place {
    Place {
        id: e.id,
        lat: e.lat,
        lon: e.lon,
        tags: e.tags,
        created_at: at,
        updated_at: at,
        deleted_at: None,
    }
}

/// `p` with new tags, updated at `at`.
pub open spec fn retagged(p: Place, tags: String, at: i64) -> Place {
    Place {
        id: p.id,
        lat: p.lat,
        lon: p.lon,
        tags: tags,
        created_at: p.created_at,
        updated_at: at,
        deleted_at: p.deleted_at,
    }
}

/// `p` soft-deleted at `at`.
pub open spec fn tombstoned(p: Place, at: i64) -> Place {
    Place {
        id: p.id,
        lat: p.lat,
        lon: p.lon,
        tags: p.tags,
        created_at: p.created_at,
        updated_at: p.updated_at,
        deleted_at: Some(at),
    }
}

/// The record set after one action, or the error that the action meets.
pub open spec fn step(s: Seq<Place>, a: Action) -> Result<Seq<Place>, ApplyError> {
    match a {
        Action::Insert { element, at } => if lookup(s, element.id) is Some {
            Err(ApplyError::DuplicateId(element.id))
        } else {
            Ok(s.push(inserted(element, at)))
        },
        Action::UpdateTags { id, tags, at } => match lookup(s, id) {
            None => Err(ApplyError::UnknownId(id)),
            Some(p) => if at < p.created_at {
                Err(ApplyError::StaleTimestamp(id))
            } else {
                Ok(s.map_values(|q: Place| if q.id == id { retagged(q, tags, at) } else { q }))
            },
        },
        Action::SoftDelete { id, at } => match lookup(s, id) {
            None => Err(ApplyError::UnknownId(id)),
            Some(p) => if p.deleted_at is Some {
                Ok(s)
            } else {
                Ok(s.map_values(|q: Place| if q.id == id { tombstoned(q, at) } else { q }))
            },
        },
    }
}

/// The record set after the actions in order, or the first error met.
pub open spec fn applied(s: Seq<Place>, actions: Seq<Action>) -> Result<Seq<Place>, ApplyError>
    decreases actions.len(),
{
    if actions.len() == 0 {
        Ok(s)
    } else {
        match applied(s, actions.drop_last()) {
            Ok(t) => step(t, actions.last()),
            Err(e) => Err(e),
        }
    }
}

/// The places of `s` updated after `since`, in their order.
pub open spec fn updated_since(s: Seq<Place>, since: i64) -> Seq<Place> {
    s.filter(|p: Place| p.updated_at > since)
}

/// An action that succeeds keeps a record set valid.
pub proof fn lemma_step_keeps_valid(s: Seq<Place>, a: Action)
    requires
        records_valid(s),
        step(s, a) is Ok,
    ensures
        records_valid(step(s, a)->Ok_0),
{
    let t = step(s, a)->Ok_0;
    match a {
        Action::Insert { element, at } => {
            assert forall|k: int| 0 <= k < s.len() implies #[trigger] s[k].id != element.id by {
                lemma_lookup_unique(s, k);
            }
            assert(t[s.len() as int].created_at <= t[s.len() as int].updated_at);
        },
        Action::UpdateTags { id, tags, at } => {
            lemma_lookup_found(s, id);
            let k = choose|k: int| 0 <= k < s.len() && #[trigger] s[k].id == id && lookup(s, id) == Some(s[k]);
            assert forall|j: int| 0 <= j < t.len() implies #[trigger] t[j].created_at <= t[j].updated_at by {
                if s[j].id == id {
                    lemma_lookup_unique(s, j);
                }
            }
        },
        Action::SoftDelete { id, at } => {},
    }
}

/// Stores the place that `e` describes, created at `at`.
fn insert_record(places: &mut Vec<Place>, e: &NormalizedElement, at: i64) -> (r: Result<(), ApplyError>)
    requires
        records_valid(old(places)@),
    ensures
        match step(old(places)@, Action::Insert { element: *e, at }) {
            Ok(t) => r is Ok && final(places)@ == t,
            Err(x) => r == Err::<(), ApplyError>(x) && final(places)@ == old(places)@,
        },
{
    match find_cached(places, e.id) {
        Some(_) => Err(ApplyError::DuplicateId(e.id)),
        None => {
            places.push(
                Place {
                    id: e.id,
                    lat: e.lat.clone(),
                    lon: e.lon.clone(),
                    tags: e.tags.clone(),
                    created_at: at,
                    updated_at: at,
                    deleted_at: None,
                },
            );
            Ok(())
        },
    }
}

/// Replaces the tags of place `id`, updated at `at`.
fn retag_record(places: &mut Vec<Place>, id: i64, tags: &String, at: i64) -> (r: Result<(), ApplyError>)
    requires
        records_valid(old(places)@),
    ensures
        match step(old(places)@, Action::UpdateTags { id, tags: *tags, at }) {
            Ok(t) => r is Ok && final(places)@ == t,
            Err(x) => r == Err::<(), ApplyError>(x) && final(places)@ == old(places)@,
        },
{
    let ghost s = places@;
    match find_cached(places, id) {
        None => Err(ApplyError::UnknownId(id)),
        Some(k) => {
            if at < places[k].created_at {
                Err(ApplyError::StaleTimestamp(id))
            } else {
                let p = Place {
                    id: places[k].id,
                    lat: places[k].lat.clone(),
                    lon: places[k].lon.clone(),
                    tags: tags.clone(),
                    created_at: places[k].created_at,
                    updated_at: at,
                    deleted_at: places[k].deleted_at,
                };
                places[k] = p;
                proof {
                    let f = |q: Place| if q.id == id { retagged(q, *tags, at) } else { q };
                    assert forall|j: int| 0 <= j < s.len() implies #[trigger] places@[j] == f(s[j]) by {
                        if j != k {
                            assert(s[j].id != s[k as int].id);
                        }
                    }
                    assert(places@ =~= s.map_values(f));
                }
                Ok(())
            }
        },
    }
}

/// Marks place `id` deleted at `at`, unless it already is.
fn tombstone_record(places: &mut Vec<Place>, id: i64, at: i64) -> (r: Result<(), ApplyError>)
    requires
        records_valid(old(places)@),
    ensures
        match step(old(places)@, Action::SoftDelete { id, at }) {
            Ok(t) => r is Ok && final(places)@ == t,
            Err(x) => r == Err::<(), ApplyError>(x) && final(places)@ == old(places)@,
        },
{
    let ghost s = places@;
    match find_cached(places, id) {
        None => Err(ApplyError::UnknownId(id)),
        Some(k) => {
            if places[k].deleted_at.is_some() {
                Ok(())
            } else {
                let p = Place {
                    id: places[k].id,
                    lat: places[k].lat.clone(),
                    lon: places[k].lon.clone(),
                    tags: places[k].tags.clone(),
                    created_at: places[k].created_at,
                    updated_at: places[k].updated_at,
                    deleted_at: Some(at),
                };
                places[k] = p;
                proof {
                    let f = |q: Place| if q.id == id { tombstoned(q, at) } else { q };
                    assert forall|j: int| 0 <= j < s.len() implies #[trigger] places@[j] == f(s[j]) by {
                        if j != k {
                            assert(s[j].id != s[k as int].id);
                        }
                    }
                    assert(places@ =~= s.map_values(f));
                }
                Ok(())
            }
        },
    }
}

/// A write transaction: single-row writes staged on a copy of the record
/// set. Readers see none of them until the repository commits it; dropping
/// it rolls them all back.
pub struct Transaction {
    staged: Vec<Place>,
}

impl View for Transaction {
    type V = Seq<Place>;

    closed spec fn view(&self) -> Seq<Place> {
        self.staged@
    }
}

impl Transaction {
    /// Whether the staged record set meets its invariant.
    pub open spec fn wf(&self) -> bool {
        records_valid(self@)
    }

    /// Stages the insertion of `e`, created at `at`; fails with
    /// `DuplicateId` where the id is already stored.
    pub fn insert(&mut self, e: &NormalizedElement, at: i64) -> (r: Result<(), ApplyError>)
        requires
            old(self).wf(),
        ensures
            final(self).wf(),
            match step(old(self)@, Action::Insert { element: *e, at }) {
                Ok(t) => r is Ok && final(self)@ == t,
                Err(x) => r == Err::<(), ApplyError>(x) && final(self)@ == old(self)@,
            },
    {
        let r = insert_record(&mut self.staged, e, at);
        proof {
            if r is Ok {
                lemma_step_keeps_valid(old(self)@, Action::Insert { element: *e, at });
            }
        }
        r
    }

    /// Stages new tags for place `id`, updated at `at`; fails with
    /// `UnknownId` where no such place is stored, and with `StaleTimestamp`
    /// where `at` comes before its creation.
    pub fn update_tags(&mut self, id: i64, tags: &String, at: i64) -> (r: Result<(), ApplyError>)
        requires
            old(self).wf(),
        ensures
            final(self).wf(),
            match step(old(self)@, Action::UpdateTags { id, tags: *tags, at }) {
                Ok(t) => r is Ok && final(self)@ == t,
                Err(x) => r == Err::<(), ApplyError>(x) && final(self)@ == old(self)@,
            },
    {
        let r = retag_record(&mut self.staged, id, tags, at);
        proof {
            if r is Ok {
                lemma_step_keeps_valid(old(self)@, Action::UpdateTags { id, tags: *tags, at });
            }
        }
        r
    }

    /// Stages the soft-deletion of place `id` at `at`, keeping an earlier
    /// deletion time; fails with `UnknownId` where no such place is stored.
    pub fn soft_delete(&mut self, id: i64, at: i64) -> (r: Result<(), ApplyError>)
        requires
            old(self).wf(),
        ensures
            final(self).wf(),
            match step(old(self)@, Action::SoftDelete { id, at }) {
                Ok(t) => r is Ok && final(self)@ == t,
                Err(x) => r == Err::<(), ApplyError>(x) && final(self)@ == old(self)@,
            },
    {
        let r = tombstone_record(&mut self.staged, id, at);
        proof {
            if r is Ok {
                lemma_step_keeps_valid(old(self)@, Action::SoftDelete { id, at });
            }
        }
        r
    }

    /// Stages one action.
    pub fn stage(&mut self, a: &Action) -> (r: Result<(), ApplyError>)
        requires
            old(self).wf(),
        ensures
            final(self).wf(),
            match step(old(self)@, *a) {
                Ok(t) => r is Ok && final(self)@ == t,
                Err(x) => r == Err::<(), ApplyError>(x) && final(self)@ == old(self)@,
            },
    {
        match a {
            Action::Insert { element, at } => self.insert(element, *at),
            Action::UpdateTags { id, tags, at } => self.update_tags(*id, tags, *at),
            Action::SoftDelete { id, at } => self.soft_delete(*id, *at),
        }
    }
}

/// The persisted record set: the places, each under a unique id.
pub struct PlaceRepository {
    places: Vec<Place>,
}

impl View for PlaceRepository {
    type V = Seq<Place>;

    closed spec fn view(&self) -> Seq<Place> {
        self.places@
    }
}

impl PlaceRepository {
    /// Whether the record set meets its invariant.
    pub open spec fn wf(&self) -> bool {
        records_valid(self@)
    }

    /// An empty record set.
    pub fn new() -> (r: PlaceRepository)
        ensures
            r.wf(),
            r@ == Seq::<Place>::empty(),
    {
        PlaceRepository { places: Vec::new() }
    }

    /// A record set holding the given places, or `None` where two of them
    /// share an id or one was updated before it was created.
    pub fn from_places(places: Vec<Place>) -> (r: Option<PlaceRepository>)
        ensures
            r is Some <==> records_valid(places@),
            r matches Some(repo) ==> repo.wf() && repo@ == places@,
    {
        let mut seen: HashSet<i64> = HashSet::new();
        let mut i: usize = 0;
        while i < places.len()
            invariant
                i <= places@.len(),
                records_valid(places@.take(i as int)),
                forall|id: i64|
                    seen@.contains(id) <==> exists|k: int| 0 <= k < i && #[trigger] places@[k].id == id,
            decreases places@.len() - i,
        {
            let p = &places[i];
            if seen.contains(&p.id) || p.updated_at < p.created_at {
                proof {
                    if seen@.contains(p.id) {
                        let k = choose|k: int| 0 <= k < i && #[trigger] places@[k].id == p.id;
                        assert(places@[k].id == places@[i as int].id);
                    } else {
                        assert(places@[i as int].created_at > places@[i as int].updated_at);
                    }
                }
                return None;
            }
            seen.insert(p.id);
            proof {
                let pre = places@.take(i + 1);
                assert forall|a: int, b: int|
                    #![trigger pre[a].id, pre[b].id]
                    0 <= a < pre.len() && 0 <= b < pre.len() && a != b implies pre[a].id != pre[b].id by {
                    if a == i {
                        assert(!(exists|k: int| 0 <= k < i && #[trigger] places@[k].id == places@[a].id));
                        assert(places@[b].id != places@[a].id);
                    } else if b == i {
                        assert(!(exists|k: int| 0 <= k < i && #[trigger] places@[k].id == places@[b].id));
                        assert(places@[a].id != places@[b].id);
                    } else {
                        assert(places@.take(i as int)[a].id != places@.take(i as int)[b].id);
                    }
                }
                assert forall|k: int| 0 <= k < pre.len() implies #[trigger] pre[k].created_at <= pre[k].updated_at by {
                    if k < i {
                        assert(places@.take(i as int)[k].created_at <= places@.take(i as int)[k].updated_at);
                    }
                }
                assert forall|id: i64|
                    (exists|k: int| 0 <= k < i + 1 && #[trigger] places@[k].id == id) implies seen@.contains(id) by {
                    let k = choose|k: int| 0 <= k < i + 1 && #[trigger] places@[k].id == id;
                    if k < i {
                        assert(exists|k: int| 0 <= k < i && #[trigger] places@[k].id == id);
                    }
                }
            }
            i = i + 1;
        }
        assert(places@.take(places@.len() as int) == places@);
        Some(PlaceRepository { places })
    }

    /// All places, in the order in which they were first stored.
    pub fn select_all(&self) -> (r: Vec<Place>)
        ensures
            r@ == self@,
    {
        self.places.clone()
    }

    /// The place with the given id, live or soft-deleted.
    pub fn select_by_id(&self, id: i64) -> (r: Option<Place>)
        ensures
            r == lookup(self@, id),
    {
        match find_cached(&self.places, id) {
            Some(k) => Some(self.places[k].clone()),
            None => None,
        }
    }

    /// The places whose last tag write came after `since`.
    pub fn select_updated_since(&self, since: i64) -> (r: Vec<Place>)
        ensures
            r@ == updated_since(self@, since),
    {
        let mut out: Vec<Place> = Vec::new();
        let mut i: usize = 0;
        while i < self.places.len()
            invariant
                i <= self.places@.len(),
                out@ == updated_since(self.places@.take(i as int), since),
            decreases self.places@.len() - i,
        {
            proof {
                reveal(Seq::filter);
                assert(self.places@.take(i + 1).drop_last() == self.places@.take(i as int));
            }
            if self.places[i].updated_at > since {
                out.push(self.places[i].clone());
            }
            i = i + 1;
        }
        assert(self.places@.take(self.places@.len() as int) == self.places@);
        out
    }

    /// Applies the actions in order as one unit: either all of them take
    /// effect, or, at the first that fails, none does and its error is
    /// returned.
    pub fn apply(&mut self, actions: &Vec<Action>) -> (r: Result<(), ApplyError>)
        requires
            old(self).wf(),
        ensures
            final(self).wf(),
            match applied(old(self)@, actions@) {
                Ok(t) => r is Ok && final(self)@ == t,
                Err(e) => r == Err::<(), ApplyError>(e) && final(self)@ == old(self)@,
            },
    {
        let mut txn = self.begin_transaction();
        let mut i: usize = 0;
        while i < actions.len()
            invariant
                i <= actions@.len(),
                txn.wf(),
                self.wf(),
                applied(self@, actions@.take(i as int)) == Ok::<Seq<Place>, ApplyError>(txn@),
            decreases actions@.len() - i,
        {
            assert(actions@.take(i + 1).drop_last() == actions@.take(i as int));
            if let Err(e) = txn.stage(&actions[i]) {
                proof {
                    lemma_failure_persists(self@, actions@, i as int + 1);
                }
                return Err(e);
            }
            i = i + 1;
        }
        assert(actions@.take(actions@.len() as int) == actions@);
        self.commit(txn);
        Ok(())
    }

    /// Opens a write transaction on the current record set.
    pub fn begin_transaction(&self) -> (r: Transaction)
        requires
            self.wf(),
        ensures
            r.wf(),
            r@ == self@,
    {
        let staged = self.places.clone();
        assert(staged@ =~= self.places@);
        Transaction { staged }
    }

    /// Makes every write of the transaction visible at once.
    pub fn commit(&mut self, txn: Transaction)
        requires
            txn.wf(),
        ensures
            final(self).wf(),
            final(self)@ == txn@,
    {
        self.places = txn.staged;
    }
}

/// Once a prefix of the actions fails, the whole batch fails with the same
/// error.
pub proof fn lemma_failure_persists(s: Seq<Place>, actions: Seq<Action>, i: int)
    requires
        0 <= i <= actions.len(),
        applied(s, actions.take(i)) is Err,
    ensures
        applied(s, actions) == applied(s, actions.take(i)),
    decreases actions.len() - i,
{
    if i < actions.len() {
        assert(actions.take(i + 1).drop_last() == actions.take(i));
        lemma_failure_persists(s, actions, i + 1);
    } else {
        assert(actions.take(i) == actions);
    }
}

} // verus!
