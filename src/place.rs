use vstd::prelude::*;

verus! {

/// A persisted point of interest.
///
/// Coordinates are kept as the decimal text in which the provider sent them;
/// tags are kept as their canonical serialized form and compared only as a
/// whole. Timestamps are seconds since the Unix epoch.
#[derive(Debug, PartialEq, Eq)]
pub struct Place {
    pub id: i64,
    pub lat: String,
    pub lon: String,
    pub tags: String,
    pub created_at: i64,
    pub updated_at: i64,
    /// `None` while the place is live; the time it was first found missing.
    pub deleted_at: Option<i64>,
}

/// One element of a fresh snapshot, in canonical form.
#[derive(Debug, PartialEq, Eq)]
pub struct NormalizedElement {
    pub id: i64,
    pub lat: String,
    pub lon: String,
    pub tags: String,
}

/// One write that a reconciliation pass asks of the store.
#[derive(Debug, PartialEq, Eq)]
pub enum Action {
    Insert { element: NormalizedElement, at: i64 },
    UpdateTags { id: i64, tags: String, at: i64 },
    SoftDelete { id: i64, at: i64 },
}

impl Clone for Place {
    fn clone(&self) -> (r: Self)
        ensures
            r == *self,
    {
        Place {
            id: self.id,
            lat: self.lat.clone(),
            lon: self.lon.clone(),
            tags: self.tags.clone(),
            created_at: self.created_at,
            updated_at: self.updated_at,
            deleted_at: self.deleted_at,
        }
    }
}

impl Clone for NormalizedElement {
    fn clone(&self) -> (r: Self)
        ensures
            r == *self,
    {
        NormalizedElement {
            id: self.id,
            lat: self.lat.clone(),
            lon: self.lon.clone(),
            tags: self.tags.clone(),
        }
    }
}

impl Clone for Action {
    fn clone(&self) -> (r: Self)
        ensures
            r == *self,
    {
        match self {
            Action::Insert { element, at } => Action::Insert { element: element.clone(), at: *at },
            Action::UpdateTags { id, tags, at } => Action::UpdateTags {
                id: *id,
                tags: tags.clone(),
                at: *at,
            },
            Action::SoftDelete { id, at } => Action::SoftDelete { id: *id, at: *at },
        }
    }
}

impl Action {
    /// The id of the record that the action writes.
    pub open spec fn target(self) -> i64 {
        match self {
            Action::Insert { element, .. } => element.id,
            Action::UpdateTags { id, .. } => id,
            Action::SoftDelete { id, .. } => id,
        }
    }

    /// The id of the record that the action writes.
    pub fn target_id(&self) -> (r: i64)
        ensures
            r == self.target(),
    {
        match self {
            Action::Insert { element, .. } => element.id,
            Action::UpdateTags { id, .. } => *id,
            Action::SoftDelete { id, .. } => *id,
        }
    }
}

impl Place {
    /// Whether the place is still live (not soft-deleted).
    pub fn is_live(&self) -> (r: bool)
        ensures
            r == self.deleted_at.is_none(),
    {
        self.deleted_at.is_none()
    }
}

/// The first place in `cached` whose id is `id`, if any.
pub open spec fn lookup(cached: Seq<Place>, id: i64) -> Option<Place>
    decreases cached.len(),
{
    if cached.len() == 0 {
        None
    } else if cached[0].id == id {
        Some(cached[0])
    } else {
        lookup(cached.drop_first(), id)
    }
}

/// Where no place carries `id`, the lookup finds nothing.
pub proof fn lemma_lookup_none(cached: Seq<Place>, id: i64)
    requires
        forall|k: int| 0 <= k < cached.len() ==> #[trigger] cached[k].id != id,
    ensures
        lookup(cached, id) is None,
    decreases cached.len(),
{
    if cached.len() > 0 {
        assert(cached[0].id != id);
        assert forall|k: int| 0 <= k < cached.drop_first().len() implies #[trigger] cached.drop_first()[k].id != id by {
            assert(cached[k + 1].id != id);
        }
        lemma_lookup_none(cached.drop_first(), id);
    }
}

/// The lookup finds the first place that carries `id`.
pub proof fn lemma_lookup_at(cached: Seq<Place>, id: i64, i: int)
    requires
        0 <= i < cached.len(),
        cached[i].id == id,
        forall|k: int| 0 <= k < i ==> #[trigger] cached[k].id != id,
    ensures
        lookup(cached, id) == Some(cached[i]),
    decreases cached.len(),
{
    if i > 0 {
        assert(cached[0].id != id);
        assert forall|k: int| 0 <= k < i - 1 implies #[trigger] cached.drop_first()[k].id != id by {
            assert(cached[k + 1].id != id);
        }
        lemma_lookup_at(cached.drop_first(), id, i - 1);
    }
}

/// No two places share an id.
pub open spec fn unique_ids(s: Seq<Place>) -> bool {
    forall|i: int, j: int|
        #![trigger s[i].id, s[j].id]
        0 <= i < s.len() && 0 <= j < s.len() && i != j ==> s[i].id != s[j].id
}

/// What holds of every stored record set: ids are unique and no place was
/// updated before it was created.
pub open spec fn records_valid(s: Seq<Place>) -> bool {
    &&& unique_ids(s)
    &&& forall|k: int| 0 <= k < s.len() ==> #[trigger] s[k].created_at <= s[k].updated_at
}

/// Where ids are unique, the lookup finds the one place with that id.
pub proof fn lemma_lookup_unique(s: Seq<Place>, k: int)
    requires
        unique_ids(s),
        0 <= k < s.len(),
    ensures
        lookup(s, s[k].id) == Some(s[k]),
{
    assert forall|j: int| 0 <= j < k implies #[trigger] s[j].id != s[k].id by {}
    lemma_lookup_at(s, s[k].id, k);
}

/// What the lookup finds is a place of the sequence with that id.
pub proof fn lemma_lookup_found(s: Seq<Place>, id: i64)
    requires
        lookup(s, id) is Some,
    ensures
        exists|k: int| 0 <= k < s.len() && #[trigger] s[k].id == id && lookup(s, id) == Some(s[k]),
    decreases s.len(),
{
    if s[0].id != id {
        lemma_lookup_found(s.drop_first(), id);
        let k = choose|k: int| 0 <= k < s.drop_first().len() && #[trigger] s.drop_first()[k].id == id
            && lookup(s.drop_first(), id) == Some(s.drop_first()[k]);
        assert(s[k + 1].id == id);
    } else {
        assert(s[0].id == id);
    }
}

/// Finds the first cached place with the given id.
pub(crate) fn find_cached(cached: &Vec<Place>, id: i64) -> (r: Option<usize>)
    ensures
        match r {
            None => lookup(cached@, id) is None,
            Some(i) => i < cached@.len() && cached@[i as int].id == id && lookup(cached@, id) == Some(
                cached@[i as int],
            ),
        },
{
    let mut i: usize = 0;
    while i < cached.len()
        invariant
            i <= cached@.len(),
            forall|k: int| 0 <= k < i ==> #[trigger] cached@[k].id != id,
        decreases cached@.len() - i,
    {
        if cached[i].id == id {
            proof {
                lemma_lookup_at(cached@, id, i as int);
            }
            return Some(i);
        }
        i = i + 1;
    }
    proof {
        lemma_lookup_none(cached@, id);
    }
    None
}

} // verus!
