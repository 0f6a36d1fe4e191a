//! The element normalizer: from a raw snapshot to canonical elements.
use vstd::prelude::*;
use crate::place::NormalizedElement;

verus! {

/// The three shapes of element that the provider sends.
#[derive(Debug, Clone, Copy, PartialEq, Eq, Structural)]
pub enum ElementKind {
    /// Located by its own latitude and longitude.
    Point,
    /// Located by its pre-computed centroid.
    Way,
    /// Located by its pre-computed centroid.
    Relation,
}

/// The `tags` member of a raw element.
#[derive(Debug, Clone, PartialEq, Eq)]
pub enum RawTags {
    /// The element has no `tags` member.
    Missing,
    /// The `tags` object, as canonical JSON text.
    Object(String),
    /// The `tags` member holds something other than an object.
    NotAnObject,
}

/// What the normalizer reads of one element of a snapshot, each field
/// `None` where the element lacks it or holds a value of another JSON type.
#[derive(Debug, Clone, PartialEq, Eq)]
pub struct RawElement {
    pub id: Option<i64>,
    /// The `type` member.
    pub kind: Option<String>,
    /// The direct coordinates, as JSON number text.
    pub lat: Option<String>,
    pub lon: Option<String>,
    /// The coordinates of the `center` object, as JSON number text.
    pub center_lat: Option<String>,
    pub center_lon: Option<String>,
    pub tags: RawTags,
}

/// Why a snapshot could not be normalized. Each is fatal to the whole run.
#[derive(Debug, Clone, Copy, PartialEq, Eq, Structural)]
pub enum NormalizeError {
    /// The element at this position lacks an id, has an unknown type,
    /// lacks the coordinates that its type calls for, or has tags that are
    /// not an object.
    MalformedElement(usize),
    /// A second element carries this id.
    DuplicateElement(i64),
}

/// How many elements of each kind a snapshot holds.
#[derive(Debug, Clone, Copy, PartialEq, Eq, Structural)]
pub struct KindCounts {
    pub points: usize,
    pub ways: usize,
    pub relations: usize,
}

/// The kind that a `type` text names: `node` (or `point`), `way` or
/// `relation`.
pub open spec fn kind_named(s: Seq<char>) -> Option<ElementKind> {
    if s == "node"@ || s == "point"@ {
        Some(ElementKind::Point)
    } else if s == "way"@ {
        Some(ElementKind::Way)
    } else if s == "relation"@ {
        Some(ElementKind::Relation)
    } else {
        None
    }
}

/// The kind of a raw element, if its type is known.
pub open spec fn kind_of(r: RawElement) -> Option<ElementKind> {
    match r.kind {
        Some(s) => kind_named(s@),
        None => None,
    }
}

/// The coordinates that the kind of `r` calls for, if it has them.
pub open spec fn position(r: RawElement) -> Option<(String, String)> {
    match kind_of(r) {
        Some(ElementKind::Point) => match (r.lat, r.lon) {
            (Some(lat), Some(lon)) => Some((lat, lon)),
            _ => None,
        },
        Some(_) => match (r.center_lat, r.center_lon) {
            (Some(lat), Some(lon)) => Some((lat, lon)),
            _ => None,
        },
        None => None,
    }
}

/// The canonical text of an element's tags: an empty object where it has none.
pub open spec fn tags_text(tags: RawTags) -> Seq<char> {
    match tags {
        RawTags::Object(t) => t@,
        _ => "{}"@,
    }
}

/// Whether `r` has an id, the coordinates that its kind calls for, and
/// either no tags or a tags object.
pub open spec fn well_formed(r: RawElement) -> bool {
    r.id is Some && position(r) is Some && !(r.tags is NotAnObject)
}

/// Whether `e` is the canonical form of the raw element `r`.
pub open spec fn normalizes_to(r: RawElement, e: NormalizedElement) -> bool {
    &&& well_formed(r)
    &&& e.id == r.id->Some_0
    &&& (e.lat, e.lon) == position(r)->Some_0
    &&& e.tags@ == tags_text(r.tags)
}

/// The first fault met when the raw elements are read in order: a malformed
/// element, or a well-formed one whose id an earlier element carries.
pub open spec fn first_fault(raws: Seq<RawElement>) -> Option<NormalizeError>
    decreases raws.len(),
{
    if raws.len() == 0 {
        None
    } else {
        match first_fault(raws.drop_last()) {
            Some(f) => Some(f),
            None => {
                let r = raws.last();
                if !well_formed(r) {
                    Some(NormalizeError::MalformedElement((raws.len() - 1) as usize))
                } else if exists|j: int| 0 <= j < raws.len() - 1 && #[trigger] raws[j].id == r.id {
                    Some(NormalizeError::DuplicateElement(r.id->Some_0))
                } else {
                    None
                }
            },
        }
    }
}

/// No two elements share an id.
pub open spec fn distinct_ids(es: Seq<NormalizedElement>) -> bool {
    forall|i: int, j: int|
        #![trigger es[i].id, es[j].id]
        0 <= i < es.len() && 0 <= j < es.len() && i != j ==> es[i].id != es[j].id
}

/// Whether `fresh` holds the canonical form of each raw element, in order.
pub open spec fn normal_forms(raws: Seq<RawElement>, fresh: Seq<NormalizedElement>) -> bool {
    &&& fresh.len() == raws.len()
    &&& forall|i: int| 0 <= i < raws.len() ==> normalizes_to(raws[i], #[trigger] fresh[i])
}

/// Whether `r` is the outcome of normalizing `raws`: the first fault if
/// there is one, else the canonical form of each element, in order.
pub open spec fn normalizes(raws: Seq<RawElement>, r: Result<Vec<NormalizedElement>, NormalizeError>) -> bool {
    match first_fault(raws) {
        Some(f) => r == Err::<Vec<NormalizedElement>, NormalizeError>(f),
        None => r is Ok && normal_forms(raws, r->Ok_0@),
    }
}

/// The number of raw elements of kind `k`.
pub open spec fn count_of(raws: Seq<RawElement>, k: ElementKind) -> nat
    decreases raws.len(),
{
    if raws.len() == 0 {
        0
    } else {
        count_of(raws.drop_last(), k) + if kind_of(raws.last()) == Some(k) { 1nat } else { 0nat }
    }
}

proof fn lemma_count_bounded(raws: Seq<RawElement>, k: ElementKind)
    ensures
        count_of(raws, k) <= raws.len(),
    decreases raws.len(),
{
    if raws.len() > 0 {
        lemma_count_bounded(raws.drop_last(), k);
    }
}

/// Reads the kind that a `type` text names.
pub fn parse_kind(s: &String) -> (r: Option<ElementKind>)
    ensures
        r == kind_named(s@),
{
    if s.eq(&String::from_str("node")) || s.eq(&String::from_str("point")) {
        Some(ElementKind::Point)
    } else if s.eq(&String::from_str("way")) {
        Some(ElementKind::Way)
    } else if s.eq(&String::from_str("relation")) {
        Some(ElementKind::Relation)
    } else {
        None
    }
}

fn raw_kind(r: &RawElement) -> (k: Option<ElementKind>)
    ensures
        k == kind_of(*r),
{
    match &r.kind {
        Some(s) => parse_kind(s),
        None => None,
    }
}

fn clone_text(t: &Option<String>) -> (r: Option<String>)
    ensures
        r == *t,
{
    match t {
        Some(s) => Some(s.clone()),
        None => None,
    }
}

/// The canonical form of one raw element, or `None` where it is malformed.
pub fn normalize_element(r: &RawElement) -> (e: Option<NormalizedElement>)
    ensures
        match e {
            Some(e) => normalizes_to(*r, e),
            None => !well_formed(*r),
        },
{
    let id = match r.id {
        Some(id) => id,
        None => return None,
    };
    let (lat, lon) = match raw_kind(r) {
        Some(ElementKind::Point) => (clone_text(&r.lat), clone_text(&r.lon)),
        Some(_) => (clone_text(&r.center_lat), clone_text(&r.center_lon)),
        None => return None,
    };
    let (lat, lon) = match (lat, lon) {
        (Some(lat), Some(lon)) => (lat, lon),
        _ => return None,
    };
    let tags = match &r.tags {
        RawTags::Object(t) => t.clone(),
        RawTags::Missing => String::from_str("{}"),
        RawTags::NotAnObject => return None,
    };
    Some(NormalizedElement { id, lat, lon, tags })
}

/// Normalizes the raw elements of a snapshot in order. The run fails at the
/// first malformed element, or at the first element whose id an earlier one
/// carries; otherwise each element yields its canonical form.
pub fn normalize_elements(raws: &Vec<RawElement>) -> (r: Result<Vec<NormalizedElement>, NormalizeError>)
    ensures
        normalizes(raws@, r),
        r is Ok ==> distinct_ids(r->Ok_0@),
{
    let mut out: Vec<NormalizedElement> = Vec::new();
    let mut i: usize = 0;
    while i < raws.len()
        invariant
            i <= raws@.len(),
            first_fault(raws@.take(i as int)) is None,
            out@.len() == i,
            forall|k: int| 0 <= k < i ==> normalizes_to(raws@[k], #[trigger] out@[k]),
            distinct_ids(out@),
        decreases raws@.len() - i,
    {
        let ghost pre = raws@.take(i as int);
        let ghost upto = raws@.take(i + 1);
        assert(upto.drop_last() == pre);
        assert(upto.last() == raws@[i as int]);
        let e = match normalize_element(&raws[i]) {
            Some(e) => e,
            None => {
                proof {
                    lemma_fault_persists(raws@, i as int + 1);
                }
                return Err(NormalizeError::MalformedElement(i));
            },
        };
        let mut j: usize = 0;
        while j < i
            invariant
                i < raws@.len(),
                j <= i,
                upto == raws@.take(i + 1),
                upto.drop_last() == raws@.take(i as int),
                first_fault(raws@.take(i as int)) is None,
                well_formed(raws@[i as int]),
                out@.len() == i,
                e.id == raws@[i as int].id->Some_0,
                raws@[i as int].id is Some,
                forall|k: int| 0 <= k < i ==> normalizes_to(raws@[k], #[trigger] out@[k]),
                forall|k: int| 0 <= k < j ==> #[trigger] raws@[k].id != raws@[i as int].id,
            decreases i - j,
        {
            if out[j].id == e.id {
                proof {
                    assert(normalizes_to(raws@[j as int], out@[j as int]));
                    assert(upto[j as int].id == upto.last().id);
                    lemma_fault_persists(raws@, i as int + 1);
                }
                return Err(NormalizeError::DuplicateElement(e.id));
            }
            assert(normalizes_to(raws@[j as int], out@[j as int]));
            j = j + 1;
        }
        proof {
            assert forall|k: int| 0 <= k < upto.len() - 1 implies #[trigger] upto[k].id != upto.last().id by {
                assert(raws@[k].id != raws@[i as int].id);
            }
        }
        out.push(e);
        proof {
            assert forall|a: int, b: int|
                #![trigger out@[a].id, out@[b].id]
                0 <= a < out@.len() && 0 <= b < out@.len() && a != b implies out@[a].id != out@[b].id by {
                if a == i {
                    assert(normalizes_to(raws@[b], out@[b]));
                    assert(raws@[b].id != raws@[i as int].id);
                } else if b == i {
                    assert(normalizes_to(raws@[a], out@[a]));
                    assert(raws@[a].id != raws@[i as int].id);
                }
            }
        }
        i = i + 1;
    }
    assert(raws@.take(raws@.len() as int) == raws@);
    Ok(out)
}

/// A raw snapshot without faults holds only well-formed elements, no two
/// with the same id.
pub proof fn lemma_fault_free(raws: Seq<RawElement>)
    requires
        first_fault(raws) is None,
    ensures
        forall|i: int| 0 <= i < raws.len() ==> well_formed(#[trigger] raws[i]),
        forall|i: int, j: int|
            #![trigger raws[i].id, raws[j].id]
            0 <= i < raws.len() && 0 <= j < raws.len() && i != j ==> raws[i].id != raws[j].id,
    decreases raws.len(),
{
    if raws.len() > 0 {
        let pre = raws.drop_last();
        lemma_fault_free(pre);
        let n = raws.len() - 1;
        assert forall|i: int| 0 <= i < raws.len() implies well_formed(#[trigger] raws[i]) by {
            if i < n {
                assert(pre[i] == raws[i]);
            }
        }
        assert forall|i: int, j: int|
            #![trigger raws[i].id, raws[j].id]
            0 <= i < raws.len() && 0 <= j < raws.len() && i != j implies raws[i].id != raws[j].id by {
            if i < n && j < n {
                assert(pre[i].id != pre[j].id);
            } else if i == n {
                assert(raws[j].id != raws.last().id);
            } else {
                assert(raws[i].id != raws.last().id);
            }
        }
    }
}

/// The canonical forms of a raw snapshot without faults carry distinct ids.
pub proof fn lemma_normal_forms_distinct(raws: Seq<RawElement>, fresh: Seq<NormalizedElement>)
    requires
        first_fault(raws) is None,
        normal_forms(raws, fresh),
    ensures
        distinct_ids(fresh),
{
    lemma_fault_free(raws);
    assert forall|i: int, j: int|
        #![trigger fresh[i].id, fresh[j].id]
        0 <= i < fresh.len() && 0 <= j < fresh.len() && i != j implies fresh[i].id != fresh[j].id by {
        assert(normalizes_to(raws[i], fresh[i]));
        assert(normalizes_to(raws[j], fresh[j]));
        assert(raws[i].id != raws[j].id);
    }
}

proof fn lemma_fault_persists(raws: Seq<RawElement>, i: int)
    requires
        0 <= i <= raws.len(),
        first_fault(raws.take(i)) is Some,
    ensures
        first_fault(raws) == first_fault(raws.take(i)),
    decreases raws.len() - i,
{
    if i < raws.len() {
        assert(raws.take(i + 1).drop_last() == raws.take(i));
        lemma_fault_persists(raws, i + 1);
    } else {
        assert(raws.take(i) == raws);
    }
}

/// Counts the elements of each kind.
pub fn count_kinds(raws: &Vec<RawElement>) -> (r: KindCounts)
    ensures
        r.points == count_of(raws@, ElementKind::Point),
        r.ways == count_of(raws@, ElementKind::Way),
        r.relations == count_of(raws@, ElementKind::Relation),
{
    let mut counts = KindCounts { points: 0, ways: 0, relations: 0 };
    let mut i: usize = 0;
    while i < raws.len()
        invariant
            i <= raws@.len(),
            counts.points == count_of(raws@.take(i as int), ElementKind::Point),
            counts.ways == count_of(raws@.take(i as int), ElementKind::Way),
            counts.relations == count_of(raws@.take(i as int), ElementKind::Relation),
        decreases raws@.len() - i,
    {
        let ghost upto = raws@.take(i + 1);
        assert(upto.drop_last() == raws@.take(i as int));
        proof {
            lemma_count_bounded(upto, ElementKind::Point);
            lemma_count_bounded(upto, ElementKind::Way);
            lemma_count_bounded(upto, ElementKind::Relation);
        }
        match raw_kind(&raws[i]) {
            Some(ElementKind::Point) => counts.points = counts.points + 1,
            Some(ElementKind::Way) => counts.ways = counts.ways + 1,
            Some(ElementKind::Relation) => counts.relations = counts.relations + 1,
            None => {},
        }
        i = i + 1;
    }
    assert(raws@.take(raws@.len() as int) == raws@);
    counts
}

} // verus!
