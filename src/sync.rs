//! One reconciliation pass, from a fresh snapshot to the store.
use vstd::prelude::*;
use crate::normalize::{first_fault, normal_forms, normalize_elements, NormalizeError, RawElement};
use crate::place::{Action, NormalizedElement, Place};
use crate::reconcile::{reconcile, reconciliation};
use crate::repository::{applied, ApplyError, PlaceRepository};

verus! {

/// Why a sync run failed. Either way the store is left as it was.
#[derive(Debug, Clone, Copy, PartialEq, Eq)]
pub enum SyncError {
    Normalize(NormalizeError),
    Apply(ApplyError),
}

/// Reconciles the fresh elements against the store and applies the actions
/// as one unit. On success the actions are returned; on failure the store is
/// unchanged.
pub fn synchronize(repo: &mut PlaceRepository, fresh: &Vec<NormalizedElement>, now: i64) -> (r:
    Result<Vec<Action>, ApplyError>)
    requires
        old(repo).wf(),
    ensures
        final(repo).wf(),
        match applied(old(repo)@, reconciliation(fresh@, old(repo)@, now)) {
            Ok(t) => r is Ok && r->Ok_0@ == reconciliation(fresh@, old(repo)@, now) && final(repo)@
                == t,
            Err(e) => r == Err::<Vec<Action>, ApplyError>(e) && final(repo)@ == old(repo)@,
        },
{
    let cached = repo.select_all();
    let actions = reconcile(fresh, &cached, now);
    match repo.apply(&actions) {
        Ok(()) => Ok(actions),
        Err(e) => Err(e),
    }
}

/// Whether `r` and the record set `t` are what a run that reconciles the
/// elements `fresh` against the record set `s` at `now` leaves.
pub open spec fn synced(
    s: Seq<Place>,
    fresh: Seq<NormalizedElement>,
    now: i64,
    r: Result<Vec<Action>, SyncError>,
    t: Seq<Place>,
) -> bool {
    match applied(s, reconciliation(fresh, s, now)) {
        Ok(u) => r is Ok && r->Ok_0@ == reconciliation(fresh, s, now) && t == u,
        Err(e) => r == Err::<Vec<Action>, SyncError>(SyncError::Apply(e)) && t == s,
    }
}

/// A whole sync run on the raw elements of a snapshot: normalizes them, then
/// reconciles and applies. A snapshot with a fault fails with that fault and
/// leaves the store unchanged; otherwise the outcome is that of
/// [`synchronize`] on the canonical forms of the elements.
pub fn sync_snapshot(repo: &mut PlaceRepository, raws: &Vec<RawElement>, now: i64) -> (r: Result<
    Vec<Action>,
    SyncError,
>)
    requires
        old(repo).wf(),
    ensures
        final(repo).wf(),
        match first_fault(raws@) {
            Some(f) => r == Err::<Vec<Action>, SyncError>(SyncError::Normalize(f)) && final(repo)@
                == old(repo)@,
            None => exists|fresh: Seq<NormalizedElement>|
                normal_forms(raws@, fresh) && synced(old(repo)@, fresh, now, r, final(repo)@),
        },
{
    let fresh = match normalize_elements(raws) {
        Ok(fresh) => fresh,
        Err(e) => return Err(SyncError::Normalize(e)),
    };
    let r = match synchronize(repo, &fresh, now) {
        Ok(actions) => Ok(actions),
        Err(e) => Err(SyncError::Apply(e)),
    };
    assert(normal_forms(raws@, fresh@) && synced(old(repo)@, fresh@, now, r, repo@));
    r
}

} // verus!
