//! Reconciliation of a point-of-interest feed against a persisted record set.
//!
//! A raw snapshot of the provider's elements is normalized into
//! [`NormalizedElement`]s, compared against the stored [`Place`]s to yield an
//! ordered list of [`Action`]s, and those actions are applied to a
//! [`PlaceRepository`] as one atomic unit.

pub mod laws;
pub mod normalize;
pub mod place;
pub mod reconcile;
pub mod repository;
pub mod sync;

pub use normalize::{
    count_kinds, normalize_element, normalize_elements, parse_kind, ElementKind, KindCounts,
    NormalizeError, RawElement, RawTags,
};
pub use place::{Action, NormalizedElement, Place};
pub use reconcile::reconcile;
pub use repository::{ApplyError, PlaceRepository, Transaction};
pub use sync::{sync_snapshot, synchronize, SyncError};
