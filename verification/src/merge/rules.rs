//! The rules by which a merge decides between two sides.

use vstd::prelude::*;
use crate::ids::Uuid;
use crate::sorted_map::SortedMap;
use crate::times::Timestamp;

verus! {

/// Deleted objects and when they were deleted.
pub type Tombstones = Map<Uuid, Option<Timestamp>>;

/// Whether an object that only the source has is taken over. It is, unless the destination
/// deleted it: at its last update or later, or at a time that is not known while no update is
/// known either, or while no update is known at all.
pub open spec fn revived(
    deleted: Tombstones,
    object: Uuid,
    updated: Option<Timestamp>,
) -> bool {
    deleted.contains_key(object) ==> match (deleted[object], updated) {
        (Some(deletion), Some(update)) => deletion.before(update),
        (None, Some(_)) => true,
        (_, None) => false,
    }
}

/// Whether an object that only the destination has is deleted: the source deleted it, and it is
/// not known to have been updated after that.
pub open spec fn buried(deleted: Tombstones, object: Uuid, updated: Option<Timestamp>) -> bool {
    &&& deleted.contains_key(object)
    &&& match (deleted[object], updated) {
        (Some(deletion), Some(update)) => !deletion.before(update),
        _ => true,
    }
}

/// Whether a side changed since the common ancestor: it was modified later, or the ancestor's
/// time is not known.
pub open spec fn changed_since(base: Option<Timestamp>, modified: Timestamp) -> bool {
    match base {
        Some(time) => time.before(modified),
        None => true,
    }
}

/// Whether an object that only the source has is taken over.
pub fn is_revived(
    deleted: &SortedMap<Uuid, Option<Timestamp>>,
    object: Uuid,
    updated: Option<Timestamp>,
) -> (result: bool)
    ensures
        result == revived(deleted.deep_view(), object, updated),
{
    match deleted.get(&object) {
        None => true,
        Some(deletion) => match (deletion, updated) {
            (Some(deletion), Some(update)) => deletion.is_before(&update),
            (None, Some(_)) => true,
            (_, None) => false,
        },
    }
}

/// Whether an object that only the destination has is deleted.
pub fn is_buried(
    deleted: &SortedMap<Uuid, Option<Timestamp>>,
    object: Uuid,
    updated: Option<Timestamp>,
) -> (result: bool)
    ensures
        result == buried(deleted.deep_view(), object, updated),
{
    match deleted.get(&object) {
        None => false,
        Some(deletion) => match (deletion, updated) {
            (Some(deletion), Some(update)) => !deletion.is_before(&update),
            _ => true,
        },
    }
}

/// Whether a side changed since the common ancestor.
pub fn has_changed_since(base: Option<Timestamp>, modified: Timestamp) -> (result: bool)
    ensures
        result == changed_since(base, modified),
{
    match base {
        Some(time) => time.is_before(&modified),
        None => true,
    }
}

} // verus!
