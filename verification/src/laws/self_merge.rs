//! What becomes of a database that is merged with itself.

use vstd::prelude::*;
use crate::database::DatabaseModel;
use crate::ids::CustomIconId;
use crate::ids::EntryId;
use crate::ids::GroupId;
use crate::merge;
use crate::merge::entries;
use crate::merge::entries::Progress;
use crate::merge::groups;
use crate::merge::groups::Regrouping;
use crate::merge::icons;
use crate::merge::log::LogModel;
use crate::order;
use crate::order::Key;
use crate::times::Timestamp;

verus! {

/// Whether all entries, groups and custom icons have modification times.
pub open spec fn dated(db: DatabaseModel) -> bool {
    &&& forall|e: EntryId| #[trigger]
        db.entries.contains_key(e) ==> db.entries[e].times.last_modification is Some
    &&& forall|g: GroupId| #[trigger]
        db.groups.contains_key(g) ==> db.groups[g].times.last_modification is Some
    &&& forall|i: CustomIconId| #[trigger]
        db.custom_icons.contains_key(i) ==> db.custom_icons[i].last_modification_time is Some
}

/// No key is listed of no keys.
pub proof fn lemma_nothing_listed<K: Key>()
    ensures
        order::ordered::<K>(Set::<K::V>::empty()) == Seq::<K::V>::empty(),
{
    assert(order::lists::<K>(Seq::<K::V>::empty(), Set::<K::V>::empty()));
    order::lemma_ordered_is::<K>(Seq::<K::V>::empty(), Set::<K::V>::empty());
}

/// The icons of a database that is merged with itself.
proof fn lemma_icons(db: DatabaseModel, base: DatabaseModel, log: LogModel)
    requires
        db.finite(),
        dated(db),
    ensures
        icons::icons_merged(db, db, base) == db,
        icons::icons_log(db, db, base, log) == log,
{
    broadcast use Timestamp::numbers_decide;

    let after = icons::icons_merged(db, db, base);
    assert(after.custom_icons =~= db.custom_icons);
    assert(after.deleted_objects =~= db.deleted_objects);
    assert(after =~= db);
    let listing = order::ordered::<CustomIconId>(db.custom_icons.dom());
    order::lemma_ordered_lists::<CustomIconId>(db.custom_icons.dom());
    assert forall|i: int| 0 <= i < listing.len() implies db.custom_icons.contains_key(
        #[trigger] listing[i],
    ) by {
        assert(listing.contains(listing[i]));
        assert(db.custom_icons.dom().contains(listing[i]));
    }
    lemma_icon_logs(db, base, listing, log);
}

proof fn lemma_icon_logs(
    db: DatabaseModel,
    base: DatabaseModel,
    listing: Seq<CustomIconId>,
    log: LogModel,
)
    requires
        dated(db),
        forall|i: int|
            0 <= i < listing.len() ==> db.custom_icons.contains_key(#[trigger] listing[i]),
    ensures
        icons::offered_logs(db, db, base, listing, log) == log,
        icons::missing_logs(db, db, base, listing, log) == log,
        icons::common_logs(db, db, base, listing, log) == log,
    decreases listing.len(),
{
    broadcast use Timestamp::numbers_decide;

    if listing.len() > 0 {
        let shorter = listing.drop_last();
        assert forall|i: int| 0 <= i < shorter.len() implies db.custom_icons.contains_key(
            #[trigger] shorter[i],
        ) by {
            assert(shorter[i] == listing[i]);
        }
        lemma_icon_logs(db, base, shorter, log);
        let id = listing.last();
        assert(db.custom_icons.contains_key(listing[listing.len() - 1]));
        let time = icons::dated(db.custom_icons[id]);
        assert(!time.before(time));
    }
}

proof fn lemma_entries(
    p: Progress,
    base: DatabaseModel,
    now: Timestamp,
    listing: Seq<EntryId>,
)
    requires
        dated(p.db),
        p.error is None,
        forall|i: int| 0 <= i < listing.len() ==> p.db.entries.contains_key(#[trigger] listing[i]),
    ensures
        entries::all_common(p, p.db, base, now, listing) == p,
    decreases listing.len(),
{
    if listing.len() > 0 {
        let shorter = listing.drop_last();
        assert forall|i: int| 0 <= i < shorter.len() implies p.db.entries.contains_key(
            #[trigger] shorter[i],
        ) by {
            assert(shorter[i] == listing[i]);
        }
        lemma_entries(p, base, now, shorter);
        reveal(entries::entry_common);
        let id = listing.last();
        assert(p.db.entries.contains_key(listing[listing.len() - 1]));
        assert(entries::entry_common(p, p.db, base, now, id) =~= p);
    }
}

proof fn lemma_groups(
    r: Regrouping,
    base: DatabaseModel,
    now: Timestamp,
    known: Set<GroupId>,
    listing: Seq<GroupId>,
)
    requires
        dated(r.p.db),
        r.p.error is None,
        forall|i: int|
            0 <= i < listing.len() ==> r.p.db.groups.contains_key(#[trigger] listing[i]),
    ensures
        groups::all_common(r, r.p.db, base, now, known, listing) == r,
    decreases listing.len(),
{
    if listing.len() > 0 {
        let shorter = listing.drop_last();
        assert forall|i: int| 0 <= i < shorter.len() implies r.p.db.groups.contains_key(
            #[trigger] shorter[i],
        ) by {
            assert(shorter[i] == listing[i]);
        }
        lemma_groups(r, base, now, known, shorter);
        reveal(groups::group_common);
        let id = listing.last();
        assert(r.p.db.groups.contains_key(listing[listing.len() - 1]));
        assert(groups::group_common(r, r.p.db, base, now, known, id) =~= r);
    }
}

/// Merging a database with itself changes nothing: the database stays as it is, the log is empty
/// and there is no error, whatever the ancestor. All objects must have modification times; one
/// without is warned of.
pub proof fn self_merge_changes_nothing(db: DatabaseModel, base: DatabaseModel, now: Timestamp)
    requires
        db.finite(),
        dated(db),
    ensures
        merge::merged(db, db, base, now) == entries::going(db, LogModel::blank()),
        merge::mergeable(db, db, base),
{
    lemma_icons(db, base, LogModel::blank());
    lemma_nothing_listed::<GroupId>();
    lemma_nothing_listed::<EntryId>();
    let p = entries::going(db, LogModel::blank());
    assert(db.groups.dom().difference(db.groups.dom()) =~= Set::<GroupId>::empty());
    assert(groups::groups_to_add(db, db) =~= Set::<GroupId>::empty());
    let added = groups::groups_added(p, db, base);
    assert(added =~= p);
    let only_ours = order::ordered::<GroupId>(db.groups.dom().difference(db.groups.dom()));
    assert(groups::all_missing(added, db, base, only_ours) == p);
    assert(db.entries.dom().difference(db.entries.dom()) =~= Set::<EntryId>::empty());
    assert(db.entries.dom().intersect(db.entries.dom()) =~= db.entries.dom());
    let entry_ids = order::ordered::<EntryId>(db.entries.dom());
    order::lemma_ordered_lists::<EntryId>(db.entries.dom());
    assert forall|i: int| 0 <= i < entry_ids.len() implies db.entries.contains_key(
        #[trigger] entry_ids[i],
    ) by {
        assert(entry_ids.contains(entry_ids[i]));
        assert(db.entries.dom().contains(entry_ids[i]));
    }
    lemma_entries(p, base, now, entry_ids);
    assert(entries::entries_merged(p, db, base, now) == p);
    assert(groups::doomed(db.groups, db.entries, db, only_ours) =~= Seq::<GroupId>::empty()) by {
        reveal(Seq::filter);
    }
    assert(groups::all_removed(db, Seq::<GroupId>::empty()) == db);
    assert(db.groups.dom().intersect(db.groups.dom()) =~= db.groups.dom());
    let group_ids = order::ordered::<GroupId>(db.groups.dom());
    order::lemma_ordered_lists::<GroupId>(db.groups.dom());
    assert forall|i: int| 0 <= i < group_ids.len() implies db.groups.contains_key(
        #[trigger] group_ids[i],
    ) by {
        assert(group_ids.contains(group_ids[i]));
        assert(db.groups.dom().contains(group_ids[i]));
    }
    let start = Regrouping { p, moves: Seq::empty() };
    lemma_groups(start, base, now, db.groups.dom(), group_ids);
    assert(groups::groups_settled(p, db, base, now) == p);
}

} // verus!
