//! What holds of a merge as a whole.

use vstd::prelude::*;
use crate::database::DatabaseModel;
use crate::ids::CustomIconId;
use crate::ids::EntryId;
use crate::ids::GroupId;
use crate::ids::Uuid;
use crate::merge;
use crate::merge::entries;
use crate::merge::entries::Progress;
use crate::merge::groups;
use crate::merge::groups::Regrouping;
use crate::merge::icons;
use crate::merge::log::LogModel;
use crate::merge::log::MergeError;
use crate::merge::rules;
use crate::order;
use crate::remap;
use crate::removal;
use crate::times::Timestamp;
use crate::tree;

verus! {

/// Whether a database carries on another: it has the same configuration, metadata and root, and
/// knows of all deletions that the other knows of.
pub open spec fn carries_on(before: DatabaseModel, after: DatabaseModel) -> bool {
    &&& after.config == before.config
    &&& after.meta == before.meta
    &&& after.root == before.root
    &&& forall|object: Uuid| #[trigger]
        before.deleted_objects.contains_key(object) ==> after.deleted_objects.contains_key(object)
}

/// The steps of the merging of entries.
pub proof fn lemma_offered(
    p: Progress,
    source: DatabaseModel,
    base: DatabaseModel,
    listed: Seq<EntryId>,
)
    requires
        forall|e: EntryId| #[trigger]
            source.entries.contains_key(e) ==> source.entries[e].id == e,
        forall|i: int| 0 <= i < listed.len() ==> source.entries.contains_key(#[trigger] listed[i]),
    ensures
        ({
            let after = entries::all_offered(p, source, base, listed);
            &&& carries_on(p.db, after.db)
            &&& after.db.deleted_objects == p.db.deleted_objects
            &&& after.db.custom_icons == p.db.custom_icons
            &&& p.error is None ==> after.error is None
            &&& forall|e: EntryId| #[trigger]
                after.db.entries.contains_key(e) ==> p.db.entries.contains_key(e) || (
                listed.contains(e) && rules::revived(
                    p.db.deleted_objects,
                    e.0,
                    source.entries[e].times.updated(),
                ))
            &&& forall|e: EntryId| #[trigger]
                p.db.entries.contains_key(e) && !listed.contains(e)
                    ==> after.db.entries.contains_key(e) && after.db.entries[e]
                    == p.db.entries[e]
        }),
    decreases listed.len(),
{
    if listed.len() > 0 {
        let shorter = listed.drop_last();
        let id = listed.last();
        assert(listed[listed.len() - 1] == id);
        assert forall|i: int| 0 <= i < shorter.len() implies source.entries.contains_key(
            #[trigger] shorter[i],
        ) by {
            assert(shorter[i] == listed[i]);
        }
        lemma_offered(p, source, base, shorter);
        reveal(entries::entry_offered);
        let before = entries::all_offered(p, source, base, shorter);
        let after = entries::all_offered(p, source, base, listed);
        let carried = remap::entry_remapped(
            source.entries[id],
            source.attachments,
            before.db.attachments,
        ).0;
        assert(carried.id == id);
        assert forall|e: EntryId| shorter.contains(e) || e == id <==> #[trigger] listed.contains(
            e,
        ) by {
            if shorter.contains(e) {
                let n = choose|n: int| 0 <= n < shorter.len() && shorter[n] == e;
                assert(listed[n] == e);
            }
            if listed.contains(e) && e != id {
                let n = choose|n: int| 0 <= n < listed.len() && listed[n] == e;
                assert(shorter[n] == e);
            }
        }
    }
}

pub proof fn lemma_missing(
    p: Progress,
    source: DatabaseModel,
    base: DatabaseModel,
    listed: Seq<EntryId>,
)
    ensures
        ({
            let after = entries::all_missing(p, source, base, listed);
            &&& carries_on(p.db, after.db)
            &&& after.db.custom_icons == p.db.custom_icons
            &&& p.error is None ==> after.error is None
            &&& forall|e: EntryId| #[trigger]
                after.db.entries.contains_key(e) ==> p.db.entries.contains_key(e)
            &&& forall|e: EntryId| #[trigger]
                p.db.entries.contains_key(e) && !listed.contains(e)
                    ==> after.db.entries.contains_key(e) && after.db.entries[e]
                    == p.db.entries[e]
            &&& forall|object: Uuid|
                !listed.contains(EntryId(object)) ==> (
                #[trigger] after.db.deleted_objects.contains_key(object)
                    == p.db.deleted_objects.contains_key(object)) && (
                p.db.deleted_objects.contains_key(object) ==> after.db.deleted_objects[object]
                    == p.db.deleted_objects[object])
        }),
    decreases listed.len(),
{
    if listed.len() > 0 {
        let shorter = listed.drop_last();
        let id = listed.last();
        lemma_missing(p, source, base, shorter);
        reveal(entries::entry_missing);
        let before = entries::all_missing(p, source, base, shorter);
        let gone = Set::<EntryId>::empty().insert(id);
        assert forall|e: EntryId| #[trigger] gone.contains(e) <==> e == id by {}
        assert forall|e: EntryId| shorter.contains(e) || e == id <==> #[trigger] listed.contains(
            e,
        ) by {
            if e == id {
                assert(listed[listed.len() - 1] == e);
            }
            if shorter.contains(e) {
                let n = choose|n: int| 0 <= n < shorter.len() && shorter[n] == e;
                assert(listed[n] == e);
            }
            if listed.contains(e) && e != id {
                let n = choose|n: int| 0 <= n < listed.len() && listed[n] == e;
                assert(shorter[n] == e);
            }
        }
    }
}

pub proof fn lemma_common(
    p: Progress,
    source: DatabaseModel,
    base: DatabaseModel,
    now: Timestamp,
    listed: Seq<EntryId>,
)
    requires
        p.error is None,
        forall|i: int| 0 <= i < listed.len() ==> p.db.entries.contains_key(#[trigger] listed[i]),
    ensures
        ({
            let after = entries::all_common(p, source, base, now, listed);
            &&& carries_on(p.db, after.db)
            &&& after.db.custom_icons == p.db.custom_icons
            &&& after.db.deleted_objects == p.db.deleted_objects
            &&& after.db.entries.dom() == p.db.entries.dom()
            &&& match after.error {
                None => true,
                Some(MergeError::EntryModificationTimeNotUpdated(e)) => listed.contains(e)
                    && !base.entries.contains_key(e),
                _ => false,
            }
        }),
    decreases listed.len(),
{
    if listed.len() > 0 {
        let shorter = listed.drop_last();
        let id = listed.last();
        assert(listed[listed.len() - 1] == id);
        assert forall|i: int| 0 <= i < shorter.len() implies p.db.entries.contains_key(
            #[trigger] shorter[i],
        ) by {
            assert(shorter[i] == listed[i]);
        }
        lemma_common(p, source, base, now, shorter);
        reveal(entries::entry_common);
        let before = entries::all_common(p, source, base, now, shorter);
        let after = entries::all_common(p, source, base, now, listed);
        assert(p.db.entries.dom().contains(id));
        assert(before.db.entries.dom().contains(id));
        if before.error is None {
            let placed = entries::entry_relocated(before, source, id);
            assert(placed.db.entries.dom() =~= before.db.entries.dom());
            assert(after.db.entries.dom() =~= placed.db.entries.dom());
        } else {
            if let Some(MergeError::EntryModificationTimeNotUpdated(e)) = before.error {
                let n = choose|n: int| 0 <= n < shorter.len() && shorter[n] == e;
                assert(listed[n] == e);
            }
        }
    }
}

/// The members of a listing are those of the set.
proof fn lemma_listed<K: order::Key>(set: Set<K::V>)
    requires
        set.finite(),
    ensures
        forall|k: K::V| #[trigger] order::ordered::<K>(set).contains(k) <==> set.contains(k),
        forall|i: int|
            0 <= i < order::ordered::<K>(set).len() ==> set.contains(
                #[trigger] order::ordered::<K>(set)[i],
            ),
{
    order::lemma_ordered_lists::<K>(set);
    let listing = order::ordered::<K>(set);
    assert forall|i: int| 0 <= i < listing.len() implies set.contains(#[trigger] listing[i]) by {
        assert(listing.contains(listing[i]));
    }
}

/// The merging of entries.
proof fn lemma_entries(p: Progress, source: DatabaseModel, base: DatabaseModel, now: Timestamp)
    requires
        p.error is None,
        p.db.entries.dom().finite(),
        source.entries.dom().finite(),
        forall|e: EntryId| #[trigger]
            source.entries.contains_key(e) ==> source.entries[e].id == e,
    ensures
        ({
            let after = entries::entries_merged(p, source, base, now);
            &&& carries_on(p.db, after.db)
            &&& after.db.custom_icons == p.db.custom_icons
            &&& forall|e: EntryId| #[trigger]
                after.db.entries.contains_key(e) ==> p.db.entries.contains_key(e) || (
                source.entries.contains_key(e) && rules::revived(
                    p.db.deleted_objects,
                    e.0,
                    source.entries[e].times.updated(),
                ))
            &&& forall|e: EntryId| #[trigger]
                p.db.entries.contains_key(e) && (source.entries.contains_key(e)
                    || !rules::buried(
                    source.deleted_objects,
                    e.0,
                    p.db.entries[e].times.updated(),
                )) ==> after.db.entries.contains_key(e)
            &&& match after.error {
                None => true,
                Some(MergeError::EntryModificationTimeNotUpdated(e)) => p.db.entries.contains_key(
                    e,
                ) && source.entries.contains_key(e) && !base.entries.contains_key(e),
                _ => false,
            }
        }),
{
    let ours = p.db.entries.dom();
    let theirs = source.entries.dom();
    let offered_ids = order::ordered::<EntryId>(theirs.difference(ours));
    let missing_ids = order::ordered::<EntryId>(ours.difference(theirs));
    let common_ids = order::ordered::<EntryId>(ours.intersect(theirs));
    lemma_listed::<EntryId>(theirs.difference(ours));
    lemma_listed::<EntryId>(ours.difference(theirs));
    lemma_listed::<EntryId>(ours.intersect(theirs));
    assert forall|i: int| 0 <= i < offered_ids.len() implies source.entries.contains_key(
        #[trigger] offered_ids[i],
    ) by {
        assert(theirs.difference(ours).contains(offered_ids[i]));
    }
    lemma_offered(p, source, base, offered_ids);
    let offered = entries::all_offered(p, source, base, offered_ids);
    lemma_missing(offered, source, base, missing_ids);
    lemma_missing_kept(offered, source, base, missing_ids);
    let missing = entries::all_missing(offered, source, base, missing_ids);
    assert forall|e: EntryId| ours.contains(e) && (theirs.contains(e) || !rules::buried(
        source.deleted_objects,
        e.0,
        p.db.entries[e].times.updated(),
    )) implies #[trigger] missing.db.entries.contains_key(e) by {
        assert(p.db.entries.contains_key(e));
        assert(!theirs.difference(ours).contains(e));
        assert(!offered_ids.contains(e));
        assert(offered.db.entries.contains_key(e) && offered.db.entries[e] == p.db.entries[e]);
        if theirs.contains(e) {
            assert(!ours.difference(theirs).contains(e));
            assert(!missing_ids.contains(e));
        }
    }
    assert forall|i: int| 0 <= i < common_ids.len() implies missing.db.entries.contains_key(
        #[trigger] common_ids[i],
    ) by {
        assert(ours.intersect(theirs).contains(common_ids[i]));
    }
    lemma_common(missing, source, base, now, common_ids);
    let after = entries::all_common(missing, source, base, now, common_ids);
    assert forall|e: EntryId| #[trigger] after.db.entries.contains_key(e)
        == missing.db.entries.contains_key(e) by {
        assert(after.db.entries.dom().contains(e) == missing.db.entries.dom().contains(e));
    }
    assert forall|e: EntryId| #[trigger] after.db.entries.contains_key(e) implies
        p.db.entries.contains_key(e) || (source.entries.contains_key(e) && rules::revived(
        p.db.deleted_objects,
        e.0,
        source.entries[e].times.updated(),
    )) by {
        assert(missing.db.entries.contains_key(e));
        assert(offered.db.entries.contains_key(e));
        if offered_ids.contains(e) {
            assert(theirs.difference(ours).contains(e));
        }
    }
    if let Some(MergeError::EntryModificationTimeNotUpdated(e)) = after.error {
        assert(ours.intersect(theirs).contains(e));
    }
}

/// Entries that the source did not delete, or that were updated since, are not removed.
proof fn lemma_missing_kept(
    p: Progress,
    source: DatabaseModel,
    base: DatabaseModel,
    listed: Seq<EntryId>,
)
    ensures
        ({
            let after = entries::all_missing(p, source, base, listed);
            forall|e: EntryId| #[trigger]
                p.db.entries.contains_key(e) && !rules::buried(
                    source.deleted_objects,
                    e.0,
                    p.db.entries[e].times.updated(),
                ) ==> after.db.entries.contains_key(e) && after.db.entries[e]
                    == p.db.entries[e]
        }),
    decreases listed.len(),
{
    if listed.len() > 0 {
        lemma_missing_kept(p, source, base, listed.drop_last());
        reveal(entries::entry_missing);
        let gone = Set::<EntryId>::empty().insert(listed.last());
        assert forall|e: EntryId| #[trigger] gone.contains(e) <==> e == listed.last() by {}
    }
}

pub proof fn lemma_chain(p: Progress, source: DatabaseModel, g: GroupId, n: nat)
    ensures
        ({
            let after = groups::chain_created(p, source, g, n);
            &&& after.db == (DatabaseModel { groups: after.db.groups, ..p.db })
            &&& p.error is None ==> after.error is None
        }),
    decreases n,
{
    if n > 0 {
        lemma_chain(p, source, source.groups[g].parent->0, (n - 1) as nat);
    }
}

pub proof fn lemma_restored(p: Progress, source: DatabaseModel, listed: Seq<GroupId>)
    ensures
        ({
            let after = groups::all_restored(p, source, listed);
            &&& after.db == (DatabaseModel { groups: after.db.groups, ..p.db })
            &&& p.error is None ==> after.error is None
        }),
    decreases listed.len(),
{
    if listed.len() > 0 {
        lemma_restored(p, source, listed.drop_last());
        let before = groups::all_restored(p, source, listed.drop_last());
        lemma_chain(
            before,
            source,
            listed.last(),
            groups::gap(before.db.groups, source.groups, listed.last()),
        );
    }
}

/// The deletions of groups are taken over.
pub proof fn lemma_groups_missing(
    p: Progress,
    source: DatabaseModel,
    base: DatabaseModel,
    listed: Seq<GroupId>,
)
    ensures
        ({
            let after = groups::all_missing(p, source, base, listed);
            &&& carries_on(p.db, after.db)
            &&& after.db == (DatabaseModel {
                deleted_objects: after.db.deleted_objects,
                ..p.db
            })
            &&& p.error is None ==> after.error is None
            &&& p.db.deleted_objects.dom().finite() ==> after.db.deleted_objects.dom().finite()
            &&& forall|object: Uuid|
                !listed.contains(GroupId(object)) ==> (
                #[trigger] after.db.deleted_objects.contains_key(object)
                    == p.db.deleted_objects.contains_key(object)) && (
                p.db.deleted_objects.contains_key(object) ==> after.db.deleted_objects[object]
                    == p.db.deleted_objects[object])
        }),
    decreases listed.len(),
{
    if listed.len() > 0 {
        let shorter = listed.drop_last();
        let id = listed.last();
        lemma_groups_missing(p, source, base, shorter);
        assert forall|g: GroupId| shorter.contains(g) || g == id <==> #[trigger] listed.contains(
            g,
        ) by {
            if g == id {
                assert(listed[listed.len() - 1] == g);
            }
            if shorter.contains(g) {
                let n = choose|n: int| 0 <= n < shorter.len() && shorter[n] == g;
                assert(listed[n] == g);
            }
            if listed.contains(g) && g != id {
                let n = choose|n: int| 0 <= n < listed.len() && listed[n] == g;
                assert(shorter[n] == g);
            }
        }
    }
}

proof fn lemma_removed(db: DatabaseModel, listed: Seq<GroupId>)
    ensures
        ({
            let after = groups::all_removed(db, listed);
            &&& carries_on(db, after)
            &&& after.deleted_objects == db.deleted_objects
            &&& after.custom_icons == db.custom_icons
            &&& forall|e: EntryId| #[trigger]
                after.entries.contains_key(e) ==> db.entries.contains_key(e)
        }),
    decreases listed.len(),
{
    if listed.len() > 0 {
        let g = listed.last();
        let once = if db.groups.contains_key(g) {
            removal::group_removed(db, g)
        } else {
            db
        };
        lemma_removed(once, listed.drop_last());
    }
}

proof fn lemma_regrouped(
    r: Regrouping,
    source: DatabaseModel,
    base: DatabaseModel,
    now: Timestamp,
    known: Set<GroupId>,
    listed: Seq<GroupId>,
)
    requires
        r.p.error is None,
    ensures
        ({
            let after = groups::all_common(r, source, base, now, known, listed).p;
            &&& after.db == (DatabaseModel { groups: after.db.groups, ..r.p.db })
            &&& match after.error {
                None => true,
                Some(MergeError::GroupModificationTimeNotUpdated(g)) => listed.contains(g)
                    && !base.groups.contains_key(g),
                Some(MergeError::MoveGroupError(_)) => true,
                _ => false,
            }
        }),
    decreases listed.len(),
{
    if listed.len() > 0 {
        let shorter = listed.drop_last();
        let id = listed.last();
        assert(listed[listed.len() - 1] == id);
        lemma_regrouped(r, source, base, now, known, shorter);
        reveal(groups::group_common);
        let before = groups::all_common(r, source, base, now, known, shorter);
        if let Some(MergeError::GroupModificationTimeNotUpdated(g)) = before.p.error {
            let n = choose|n: int| 0 <= n < shorter.len() && shorter[n] == g;
            assert(listed[n] == g);
        }
    }
}

proof fn lemma_moved(p: Progress, moves: Seq<(GroupId, GroupId)>)
    requires
        p.error is None,
    ensures
        ({
            let after = groups::all_moved(p, moves);
            &&& after.db == (DatabaseModel { groups: after.db.groups, ..p.db })
            &&& match after.error {
                None => true,
                Some(MergeError::MoveGroupError(_)) => true,
                _ => false,
            }
        }),
    decreases moves.len(),
{
    if moves.len() > 0 {
        lemma_moved(p, moves.drop_last());
    }
}

/// What holds of a merge after the icons were merged.
proof fn lemma_groups_merged(
    p: Progress,
    source: DatabaseModel,
    base: DatabaseModel,
    now: Timestamp,
)
    requires
        p.error is None,
        p.db.finite(),
        source.finite(),
        source.wf(),
    ensures
        ({
            let after = groups::groups_merged(p, source, base, now);
            &&& carries_on(p.db, after.db)
            &&& after.db.custom_icons == p.db.custom_icons
            &&& forall|e: EntryId| #[trigger]
                after.db.entries.contains_key(e) && !p.db.groups.contains_key(GroupId(e.0))
                    ==> p.db.entries.contains_key(e) || (source.entries.contains_key(e)
                    && rules::revived(
                    p.db.deleted_objects,
                    e.0,
                    source.entries[e].times.updated(),
                ))
            &&& forall|e: EntryId| #[trigger]
                after.db.entries.contains_key(e) ==> p.db.entries.contains_key(e)
                    || source.entries.contains_key(e)
            &&& match after.error {
                None => true,
                Some(MergeError::EntryModificationTimeNotUpdated(e)) => p.db.entries.contains_key(
                    e,
                ) && source.entries.contains_key(e) && !base.entries.contains_key(e),
                Some(MergeError::GroupModificationTimeNotUpdated(g)) => source.groups.contains_key(
                    g,
                ) && !base.groups.contains_key(g),
                Some(MergeError::MoveGroupError(_)) => true,
                Some(MergeError::DuplicateHistoryEntries(_, _)) => false,
            }
        }),
{
    let offered = order::ordered::<GroupId>(source.groups.dom().difference(p.db.groups.dom()));
    let start = entries::going(
        p.db,
        groups::offers_logged(p.log, p.db.deleted_objects, source, base, offered),
    );
    lemma_restored(
        start,
        source,
        order::ordered::<GroupId>(groups::groups_to_add(p.db, source)),
    );
    let added = groups::groups_added(p, source, base);
    let only_ours = order::ordered::<GroupId>(p.db.groups.dom().difference(source.groups.dom()));
    lemma_listed::<GroupId>(p.db.groups.dom().difference(source.groups.dom()));
    lemma_groups_missing(added, source, base, only_ours);
    let marked = groups::all_missing(added, source, base, only_ours);
    assert forall|e: EntryId| #[trigger] source.entries.contains_key(e) implies
        source.entries[e].id == e by {
        assert(crate::database::entry_placed(source.entries, source.groups, e));
    }
    lemma_entries(marked, source, base, now);
    let merged = entries::entries_merged(marked, source, base, now);
    assert forall|e: EntryId| #[trigger]
        merged.db.entries.contains_key(e) && !p.db.groups.contains_key(GroupId(e.0)) implies
        p.db.entries.contains_key(e) || (source.entries.contains_key(e) && rules::revived(
        p.db.deleted_objects,
        e.0,
        source.entries[e].times.updated(),
    )) by {
        assert(!p.db.groups.dom().difference(source.groups.dom()).contains(GroupId(e.0)));
        assert(!only_ours.contains(GroupId(e.0)));
        assert(marked.db.deleted_objects.contains_key(e.0) == p.db.deleted_objects.contains_key(
            e.0,
        ));
    }
    assert forall|object: Uuid| #[trigger] p.db.deleted_objects.contains_key(object) implies
        merged.db.deleted_objects.contains_key(object) by {
        assert(added.db.deleted_objects.contains_key(object));
        assert(marked.db.deleted_objects.contains_key(object));
    }
    if merged.error is None {
        let doomed = groups::doomed(added.db.groups, added.db.entries, source, only_ours);
        lemma_removed(merged.db, doomed);
        let emptied = Progress { db: groups::all_removed(merged.db, doomed), ..merged };
        let known = emptied.db.groups.dom();
        let listing = order::ordered::<GroupId>(known.intersect(source.groups.dom()));
        lemma_listed::<GroupId>(known.intersect(source.groups.dom()));
        let regrouping = Regrouping { p: emptied, moves: Seq::empty() };
        lemma_regrouped(regrouping, source, base, now, known, listing);
        let settled = groups::all_common(regrouping, source, base, now, known, listing);
        if let Some(MergeError::GroupModificationTimeNotUpdated(g)) = settled.p.error {
            assert(known.intersect(source.groups.dom()).contains(g));
        }
        if settled.p.error is None {
            lemma_moved(settled.p, settled.moves);
        }
    }
}

/// The icons' part of a merge.
pub proof fn lemma_icons_carry_on(dest: DatabaseModel, source: DatabaseModel, base: DatabaseModel)
    ensures
        carries_on(dest, icons::icons_merged(dest, source, base)),
        dest.finite() && source.finite() ==> icons::icons_merged(dest, source, base).finite(),
        forall|object: Uuid|
            !dest.custom_icons.contains_key(CustomIconId(object)) ==> (
            #[trigger] icons::icons_merged(dest, source, base).deleted_objects.contains_key(object)
                == dest.deleted_objects.contains_key(object)) && (
            dest.deleted_objects.contains_key(object) ==> icons::icons_merged(
                dest,
                source,
                base,
            ).deleted_objects[object] == dest.deleted_objects[object]),
{
    let after = icons::icons_merged(dest, source, base);
    if dest.finite() && source.finite() {
        assert(after.custom_icons.dom().subset_of(
            dest.custom_icons.dom().union(source.custom_icons.dom()),
        ));
        vstd::set_lib::lemma_len_subset(
            after.custom_icons.dom(),
            dest.custom_icons.dom().union(source.custom_icons.dom()),
        );
        let buried = Set::new(
            |object: Uuid| icons::icon_deleted(dest, source, CustomIconId(object)),
        );
        assert(buried.subset_of(source.deleted_objects.dom()));
        vstd::set_lib::lemma_len_subset(buried, source.deleted_objects.dom());
        assert(after.deleted_objects.dom() =~= dest.deleted_objects.dom().union(buried));
    }
}

/// A merge keeps the configuration, the metadata and the root group of the destination, and
/// forgets no deletion.
pub proof fn merge_carries_on(
    dest: DatabaseModel,
    source: DatabaseModel,
    base: DatabaseModel,
    now: Timestamp,
)
    requires
        dest.finite(),
        source.finite(),
        source.wf(),
    ensures
        carries_on(dest, merge::merged(dest, source, base, now).db),
{
    lemma_icons_carry_on(dest, source, base);
    let p = entries::going(
        icons::icons_merged(dest, source, base),
        icons::icons_log(dest, source, base, LogModel::blank()),
    );
    lemma_groups_merged(p, source, base, now);
}

/// A merge merges the custom icons, and does nothing else to them.
pub proof fn merge_settles_the_icons(
    dest: DatabaseModel,
    source: DatabaseModel,
    base: DatabaseModel,
    now: Timestamp,
)
    requires
        dest.finite(),
        source.finite(),
        source.wf(),
    ensures
        merge::merged(dest, source, base, now).db.custom_icons == icons::icons_merged(
            dest,
            source,
            base,
        ).custom_icons,
{
    lemma_icons_carry_on(dest, source, base);
    let p = entries::going(
        icons::icons_merged(dest, source, base),
        icons::icons_log(dest, source, base, LogModel::blank()),
    );
    lemma_groups_merged(p, source, base, now);
}

/// A merge invents no entry: each entry after it was in the destination or in the source.
pub proof fn merge_invents_no_entry(
    dest: DatabaseModel,
    source: DatabaseModel,
    base: DatabaseModel,
    now: Timestamp,
    e: EntryId,
)
    requires
        dest.finite(),
        source.finite(),
        source.wf(),
        merge::merged(dest, source, base, now).db.entries.contains_key(e),
    ensures
        dest.entries.contains_key(e) || source.entries.contains_key(e),
{
    lemma_icons_carry_on(dest, source, base);
    let p = entries::going(
        icons::icons_merged(dest, source, base),
        icons::icons_log(dest, source, base, LogModel::blank()),
    );
    lemma_groups_merged(p, source, base, now);
}

/// An entry that the destination deleted, at its last update in the source or later, does not come
/// back by a merge. Its identifier must not be that of a group or an icon as well.
pub proof fn deleted_entry_stays_deleted(
    dest: DatabaseModel,
    source: DatabaseModel,
    base: DatabaseModel,
    now: Timestamp,
    e: EntryId,
)
    requires
        dest.finite(),
        source.finite(),
        source.wf(),
        !dest.entries.contains_key(e),
        !dest.groups.contains_key(GroupId(e.0)),
        !dest.custom_icons.contains_key(CustomIconId(e.0)),
        source.entries.contains_key(e) ==> !rules::revived(
            dest.deleted_objects,
            e.0,
            source.entries[e].times.updated(),
        ),
    ensures
        !merge::merged(dest, source, base, now).db.entries.contains_key(e),
{
    lemma_icons_carry_on(dest, source, base);
    let p = entries::going(
        icons::icons_merged(dest, source, base),
        icons::icons_log(dest, source, base, LogModel::blank()),
    );
    lemma_groups_merged(p, source, base, now);
    assert(p.db.deleted_objects.contains_key(e.0) == dest.deleted_objects.contains_key(e.0));
}

/// The merging of entries keeps every entry of the destination that the source has too, or did not
/// delete, or that was updated after that deletion.
pub proof fn merging_entries_keeps_ours(
    p: Progress,
    source: DatabaseModel,
    base: DatabaseModel,
    now: Timestamp,
    e: EntryId,
)
    requires
        p.error is None,
        p.db.finite(),
        source.finite(),
        source.wf(),
        p.db.entries.contains_key(e),
        source.entries.contains_key(e) || !rules::buried(
            source.deleted_objects,
            e.0,
            p.db.entries[e].times.updated(),
        ),
    ensures
        entries::entries_merged(p, source, base, now).db.entries.contains_key(e),
{
    assert forall|e: EntryId| #[trigger] source.entries.contains_key(e) implies
        source.entries[e].id == e by {
        assert(crate::database::entry_placed(source.entries, source.groups, e));
    }
    lemma_entries(p, source, base, now);
}

/// A merge fails for want of an ancestor only: an error that names an entry or a group with the
/// same modification time but different contents names one that the ancestor lacks. The only
/// other error is that a group cannot be moved.
pub proof fn merge_fails_only_without_ancestor(
    dest: DatabaseModel,
    source: DatabaseModel,
    base: DatabaseModel,
    now: Timestamp,
)
    requires
        dest.finite(),
        source.finite(),
        source.wf(),
    ensures
        match merge::merged(dest, source, base, now).error {
            None => true,
            Some(MergeError::EntryModificationTimeNotUpdated(e)) => {
                &&& dest.entries.contains_key(e)
                &&& source.entries.contains_key(e)
                &&& !base.entries.contains_key(e)
            },
            Some(MergeError::GroupModificationTimeNotUpdated(g)) => {
                &&& source.groups.contains_key(g)
                &&& !base.groups.contains_key(g)
            },
            Some(MergeError::MoveGroupError(_)) => true,
            Some(MergeError::DuplicateHistoryEntries(_, _)) => false,
        },
{
    lemma_icons_carry_on(dest, source, base);
    let p = entries::going(
        icons::icons_merged(dest, source, base),
        icons::icons_log(dest, source, base, LogModel::blank()),
    );
    lemma_groups_merged(p, source, base, now);
}

/// Two versions of the same database, which share the root group, can be merged.
pub proof fn versions_of_a_database_are_mergeable(
    dest: DatabaseModel,
    source: DatabaseModel,
    base: DatabaseModel,
)
    requires
        source.wf(),
        dest.groups.contains_key(source.root),
    ensures
        merge::mergeable(dest, source, base),
{
    let start = icons::icons_merged(dest, source, base);
    assert forall|g: GroupId| #[trigger] groups::groups_to_add(start, source).contains(g) implies
        groups::connected(start.groups, source.groups, g) by {
        tree::lemma_root_above_all(source.groups, source.root, g);
        let n = choose|n: nat| #[trigger]
            tree::ancestor(source.groups, g, n) == Some(source.root);
        assert(groups::reaches(start.groups, source.groups, g, n));
    }
}

} // verus!
