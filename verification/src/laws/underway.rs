//! How far a merge has come, as far as what comes of it depends on that.

use vstd::prelude::*;
use crate::attachment;
use crate::attachment::Pool;
use crate::database;
use crate::database::DatabaseModel;
use crate::entry::EntryModel;
use crate::ids::AttachmentId;
use crate::ids::EntryId;
use crate::ids::GroupId;
use crate::ids::Uuid;
use crate::laws::absorption;
use crate::laws::gathering;
use crate::laws::merging;
use crate::laws::quiet;
use crate::laws::remapping;
use crate::laws::soundness;
use crate::merge;
use crate::merge::entries;
use crate::merge::entries::Progress;
use crate::merge::groups;
use crate::merge::icons;
use crate::merge::log::LogModel;
use crate::merge::rules;
use crate::order;
use crate::references;
use crate::remap;
use crate::removal;
use crate::times::Timestamp;
use crate::tree;

verus! {

/// Whether the names of all versions of all entries are finitely many, as those of every database
/// in memory are.
pub open spec fn finite_names(db: DatabaseModel) -> bool {
    forall|e: EntryId| #[trigger]
        db.entries.contains_key(e) ==> remapping::finite_names(db.entries[e])
            && absorption::all_entries_finite(entries::versions_or_none(db.entries[e].history))
}

/// How far a merge has come once the groups that the destination lacks were added.
pub open spec fn gathered(
    dest: DatabaseModel,
    source: DatabaseModel,
    base: DatabaseModel,
) -> Progress {
    groups::groups_added(
        entries::going(
            icons::icons_merged(dest, source, base),
            icons::icons_log(dest, source, base, LogModel::blank()),
        ),
        source,
        base,
    )
}

/// How far a merge has come once it was decided on the groups that only the destination has.
pub open spec fn marked(
    dest: DatabaseModel,
    source: DatabaseModel,
    base: DatabaseModel,
) -> Progress {
    groups::all_missing(
        gathered(dest, source, base),
        source,
        base,
        order::ordered::<GroupId>(dest.groups.dom().difference(source.groups.dom())),
    )
}

/// How far a merge has come once the entries were merged, before groups are removed.
pub open spec fn assembled(
    dest: DatabaseModel,
    source: DatabaseModel,
    base: DatabaseModel,
    now: Timestamp,
) -> Progress {
    entries::entries_merged(marked(dest, source, base), source, base, now)
}

/// How far a merge has come once groups were removed, before the groups that both sides have are
/// settled.
pub open spec fn left(
    dest: DatabaseModel,
    source: DatabaseModel,
    base: DatabaseModel,
    now: Timestamp,
) -> Progress {
    let added = gathered(dest, source, base).db;
    let before = assembled(dest, source, base, now);
    let doomed = groups::doomed(
        added.groups,
        added.entries,
        source,
        order::ordered::<GroupId>(dest.groups.dom().difference(source.groups.dom())),
    );
    Progress { db: groups::all_removed(before.db, doomed), ..before }
}

/// An entry that both sides have once its place was settled.
pub open spec fn relocated(
    ours: EntryModel,
    theirs: EntryModel,
    known: Set<GroupId>,
) -> EntryModel {
    if quiet::stays(ours, theirs, known) {
        ours
    } else {
        ours.moved_to(theirs.parent).relocated_at(theirs.times.location_changed)
    }
}

/// Whether the names of all versions of an entry stand for the same attachments in two pools.
pub open spec fn kept_for(entry: EntryModel, before: Pool, after: Pool) -> bool {
    forall|a: AttachmentId| #[trigger]
        entry.uses(a) ==> before.contains_key(a) && after.contains_key(a) && after[a] == before[a]
}

/// Names of a version that is kept for stand for the same data.
pub proof fn lemma_kept_for(entry: EntryModel, before: Pool, after: Pool, index: Option<int>)
    requires
        kept_for(entry, before, after),
        entry.has_version(index),
    ensures
        references::resolves(entry.version(index).attachments, after),
        references::resolves(entry.version(index).attachments, before),
        remap::resolved(entry.version(index).attachments, after) == remap::resolved(
            entry.version(index).attachments,
            before,
        ),
{
    let names = entry.version(index).attachments;
    assert forall|name: Seq<char>| #[trigger] names.contains_key(name) implies
        before.contains_key(names[name]) && after.contains_key(names[name]) && after[names[name]]
        == before[names[name]] by {
        assert(references::refers(names, names[name]));
        assert(entry.uses(names[name]));
    }
    assert(remap::resolved(names, after) =~= remap::resolved(names, before));
}

/// An entry without dangling references is kept for.
pub proof fn lemma_sound_kept(entry: EntryModel, pool: Pool)
    requires
        entry.sound(pool),
    ensures
        kept_for(entry, pool, pool),
{
    assert forall|a: AttachmentId| #[trigger] entry.uses(a) implies pool.contains_key(a) by {
        let index = choose|index: Option<int>| #[trigger]
            entry.has_version(index) && references::refers(entry.version(index).attachments, a);
        let names = entry.version(index).attachments;
        assert(references::resolves(names, pool));
        let name = choose|name: Seq<char>| #[trigger]
            names.contains_key(name) && names[name] == a;
        assert(pool.contains_key(names[name]));
    }
}

/// Whether an entry is a copy of the source's: the same in all versions, with the same data under
/// the same names.
pub open spec fn copied(
    entry: EntryModel,
    pool: Pool,
    source: DatabaseModel,
    e: EntryId,
) -> bool {
    remap::entry_faithful(source.entries[e], source.attachments, entry, pool)
}

/// A copy is a copy in another pool with the same attachments for it.
pub proof fn lemma_copied_elsewhere(
    entry: EntryModel,
    pool: Pool,
    other: Pool,
    source: DatabaseModel,
    e: EntryId,
)
    requires
        copied(entry, pool, source, e),
        kept_for(entry, pool, other),
    ensures
        copied(entry, other, source, e),
{
    let theirs = source.entries[e];
    let live: Option<int> = None;
    assert(entry.has_version(live) && entry.version(live) == entry);
    lemma_kept_for(entry, pool, other, live);
    if let Some(versions) = entry.history {
        assert forall|i: int| 0 <= i < versions.len() implies remap::faithful(
            theirs.history->0[i].attachments,
            source.attachments,
            (#[trigger] versions[i]).attachments,
            other,
        ) by {
            assert(entry.has_version(Some(i)) && entry.version(Some(i)) == versions[i]);
            lemma_kept_for(entry, pool, other, Some(i));
        }
    }
}

/// A copy is a copy in a larger pool.
pub proof fn lemma_copied_further(
    entry: EntryModel,
    pool: Pool,
    larger: Pool,
    source: DatabaseModel,
    e: EntryId,
)
    requires
        copied(entry, pool, source, e),
        attachment::kept_in(pool, larger),
    ensures
        copied(entry, larger, source, e),
{
    soundness::lemma_faithful_sound(source.entries[e], source.attachments, entry, pool);
    lemma_kept_in_larger(entry, pool, larger);
    lemma_copied_elsewhere(entry, pool, larger, source, e);
}

/// How far the merging of entries has come, before those that both sides have are merged: the
/// entries of the destination that both sides have are as they were, and those that came from the
/// source are copies.
pub open spec fn underway(
    db: DatabaseModel,
    dest: DatabaseModel,
    source: DatabaseModel,
    known: Set<GroupId>,
    limit: nat,
) -> bool {
    &&& gathering::bare(db).wf()
    &&& gathering::groups_from(db.groups, dest, source)
    &&& db.groups.dom() == known
    &&& db.entries.dom().finite()
    &&& remapping::room(db.attachments, source.attachments, limit)
    &&& forall|e: EntryId| #[trigger]
        dest.entries.contains_key(e) && source.entries.contains_key(e)
            ==> db.entries.contains_key(e) && db.entries[e] == dest.entries[e] && kept_for(
            dest.entries[e],
            dest.attachments,
            db.attachments,
        )
    &&& forall|e: EntryId| #[trigger]
        db.entries.contains_key(e) && dest.entries.contains_key(e) ==> db.entries[e]
            == dest.entries[e]
    &&& forall|e: EntryId| #[trigger]
        db.entries.contains_key(e) && !dest.entries.contains_key(e)
            ==> source.entries.contains_key(e) && copied(
            db.entries[e],
            db.attachments,
            source,
            e,
        )
}

/// Adding an entry of the source goes on.
proof fn lemma_offered_step(
    p: Progress,
    dest: DatabaseModel,
    source: DatabaseModel,
    base: DatabaseModel,
    known: Set<GroupId>,
    e: EntryId,
    limit: nat,
)
    requires
        source.wf(),
        source.sound(),
        finite_names(source),
        underway(p.db, dest, source, known, limit),
        source.entries.contains_key(e),
        !dest.entries.contains_key(e),
        !p.db.entries.contains_key(e),
    ensures
        ({
            let after = entries::entry_offered(p, source, base, e);
            &&& underway(after.db, dest, source, known, limit)
            &&& after.db.deleted_objects == p.db.deleted_objects
            &&& after.db.custom_icons == p.db.custom_icons
            &&& after.error is None
            &&& after.db.entries.contains_key(e) || !known.contains(source.entries[e].parent)
                || !rules::revived(
                p.db.deleted_objects,
                e.0,
                source.entries[e].times.updated(),
            )
            &&& forall|x: EntryId| #[trigger]
                p.db.entries.contains_key(x) ==> after.db.entries.contains_key(x)
            &&& forall|x: EntryId| #[trigger]
                after.db.entries.contains_key(x) ==> p.db.entries.contains_key(x) || x == e
            &&& attachment::extends(p.db.attachments, after.db.attachments)
        }),
{
    reveal(entries::entry_offered);
    let after = entries::entry_offered(p, source, base, e);
    let theirs = source.entries[e];
    if rules::revived(p.db.deleted_objects, e.0, theirs.times.updated()) {
        remapping::remapping_is_faithful(
            theirs,
            source.attachments,
            p.db.attachments,
            limit,
        );
        let (carried, pool) = remap::entry_remapped(
            theirs,
            source.attachments,
            p.db.attachments,
        );
        assert(database::entry_placed(source.entries, source.groups, e));
        assert(carried.id == e);
        if known.contains(theirs.parent) {
            assert(p.db.groups.contains_key(theirs.parent));
            assert(after.db.entries.dom() =~= p.db.entries.dom().insert(e));
            assert(after.db.groups.dom() =~= p.db.groups.dom());
            gathering::lemma_places_kept(p.db.groups, after.db.groups, dest, source);
            tree::lemma_entry_added_wf(gathering::bare(p.db), theirs.parent, carried);
            assert(gathering::bare(after.db) =~= tree::entry_added(
                gathering::bare(p.db),
                theirs.parent,
                carried,
            ));
        } else {
            assert(!p.db.groups.contains_key(theirs.parent));
            assert(after.db == (DatabaseModel { attachments: pool, ..p.db }));
            assert(gathering::bare(after.db) =~= gathering::bare(p.db));
        }
        assert forall|x: EntryId| #[trigger]
            dest.entries.contains_key(x) && source.entries.contains_key(x) implies
            after.db.entries.contains_key(x) && after.db.entries[x] == dest.entries[x] && kept_for(
            dest.entries[x],
            dest.attachments,
            after.db.attachments,
        ) by {
            assert(p.db.entries.contains_key(x));
            lemma_kept_further(dest.entries[x], dest.attachments, p.db.attachments, pool);
        }
        assert forall|x: EntryId| #[trigger]
            after.db.entries.contains_key(x) && !dest.entries.contains_key(x) implies
            source.entries.contains_key(x) && copied(after.db.entries[x], pool, source, x) by {
            if x != e {
                assert(p.db.entries.contains_key(x));
                lemma_copied_further(p.db.entries[x], p.db.attachments, pool, source, x);
            }
        }
    } else {
        assert(after.db == p.db);
    }
}

pub proof fn lemma_kept_further(entry: EntryModel, before: Pool, between: Pool, after: Pool)
    requires
        kept_for(entry, before, between),
        attachment::kept_in(between, after),
    ensures
        kept_for(entry, before, after),
{
    assert forall|a: AttachmentId| #[trigger] entry.uses(a) implies before.contains_key(a)
        && after.contains_key(a) && after[a] == before[a] by {
        assert(between.contains_key(a));
    }
}

pub proof fn lemma_offered(
    p: Progress,
    dest: DatabaseModel,
    source: DatabaseModel,
    base: DatabaseModel,
    known: Set<GroupId>,
    listed: Seq<EntryId>,
    limit: nat,
)
    requires
        source.wf(),
        source.sound(),
        finite_names(source),
        p.error is None,
        underway(p.db, dest, source, known, limit),
        listed.no_duplicates(),
        forall|i: int|
            0 <= i < listed.len() ==> source.entries.contains_key(#[trigger] listed[i])
                && !dest.entries.contains_key(listed[i]) && !p.db.entries.contains_key(listed[i]),
    ensures
        ({
            let after = entries::all_offered(p, source, base, listed);
            &&& underway(after.db, dest, source, known, limit)
            &&& after.db.deleted_objects == p.db.deleted_objects
            &&& after.db.custom_icons == p.db.custom_icons
            &&& after.error is None
            &&& forall|x: EntryId| #[trigger]
                after.db.entries.contains_key(x) ==> p.db.entries.contains_key(x)
                    || listed.contains(x)
            &&& forall|x: EntryId| #[trigger]
                p.db.entries.contains_key(x) ==> after.db.entries.contains_key(x)
            &&& forall|i: int|
                0 <= i < listed.len() ==> after.db.entries.contains_key(#[trigger] listed[i])
                    || !known.contains(source.entries[listed[i]].parent) || !rules::revived(
                    p.db.deleted_objects,
                    listed[i].0,
                    source.entries[listed[i]].times.updated(),
                )
        }),
    decreases listed.len(),
{
    if listed.len() > 0 {
        let shorter = listed.drop_last();
        let e = listed[listed.len() - 1];
        assert(source.entries.contains_key(e));
        assert forall|i: int| 0 <= i < shorter.len() implies source.entries.contains_key(
            #[trigger] shorter[i],
        ) && !dest.entries.contains_key(shorter[i]) && !p.db.entries.contains_key(shorter[i]) by {
            assert(shorter[i] == listed[i]);
            assert(source.entries.contains_key(listed[i]));
        }
        assert(!shorter.contains(e)) by {
            if shorter.contains(e) {
                let n = choose|n: int| 0 <= n < shorter.len() && shorter[n] == e;
                assert(listed[n] == e);
            }
        }
        lemma_offered(p, dest, source, base, known, shorter, limit);
        let before = entries::all_offered(p, source, base, shorter);
        let after = entries::all_offered(p, source, base, listed);
        lemma_offered_step(before, dest, source, base, known, e, limit);
        assert forall|x: EntryId| #[trigger] after.db.entries.contains_key(x) implies
            p.db.entries.contains_key(x) || listed.contains(x) by {
            if x == e {
                assert(listed[listed.len() - 1] == x);
            } else if shorter.contains(x) {
                let n = choose|n: int| 0 <= n < shorter.len() && shorter[n] == x;
                assert(listed[n] == x);
            } else {
                assert(before.db.entries.contains_key(x));
            }
        }
        assert forall|i: int| 0 <= i < listed.len() implies after.db.entries.contains_key(
            #[trigger] listed[i],
        ) || !known.contains(source.entries[listed[i]].parent) || !rules::revived(
            p.db.deleted_objects,
            listed[i].0,
            source.entries[listed[i]].times.updated(),
        ) by {
            if i < shorter.len() {
                assert(shorter[i] == listed[i]);
                if before.db.entries.contains_key(shorter[i]) {
                    assert(after.db.entries.contains_key(listed[i]));
                }
            }
        }
    }
}

/// Removing an entry that the source deleted goes on.
proof fn lemma_missing_step(
    p: Progress,
    dest: DatabaseModel,
    source: DatabaseModel,
    base: DatabaseModel,
    known: Set<GroupId>,
    e: EntryId,
    size: nat,
    limit: nat,
)
    requires
        underway(p.db, dest, source, known, limit),
        p.db.attachments.dom().len() <= size,
        size + source.attachments.dom().len() <= limit,
        dest.entries.contains_key(e),
        !source.entries.contains_key(e),
    ensures
        ({
            let after = entries::entry_missing(p, source, base, e);
            &&& underway(after.db, dest, source, known, limit)
            &&& after.db.attachments.dom().len() <= size
            &&& after.db.custom_icons == p.db.custom_icons
            &&& after.error is None
            &&& forall|x: EntryId| #[trigger]
                after.db.entries.contains_key(x) ==> p.db.entries.contains_key(x)
            &&& forall|x: EntryId| x != e ==> #[trigger] after.db.entries.contains_key(x)
                == p.db.entries.contains_key(x)
            &&& after.db.entries.contains_key(e) ==> !rules::buried(
                source.deleted_objects,
                e.0,
                dest.entries[e].times.updated(),
            )
            &&& p.db.entries.contains_key(e) && !after.db.entries.contains_key(e)
                ==> rules::buried(
                source.deleted_objects,
                e.0,
                dest.entries[e].times.updated(),
            ) && after.db.deleted_objects.contains_key(e.0) && after.db.deleted_objects[e.0]
                == source.deleted_objects[e.0]
            &&& forall|object: Uuid|
                object != e.0 ==> (#[trigger] after.db.deleted_objects.contains_key(object)
                    == p.db.deleted_objects.contains_key(object)) && (
                p.db.deleted_objects.contains_key(object) ==> after.db.deleted_objects[object]
                    == p.db.deleted_objects[object])
            &&& after.db.deleted_objects.dom().finite() == p.db.deleted_objects.dom().finite()
        }),
{
    reveal(entries::entry_missing);
    let after = entries::entry_missing(p, source, base, e);
    if rules::buried(source.deleted_objects, e.0, p.db.entries[e].times.updated()) {
        let gone = Set::<EntryId>::empty().insert(e);
        assert forall|x: EntryId| #[trigger] gone.contains(x) <==> x == e by {}
        let kept = p.db.entries.remove_keys(gone);
        let pool = after.db.attachments;
        assert(after.db.groups.dom() =~= p.db.groups.dom());
        assert(after.db.entries == kept);
        assert(kept.dom() =~= p.db.entries.dom().remove(e));
        assert(pool.dom().subset_of(p.db.attachments.dom()));
        vstd::set_lib::lemma_len_subset(pool.dom(), p.db.attachments.dom());
        remapping::lemma_room(pool, source.attachments, limit);
        assert(after.db.deleted_objects.dom() =~= p.db.deleted_objects.dom().insert(e.0));
        if after.db.deleted_objects.dom().finite() {
            vstd::set_lib::lemma_len_subset(
                p.db.deleted_objects.dom(),
                after.db.deleted_objects.dom(),
            );
        }
        gathering::lemma_places_kept(p.db.groups, after.db.groups, dest, source);
        removal::lemma_entries_removed_wf(gathering::bare(p.db), gone);
        let bared = removal::entries_removed(gathering::bare(p.db), gone);
        assert(bared.attachments =~= Map::empty());
        assert(bared.groups =~= after.db.groups);
        assert(gathering::bare(after.db) =~= (DatabaseModel {
            deleted_objects: after.db.deleted_objects,
            ..bared
        }));
        assert forall|x: EntryId, a: AttachmentId|
            kept.contains_key(x) && #[trigger] kept[x].uses(a) && p.db.attachments.contains_key(
                a,
            ) implies pool.contains_key(a) && pool[a] == p.db.attachments[a] by {
            assert(references::used(kept, a));
        }
        assert forall|x: EntryId| #[trigger]
            dest.entries.contains_key(x) && source.entries.contains_key(x) implies
            after.db.entries.contains_key(x) && after.db.entries[x] == dest.entries[x] && kept_for(
            dest.entries[x],
            dest.attachments,
            pool,
        ) by {
            assert(p.db.entries.contains_key(x));
            assert(kept.contains_key(x));
            assert forall|a: AttachmentId| #[trigger] dest.entries[x].uses(a) implies
                dest.attachments.contains_key(a) && pool.contains_key(a) && pool[a]
                == dest.attachments[a] by {
                assert(kept[x].uses(a));
                assert(p.db.attachments.contains_key(a));
            }
        }
        assert forall|x: EntryId| #[trigger]
            after.db.entries.contains_key(x) && !dest.entries.contains_key(x) implies
            source.entries.contains_key(x) && copied(after.db.entries[x], pool, source, x) by {
            assert(p.db.entries.contains_key(x));
            let entry = p.db.entries[x];
            assert(kept.contains_key(x));
            soundness::lemma_faithful_sound(
                source.entries[x],
                source.attachments,
                entry,
                p.db.attachments,
            );
            lemma_sound_kept(entry, p.db.attachments);
            assert(kept_for(entry, p.db.attachments, pool)) by {
                assert forall|a: AttachmentId| #[trigger] entry.uses(a) implies
                    p.db.attachments.contains_key(a) && pool.contains_key(a) && pool[a]
                    == p.db.attachments[a] by {
                    assert(kept[x].uses(a));
                }
            }
            lemma_copied_elsewhere(entry, p.db.attachments, pool, source, x);
        }
    } else {
        assert(after.db == p.db);
        if p.db.entries.contains_key(e) {
            assert(p.db.entries[e] == dest.entries[e]);
        }
    }
}

pub proof fn lemma_missing(
    p: Progress,
    dest: DatabaseModel,
    source: DatabaseModel,
    base: DatabaseModel,
    known: Set<GroupId>,
    listed: Seq<EntryId>,
    size: nat,
    limit: nat,
)
    requires
        p.error is None,
        underway(p.db, dest, source, known, limit),
        p.db.attachments.dom().len() <= size,
        size + source.attachments.dom().len() <= limit,
        listed.no_duplicates(),
        forall|i: int|
            0 <= i < listed.len() ==> dest.entries.contains_key(#[trigger] listed[i])
                && !source.entries.contains_key(listed[i]),
    ensures
        ({
            let after = entries::all_missing(p, source, base, listed);
            &&& underway(after.db, dest, source, known, limit)
            &&& after.db.attachments.dom().len() <= size
            &&& after.db.custom_icons == p.db.custom_icons
            &&& after.error is None
            &&& forall|x: EntryId| #[trigger]
                after.db.entries.contains_key(x) ==> p.db.entries.contains_key(x)
            &&& forall|x: EntryId|
                !dest.entries.contains_key(x) ==> #[trigger] after.db.entries.contains_key(x)
                    == p.db.entries.contains_key(x)
            &&& forall|i: int|
                0 <= i < listed.len() ==> (#[trigger] after.db.entries.contains_key(listed[i])
                    ==> !rules::buried(
                    source.deleted_objects,
                    listed[i].0,
                    dest.entries[listed[i]].times.updated(),
                ))
            &&& forall|x: EntryId| #[trigger]
                p.db.entries.contains_key(x) && !after.db.entries.contains_key(x)
                    ==> listed.contains(x) && rules::buried(
                    source.deleted_objects,
                    x.0,
                    dest.entries[x].times.updated(),
                ) && after.db.deleted_objects.contains_key(x.0) && after.db.deleted_objects[x.0]
                    == source.deleted_objects[x.0]
            &&& forall|object: Uuid|
                !listed.contains(EntryId(object)) ==> (
                #[trigger] after.db.deleted_objects.contains_key(object)
                    == p.db.deleted_objects.contains_key(object)) && (
                p.db.deleted_objects.contains_key(object) ==> after.db.deleted_objects[object]
                    == p.db.deleted_objects[object])
            &&& after.db.deleted_objects.dom().finite() == p.db.deleted_objects.dom().finite()
        }),
    decreases listed.len(),
{
    if listed.len() > 0 {
        let shorter = listed.drop_last();
        let e = listed[listed.len() - 1];
        assert(dest.entries.contains_key(e));
        assert forall|i: int| 0 <= i < shorter.len() implies dest.entries.contains_key(
            #[trigger] shorter[i],
        ) && !source.entries.contains_key(shorter[i]) by {
            assert(shorter[i] == listed[i]);
            assert(dest.entries.contains_key(listed[i]));
        }
        lemma_missing(p, dest, source, base, known, shorter, size, limit);
        let before = entries::all_missing(p, source, base, shorter);
        let after = entries::all_missing(p, source, base, listed);
        lemma_missing_step(before, dest, source, base, known, e, size, limit);
        assert forall|x: EntryId| #[trigger]
            p.db.entries.contains_key(x) && !after.db.entries.contains_key(x) implies
            listed.contains(x) && rules::buried(
            source.deleted_objects,
            x.0,
            dest.entries[x].times.updated(),
        ) && after.db.deleted_objects.contains_key(x.0) && after.db.deleted_objects[x.0]
            == source.deleted_objects[x.0] by {
            if before.db.entries.contains_key(x) {
                assert(x == e);
                assert(listed[listed.len() - 1] == x);
            } else {
                assert(shorter.contains(x));
                let n = choose|n: int| 0 <= n < shorter.len() && shorter[n] == x;
                assert(listed[n] == x);
                assert(x != e);
                assert(after.db.deleted_objects.contains_key(x.0)
                    == before.db.deleted_objects.contains_key(x.0));
            }
        }
        assert forall|i: int|
            0 <= i < listed.len() && #[trigger] after.db.entries.contains_key(
                listed[i],
            ) implies !rules::buried(
            source.deleted_objects,
            listed[i].0,
            dest.entries[listed[i]].times.updated(),
        ) by {
            if i < shorter.len() {
                assert(shorter[i] == listed[i]);
                assert(before.db.entries.contains_key(shorter[i]));
            }
        }
        assert forall|object: Uuid| !listed.contains(EntryId(object)) implies (
        #[trigger] after.db.deleted_objects.contains_key(object)
            == p.db.deleted_objects.contains_key(object)) && (
        p.db.deleted_objects.contains_key(object) ==> after.db.deleted_objects[object]
            == p.db.deleted_objects[object]) by {
            if object == e.0 {
                assert(listed[listed.len() - 1] == EntryId(object));
            }
            if shorter.contains(EntryId(object)) {
                let n = choose|n: int| 0 <= n < shorter.len() && shorter[n] == EntryId(object);
                assert(listed[n] == EntryId(object));
            }
            assert(before.db.deleted_objects.contains_key(object)
                == p.db.deleted_objects.contains_key(object));
        }
    }
}

/// An entry that has no dangling references in a pool keeps its attachments in a larger one.
pub proof fn lemma_kept_in_larger(entry: EntryModel, pool: Pool, larger: Pool)
    requires
        entry.sound(pool),
        attachment::kept_in(pool, larger),
    ensures
        kept_for(entry, pool, larger),
{
    lemma_sound_kept(entry, pool);
    lemma_kept_further(entry, pool, pool, larger);
}

/// Entries with the same attachments and the same history use the same attachments.
pub proof fn lemma_same_uses(a: EntryModel, b: EntryModel, id: AttachmentId)
    requires
        a.attachments == b.attachments,
        a.history == b.history,
        a.uses(id),
    ensures
        b.uses(id),
{
    let index = choose|index: Option<int>| #[trigger]
        a.has_version(index) && references::refers(a.version(index).attachments, id);
    assert(b.has_version(index));
    assert(b.version(index).attachments == a.version(index).attachments);
}

/// The settling of the place of an entry that both sides have.
pub proof fn lemma_relocated(
    p: Progress,
    dest: DatabaseModel,
    source: DatabaseModel,
    known: Set<GroupId>,
    e: EntryId,
)
    requires
        p.error is None,
        gathering::bare(p.db).wf(),
        gathering::groups_from(p.db.groups, dest, source),
        p.db.groups.dom() == known,
        p.db.entries.contains_key(e),
        p.db.entries[e] == dest.entries[e],
    ensures
        ({
            let after = entries::entry_relocated(p, source, e);
            let there = relocated(dest.entries[e], source.entries[e], known);
            &&& after.error is None
            &&& after.db == (DatabaseModel {
                groups: after.db.groups,
                entries: p.db.entries.insert(e, there),
                ..p.db
            })
            &&& gathering::bare(after.db).wf()
            &&& gathering::groups_from(after.db.groups, dest, source)
            &&& after.db.groups.dom() == known
            &&& quiet::stays(there, source.entries[e], known)
        }),
{
    broadcast use Timestamp::numbers_decide;

    let after = entries::entry_relocated(p, source, e);
    let ours = p.db.entries[e];
    let theirs = source.entries[e];
    let there = relocated(ours, theirs, known);
    if quiet::stays(ours, theirs, known) {
        assert(after.db == p.db);
        assert(p.db.entries =~= p.db.entries.insert(e, there));
    } else {
        assert(p.db.groups.dom().contains(theirs.parent));
        assert(database::entry_placed(p.db.entries, p.db.groups, e));
        let moved = tree::entry_moved(p.db, e, theirs.parent);
        tree::lemma_entry_moved_wf(gathering::bare(p.db), e, theirs.parent);
        assert(gathering::bare(moved) =~= tree::entry_moved(
            gathering::bare(p.db),
            e,
            theirs.parent,
        ));
        entries::lemma_entry_changed_wf(gathering::bare(moved), e, there);
        assert(gathering::bare(after.db) =~= (DatabaseModel {
            entries: moved.entries.insert(e, there),
            ..gathering::bare(moved)
        }));
        assert(after.db.entries =~= p.db.entries.insert(e, there));
        assert(after.db.groups.dom() =~= p.db.groups.dom());
        gathering::lemma_places_kept(p.db.groups, after.db.groups, dest, source);
    }
}

/// What is underway with little room is underway with more.
pub proof fn lemma_more_room(
    db: DatabaseModel,
    dest: DatabaseModel,
    source: DatabaseModel,
    known: Set<GroupId>,
    size: nat,
    limit: nat,
)
    requires
        underway(db, dest, source, known, size),
        size + source.attachments.dom().len() <= limit,
        limit <= usize::MAX,
    ensures
        underway(db, dest, source, known, limit),
{
    remapping::lemma_room(db.attachments, source.attachments, limit);
}

/// The groups are gathered as described.
pub proof fn lemma_gathered(dest: DatabaseModel, source: DatabaseModel, base: DatabaseModel)
    requires
        dest.finite(),
        source.finite(),
        dest.wf(),
        source.wf(),
        merge::mergeable(dest, source, base),
    ensures
        ({
            let start = icons::icons_merged(dest, source, base);
            let after = gathered(dest, source, base);
            &&& after.error is None
            &&& after.db == (DatabaseModel { groups: after.db.groups, ..start })
            &&& gathering::bare(after.db).wf()
            &&& gathering::groups_from(after.db.groups, dest, source)
            &&& forall|g: GroupId| #[trigger]
                dest.groups.contains_key(g) ==> after.db.groups.contains_key(g)
            &&& forall|g: GroupId| #[trigger]
                source.groups.contains_key(g) && !after.db.groups.contains_key(g)
                    ==> !groups::group_revived(start.deleted_objects, source, g)
        }),
{
    let start = icons::icons_merged(dest, source, base);
    merging::lemma_icons_carry_on(dest, source, base);
    let p = entries::going(start, icons::icons_log(dest, source, base, LogModel::blank()));
    assert(gathering::bare(start).wf());
    assert(gathering::groups_from(start.groups, dest, source));
    let offered = order::ordered::<GroupId>(source.groups.dom().difference(start.groups.dom()));
    let logged = entries::going(
        start,
        groups::offers_logged(p.log, start.deleted_objects, source, base, offered),
    );
    let wanted = groups::groups_to_add(start, source);
    assert(wanted.subset_of(source.groups.dom()));
    vstd::set_lib::lemma_len_subset(wanted, source.groups.dom());
    let to_add = order::ordered::<GroupId>(wanted);
    order::lemma_ordered_lists::<GroupId>(wanted);
    assert forall|i: int| 0 <= i < to_add.len() implies source.groups.contains_key(
        #[trigger] to_add[i],
    ) && groups::connected(start.groups, source.groups, to_add[i]) by {
        assert(to_add.contains(to_add[i]));
        assert(wanted.contains(to_add[i]));
    }
    gathering::lemma_restored(logged, dest, source, to_add);
    let after = gathered(dest, source, base);
    assert forall|g: GroupId| #[trigger]
        source.groups.contains_key(g) && !after.db.groups.contains_key(g) implies
        !groups::group_revived(start.deleted_objects, source, g) by {
        if wanted.contains(g) {
            assert(to_add.contains(g));
            let n = choose|n: int| 0 <= n < to_add.len() && to_add[n] == g;
            assert(after.db.groups.contains_key(to_add[n]));
        }
    }
}

/// The verdict on an entry depends on its content, its data and its modification time.
pub proof fn lemma_same_verdict(
    a: EntryModel,
    a_pool: Pool,
    b: EntryModel,
    b_pool: Pool,
    time: Timestamp,
    source: DatabaseModel,
    base: DatabaseModel,
    e: EntryId,
)
    requires
        a.content() == b.content(),
        remap::resolved(a.attachments, a_pool) == remap::resolved(b.attachments, b_pool),
    ensures
        entries::verdict(
            a,
            a_pool,
            time,
            source.entries[e],
            source.attachments,
            source.entries[e].times.last_modification->0,
            base,
            e,
        ) == entries::verdict(
            b,
            b_pool,
            time,
            source.entries[e],
            source.attachments,
            source.entries[e].times.last_modification->0,
            base,
            e,
        ),
{
}

} // verus!
