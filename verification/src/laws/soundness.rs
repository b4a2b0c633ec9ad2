//! What keeps references to attachments from dangling.

use vstd::prelude::*;
use crate::attachment;
use crate::attachment::AttachmentModel;
use crate::attachment::Pool;
use crate::compaction;
use crate::database::DatabaseModel;
use crate::entry;
use crate::entry::EntryModel;
use crate::handles;
use crate::handles::entry as entry_handles;
use crate::ids::AttachmentId;
use crate::ids::EntryId;
use crate::ids::GroupId;
use crate::laws::compaction as compaction_laws;
use crate::merge::entries;
use crate::purge;
use crate::references;
use crate::references::Referent;
use crate::references::VersionModel;
use crate::remap;
use crate::remap::Names;
use crate::removal;
use crate::value::Value;

verus! {

/// References that do not dangle do not dangle in a larger pool.
pub proof fn lemma_sound_extended(entry: EntryModel, pool: Pool, larger: Pool)
    requires
        entry.sound(pool),
        attachment::kept_in(pool, larger),
    ensures
        entry.sound(larger),
{
    assert forall|index: Option<int>| #[trigger] entry.has_version(index) implies
        references::resolves(entry.version(index).attachments, larger) by {
        let names = entry.version(index).attachments;
        assert(references::resolves(names, pool));
        assert forall|name: Seq<char>| #[trigger] names.contains_key(name) implies
            larger.contains_key(names[name]) by {
            assert(pool.contains_key(names[name]));
        }
    }
}

/// References that were carried over faithfully do not dangle.
pub proof fn lemma_faithful_resolves(before: Names, source: Pool, after: Names, pool: Pool)
    requires
        remap::faithful(before, source, after, pool),
    ensures
        references::resolves(after, pool),
{
    let target = remap::without_dangling(remap::resolved(before, source));
    assert forall|name: Seq<char>| #[trigger] after.contains_key(name) implies pool.contains_key(
        after[name],
    ) by {
        assert(remap::resolved(after, pool).contains_key(name));
        assert(target.contains_key(name));
        assert(remap::resolved(after, pool)[name] is Some);
    }
}

/// An entry that was carried over faithfully has no dangling reference.
pub proof fn lemma_faithful_sound(
    before: EntryModel,
    source: Pool,
    after: EntryModel,
    pool: Pool,
)
    requires
        remap::entry_faithful(before, source, after, pool),
    ensures
        after.sound(pool),
{
    assert forall|index: Option<int>| #[trigger] after.has_version(index) implies
        references::resolves(after.version(index).attachments, pool) by {
        match index {
            None => {
                lemma_faithful_resolves(before.attachments, source, after.attachments, pool);
            },
            Some(i) => {
                let version = after.history->0[i];
                assert(before.history is Some);
                lemma_faithful_resolves(
                    before.history->0[i].attachments,
                    source,
                    version.attachments,
                    pool,
                );
            },
        }
    }
}

/// An entry all of whose versions have no dangling reference has none.
pub proof fn lemma_sound_from_versions(entry: EntryModel, pool: Pool)
    requires
        references::resolves(entry.attachments, pool),
        entry.history matches Some(versions) ==> forall|i: int|
            0 <= i < versions.len() ==> references::resolves(
                #[trigger] versions[i].attachments,
                pool,
            ),
    ensures
        entry.sound(pool),
{
    assert forall|index: Option<int>| #[trigger] entry.has_version(index) implies
        references::resolves(entry.version(index).attachments, pool) by {
        if let Some(i) = index {
            assert(references::resolves(entry.history->0[i].attachments, pool));
        }
    }
}

/// The versions of an entry without dangling references have none.
pub proof fn lemma_sound_versions(entry: EntryModel, pool: Pool)
    requires
        entry.sound(pool),
    ensures
        references::resolves(entry.attachments, pool),
        entry.history matches Some(versions) ==> forall|i: int|
            0 <= i < versions.len() ==> references::resolves(
                #[trigger] versions[i].attachments,
                pool,
            ),
{
    let live: Option<int> = None;
    assert(entry.has_version(live) && entry.version(live) == entry);
    if let Some(versions) = entry.history {
        assert forall|i: int| 0 <= i < versions.len() implies references::resolves(
            #[trigger] versions[i].attachments,
            pool,
        ) by {
            assert(entry.has_version(Some(i)) && entry.version(Some(i)) == versions[i]);
        }
    }
}

/// An attachment is in use exactly if some version refers to it.
pub proof fn used_attachment_has_referrers(db: DatabaseModel, a: AttachmentId)
    ensures
        references::used(db.entries, a) <==> exists|v: VersionModel| #[trigger]
            db.referrers(Referent::Attachment(a), true).contains(v),
{
    let all = db.referrers(Referent::Attachment(a), true);
    if references::used(db.entries, a) {
        let e = choose|e: EntryId| #[trigger] db.entries.contains_key(e) && db.entries[e].uses(a);
        let index = choose|index: Option<int>| #[trigger]
            db.entries[e].has_version(index) && references::refers(db.entries[e].version(index).attachments, a);
        assert(all.contains(VersionModel { entry: e, index }));
    }
    if exists|v: VersionModel| #[trigger] all.contains(v) {
        let v = choose|v: VersionModel| #[trigger] all.contains(v);
        assert(db.entries.contains_key(v.entry));
        assert(db.entries[v.entry].has_version(v.index));
        assert(db.entries[v.entry].uses(a));
    }
}

/// The removal of entries, with the attachments that only they referred to, leaves no dangling
/// reference.
pub proof fn removal_is_sound(db: DatabaseModel, gone: Set<EntryId>)
    requires
        db.sound(),
    ensures
        removal::entries_removed(db, gone).sound(),
{
    let after = removal::entries_removed(db, gone);
    assert forall|e: EntryId| #[trigger] after.entries.contains_key(e) implies after.entries[e].sound(
        after.attachments,
    ) by {
        let entry = db.entries[e];
        assert(entry.sound(db.attachments));
        assert forall|index: Option<int>| #[trigger] entry.has_version(index) implies
            references::resolves(entry.version(index).attachments, after.attachments) by {
            let names = entry.version(index).attachments;
            assert(references::resolves(names, db.attachments));
            assert forall|name: Seq<char>| #[trigger] names.contains_key(name) implies
                after.attachments.contains_key(names[name]) by {
                assert(references::refers(names, names[name]));
                assert(entry.uses(names[name]));
                assert(references::used(after.entries, names[name]));
            }
        }
    }
}

/// The attachments that only the removed entries referred to are gone after the removal of
/// entries, and all others are kept as they are.
pub proof fn removal_collects_orphans(db: DatabaseModel, gone: Set<EntryId>, a: AttachmentId)
    requires
        db.attachments.contains_key(a),
    ensures
        removal::entries_removed(db, gone).attachments.contains_key(a) <==> references::used(
            db.entries.remove_keys(gone),
            a,
        ) || !references::used(db.entries.restrict(gone), a),
        removal::entries_removed(db, gone).attachments.contains_key(a)
            ==> removal::entries_removed(db, gone).attachments[a] == db.attachments[a],
{
}

/// The removal of a group leaves no dangling reference.
pub proof fn group_removal_is_sound(db: DatabaseModel, g: GroupId)
    requires
        db.sound(),
    ensures
        removal::group_removed(db, g).sound(),
{
    removal_is_sound(db, removal::entries_below(db, g));
}

/// After compaction no reference dangles, whatever there was before.
pub proof fn compaction_is_sound(db: DatabaseModel)
    requires
        compaction_laws::storable(db),
    ensures
        compaction::compacted(db).sound(),
{
    let after = compaction::compacted(db);
    assert forall|e: EntryId| #[trigger] after.entries.contains_key(e) implies after.entries[e].sound(
        after.attachments,
    ) by {
        compaction_laws::compaction_is_faithful(db, e);
        lemma_faithful_sound(db.entries[e], db.attachments, after.entries[e], after.attachments);
    }
}

/// The removal of an attachment with all references to it leaves no dangling reference.
pub proof fn attachment_removal_is_sound(db: DatabaseModel, a: AttachmentId)
    requires
        db.sound(),
    ensures
        purge::attachment_purged(db, a).sound(),
{
    let after = purge::attachment_purged(db, a);
    assert forall|e: EntryId| #[trigger] after.entries.contains_key(e) implies after.entries[e].sound(
        after.attachments,
    ) by {
        let entry = db.entries[e];
        assert(entry.sound(db.attachments));
        assert forall|index: Option<int>| #[trigger] after.entries[e].has_version(index) implies
            references::resolves(
            after.entries[e].version(index).attachments,
            after.attachments,
        ) by {
            assert(entry.has_version(index));
            assert(references::resolves(entry.version(index).attachments, db.attachments));
            let names = after.entries[e].version(index).attachments;
            assert forall|name: Seq<char>| #[trigger] names.contains_key(name) implies
                after.attachments.contains_key(names[name]) by {
                assert(entry.version(index).attachments.contains_key(name));
            }
        }
    }
}

/// A version whose references do not dangle can replace another.
pub proof fn lemma_version_changed_sound(
    db: DatabaseModel,
    v: VersionModel,
    version: EntryModel,
    pool: Pool,
)
    requires
        db.has_version(v),
        db.sound(),
        attachment::kept_in(db.attachments, pool),
        references::resolves(version.attachments, pool),
        v.index is None ==> version.history == db.version(v).history,
    ensures
        handles::version_changed(DatabaseModel { attachments: pool, ..db }, v, version).sound(),
{
    let after = handles::version_changed(DatabaseModel { attachments: pool, ..db }, v, version);
    assert forall|e: EntryId| #[trigger] after.entries.contains_key(e) implies after.entries[e].sound(
        pool,
    ) by {
        assert(db.entries.contains_key(e));
        lemma_sound_extended(db.entries[e], db.attachments, pool);
        if e == v.entry {
            lemma_sound_versions(db.entries[e], pool);
            lemma_sound_from_versions(after.entries[e], pool);
        }
    }
}

/// The least free identifier is referred to by no version, as long as no reference dangles: a new
/// attachment never shows up under an old name.
pub proof fn new_identifier_is_unreferenced(db: DatabaseModel)
    requires
        db.sound(),
        !db.attachments.contains_key(attachment::least_free(db.attachments)),
    ensures
        !references::used(db.entries, attachment::least_free(db.attachments)),
{
    let id = attachment::least_free(db.attachments);
    if references::used(db.entries, id) {
        let e = choose|e: EntryId| #[trigger] db.entries.contains_key(e) && db.entries[e].uses(id);
        let index = choose|index: Option<int>| #[trigger]
            db.entries[e].has_version(index) && references::refers(
                db.entries[e].version(index).attachments,
                id,
            );
        let names = db.entries[e].version(index).attachments;
        let name = choose|name: Seq<char>| #[trigger]
            names.contains_key(name) && names[name] == id;
        assert(references::resolves(names, db.attachments));
        assert(db.attachments.contains_key(names[name]));
    }
}

/// Adding an attachment leaves no dangling reference, and every other version stands for the same
/// data as before.
pub proof fn adding_attachment_is_sound(
    db: DatabaseModel,
    v: VersionModel,
    name: Seq<char>,
    data: Value<Seq<u8>>,
)
    requires
        db.sound(),
        db.has_version(v),
        !db.attachments.contains_key(attachment::least_free(db.attachments)),
    ensures
        entry_handles::attachment_added(db, v, name, data).sound(),
        forall|other: VersionModel|
            other != v && #[trigger] db.has_version(other) ==> {
                let after = entry_handles::attachment_added(db, v, name, data);
                &&& after.has_version(other)
                &&& remap::resolved(after.version(other).attachments, after.attachments)
                    == remap::resolved(db.version(other).attachments, db.attachments)
            },
        ({
            let after = entry_handles::attachment_added(db, v, name, data);
            &&& after.version(v).attachments.contains_key(name)
            &&& after.attachments.contains_key(after.version(v).attachments[name])
            &&& after.attachments[after.version(v).attachments[name]].data == data
        }),
{
    let id = attachment::least_free(db.attachments);
    let pool = db.attachments.insert(id, AttachmentModel { id, data });
    let version = db.version(v);
    let after = entry_handles::attachment_added(db, v, name, data);
    let names = after.version(v).attachments;
    assert(db.entries[v.entry].sound(db.attachments));
    assert(references::resolves(version.attachments, db.attachments));
    if version.attachments.contains_key(name) {
        assert(db.attachments.contains_key(version.attachments[name]));
    }
    assert forall|n: Seq<char>| #[trigger] names.contains_key(n) implies pool.contains_key(
        names[n],
    ) by {
        if n != name {
            assert(version.attachments.contains_key(n));
        }
    }
    lemma_version_changed_sound(db, v, EntryModel { attachments: names, ..version }, pool);
    assert forall|other: VersionModel| other != v && #[trigger] db.has_version(other) implies {
        &&& after.has_version(other)
        &&& remap::resolved(after.version(other).attachments, after.attachments)
            == remap::resolved(db.version(other).attachments, db.attachments)
    } by {
        let theirs = db.version(other).attachments;
        assert(after.version(other).attachments == theirs);
        assert(db.entries[other.entry].sound(db.attachments));
        assert(db.entries[other.entry].has_version(other.index));
        assert(references::resolves(theirs, db.attachments));
        assert(remap::resolved(theirs, pool) =~= remap::resolved(theirs, db.attachments)) by {
            assert forall|n: Seq<char>| #[trigger] theirs.contains_key(n) implies
                db.attachments.contains_key(theirs[n]) && theirs[n] != id by {}
        }
    }
}

/// Removing an attachment from one version changes no other version, and takes nothing out of the
/// pool.
pub proof fn removing_name_leaves_other_versions(
    db: DatabaseModel,
    v: VersionModel,
    name: Seq<char>,
    other: VersionModel,
)
    requires
        db.has_version(v),
        db.has_version(other),
        other != v,
    ensures
        ({
            let after = handles::version_changed(
                db,
                v,
                EntryModel {
                    attachments: db.version(v).attachments.remove(name),
                    ..db.version(v)
                },
            );
            &&& after.attachments == db.attachments
            &&& after.has_version(other)
            &&& after.version(other).attachments == db.version(other).attachments
        }),
{
}

/// Clearing the icon of one version changes no other version, and takes no icon out of the
/// database.
pub proof fn clearing_icon_leaves_other_versions(
    db: DatabaseModel,
    v: VersionModel,
    other: VersionModel,
)
    requires
        db.has_version(v),
        db.has_version(other),
        other != v,
    ensures
        ({
            let after = handles::version_changed(
                db,
                v,
                entry_handles::with_icon(db.version(v), None),
            );
            &&& after.custom_icons == db.custom_icons
            &&& after.has_version(other)
            &&& after.version(other).icon == db.version(other).icon
        }),
{
}

/// When the tracking of changes ends, what the entry was before is its latest historical version,
/// and every earlier version moves up by one.
pub proof fn tracking_shifts_versions(
    db: DatabaseModel,
    id: EntryId,
    historical: EntryModel,
    i: int,
)
    requires
        db.entries.contains_key(id),
        db.entries[id].has_version(Some(i)),
    ensures
        ({
            let after = entry_handles::tracking_finished(db, id, historical).entries[id];
            &&& after.has_version(Some(0int))
            &&& after.version(Some(0int)) == historical.without_history()
            &&& after.has_version(Some(i + 1))
            &&& after.version(Some(i + 1)) == db.entries[id].version(Some(i))
        }),
{
    let versions = entries::versions_or_none(db.entries[id].history);
    let longer = entry::with_version(versions, historical);
    assert(longer[0] == historical.without_history());
    assert(longer[i + 1] == versions[i]);
}

} // verus!
