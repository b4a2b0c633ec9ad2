//! What becomes of names and data when a pool is compacted, and when entries are carried over into
//! another pool.

use vstd::prelude::*;
use crate::attachment::Pool;
use crate::compaction;
use crate::database::DatabaseModel;
use crate::entry::EntryModel;
use crate::ids::AttachmentId;
use crate::ids::EntryId;
use crate::laws::compaction as compaction_laws;
use crate::laws::remapping;
use crate::laws::upkeep;
use crate::order;
use crate::order::Key;
use crate::references;
use crate::remap;
use crate::remap::Names;

verus! {

/// Whether names stand for what others did: each of the others that does not dangle is there, no
/// other is, none dangles, and each stands for the same data.
pub open spec fn carried_names(after: Names, pool: Pool, before: Names, source: Pool) -> bool {
    forall|name: Seq<char>|
        {
            &&& #[trigger] after.contains_key(name) == (before.contains_key(name)
                && source.contains_key(before[name]))
            &&& after.contains_key(name) ==> pool.contains_key(after[name])
                && pool[after[name]].data == source[before[name]].data
        }
}

/// What was carried over faithfully stands for the same data, and the other way round.
pub proof fn faithful_names_stand_for_the_same_data(
    before: Names,
    source: Pool,
    after: Names,
    pool: Pool,
)
    ensures
        remap::faithful(before, source, after, pool) <==> carried_names(
            after,
            pool,
            before,
            source,
        ),
{
    let found = remap::resolved(after, pool);
    let wanted = remap::without_dangling(remap::resolved(before, source));
    if remap::faithful(before, source, after, pool) {
        assert forall|name: Seq<char>|
            {
                &&& #[trigger] after.contains_key(name) == (before.contains_key(name)
                    && source.contains_key(before[name]))
                &&& after.contains_key(name) ==> pool.contains_key(after[name])
                    && pool[after[name]].data == source[before[name]].data
            } by {
            assert(found.contains_key(name) == after.contains_key(name));
            assert(wanted.contains_key(name) == (before.contains_key(name)
                && source.contains_key(before[name])));
            if after.contains_key(name) {
                assert(found[name] == wanted[name]);
            }
        }
    }
    if carried_names(after, pool, before, source) {
        assert forall|name: Seq<char>| found.contains_key(name) == #[trigger] wanted.contains_key(
            name,
        ) by {
            assert(after.contains_key(name) == (before.contains_key(name) && source.contains_key(
                before[name],
            )));
        }
        assert forall|name: Seq<char>| #[trigger] found.contains_key(name) implies found[name]
            == wanted[name] by {
            assert(after.contains_key(name));
        }
        assert(found =~= wanted);
    }
}

/// Compaction changes of an entry nothing but the identifiers of attachments: each name that does
/// not dangle stands for the same data as before, in every version, and no other name is there.
pub proof fn compaction_keeps_the_data(db: DatabaseModel, e: EntryId, i: int)
    requires
        compaction_laws::storable(db),
        db.entries.contains_key(e),
    ensures
        ({
            let after = compaction::compacted(db);
            let ours = db.entries[e];
            let entry = after.entries[e];
            &&& after.entries.dom() =~= db.entries.dom()
            &&& carried_names(
                entry.attachments,
                after.attachments,
                ours.attachments,
                db.attachments,
            )
            &&& entry.id == ours.id
            &&& entry.parent == ours.parent
            &&& entry.fields == ours.fields
            &&& entry.autotype == ours.autotype
            &&& entry.tags == ours.tags
            &&& entry.times == ours.times
            &&& entry.custom_data == ours.custom_data
            &&& entry.icon == ours.icon
            &&& entry.foreground_color == ours.foreground_color
            &&& entry.background_color == ours.background_color
            &&& entry.override_url == ours.override_url
            &&& entry.quality_check == ours.quality_check
            &&& entry.previous_parent_group == ours.previous_parent_group
            &&& entry.history is Some == ours.history is Some
            &&& ours.history is Some ==> {
                &&& entry.history->0.len() == ours.history->0.len()
                &&& 0 <= i < ours.history->0.len() ==> {
                    let version = entry.history->0[i];
                    let before = ours.history->0[i];
                    &&& carried_names(
                        version.attachments,
                        after.attachments,
                        before.attachments,
                        db.attachments,
                    )
                    &&& version.id == before.id
                    &&& version.parent == before.parent
                    &&& version.fields == before.fields
                    &&& version.autotype == before.autotype
                    &&& version.tags == before.tags
                    &&& version.times == before.times
                    &&& version.custom_data == before.custom_data
                    &&& version.icon == before.icon
                    &&& version.foreground_color == before.foreground_color
                    &&& version.background_color == before.background_color
                    &&& version.override_url == before.override_url
                    &&& version.quality_check == before.quality_check
                    &&& version.previous_parent_group == before.previous_parent_group
                    &&& version.history == before.history
                }
            }
            &&& after.config == db.config
            &&& after.meta == db.meta
            &&& after.root == db.root
            &&& after.custom_icons == db.custom_icons
            &&& after.groups == db.groups
            &&& after.deleted_objects == db.deleted_objects
        }),
{
    compaction_laws::compaction_is_faithful(db, e);
    let after = compaction::compacted(db);
    let ours = db.entries[e];
    let entry = after.entries[e];
    faithful_names_stand_for_the_same_data(
        ours.attachments,
        db.attachments,
        entry.attachments,
        after.attachments,
    );
    if ours.history is Some && 0 <= i < ours.history->0.len() {
        assert(remap::faithful(
            ours.history->0[i].attachments,
            db.attachments,
            entry.history->0[i].attachments,
            after.attachments,
        ));
        faithful_names_stand_for_the_same_data(
            ours.history->0[i].attachments,
            db.attachments,
            entry.history->0[i].attachments,
            after.attachments,
        );
    }
}

/// After compaction each attachment of the pool is in use, and the identifiers below one that is
/// taken are taken.
pub proof fn compaction_leaves_no_gaps(db: DatabaseModel, a: AttachmentId, lesser: AttachmentId)
    requires
        compaction_laws::storable(db),
        compaction::compacted(db).attachments.contains_key(a),
    ensures
        ({
            let after = compaction::compacted(db);
            &&& after.attachments[a].id == a
            &&& exists|e: EntryId| #[trigger]
                after.entries.contains_key(e) && upkeep::has_name_for(after.entries[e], a)
            &&& lesser.0 <= a.0 ==> after.attachments.contains_key(lesser)
        }),
{
    let after = compaction::compacted(db);
    compaction_laws::compacted_pool_is_dense(db, a);
    compaction_laws::compacted_pool_is_dense(db, lesser);
    let e = choose|e: EntryId| #[trigger] after.entries.contains_key(e) && after.entries[e].uses(a);
    assert(after.entries.contains_key(e));
    upkeep::use_is_a_name_in_some_version(after, e, a);
}

/// Compaction keeps the order of the identifiers: of two names, in the live versions of any two
/// entries, the one for the lesser identifier stands for the lesser one afterwards, and names for
/// one attachment stand for one attachment.
pub proof fn compaction_keeps_the_order(
    db: DatabaseModel,
    e: EntryId,
    name: Seq<char>,
    other: EntryId,
    other_name: Seq<char>,
)
    requires
        compaction_laws::storable(db),
        db.entries.contains_key(e),
        db.entries.contains_key(other),
        db.entries[e].attachments.contains_key(name),
        db.entries[other].attachments.contains_key(other_name),
        db.attachments.contains_key(db.entries[e].attachments[name]),
        db.attachments.contains_key(db.entries[other].attachments[other_name]),
    ensures
        ({
            let after = compaction::compacted(db);
            let a = db.entries[e].attachments[name];
            let b = db.entries[other].attachments[other_name];
            let new_a = after.entries[e].attachments[name];
            let new_b = after.entries[other].attachments[other_name];
            &&& after.entries[e].attachments.contains_key(name)
            &&& after.entries[other].attachments.contains_key(other_name)
            &&& a.0 < b.0 <==> new_a.0 < new_b.0
            &&& a == b <==> new_a == new_b
        }),
{
    compaction_laws::lemma_retained(db);
    let a = db.entries[e].attachments[name];
    let b = db.entries[other].attachments[other_name];
    let live: Option<int> = None;
    assert(db.entries[e].has_version(live) && references::refers(
        db.entries[e].version(live).attachments,
        a,
    ));
    assert(db.entries[other].has_version(live) && references::refers(
        db.entries[other].version(live).attachments,
        b,
    ));
    assert(db.entries[e].uses(a));
    assert(db.entries[other].uses(b));
    assert(compaction::retained(db).contains(a));
    assert(compaction::retained(db).contains(b));
    let listing = compaction::retained_in_order(db);
    let new_a = compaction::compaction_remap(db)[a];
    let new_b = compaction::compaction_remap(db)[b];
    assert(listing[new_a.0 as int] == a);
    assert(listing[new_b.0 as int] == b);
}

/// What a pool has more once names were carried over is what one of them stands for.
proof fn lemma_nothing_else(names: Names, source: Pool, pool: Pool, listed: Seq<Seq<char>>)
    requires
        listed.no_duplicates(),
    ensures
        ({
            let (after, larger) = remap::carried(names, source, pool, listed);
            &&& forall|name: Seq<char>| #[trigger]
                after.contains_key(name) ==> listed.contains(name)
            &&& forall|a: AttachmentId| #[trigger]
                larger.contains_key(a) && !pool.contains_key(a) ==> exists|name: Seq<char>|
                    #[trigger] after.contains_key(name) && after[name] == a
        }),
    decreases listed.len(),
{
    if listed.len() > 0 {
        let shorter = listed.drop_last();
        let last = listed.last();
        lemma_nothing_else(names, source, pool, shorter);
        let (done, before) = remap::carried(names, source, pool, shorter);
        let (after, larger) = remap::carried(names, source, pool, listed);
        assert(!shorter.contains(last)) by {
            if shorter.contains(last) {
                let n = choose|n: int| 0 <= n < shorter.len() && shorter[n] == last;
                assert(listed[n] == listed[listed.len() - 1]);
            }
        }
        assert forall|name: Seq<char>| #[trigger] after.contains_key(name) implies listed.contains(
            name,
        ) by {
            if name == last {
                assert(listed[listed.len() - 1] == name);
            } else {
                assert(done.contains_key(name));
                let n = choose|n: int| 0 <= n < shorter.len() && shorter[n] == name;
                assert(listed[n] == name);
            }
        }
        assert forall|a: AttachmentId| #[trigger]
            larger.contains_key(a) && !pool.contains_key(a) implies exists|name: Seq<char>|
            #[trigger] after.contains_key(name) && after[name] == a by {
            if before.contains_key(a) {
                let name = choose|name: Seq<char>| #[trigger]
                    done.contains_key(name) && done[name] == a;
                assert(shorter.contains(name));
                assert(after.contains_key(name) && after[name] == a);
            } else {
                assert(after.contains_key(last) && after[last] == a);
            }
        }
    }
}

/// Names that are carried over into another pool stand for the same data there; the pool keeps all
/// that it had, and what it has more is what one of the names stands for, data that the pool
/// lacked, each under one identifier.
pub proof fn carrying_names_over_keeps_the_data(
    names: Names,
    source: Pool,
    pool: Pool,
    limit: nat,
    a: AttachmentId,
    b: AttachmentId,
)
    requires
        remapping::room(pool, source, limit),
        names.dom().finite(),
    ensures
        ({
            let (after, larger) = remap::names_remapped(names, source, pool);
            &&& carried_names(after, larger, names, source)
            &&& larger.contains_key(a) && !pool.contains_key(a) ==> exists|name: Seq<char>|
                #[trigger] after.contains_key(name) && after[name] == a
            &&& pool.contains_key(a) ==> larger.contains_key(a) && larger[a] == pool[a]
            &&& larger.contains_key(a) && larger.contains_key(b) && a != b && larger[a].data
                == larger[b].data ==> pool.contains_key(a) && pool.contains_key(b)
        }),
{
    remapping::remapping_names_is_faithful(names, source, pool, limit);
    let listing = order::ordered::<String>(names.dom());
    order::lemma_ordered_lists::<String>(names.dom());
    order::lemma_increasing_no_duplicates::<String>(listing);
    lemma_nothing_else(names, source, pool, listing);
    let (after, larger) = remap::names_remapped(names, source, pool);
    faithful_names_stand_for_the_same_data(names, source, after, larger);
}

/// An entry that is carried over into another pool changes in nothing but the identifiers of its
/// attachments, in every version.
pub proof fn carrying_an_entry_over_keeps_the_data(
    entry: EntryModel,
    source: Pool,
    pool: Pool,
    limit: nat,
    i: int,
    a: AttachmentId,
    b: AttachmentId,
)
    requires
        remapping::room(pool, source, limit),
        remapping::finite_names(entry),
    ensures
        ({
            let (after, larger) = remap::entry_remapped(entry, source, pool);
            &&& carried_names(after.attachments, larger, entry.attachments, source)
            &&& after.id == entry.id
            &&& after.parent == entry.parent
            &&& after.fields == entry.fields
            &&& after.autotype == entry.autotype
            &&& after.tags == entry.tags
            &&& after.times == entry.times
            &&& after.custom_data == entry.custom_data
            &&& after.icon == entry.icon
            &&& after.foreground_color == entry.foreground_color
            &&& after.background_color == entry.background_color
            &&& after.override_url == entry.override_url
            &&& after.quality_check == entry.quality_check
            &&& after.previous_parent_group == entry.previous_parent_group
            &&& after.history is Some == entry.history is Some
            &&& entry.history is Some ==> {
                &&& after.history->0.len() == entry.history->0.len()
                &&& 0 <= i < entry.history->0.len() ==> {
                    let version = after.history->0[i];
                    let before = entry.history->0[i];
                    &&& carried_names(version.attachments, larger, before.attachments, source)
                    &&& version.id == before.id
                    &&& version.parent == before.parent
                    &&& version.fields == before.fields
                    &&& version.autotype == before.autotype
                    &&& version.tags == before.tags
                    &&& version.times == before.times
                    &&& version.custom_data == before.custom_data
                    &&& version.icon == before.icon
                    &&& version.foreground_color == before.foreground_color
                    &&& version.background_color == before.background_color
                    &&& version.override_url == before.override_url
                    &&& version.quality_check == before.quality_check
                    &&& version.previous_parent_group == before.previous_parent_group
                    &&& version.history == before.history
                }
            }
            &&& pool.contains_key(a) ==> larger.contains_key(a) && larger[a] == pool[a]
            &&& larger.contains_key(a) && larger.contains_key(b) && a != b && larger[a].data
                == larger[b].data ==> pool.contains_key(a) && pool.contains_key(b)
        }),
{
    remapping::remapping_is_faithful(entry, source, pool, limit);
    let (after, larger) = remap::entry_remapped(entry, source, pool);
    faithful_names_stand_for_the_same_data(
        entry.attachments,
        source,
        after.attachments,
        larger,
    );
    if entry.history is Some && 0 <= i < entry.history->0.len() {
        assert(remap::faithful(
            entry.history->0[i].attachments,
            source,
            after.history->0[i].attachments,
            larger,
        ));
        faithful_names_stand_for_the_same_data(
            entry.history->0[i].attachments,
            source,
            after.history->0[i].attachments,
            larger,
        );
    }
}

/// In a listing of identifiers without gaps each stands at its own number.
proof fn lemma_dense(listing: Seq<AttachmentId>, i: int)
    requires
        order::increasing::<AttachmentId>(listing),
        forall|a: AttachmentId, lesser: AttachmentId|
            lesser.0 < a.0 && #[trigger] listing.contains(a) ==> #[trigger] listing.contains(
                lesser,
            ),
        0 <= i < listing.len(),
    ensures
        listing[i].0 == i,
    decreases i,
{
    if i > 0 {
        lemma_dense(listing, i - 1);
        assert(AttachmentId::precedes(listing[i - 1], listing[i]));
    }
    assert(listing.contains(listing[i]));
    if listing[i].0 > i {
        let missing = AttachmentId(i as usize);
        assert(listing.contains(missing));
        let n = choose|n: int| 0 <= n < listing.len() && listing[n] == missing;
        if n < i {
            lemma_dense(listing, n);
        } else if n > i {
            assert(AttachmentId::precedes(listing[i], listing[n]));
        }
    }
}

/// Compaction is needed exactly if the pool has an attachment that no version of an entry has a
/// name for, or if an identifier below one that is taken is free.
pub proof fn compaction_is_needed_for_waste_and_gaps(db: DatabaseModel)
    requires
        compaction_laws::storable(db),
        db.wf(),
    ensures
        !compaction::needs_compaction(db) <==> {
            &&& forall|a: AttachmentId| #[trigger]
                db.attachments.contains_key(a) ==> exists|e: EntryId| #[trigger]
                    db.entries.contains_key(e) && upkeep::has_name_for(db.entries[e], a)
            &&& forall|a: AttachmentId, lesser: AttachmentId|
                lesser.0 < a.0 && #[trigger] db.attachments.contains_key(a)
                    ==> #[trigger] db.attachments.contains_key(lesser)
        },
{
    assert forall|a: AttachmentId| #[trigger] references::used(db.entries, a) == (exists|
        e: EntryId,
    | #[trigger] db.entries.contains_key(e) && upkeep::has_name_for(db.entries[e], a)) by {
        let e = arbitrary::<EntryId>();
        upkeep::use_is_a_name_in_some_version(db, e, a);
    }
    if !compaction::needs_compaction(db) {
        compaction_laws::compaction_is_needed_to_change_the_pool(db);
        assert forall|a: AttachmentId| #[trigger] db.attachments.contains_key(a) implies exists|
            e: EntryId,
        | #[trigger] db.entries.contains_key(e) && upkeep::has_name_for(db.entries[e], a) by {
            assert(references::used(db.entries, a));
        }
        assert forall|a: AttachmentId, lesser: AttachmentId|
            lesser.0 < a.0 && #[trigger] db.attachments.contains_key(a) implies
            #[trigger] db.attachments.contains_key(lesser) by {
            compaction_leaves_no_gaps(db, a, lesser);
        }
    }
    if {
        &&& forall|a: AttachmentId| #[trigger]
            db.attachments.contains_key(a) ==> exists|e: EntryId| #[trigger]
                db.entries.contains_key(e) && upkeep::has_name_for(db.entries[e], a)
        &&& forall|a: AttachmentId, lesser: AttachmentId|
            lesser.0 < a.0 && #[trigger] db.attachments.contains_key(a)
                ==> #[trigger] db.attachments.contains_key(lesser)
    } {
        compaction_laws::lemma_retained(db);
        let listing = compaction::retained_in_order(db);
        assert forall|a: AttachmentId| #[trigger] listing.contains(a)
            <==> db.attachments.contains_key(a) by {
            if db.attachments.contains_key(a) {
                assert(references::used(db.entries, a));
                assert(compaction::retained(db).contains(a));
            }
            if listing.contains(a) {
                assert(compaction::retained(db).contains(a));
            }
        }
        assert forall|a: AttachmentId| #[trigger] compaction::retained(db).contains(a) implies
            compaction::compaction_remap(db)[a] == a by {
            let n = compaction::compaction_remap(db)[a].0 as int;
            assert(listing[n] == a);
            lemma_dense(listing, n);
        }
        assert forall|a: AttachmentId| #[trigger] db.attachments.contains_key(a) implies
            references::used(db.entries, a) by {}
    }
}

} // verus!
