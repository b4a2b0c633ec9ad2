//! What holds of the compaction of the attachment pool.

use vstd::prelude::*;
use crate::attachment::AttachmentModel;
use crate::compaction;
use crate::database::DatabaseModel;
use crate::entry::EntryModel;
use crate::ids::AttachmentId;
use crate::ids::EntryId;
use crate::order;
use crate::references;
use crate::remap;

verus! {

/// Whether the pool is one that can be stored: it is finite, and its size can be counted.
pub open spec fn storable(db: DatabaseModel) -> bool {
    db.attachments.dom().finite() && db.attachments.dom().len() <= usize::MAX
}

/// The listing of what compaction keeps is in order and complete.
pub proof fn lemma_retained(db: DatabaseModel)
    requires
        storable(db),
    ensures
        order::lists::<AttachmentId>(compaction::retained_in_order(db), compaction::retained(db)),
        compaction::retained_in_order(db).len() <= usize::MAX,
        forall|a: AttachmentId| #[trigger]
            compaction::retained(db).contains(a) ==> {
                let new_id = compaction::compaction_remap(db)[a];
                &&& new_id.0 < compaction::retained_in_order(db).len()
                &&& compaction::retained_in_order(db)[new_id.0 as int] == a
            },
        forall|i: int|
            0 <= i < compaction::retained_in_order(db).len() ==> {
                let a = #[trigger] compaction::retained_in_order(db)[i];
                &&& compaction::retained(db).contains(a)
                &&& compaction::compaction_remap(db)[a] == AttachmentId(i as usize)
            },
{
    let kept = compaction::retained(db);
    let listing = compaction::retained_in_order(db);
    assert(kept.subset_of(db.attachments.dom()));
    vstd::set_lib::lemma_len_subset(kept, db.attachments.dom());
    order::lemma_ordered_lists::<AttachmentId>(kept);
    order::lemma_increasing_no_duplicates::<AttachmentId>(listing);
    assert forall|a: AttachmentId| #[trigger] kept.contains(a) implies {
        let new_id = compaction::compaction_remap(db)[a];
        &&& new_id.0 < listing.len()
        &&& listing[new_id.0 as int] == a
    } by {
        assert(listing.contains(a));
        let n = listing.index_of(a);
        assert(0 <= n < listing.len() && listing[n] == a);
    }
    assert forall|i: int| 0 <= i < listing.len() implies {
        let a = #[trigger] listing[i];
        &&& kept.contains(a)
        &&& compaction::compaction_remap(db)[a] == AttachmentId(i as usize)
    } by {
        let a = listing[i];
        assert(listing.contains(a));
        let n = listing.index_of(a);
        assert(0 <= n < listing.len() && listing[n] == a);
    }
}

/// A version stands for the same data after compaction, without the dangling references.
proof fn lemma_names_faithful(db: DatabaseModel, names: remap::Names)
    requires
        storable(db),
        forall|a: AttachmentId| #[trigger]
            references::refers(names, a) ==> references::used(db.entries, a),
    ensures
        remap::faithful(
            names,
            db.attachments,
            compaction::names_rewritten(names, compaction::compaction_remap(db)),
            compaction::compacted_pool(db),
        ),
{
    lemma_retained(db);
    let after = compaction::names_rewritten(names, compaction::compaction_remap(db));
    let pool = compaction::compacted_pool(db);
    let target = remap::without_dangling(remap::resolved(names, db.attachments));
    assert forall|name: Seq<char>| #[trigger] after.contains_key(name) <==> target.contains_key(
        name,
    ) by {
        if names.contains_key(name) {
            assert(references::refers(names, names[name]));
            assert(compaction::retained(db).contains(names[name]) <==> db.attachments.contains_key(
                names[name],
            ));
        }
    }
    assert forall|name: Seq<char>| #[trigger] after.contains_key(name) implies remap::resolved(
        after,
        pool,
    )[name] == target[name] by {
        assert(compaction::retained(db).contains(names[name]));
    }
    assert(remap::resolved(after, pool) =~= target);
}

/// Compaction changes no content: every version of every entry stands for the same attachment
/// data under the same names as before, but for references that dangled, which are dropped.
pub proof fn compaction_is_faithful(db: DatabaseModel, e: EntryId)
    requires
        storable(db),
        db.entries.contains_key(e),
    ensures
        compaction::compacted(db).entries.contains_key(e),
        remap::entry_faithful(
            db.entries[e],
            db.attachments,
            compaction::compacted(db).entries[e],
            compaction::compacted(db).attachments,
        ),
{
    let entry = db.entries[e];
    let after = compaction::compacted(db).entries[e];
    assert forall|a: AttachmentId| #[trigger] references::refers(entry.attachments, a) implies
        references::used(db.entries, a) by {
        let live: Option<int> = None;
        assert(entry.has_version(live) && entry.version(live) == entry);
        assert(db.entries[e].uses(a));
    }
    lemma_names_faithful(db, entry.attachments);
    if let Some(versions) = entry.history {
        assert forall|i: int| 0 <= i < versions.len() implies {
            &&& #[trigger] after.history->0[i] == (EntryModel {
                attachments: after.history->0[i].attachments,
                ..versions[i]
            })
            &&& remap::faithful(
                versions[i].attachments,
                db.attachments,
                after.history->0[i].attachments,
                compaction::compacted(db).attachments,
            )
        } by {
            assert forall|a: AttachmentId| #[trigger]
                references::refers(versions[i].attachments, a) implies references::used(
                db.entries,
                a,
            ) by {
                let index: Option<int> = Some(i);
                assert(entry.has_version(index) && entry.version(index) == versions[i]);
                assert(db.entries[e].uses(a));
            }
            lemma_names_faithful(db, versions[i].attachments);
        }
    }
}

/// A reference in a rewritten entry comes from a reference before.
proof fn lemma_rewritten_uses(
    entry: EntryModel,
    new_ids: Map<AttachmentId, AttachmentId>,
    a: AttachmentId,
)
    ensures
        compaction::entry_rewritten(entry, new_ids).uses(a) <==> exists|old_id: AttachmentId|
            #[trigger] new_ids.contains_key(old_id) && new_ids[old_id] == a && entry.uses(old_id),
{
    let after = compaction::entry_rewritten(entry, new_ids);
    assert forall|index: Option<int>| #[trigger] entry.has_version(index) implies
        after.has_version(index) && after.version(index).attachments
        == compaction::names_rewritten(entry.version(index).attachments, new_ids) by {}
    assert forall|index: Option<int>| #[trigger] after.has_version(index) implies
        entry.has_version(index) by {}
    if after.uses(a) {
        let index = choose|index: Option<int>| #[trigger]
            after.has_version(index) && references::refers(after.version(index).attachments, a);
        assert(entry.has_version(index));
        let names = entry.version(index).attachments;
        let name = choose|name: Seq<char>| #[trigger]
            after.version(index).attachments.contains_key(name) && after.version(
                index,
            ).attachments[name] == a;
        assert(names.contains_key(name));
        assert(references::refers(names, names[name]));
        assert(entry.uses(names[name]));
        assert(new_ids.contains_key(names[name]));
    }
    if exists|old_id: AttachmentId| #[trigger]
        new_ids.contains_key(old_id) && new_ids[old_id] == a && entry.uses(old_id) {
        let old_id = choose|old_id: AttachmentId| #[trigger]
            new_ids.contains_key(old_id) && new_ids[old_id] == a && entry.uses(old_id);
        let index = choose|index: Option<int>| #[trigger]
            entry.has_version(index) && references::refers(
                entry.version(index).attachments,
                old_id,
            );
        let names = entry.version(index).attachments;
        let name = choose|name: Seq<char>| #[trigger]
            names.contains_key(name) && names[name] == old_id;
        assert(after.has_version(index));
        assert(after.version(index).attachments.contains_key(name));
        assert(references::refers(after.version(index).attachments, a));
    }
}

/// After compaction the pool holds nothing but what is in use, and is numbered from zero without
/// gaps: an attachment is in the pool if and only if it is in use, and if and only if its number
/// is below the size of the pool.
pub proof fn compacted_pool_is_dense(db: DatabaseModel, a: AttachmentId)
    requires
        storable(db),
    ensures
        compaction::compacted(db).attachments.contains_key(a) <==> references::used(
            compaction::compacted(db).entries,
            a,
        ),
        compaction::compacted(db).attachments.contains_key(a) <==> a.0
            < compaction::retained_in_order(db).len(),
        compaction::compacted(db).attachments.contains_key(a)
            ==> compaction::compacted(db).attachments[a].id == a,
{
    lemma_retained(db);
    let after = compaction::compacted(db);
    let new_ids = compaction::compaction_remap(db);
    let listing = compaction::retained_in_order(db);
    if a.0 < listing.len() {
        let old_id = listing[a.0 as int];
        assert(compaction::retained(db).contains(old_id));
        let e = choose|e: EntryId| #[trigger]
            db.entries.contains_key(e) && db.entries[e].uses(old_id);
        assert(new_ids.contains_key(old_id) && new_ids[old_id] == a);
        lemma_rewritten_uses(db.entries[e], new_ids, a);
        assert(after.entries.contains_key(e));
        assert(after.entries[e].uses(a));
    }
    if references::used(after.entries, a) {
        let e = choose|e: EntryId| #[trigger]
            after.entries.contains_key(e) && after.entries[e].uses(a);
        lemma_rewritten_uses(db.entries[e], new_ids, a);
        let old_id = choose|old_id: AttachmentId| #[trigger]
            new_ids.contains_key(old_id) && new_ids[old_id] == a && db.entries[e].uses(old_id);
        assert(compaction::retained(db).contains(old_id));
    }
}

/// What compaction would keep of a compacted database is all of it, under the same numbers.
proof fn lemma_compacted_retains(db: DatabaseModel)
    requires
        storable(db),
    ensures
        storable(compaction::compacted(db)),
        compaction::retained(compaction::compacted(db))
            == compaction::compacted(db).attachments.dom(),
        compaction::retained_in_order(compaction::compacted(db)) == Seq::new(
            compaction::retained_in_order(db).len(),
            |i: int| AttachmentId(i as usize),
        ),
        forall|a: AttachmentId| #[trigger]
            compaction::compacted(db).attachments.contains_key(a) ==> compaction::compaction_remap(
                compaction::compacted(db),
            )[a] == a,
{
    lemma_retained(db);
    let after = compaction::compacted(db);
    let n = compaction::retained_in_order(db).len();
    let numbers = Seq::new(n, |i: int| AttachmentId(i as usize));
    assert forall|a: AttachmentId| #[trigger] compaction::retained(after).contains(a)
        <==> after.attachments.contains_key(a) by {
        compacted_pool_is_dense(db, a);
    }
    assert(compaction::retained(after) =~= after.attachments.dom());
    assert(order::lists::<AttachmentId>(numbers, compaction::retained(after))) by {
        assert forall|a: AttachmentId| #[trigger] compaction::retained(after).contains(a)
            <==> numbers.contains(a) by {
            compacted_pool_is_dense(db, a);
            if a.0 < n {
                assert(numbers[a.0 as int] == a);
            }
            if numbers.contains(a) {
                let i = choose|i: int| 0 <= i < numbers.len() && numbers[i] == a;
                assert(a == AttachmentId(i as usize));
            }
        }
    }
    order::lemma_ordered_is::<AttachmentId>(numbers, compaction::retained(after));
    order::lemma_increasing_no_duplicates::<AttachmentId>(numbers);
    numbers.unique_seq_to_set();
    assert(numbers.to_set() =~= after.attachments.dom());
    assert forall|a: AttachmentId| #[trigger] after.attachments.contains_key(a) implies
        compaction::compaction_remap(after)[a] == a by {
        compacted_pool_is_dense(db, a);
        assert(numbers[a.0 as int] == a);
        assert(numbers.contains(a));
        let i = numbers.index_of(a);
        assert(0 <= i < numbers.len() && numbers[i] == a);
        assert(compaction::retained(after).contains(a));
    }
}

/// Compaction is needed no more after it was done.
pub proof fn compaction_is_not_needed_twice(db: DatabaseModel)
    requires
        storable(db),
    ensures
        !compaction::needs_compaction(compaction::compacted(db)),
{
    lemma_compacted_retains(db);
    let after = compaction::compacted(db);
    assert forall|a: AttachmentId| #[trigger] after.attachments.contains_key(a) implies
        references::used(after.entries, a) by {
        compacted_pool_is_dense(db, a);
    }
    assert forall|a: AttachmentId| #[trigger] compaction::retained(after).contains(a) implies
        compaction::compaction_remap(after)[a] == a by {
        assert(after.attachments.contains_key(a));
    }
}

/// Where compaction is not needed, the pool is the one that compaction would make.
pub proof fn compaction_is_needed_to_change_the_pool(db: DatabaseModel)
    requires
        storable(db),
        db.wf(),
        !compaction::needs_compaction(db),
    ensures
        compaction::compacted(db).attachments == db.attachments,
{
    lemma_retained(db);
    let listing = compaction::retained_in_order(db);
    let pool = compaction::compacted_pool(db);
    assert forall|a: AttachmentId| #[trigger] db.attachments.contains_key(a) implies
        compaction::retained(db).contains(a) && a.0 < listing.len() && listing[a.0 as int] == a by {
        assert(references::used(db.entries, a));
        assert(compaction::retained(db).contains(a));
        assert(compaction::compaction_remap(db)[a] == a);
    }
    assert forall|a: AttachmentId| #[trigger] pool.contains_key(a) implies
        db.attachments.contains_key(a) && pool[a] == db.attachments[a] by {
        let old_id = listing[a.0 as int];
        assert(compaction::retained(db).contains(old_id));
        assert(compaction::compaction_remap(db)[old_id] == a);
        assert(compaction::compaction_remap(db)[old_id] == old_id);
    }
    assert(pool =~= db.attachments);
}

/// References that are rewritten to what they are stay as they are.
proof fn lemma_rewritten_to_itself(
    names: remap::Names,
    new_ids: Map<AttachmentId, AttachmentId>,
)
    requires
        forall|a: AttachmentId| #[trigger]
            references::refers(names, a) ==> new_ids.contains_key(a) && new_ids[a] == a,
    ensures
        compaction::names_rewritten(names, new_ids) == names,
{
    let after = compaction::names_rewritten(names, new_ids);
    assert forall|name: Seq<char>| #[trigger] names.contains_key(name) implies
        after.contains_key(name) && after[name] == names[name] by {
        assert(references::refers(names, names[name]));
    }
    assert(after =~= names);
}

/// Compacting twice is compacting once.
pub proof fn compaction_is_idempotent(db: DatabaseModel)
    requires
        storable(db),
    ensures
        compaction::compacted(compaction::compacted(db)) == compaction::compacted(db),
{
    lemma_retained(db);
    lemma_compacted_retains(db);
    let once = compaction::compacted(db);
    let twice = compaction::compacted(once);
    let new_ids = compaction::compaction_remap(once);
    assert forall|a: AttachmentId| references::used(once.entries, a) implies
        #[trigger] new_ids.contains_key(a) && new_ids[a] == a by {
        compacted_pool_is_dense(db, a);
        assert(compaction::retained(once).contains(a));
    }
    assert forall|e: EntryId| #[trigger] once.entries.contains_key(e) implies
        compaction::entry_rewritten(once.entries[e], new_ids) == once.entries[e] by {
        let entry = once.entries[e];
        assert forall|index: Option<int>| #[trigger] entry.has_version(index) implies
            compaction::names_rewritten(entry.version(index).attachments, new_ids)
            == entry.version(index).attachments by {
            let names = entry.version(index).attachments;
            assert forall|a: AttachmentId| #[trigger] references::refers(names, a) implies
                new_ids.contains_key(a) && new_ids[a] == a by {
                assert(entry.uses(a));
                assert(references::used(once.entries, a));
            }
            lemma_rewritten_to_itself(names, new_ids);
        }
        let live: Option<int> = None;
        assert(entry.has_version(live));
        if let Some(versions) = entry.history {
            assert forall|i: int| 0 <= i < versions.len() implies
                #[trigger] compaction::version_rewritten(versions[i], new_ids) == versions[i] by {
                let index: Option<int> = Some(i);
                assert(entry.has_version(index));
            }
            assert(versions.map_values(
                |version: EntryModel| compaction::version_rewritten(version, new_ids),
            ) =~= versions);
        }
        assert(compaction::entry_rewritten(entry, new_ids) =~= entry);
    }
    assert(twice.entries =~= once.entries);
    assert forall|a: AttachmentId| #[trigger] twice.attachments.contains_key(a) <==>
        once.attachments.contains_key(a) by {
        compacted_pool_is_dense(db, a);
        compacted_pool_is_dense(once, a);
    }
    assert forall|a: AttachmentId| #[trigger] twice.attachments.contains_key(a) implies
        twice.attachments[a] == once.attachments[a] by {
        assert(once.attachments.contains_key(a));
        assert(compaction::retained_in_order(once)[a.0 as int] == a);
        assert(twice.attachments[a] == (AttachmentModel { id: a, data: once.attachments[a].data }));
    }
    assert(twice.attachments =~= once.attachments);
    assert(twice =~= once);
}

} // verus!
