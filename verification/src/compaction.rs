//! The compaction of the attachment pool.

use vstd::prelude::*;
use crate::attachment::Attachment;
use crate::attachment::AttachmentModel;
use crate::attachment::Pool;
use crate::content::Content;
use crate::database;
use crate::database::Database;
use crate::database::DatabaseModel;
use crate::entry::Entry;
use crate::entry::EntryModel;
use crate::ids::AttachmentId;
use crate::ids::EntryId;
use crate::order;
use crate::references;
use crate::remap::Names;
use crate::sorted_map::SortedMap;

verus! {

/// The attachments that are in the pool and in use.
pub open spec fn retained(db: DatabaseModel) -> Set<AttachmentId> {
    Set::new(
        |a: AttachmentId| db.attachments.contains_key(a) && references::used(db.entries, a),
    )
}

/// The attachments that are kept, in the order of their identifiers.
pub open spec fn retained_in_order(db: DatabaseModel) -> Seq<AttachmentId> {
    order::ordered::<AttachmentId>(retained(db))
}

/// The new identifier of each attachment that is kept: its place among them.
pub open spec fn compaction_remap(db: DatabaseModel) -> Map<AttachmentId, AttachmentId> {
    Map::new(
        |a: AttachmentId| retained(db).contains(a),
        |a: AttachmentId| AttachmentId(retained_in_order(db).index_of(a) as usize),
    )
}

/// References rewritten to new identifiers; those to attachments without one are dropped.
pub open spec fn names_rewritten(
    names: Names,
    remap: Map<AttachmentId, AttachmentId>,
) -> Names {
    Map::new(
        |name: Seq<char>| names.contains_key(name) && remap.contains_key(names[name]),
        |name: Seq<char>| remap[names[name]],
    )
}

/// A version with its references rewritten.
pub open spec fn version_rewritten(
    version: EntryModel,
    remap: Map<AttachmentId, AttachmentId>,
) -> EntryModel {
    EntryModel { attachments: names_rewritten(version.attachments, remap), ..version }
}

/// An entry with the references of all its versions rewritten.
pub open spec fn entry_rewritten(
    entry: EntryModel,
    remap: Map<AttachmentId, AttachmentId>,
) -> EntryModel {
    EntryModel {
        attachments: names_rewritten(entry.attachments, remap),
        history: match entry.history {
            Some(versions) => Some(
                versions.map_values(|version: EntryModel| version_rewritten(version, remap)),
            ),
            None => None,
        },
        ..entry
    }
}

/// The pool with nothing but what is in use, numbered from zero without gaps.
pub open spec fn compacted_pool(db: DatabaseModel) -> Pool {
    Map::new(
        |id: AttachmentId| id.0 < retained_in_order(db).len(),
        |id: AttachmentId|
            AttachmentModel { id, data: db.attachments[retained_in_order(db)[id.0 as int]].data },
    )
}

/// The database with a compacted pool.
pub open spec fn compacted(db: DatabaseModel) -> DatabaseModel {
    DatabaseModel {
        entries: db.entries.map_values(
            |entry: EntryModel| entry_rewritten(entry, compaction_remap(db)),
        ),
        attachments: compacted_pool(db),
        ..db
    }
}

/// Whether compaction would change the pool: it holds something that is not in use, or an
/// attachment would get another identifier.
pub open spec fn needs_compaction(db: DatabaseModel) -> bool {
    ||| exists|a: AttachmentId| #[trigger]
        db.attachments.contains_key(a) && !references::used(db.entries, a)
    ||| exists|a: AttachmentId| #[trigger]
        retained(db).contains(a) && compaction_remap(db)[a] != a
}

/// Rewrites an entry version's `name -> AttachmentId` map, dropping any reference whose target is
/// not retained.
fn remap_refs(
    attachments: &mut SortedMap<String, AttachmentId>,
    remap: &SortedMap<AttachmentId, AttachmentId>,
)
    ensures
        final(attachments).deep_view() == names_rewritten(
            old(attachments).deep_view(),
            remap.deep_view(),
        ),
{
    let ghost names = attachments.deep_view();
    let ghost listing = order::ordered::<String>(names.dom());
    let mut result: SortedMap<String, AttachmentId> = SortedMap::new();
    let count: usize = attachments.len();
    let mut i: usize = 0;
    while i < count
        invariant
            names == attachments.deep_view(),
            listing == order::ordered::<String>(names.dom()),
            order::lists::<String>(listing, names.dom()),
            i <= count == listing.len(),
            forall|name: Seq<char>| #[trigger]
                result.deep_view().contains_key(name) <==> names_rewritten(
                    names,
                    remap.deep_view(),
                ).contains_key(name) && listing.take(i as int).contains(name),
            forall|name: Seq<char>| #[trigger]
                result.deep_view().contains_key(name) ==> result.deep_view()[name]
                    == remap.deep_view()[names[name]],
        decreases count - i,
    {
        let id = *attachments.value_at(i);
        let name = attachments.key_at(i).duplicate();
        proof {
            order::lemma_take_next(listing, i as int);
        }
        if let Some(new_id) = remap.get(&id) {
            result.insert(name, *new_id);
        }
        i += 1;
    }
    proof {
        assert(listing.take(listing.len() as int) =~= listing);
        assert forall|name: Seq<char>| #[trigger] names.contains_key(name) implies listing.contains(
            name,
        ) by {
            assert(names.dom().contains(name));
        }
        assert(result.deep_view() =~= names_rewritten(names, remap.deep_view()));
    }
    *attachments = result;
}

impl Entry {
    /// Rewrites the references of all versions of the entry.
    fn rewrite_references(&mut self, remap: &SortedMap<AttachmentId, AttachmentId>)
        ensures
            final(self).model() == entry_rewritten(old(self).model(), remap.deep_view()),
    {
        remap_refs(&mut self.attachments, remap);
        if let Some(history) = &mut self.history {
            let ghost versions = history.model();
            let ghost rewritten = versions.map_values(
                |version: EntryModel| version_rewritten(version, remap.deep_view()),
            );
            let mut i: usize = 0;
            while i < history.entries.len()
                invariant
                    i <= history.entries@.len() == versions.len(),
                    rewritten == versions.map_values(
                        |version: EntryModel| version_rewritten(version, remap.deep_view()),
                    ),
                    forall|j: int|
                        0 <= j < i ==> (#[trigger] history.entries@[j]).model() == rewritten[j],
                    forall|j: int|
                        i <= j < versions.len() ==> (#[trigger] history.entries@[j]).model()
                            == versions[j],
                decreases history.entries@.len() - i,
            {
                assert(history.entries@[i as int].model() == versions[i as int]);
                let version = &mut history.entries[i];
                remap_refs(&mut version.attachments, remap);
                i += 1;
            }
            assert(history.model() =~= rewritten);
        }
    }
}

impl Database {
    /// Build the stable `old -> new` contiguous attachment-id remapping over ids that are still
    /// referenced and present in the pool. Unreferenced (deleted) binaries are excluded. Ordered by
    /// the underlying id for deterministic output.
    pub fn attachment_compaction_remap(&self) -> (result: SortedMap<AttachmentId, AttachmentId>)
        ensures
            result.deep_view() == compaction_remap(self.deep_view()),
            result.deep_view().dom().finite(),
    {
        let ghost db = self.deep_view();
        let old_ids = self.retained_attachments();
        let ghost listing = old_ids.deep_view();
        let mut result: SortedMap<AttachmentId, AttachmentId> = SortedMap::new();
        let mut i: usize = 0;
        while i < old_ids.len()
            invariant
                listing == old_ids.deep_view(),
                order::lists::<AttachmentId>(listing, retained(db)),
                listing == retained_in_order(db),
                i <= old_ids@.len(),
                forall|a: AttachmentId| #[trigger]
                    result.deep_view().contains_key(a) <==> listing.take(i as int).contains(a),
                forall|a: AttachmentId| #[trigger]
                    result.deep_view().contains_key(a) ==> result.deep_view()[a]
                        == compaction_remap(db)[a],
            decreases old_ids@.len() - i,
        {
            let id = old_ids[i];
            proof {
                order::lemma_take_next(listing, i as int);
                assert(listing[i as int] == id);
                assert(listing.contains(id));
                assert(retained(db).contains(id));
                order::lemma_increasing_no_duplicates::<AttachmentId>(listing);
                let n = listing.index_of(id);
                assert(0 <= n < listing.len() && listing[n] == id);
            }
            result.insert(id, AttachmentId(i));
            i += 1;
        }
        proof {
            assert(listing.take(listing.len() as int) =~= listing);
            assert forall|a: AttachmentId| listing.contains(a) == #[trigger] retained(db).contains(
                a,
            ) by {}
            assert(result.deep_view() =~= compaction_remap(db));
        }
        let _count: usize = result.len();
        result
    }

    /// The attachments that are in the pool and in use, in order.
    fn retained_attachments(&self) -> (result: Vec<AttachmentId>)
        ensures
            result.deep_view() == retained_in_order(self.deep_view()),
            order::lists::<AttachmentId>(result.deep_view(), retained(self.deep_view())),
    {
        let ghost db = self.deep_view();
        let in_use_set = self.attachments_in_use();
        let in_use = in_use_set.members();
        let ghost candidates = in_use.deep_view();
        let mut kept: Vec<AttachmentId> = Vec::new();
        let mut i: usize = 0;
        while i < in_use.len()
            invariant
                db == self.deep_view(),
                candidates == in_use.deep_view(),
                order::increasing::<AttachmentId>(candidates),
                i <= in_use@.len(),
                order::increasing::<AttachmentId>(kept.deep_view()),
                forall|a: AttachmentId| #[trigger]
                    kept.deep_view().contains(a) <==> candidates.take(i as int).contains(a)
                        && db.attachments.contains_key(a),
            decreases in_use@.len() - i,
        {
            let id = in_use[i];
            let ghost before = kept.deep_view();
            proof {
                order::lemma_take_next(candidates, i as int);
                assert(candidates[i as int] == id);
            }
            if self.attachments.contains_key(&id) {
                kept.push(id);
                proof {
                    let after = kept.deep_view();
                    assert(after =~= before.push(id));
                    assert forall|m: int, n: int| 0 <= m < n < after.len() implies
                        <AttachmentId as order::Key>::precedes(#[trigger] after[m], #[trigger] after[n]) by {
                        if n == before.len() {
                            assert(before.contains(before[m]));
                            let shorter = candidates.take(i as int);
                            assert(shorter.contains(before[m]));
                            let j = choose|j: int| 0 <= j < shorter.len() && shorter[j] == before[m];
                            assert(candidates[j] == before[m]);
                        } else {
                            assert(after[m] == before[m] && after[n] == before[n]);
                        }
                    }
                    assert forall|a: AttachmentId| #[trigger] after.contains(a) <==> before.contains(
                        a,
                    ) || a == id by {
                        if before.contains(a) {
                            let j = choose|j: int| 0 <= j < before.len() && before[j] == a;
                            assert(after[j] == a);
                        }
                        if a == id {
                            assert(after[before.len() as int] == a);
                        }
                        if after.contains(a) && a != id {
                            let j = choose|j: int| 0 <= j < after.len() && after[j] == a;
                            assert(before[j] == a);
                        }
                    }
                }
            }
            i += 1;
        }
        proof {
            assert(candidates.take(candidates.len() as int) =~= candidates);
            assert forall|a: AttachmentId| #[trigger] retained(db).contains(a)
                <==> kept.deep_view().contains(a) by {
                assert(in_use_set.deep_view().contains(a) <==> candidates.contains(a));
            }
            order::lemma_ordered_is::<AttachmentId>(kept.deep_view(), retained(db));
        }
        kept
    }

    /// Whether the attachment pool would change under compaction, i.e. it contains binaries that no
    /// live or history version references (deleted bytes that would otherwise be written back out)
    /// or its ids are not a contiguous `0..n` range.
    pub fn attachments_need_compaction(&self) -> (result: bool)
        ensures
            result == needs_compaction(self.deep_view()),
    {
        let ghost db = self.deep_view();
        let remap = self.attachment_compaction_remap();
        let ids = self.attachments.keys();
        let ghost listing = ids.deep_view();
        let mut i: usize = 0;
        while i < ids.len()
            invariant
                db == self.deep_view(),
                remap.deep_view() == compaction_remap(db),
                listing == ids.deep_view(),
                order::lists::<AttachmentId>(listing, db.attachments.dom()),
                i <= ids@.len(),
                forall|j: int|
                    0 <= j < i ==> references::used(db.entries, #[trigger] listing[j])
                        && compaction_remap(db)[listing[j]] == listing[j],
            decreases ids@.len() - i,
        {
            let id = ids[i];
            proof {
                assert(listing[i as int] == id);
                assert(listing.contains(id));
                assert(db.attachments.dom().contains(id));
                assert(db.attachments.contains_key(id));
            }
            match remap.get(&id) {
                Some(new_id) => {
                    if *new_id != id {
                        assert(retained(db).contains(id));
                        return true;
                    }
                },
                None => {
                    return true;
                },
            }
            i += 1;
        }
        proof {
            assert forall|a: AttachmentId| #[trigger] db.attachments.contains_key(a) implies
                references::used(db.entries, a) && compaction_remap(db)[a] == a by {
                assert(db.attachments.dom().contains(a));
                let j = choose|j: int| 0 <= j < listing.len() && listing[j] == a;
                assert(references::used(db.entries, listing[j]));
            }
            assert forall|a: AttachmentId| #[trigger] retained(db).contains(a) implies
                compaction_remap(db)[a] == a by {
                assert(db.attachments.contains_key(a));
            }
        }
        false
    }

    /// Compact the attachment binary pool in place.
    ///
    /// Attachment deletion only drops a single entry version's reference and never
    /// garbage-collects the binary, so that attachments still referenced by a history version
    /// survive and freed ids are never reused. This method performs the deferred cleanup:
    ///
    /// 1. walks every live and history entry to determine which attachments are still referenced,
    /// 2. removes binaries referenced by no live or history version,
    /// 3. re-indexes the surviving binaries to a contiguous `0..n` id range, and
    /// 4. rewrites every live/history `name -> AttachmentId` reference to the new ids.
    pub fn compact_attachments(&mut self)
        ensures
            final(self).deep_view() == compacted(old(self).deep_view()),
            old(self).wf() ==> final(self).wf(),
    {
        let ghost db = self.deep_view();
        let remap = self.attachment_compaction_remap();
        let old_ids = self.retained_attachments();
        let ghost listing = old_ids.deep_view();

        // Rewrite every live and history attachment reference through the mapping.
        let entry_ids = self.entries.keys();
        let ghost entries_listing = entry_ids.deep_view();
        let mut i: usize = 0;
        while i < entry_ids.len()
            invariant
                self.deep_view() == (DatabaseModel { entries: self.deep_view().entries, ..db }),
                remap.deep_view() == compaction_remap(db),
                entries_listing == entry_ids.deep_view(),
                order::lists::<EntryId>(entries_listing, db.entries.dom()),
                i <= entry_ids@.len(),
                self.deep_view().entries.dom() == db.entries.dom(),
                forall|e: EntryId| #[trigger]
                    db.entries.contains_key(e) ==> self.deep_view().entries[e] == (
                    if entries_listing.take(i as int).contains(e) {
                        entry_rewritten(db.entries[e], compaction_remap(db))
                    } else {
                        db.entries[e]
                    }),
            decreases entry_ids@.len() - i,
        {
            let id = entry_ids[i];
            proof {
                assert(entries_listing[i as int] == id);
                assert(entries_listing.contains(id));
                assert(db.entries.dom().contains(id));
                order::lemma_take_next(entries_listing, i as int);
                order::lemma_increasing_no_duplicates::<EntryId>(entries_listing);
                if entries_listing.take(i as int).contains(id) {
                    let j = choose|j: int|
                        0 <= j < i && entries_listing.take(i as int)[j] == id;
                    assert(entries_listing[j] == id);
                }
            }
            if let Some(entry) = self.entries.get_mut(&id) {
                entry.rewrite_references(&remap);
            }
            assert(self.deep_view().entries.dom() =~= db.entries.dom());
            i += 1;
        }
        proof {
            assert(entries_listing.take(entries_listing.len() as int) =~= entries_listing);
            assert forall|e: EntryId| #[trigger] db.entries.contains_key(e) implies
                self.deep_view().entries[e] == entry_rewritten(
                db.entries[e],
                compaction_remap(db),
            ) by {
                assert(db.entries.dom().contains(e));
                assert(entries_listing.contains(e));
            }
            assert(self.deep_view().entries =~= compacted(db).entries);
        }

        // Rebuild the pool with the new contiguous ids, dropping orphans.
        let mut pool: SortedMap<AttachmentId, Attachment> = SortedMap::new();
        let mut i: usize = 0;
        while i < old_ids.len()
            invariant
                listing == old_ids.deep_view(),
                listing == retained_in_order(db),
                order::lists::<AttachmentId>(listing, retained(db)),
                i <= old_ids@.len(),
                self.deep_view().attachments.dom() == db.attachments.dom().difference(
                    Set::new(|a: AttachmentId| listing.take(i as int).contains(a)),
                ),
                forall|a: AttachmentId| #[trigger]
                    self.deep_view().attachments.contains_key(a)
                        ==> self.deep_view().attachments[a] == db.attachments[a],
                self.deep_view() == (DatabaseModel {
                    attachments: self.deep_view().attachments,
                    ..compacted(db)
                }),
                pool.deep_view() == Map::new(
                    |id: AttachmentId| id.0 < i,
                    |id: AttachmentId|
                        AttachmentModel { id, data: db.attachments[listing[id.0 as int]].data },
                ),
            decreases old_ids@.len() - i,
        {
            let old_id = old_ids[i];
            let new_id = AttachmentId(i);
            proof {
                assert(listing[i as int] == old_id);
                assert(listing.contains(old_id));
                assert(retained(db).contains(old_id));
                order::lemma_take_next(listing, i as int);
                order::lemma_increasing_no_duplicates::<AttachmentId>(listing);
                assert(!listing.take(i as int).contains(old_id)) by {
                    if listing.take(i as int).contains(old_id) {
                        let j = choose|j: int|
                            0 <= j < i && listing.take(i as int)[j] == old_id;
                        assert(listing[j] == old_id);
                    }
                }
                assert(self.deep_view().attachments.dom().contains(old_id));
            }
            let ghost rest = self.deep_view().attachments;
            if let Some(mut attachment) = self.attachments.remove(&old_id) {
                attachment.id = new_id;
                pool.insert(new_id, attachment);
            }
            proof {
                assert(self.deep_view().attachments.dom() =~= db.attachments.dom().difference(
                    Set::new(|a: AttachmentId| listing.take(i + 1).contains(a)),
                ));
                assert(pool.deep_view() =~= Map::new(
                    |id: AttachmentId| id.0 < i + 1,
                    |id: AttachmentId|
                        AttachmentModel { id, data: db.attachments[listing[id.0 as int]].data },
                ));
            }
            i += 1;
        }
        self.attachments = pool;
        proof {
            assert(self.deep_view().attachments =~= compacted_pool(db));
            assert(self.deep_view() =~= compacted(db));
            if db.wf() {
                lemma_compacted_wf(db);
            }
        }
    }
}

/// Compaction keeps the database well formed.
pub proof fn lemma_compacted_wf(db: DatabaseModel)
    requires
        db.wf(),
    ensures
        compacted(db).wf(),
{
    let after = compacted(db);
    assert forall|e: EntryId| #[trigger] after.entries.contains_key(e) implies
        database::entry_placed(after.entries, after.groups, e) by {
        assert(database::entry_placed(db.entries, db.groups, e));
    }
    assert forall|g: crate::ids::GroupId, e: EntryId|
        after.groups.contains_key(g) && #[trigger] after.groups[g].entries.contains(e) implies
        after.entries.contains_key(e) && after.entries[e].parent == g by {
        assert(db.groups[g].entries.contains(e));
    }
}

} // verus!
