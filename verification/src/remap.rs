//! The transplanting of attachment references from one pool into another, and the comparison of
//! entries from different databases.

use vstd::prelude::*;
use crate::attachment;
use crate::attachment::Attachment;
use crate::attachment::Pool;
use crate::content::Content;
use crate::database::Database;
use crate::database::DatabaseModel;
use crate::entry::Entry;
use crate::entry::EntryModel;
use crate::ids::AttachmentId;
use crate::laws::fields;
use crate::order;
use crate::sorted_map::SortedMap;
use crate::value::Value;

verus! {

/// The attachments of an entry version by name.
pub type Names = Map<Seq<char>, AttachmentId>;

/// Names carried over into another pool, one after the other as listed: each gets the identifier
/// that the data it stands for in the source has in the pool, where the data is put if it is not
/// there yet. A name whose data the source lacks is dropped.
pub open spec fn carried(names: Names, source: Pool, pool: Pool, listed: Seq<Seq<char>>) -> (
    Names,
    Pool,
)
    decreases listed.len(),
{
    if listed.len() == 0 {
        (Map::empty(), pool)
    } else {
        let (done, before) = carried(names, source, pool, listed.drop_last());
        let name = listed.last();
        if source.contains_key(names[name]) {
            let data = source[names[name]].data;
            (
                done.insert(name, attachment::interned_id(before, data)),
                attachment::interned(before, data),
            )
        } else {
            (done, before)
        }
    }
}

/// All names carried over into another pool, in the order of the names.
pub open spec fn names_remapped(names: Names, source: Pool, pool: Pool) -> (Names, Pool) {
    carried(names, source, pool, order::ordered::<String>(names.dom()))
}

/// Versions carried over into another pool, one after the other.
pub open spec fn versions_remapped(versions: Seq<EntryModel>, source: Pool, pool: Pool) -> (
    Seq<EntryModel>,
    Pool,
)
    decreases versions.len(),
{
    if versions.len() == 0 {
        (Seq::empty(), pool)
    } else {
        let (done, before) = versions_remapped(versions.drop_last(), source, pool);
        let (names, after) = names_remapped(versions.last().attachments, source, before);
        (done.push(EntryModel { attachments: names, ..versions.last() }), after)
    }
}

/// An entry carried over into another pool: its live version first, then its history.
pub open spec fn entry_remapped(entry: EntryModel, source: Pool, pool: Pool) -> (EntryModel, Pool) {
    let (names, between) = names_remapped(entry.attachments, source, pool);
    match entry.history {
        Some(history) => {
            let (versions, after) = versions_remapped(history, source, between);
            (EntryModel { attachments: names, history: Some(versions), ..entry }, after)
        },
        None => (EntryModel { attachments: names, ..entry }, between),
    }
}

/// What the names stand for in a pool: the data, or nothing for a dangling reference.
pub open spec fn resolved(names: Names, pool: Pool) -> Map<Seq<char>, Option<Value<Seq<u8>>>> {
    Map::new(
        |name: Seq<char>| names.contains_key(name),
        |name: Seq<char>|
            if pool.contains_key(names[name]) {
                Some(pool[names[name]].data)
            } else {
                None
            },
    )
}

/// Whether two entry versions carry the same content: the same in everything but timestamps and
/// history, with attachments taken by name and data.
pub open spec fn equivalent(a: EntryModel, a_pool: Pool, b: EntryModel, b_pool: Pool) -> bool {
    &&& a.content() == b.content()
    &&& resolved(a.attachments, a_pool) == resolved(b.attachments, b_pool)
}

/// The data that names stand for, without the dangling references.
pub open spec fn without_dangling(
    data: Map<Seq<char>, Option<Value<Seq<u8>>>>,
) -> Map<Seq<char>, Option<Value<Seq<u8>>>> {
    Map::new(
        |name: Seq<char>| data.contains_key(name) && data[name] is Some,
        |name: Seq<char>| data[name],
    )
}

/// Whether a version that was carried over stands for the same data as before, without the
/// dangling references.
pub open spec fn faithful(before: Names, source: Pool, after: Names, pool: Pool) -> bool {
    resolved(after, pool) == without_dangling(resolved(before, source))
}

/// What names stand for stays when the pool is extended, if none of them dangles.
pub proof fn lemma_faithful_extended(
    before: Names,
    source: Pool,
    after: Names,
    pool: Pool,
    larger: Pool,
)
    requires
        faithful(before, source, after, pool),
        attachment::kept_in(pool, larger),
    ensures
        faithful(before, source, after, larger),
{
    let target = without_dangling(resolved(before, source));
    assert forall|name: Seq<char>| after.contains_key(name) implies #[trigger] pool.contains_key(
        after[name],
    ) by {
        assert(resolved(after, pool).contains_key(name));
        assert(target.contains_key(name));
        assert(resolved(after, pool)[name] is Some);
    }
    assert forall|name: Seq<char>| #[trigger] after.contains_key(name) implies resolved(
        after,
        larger,
    )[name] == resolved(after, pool)[name] by {
        assert(pool.contains_key(after[name]));
        assert(larger[after[name]] == pool[after[name]]);
    }
    assert(resolved(after, larger) =~= resolved(after, pool));
}

/// Rewrites a `name -> AttachmentId` map from one pool into another, importing data as needed.
/// Names are visited in sorted order so that the identifiers are assigned deterministically.
pub fn remap_attachment_map(
    map: &mut SortedMap<String, AttachmentId>,
    source: &SortedMap<AttachmentId, Attachment>,
    dest: &mut SortedMap<AttachmentId, Attachment>,
)
    ensures
        (final(map).deep_view(), final(dest).deep_view()) == names_remapped(
            old(map).deep_view(),
            source.deep_view(),
            old(dest).deep_view(),
        ),
        attachment::extends(old(dest).deep_view(), final(dest).deep_view()),
        faithful(
            old(map).deep_view(),
            source.deep_view(),
            final(map).deep_view(),
            final(dest).deep_view(),
        ),
{
    let ghost before = map.deep_view();
    let ghost origin = source.deep_view();
    let ghost target = without_dangling(resolved(before, origin));
    let mut result: SortedMap<String, AttachmentId> = SortedMap::new();
    let count: usize = map.len();
    let ghost listing = order::ordered::<String>(before.dom());
    assert(listing.take(0) =~= Seq::<Seq<char>>::empty());
    let mut i: usize = 0;
    while i < count
        invariant
            before == map.deep_view(),
            *map == *old(map),
            origin == source.deep_view(),
            target == without_dangling(resolved(before, origin)),
            listing == order::ordered::<String>(before.dom()),
            order::lists::<String>(listing, before.dom()),
            i <= count == listing.len(),
            (result.deep_view(), dest.deep_view()) == carried(
                before,
                origin,
                old(dest).deep_view(),
                listing.take(i as int),
            ),
            attachment::extends(old(dest).deep_view(), dest.deep_view()),
            forall|name: Seq<char>| #[trigger]
                result.deep_view().contains_key(name) <==> target.contains_key(name)
                    && listing.take(i as int).contains(name),
            forall|name: Seq<char>| #[trigger]
                result.deep_view().contains_key(name) ==> attachment::holds(
                    dest.deep_view(),
                    result.deep_view()[name],
                    target[name]->0,
                ),
        decreases count - i,
    {
        let name = map.key_at(i).duplicate();
        let source_id = *map.value_at(i);
        let ghost pool = dest.deep_view();
        let ghost done = result.deep_view();
        proof {
            order::lemma_take_next(listing, i as int);
            assert(listing.take(i + 1).drop_last() =~= listing.take(i as int));
            assert(listing.take(i + 1).last() == listing[i as int]);
        }
        match source.get(&source_id) {
            Some(attachment) => {
                let dest_id = attachment::intern(dest, &attachment.data);
                proof {
                    attachment::lemma_extends_transitive(
                        old(dest).deep_view(),
                        pool,
                        dest.deep_view(),
                    );
                    assert forall|n: Seq<char>| #[trigger] done.contains_key(n) implies
                        attachment::holds(dest.deep_view(), done[n], target[n]->0) by {
                        assert(attachment::holds(pool, done[n], target[n]->0));
                        assert(dest.deep_view().contains_key(done[n]));
                    }
                }
                result.insert(name, dest_id);
            },
            None => {},
        }
        i += 1;
    }
    proof {
        assert(listing.take(listing.len() as int) =~= listing);
        assert forall|name: Seq<char>| #[trigger] target.contains_key(name) implies
            listing.contains(name) by {
            assert(before.dom().contains(name));
        }
        assert(resolved(result.deep_view(), dest.deep_view()) =~= target) by {
            assert forall|name: Seq<char>| #[trigger] result.deep_view().contains_key(name) implies
                resolved(result.deep_view(), dest.deep_view())[name] == target[name] by {
                assert(attachment::holds(
                    dest.deep_view(),
                    result.deep_view()[name],
                    target[name]->0,
                ));
            }
        }
    }
    *map = result;
}

/// Whether an entry was carried over faithfully: each of its versions stands for the same data as
/// before, without the dangling references, and is the same otherwise.
pub open spec fn entry_faithful(
    before: EntryModel,
    source: Pool,
    after: EntryModel,
    pool: Pool,
) -> bool {
    &&& after == (EntryModel {
        attachments: after.attachments,
        history: after.history,
        ..before
    })
    &&& faithful(before.attachments, source, after.attachments, pool)
    &&& match before.history {
        None => after.history is None,
        Some(versions) => after.history is Some && versions_faithful(
            versions,
            source,
            after.history->0,
            pool,
        ),
    }
}

/// Whether versions were carried over faithfully.
pub open spec fn versions_faithful(
    before: Seq<EntryModel>,
    source: Pool,
    after: Seq<EntryModel>,
    pool: Pool,
) -> bool {
    &&& before.len() == after.len()
    &&& forall|i: int|
        0 <= i < before.len() ==> {
            &&& #[trigger] after[i] == (EntryModel {
                attachments: after[i].attachments,
                ..before[i]
            })
            &&& faithful(before[i].attachments, source, after[i].attachments, pool)
        }
}

impl Entry {
    /// Rewrites this entry's attachment references — including those of its history versions — to
    /// point into `dest`'s pool, importing the referenced bytes from `source`'s pool. References
    /// whose bytes are missing from `source` are dropped. Blobs already present in `dest` with
    /// equal data are reused rather than duplicated.
    pub fn remap_attachments(&mut self, source: &Database, dest: &mut Database)
        ensures
            final(self).model() == entry_remapped(
                old(self).model(),
                source.deep_view().attachments,
                old(dest).deep_view().attachments,
            ).0,
            final(dest).deep_view() == (DatabaseModel {
                attachments: entry_remapped(
                    old(self).model(),
                    source.deep_view().attachments,
                    old(dest).deep_view().attachments,
                ).1,
                ..old(dest).deep_view()
            }),
            attachment::extends(
                old(dest).deep_view().attachments,
                final(dest).deep_view().attachments,
            ),
            old(dest).wf() ==> final(dest).wf(),
            entry_faithful(
                old(self).model(),
                source.deep_view().attachments,
                final(self).model(),
                final(dest).deep_view().attachments,
            ),
    {
        let ghost entry = self.model();
        let ghost origin = source.deep_view().attachments;
        let ghost pool = dest.deep_view().attachments;
        remap_attachment_map(&mut self.attachments, &source.attachments, &mut dest.attachments);
        let ghost between = dest.deep_view().attachments;
        let ghost names = self.model().attachments;
        if let Some(history) = &mut self.history {
            let ghost versions = history.model();
            let ghost mut done: Seq<EntryModel> = Seq::empty();
            assert(versions.take(0) =~= Seq::<EntryModel>::empty());
            let mut i: usize = 0;
            while i < history.entries.len()
                invariant
                    i <= history.entries@.len() == versions.len(),
                    done.len() == i,
                    origin == source.deep_view().attachments,
                    (done, dest.deep_view().attachments) == versions_remapped(
                        versions.take(i as int),
                        origin,
                        between,
                    ),
                    dest.deep_view() == (DatabaseModel {
                        attachments: dest.deep_view().attachments,
                        ..old(dest).deep_view()
                    }),
                    attachment::extends(between, dest.deep_view().attachments),
                    versions_faithful(
                        versions.take(i as int),
                        origin,
                        done,
                        dest.deep_view().attachments,
                    ),
                    forall|j: int|
                        0 <= j < i ==> (#[trigger] history.entries@[j]).model() == done[j],
                    forall|j: int|
                        i <= j < versions.len() ==> (#[trigger] history.entries@[j]).model()
                            == versions[j],
                decreases history.entries@.len() - i,
            {
                let ghost before_pool = dest.deep_view().attachments;
                let ghost done_before = done;
                let ghost version = versions[i as int];
                assert(history.entries@[i as int].model() == version);
                let entry_version = &mut history.entries[i];
                remap_attachment_map(
                    &mut entry_version.attachments,
                    &source.attachments,
                    &mut dest.attachments,
                );
                proof {
                    let longer = versions.take(i + 1);
                    let after_pool = dest.deep_view().attachments;
                    assert(longer.drop_last() =~= versions.take(i as int));
                    assert(longer.last() == version);
                    done = versions_remapped(longer, origin, between).0;
                    assert(done == done_before.push(
                        EntryModel {
                            attachments: names_remapped(
                                version.attachments,
                                origin,
                                before_pool,
                            ).0,
                            ..version
                        },
                    ));
                    attachment::lemma_extends_transitive(between, before_pool, after_pool);
                    assert forall|j: int| 0 <= j < longer.len() implies {
                        &&& #[trigger] done[j] == (EntryModel {
                            attachments: done[j].attachments,
                            ..longer[j]
                        })
                        &&& faithful(
                            longer[j].attachments,
                            origin,
                            done[j].attachments,
                            after_pool,
                        )
                    } by {
                        if j < i {
                            assert(done_before[j] == done[j]);
                            assert(versions.take(i as int)[j] == longer[j]);
                            lemma_faithful_extended(
                                longer[j].attachments,
                                origin,
                                done[j].attachments,
                                before_pool,
                                after_pool,
                            );
                        }
                    }
                }
                i += 1;
            }
            proof {
                assert(versions.take(versions.len() as int) =~= versions);
                assert(history.model() =~= done);
                lemma_faithful_extended(
                    entry.attachments,
                    origin,
                    names,
                    between,
                    dest.deep_view().attachments,
                );
                attachment::lemma_extends_transitive(pool, between, dest.deep_view().attachments);
            }
        }
        proof {
            attachment::lemma_pool_of_wf(old(dest).deep_view(), dest.deep_view());
        }
    }

    /// Whether two entries carry the same content, ignoring timestamps, history, and attachment
    /// pool ids. Attachments compare by name and bytes, resolved against each entry's own database
    /// — so two copies of an entry whose pools assigned different [AttachmentId]s to the same data
    /// still count as equivalent.
    pub fn content_equivalent(&self, self_db: &Database, other: &Entry, other_db: &Database) -> (result:
        bool)
        ensures
            result == equivalent(
                self.model(),
                self_db.deep_view().attachments,
                other.model(),
                other_db.deep_view().attachments,
            ),
            result <==> {
                &&& self.model().id == other.model().id
                &&& self.model().parent == other.model().parent
                &&& self.model().fields == other.model().fields
                &&& self.model().autotype == other.model().autotype
                &&& self.model().tags == other.model().tags
                &&& self.model().custom_data == other.model().custom_data
                &&& self.model().icon == other.model().icon
                &&& self.model().foreground_color == other.model().foreground_color
                &&& self.model().background_color == other.model().background_color
                &&& self.model().override_url == other.model().override_url
                &&& self.model().quality_check == other.model().quality_check
                &&& self.model().previous_parent_group == other.model().previous_parent_group
                &&& fields::same_data(
                    self.model().attachments,
                    self_db.deep_view().attachments,
                    other.model().attachments,
                    other_db.deep_view().attachments,
                )
            },
    {
        proof {
            fields::entries_are_equivalent_exactly_in_their_fields(
                self.model(),
                self_db.deep_view().attachments,
                other.model(),
                other_db.deep_view().attachments,
            );
        }
        if !self.same_content(other) {
            return false;
        }
        let ghost a = self.model().attachments;
        let ghost b = other.model().attachments;
        let ghost a_pool = self_db.deep_view().attachments;
        let ghost b_pool = other_db.deep_view().attachments;
        let names = self.attachments.keys();
        let other_names = other.attachments.keys();
        let ghost listing = names.deep_view();
        if !names.same_as(&other_names) {
            proof {
                if resolved(a, a_pool) == resolved(b, b_pool) {
                    assert(a.dom() =~= resolved(a, a_pool).dom());
                    assert(b.dom() =~= resolved(b, b_pool).dom());
                }
            }
            return false;
        }
        proof {
            assert forall|name: Seq<char>| a.dom().contains(name) == #[trigger] b.dom().contains(
                name,
            ) by {
                assert(a.dom().contains(name) <==> listing.contains(name));
            }
            assert(a.dom() =~= b.dom());
        }
        let mut i: usize = 0;
        while i < names.len()
            invariant
                a == self.model().attachments,
                b == other.model().attachments,
                a_pool == self_db.deep_view().attachments,
                b_pool == other_db.deep_view().attachments,
                a.dom() == b.dom(),
                listing == names.deep_view(),
                order::lists::<String>(listing, a.dom()),
                i <= names@.len(),
                forall|j: int|
                    0 <= j < i ==> resolved(a, a_pool)[#[trigger] listing[j]] == resolved(
                        b,
                        b_pool,
                    )[listing[j]],
            decreases names@.len() - i,
        {
            let ghost name = listing[i as int];
            proof {
                assert(names@[i as int]@ == name);
                assert(listing.contains(name));
                assert(a.dom().contains(name));
                assert(b.dom().contains(name));
            }
            let same = match (self.attachments.get(&names[i]), other.attachments.get(&names[i])) {
                (Some(self_id), Some(other_id)) => match (
                    self_db.attachments.get(self_id),
                    other_db.attachments.get(other_id),
                ) {
                    (Some(x), Some(y)) => x.data.same_as(&y.data),
                    // Only two equally-dangling references count as equal.
                    (None, None) => true,
                    _ => false,
                },
                _ => false,
            };
            assert(same == (resolved(a, a_pool)[name] == resolved(b, b_pool)[name]));
            if !same {
                return false;
            }
            i += 1;
        }
        proof {
            assert forall|name: Seq<char>| #[trigger] a.contains_key(name) implies resolved(
                a,
                a_pool,
            )[name] == resolved(b, b_pool)[name] by {
                assert(a.dom().contains(name));
                let j = choose|j: int| 0 <= j < listing.len() && listing[j] == name;
                assert(resolved(a, a_pool)[listing[j]] == resolved(b, b_pool)[listing[j]]);
            }
            assert(resolved(a, a_pool) =~= resolved(b, b_pool));
        }
        true
    }
}

} // verus!
