//! What holds of references that are carried over from one pool into another.

use vstd::prelude::*;
use crate::attachment;
use crate::attachment::Pool;
use crate::entry::EntryModel;
use crate::ids::AttachmentId;
use crate::order;
use crate::remap;
use crate::remap::Names;

verus! {

/// The attachments of a source whose data a pool lacks.
pub open spec fn unknown(pool: Pool, source: Pool) -> Set<AttachmentId> {
    source.dom().filter(|a: AttachmentId| !attachment::known(pool, source[a].data))
}

/// Whether a pool, with all that it lacks of a source, has no more attachments than a limit, and
/// there are enough identifiers for that many.
pub open spec fn room(pool: Pool, source: Pool, limit: nat) -> bool {
    &&& pool.dom().finite()
    &&& source.dom().finite()
    &&& pool.dom().len() + unknown(pool, source).len() <= limit
    &&& limit <= usize::MAX
}

/// Whether the names of all versions of an entry are finitely many, as those of every entry in
/// memory are.
pub open spec fn finite_names(entry: EntryModel) -> bool {
    &&& entry.attachments.dom().finite()
    &&& entry.history matches Some(versions) ==> all_finite(versions)
}

/// Whether the names of all versions are finitely many.
pub open spec fn all_finite(versions: Seq<EntryModel>) -> bool {
    forall|i: int| 0 <= i < versions.len() ==> (#[trigger] versions[i]).attachments.dom().finite()
}

/// The pools of two databases whose attachments together can be counted have room.
pub proof fn lemma_room(pool: Pool, source: Pool, limit: nat)
    requires
        pool.dom().finite(),
        source.dom().finite(),
        pool.dom().len() + source.dom().len() <= limit,
        limit <= usize::MAX,
    ensures
        room(pool, source, limit),
{
    vstd::set_lib::lemma_len_subset(unknown(pool, source), source.dom());
}

/// Putting data of the source into a pool with room extends the pool, keeps the room, and the data
/// is there afterwards.
pub proof fn lemma_interned(pool: Pool, source: Pool, a: AttachmentId, limit: nat)
    requires
        room(pool, source, limit),
        source.contains_key(a),
    ensures
        ({
            let data = source[a].data;
            let after = attachment::interned(pool, data);
            &&& attachment::extends(pool, after)
            &&& room(after, source, limit)
            &&& attachment::holds(after, attachment::interned_id(pool, data), data)
        }),
{
    let data = source[a].data;
    let after = attachment::interned(pool, data);
    if attachment::known(pool, data) {
        let id = attachment::lemma_some_least_holding(pool, data);
        attachment::lemma_least_holding(pool, data, id);
    } else {
        let before_unknown = unknown(pool, source);
        let after_unknown = unknown(after, source);
        assert(before_unknown.contains(a));
        vstd::set_lib::lemma_set_empty_equivalency_len(before_unknown);
        let free = attachment::lemma_some_free(pool);
        attachment::lemma_least_free(pool, free);
        assert(attachment::holds(after, free, data));
        assert forall|b: AttachmentId, c: AttachmentId|
            #![trigger after.contains_key(b), after.contains_key(c)]
            after.contains_key(b) && after.contains_key(c) && b != c && after[b].data
                == after[c].data implies pool.contains_key(b) && pool.contains_key(c) by {
            if b == free {
                assert(attachment::holds(pool, c, data));
            }
            if c == free {
                assert(attachment::holds(pool, b, data));
            }
        }
        assert(after_unknown.subset_of(before_unknown.remove(a))) by {
            assert forall|x: AttachmentId| #[trigger] after_unknown.contains(x) implies
                before_unknown.remove(a).contains(x) by {
                if attachment::known(pool, source[x].data) {
                    let id = choose|id: AttachmentId|
                        attachment::holds(pool, id, source[x].data);
                    assert(attachment::holds(after, id, source[x].data));
                }
                if x == a {
                    assert(attachment::holds(after, free, source[x].data));
                }
            }
        }
        vstd::set_lib::lemma_len_subset(after_unknown, before_unknown.remove(a));
        assert(after.dom() =~= pool.dom().insert(free));
    }
}

/// Names that were carried over as far as listed.
proof fn lemma_carried(names: Names, source: Pool, pool: Pool, listed: Seq<Seq<char>>, limit: nat)
    requires
        room(pool, source, limit),
    ensures
        ({
            let (done, after) = remap::carried(names, source, pool, listed);
            &&& attachment::extends(pool, after)
            &&& room(after, source, limit)
            &&& forall|name: Seq<char>| #[trigger]
                done.contains_key(name) <==> listed.contains(name) && source.contains_key(
                    names[name],
                )
            &&& forall|name: Seq<char>| #[trigger]
                done.contains_key(name) ==> attachment::holds(
                    after,
                    done[name],
                    source[names[name]].data,
                )
        }),
    decreases listed.len(),
{
    if listed.len() > 0 {
        let shorter = listed.drop_last();
        let name = listed.last();
        lemma_carried(names, source, pool, shorter, limit);
        let (done, before) = remap::carried(names, source, pool, shorter);
        let (longer, after) = remap::carried(names, source, pool, listed);
        assert forall|n: Seq<char>| shorter.contains(n) || n == name <==> #[trigger] listed.contains(
            n,
        ) by {
            if n == name {
                assert(listed[listed.len() - 1] == n);
            }
            if shorter.contains(n) {
                let k = choose|k: int| 0 <= k < shorter.len() && shorter[k] == n;
                assert(listed[k] == n);
            }
            if listed.contains(n) && n != name {
                let k = choose|k: int| 0 <= k < listed.len() && listed[k] == n;
                assert(shorter[k] == n);
            }
        }
        if source.contains_key(names[name]) {
            lemma_interned(before, source, names[name], limit);
            attachment::lemma_extends_transitive(pool, before, after);
            assert forall|n: Seq<char>| #[trigger] longer.contains_key(n) implies attachment::holds(
                after,
                longer[n],
                source[names[n]].data,
            ) by {
                if n != name {
                    assert(done.contains_key(n));
                    assert(attachment::holds(before, done[n], source[names[n]].data));
                    assert(after.contains_key(done[n]));
                }
            }
        }
    }
}

/// Names that are carried over into another pool stand for the same data there as before, without
/// the dangling ones, and the pool grows by nothing but data that it lacked.
pub proof fn remapping_names_is_faithful(names: Names, source: Pool, pool: Pool, limit: nat)
    requires
        room(pool, source, limit),
        names.dom().finite(),
    ensures
        ({
            let (after, larger) = remap::names_remapped(names, source, pool);
            &&& remap::faithful(names, source, after, larger)
            &&& attachment::extends(pool, larger)
            &&& room(larger, source, limit)
        }),
{
    let listing = order::ordered::<String>(names.dom());
    order::lemma_ordered_lists::<String>(names.dom());
    lemma_carried(names, source, pool, listing, limit);
    let (after, larger) = remap::names_remapped(names, source, pool);
    let target = remap::without_dangling(remap::resolved(names, source));
    assert forall|name: Seq<char>| #[trigger] after.contains_key(name) <==> target.contains_key(
        name,
    ) by {
        assert(names.dom().contains(name) <==> listing.contains(name));
    }
    assert forall|name: Seq<char>| #[trigger] after.contains_key(name) implies remap::resolved(
        after,
        larger,
    )[name] == target[name] by {
        assert(attachment::holds(larger, after[name], source[names[name]].data));
        assert(target.contains_key(name));
    }
    assert(remap::resolved(after, larger) =~= target);
}

proof fn lemma_versions(versions: Seq<EntryModel>, source: Pool, pool: Pool, limit: nat)
    requires
        room(pool, source, limit),
        all_finite(versions),
    ensures
        ({
            let (after, larger) = remap::versions_remapped(versions, source, pool);
            &&& remap::versions_faithful(versions, source, after, larger)
            &&& attachment::extends(pool, larger)
            &&& room(larger, source, limit)
        }),
    decreases versions.len(),
{
    if versions.len() > 0 {
        let shorter = versions.drop_last();
        assert forall|i: int| 0 <= i < shorter.len() implies (
        #[trigger] shorter[i]).attachments.dom().finite() by {
            assert(shorter[i] == versions[i]);
        }
        lemma_versions(shorter, source, pool, limit);
        let (done, before) = remap::versions_remapped(shorter, source, pool);
        let (after, larger) = remap::versions_remapped(versions, source, pool);
        let last = versions.last();
        assert(versions[versions.len() - 1].attachments.dom().finite());
        remapping_names_is_faithful(last.attachments, source, before, limit);
        attachment::lemma_extends_transitive(pool, before, larger);
        assert forall|i: int| 0 <= i < versions.len() implies {
            &&& #[trigger] after[i] == (EntryModel {
                attachments: after[i].attachments,
                ..versions[i]
            })
            &&& remap::faithful(versions[i].attachments, source, after[i].attachments, larger)
        } by {
            if i < shorter.len() {
                assert(after[i] == done[i] && shorter[i] == versions[i]);
                remap::lemma_faithful_extended(
                    versions[i].attachments,
                    source,
                    after[i].attachments,
                    before,
                    larger,
                );
            }
        }
    }
}

/// An entry that is carried over into another pool stands for the same data there as before, in
/// all its versions, without the dangling references, and the pool grows by nothing but data that
/// it lacked.
pub proof fn remapping_is_faithful(entry: EntryModel, source: Pool, pool: Pool, limit: nat)
    requires
        room(pool, source, limit),
        finite_names(entry),
    ensures
        ({
            let (after, larger) = remap::entry_remapped(entry, source, pool);
            &&& remap::entry_faithful(entry, source, after, larger)
            &&& after == (EntryModel {
                attachments: after.attachments,
                history: after.history,
                ..entry
            })
            &&& attachment::extends(pool, larger)
            &&& room(larger, source, limit)
        }),
{
    let (names, between) = remap::names_remapped(entry.attachments, source, pool);
    remapping_names_is_faithful(entry.attachments, source, pool, limit);
    if let Some(versions) = entry.history {
        lemma_versions(versions, source, between, limit);
        let larger = remap::versions_remapped(versions, source, between).1;
        attachment::lemma_extends_transitive(pool, between, larger);
        remap::lemma_faithful_extended(entry.attachments, source, names, between, larger);
    }
}

/// Whether a pool has all the data that names stand for in a source.
pub open spec fn imported(names: Names, source: Pool, pool: Pool) -> bool {
    forall|name: Seq<char>| #[trigger]
        names.contains_key(name) && source.contains_key(names[name]) ==> attachment::known(
            pool,
            source[names[name]].data,
        )
}

/// Names whose data a pool has already are carried over without a change of the pool.
pub proof fn remapping_again_adds_nothing(names: Names, source: Pool, pool: Pool)
    requires
        names.dom().finite(),
        imported(names, source, pool),
    ensures
        remap::names_remapped(names, source, pool).1 == pool,
{
    let listing = order::ordered::<String>(names.dom());
    order::lemma_ordered_lists::<String>(names.dom());
    assert forall|i: int| 0 <= i < listing.len() implies names.contains_key(
        #[trigger] listing[i],
    ) by {
        assert(listing.contains(listing[i]));
        assert(names.dom().contains(listing[i]));
    }
    lemma_carried_again(names, source, pool, listing);
}

proof fn lemma_carried_again(names: Names, source: Pool, pool: Pool, listed: Seq<Seq<char>>)
    requires
        imported(names, source, pool),
        forall|i: int| 0 <= i < listed.len() ==> names.contains_key(#[trigger] listed[i]),
    ensures
        remap::carried(names, source, pool, listed).1 == pool,
    decreases listed.len(),
{
    if listed.len() > 0 {
        let shorter = listed.drop_last();
        assert forall|i: int| 0 <= i < shorter.len() implies names.contains_key(
            #[trigger] shorter[i],
        ) by {
            assert(shorter[i] == listed[i]);
        }
        lemma_carried_again(names, source, pool, shorter);
        assert(names.contains_key(listed[listed.len() - 1]));
    }
}

} // verus!
