//! What of a common ancestor, and of the time of a merge, matters.

use vstd::prelude::*;
use crate::config::DatabaseConfig;
use crate::database;
use crate::database::DatabaseModel;
use crate::ids::CustomIconId;
use crate::ids::EntryId;
use crate::ids::GroupId;
use crate::laws::entries as entry_laws;
use crate::laws::gathering;
use crate::laws::merging;
use crate::laws::remerge;
use crate::laws::underway;
use crate::merge;
use crate::merge::entries;
use crate::merge::entries::Progress;
use crate::merge::groups;
use crate::merge::groups::Regrouping;
use crate::merge::icons;
use crate::merge::log::LogModel;
use crate::merge::rules;
use crate::order;
use crate::remap;
use crate::removal;
use crate::times::Times;
use crate::times::Timestamp;
use crate::tree;

verus! {

/// Whether two maps have the same for a key.
pub open spec fn same_at<K, V>(a: Map<K, V>, b: Map<K, V>, k: K) -> bool {
    &&& a.contains_key(k) == b.contains_key(k)
    &&& a.contains_key(k) ==> a[k] == b[k]
}

/// Whether two ancestors have the same for each object that one of two databases has.
pub open spec fn agree(
    a: DatabaseModel,
    b: DatabaseModel,
    dest: DatabaseModel,
    source: DatabaseModel,
) -> bool {
    &&& a.attachments == b.attachments
    &&& forall|i: CustomIconId|
        dest.custom_icons.contains_key(i) || source.custom_icons.contains_key(i)
            ==> #[trigger] same_at(a.custom_icons, b.custom_icons, i)
    &&& forall|e: EntryId|
        dest.entries.contains_key(e) || source.entries.contains_key(e) ==> #[trigger] same_at(
            a.entries,
            b.entries,
            e,
        )
    &&& forall|g: GroupId|
        dest.groups.contains_key(g) || source.groups.contains_key(g) ==> #[trigger] same_at(
            a.groups,
            b.groups,
            g,
        )
}

proof fn lemma_offered_icons(
    dest: DatabaseModel,
    source: DatabaseModel,
    a: DatabaseModel,
    b: DatabaseModel,
    listed: Seq<CustomIconId>,
    log: LogModel,
)
    requires
        agree(a, b, dest, source),
        forall|i: int|
            0 <= i < listed.len() ==> source.custom_icons.contains_key(#[trigger] listed[i]),
    ensures
        icons::offered_logs(dest, source, a, listed, log) == icons::offered_logs(
            dest,
            source,
            b,
            listed,
            log,
        ),
    decreases listed.len(),
{
    if listed.len() > 0 {
        let shorter = listed.drop_last();
        assert forall|i: int| 0 <= i < shorter.len() implies source.custom_icons.contains_key(
            #[trigger] shorter[i],
        ) by {
            assert(shorter[i] == listed[i]);
        }
        lemma_offered_icons(dest, source, a, b, shorter, log);
        assert(source.custom_icons.contains_key(listed[listed.len() - 1]));
        assert(same_at(a.custom_icons, b.custom_icons, listed.last()));
    }
}

proof fn lemma_our_icons(
    dest: DatabaseModel,
    source: DatabaseModel,
    a: DatabaseModel,
    b: DatabaseModel,
    listed: Seq<CustomIconId>,
    log: LogModel,
)
    requires
        agree(a, b, dest, source),
        forall|i: int|
            0 <= i < listed.len() ==> dest.custom_icons.contains_key(#[trigger] listed[i]),
    ensures
        icons::missing_logs(dest, source, a, listed, log) == icons::missing_logs(
            dest,
            source,
            b,
            listed,
            log,
        ),
        icons::common_logs(dest, source, a, listed, log) == icons::common_logs(
            dest,
            source,
            b,
            listed,
            log,
        ),
    decreases listed.len(),
{
    if listed.len() > 0 {
        let shorter = listed.drop_last();
        assert forall|i: int| 0 <= i < shorter.len() implies dest.custom_icons.contains_key(
            #[trigger] shorter[i],
        ) by {
            assert(shorter[i] == listed[i]);
        }
        lemma_our_icons(dest, source, a, b, shorter, log);
        assert(dest.custom_icons.contains_key(listed[listed.len() - 1]));
        assert(same_at(a.custom_icons, b.custom_icons, listed.last()));
    }
}

proof fn lemma_icons(
    dest: DatabaseModel,
    source: DatabaseModel,
    a: DatabaseModel,
    b: DatabaseModel,
    log: LogModel,
)
    requires
        dest.finite(),
        source.finite(),
        agree(a, b, dest, source),
    ensures
        icons::icons_merged(dest, source, a) == icons::icons_merged(dest, source, b),
        icons::icons_log(dest, source, a, log) == icons::icons_log(dest, source, b, log),
{
    let x = icons::icons_merged(dest, source, a);
    let y = icons::icons_merged(dest, source, b);
    assert forall|i: CustomIconId| #[trigger] icons::icon_kept(dest, source, i) implies
        icons::icon_chosen(dest, source, a, i) == icons::icon_chosen(dest, source, b, i) by {
        assert(same_at(a.custom_icons, b.custom_icons, i));
    }
    assert(x.custom_icons =~= y.custom_icons);
    assert(x =~= y);
    let ours = order::ordered::<CustomIconId>(dest.custom_icons.dom());
    let theirs = order::ordered::<CustomIconId>(source.custom_icons.dom());
    order::lemma_ordered_lists::<CustomIconId>(dest.custom_icons.dom());
    order::lemma_ordered_lists::<CustomIconId>(source.custom_icons.dom());
    assert forall|i: int| 0 <= i < ours.len() implies dest.custom_icons.contains_key(
        #[trigger] ours[i],
    ) by {
        assert(ours.contains(ours[i]));
        assert(dest.custom_icons.dom().contains(ours[i]));
    }
    assert forall|i: int| 0 <= i < theirs.len() implies source.custom_icons.contains_key(
        #[trigger] theirs[i],
    ) by {
        assert(theirs.contains(theirs[i]));
        assert(source.custom_icons.dom().contains(theirs[i]));
    }
    lemma_offered_icons(dest, source, a, b, theirs, log);
    let offered = icons::offered_logs(dest, source, a, theirs, log);
    lemma_our_icons(dest, source, a, b, ours, offered);
    let missing = icons::missing_logs(dest, source, a, ours, offered);
    lemma_our_icons(dest, source, a, b, ours, missing);
}

proof fn lemma_group_offers(
    log: LogModel,
    deleted: rules::Tombstones,
    source: DatabaseModel,
    a: DatabaseModel,
    b: DatabaseModel,
    listed: Seq<GroupId>,
)
    requires
        forall|i: int|
            0 <= i < listed.len() ==> same_at(a.groups, b.groups, #[trigger] listed[i]),
    ensures
        groups::offers_logged(log, deleted, source, a, listed) == groups::offers_logged(
            log,
            deleted,
            source,
            b,
            listed,
        ),
    decreases listed.len(),
{
    if listed.len() > 0 {
        let shorter = listed.drop_last();
        assert forall|i: int| 0 <= i < shorter.len() implies same_at(
            a.groups,
            b.groups,
            #[trigger] shorter[i],
        ) by {
            assert(shorter[i] == listed[i]);
        }
        lemma_group_offers(log, deleted, source, a, b, shorter);
        assert(same_at(a.groups, b.groups, listed[listed.len() - 1]));
    }
}

proof fn lemma_our_groups(
    p: Progress,
    source: DatabaseModel,
    a: DatabaseModel,
    b: DatabaseModel,
    listed: Seq<GroupId>,
)
    requires
        forall|i: int|
            0 <= i < listed.len() ==> same_at(a.groups, b.groups, #[trigger] listed[i]),
    ensures
        groups::all_missing(p, source, a, listed) == groups::all_missing(p, source, b, listed),
    decreases listed.len(),
{
    if listed.len() > 0 {
        let shorter = listed.drop_last();
        assert forall|i: int| 0 <= i < shorter.len() implies same_at(
            a.groups,
            b.groups,
            #[trigger] shorter[i],
        ) by {
            assert(shorter[i] == listed[i]);
        }
        lemma_our_groups(p, source, a, b, shorter);
        assert(same_at(a.groups, b.groups, listed[listed.len() - 1]));
    }
}

proof fn lemma_offered_entries(
    p: Progress,
    source: DatabaseModel,
    a: DatabaseModel,
    b: DatabaseModel,
    listed: Seq<EntryId>,
)
    requires
        a.attachments == b.attachments,
        forall|i: int|
            0 <= i < listed.len() ==> same_at(a.entries, b.entries, #[trigger] listed[i]),
    ensures
        entries::all_offered(p, source, a, listed) == entries::all_offered(p, source, b, listed),
    decreases listed.len(),
{
    if listed.len() > 0 {
        let shorter = listed.drop_last();
        assert forall|i: int| 0 <= i < shorter.len() implies same_at(
            a.entries,
            b.entries,
            #[trigger] shorter[i],
        ) by {
            assert(shorter[i] == listed[i]);
        }
        lemma_offered_entries(p, source, a, b, shorter);
        assert(same_at(a.entries, b.entries, listed[listed.len() - 1]));
        reveal(entries::entry_offered);
    }
}

proof fn lemma_our_entries(
    p: Progress,
    source: DatabaseModel,
    a: DatabaseModel,
    b: DatabaseModel,
    listed: Seq<EntryId>,
)
    requires
        a.attachments == b.attachments,
        forall|i: int|
            0 <= i < listed.len() ==> same_at(a.entries, b.entries, #[trigger] listed[i]),
    ensures
        entries::all_missing(p, source, a, listed) == entries::all_missing(p, source, b, listed),
    decreases listed.len(),
{
    if listed.len() > 0 {
        let shorter = listed.drop_last();
        assert forall|i: int| 0 <= i < shorter.len() implies same_at(
            a.entries,
            b.entries,
            #[trigger] shorter[i],
        ) by {
            assert(shorter[i] == listed[i]);
        }
        lemma_our_entries(p, source, a, b, shorter);
        assert(same_at(a.entries, b.entries, listed[listed.len() - 1]));
        reveal(entries::entry_missing);
    }
}

/// Entries that are not listed are left alone.
proof fn lemma_unlisted(
    p: Progress,
    source: DatabaseModel,
    base: DatabaseModel,
    now: Timestamp,
    listed: Seq<EntryId>,
    e: EntryId,
)
    requires
        source.wf(),
        p.db.entries.contains_key(e),
        !listed.contains(e),
    ensures
        entries::all_common(p, source, base, now, listed).db.entries.contains_key(e),
        entries::all_common(p, source, base, now, listed).db.entries[e] == p.db.entries[e],
    decreases listed.len(),
{
    if listed.len() > 0 {
        let shorter = listed.drop_last();
        if shorter.contains(e) {
            let n = choose|n: int| 0 <= n < shorter.len() && shorter[n] == e;
            assert(listed[n] == e);
        }
        lemma_unlisted(p, source, base, now, shorter, e);
        let last = listed.last();
        assert(listed[listed.len() - 1] == last);
        if source.entries.contains_key(last) {
            assert(database::entry_placed(source.entries, source.groups, last));
        }
        entry_laws::other_entries_are_left_alone(
            entries::all_common(p, source, base, now, shorter),
            source,
            base,
            now,
            last,
            e,
        );
    }
}

proof fn lemma_common_entries(
    p: Progress,
    source: DatabaseModel,
    a: DatabaseModel,
    b: DatabaseModel,
    now: Timestamp,
    later: Timestamp,
    listed: Seq<EntryId>,
)
    requires
        a.attachments == b.attachments,
        source.wf(),
        listed.no_duplicates(),
        forall|i: int|
            0 <= i < listed.len() ==> same_at(a.entries, b.entries, #[trigger] listed[i])
                && p.db.entries.contains_key(listed[i]) && (now == later
                || p.db.entries[listed[i]].times.last_modification is Some),
    ensures
        entries::all_common(p, source, a, now, listed) == entries::all_common(
            p,
            source,
            b,
            later,
            listed,
        ),
    decreases listed.len(),
{
    if listed.len() > 0 {
        let shorter = listed.drop_last();
        let e = listed[listed.len() - 1];
        assert forall|i: int| 0 <= i < shorter.len() implies same_at(
            a.entries,
            b.entries,
            #[trigger] shorter[i],
        ) && p.db.entries.contains_key(shorter[i]) && (now == later
            || p.db.entries[shorter[i]].times.last_modification is Some) by {
            assert(shorter[i] == listed[i]);
            assert(same_at(a.entries, b.entries, listed[i]));
        }
        assert(!shorter.contains(e)) by {
            if shorter.contains(e) {
                let n = choose|n: int| 0 <= n < shorter.len() && shorter[n] == e;
                assert(listed[n] == e);
            }
        }
        lemma_common_entries(p, source, a, b, now, later, shorter);
        lemma_unlisted(p, source, a, now, shorter, e);
        assert(same_at(a.entries, b.entries, e));
        reveal(entries::entry_common);
    }
}

proof fn lemma_common_groups(
    r: Regrouping,
    source: DatabaseModel,
    a: DatabaseModel,
    b: DatabaseModel,
    now: Timestamp,
    later: Timestamp,
    known: Set<GroupId>,
    listed: Seq<GroupId>,
)
    requires
        r.p.error is None,
        r.moves.len() == 0,
        listed.no_duplicates(),
        forall|i: int|
            0 <= i < listed.len() ==> same_at(a.groups, b.groups, #[trigger] listed[i])
                && known.contains(listed[i]) && (now == later
                || r.p.db.groups[listed[i]].times.last_modification is Some),
        now == later || gathering::bare(r.p.db).wf() && known == r.p.db.groups.dom(),
    ensures
        groups::all_common(r, source, a, now, known, listed) == groups::all_common(
            r,
            source,
            b,
            later,
            known,
            listed,
        ),
    decreases listed.len(),
{
    if listed.len() > 0 {
        let shorter = listed.drop_last();
        let g = listed[listed.len() - 1];
        assert forall|i: int| 0 <= i < shorter.len() implies same_at(
            a.groups,
            b.groups,
            #[trigger] shorter[i],
        ) && known.contains(shorter[i]) && (now == later
            || r.p.db.groups[shorter[i]].times.last_modification is Some) by {
            assert(shorter[i] == listed[i]);
            assert(same_at(a.groups, b.groups, listed[i]));
        }
        assert(!shorter.contains(g)) by {
            if shorter.contains(g) {
                let n = choose|n: int| 0 <= n < shorter.len() && shorter[n] == g;
                assert(listed[n] == g);
            }
        }
        lemma_common_groups(r, source, a, b, now, later, known, shorter);
        let before = groups::all_common(r, source, a, now, known, shorter);
        assert(same_at(a.groups, b.groups, g));
        if now != later && before.p.error is None {
            gathering::lemma_common(r, source, a, now, known, shorter);
            assert(gathering::same_node(before.p.db.groups[g], r.p.db.groups[g]));
            if before.p.error is None {
                lemma_group_step(before, source, a, b, now, later, known, g);
            }
        } else if before.p.error is None {
            lemma_group_step(before, source, a, b, now, later, known, g);
        }
    }
}

/// Dealing with a group that both sides have depends on the ancestor's version of that group only,
/// and on the time only if the group has none.
proof fn lemma_group_step(
    r: Regrouping,
    source: DatabaseModel,
    a: DatabaseModel,
    b: DatabaseModel,
    now: Timestamp,
    later: Timestamp,
    known: Set<GroupId>,
    g: GroupId,
)
    requires
        same_at(a.groups, b.groups, g),
        now == later || r.p.db.groups[g].times.last_modification is Some,
    ensures
        groups::group_common(r, source, a, now, known, g) == groups::group_common(
            r,
            source,
            b,
            later,
            known,
            g,
        ),
{
    reveal(groups::group_common);
    let ours = r.p.db.groups[g];
    if let groups::Placement::Move(to, time) = groups::placement(
        ours,
        source.groups[g],
        known,
    ) {
        let moved = tree::group_moved(r.p.db, g, r.p.db.root);
        assert(moved.groups[g].times == ours.times);
        let up = groups::group_uprooted(r.p, g, time);
        if up.error is None {
            assert(up.db.groups[g].times.last_modification == ours.times.last_modification);
        }
    }
}

/// Whether groups and entries make up a tree, with groups of the destination and the source in
/// their places.
pub open spec fn in_order(
    db: DatabaseModel,
    dest: DatabaseModel,
    source: DatabaseModel,
    known: Set<GroupId>,
) -> bool {
    &&& gathering::bare(db).wf()
    &&& gathering::groups_from(db.groups, dest, source)
    &&& db.groups.dom() == known
}

proof fn lemma_offered_in_order(
    p: Progress,
    dest: DatabaseModel,
    source: DatabaseModel,
    base: DatabaseModel,
    known: Set<GroupId>,
    listed: Seq<EntryId>,
)
    requires
        source.wf(),
        in_order(p.db, dest, source, known),
        listed.no_duplicates(),
        forall|i: int|
            0 <= i < listed.len() ==> source.entries.contains_key(#[trigger] listed[i])
                && !p.db.entries.contains_key(listed[i]),
    ensures
        in_order(entries::all_offered(p, source, base, listed).db, dest, source, known),
    decreases listed.len(),
{
    if listed.len() > 0 {
        let shorter = listed.drop_last();
        let e = listed[listed.len() - 1];
        assert(source.entries.contains_key(e) && !p.db.entries.contains_key(e));
        assert forall|i: int| 0 <= i < shorter.len() implies source.entries.contains_key(
            #[trigger] shorter[i],
        ) && !p.db.entries.contains_key(shorter[i]) by {
            assert(shorter[i] == listed[i]);
            assert(source.entries.contains_key(listed[i]));
        }
        assert(!shorter.contains(e)) by {
            if shorter.contains(e) {
                let n = choose|n: int| 0 <= n < shorter.len() && shorter[n] == e;
                assert(listed[n] == e);
            }
        }
        lemma_offered_in_order(p, dest, source, base, known, shorter);
        assert forall|x: EntryId| #[trigger] source.entries.contains_key(x) implies
            source.entries[x].id == x by {
            assert(database::entry_placed(source.entries, source.groups, x));
        }
        merging::lemma_offered(p, source, base, shorter);
        let before = entries::all_offered(p, source, base, shorter);
        let after = entries::all_offered(p, source, base, listed);
        assert(!before.db.entries.contains_key(e));
        reveal(entries::entry_offered);
        let theirs = source.entries[e];
        let (carried, pool) = remap::entry_remapped(
            theirs,
            source.attachments,
            before.db.attachments,
        );
        if rules::revived(before.db.deleted_objects, e.0, theirs.times.updated()) {
            if before.db.groups.contains_key(theirs.parent) {
                assert(after.db.groups.dom() =~= before.db.groups.dom());
                gathering::lemma_places_kept(before.db.groups, after.db.groups, dest, source);
                tree::lemma_entry_added_wf(gathering::bare(before.db), theirs.parent, carried);
                assert(gathering::bare(after.db) =~= tree::entry_added(
                    gathering::bare(before.db),
                    theirs.parent,
                    carried,
                ));
            } else {
                assert(gathering::bare(after.db) =~= gathering::bare(before.db));
            }
        }
    }
}

proof fn lemma_missing_in_order(
    p: Progress,
    dest: DatabaseModel,
    source: DatabaseModel,
    base: DatabaseModel,
    known: Set<GroupId>,
    listed: Seq<EntryId>,
)
    requires
        in_order(p.db, dest, source, known),
    ensures
        in_order(entries::all_missing(p, source, base, listed).db, dest, source, known),
    decreases listed.len(),
{
    if listed.len() > 0 {
        let shorter = listed.drop_last();
        let e = listed.last();
        lemma_missing_in_order(p, dest, source, base, known, shorter);
        reveal(entries::entry_missing);
        let before = entries::all_missing(p, source, base, shorter);
        let after = entries::all_missing(p, source, base, listed);
        if rules::buried(source.deleted_objects, e.0, before.db.entries[e].times.updated()) {
            let gone = Set::<EntryId>::empty().insert(e);
            assert(after.db.groups.dom() =~= before.db.groups.dom());
            gathering::lemma_places_kept(before.db.groups, after.db.groups, dest, source);
            removal::lemma_entries_removed_wf(gathering::bare(before.db), gone);
            let bared = removal::entries_removed(gathering::bare(before.db), gone);
            assert(bared.attachments =~= Map::empty());
            assert(bared.groups =~= after.db.groups);
            assert(gathering::bare(after.db) =~= (DatabaseModel {
                deleted_objects: after.db.deleted_objects,
                ..bared
            }));
        }
    }
}

proof fn lemma_common_in_order(
    p: Progress,
    dest: DatabaseModel,
    source: DatabaseModel,
    base: DatabaseModel,
    now: Timestamp,
    known: Set<GroupId>,
    listed: Seq<EntryId>,
)
    requires
        source.wf(),
        p.error is None,
        in_order(p.db, dest, source, known),
        listed.no_duplicates(),
        forall|i: int|
            0 <= i < listed.len() ==> p.db.entries.contains_key(#[trigger] listed[i])
                && p.db.entries[listed[i]] == dest.entries[listed[i]],
    ensures
        in_order(entries::all_common(p, source, base, now, listed).db, dest, source, known),
    decreases listed.len(),
{
    if listed.len() > 0 {
        let shorter = listed.drop_last();
        let e = listed[listed.len() - 1];
        assert(p.db.entries.contains_key(e));
        assert forall|i: int| 0 <= i < shorter.len() implies p.db.entries.contains_key(
            #[trigger] shorter[i],
        ) && p.db.entries[shorter[i]] == dest.entries[shorter[i]] by {
            assert(shorter[i] == listed[i]);
            assert(p.db.entries.contains_key(listed[i]));
        }
        assert(!shorter.contains(e)) by {
            if shorter.contains(e) {
                let n = choose|n: int| 0 <= n < shorter.len() && shorter[n] == e;
                assert(listed[n] == e);
            }
        }
        lemma_common_in_order(p, dest, source, base, now, known, shorter);
        lemma_unlisted(p, source, base, now, shorter, e);
        let before = entries::all_common(p, source, base, now, shorter);
        let after = entries::all_common(p, source, base, now, listed);
        if before.error is None {
            reveal(entries::entry_common);
            underway::lemma_relocated(before, dest, source, known, e);
            let q = entries::entry_relocated(before, source, e);
            if after.db != q.db {
                let entry = after.db.entries[e];
                entries::lemma_entry_changed_wf(gathering::bare(q.db), e, entry);
                assert(gathering::bare(after.db) =~= (DatabaseModel {
                    entries: q.db.entries.insert(e, entry),
                    ..gathering::bare(q.db)
                }));
            }
        }
    }
}

/// The merging of entries.
proof fn lemma_entries(
    p: Progress,
    dest: DatabaseModel,
    source: DatabaseModel,
    a: DatabaseModel,
    b: DatabaseModel,
    now: Timestamp,
    later: Timestamp,
    known: Set<GroupId>,
)
    requires
        dest.finite(),
        source.finite(),
        source.wf(),
        p.error is None,
        p.db.entries == dest.entries,
        agree(a, b, dest, source),
        now == later || remerge::dated(dest) && in_order(p.db, dest, source, known),
    ensures
        entries::entries_merged(p, source, a, now) == entries::entries_merged(p, source, b, later),
        now == later || in_order(
            entries::entries_merged(p, source, a, now).db,
            dest,
            source,
            known,
        ),
{
    let ours = dest.entries.dom();
    let theirs = source.entries.dom();
    let offered_ids = order::ordered::<EntryId>(theirs.difference(ours));
    let missing_ids = order::ordered::<EntryId>(ours.difference(theirs));
    let common_ids = order::ordered::<EntryId>(ours.intersect(theirs));
    order::lemma_ordered_lists::<EntryId>(theirs.difference(ours));
    order::lemma_ordered_lists::<EntryId>(ours.difference(theirs));
    order::lemma_ordered_lists::<EntryId>(ours.intersect(theirs));
    order::lemma_increasing_no_duplicates::<EntryId>(offered_ids);
    order::lemma_increasing_no_duplicates::<EntryId>(common_ids);
    assert forall|i: int| 0 <= i < offered_ids.len() implies source.entries.contains_key(
        #[trigger] offered_ids[i],
    ) && !p.db.entries.contains_key(offered_ids[i]) && same_at(
        a.entries,
        b.entries,
        offered_ids[i],
    ) by {
        assert(offered_ids.contains(offered_ids[i]));
        assert(theirs.difference(ours).contains(offered_ids[i]));
    }
    assert forall|x: EntryId| #[trigger] source.entries.contains_key(x) implies
        source.entries[x].id == x by {
        assert(database::entry_placed(source.entries, source.groups, x));
    }
    assert forall|i: int| 0 <= i < offered_ids.len() implies same_at(
        a.entries,
        b.entries,
        #[trigger] offered_ids[i],
    ) by {
        assert(source.entries.contains_key(offered_ids[i]));
    }
    lemma_offered_entries(p, source, a, b, offered_ids);
    merging::lemma_offered(p, source, a, offered_ids);
    let offered = entries::all_offered(p, source, a, offered_ids);
    assert forall|i: int| 0 <= i < missing_ids.len() implies same_at(
        a.entries,
        b.entries,
        #[trigger] missing_ids[i],
    ) by {
        assert(missing_ids.contains(missing_ids[i]));
        assert(ours.difference(theirs).contains(missing_ids[i]));
    }
    lemma_our_entries(offered, source, a, b, missing_ids);
    merging::lemma_missing(offered, source, a, missing_ids);
    let missing = entries::all_missing(offered, source, a, missing_ids);
    assert forall|i: int| 0 <= i < common_ids.len() implies same_at(
        a.entries,
        b.entries,
        #[trigger] common_ids[i],
    ) && missing.db.entries.contains_key(common_ids[i]) && missing.db.entries[common_ids[i]]
        == dest.entries[common_ids[i]] && (now == later
        || missing.db.entries[common_ids[i]].times.last_modification is Some) by {
        let e = common_ids[i];
        assert(common_ids.contains(e));
        assert(ours.intersect(theirs).contains(e));
        assert(dest.entries.contains_key(e));
        assert(!offered_ids.contains(e)) by {
            assert(!theirs.difference(ours).contains(e));
        }
        assert(!missing_ids.contains(e)) by {
            assert(!ours.difference(theirs).contains(e));
        }
        assert(offered.db.entries.contains_key(e));
    }
    lemma_common_entries(missing, source, a, b, now, later, common_ids);
    if now != later {
        lemma_offered_in_order(p, dest, source, a, known, offered_ids);
        lemma_missing_in_order(offered, dest, source, a, known, missing_ids);
        assert forall|i: int| 0 <= i < common_ids.len() implies missing.db.entries.contains_key(
            #[trigger] common_ids[i],
        ) && missing.db.entries[common_ids[i]] == dest.entries[common_ids[i]] by {
            assert(same_at(a.entries, b.entries, common_ids[i]));
        }
        lemma_common_in_order(missing, dest, source, a, now, known, common_ids);
    }
}

/// Of an ancestor only the objects matter that one of the two databases has, and the time of the
/// merge does not matter where all objects have modification times.
proof fn lemma_merged(
    dest: DatabaseModel,
    source: DatabaseModel,
    a: DatabaseModel,
    b: DatabaseModel,
    now: Timestamp,
    later: Timestamp,
)
    requires
        dest.finite(),
        source.finite(),
        source.wf(),
        agree(a, b, dest, source),
        now == later || {
            &&& dest.wf()
            &&& merge::mergeable(dest, source, a)
            &&& remerge::dated(dest)
            &&& remerge::dated(source)
        },
    ensures
        merge::merged(dest, source, a, now) == merge::merged(dest, source, b, later),
        merge::mergeable(dest, source, a) == merge::mergeable(dest, source, b),
{
    lemma_icons(dest, source, a, b, LogModel::blank());
    let start = icons::icons_merged(dest, source, a);
    let p = entries::going(start, icons::icons_log(dest, source, a, LogModel::blank()));
    let offered = order::ordered::<GroupId>(source.groups.dom().difference(start.groups.dom()));
    order::lemma_ordered_lists::<GroupId>(source.groups.dom().difference(start.groups.dom()));
    assert forall|i: int| 0 <= i < offered.len() implies same_at(
        a.groups,
        b.groups,
        #[trigger] offered[i],
    ) by {
        assert(offered.contains(offered[i]));
        assert(source.groups.dom().difference(start.groups.dom()).contains(offered[i]));
    }
    lemma_group_offers(p.log, start.deleted_objects, source, a, b, offered);
    let added = groups::groups_added(p, source, a);
    assert(added == groups::groups_added(p, source, b));
    let only_ours = order::ordered::<GroupId>(start.groups.dom().difference(source.groups.dom()));
    order::lemma_ordered_lists::<GroupId>(start.groups.dom().difference(source.groups.dom()));
    assert forall|i: int| 0 <= i < only_ours.len() implies same_at(
        a.groups,
        b.groups,
        #[trigger] only_ours[i],
    ) by {
        assert(only_ours.contains(only_ours[i]));
        assert(start.groups.dom().difference(source.groups.dom()).contains(only_ours[i]));
    }
    lemma_our_groups(added, source, a, b, only_ours);
    merging::lemma_groups_missing(added, source, a, only_ours);
    let decided = groups::all_missing(added, source, a, only_ours);
    merging::lemma_restored(
        entries::going(
            start,
            groups::offers_logged(p.log, start.deleted_objects, source, a, offered),
        ),
        source,
        order::ordered::<GroupId>(groups::groups_to_add(start, source)),
    );
    let known = added.db.groups.dom();
    if now != later {
        underway::lemma_gathered(dest, source, a);
        assert(in_order(decided.db, dest, source, known));
    }
    lemma_entries(decided, dest, source, a, b, now, later, known);
    let merged = entries::entries_merged(decided, source, a, now);
    if merged.error is None {
        let doomed = groups::doomed(added.db.groups, added.db.entries, source, only_ours);
        let left = Progress { db: groups::all_removed(merged.db, doomed), ..merged };
        if now != later {
            gathering::lemma_all_removed(merged.db, doomed);
            gathering::lemma_places_kept(merged.db.groups, left.db.groups, dest, source);
        }
        let there = left.db.groups.dom();
        let shared = there.intersect(source.groups.dom());
        vstd::set_lib::lemma_len_subset(shared, source.groups.dom());
        let listing = order::ordered::<GroupId>(shared);
        order::lemma_ordered_lists::<GroupId>(shared);
        order::lemma_increasing_no_duplicates::<GroupId>(listing);
        assert forall|i: int| 0 <= i < listing.len() implies same_at(
            a.groups,
            b.groups,
            #[trigger] listing[i],
        ) && there.contains(listing[i]) && (now == later
            || left.db.groups[listing[i]].times.last_modification is Some) by {
            assert(listing.contains(listing[i]));
            assert(shared.contains(listing[i]));
            assert(left.db.groups.contains_key(listing[i]));
            if now != later {
                assert(gathering::group_from(left.db.groups, dest, source, listing[i]));
            }
        }
        lemma_common_groups(
            Regrouping { p: left, moves: Seq::empty() },
            source,
            a,
            b,
            now,
            later,
            there,
            listing,
        );
    }
}

/// Of a common ancestor only the objects matter that one of the two databases has: ancestors that
/// agree on these lead to the same merge.
pub proof fn only_known_objects_of_an_ancestor_matter(
    dest: DatabaseModel,
    source: DatabaseModel,
    a: DatabaseModel,
    b: DatabaseModel,
    now: Timestamp,
)
    requires
        dest.finite(),
        source.finite(),
        source.wf(),
        agree(a, b, dest, source),
    ensures
        merge::merged(dest, source, a, now) == merge::merged(dest, source, b, now),
        merge::mergeable(dest, source, a) == merge::mergeable(dest, source, b),
{
    lemma_merged(dest, source, a, b, now, now);
}

/// Where all entries and groups have modification times, it does not matter when a merge is done.
pub proof fn time_of_merge_does_not_matter(
    dest: DatabaseModel,
    source: DatabaseModel,
    base: DatabaseModel,
    now: Timestamp,
    later: Timestamp,
)
    requires
        dest.finite(),
        source.finite(),
        dest.wf(),
        source.wf(),
        merge::mergeable(dest, source, base),
        remerge::dated(dest),
        remerge::dated(source),
    ensures
        merge::merged(dest, source, base, now) == merge::merged(dest, source, base, later),
{
    lemma_merged(dest, source, base, base, now, later);
}

/// Merging without an ancestor is merging with a new database as the ancestor, if the root group
/// of that is in neither of the two databases. If both are done at different times, all entries and
/// groups must have modification times.
pub proof fn merge_is_merge_with_a_new_ancestor(
    dest: DatabaseModel,
    source: DatabaseModel,
    config: DatabaseConfig,
    root: GroupId,
    times: Times,
    now: Timestamp,
    later: Timestamp,
)
    requires
        dest.finite(),
        source.finite(),
        dest.wf(),
        source.wf(),
        merge::mergeable(dest, source, merge::no_ancestor()),
        !dest.groups.contains_key(root),
        !source.groups.contains_key(root),
        now == later || remerge::dated(dest) && remerge::dated(source),
    ensures
        ({
            let ancestor = DatabaseModel::initial(config, root, times);
            &&& merge::mergeable(dest, source, ancestor)
            &&& merge::merged(dest, source, ancestor, now) == merge::merged(
                dest,
                source,
                merge::no_ancestor(),
                later,
            )
        }),
{
    let ancestor = DatabaseModel::initial(config, root, times);
    let none = merge::no_ancestor();
    assert(agree(none, ancestor, dest, source));
    lemma_merged(dest, source, none, ancestor, later, now);
}

} // verus!
