//! What the notions that contracts and laws are stated in mean.

use vstd::prelude::*;
use crate::database;
use crate::database::Database;
use crate::database::DatabaseModel;
use crate::entry::EntryModel;
use crate::group::MoveGroupError;
use crate::handles;
use crate::handles::entry::EntryMut;
use crate::handles::entry::EntryRef;
use crate::ids;
use crate::ids::AttachmentId;
use crate::ids::CustomIconId;
use crate::ids::EntryId;
use crate::ids::GroupId;
use crate::ids::Uuid;
use crate::merge;
use crate::merge::entries::Progress;
use crate::merge::log::LogModel;
use crate::merge::log::MergeError;
use crate::merge::log::MergeEvent;
use crate::merge::log::MergeEventTarget;
use crate::merge::log::MergeEventType;
use crate::merge::log::MergeLog;
use crate::order;
use crate::order::Key;
use crate::references::VersionId;
use crate::references::VersionModel;
use crate::text;
use crate::times;
use crate::times::Timestamp;
use crate::tree;

verus! {

/// A merge that came out as described left the described database, and gave the described log, or
/// the described error if there is one.
pub proof fn outcomes_are_told(
    expected: Progress,
    db: DatabaseModel,
    log: MergeLog,
    error: MergeError,
)
    ensures
        merge::outcome(expected, db, Ok(log)) <==> {
            &&& db == expected.db
            &&& expected.error is None
            &&& log.deep_view() == expected.log
        },
        merge::outcome(expected, db, Err(error)) <==> {
            &&& db == expected.db
            &&& expected.error == Some(error)
        },
{
}

/// Where no ancestor is known, it has nothing.
pub proof fn unknown_ancestors_have_nothing(
    e: EntryId,
    g: GroupId,
    i: CustomIconId,
    a: AttachmentId,
    object: Uuid,
)
    ensures
        !merge::no_ancestor().entries.contains_key(e),
        !merge::no_ancestor().groups.contains_key(g),
        !merge::no_ancestor().custom_icons.contains_key(i),
        !merge::no_ancestor().attachments.contains_key(a),
        !merge::no_ancestor().deleted_objects.contains_key(object),
{
}

/// A log with one more warning or event has it at its end, and nothing else changes.
pub proof fn logs_grow_at_their_ends(
    log: LogModel,
    warning: Seq<char>,
    target: MergeEventTarget,
    event_type: MergeEventType,
)
    ensures
        LogModel::blank().warnings.len() == 0,
        LogModel::blank().events.len() == 0,
        log.warned(warning).warnings == log.warnings.push(warning),
        log.warned(warning).events == log.events,
        log.warned_if(true, warning) == log.warned(warning),
        log.warned_if(false, warning) == log,
        log.noted(target, event_type).warnings == log.warnings,
        log.noted(target, event_type).events == log.events.push(MergeEvent { target, event_type }),
{
}

/// A clock shows full seconds from the epoch on; a second has a thousand million nanoseconds, but
/// for one that ends a minute, which may have twice as many.
pub proof fn times_are_told_by_their_numbers(time: Timestamp, seconds: i64, nanos: u32)
    ensures
        time.is_reading() <==> {
            &&& 0 <= time.spec_seconds() <= 8210266876799
            &&& time.spec_nanos() == 0
        },
        times::representable(seconds, nanos) <==> {
            &&& -8334601228800 <= seconds <= 8210266876799
            &&& nanos < 1_000_000_000 || nanos < 2_000_000_000 && seconds as int % 60 == 59
        },
{
}

/// A version of an entry is its live version, or one of its history.
pub proof fn versions_are_live_or_past(
    db: DatabaseModel,
    e: EntryId,
    i: int,
    version: EntryModel,
    k: int,
)
    ensures
        ({
            let live = VersionModel { entry: e, index: None };
            let past = VersionModel { entry: e, index: Some(i) };
            let ours = db.entries[e];
            &&& db.has_version(live) <==> db.entries.contains_key(e)
            &&& db.version(live) == ours
            &&& db.has_version(past) <==> {
                &&& db.entries.contains_key(e)
                &&& ours.history is Some
                &&& 0 <= i < ours.history->0.len()
            }
            &&& ours.history is Some && 0 <= i < ours.history->0.len() ==> {
                let after = ours.with_version_replaced(Some(i), version);
                &&& db.version(past) == ours.history->0[i]
                &&& after.history is Some
                &&& after.history->0.len() == ours.history->0.len()
                &&& after.history->0[i] == version
                &&& k != i && 0 <= k < ours.history->0.len() ==> after.history->0[k]
                    == ours.history->0[k]
                &&& after == (EntryModel { history: after.history, ..ours })
            }
            &&& ours.with_version_replaced(None, version) == version
        }),
{
}

/// A reference to an entry refers to the version that its identifier and index say, in the database
/// that it borrows.
pub proof fn references_refer_to_versions(reference: EntryRef<'_>)
    ensures
        reference.target().entry == reference.id,
        reference.target().index is Some == reference.history_index is Some,
        reference.history_index is Some ==> reference.target().index->0
            == reference.history_index->0,
        ({
            let db = reference.database.deep_view();
            &&& reference.history_index is None ==> reference.model() == db.entries[reference.id]
            &&& reference.history_index is Some ==> reference.model()
                == db.entries[reference.id].history->0[reference.history_index->0 as int]
            &&& reference.valid() <==> {
                &&& db.entries.contains_key(reference.id)
                &&& reference.history_index is Some ==> db.entries[reference.id].history is Some
                    && reference.history_index->0 < db.entries[reference.id].history->0.len()
            }
        }),
{
}

/// A mutable reference to an entry refers to the version that its identifier and index say, in the
/// database that it borrows.
pub proof fn mutable_references_refer_to_versions(reference: EntryMut<'_>)
    ensures
        reference.target().entry == reference.id,
        reference.target().index is Some == reference.history_index is Some,
        reference.history_index is Some ==> reference.target().index->0
            == reference.history_index->0,
        ({
            let db = reference.db();
            &&& reference.history_index is None ==> reference.model() == db.entries[reference.id]
            &&& reference.history_index is Some ==> reference.model()
                == db.entries[reference.id].history->0[reference.history_index->0 as int]
            &&& reference.valid() <==> {
                &&& db.entries.contains_key(reference.id)
                &&& reference.history_index is Some ==> db.entries[reference.id].history is Some
                    && reference.history_index->0 < db.entries[reference.id].history->0.len()
            }
        }),
{
}

/// In a well-formed database each group stands below its parent, which lists it; the root alone has
/// no parent; each entry is listed by its parent and by no other group; every object carries the
/// identifier under which it is stored; and from every group the way up ends at the root.
pub proof fn well_formed_databases_are_trees(
    db: DatabaseModel,
    g: GroupId,
    c: GroupId,
    e: EntryId,
    a: AttachmentId,
    i: CustomIconId,
)
    requires
        db.wf(),
    ensures
        db.groups.contains_key(db.root),
        db.groups.contains_key(g) ==> {
            &&& db.groups[g].id == g
            &&& db.groups[g].parent is None <==> g == db.root
            &&& db.groups[g].parent is Some ==> db.groups.contains_key(db.groups[g].parent->0)
                && db.groups[db.groups[g].parent->0].groups.contains(g)
            &&& db.groups[g].groups.contains(c) <==> db.groups.contains_key(c)
                && db.groups[c].parent == Some(g)
            &&& db.groups[g].entries.contains(e) <==> db.entries.contains_key(e)
                && db.entries[e].parent == g
            &&& tree::in_subtree(db.groups, g, db.root)
        },
        db.entries.contains_key(e) ==> db.entries[e].id == e && db.groups.contains_key(
            db.entries[e].parent,
        ),
        db.attachments.contains_key(a) ==> db.attachments[a].id == a,
        db.custom_icons.contains_key(i) ==> db.custom_icons[i].id == i,
{
    if db.groups.contains_key(g) {
        assert(database::group_placed(db.groups, db.root, g));
        tree::lemma_root_above_all(db.groups, db.root, g);
        if db.groups.contains_key(c) {
            assert(database::group_placed(db.groups, db.root, c));
        }
    }
    if db.entries.contains_key(e) {
        assert(database::entry_placed(db.entries, db.groups, e));
    }
}

/// In a sound database every name, in every version of every entry, stands for an attachment.
pub proof fn names_in_sound_databases_stand_for_data(
    db: DatabaseModel,
    e: EntryId,
    i: int,
    name: Seq<char>,
)
    requires
        db.sound(),
        db.entries.contains_key(e),
    ensures
        db.entries[e].attachments.contains_key(name) ==> db.attachments.contains_key(
            db.entries[e].attachments[name],
        ),
        db.entries[e].history is Some && 0 <= i < db.entries[e].history->0.len()
            && db.entries[e].history->0[i].attachments.contains_key(name)
            ==> db.attachments.contains_key(db.entries[e].history->0[i].attachments[name]),
{
    let live: Option<int> = None;
    let past: Option<int> = Some(i);
    assert(db.entries[e].has_version(live) && db.entries[e].version(live) == db.entries[e]);
    if db.entries[e].history is Some && 0 <= i < db.entries[e].history->0.len() {
        assert(db.entries[e].has_version(past));
        assert(db.entries[e].version(past) == db.entries[e].history->0[i]);
    }
}

/// Identifiers are ordered by their numbers.
pub proof fn identifiers_are_ordered_by_number(a: u128, b: u128, m: usize, n: usize)
    ensures
        Uuid::precedes(Uuid(a), Uuid(b)) <==> a < b,
        EntryId::precedes(EntryId(Uuid(a)), EntryId(Uuid(b))) <==> a < b,
        GroupId::precedes(GroupId(Uuid(a)), GroupId(Uuid(b))) <==> a < b,
        CustomIconId::precedes(CustomIconId(Uuid(a)), CustomIconId(Uuid(b))) <==> a < b,
        AttachmentId::precedes(AttachmentId(m), AttachmentId(n)) <==> m < n,
{
}

/// Texts are ordered like words in a dictionary, by code points: the empty text comes before every
/// other one; otherwise the first characters decide, and where they are the same, the rests.
pub proof fn texts_are_ordered_like_words(a: Seq<char>, b: Seq<char>)
    ensures
        a.len() == 0 ==> (text::before(a, b) <==> b.len() > 0),
        b.len() == 0 ==> !text::before(a, b),
        a.len() > 0 && b.len() > 0 && a[0] != b[0] ==> (text::before(a, b) <==> a[0] < b[0]),
        a.len() > 0 && b.len() > 0 && a[0] == b[0] ==> (text::before(a, b) <==> text::before(
            a.drop_first(),
            b.drop_first(),
        )),
{
    assert(text::agree_up_to(a, b, 0));
    if a.len() > 0 && b.len() > 0 && a[0] == b[0] {
        let x = a.drop_first();
        let y = b.drop_first();
        if text::before(a, b) {
            let n = choose|n: int| #[trigger]
                text::agree_up_to(a, b, n) && n < b.len() && (n == a.len() || a[n] < b[n]);
            assert(n > 0);
            assert forall|i: int| 0 <= i < n - 1 implies #[trigger] x[i] == y[i] by {
                assert(a[i + 1] == b[i + 1]);
            }
            assert(text::agree_up_to(x, y, n - 1));
        }
        if text::before(x, y) {
            let n = choose|n: int| #[trigger]
                text::agree_up_to(x, y, n) && n < y.len() && (n == x.len() || x[n] < y[n]);
            assert forall|i: int| 0 <= i < n + 1 implies #[trigger] a[i] == b[i] by {
                if i > 0 {
                    assert(x[i - 1] == y[i - 1]);
                }
            }
            assert(text::agree_up_to(a, b, n + 1));
        }
    } else if a.len() > 0 && b.len() > 0 && text::before(a, b) {
        let n = choose|n: int| #[trigger]
            text::agree_up_to(a, b, n) && n < b.len() && (n == a.len() || a[n] < b[n]);
        if n > 0 {
            assert(a[0] == b[0]);
        }
    }
}

/// A listing of finitely many keys holds each of them once, and nothing else, in their order.
pub proof fn listings_hold_each_key_once<K: Key>(set: Set<K::V>, key: K::V, i: int, j: int)
    requires
        set.finite(),
    ensures
        order::ordered::<K>(set).len() == set.len(),
        set.contains(key) <==> exists|n: int|
            0 <= n < order::ordered::<K>(set).len() && #[trigger] order::ordered::<K>(set)[n]
                == key,
        0 <= i < j < order::ordered::<K>(set).len() ==> K::precedes(
            order::ordered::<K>(set)[i],
            order::ordered::<K>(set)[j],
        ),
{
    order::lemma_ordered_lists::<K>(set);
    let listing = order::ordered::<K>(set);
    assert(set.contains(key) <==> listing.contains(key));
    if listing.contains(key) {
        let n = choose|n: int| 0 <= n < listing.len() && listing[n] == key;
        assert(listing[n] == key);
    }
    if exists|n: int| 0 <= n < listing.len() && #[trigger] listing[n] == key {
        assert(listing.contains(key));
    }
}

/// The text of an identifier has thirty-six characters: hyphens after the eighth, twelfth,
/// sixteenth and twentieth of thirty-two lower-case hexadecimal digits.
pub proof fn texts_of_identifiers_are_hyphenated(bits: u128, i: int)
    requires
        0 <= i < 36,
    ensures
        ids::hyphenated(bits).len() == 36,
        ids::hyphenated(bits)[i] == '-' <==> i == 8 || i == 13 || i == 18 || i == 23,
        ids::hyphenated(bits)[i] != '-' ==> '0' <= ids::hyphenated(bits)[i] <= '9' || 'a'
            <= ids::hyphenated(bits)[i] <= 'f',
{
}

/// What the messages of a failed merge say.
pub proof fn messages_of_failed_merges(
    e: EntryId,
    g: GroupId,
    time: Timestamp,
    error: MoveGroupError,
)
    ensures
        MergeError::EntryModificationTimeNotUpdated(e).spec_message() == "Entries with UUID "@
            + ids::hyphenated(e.0.0) + " have the same modification time but have diverged."@,
        MergeError::GroupModificationTimeNotUpdated(g).spec_message() == "Groups with UUID "@
            + ids::hyphenated(g.0.0) + " have the same modification time but have diverged."@,
        MergeError::DuplicateHistoryEntries(time, e).spec_message()
            == "Found history entries with the same timestamp ("@ + times::timestamp_text(
            time.spec_seconds(),
            time.spec_nanos(),
        ) + ") for entry "@ + ids::hyphenated(e.0.0) + "."@,
        MergeError::MoveGroupError(error).spec_message() == error.spec_message(),
{
}

/// Versions are ordered by their entries; of one entry the live version comes first, then those of
/// its history from the latest on.
pub proof fn versions_are_ordered_by_entry(d: EntryId, e: EntryId, i: int, j: int)
    ensures
        ({
            let live = VersionModel { entry: d, index: None };
            let past = VersionModel { entry: d, index: Some(i) };
            let other_live = VersionModel { entry: e, index: None };
            let other_past = VersionModel { entry: e, index: Some(j) };
            &&& VersionId::precedes(live, other_live) <==> d.0.0 < e.0.0
            &&& VersionId::precedes(live, other_past) <==> d.0.0 <= e.0.0
            &&& VersionId::precedes(past, other_live) <==> d.0.0 < e.0.0
            &&& VersionId::precedes(past, other_past) <==> d.0.0 < e.0.0 || d == e && i < j
        }),
{
}

/// References that refer to listed versions are as many, in the same order, each in the same
/// database to the version at its place.
pub proof fn listed_references_refer_one_by_one(
    refs: Seq<EntryRef<'_>>,
    database: &Database,
    versions: Seq<VersionModel>,
    i: int,
)
    requires
        handles::refers_to_versions(refs, database, versions),
    ensures
        refs.len() == versions.len(),
        0 <= i < refs.len() ==> {
            &&& *refs[i].database == *database
            &&& refs[i].id == versions[i].entry
            &&& refs[i].history_index is Some == versions[i].index is Some
            &&& refs[i].history_index is Some ==> refs[i].history_index->0 == versions[i].index->0
        },
{
    if 0 <= i < refs.len() {
        assert(refs[i].target() == versions[i]);
    }
}

} // verus!
