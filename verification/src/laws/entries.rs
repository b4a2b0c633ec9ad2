//! What holds of the merging of a single entry, and of what it leaves alone.

use vstd::prelude::*;
use crate::database::DatabaseModel;
use crate::entry;
use crate::entry::EntryModel;
use crate::ids::EntryId;
use crate::laws::history as history_laws;
use crate::merge::entries;
use crate::merge::entries::Progress;
use crate::merge::history;
use crate::merge::log::MergeError;
use crate::merge::log::MergeEvent;
use crate::merge::log::MergeEventTarget;
use crate::merge::log::MergeEventType;
use crate::merge::rules;
use crate::remap;
use crate::times::Timestamp;

verus! {

/// Whether both sides have an entry, with modification times and histories.
pub open spec fn common_and_dated(p: Progress, source: DatabaseModel, id: EntryId) -> bool {
    &&& p.error is None
    &&& p.db.entries.contains_key(id)
    &&& source.entries.contains_key(id)
    &&& p.db.entries[id].times.last_modification is Some
    &&& source.entries[id].times.last_modification is Some
    &&& p.db.entries[id].history is Some
    &&& source.entries[id].history is Some
}

/// When the destination's version of an entry was modified.
pub open spec fn our_time(p: Progress, id: EntryId) -> Timestamp {
    p.db.entries[id].times.last_modification->0
}

/// When the source's version of an entry was modified.
pub open spec fn their_time(source: DatabaseModel, id: EntryId) -> Timestamp {
    source.entries[id].times.last_modification->0
}

/// When the common ancestor's version of an entry was modified, as far as it is known.
pub open spec fn base_time(base: DatabaseModel, id: EntryId) -> Option<Timestamp> {
    if base.entries.contains_key(id) {
        base.entries[id].times.last_modification
    } else {
        None
    }
}

/// Whether two entries agree in everything that a merge takes over, but for attachments, which
/// are identified differently in different databases.
pub open spec fn same_fields(a: EntryModel, b: EntryModel) -> bool {
    &&& a.fields == b.fields
    &&& a.autotype == b.autotype
    &&& a.tags == b.tags
    &&& a.custom_data == b.custom_data
    &&& a.icon == b.icon
    &&& a.foreground_color == b.foreground_color
    &&& a.background_color == b.background_color
    &&& a.override_url == b.override_url
    &&& a.quality_check == b.quality_check
    &&& a.times.last_modification == b.times.last_modification
}

/// Where the two sides of an entry differ in their modification times, and the source was changed
/// since the common ancestor or none is known, the newer side wins.
pub proof fn newest_entry_wins(
    p: Progress,
    source: DatabaseModel,
    base: DatabaseModel,
    now: Timestamp,
    id: EntryId,
)
    requires
        common_and_dated(p, source, id),
        our_time(p, id) != their_time(source, id),
        rules::changed_since(base_time(base, id), their_time(source, id)),
    ensures
        ({
            let after = entries::entry_settled(p, source, base, now, id);
            &&& after.error is None
            &&& after.db.entries.contains_key(id)
            &&& our_time(p, id).before(their_time(source, id)) ==> same_fields(
                after.db.entries[id],
                source.entries[id],
            )
            &&& their_time(source, id).before(our_time(p, id)) ==> same_fields(
                after.db.entries[id],
                p.db.entries[id],
            ) && after.db.entries[id].attachments == p.db.entries[id].attachments
        }),
{
    broadcast use Timestamp::numbers_decide;

    let theirs = source.entries[id].without_history();
    let our_versions = entries::versions_or_none(p.db.entries[id].history);
    let their_versions = entries::versions_or_none(source.entries[id].history);
    let pool = history::all_carried(their_versions, source.attachments, p.db.attachments).1;
    let incoming = remap::entry_remapped(theirs, source.attachments, pool).0;
    assert(same_fields(incoming, theirs));
}

/// Changed in the destination only since the common ancestor: the destination's value is kept,
/// silently.
pub proof fn our_change_is_kept_silently(
    p: Progress,
    source: DatabaseModel,
    base: DatabaseModel,
    now: Timestamp,
    id: EntryId,
)
    requires
        common_and_dated(p, source, id),
        our_time(p, id) != their_time(source, id),
        !rules::changed_since(base_time(base, id), their_time(source, id)),
    ensures
        entries::entry_settled(p, source, base, now, id) == p,
{
}

/// Changed in the source only since the common ancestor: the source's value is taken, and the log
/// gets nothing but the change and what the merging of the histories warns of.
pub proof fn their_change_is_taken_silently(
    p: Progress,
    source: DatabaseModel,
    base: DatabaseModel,
    now: Timestamp,
    id: EntryId,
)
    requires
        common_and_dated(p, source, id),
        base_time(base, id) is Some,
        !rules::changed_since(base_time(base, id), our_time(p, id)),
        rules::changed_since(base_time(base, id), their_time(source, id)),
    ensures
        ({
            let after = entries::entry_settled(p, source, base, now, id);
            &&& after.error is None
            &&& same_fields(after.db.entries[id], source.entries[id])
            &&& after.log == history::history_logged(
                p.log,
                p.db.entries[id].history->0,
                source.entries[id].history->0,
                source.attachments,
                p.db.attachments,
            ).noted(MergeEventTarget::Entry(id), MergeEventType::Updated)
        }),
{
    broadcast use Timestamp::numbers_decide;

    let time = base_time(base, id)->0;
    assert(time.before(their_time(source, id)));
    assert(!time.before(our_time(p, id)));
    assert(our_time(p, id).before(their_time(source, id)));
    newest_entry_wins(p, source, base, now, id);
}

/// Changed differently in both since the common ancestor, at different times: the merge warns of
/// the conflict, once.
pub proof fn conflict_is_warned_of(
    p: Progress,
    source: DatabaseModel,
    base: DatabaseModel,
    now: Timestamp,
    id: EntryId,
)
    requires
        common_and_dated(p, source, id),
        our_time(p, id) != their_time(source, id),
        base_time(base, id) is Some,
        rules::changed_since(base_time(base, id), our_time(p, id)),
        rules::changed_since(base_time(base, id), their_time(source, id)),
        !remap::equivalent(
            p.db.entries[id],
            p.db.attachments,
            source.entries[id],
            source.attachments,
        ),
    ensures
        entries::entry_settled(p, source, base, now, id) == entries::entry_blended(
            p.db,
            p.log.warned(
                entries::about(
                    "Entry "@,
                    id,
                    " was modified in both databases since the common ancestor. Resolving by keeping the most recently modified version."@,
                ),
            ),
            source,
            id,
            our_time(p, id).before(their_time(source, id)),
        ),
{
}

/// Changed identically in both since the common ancestor, though at different times: there is no
/// conflict to warn of.
pub proof fn identical_change_is_no_conflict(
    p: Progress,
    source: DatabaseModel,
    base: DatabaseModel,
    now: Timestamp,
    id: EntryId,
)
    requires
        common_and_dated(p, source, id),
        our_time(p, id) != their_time(source, id),
        rules::changed_since(base_time(base, id), their_time(source, id)),
        remap::equivalent(
            p.db.entries[id],
            p.db.attachments,
            source.entries[id],
            source.attachments,
        ),
    ensures
        entries::entry_settled(p, source, base, now, id) == entries::entry_blended(
            p.db,
            p.log,
            source,
            id,
            our_time(p, id).before(their_time(source, id)),
        ),
{
}

/// Identical content at the same time needs no resolution: nothing changes.
pub proof fn same_change_is_left_alone(
    p: Progress,
    source: DatabaseModel,
    base: DatabaseModel,
    now: Timestamp,
    id: EntryId,
)
    requires
        common_and_dated(p, source, id),
        our_time(p, id) == their_time(source, id),
        remap::equivalent(
            p.db.entries[id],
            p.db.attachments,
            source.entries[id],
            source.attachments,
        ),
    ensures
        entries::entry_settled(p, source, base, now, id) == p,
{
}

/// Different content at the same time cannot be resolved without a common ancestor: the merge
/// ends with the error that names the entry, and leaves the entry as it is.
pub proof fn undecidable_entry_is_an_error(
    p: Progress,
    source: DatabaseModel,
    base: DatabaseModel,
    now: Timestamp,
    id: EntryId,
)
    requires
        common_and_dated(p, source, id),
        our_time(p, id) == their_time(source, id),
        !remap::equivalent(
            p.db.entries[id],
            p.db.attachments,
            source.entries[id],
            source.attachments,
        ),
        !base.entries.contains_key(id),
    ensures
        entries::entry_settled(p, source, base, now, id) == (Progress {
            error: Some(MergeError::EntryModificationTimeNotUpdated(id)),
            ..p
        }),
{
}

/// Different content at the same time, with a common ancestor: the source's content is taken if
/// only the source differs from the ancestor, and otherwise the destination's is kept.
pub proof fn tie_is_broken_by_ancestor(
    p: Progress,
    source: DatabaseModel,
    base: DatabaseModel,
    now: Timestamp,
    id: EntryId,
)
    requires
        common_and_dated(p, source, id),
        our_time(p, id) == their_time(source, id),
        !remap::equivalent(
            p.db.entries[id],
            p.db.attachments,
            source.entries[id],
            source.attachments,
        ),
        base.entries.contains_key(id),
    ensures
        ({
            let after = entries::entry_settled(p, source, base, now, id);
            let we_changed = entries::differs_from_base(
                p.db.entries[id],
                p.db.attachments,
                base,
                id,
            );
            let they_changed = entries::differs_from_base(
                source.entries[id],
                source.attachments,
                base,
                id,
            );
            &&& after.error is None
            &&& they_changed && !we_changed ==> same_fields(after.db.entries[id], source.entries[id])
            &&& !(they_changed && !we_changed) ==> same_fields(
                after.db.entries[id],
                p.db.entries[id],
            )
        }),
{
    let theirs = source.entries[id].without_history();
    let their_versions = entries::versions_or_none(source.entries[id].history);
    let pool = history::all_carried(their_versions, source.attachments, p.db.attachments).1;
    let incoming = remap::entry_remapped(theirs, source.attachments, pool).0;
    assert(same_fields(incoming, theirs));
}

/// Whenever the histories of an entry are merged, no version of the destination's history is lost.
pub proof fn settling_keeps_our_history(
    p: Progress,
    source: DatabaseModel,
    base: DatabaseModel,
    now: Timestamp,
    id: EntryId,
    i: int,
)
    requires
        common_and_dated(p, source, id),
        0 <= i < p.db.entries[id].history->0.len(),
    ensures
        ({
            let before = p.db.entries[id].history->0[i];
            let after = entries::entry_settled(p, source, base, now, id).db.entries[id];
            &&& after.history is Some
            &&& after.history->0.contains(before) || after.history->0.contains(
                history::dated(before),
            )
        }),
{
    let ours = p.db.entries[id];
    let theirs = source.entries[id];
    let our_versions = ours.history->0;
    let their_versions = theirs.history->0;
    let merged = history::history_merged(
        our_versions,
        their_versions,
        source.attachments,
        p.db.attachments,
    );
    let version = history::dated(our_versions[i]);
    history_laws::merged_history_keeps_ours(
        our_versions,
        their_versions,
        source.attachments,
        p.db.attachments,
        i,
    );
    assert(our_versions.contains(our_versions[i]));
    let n = choose|n: int| 0 <= n < merged.len() && merged[n] == version;
    let longer = entry::with_version(merged, ours);
    assert(longer[n + 1] == version);
    assert(longer.contains(version));
}

/// Whenever the source's content replaces the destination's, and there is history on either side,
/// the destination's content is in the history afterwards: as the version that was archived, or
/// as one with the same content.
pub proof fn replaced_content_is_archived(
    db: DatabaseModel,
    log: crate::merge::log::LogModel,
    source: DatabaseModel,
    id: EntryId,
)
    requires
        ({
            let our_versions = entries::versions_or_none(db.entries[id].history);
            let their_versions = entries::versions_or_none(source.entries[id].history);
            history::history_merged(
                our_versions,
                their_versions,
                source.attachments,
                db.attachments,
            ).len() > 0
        }),
    ensures
        ({
            let after = entries::entry_blended(db, log, source, id, true).db.entries[id];
            let their_versions = entries::versions_or_none(source.entries[id].history);
            let pool = history::all_carried(
                their_versions,
                source.attachments,
                db.attachments,
            ).1;
            &&& after.history is Some
            &&& after.history->0.len() > 0
            &&& remap::equivalent(db.entries[id], pool, after.history->0[0], pool)
        }),
{
    let our_versions = entries::versions_or_none(db.entries[id].history);
    let their_versions = entries::versions_or_none(source.entries[id].history);
    let merged = history::history_merged(
        our_versions,
        their_versions,
        source.attachments,
        db.attachments,
    );
    let longer = entry::with_version(merged, db.entries[id]);
    assert(longer[0] == db.entries[id].without_history());
    assert(longer[0].content() =~= db.entries[id].content());
}

/// Of two moves of an entry the later one wins, if the group that it leads to is there.
pub proof fn later_move_wins(p: Progress, source: DatabaseModel, id: EntryId)
    requires
        p.error is None,
        p.db.entries.contains_key(id),
        source.entries.contains_key(id),
        p.db.entries[id].times.location_changed is Some,
        source.entries[id].times.location_changed is Some,
        p.db.groups.contains_key(source.entries[id].parent),
    ensures
        ({
            let our_move = p.db.entries[id].times.location_changed->0;
            let their_move = source.entries[id].times.location_changed->0;
            let after = entries::entry_relocated(p, source, id).db.entries[id];
            &&& our_move.before(their_move) ==> after.parent == source.entries[id].parent
            &&& !our_move.before(their_move) ==> after == p.db.entries[id]
            &&& after.content() == (EntryModel {
                parent: after.parent,
                previous_parent_group: after.previous_parent_group,
                ..p.db.entries[id].content()
            })
        }),
{
    let after = entries::entry_relocated(p, source, id).db.entries[id];
    assert(after.content() =~= (EntryModel {
        parent: after.parent,
        previous_parent_group: after.previous_parent_group,
        ..p.db.entries[id].content()
    }));
}

/// An entry of the source that was not deleted since its last update is created, with its
/// attachments carried over, under the group that the source has it in.
pub proof fn new_entry_is_created(
    p: Progress,
    source: DatabaseModel,
    base: DatabaseModel,
    id: EntryId,
)
    requires
        p.error is None,
        source.entries.contains_key(id),
        source.entries[id].id == id,
        rules::revived(p.db.deleted_objects, id.0, source.entries[id].times.updated()),
        p.db.groups.contains_key(source.entries[id].parent),
    ensures
        ({
            let after = entries::entry_offered(p, source, base, id);
            let (carried, pool) = remap::entry_remapped(
                source.entries[id],
                source.attachments,
                p.db.attachments,
            );
            &&& after.db.entries.contains_key(id)
            &&& after.db.entries[id] == carried
            &&& after.db.attachments == pool
            &&& after.db.groups[source.entries[id].parent].entries.contains(id)
            &&& after.log.events == p.log.events.push(
                MergeEvent {
                    target: MergeEventTarget::Entry(id),
                    event_type: MergeEventType::Created,
                },
            )
        }),
{
    reveal(entries::entry_offered);
    let carried = remap::entry_remapped(
        source.entries[id],
        source.attachments,
        p.db.attachments,
    ).0;
    assert(carried.id == id);
}

/// A deletion on one side only, where the other side did not change the entry since the common
/// ancestor, is taken over or upheld without a warning.
pub proof fn one_sided_deletion_is_silent(
    p: Progress,
    source: DatabaseModel,
    base: DatabaseModel,
    id: EntryId,
)
    requires
        p.error is None,
    ensures
        source.entries.contains_key(id) && !entries::differs_from_base(
            source.entries[id],
            source.attachments,
            base,
            id,
        ) && !rules::revived(p.db.deleted_objects, id.0, source.entries[id].times.updated())
            ==> entries::entry_offered(p, source, base, id) == p,
        p.db.entries.contains_key(id) && !entries::differs_from_base(
            p.db.entries[id],
            p.db.attachments,
            base,
            id,
        ) ==> entries::entry_missing(p, source, base, id).log.warnings == p.log.warnings,
{
    reveal(entries::entry_offered);
    reveal(entries::entry_missing);
}

/// Dealing with one entry leaves all other entries as they are.
pub proof fn other_entries_are_left_alone(
    p: Progress,
    source: DatabaseModel,
    base: DatabaseModel,
    now: Timestamp,
    id: EntryId,
    other: EntryId,
)
    requires
        other != id,
        source.entries.contains_key(id) ==> source.entries[id].id == id,
    ensures
        source.entries.contains_key(id) ==> {
            let offered = entries::entry_offered(p, source, base, id).db.entries;
            &&& offered.contains_key(other) == p.db.entries.contains_key(other)
            &&& p.db.entries.contains_key(other) ==> offered[other] == p.db.entries[other]
        },
        ({
            let missing = entries::entry_missing(p, source, base, id).db.entries;
            &&& missing.contains_key(other) == p.db.entries.contains_key(other)
            &&& p.db.entries.contains_key(other) ==> missing[other] == p.db.entries[other]
        }),
        ({
            let common = entries::entry_common(p, source, base, now, id).db.entries;
            &&& common.contains_key(other) == p.db.entries.contains_key(other)
            &&& p.db.entries.contains_key(other) ==> common[other] == p.db.entries[other]
        }),
{
    reveal(entries::entry_offered);
    reveal(entries::entry_missing);
    reveal(entries::entry_common);
    if source.entries.contains_key(id) {
        let carried = remap::entry_remapped(
            source.entries[id],
            source.attachments,
            p.db.attachments,
        ).0;
        assert(carried.id == id);
    }
    assert(!Set::<EntryId>::empty().insert(id).contains(other));
}

} // verus!
