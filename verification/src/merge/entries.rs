//! The merging of entries.

use vstd::prelude::*;
use crate::attachment;
use crate::attachment::Pool;
use crate::content::Content;
use crate::database;
use crate::database::Database;
use crate::database::DatabaseModel;
use crate::entry;
use crate::entry::Entry;
use crate::entry::EntryModel;
use crate::entry::History;
use crate::ids;
use crate::ids::EntryId;
use crate::ids::GroupId;
use crate::laws::soundness;
use crate::merge::history;
use crate::merge::log::LogModel;
use crate::merge::log::MergeError;
use crate::merge::log::MergeEventTarget;
use crate::merge::log::MergeEventType;
use crate::merge::log::MergeLog;
use crate::merge::rules;
use crate::order;
use crate::references;
use crate::remap;
use crate::removal;
use crate::sorted_map;
use crate::text;
use crate::times::Times;
use crate::times::Timestamp;
use crate::tree;

verus! {

/// How far a merge has come: the destination, the log, and the error that ended the merge, if one
/// did.
#[verifier::ext_equal]
pub struct Progress {
    /// The destination.
    pub db: DatabaseModel,
    /// The log.
    pub log: LogModel,
    /// The error that ended the merge.
    pub error: Option<MergeError>,
}

/// A merge that goes on with this destination and log.
pub open spec fn going(db: DatabaseModel, log: LogModel) -> Progress {
    Progress { db, log, error: None }
}

/// A text about an entry.
pub open spec fn about(before: Seq<char>, id: EntryId, after: Seq<char>) -> Seq<char> {
    before + ids::hyphenated(id.0.0) + after
}

/// A text about an entry and a group.
pub open spec fn about_both(
    before: Seq<char>,
    id: EntryId,
    between: Seq<char>,
    group: GroupId,
    after: Seq<char>,
) -> Seq<char> {
    before + ids::hyphenated(id.0.0) + between + ids::hyphenated(group.0.0) + after
}

/// Whether an entry differs from what the common ancestor had.
pub open spec fn differs_from_base(
    entry: EntryModel,
    pool: Pool,
    base: DatabaseModel,
    id: EntryId,
) -> bool {
    base.entries.contains_key(id) && !remap::equivalent(
        entry,
        pool,
        base.entries[id],
        base.attachments,
    )
}

/// The progress once an entry that only the source has was dealt with. It is added under the
/// source's parent group with its attachments carried over, unless it was deleted since, or the
/// group is missing.
#[verifier::opaque]
pub open spec fn entry_offered(
    p: Progress,
    source: DatabaseModel,
    base: DatabaseModel,
    id: EntryId,
) -> Progress {
    let theirs = source.entries[id];
    let deleted = p.db.deleted_objects;
    let log = p.log.warned_if(
        deleted.contains_key(id.0) && differs_from_base(theirs, source.attachments, base, id),
        about(
            "Entry "@,
            id,
            " was deleted in the destination but modified in the source since the common ancestor."@,
        ),
    );
    if !rules::revived(deleted, id.0, theirs.times.updated()) {
        going(p.db, log)
    } else {
        let (carried, pool) = remap::entry_remapped(
            theirs,
            source.attachments,
            p.db.attachments,
        );
        let db = DatabaseModel { attachments: pool, ..p.db };
        if db.groups.contains_key(theirs.parent) {
            going(
                tree::entry_added(db, theirs.parent, carried),
                log.noted(MergeEventTarget::Entry(id), MergeEventType::Created),
            )
        } else {
            going(
                db,
                log.warned(
                    about_both(
                        "Cannot add entry "@,
                        id,
                        " because its parent group "@,
                        theirs.parent,
                        " does not exist in the destination database."@,
                    ),
                ),
            )
        }
    }
}

/// The progress once an entry that only the destination has was dealt with. It is removed if the
/// source deleted it and it was not updated after that; the deletion is taken over with its time.
#[verifier::opaque]
pub open spec fn entry_missing(
    p: Progress,
    source: DatabaseModel,
    base: DatabaseModel,
    id: EntryId,
) -> Progress {
    let ours = p.db.entries[id];
    let log = p.log.warned_if(
        source.deleted_objects.contains_key(id.0) && differs_from_base(
            ours,
            p.db.attachments,
            base,
            id,
        ),
        about(
            "Entry "@,
            id,
            " was modified in the destination but deleted in the source since the common ancestor."@,
        ),
    );
    if rules::buried(source.deleted_objects, id.0, ours.times.updated()) {
        let db = removal::entries_removed(p.db, Set::<EntryId>::empty().insert(id));
        going(
            DatabaseModel {
                deleted_objects: db.deleted_objects.insert(id.0, source.deleted_objects[id.0]),
                ..db
            },
            log.noted(MergeEventTarget::Entry(id), MergeEventType::Deleted),
        )
    } else {
        going(p.db, log)
    }
}

/// The progress once the place of an entry that both sides have was settled: the later move wins.
pub open spec fn entry_relocated(p: Progress, source: DatabaseModel, id: EntryId) -> Progress {
    let ours = p.db.entries[id];
    let theirs = source.entries[id];
    if ours.parent == theirs.parent {
        p
    } else {
        match (theirs.times.location_changed, ours.times.location_changed) {
            (Some(their_move), Some(our_move)) => if !our_move.before(their_move) {
                p
            } else if p.db.groups.contains_key(theirs.parent) {
                let db = tree::entry_moved(p.db, id, theirs.parent);
                going(
                    DatabaseModel {
                        entries: db.entries.insert(
                            id,
                            db.entries[id].relocated_at(Some(their_move)),
                        ),
                        ..db
                    },
                    p.log.noted(MergeEventTarget::Entry(id), MergeEventType::LocationUpdated),
                )
            } else {
                going(
                    p.db,
                    p.log.warned(
                        about_both(
                            "Cannot move entry "@,
                            id,
                            " to group "@,
                            theirs.parent,
                            " because the group does not exist in the destination database."@,
                        ),
                    ),
                )
            },
            _ => going(
                p.db,
                p.log.warned(
                    about(
                        "Cannot determine which entry "@,
                        id,
                        " move is more recent because one of the entries does not have a location changed timestamp."@,
                    ),
                ),
            ),
        }
    }
}

/// How the contents of an entry that both sides have are settled.
pub enum Verdict {
    /// The destination stays as it is.
    Keep,
    /// Nothing tells which side is right.
    Undecidable,
    /// The histories are merged, and the source's content replaces the destination's or not.
    Blend {
        /// Whether the source's content replaces the destination's.
        take_source: bool,
        /// What there is to warn of.
        warning: Option<Seq<char>>,
    },
}

/// How two versions of an entry are settled. Modified at the same time and of the same content,
/// they are left alone. Modified at the same time and different, they need the common ancestor,
/// which tells who changed the entry; if both did, the destination stays. Modified at different
/// times, the newer one wins, but a source that did not change since the ancestor has no say.
pub open spec fn verdict(
    ours: EntryModel,
    our_pool: Pool,
    our_time: Timestamp,
    theirs: EntryModel,
    their_pool: Pool,
    their_time: Timestamp,
    base: DatabaseModel,
    id: EntryId,
) -> Verdict {
    let same = remap::equivalent(ours, our_pool, theirs, their_pool);
    if our_time == their_time {
        if same {
            Verdict::Keep
        } else if !base.entries.contains_key(id) {
            Verdict::Undecidable
        } else {
            let we_changed = differs_from_base(ours, our_pool, base, id);
            let they_changed = differs_from_base(theirs, their_pool, base, id);
            if we_changed && they_changed {
                Verdict::Blend {
                    take_source: false,
                    warning: Some(
                        about(
                            "Entry "@,
                            id,
                            " was modified in both databases at the same timestamp since the common ancestor. Resolving by keeping the destination copy."@,
                        ),
                    ),
                }
            } else {
                Verdict::Blend { take_source: they_changed, warning: None }
            }
        }
    } else {
        let base_time = if base.entries.contains_key(id) {
            base.entries[id].times.last_modification
        } else {
            None
        };
        if !rules::changed_since(base_time, their_time) {
            Verdict::Keep
        } else {
            Verdict::Blend {
                take_source: our_time.before(their_time),
                warning: if base_time is Some && rules::changed_since(base_time, our_time)
                    && !same {
                    Some(
                        about(
                            "Entry "@,
                            id,
                            " was modified in both databases since the common ancestor. Resolving by keeping the most recently modified version."@,
                        ),
                    )
                } else {
                    None
                },
            }
        }
    }
}

/// The versions of a history; none if there is no history.
pub open spec fn versions_or_none(history: Option<Seq<EntryModel>>) -> Seq<EntryModel> {
    match history {
        Some(versions) => versions,
        None => Seq::empty(),
    }
}

/// The history that the destination's version of an entry becomes part of when the source's
/// content replaces it, unless the latest version there is the same.
pub open spec fn archived(
    merged: Seq<EntryModel>,
    ours: EntryModel,
    pool: Pool,
) -> Seq<EntryModel> {
    if merged.len() > 0 && !remap::equivalent(ours, pool, merged[0], pool) {
        entry::with_version(merged, ours)
    } else {
        merged
    }
}

/// The progress once the histories of an entry were merged, and its content was replaced by the
/// source's if that is wanted.
pub open spec fn entry_blended(
    db: DatabaseModel,
    log: LogModel,
    source: DatabaseModel,
    id: EntryId,
    take_source: bool,
) -> Progress {
    let ours = db.entries[id];
    let theirs = source.entries[id];
    let our_versions = versions_or_none(ours.history);
    let their_versions = versions_or_none(theirs.history);
    let merged = history::history_merged(
        our_versions,
        their_versions,
        source.attachments,
        db.attachments,
    );
    let pool = history::all_carried(their_versions, source.attachments, db.attachments).1;
    let merged_log = history::history_logged(
        log.warned_if(
            theirs.history is None,
            about("Source entry "@, id, " had no history."@),
        ).warned_if(
            ours.history is None,
            about("Destination entry "@, id, " had no history."@),
        ),
        our_versions,
        their_versions,
        source.attachments,
        db.attachments,
    );
    let place_time = if ours.times.location_changed is Some {
        ours.times.location_changed
    } else {
        theirs.times.location_changed
    };
    if take_source {
        let (incoming, larger) = remap::entry_remapped(
            theirs.without_history(),
            source.attachments,
            pool,
        );
        let blended = EntryModel {
            history: Some(archived(merged, ours, pool)),
            ..ours.overwritten_by(incoming).relocated_at(place_time)
        };
        going(
            DatabaseModel {
                attachments: larger,
                entries: db.entries.insert(id, blended),
                ..db
            },
            merged_log.noted(MergeEventTarget::Entry(id), MergeEventType::Updated),
        )
    } else {
        let blended = EntryModel { history: Some(merged), ..ours.relocated_at(place_time) };
        going(
            DatabaseModel { attachments: pool, entries: db.entries.insert(id, blended), ..db },
            merged_log,
        )
    }
}

/// The progress once the content of an entry that both sides have was settled.
pub open spec fn entry_settled(
    p: Progress,
    source: DatabaseModel,
    base: DatabaseModel,
    now: Timestamp,
    id: EntryId,
) -> Progress {
    let ours = p.db.entries[id];
    let theirs = source.entries[id];
    let log = p.log.warned_if(
        theirs.times.last_modification is None,
        about("Source entry "@, id, " did not have a last modification timestamp"@),
    ).warned_if(
        ours.times.last_modification is None,
        about("Destination entry "@, id, " did not have a last modification timestamp"@),
    );
    let our_time = match ours.times.last_modification {
        Some(time) => time,
        None => now,
    };
    let their_time = history::time_of(theirs);
    match verdict(
        ours,
        p.db.attachments,
        our_time,
        theirs,
        source.attachments,
        their_time,
        base,
        id,
    ) {
        Verdict::Keep => going(p.db, log),
        Verdict::Undecidable => Progress {
            db: p.db,
            log,
            error: Some(MergeError::EntryModificationTimeNotUpdated(id)),
        },
        Verdict::Blend { take_source, warning } => entry_blended(
            p.db,
            match warning {
                Some(text) => log.warned(text),
                None => log,
            },
            source,
            id,
            take_source,
        ),
    }
}

/// The progress once an entry that both sides have was dealt with: first its place, then its
/// content.
#[verifier::opaque]
pub open spec fn entry_common(
    p: Progress,
    source: DatabaseModel,
    base: DatabaseModel,
    now: Timestamp,
    id: EntryId,
) -> Progress {
    entry_settled(entry_relocated(p, source, id), source, base, now, id)
}

/// The progress once entries that only the source has were dealt with, one after the other.
pub open spec fn all_offered(
    p: Progress,
    source: DatabaseModel,
    base: DatabaseModel,
    listed: Seq<EntryId>,
) -> Progress
    decreases listed.len(),
{
    if listed.len() == 0 {
        p
    } else {
        entry_offered(all_offered(p, source, base, listed.drop_last()), source, base, listed.last())
    }
}

/// The progress once entries that only the destination has were dealt with, one after the other.
pub open spec fn all_missing(
    p: Progress,
    source: DatabaseModel,
    base: DatabaseModel,
    listed: Seq<EntryId>,
) -> Progress
    decreases listed.len(),
{
    if listed.len() == 0 {
        p
    } else {
        entry_missing(all_missing(p, source, base, listed.drop_last()), source, base, listed.last())
    }
}

/// The progress once entries that both sides have were dealt with, one after the other. An error
/// ends the merge.
pub open spec fn all_common(
    p: Progress,
    source: DatabaseModel,
    base: DatabaseModel,
    now: Timestamp,
    listed: Seq<EntryId>,
) -> Progress
    decreases listed.len(),
{
    if listed.len() == 0 {
        p
    } else {
        let before = all_common(p, source, base, now, listed.drop_last());
        if before.error is Some {
            before
        } else {
            entry_common(before, source, base, now, listed.last())
        }
    }
}

/// The progress once all entries were merged: first those that only the source has, then those
/// that only the destination has, then the others, each in the order of their identifiers.
pub open spec fn entries_merged(
    p: Progress,
    source: DatabaseModel,
    base: DatabaseModel,
    now: Timestamp,
) -> Progress {
    let ours = p.db.entries.dom();
    let theirs = source.entries.dom();
    let offered = all_offered(
        p,
        source,
        base,
        order::ordered::<EntryId>(theirs.difference(ours)),
    );
    let missing = all_missing(
        offered,
        source,
        base,
        order::ordered::<EntryId>(ours.difference(theirs)),
    );
    all_common(
        missing,
        source,
        base,
        now,
        order::ordered::<EntryId>(ours.intersect(theirs)),
    )
}

/// Changing an entry without moving it keeps the database well formed.
pub proof fn lemma_entry_changed_wf(db: DatabaseModel, id: EntryId, entry: EntryModel)
    requires
        db.wf(),
        db.entries.contains_key(id),
        entry.id == db.entries[id].id,
        entry.parent == db.entries[id].parent,
    ensures
        (DatabaseModel { entries: db.entries.insert(id, entry), ..db }).wf(),
{
    let after = DatabaseModel { entries: db.entries.insert(id, entry), ..db };
    assert forall|e: EntryId| #[trigger] after.entries.contains_key(e) implies
        database::entry_placed(after.entries, after.groups, e) by {
        assert(database::entry_placed(db.entries, db.groups, e));
    }
}

/// A larger pool leaves no dangling reference where there was none.
proof fn lemma_pool_extended_sound(before: DatabaseModel, after: DatabaseModel)
    requires
        after.entries == before.entries,
        attachment::extends(before.attachments, after.attachments),
    ensures
        before.sound() ==> after.sound(),
{
    if before.sound() {
        assert forall|e: EntryId| #[trigger] after.entries.contains_key(e) implies
            after.entries[e].sound(after.attachments) by {
            assert(before.entries.contains_key(e));
            soundness::lemma_sound_extended(
                before.entries[e],
                before.attachments,
                after.attachments,
            );
        }
    }
}

/// An entry that keeps its references keeps them from dangling.
proof fn lemma_same_references_sound(before: DatabaseModel, after: DatabaseModel, id: EntryId)
    requires
        before.entries.contains_key(id),
        after.attachments == before.attachments,
        after.entries == before.entries.insert(id, after.entries[id]),
        after.entries[id].attachments == before.entries[id].attachments,
        after.entries[id].history == before.entries[id].history,
    ensures
        before.sound() ==> after.sound(),
{
    if before.sound() {
        soundness::lemma_sound_versions(before.entries[id], before.attachments);
        lemma_entry_replaced_sound(before, after, id);
    }
}

/// An entry without dangling references can replace another.
proof fn lemma_entry_replaced_sound(before: DatabaseModel, after: DatabaseModel, id: EntryId)
    requires
        before.sound(),
        after.attachments == before.attachments,
        after.entries == before.entries.insert(id, after.entries[id]),
        references::resolves(after.entries[id].attachments, after.attachments),
        after.entries[id].history matches Some(versions) ==> history::all_resolve(
            versions,
            after.attachments,
        ),
    ensures
        after.sound(),
{
    soundness::lemma_sound_from_versions(after.entries[id], after.attachments);
    assert forall|e: EntryId| #[trigger] after.entries.contains_key(e) implies after.entries[e].sound(
        after.attachments,
    ) by {
        if e != id {
            assert(before.entries.contains_key(e));
        }
    }
}

/// A text about an entry.
fn entry_text(before: &str, id: EntryId, after: &str) -> (result: String)
    ensures
        result@ == about(before@, id, after@),
{
    text::join3(before, id.text().as_str(), after)
}

/// A text about an entry and a group.
fn entry_and_group_text(
    before: &str,
    id: EntryId,
    between: &str,
    group: GroupId,
    after: &str,
) -> (result: String)
    ensures
        result@ == about_both(before@, id, between@, group, after@),
{
    text::join5(before, id.text().as_str(), between, group.text().as_str(), after)
}

/// Check if two entries are dissimilar, ignoring their timestamps, history, and attachment pool
/// ids (attachments compare by name and bytes, resolved against each entry's own database).
pub fn have_entries_diverged(a: &Entry, a_db: &Database, b: &Entry, b_db: &Database) -> (result:
    bool)
    ensures
        result == !remap::equivalent(
            a.model(),
            a_db.deep_view().attachments,
            b.model(),
            b_db.deep_view().attachments,
        ),
{
    !a.content_equivalent(a_db, b, b_db)
}

/// Whether an entry differs from what the common ancestor had.
fn entry_differs_from_base(
    entry: &Entry,
    db: &Database,
    base_db: &Database,
    id: EntryId,
) -> (result: bool)
    ensures
        result == differs_from_base(
            entry.model(),
            db.deep_view().attachments,
            base_db.deep_view(),
            id,
        ),
{
    match base_db.entries.get(&id) {
        Some(base_entry) => have_entries_diverged(entry, db, base_entry, base_db),
        None => false,
    }
}

/// Overwrite `dest_entry`'s content fields — everything except history and location — from
/// `incoming`, taking ownership of `incoming`'s data. `incoming`'s attachment references must
/// already be remapped into `dest_entry`'s database pool.
pub fn overwrite_entry_fields(dest_entry: &mut Entry, incoming: Entry)
    ensures
        final(dest_entry).model() == old(dest_entry).model().overwritten_by(incoming.model()),
        final(dest_entry).model().fields == incoming.model().fields,
        final(dest_entry).model().autotype == incoming.model().autotype,
        final(dest_entry).model().tags == incoming.model().tags,
        final(dest_entry).model().custom_data == incoming.model().custom_data,
        final(dest_entry).model().icon == incoming.model().icon,
        final(dest_entry).model().foreground_color == incoming.model().foreground_color,
        final(dest_entry).model().background_color == incoming.model().background_color,
        final(dest_entry).model().override_url == incoming.model().override_url,
        final(dest_entry).model().quality_check == incoming.model().quality_check,
        final(dest_entry).model().attachments == incoming.model().attachments,
        final(dest_entry).times.last_modification == incoming.times.last_modification,
        final(dest_entry).times.creation == old(dest_entry).times.creation,
        final(dest_entry).times.last_access == old(dest_entry).times.last_access,
        final(dest_entry).times.expiry == old(dest_entry).times.expiry,
        final(dest_entry).times.location_changed == old(dest_entry).times.location_changed,
        final(dest_entry).times.expires == old(dest_entry).times.expires,
        final(dest_entry).times.usage_count == old(dest_entry).times.usage_count,
        final(dest_entry).id == old(dest_entry).id,
        final(dest_entry).parent == old(dest_entry).parent,
        final(dest_entry).previous_parent_group == old(dest_entry).previous_parent_group,
        final(dest_entry).model().history == old(dest_entry).model().history,
{
    dest_entry.times.last_modification = incoming.times.last_modification;
    dest_entry.fields = incoming.fields;
    dest_entry.autotype = incoming.autotype;
    dest_entry.tags = incoming.tags;
    dest_entry.custom_data = incoming.custom_data;
    dest_entry.icon = incoming.icon;
    dest_entry.foreground_color = incoming.foreground_color;
    dest_entry.background_color = incoming.background_color;
    dest_entry.override_url = incoming.override_url;
    dest_entry.quality_check = incoming.quality_check;
    dest_entry.attachments = incoming.attachments;
}

/// Deals with an entry that only the source has.
fn offer_entry(
    dest_db: &mut Database,
    source_db: &Database,
    base_db: &Database,
    log: &mut MergeLog,
    id: EntryId,
)
    requires
        old(dest_db).wf(),
        source_db.wf(),
        source_db.deep_view().entries.contains_key(id),
        !old(dest_db).deep_view().entries.contains_key(id),
    ensures
        final(dest_db).wf(),
        old(dest_db).deep_view().sound() ==> final(dest_db).deep_view().sound(),
        going(final(dest_db).deep_view(), final(log).deep_view()) == entry_offered(
            going(old(dest_db).deep_view(), old(log).deep_view()),
            source_db.deep_view(),
            base_db.deep_view(),
            id,
        ),
        final(dest_db).deep_view().groups.dom() == old(dest_db).deep_view().groups.dom(),
        final(dest_db).deep_view().root == old(dest_db).deep_view().root,
        forall|e: EntryId| #[trigger]
            final(dest_db).deep_view().entries.contains_key(e) && e != id <==> old(dest_db).deep_view().entries.contains_key(e),
{
    proof {
        reveal(entry_offered);
        assert(database::entry_placed(
            source_db.deep_view().entries,
            source_db.deep_view().groups,
            id,
        ));
    }
    if let Some(source_entry) = source_db.entries.get(&id) {
        if dest_db.deleted_objects.contains_key(&id.uuid()) && entry_differs_from_base(
            source_entry,
            source_db,
            base_db,
            id,
        ) {
            log.warn(
                entry_text(
                    "Entry ",
                    id,
                    " was deleted in the destination but modified in the source since the common ancestor.",
                ),
            );
        }
        if !rules::is_revived(
            &dest_db.deleted_objects,
            id.uuid(),
            source_entry.times.last_update(),
        ) {
            return ;
        }
        let parent_id = source_entry.parent;

        // Clone the source entry and rewrite its attachment references — they point into the
        // *source* pool and would otherwise dangle or collide with unrelated destination blobs.
        let mut cloned = source_entry.duplicate();
        let ghost before = dest_db.deep_view();
        cloned.remap_attachments(source_db, dest_db);
        proof {
            lemma_pool_extended_sound(before, dest_db.deep_view());
            soundness::lemma_faithful_sound(
                source_entry.model(),
                source_db.deep_view().attachments,
                cloned.model(),
                dest_db.deep_view().attachments,
            );
        }

        if !dest_db.groups.contains_key(&parent_id) {
            log.warn(
                entry_and_group_text(
                    "Cannot add entry ",
                    id,
                    " because its parent group ",
                    parent_id,
                    " does not exist in the destination database.",
                ),
            );
            return ;
        }
        let ghost groups = dest_db.deep_view().groups;
        let added = dest_db.insert_entry(parent_id, cloned);
        proof {
            assert(added is Ok);
            assert(dest_db.deep_view().groups.dom() =~= groups.dom());
            assert(before.sound() ==> dest_db.deep_view().sound());
        }
        log.note(MergeEventTarget::Entry(id), MergeEventType::Created);
    }
}

/// Deals with an entry that only the destination has.
fn merge_missing_entry(
    dest_db: &mut Database,
    source_db: &Database,
    base_db: &Database,
    log: &mut MergeLog,
    id: EntryId,
)
    requires
        old(dest_db).wf(),
        old(dest_db).deep_view().entries.contains_key(id),
    ensures
        final(dest_db).wf(),
        old(dest_db).deep_view().sound() ==> final(dest_db).deep_view().sound(),
        going(final(dest_db).deep_view(), final(log).deep_view()) == entry_missing(
            going(old(dest_db).deep_view(), old(log).deep_view()),
            source_db.deep_view(),
            base_db.deep_view(),
            id,
        ),
        final(dest_db).deep_view().groups.dom() == old(dest_db).deep_view().groups.dom(),
        final(dest_db).deep_view().root == old(dest_db).deep_view().root,
        forall|e: EntryId|
            e != id ==> (#[trigger] final(dest_db).deep_view().entries.contains_key(e) <==> old(dest_db).deep_view().entries.contains_key(e)),
{
    let ghost groups = dest_db.deep_view().groups;
    proof {
        reveal(entry_missing);
    }
    if let Some(dest_entry) = dest_db.entries.get(&id) {
        if let Some(deletion) = source_db.deleted_objects.get(&id.uuid()) {
            if entry_differs_from_base(dest_entry, dest_db, base_db, id) {
                log.warn(
                    entry_text(
                        "Entry ",
                        id,
                        " was modified in the destination but deleted in the source since the common ancestor.",
                    ),
                );
            }
            if rules::is_buried(
                &source_db.deleted_objects,
                id.uuid(),
                dest_entry.times.last_update(),
            ) {
                let ghost before = dest_db.deep_view();
                dest_db.remove_entry(id);
                dest_db.deleted_objects.insert(id.uuid(), *deletion);
                proof {
                    if before.sound() {
                        soundness::removal_is_sound(before, Set::<EntryId>::empty().insert(id));
                    }
                }
                log.note(MergeEventTarget::Entry(id), MergeEventType::Deleted);
                assert(dest_db.deep_view().groups.dom() =~= groups.dom());
            }
        }
    }
}

/// Settles the place of an entry that both sides have.
fn relocate_entry(dest_db: &mut Database, source_db: &Database, log: &mut MergeLog, id: EntryId)
    requires
        old(dest_db).wf(),
        old(dest_db).deep_view().entries.contains_key(id),
        source_db.deep_view().entries.contains_key(id),
    ensures
        final(dest_db).wf(),
        old(dest_db).deep_view().sound() ==> final(dest_db).deep_view().sound(),
        going(final(dest_db).deep_view(), final(log).deep_view()) == entry_relocated(
            going(old(dest_db).deep_view(), old(log).deep_view()),
            source_db.deep_view(),
            id,
        ),
        final(dest_db).deep_view().groups.dom() == old(dest_db).deep_view().groups.dom(),
        final(dest_db).deep_view().root == old(dest_db).deep_view().root,
        final(dest_db).deep_view().entries.dom() == old(dest_db).deep_view().entries.dom(),
{
    let ghost before = dest_db.deep_view();
    let (source_parent_id, source_moved) = match source_db.entries.get(&id) {
        Some(source_entry) => (source_entry.parent, source_entry.times.location_changed),
        None => {
            return ;
        },
    };
    let (dest_parent_id, dest_moved) = match dest_db.entries.get(&id) {
        Some(dest_entry) => (dest_entry.parent, dest_entry.times.location_changed),
        None => {
            return ;
        },
    };
    if dest_parent_id == source_parent_id {
        return ;
    }
    match (source_moved, dest_moved) {
        (Some(slc), Some(dlc)) => {
            if dlc.is_before(&slc) {
                // the source entry has been moved more recently than the destination entry.
                // try to move the destination entry to the new location.
                match dest_db.move_entry(id, source_parent_id) {
                    Ok(_) => {
                        let ghost moved = dest_db.deep_view();
                        if let Some(dest_entry) = dest_db.entries.get_mut(&id) {
                            dest_entry.times.location_changed = Some(slc);
                        }
                        proof {
                            lemma_entry_changed_wf(
                                moved,
                                id,
                                moved.entries[id].relocated_at(Some(slc)),
                            );
                            assert(dest_db.deep_view().groups.dom() =~= before.groups.dom());
                            assert(dest_db.deep_view().entries.dom() =~= before.entries.dom());
                            assert(dest_db.deep_view().entries =~= before.entries.insert(
                                id,
                                dest_db.deep_view().entries[id],
                            ));
                            lemma_same_references_sound(before, dest_db.deep_view(), id);
                        }
                        log.note(MergeEventTarget::Entry(id), MergeEventType::LocationUpdated);
                    },
                    Err(_) => {
                        log.warn(
                            entry_and_group_text(
                                "Cannot move entry ",
                                id,
                                " to group ",
                                source_parent_id,
                                " because the group does not exist in the destination database.",
                            ),
                        );
                    },
                }
            }
        },
        _ => {
            log.warn(
                entry_text(
                    "Cannot determine which entry ",
                    id,
                    " move is more recent because one of the entries does not have a location changed timestamp.",
                ),
            );
        },
    }
}

/// The executable form of a [Verdict].
enum Decision {
    Keep,
    Undecidable,
    Blend { take_source: bool, warning: Option<String> },
}

impl Decision {
    spec fn verdict(&self) -> Verdict {
        match self {
            Decision::Keep => Verdict::Keep,
            Decision::Undecidable => Verdict::Undecidable,
            Decision::Blend { take_source, warning } => Verdict::Blend {
                take_source: *take_source,
                warning: warning.deep_view(),
            },
        }
    }
}

/// Decides how two versions of an entry are settled.
fn decide(
    ours: &Entry,
    dest_db: &Database,
    our_time: Timestamp,
    theirs: &Entry,
    source_db: &Database,
    their_time: Timestamp,
    base_db: &Database,
    id: EntryId,
) -> (result: Decision)
    ensures
        result.verdict() == verdict(
            ours.model(),
            dest_db.deep_view().attachments,
            our_time,
            theirs.model(),
            source_db.deep_view().attachments,
            their_time,
            base_db.deep_view(),
            id,
        ),
{
    if our_time == their_time {
        if !have_entries_diverged(ours, dest_db, theirs, source_db) {
            // Identical content at the same timestamp — nothing to do.
            return Decision::Keep;
        }
        // Divergent content at the same timestamp (two branches can edit within the same second).
        // Without an ancestor nothing tells which side is authoritative. With an ancestor, resolve
        // it as a three-way conflict.

        if !base_db.entries.contains_key(&id) {
            return Decision::Undecidable;
        }
        let dest_changed = entry_differs_from_base(ours, dest_db, base_db, id);
        let source_changed = entry_differs_from_base(theirs, source_db, base_db, id);
        if dest_changed && source_changed {
            // Both sides changed the entry differently within the same timestamp — a true conflict
            // with no newer side. Deterministic tie-break: keep the destination fields.
            Decision::Blend {
                take_source: false,
                warning: Some(
                    entry_text(
                        "Entry ",
                        id,
                        " was modified in both databases at the same timestamp since the common ancestor. Resolving by keeping the destination copy.",
                    ),
                ),
            }
        } else {
            // Adopt the source only if it is the side that changed.
            Decision::Blend { take_source: source_changed, warning: None }
        }
    } else {
        // Unequal timestamps: compare both sides against the common ancestor to distinguish a
        // one-sided change (auto-resolved) from a true conflict (warned, then newest-wins).
        let base_time = match base_db.entries.get(&id) {
            Some(base_entry) => base_entry.times.last_modification,
            None => None,
        };
        if !rules::has_changed_since(base_time, their_time) {
            // The source contributed nothing since the ancestor; keep the destination as-is.
            return Decision::Keep;
        }
        let conflict = base_time.is_some() && rules::has_changed_since(base_time, our_time)
            && have_entries_diverged(ours, dest_db, theirs, source_db);
        let warning = if conflict {
            Some(
                entry_text(
                    "Entry ",
                    id,
                    " was modified in both databases since the common ancestor. Resolving by keeping the most recently modified version.",
                ),
            )
        } else {
            None
        };
        Decision::Blend { take_source: our_time.is_before(&their_time), warning }
    }
}

/// Merges the histories of an entry that both sides have, and replaces its content by the
/// source's if that is wanted.
fn blend_entry(
    dest_db: &mut Database,
    source_db: &Database,
    log: &mut MergeLog,
    id: EntryId,
    take_source: bool,
)
    requires
        old(dest_db).wf(),
        old(dest_db).deep_view().entries.contains_key(id),
        source_db.deep_view().entries.contains_key(id),
    ensures
        final(dest_db).wf(),
        old(dest_db).deep_view().sound() ==> final(dest_db).deep_view().sound(),
        going(final(dest_db).deep_view(), final(log).deep_view()) == entry_blended(
            old(dest_db).deep_view(),
            old(log).deep_view(),
            source_db.deep_view(),
            id,
            take_source,
        ),
        final(dest_db).deep_view().groups == old(dest_db).deep_view().groups,
        final(dest_db).deep_view().root == old(dest_db).deep_view().root,
        final(dest_db).deep_view().entries.dom() == old(dest_db).deep_view().entries.dom(),
{
    let ghost before = dest_db.deep_view();
    let source_entry = match source_db.entries.get(&id) {
        Some(source_entry) => source_entry,
        None => {
            return ;
        },
    };
    // Snapshot the destination entry so the comparisons and the history archive below can run while
    // dest_db's attachment pool is mutated.
    let snapshot = match dest_db.entries.get(&id) {
        Some(dest_entry) => dest_entry.duplicate(),
        None => {
            return ;
        },
    };
    let ghost ours = snapshot.model();
    let source_history = match &source_entry.history {
        Some(history) => history.duplicate(),
        None => {
            log.warn(entry_text("Source entry ", id, " had no history."));
            History::new()
        },
    };
    let dest_history = match &snapshot.history {
        Some(history) => history.duplicate(),
        None => {
            log.warn(entry_text("Destination entry ", id, " had no history."));
            History::new()
        },
    };
    let mut merged_history = history::merge_history(
        &dest_history,
        &source_history,
        dest_db,
        source_db,
        log,
    );
    let ghost merged = merged_history.model();
    let ghost between = dest_db.deep_view();
    proof {
        lemma_pool_extended_sound(before, between);
        if before.sound() {
            assert(before.entries.contains_key(id));
            soundness::lemma_sound_versions(ours, before.attachments);
            soundness::lemma_sound_versions(between.entries[id], between.attachments);
        }
    }
    let merged_location_timestamp = if snapshot.times.location_changed.is_some() {
        snapshot.times.location_changed
    } else {
        source_entry.times.location_changed
    };
    if take_source {
        // add the previous dest entry to history if it has diverged
        let mut archive = false;
        if merged_history.entries.len() > 0 {
            archive = have_entries_diverged(
                &snapshot,
                dest_db,
                &merged_history.entries[0],
                dest_db,
            );
        }
        assert(archive == (merged.len() > 0 && !remap::equivalent(
            ours,
            between.attachments,
            merged[0],
            between.attachments,
        )));
        if archive {
            merged_history.add_entry(snapshot);
        }
        // The source entry wins. Replace dest with source, importing the source's attachment bytes
        // into the destination pool.

        let mut incoming = source_entry.duplicate();
        incoming.history = None;
        assert(incoming.model() == source_entry.model().without_history());
        incoming.remap_attachments(source_db, dest_db);
        let ghost imported = dest_db.deep_view();
        let ghost archive_model = merged_history.model();
        proof {
            lemma_pool_extended_sound(between, imported);
            soundness::lemma_faithful_sound(
                source_entry.model().without_history(),
                source_db.deep_view().attachments,
                incoming.model(),
                imported.attachments,
            );
            soundness::lemma_sound_versions(incoming.model(), imported.attachments);
            if before.sound() {
                assert forall|i: int| 0 <= i < archive_model.len() implies references::resolves(
                    #[trigger] archive_model[i].attachments,
                    imported.attachments,
                ) by {
                    if archive {
                        assert(archive_model == entry::with_version(merged, ours));
                        if i > 0 {
                            assert(archive_model[i] == merged[i - 1]);
                        }
                    }
                    history::lemma_resolves_further(
                        archive_model[i].attachments,
                        between.attachments,
                        imported.attachments,
                    );
                }
            }
        }
        if let Some(dest_entry) = dest_db.entries.get_mut(&id) {
            overwrite_entry_fields(dest_entry, incoming);
            dest_entry.history = Some(merged_history);
            dest_entry.times.location_changed = merged_location_timestamp;
        }
        proof {
            lemma_entry_changed_wf(imported, id, dest_db.deep_view().entries[id]);
            if before.sound() {
                lemma_entry_replaced_sound(imported, dest_db.deep_view(), id);
            }
            assert(dest_db.deep_view().entries.dom() =~= before.entries.dom());
        }
        log.note(MergeEventTarget::Entry(id), MergeEventType::Updated);
    } else {
        if let Some(dest_entry) = dest_db.entries.get_mut(&id) {
            dest_entry.history = Some(merged_history);
            dest_entry.times.location_changed = merged_location_timestamp;
        }
        proof {
            lemma_entry_changed_wf(between, id, dest_db.deep_view().entries[id]);
            if before.sound() {
                lemma_entry_replaced_sound(between, dest_db.deep_view(), id);
            }
            assert(dest_db.deep_view().entries.dom() =~= before.entries.dom());
        }
    }
}

/// Settles the content of an entry that both sides have.
fn settle_entry(
    dest_db: &mut Database,
    source_db: &Database,
    base_db: &Database,
    now: Timestamp,
    log: &mut MergeLog,
    id: EntryId,
) -> (result: Result<(), MergeError>)
    requires
        old(dest_db).wf(),
        old(dest_db).deep_view().entries.contains_key(id),
        source_db.deep_view().entries.contains_key(id),
    ensures
        final(dest_db).wf(),
        old(dest_db).deep_view().sound() ==> final(dest_db).deep_view().sound(),
        (Progress {
            db: final(dest_db).deep_view(),
            log: final(log).deep_view(),
            error: result.err(),
        }) == entry_settled(
            going(old(dest_db).deep_view(), old(log).deep_view()),
            source_db.deep_view(),
            base_db.deep_view(),
            now,
            id,
        ),
        final(dest_db).deep_view().groups == old(dest_db).deep_view().groups,
        final(dest_db).deep_view().root == old(dest_db).deep_view().root,
        final(dest_db).deep_view().entries.dom() == old(dest_db).deep_view().entries.dom(),
{
    let decision = match (dest_db.entries.get(&id), source_db.entries.get(&id)) {
        (Some(dest_entry), Some(source_entry)) => {
            let their_time = match source_entry.times.last_modification {
                Some(time) => time,
                None => {
                    log.warn(
                        entry_text(
                            "Source entry ",
                            id,
                            " did not have a last modification timestamp",
                        ),
                    );
                    Times::epoch()
                },
            };
            let our_time = match dest_entry.times.last_modification {
                Some(time) => time,
                None => {
                    log.warn(
                        entry_text(
                            "Destination entry ",
                            id,
                            " did not have a last modification timestamp",
                        ),
                    );
                    now
                },
            };
            decide(
                dest_entry,
                dest_db,
                our_time,
                source_entry,
                source_db,
                their_time,
                base_db,
                id,
            )
        },
        _ => Decision::Keep,
    };
    match decision {
        Decision::Keep => Ok(()),
        Decision::Undecidable => Err(MergeError::EntryModificationTimeNotUpdated(id)),
        Decision::Blend { take_source, warning } => {
            if let Some(warning) = warning {
                log.warn(warning);
            }
            blend_entry(dest_db, source_db, log, id, take_source);
            Ok(())
        },
    }
}

/// Deals with an entry that both sides have.
fn merge_common_entry(
    dest_db: &mut Database,
    source_db: &Database,
    base_db: &Database,
    now: Timestamp,
    log: &mut MergeLog,
    id: EntryId,
) -> (result: Result<(), MergeError>)
    requires
        old(dest_db).wf(),
        old(dest_db).deep_view().entries.contains_key(id),
        source_db.deep_view().entries.contains_key(id),
    ensures
        final(dest_db).wf(),
        old(dest_db).deep_view().sound() ==> final(dest_db).deep_view().sound(),
        (Progress {
            db: final(dest_db).deep_view(),
            log: final(log).deep_view(),
            error: result.err(),
        }) == entry_common(
            going(old(dest_db).deep_view(), old(log).deep_view()),
            source_db.deep_view(),
            base_db.deep_view(),
            now,
            id,
        ),
        final(dest_db).deep_view().groups.dom() == old(dest_db).deep_view().groups.dom(),
        final(dest_db).deep_view().root == old(dest_db).deep_view().root,
        final(dest_db).deep_view().entries.dom() == old(dest_db).deep_view().entries.dom(),
{
    proof {
        reveal(entry_common);
    }
    let ghost before = dest_db.deep_view();
    relocate_entry(dest_db, source_db, log, id);
    proof {
        assert(before.entries.dom().contains(id));
        assert(dest_db.deep_view().entries.dom().contains(id));
    }
    settle_entry(dest_db, source_db, base_db, now, log, id)
}

/// Deals with the entries that only one side has.
fn merge_one_sided_entries(
    dest_db: &mut Database,
    source_db: &Database,
    base_db: &Database,
    log: &mut MergeLog,
)
    requires
        old(dest_db).wf(),
        source_db.wf(),
    ensures
        final(dest_db).wf(),
        old(dest_db).deep_view().sound() ==> final(dest_db).deep_view().sound(),
        going(final(dest_db).deep_view(), final(log).deep_view()) == all_missing(
            all_offered(
                going(old(dest_db).deep_view(), old(log).deep_view()),
                source_db.deep_view(),
                base_db.deep_view(),
                order::ordered::<EntryId>(
                    source_db.deep_view().entries.dom().difference(
                        old(dest_db).deep_view().entries.dom(),
                    ),
                ),
            ),
            source_db.deep_view(),
            base_db.deep_view(),
            order::ordered::<EntryId>(
                old(dest_db).deep_view().entries.dom().difference(
                    source_db.deep_view().entries.dom(),
                ),
            ),
        ),
        final(dest_db).deep_view().groups.dom() == old(dest_db).deep_view().groups.dom(),
        final(dest_db).deep_view().root == old(dest_db).deep_view().root,
        forall|e: EntryId|
            old(dest_db).deep_view().entries.contains_key(e)
                && source_db.deep_view().entries.contains_key(e) ==> #[trigger] final(dest_db).deep_view().entries.contains_key(e),
{
    let ghost dest = dest_db.deep_view();
    let ghost source = source_db.deep_view();
    let ghost base = base_db.deep_view();
    let ghost start = going(dest, log.deep_view());
    let offered_ids = sorted_map::keys_only_in(&source_db.entries, &dest_db.entries);
    let missing_ids = sorted_map::keys_only_in(&dest_db.entries, &source_db.entries);
    let ghost offered = offered_ids.deep_view();
    let ghost missing = missing_ids.deep_view();
    proof {
        assert(offered.take(0) =~= Seq::<EntryId>::empty());
        assert(missing.take(0) =~= Seq::<EntryId>::empty());
        order::lemma_increasing_no_duplicates::<EntryId>(offered);
        order::lemma_increasing_no_duplicates::<EntryId>(missing);
        assert forall|j: int| 0 <= j < offered.len() implies
            !dest_db.deep_view().entries.contains_key(#[trigger] offered[j]) by {
            assert(offered.contains(offered[j]));
            assert(source.entries.dom().difference(dest.entries.dom()).contains(offered[j]));
        }
    }

    // Handle entries that exist only in source and might need to be added.
    let mut i: usize = 0;
    while i < offered_ids.len()
        invariant
            dest_db.wf(),
            old(dest_db).deep_view().sound() ==> dest_db.deep_view().sound(),
            source_db.wf(),
            source == source_db.deep_view(),
            base == base_db.deep_view(),
            offered == offered_ids.deep_view(),
            offered.no_duplicates(),
            order::lists::<EntryId>(
                offered,
                source.entries.dom().difference(dest.entries.dom()),
            ),
            i <= offered_ids@.len(),
            going(dest_db.deep_view(), log.deep_view()) == all_offered(
                start,
                source,
                base,
                offered.take(i as int),
            ),
            dest_db.deep_view().groups.dom() == dest.groups.dom(),
            dest_db.deep_view().root == dest.root,
            forall|e: EntryId| #[trigger]
                dest.entries.contains_key(e) ==> dest_db.deep_view().entries.contains_key(e),
            forall|j: int|
                i <= j < offered.len() ==> !dest_db.deep_view().entries.contains_key(
                    #[trigger] offered[j],
                ),
        decreases offered_ids@.len() - i,
    {
        let id = offered_ids[i];
        proof {
            assert(offered[i as int] == id);
            assert(offered.contains(id));
            assert(source.entries.dom().difference(dest.entries.dom()).contains(id));
            assert(offered.take(i + 1).drop_last() =~= offered.take(i as int));
            assert(offered.take(i + 1).last() == id);
        }
        offer_entry(dest_db, source_db, base_db, log, id);
        i += 1;
    }
    proof {
        assert(offered.take(offered.len() as int) =~= offered);
        assert forall|j: int| 0 <= j < missing.len() implies
            dest_db.deep_view().entries.contains_key(#[trigger] missing[j]) by {
            assert(missing.contains(missing[j]));
            assert(dest.entries.dom().difference(source.entries.dom()).contains(missing[j]));
            assert(dest.entries.contains_key(missing[j]));
        }
    }
    let ghost middle = going(dest_db.deep_view(), log.deep_view());

    // Handle entries that exist only in destination. These entries might need to be deleted.
    let mut i: usize = 0;
    while i < missing_ids.len()
        invariant
            dest_db.wf(),
            old(dest_db).deep_view().sound() ==> dest_db.deep_view().sound(),
            source == source_db.deep_view(),
            base == base_db.deep_view(),
            missing == missing_ids.deep_view(),
            missing.no_duplicates(),
            order::lists::<EntryId>(
                missing,
                dest.entries.dom().difference(source.entries.dom()),
            ),
            i <= missing_ids@.len(),
            going(dest_db.deep_view(), log.deep_view()) == all_missing(
                middle,
                source,
                base,
                missing.take(i as int),
            ),
            dest_db.deep_view().groups.dom() == dest.groups.dom(),
            dest_db.deep_view().root == dest.root,
            forall|e: EntryId|
                dest.entries.contains_key(e) && source.entries.contains_key(e)
                    ==> #[trigger] dest_db.deep_view().entries.contains_key(e),
            forall|j: int|
                i <= j < missing.len() ==> dest_db.deep_view().entries.contains_key(
                    #[trigger] missing[j],
                ),
        decreases missing_ids@.len() - i,
    {
        let id = missing_ids[i];
        proof {
            assert(missing[i as int] == id);
            assert(missing.contains(id));
            assert(dest.entries.dom().difference(source.entries.dom()).contains(id));
            assert(missing.take(i + 1).drop_last() =~= missing.take(i as int));
            assert(missing.take(i + 1).last() == id);
        }
        merge_missing_entry(dest_db, source_db, base_db, log, id);
        i += 1;
    }
    assert(missing.take(missing.len() as int) =~= missing);
}

/// Merge entries from `source` into `dest`, appending to a log of the merge process. `now` stands
/// in for the modification time of an entry of the destination that has none.
pub fn merge_entries(
    dest_db: &mut Database,
    source_db: &Database,
    base_db: &Database,
    now: Timestamp,
    log: &mut MergeLog,
) -> (result: Result<(), MergeError>)
    requires
        old(dest_db).wf(),
        source_db.wf(),
    ensures
        final(dest_db).wf(),
        old(dest_db).deep_view().sound() ==> final(dest_db).deep_view().sound(),
        (Progress {
            db: final(dest_db).deep_view(),
            log: final(log).deep_view(),
            error: result.err(),
        }) == entries_merged(
            going(old(dest_db).deep_view(), old(log).deep_view()),
            source_db.deep_view(),
            base_db.deep_view(),
            now,
        ),
        final(dest_db).deep_view().groups.dom() == old(dest_db).deep_view().groups.dom(),
        final(dest_db).deep_view().root == old(dest_db).deep_view().root,
{
    let ghost dest = dest_db.deep_view();
    let ghost source = source_db.deep_view();
    let ghost base = base_db.deep_view();
    let common_ids = sorted_map::keys_in_both(&dest_db.entries, &source_db.entries);
    let ghost common = common_ids.deep_view();
    merge_one_sided_entries(dest_db, source_db, base_db, log);
    let ghost start = going(dest_db.deep_view(), log.deep_view());
    proof {
        assert(common.take(0) =~= Seq::<EntryId>::empty());
        assert(common.take(common.len() as int) =~= common);
        assert forall|j: int| 0 <= j < common.len() implies {
            &&& dest_db.deep_view().entries.contains_key(#[trigger] common[j])
            &&& source.entries.contains_key(common[j])
        } by {
            assert(common.contains(common[j]));
            assert(dest.entries.dom().intersect(source.entries.dom()).contains(common[j]));
        }
    }
    let mut i: usize = 0;
    while i < common_ids.len()
        invariant
            dest_db.wf(),
            old(dest_db).deep_view().sound() ==> dest_db.deep_view().sound(),
            dest == old(dest_db).deep_view(),
            source == source_db.deep_view(),
            base == base_db.deep_view(),
            common == common_ids.deep_view(),
            i <= common_ids@.len(),
            going(dest_db.deep_view(), log.deep_view()) == all_common(
                start,
                source,
                base,
                now,
                common.take(i as int),
            ),
            dest_db.deep_view().groups.dom() == dest.groups.dom(),
            dest_db.deep_view().root == dest.root,
            forall|j: int|
                0 <= j < common.len() ==> dest_db.deep_view().entries.contains_key(
                    #[trigger] common[j],
                ) && source.entries.contains_key(common[j]),
            all_common(start, source, base, now, common) == entries_merged(
                going(dest, old(log).deep_view()),
                source,
                base,
                now,
            ),
        decreases common_ids@.len() - i,
    {
        let id = common_ids[i];
        let ghost before = dest_db.deep_view();
        proof {
            assert(common[i as int] == id);
            assert(common.take(i + 1).drop_last() =~= common.take(i as int));
            assert(common.take(i + 1).last() == id);
        }
        let settled = merge_common_entry(dest_db, source_db, base_db, now, log, id);
        proof {
            assert(dest_db.deep_view().entries.dom() == before.entries.dom());
            assert forall|j: int| 0 <= j < common.len() implies
                dest_db.deep_view().entries.contains_key(#[trigger] common[j]) by {
                assert(before.entries.contains_key(common[j]));
                assert(before.entries.dom().contains(common[j]));
            }
        }
        if settled.is_err() {
            proof {
                lemma_error_ends(start, source, base, now, common, i + 1);
            }
            return settled;
        }
        i += 1;
    }
    assert(common.take(common.len() as int) =~= common);
    Ok(())
}

/// After an error nothing more is merged.
proof fn lemma_error_ends(
    p: Progress,
    source: DatabaseModel,
    base: DatabaseModel,
    now: Timestamp,
    listed: Seq<EntryId>,
    n: int,
)
    requires
        0 <= n <= listed.len(),
        all_common(p, source, base, now, listed.take(n)).error is Some,
    ensures
        all_common(p, source, base, now, listed) == all_common(
            p,
            source,
            base,
            now,
            listed.take(n),
        ),
    decreases listed.len(),
{
    if n == listed.len() {
        assert(listed.take(n) =~= listed);
    } else {
        let shorter = listed.drop_last();
        assert(shorter.take(n) =~= listed.take(n));
        lemma_error_ends(p, source, base, now, shorter, n);
    }
}

} // verus!
