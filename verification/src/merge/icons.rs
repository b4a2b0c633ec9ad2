//! The merging of custom icons.

use vstd::prelude::*;
use crate::content::Content;
use crate::database::Database;
use crate::database::DatabaseModel;
use crate::icon::CustomIcon;
use crate::icon::CustomIconModel;
use crate::ids;
use crate::ids::CustomIconId;
use crate::ids::Uuid;
use crate::merge::log::LogModel;
use crate::merge::log::MergeEventTarget;
use crate::merge::log::MergeEventType;
use crate::merge::log::MergeLog;
use crate::merge::rules;
use crate::order;
use crate::text;
use crate::times::Times;
use crate::times::Timestamp;

verus! {

/// Custom icons by identifier.
pub type Icons = Map<CustomIconId, CustomIconModel>;

/// The warning that an icon was deleted in the destination and modified in the source.
pub open spec fn deleted_but_modified(id: CustomIconId) -> Seq<char> {
    "Custom icon "@ + ids::hyphenated(id.0.0)
        + " was deleted in the destination but modified in the source since the common ancestor."@
}

/// The warning that an icon was modified in the destination and deleted in the source.
pub open spec fn modified_but_deleted(id: CustomIconId) -> Seq<char> {
    "Custom icon "@ + ids::hyphenated(id.0.0)
        + " was modified in the destination but deleted in the source since the common ancestor."@
}

/// The warning that the destination's icon has no modification time.
pub open spec fn destination_undated(id: CustomIconId) -> Seq<char> {
    "Destination custom icon "@ + ids::hyphenated(id.0.0)
        + " did not have a last modification timestamp"@
}

/// The warning that the source's icon has no modification time.
pub open spec fn source_undated(id: CustomIconId) -> Seq<char> {
    "Source custom icon "@ + ids::hyphenated(id.0.0)
        + " did not have a last modification timestamp"@
}

/// The warning that icons with the same modification time differ.
pub open spec fn diverged(id: CustomIconId) -> Seq<char> {
    "Custom icons with UUID "@ + ids::hyphenated(id.0.0)
        + " have the same modification time but have diverged."@
}

/// The warning that both sides modified an icon.
pub open spec fn modified_in_both(id: CustomIconId) -> Seq<char> {
    "Custom icon "@ + ids::hyphenated(id.0.0)
        + " was modified in both databases since the common ancestor. Resolving by keeping the most recently modified version."@
}

/// Whether an icon differs from what the common ancestor had.
pub open spec fn differs_from_base(icon: CustomIconModel, base: Icons, id: CustomIconId) -> bool {
    base.contains_key(id) && icon != base[id]
}

/// The modification time of an icon; the start of the epoch where it has none.
pub open spec fn dated(icon: CustomIconModel) -> Timestamp {
    match icon.last_modification_time {
        Some(time) => time,
        None => Times::spec_epoch(),
    }
}

/// The modification time that the common ancestor knew for an icon.
pub open spec fn base_time(base: Icons, id: CustomIconId) -> Option<Timestamp> {
    if base.contains_key(id) {
        base[id].last_modification_time
    } else {
        None
    }
}

/// Whether the common ancestor had just this icon.
pub open spec fn as_in_base(icon: CustomIconModel, base: Icons, id: CustomIconId) -> bool {
    base.contains_key(id) && icon == base[id]
}

/// Whether the source's version of an icon that both sides have replaces the destination's: it is
/// newer, and was changed since the common ancestor; or both are of the same time, and only the
/// source's differs from the ancestor's.
pub open spec fn source_wins(dest: CustomIconModel, source: CustomIconModel, base: Icons, id: CustomIconId) -> bool {
    if dated(dest) == dated(source) {
        dest != source && as_in_base(dest, base, id)
    } else {
        dated(dest).before(dated(source)) && rules::changed_since(
            base_time(base, id),
            dated(source),
        )
    }
}

/// Whether two versions of an icon are of the same time and differ, and the common ancestor does
/// not tell that only one side changed it.
pub open spec fn undecided(dest: CustomIconModel, source: CustomIconModel, base: Icons, id: CustomIconId) -> bool {
    &&& dated(dest) == dated(source)
    &&& dest != source
    &&& !as_in_base(dest, base, id)
    &&& !as_in_base(source, base, id)
}

/// Whether the merge is asked to choose between two changes of an icon.
pub open spec fn in_conflict(dest: CustomIconModel, source: CustomIconModel, base: Icons, id: CustomIconId) -> bool {
    &&& dated(dest) != dated(source)
    &&& base_time(base, id) is Some
    &&& rules::changed_since(base_time(base, id), dated(source))
    &&& rules::changed_since(base_time(base, id), dated(dest))
    &&& dest != source
}

/// Whether an icon that only the source has is taken over.
pub open spec fn icon_revived(dest: DatabaseModel, source: DatabaseModel, id: CustomIconId) -> bool {
    rules::revived(
        dest.deleted_objects,
        id.0,
        source.custom_icons[id].last_modification_time,
    )
}

/// Whether an icon that only the destination has is deleted.
pub open spec fn icon_buried(dest: DatabaseModel, source: DatabaseModel, id: CustomIconId) -> bool {
    rules::buried(
        source.deleted_objects,
        id.0,
        dest.custom_icons[id].last_modification_time,
    )
}

/// Whether an icon is there after the merge.
pub open spec fn icon_kept(dest: DatabaseModel, source: DatabaseModel, id: CustomIconId) -> bool {
    if dest.custom_icons.contains_key(id) {
        source.custom_icons.contains_key(id) || !icon_buried(dest, source, id)
    } else {
        source.custom_icons.contains_key(id) && icon_revived(dest, source, id)
    }
}

/// The version of an icon that is there after the merge.
pub open spec fn icon_chosen(
    dest: DatabaseModel,
    source: DatabaseModel,
    base: DatabaseModel,
    id: CustomIconId,
) -> CustomIconModel {
    if !dest.custom_icons.contains_key(id) {
        source.custom_icons[id]
    } else if source.custom_icons.contains_key(id) && source_wins(
        dest.custom_icons[id],
        source.custom_icons[id],
        base.custom_icons,
        id,
    ) {
        source.custom_icons[id]
    } else {
        dest.custom_icons[id]
    }
}

/// Whether the merge deletes an icon of the destination.
pub open spec fn icon_deleted(dest: DatabaseModel, source: DatabaseModel, id: CustomIconId) -> bool {
    &&& dest.custom_icons.contains_key(id)
    &&& !source.custom_icons.contains_key(id)
    &&& icon_buried(dest, source, id)
}

/// The database after the merging of custom icons. A deletion is taken over with its time.
pub open spec fn icons_merged(
    dest: DatabaseModel,
    source: DatabaseModel,
    base: DatabaseModel,
) -> DatabaseModel {
    DatabaseModel {
        custom_icons: Map::new(
            |id: CustomIconId| icon_kept(dest, source, id),
            |id: CustomIconId| icon_chosen(dest, source, base, id),
        ),
        deleted_objects: dest.deleted_objects.union_prefer_right(
            Map::new(
                |object: Uuid| icon_deleted(dest, source, CustomIconId(object)),
                |object: Uuid| source.deleted_objects[object],
            ),
        ),
        ..dest
    }
}

/// What is logged for an icon that only the source has.
pub open spec fn offered_log(
    dest: DatabaseModel,
    source: DatabaseModel,
    base: DatabaseModel,
    id: CustomIconId,
    log: LogModel,
) -> LogModel {
    let warned = log.warned_if(
        dest.deleted_objects.contains_key(id.0) && differs_from_base(
            source.custom_icons[id],
            base.custom_icons,
            id,
        ),
        deleted_but_modified(id),
    );
    if icon_revived(dest, source, id) {
        warned.noted(MergeEventTarget::Icon(id), MergeEventType::Created)
    } else {
        warned
    }
}

/// What is logged for an icon that only the destination has.
pub open spec fn missing_log(
    dest: DatabaseModel,
    source: DatabaseModel,
    base: DatabaseModel,
    id: CustomIconId,
    log: LogModel,
) -> LogModel {
    let warned = log.warned_if(
        source.deleted_objects.contains_key(id.0) && differs_from_base(
            dest.custom_icons[id],
            base.custom_icons,
            id,
        ),
        modified_but_deleted(id),
    );
    if icon_buried(dest, source, id) {
        warned.noted(MergeEventTarget::Icon(id), MergeEventType::Deleted)
    } else {
        warned
    }
}

/// What is logged for an icon that both sides have.
pub open spec fn common_log(
    dest: DatabaseModel,
    source: DatabaseModel,
    base: DatabaseModel,
    id: CustomIconId,
    log: LogModel,
) -> LogModel {
    let ours = dest.custom_icons[id];
    let theirs = source.custom_icons[id];
    let warned = log.warned_if(
        ours.last_modification_time is None,
        destination_undated(id),
    ).warned_if(theirs.last_modification_time is None, source_undated(id)).warned_if(
        undecided(ours, theirs, base.custom_icons, id),
        diverged(id),
    ).warned_if(in_conflict(ours, theirs, base.custom_icons, id), modified_in_both(id));
    if source_wins(ours, theirs, base.custom_icons, id) {
        warned.noted(MergeEventTarget::Icon(id), MergeEventType::Updated)
    } else {
        warned
    }
}

/// The log after the icons that only the source has, as far as listed.
pub open spec fn offered_logs(
    dest: DatabaseModel,
    source: DatabaseModel,
    base: DatabaseModel,
    listed: Seq<CustomIconId>,
    log: LogModel,
) -> LogModel
    decreases listed.len(),
{
    if listed.len() == 0 {
        log
    } else {
        let before = offered_logs(dest, source, base, listed.drop_last(), log);
        if dest.custom_icons.contains_key(listed.last()) {
            before
        } else {
            offered_log(dest, source, base, listed.last(), before)
        }
    }
}

/// The log after the icons that only the destination has, as far as listed.
pub open spec fn missing_logs(
    dest: DatabaseModel,
    source: DatabaseModel,
    base: DatabaseModel,
    listed: Seq<CustomIconId>,
    log: LogModel,
) -> LogModel
    decreases listed.len(),
{
    if listed.len() == 0 {
        log
    } else {
        let before = missing_logs(dest, source, base, listed.drop_last(), log);
        if source.custom_icons.contains_key(listed.last()) {
            before
        } else {
            missing_log(dest, source, base, listed.last(), before)
        }
    }
}

/// The log after the icons that both sides have, as far as listed.
pub open spec fn common_logs(
    dest: DatabaseModel,
    source: DatabaseModel,
    base: DatabaseModel,
    listed: Seq<CustomIconId>,
    log: LogModel,
) -> LogModel
    decreases listed.len(),
{
    if listed.len() == 0 {
        log
    } else {
        let before = common_logs(dest, source, base, listed.drop_last(), log);
        if source.custom_icons.contains_key(listed.last()) {
            common_log(dest, source, base, listed.last(), before)
        } else {
            before
        }
    }
}

/// The log after the merging of custom icons: first those that only the source has, then those
/// that only the destination has, then the others, each in order.
pub open spec fn icons_log(
    dest: DatabaseModel,
    source: DatabaseModel,
    base: DatabaseModel,
    log: LogModel,
) -> LogModel {
    let ours = order::ordered::<CustomIconId>(dest.custom_icons.dom());
    let theirs = order::ordered::<CustomIconId>(source.custom_icons.dom());
    let offered = offered_logs(dest, source, base, theirs, log);
    let missing = missing_logs(dest, source, base, ours, offered);
    common_logs(dest, source, base, ours, missing)
}

/// Whether an icon differs from what the common ancestor had.
fn icon_differs_from_base(icon: &CustomIcon, base_db: &Database, id: CustomIconId) -> (result: bool)
    ensures
        result == differs_from_base(icon.deep_view(), base_db.deep_view().custom_icons, id),
{
    match base_db.custom_icons.get(&id) {
        Some(base_icon) => !icon.same_as(base_icon),
        None => false,
    }
}

/// Whether the common ancestor had just this icon.
fn icon_is_as_in_base(icon: &CustomIcon, base_db: &Database, id: CustomIconId) -> (result: bool)
    ensures
        result == as_in_base(icon.deep_view(), base_db.deep_view().custom_icons, id),
{
    match base_db.custom_icons.get(&id) {
        Some(base_icon) => icon.same_as(base_icon),
        None => false,
    }
}

/// Takes over the icons that only the source has.
fn merge_offered_icons(
    dest_db: &mut Database,
    source_db: &Database,
    base_db: &Database,
    log: &mut MergeLog,
)
    ensures
        final(dest_db).deep_view() == (DatabaseModel {
            custom_icons: final(dest_db).deep_view().custom_icons,
            ..old(dest_db).deep_view()
        }),
        forall|k: CustomIconId| #[trigger]
            final(dest_db).deep_view().custom_icons.contains_key(k) <==> old(dest_db).deep_view().custom_icons.contains_key(k) || icon_kept(
                old(dest_db).deep_view(),
                source_db.deep_view(),
                k,
            ),
        forall|k: CustomIconId| #[trigger]
            final(dest_db).deep_view().custom_icons.contains_key(k) ==> final(dest_db).deep_view().custom_icons[k] == if old(dest_db).deep_view().custom_icons.contains_key(k) {
                old(dest_db).deep_view().custom_icons[k]
            } else {
                source_db.deep_view().custom_icons[k]
            },
        final(log).deep_view() == offered_logs(
            old(dest_db).deep_view(),
            source_db.deep_view(),
            base_db.deep_view(),
            order::ordered::<CustomIconId>(source_db.deep_view().custom_icons.dom()),
            old(log).deep_view(),
        ),
{
    let ghost dest = dest_db.deep_view();
    let ghost source = source_db.deep_view();
    let ghost base = base_db.deep_view();
    let ids = source_db.custom_icons.keys();
    let ghost listing = ids.deep_view();
    assert(listing.take(0) =~= Seq::<CustomIconId>::empty());
    let mut i: usize = 0;
    while i < ids.len()
        invariant
            source == source_db.deep_view(),
            base == base_db.deep_view(),
            listing == ids.deep_view(),
            order::lists::<CustomIconId>(listing, source.custom_icons.dom()),
            i <= ids@.len(),
            dest_db.deep_view() == (DatabaseModel {
                custom_icons: dest_db.deep_view().custom_icons,
                ..dest
            }),
            forall|k: CustomIconId| #[trigger]
                dest_db.deep_view().custom_icons.contains_key(k) <==> dest.custom_icons.contains_key(
                    k,
                ) || (listing.take(i as int).contains(k) && icon_kept(dest, source, k)),
            forall|k: CustomIconId| #[trigger]
                dest_db.deep_view().custom_icons.contains_key(k)
                    ==> dest_db.deep_view().custom_icons[k] == if dest.custom_icons.contains_key(
                    k,
                ) {
                    dest.custom_icons[k]
                } else {
                    source.custom_icons[k]
                },
            log.deep_view() == offered_logs(
                dest,
                source,
                base,
                listing.take(i as int),
                old(log).deep_view(),
            ),
        decreases ids@.len() - i,
    {
        let id = ids[i];
        proof {
            order::lemma_take_next(listing, i as int);
            order::lemma_increasing_no_duplicates::<CustomIconId>(listing);
            assert(listing[i as int] == id);
            assert(listing.contains(id));
            assert(source.custom_icons.dom().contains(id));
            assert(listing.take(i + 1).drop_last() =~= listing.take(i as int));
            assert(listing.take(i + 1).last() == id);
            if listing.take(i as int).contains(id) {
                let j = choose|j: int| 0 <= j < i && listing.take(i as int)[j] == id;
                assert(listing[j] == id);
            }
        }
        if !dest_db.custom_icons.contains_key(&id) {
            if let Some(source_icon) = source_db.custom_icons.get(&id) {
                if dest_db.deleted_objects.contains_key(&id.uuid()) && icon_differs_from_base(
                    source_icon,
                    base_db,
                    id,
                ) {
                    log.warn(
                        text::join3(
                            "Custom icon ",
                            id.text().as_str(),
                            " was deleted in the destination but modified in the source since the common ancestor.",
                        ),
                    );
                }
                if rules::is_revived(
                    &dest_db.deleted_objects,
                    id.uuid(),
                    source_icon.last_modification_time,
                ) {
                    dest_db.custom_icons.insert(id, source_icon.duplicate());
                    log.note(MergeEventTarget::Icon(id), MergeEventType::Created);
                }
            }
        }
        i += 1;
    }
    proof {
        assert(listing.take(listing.len() as int) =~= listing);
        assert forall|k: CustomIconId| #[trigger] source.custom_icons.contains_key(k) implies
            listing.contains(k) by {
            assert(source.custom_icons.dom().contains(k));
        }
    }
}

/// Deletes the icons that only the destination has and the source deleted.
fn merge_missing_icons(
    dest_db: &mut Database,
    source_db: &Database,
    base_db: &Database,
    log: &mut MergeLog,
    ids: &Vec<CustomIconId>,
    before: Ghost<DatabaseModel>,
)
    requires
        order::lists::<CustomIconId>(ids.deep_view(), before@.custom_icons.dom()),
        old(dest_db).deep_view() == (DatabaseModel {
            custom_icons: old(dest_db).deep_view().custom_icons,
            ..before@
        }),
        forall|k: CustomIconId| #[trigger]
            before@.custom_icons.contains_key(k) ==> old(dest_db).deep_view().custom_icons.contains_key(k) && old(dest_db).deep_view().custom_icons[k] == before@.custom_icons[k],
    ensures
        final(dest_db).deep_view() == (DatabaseModel {
            custom_icons: old(dest_db).deep_view().custom_icons.remove_keys(
                Set::new(|k: CustomIconId| icon_deleted(before@, source_db.deep_view(), k)),
            ),
            deleted_objects: icons_merged(
                before@,
                source_db.deep_view(),
                base_db.deep_view(),
            ).deleted_objects,
            ..before@
        }),
        final(log).deep_view() == missing_logs(
            before@,
            source_db.deep_view(),
            base_db.deep_view(),
            ids.deep_view(),
            old(log).deep_view(),
        ),
{
    let ghost dest = before@;
    let ghost source = source_db.deep_view();
    let ghost base = base_db.deep_view();
    let ghost listing = ids.deep_view();
    let ghost icons = dest_db.deep_view().custom_icons;
    proof {
        assert(listing.take(0) =~= Seq::<CustomIconId>::empty());
        assert(icons =~= icons.remove_keys(
            Set::new(
                |k: CustomIconId| listing.take(0).contains(k) && icon_deleted(dest, source, k),
            ),
        ));
        assert(dest.deleted_objects =~= dest.deleted_objects.union_prefer_right(
            Map::new(
                |object: Uuid|
                    listing.take(0).contains(CustomIconId(object)) && icon_deleted(
                        dest,
                        source,
                        CustomIconId(object),
                    ),
                |object: Uuid| source.deleted_objects[object],
            ),
        ));
    }
    let mut i: usize = 0;
    while i < ids.len()
        invariant
            dest == before@,
            source == source_db.deep_view(),
            base == base_db.deep_view(),
            listing == ids.deep_view(),
            order::lists::<CustomIconId>(listing, dest.custom_icons.dom()),
            forall|k: CustomIconId| #[trigger]
                dest.custom_icons.contains_key(k) ==> icons.contains_key(k) && icons[k]
                    == dest.custom_icons[k],
            i <= ids@.len(),
            dest_db.deep_view() == (DatabaseModel {
                custom_icons: dest_db.deep_view().custom_icons,
                deleted_objects: dest_db.deep_view().deleted_objects,
                ..dest
            }),
            dest_db.deep_view().custom_icons == icons.remove_keys(
                Set::new(
                    |k: CustomIconId|
                        listing.take(i as int).contains(k) && icon_deleted(dest, source, k),
                ),
            ),
            dest_db.deep_view().deleted_objects == dest.deleted_objects.union_prefer_right(
                Map::new(
                    |object: Uuid|
                        listing.take(i as int).contains(CustomIconId(object)) && icon_deleted(
                            dest,
                            source,
                            CustomIconId(object),
                        ),
                    |object: Uuid| source.deleted_objects[object],
                ),
            ),
            log.deep_view() == missing_logs(
                dest,
                source,
                base,
                listing.take(i as int),
                old(log).deep_view(),
            ),
        decreases ids@.len() - i,
    {
        let id = ids[i];
        proof {
            order::lemma_take_next(listing, i as int);
            order::lemma_increasing_no_duplicates::<CustomIconId>(listing);
            assert(listing[i as int] == id);
            assert(listing.contains(id));
            assert(dest.custom_icons.dom().contains(id));
            assert(dest.custom_icons.contains_key(id));
            assert(listing.take(i + 1).drop_last() =~= listing.take(i as int));
            assert(listing.take(i + 1).last() == id);
            if listing.take(i as int).contains(id) {
                let j = choose|j: int| 0 <= j < i && listing.take(i as int)[j] == id;
                assert(listing[j] == id);
            }
        }
        if !source_db.custom_icons.contains_key(&id) {
            if let Some(dest_icon) = dest_db.custom_icons.get(&id) {
                let updated = dest_icon.last_modification_time;
                if let Some(deletion) = source_db.deleted_objects.get(&id.uuid()) {
                    if icon_differs_from_base(dest_icon, base_db, id) {
                        log.warn(
                            text::join3(
                                "Custom icon ",
                                id.text().as_str(),
                                " was modified in the destination but deleted in the source since the common ancestor.",
                            ),
                        );
                    }
                    if rules::is_buried(&source_db.deleted_objects, id.uuid(), updated) {
                        dest_db.custom_icons.remove(&id);
                        dest_db.deleted_objects.insert(id.uuid(), *deletion);
                        log.note(MergeEventTarget::Icon(id), MergeEventType::Deleted);
                    }
                }
            }
        }
        proof {
            assert forall|object: Uuid| #[trigger] listing.take(i + 1).contains(
                CustomIconId(object),
            ) <==> listing.take(i as int).contains(CustomIconId(object)) || object == id.0 by {}
            assert(dest_db.deep_view().custom_icons =~= icons.remove_keys(
                Set::new(
                    |k: CustomIconId|
                        listing.take(i + 1).contains(k) && icon_deleted(dest, source, k),
                ),
            ));
            assert(dest_db.deep_view().deleted_objects =~= dest.deleted_objects.union_prefer_right(
                Map::new(
                    |object: Uuid|
                        listing.take(i + 1).contains(CustomIconId(object)) && icon_deleted(
                            dest,
                            source,
                            CustomIconId(object),
                        ),
                    |object: Uuid| source.deleted_objects[object],
                ),
            ));
        }
        i += 1;
    }
    proof {
        assert(listing.take(listing.len() as int) =~= listing);
        assert forall|k: CustomIconId| #[trigger] icon_deleted(dest, source, k) implies
            listing.contains(k) by {
            assert(dest.custom_icons.dom().contains(k));
        }
        assert(dest_db.deep_view().custom_icons =~= icons.remove_keys(
            Set::new(|k: CustomIconId| icon_deleted(dest, source, k)),
        ));
        assert(dest_db.deep_view().deleted_objects =~= icons_merged(
            dest,
            source,
            base,
        ).deleted_objects);
    }
}

/// Settles an icon that both sides have.
fn merge_common_icon(
    dest_db: &mut Database,
    source_db: &Database,
    base_db: &Database,
    log: &mut MergeLog,
    id: CustomIconId,
    before: Ghost<DatabaseModel>,
)
    requires
        before@.custom_icons.contains_key(id),
        source_db.deep_view().custom_icons.contains_key(id),
        old(dest_db).deep_view().custom_icons.contains_key(id),
        old(dest_db).deep_view().custom_icons[id] == before@.custom_icons[id],
    ensures
        final(dest_db).deep_view() == (DatabaseModel {
            custom_icons: old(dest_db).deep_view().custom_icons.insert(
                id,
                icon_chosen(before@, source_db.deep_view(), base_db.deep_view(), id),
            ),
            ..old(dest_db).deep_view()
        }),
        final(log).deep_view() == common_log(
            before@,
            source_db.deep_view(),
            base_db.deep_view(),
            id,
            old(log).deep_view(),
        ),
{
    let ghost icons = dest_db.deep_view().custom_icons;
    proof {
        assert(icons =~= icons.insert(id, icons[id]));
        broadcast use Timestamp::numbers_decide;
    }
    if let Some(dest_icon) = dest_db.custom_icons.get(&id) {
        if let Some(source_icon) = source_db.custom_icons.get(&id) {
            let dest_time = match dest_icon.last_modification_time {
                Some(time) => time,
                None => {
                    log.warn(
                        text::join3(
                            "Destination custom icon ",
                            id.text().as_str(),
                            " did not have a last modification timestamp",
                        ),
                    );
                    Times::epoch()
                },
            };
            let source_time = match source_icon.last_modification_time {
                Some(time) => time,
                None => {
                    log.warn(
                        text::join3(
                            "Source custom icon ",
                            id.text().as_str(),
                            " did not have a last modification timestamp",
                        ),
                    );
                    Times::epoch()
                },
            };
            if dest_time == source_time {
                if dest_icon.same_as(source_icon) {
                    return ;
                }
                if icon_is_as_in_base(dest_icon, base_db, id) {
                    // Only the source changed the icon; adopt it despite the equal time.
                    dest_db.custom_icons.insert(id, source_icon.duplicate());
                    log.note(MergeEventTarget::Icon(id), MergeEventType::Updated);
                } else if !icon_is_as_in_base(source_icon, base_db, id) {
                    log.warn(
                        text::join3(
                            "Custom icons with UUID ",
                            id.text().as_str(),
                            " have the same modification time but have diverged.",
                        ),
                    );
                }
                return ;
            }
            let base_modified = match base_db.custom_icons.get(&id) {
                Some(base_icon) => base_icon.last_modification_time,
                None => None,
            };
            if !rules::has_changed_since(base_modified, source_time) {
                // The source contributed nothing since the ancestor; keep the destination as-is.
                return ;
            }
            if rules::has_changed_since(base_modified, dest_time) && base_modified.is_some()
                && !dest_icon.same_as(source_icon) {
                log.warn(
                    text::join3(
                        "Custom icon ",
                        id.text().as_str(),
                        " was modified in both databases since the common ancestor. Resolving by keeping the most recently modified version.",
                    ),
                );
            }
            if dest_time.is_before(&source_time) {
                // The source icon is more recent than the destination icon.
                dest_db.custom_icons.insert(id, source_icon.duplicate());
                log.note(MergeEventTarget::Icon(id), MergeEventType::Updated);
            }
        }
    }
}

/// Merge custom icons, appending to a log of the merge process.
pub fn merge_icons(
    dest_db: &mut Database,
    source_db: &Database,
    base_db: &Database,
    log: &mut MergeLog,
)
    ensures
        final(dest_db).deep_view() == icons_merged(
            old(dest_db).deep_view(),
            source_db.deep_view(),
            base_db.deep_view(),
        ),
        final(log).deep_view() == icons_log(
            old(dest_db).deep_view(),
            source_db.deep_view(),
            base_db.deep_view(),
            old(log).deep_view(),
        ),
        old(dest_db).wf() && source_db.wf() ==> final(dest_db).wf(),
{
    let ghost dest = dest_db.deep_view();
    let ghost source = source_db.deep_view();
    let ghost base = base_db.deep_view();
    let ids = dest_db.custom_icons.keys();
    let ghost listing = ids.deep_view();
    merge_offered_icons(dest_db, source_db, base_db, log);
    let ghost offered = dest_db.deep_view().custom_icons;
    merge_missing_icons(dest_db, source_db, base_db, log, &ids, Ghost(dest));
    let ghost between = dest_db.deep_view();
    let ghost missing = log.deep_view();
    assert(listing.take(0) =~= Seq::<CustomIconId>::empty());
    let mut i: usize = 0;
    while i < ids.len()
        invariant
            source == source_db.deep_view(),
            base == base_db.deep_view(),
            listing == ids.deep_view(),
            order::lists::<CustomIconId>(listing, dest.custom_icons.dom()),
            i <= ids@.len(),
            between.custom_icons == offered.remove_keys(
                Set::new(|k: CustomIconId| icon_deleted(dest, source, k)),
            ),
            forall|k: CustomIconId| #[trigger]
                offered.contains_key(k) <==> dest.custom_icons.contains_key(k) || icon_kept(
                    dest,
                    source,
                    k,
                ),
            forall|k: CustomIconId| #[trigger]
                offered.contains_key(k) ==> offered[k] == if dest.custom_icons.contains_key(k) {
                    dest.custom_icons[k]
                } else {
                    source.custom_icons[k]
                },
            dest_db.deep_view() == (DatabaseModel {
                custom_icons: dest_db.deep_view().custom_icons,
                ..between
            }),
            dest_db.deep_view().custom_icons.dom() == between.custom_icons.dom(),
            forall|k: CustomIconId| #[trigger]
                between.custom_icons.contains_key(k) ==> dest_db.deep_view().custom_icons[k]
                    == if listing.take(i as int).contains(k) {
                    icon_chosen(dest, source, base, k)
                } else {
                    between.custom_icons[k]
                },
            log.deep_view() == common_logs(dest, source, base, listing.take(i as int), missing),
        decreases ids@.len() - i,
    {
        let id = ids[i];
        proof {
            order::lemma_take_next(listing, i as int);
            order::lemma_increasing_no_duplicates::<CustomIconId>(listing);
            assert(listing[i as int] == id);
            assert(listing.contains(id));
            assert(dest.custom_icons.dom().contains(id));
            assert(dest.custom_icons.contains_key(id));
            assert(offered.contains_key(id));
            assert(listing.take(i + 1).drop_last() =~= listing.take(i as int));
            assert(listing.take(i + 1).last() == id);
            if listing.take(i as int).contains(id) {
                let j = choose|j: int| 0 <= j < i && listing.take(i as int)[j] == id;
                assert(listing[j] == id);
            }
        }
        if source_db.custom_icons.contains_key(&id) {
            proof {
                assert(between.custom_icons.contains_key(id));
                assert(dest_db.deep_view().custom_icons.dom().contains(id));
            }
            merge_common_icon(dest_db, source_db, base_db, log, id, Ghost(dest));
            assert(dest_db.deep_view().custom_icons.dom() =~= between.custom_icons.dom());
        }
        i += 1;
    }
    proof {
        assert(listing.take(listing.len() as int) =~= listing);
        let merged = icons_merged(dest, source, base);
        assert forall|k: CustomIconId| #[trigger] between.custom_icons.contains_key(k)
            <==> icon_kept(dest, source, k) by {
            assert(offered.contains_key(k) <==> dest.custom_icons.contains_key(k) || icon_kept(
                dest,
                source,
                k,
            ));
        }
        assert forall|k: CustomIconId| #[trigger] between.custom_icons.contains_key(k) implies
            dest_db.deep_view().custom_icons[k] == icon_chosen(dest, source, base, k) by {
            assert(offered.contains_key(k));
            if dest.custom_icons.contains_key(k) {
                assert(dest.custom_icons.dom().contains(k));
            } else if listing.contains(k) {
                assert(dest.custom_icons.dom().contains(k));
            }
        }
        assert(dest_db.deep_view().custom_icons =~= merged.custom_icons);
        assert(dest_db.deep_view() =~= merged);
    }
}

} // verus!
