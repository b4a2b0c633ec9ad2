//! What holds of the merging of custom icons.

use vstd::prelude::*;
use crate::database::DatabaseModel;
use crate::icon::CustomIconModel;
use crate::ids::CustomIconId;
use crate::merge::icons;
use crate::merge::log::LogModel;
use crate::merge::log::MergeEventTarget;
use crate::merge::log::MergeEventType;
use crate::merge::rules;
use crate::times::Timestamp;

verus! {

/// Whether both sides have an icon.
pub open spec fn common(dest: DatabaseModel, source: DatabaseModel, i: CustomIconId) -> bool {
    dest.custom_icons.contains_key(i) && source.custom_icons.contains_key(i)
}

/// Of an icon that both sides have, with modification times that differ, and that the source changed
/// since the common ancestor, or of which no ancestor's time is known, the newest version wins.
pub proof fn newest_icon_wins(
    dest: DatabaseModel,
    source: DatabaseModel,
    base: DatabaseModel,
    i: CustomIconId,
)
    requires
        common(dest, source, i),
        icons::dated(dest.custom_icons[i]) != icons::dated(source.custom_icons[i]),
        rules::changed_since(
            icons::base_time(base.custom_icons, i),
            icons::dated(source.custom_icons[i]),
        ),
    ensures
        ({
            let after = icons::icons_merged(dest, source, base).custom_icons;
            let ours = dest.custom_icons[i];
            let theirs = source.custom_icons[i];
            &&& after.contains_key(i)
            &&& icons::dated(ours).before(icons::dated(theirs)) ==> after[i] == theirs
            &&& !icons::dated(ours).before(icons::dated(theirs)) ==> after[i] == ours
        }),
{
}

/// Whether a side left an icon as the common ancestor had it, as far as a merge can tell: by the
/// times where those of the two sides differ, and by the content where they do not.
pub open spec fn unchanged(
    side: CustomIconModel,
    other: CustomIconModel,
    base: DatabaseModel,
    i: CustomIconId,
) -> bool {
    if icons::dated(side) == icons::dated(other) {
        icons::as_in_base(side, base.custom_icons, i)
    } else {
        !rules::changed_since(icons::base_time(base.custom_icons, i), icons::dated(side))
    }
}

/// Changed in the destination only, or not at all: the destination's icon is kept, and nothing is
/// logged of it if both sides have modification times.
pub proof fn our_icon_is_kept_silently(
    dest: DatabaseModel,
    source: DatabaseModel,
    base: DatabaseModel,
    i: CustomIconId,
    log: LogModel,
)
    requires
        common(dest, source, i),
        dest.custom_icons[i].last_modification_time is Some,
        source.custom_icons[i].last_modification_time is Some,
        unchanged(source.custom_icons[i], dest.custom_icons[i], base, i),
    ensures
        icons::icons_merged(dest, source, base).custom_icons[i] == dest.custom_icons[i],
        icons::common_log(dest, source, base, i, log) == log,
{
}

/// Changed in the source only: the source's icon is taken, and nothing is logged of it but the
/// update if both sides have modification times.
pub proof fn their_icon_is_taken_silently(
    dest: DatabaseModel,
    source: DatabaseModel,
    base: DatabaseModel,
    i: CustomIconId,
    log: LogModel,
)
    requires
        common(dest, source, i),
        dest.custom_icons[i].last_modification_time is Some,
        source.custom_icons[i].last_modification_time is Some,
        unchanged(dest.custom_icons[i], source.custom_icons[i], base, i),
        !unchanged(source.custom_icons[i], dest.custom_icons[i], base, i),
    ensures
        icons::icons_merged(dest, source, base).custom_icons[i] == source.custom_icons[i],
        icons::common_log(dest, source, base, i, log) == log.noted(
            MergeEventTarget::Icon(i),
            MergeEventType::Updated,
        ),
{
    broadcast use Timestamp::numbers_decide;

}

/// The same icon on both sides is left alone, and nothing is logged of it if it has a modification
/// time.
pub proof fn same_icon_is_left_alone(
    dest: DatabaseModel,
    source: DatabaseModel,
    base: DatabaseModel,
    i: CustomIconId,
    log: LogModel,
)
    requires
        common(dest, source, i),
        dest.custom_icons[i] == source.custom_icons[i],
        dest.custom_icons[i].last_modification_time is Some,
    ensures
        icons::icons_merged(dest, source, base).custom_icons[i] == dest.custom_icons[i],
        icons::common_log(dest, source, base, i, log) == log,
{
}

/// Changed differently on both sides since the common ancestor: the newest icon wins, the
/// destination's if both are of the same time, and the merge warns of it, once.
pub proof fn icon_conflict_is_warned_of(
    dest: DatabaseModel,
    source: DatabaseModel,
    base: DatabaseModel,
    i: CustomIconId,
    log: LogModel,
)
    requires
        common(dest, source, i),
        dest.custom_icons[i] != source.custom_icons[i],
        dest.custom_icons[i].last_modification_time is Some,
        source.custom_icons[i].last_modification_time is Some,
        icons::base_time(base.custom_icons, i) is Some,
        !unchanged(dest.custom_icons[i], source.custom_icons[i], base, i),
        !unchanged(source.custom_icons[i], dest.custom_icons[i], base, i),
    ensures
        ({
            let after = icons::icons_merged(dest, source, base).custom_icons[i];
            let ours = dest.custom_icons[i];
            let theirs = source.custom_icons[i];
            let logged = icons::common_log(dest, source, base, i, log);
            if icons::dated(ours).before(icons::dated(theirs)) {
                &&& after == theirs
                &&& logged == log.warned(icons::modified_in_both(i)).noted(
                    MergeEventTarget::Icon(i),
                    MergeEventType::Updated,
                )
            } else {
                &&& after == ours
                &&& logged == log.warned(
                    if icons::dated(ours) == icons::dated(theirs) {
                        icons::diverged(i)
                    } else {
                        icons::modified_in_both(i)
                    },
                )
            }
        }),
{
    broadcast use Timestamp::numbers_decide;

}

/// An icon that the destination deleted, at its last modification in the source or later, does not
/// come back.
pub proof fn deleted_icon_stays_deleted(
    dest: DatabaseModel,
    source: DatabaseModel,
    base: DatabaseModel,
    i: CustomIconId,
)
    requires
        !dest.custom_icons.contains_key(i),
        source.custom_icons.contains_key(i) ==> !icons::icon_revived(dest, source, i),
    ensures
        !icons::icons_merged(dest, source, base).custom_icons.contains_key(i),
{
}

/// A deletion that the source made is taken over with its time, unless the destination modified the
/// icon after that.
pub proof fn deletion_of_icon_is_taken_over(
    dest: DatabaseModel,
    source: DatabaseModel,
    base: DatabaseModel,
    i: CustomIconId,
)
    requires
        dest.custom_icons.contains_key(i),
        !source.custom_icons.contains_key(i),
    ensures
        ({
            let after = icons::icons_merged(dest, source, base);
            if icons::icon_buried(dest, source, i) {
                &&& !after.custom_icons.contains_key(i)
                &&& after.deleted_objects.contains_key(i.0)
                &&& after.deleted_objects[i.0] == source.deleted_objects[i.0]
            } else {
                &&& after.custom_icons.contains_key(i)
                &&& after.custom_icons[i] == dest.custom_icons[i]
            }
        }),
{
    assert(CustomIconId(i.0) == i);
}

/// Merging the icons of the same source again changes nothing.
pub proof fn merging_icons_again_changes_nothing(
    dest: DatabaseModel,
    source: DatabaseModel,
    base: DatabaseModel,
)
    ensures
        ({
            let once = icons::icons_merged(dest, source, base);
            icons::icons_merged(once, source, base) == once
        }),
{
    broadcast use Timestamp::numbers_decide;

    let once = icons::icons_merged(dest, source, base);
    let twice = icons::icons_merged(once, source, base);
    assert forall|i: CustomIconId| #[trigger] icons::icon_kept(once, source, i)
        == icons::icon_kept(dest, source, i) by {
        assert(once.custom_icons.contains_key(i) == icons::icon_kept(dest, source, i));
        if source.custom_icons.contains_key(i) && !dest.custom_icons.contains_key(i) {
            assert(!icons::icon_deleted(dest, source, i));
            assert(CustomIconId(i.0) == i);
            assert(once.deleted_objects.contains_key(i.0) == dest.deleted_objects.contains_key(
                i.0,
            ));
        }
    }
    assert forall|i: CustomIconId| #[trigger] icons::icon_kept(once, source, i) implies
        icons::icon_chosen(once, source, base, i) == icons::icon_chosen(dest, source, base, i) by {
        assert(once.custom_icons.contains_key(i));
        if source.custom_icons.contains_key(i) {
            let time = icons::dated(source.custom_icons[i]);
            assert(!time.before(time));
        }
    }
    assert(twice.custom_icons =~= once.custom_icons);
    assert(twice.deleted_objects =~= once.deleted_objects) by {
        assert forall|i: CustomIconId| !#[trigger] icons::icon_deleted(once, source, i) by {
            if once.custom_icons.contains_key(i) {
                assert(icons::icon_kept(dest, source, i));
            }
        }
    }
    assert(twice =~= once);
}

} // verus!
