//! What becomes of entries and groups, field by field.

use vstd::prelude::*;
use crate::attachment::Pool;
use crate::database;
use crate::database::DatabaseModel;
use crate::entry::EntryModel;
use crate::group::GroupModel;
use crate::ids::EntryId;
use crate::ids::GroupId;
use crate::laws::absorption;
use crate::laws::gathering;
use crate::laws::outcome;
use crate::laws::underway;
use crate::merge;
use crate::merge::entries;
use crate::merge::history;
use crate::references;
use crate::remap;
use crate::remap::Names;
use crate::times::Times;
use crate::times::Timestamp;

verus! {

/// Two groups have the same content exactly if they agree on their identifiers, names, notes,
/// icons, custom data, whether they are expanded, auto-type sequences, whether auto-type and
/// searching are on, and the entries that they show at the top.
pub proof fn groups_diverge_exactly_in_their_fields(a: GroupModel, b: GroupModel)
    ensures
        a.content() == b.content() <==> {
            &&& a.id == b.id
            &&& a.name == b.name
            &&& a.notes == b.notes
            &&& a.icon == b.icon
            &&& a.custom_data == b.custom_data
            &&& a.is_expanded == b.is_expanded
            &&& a.default_autotype_sequence == b.default_autotype_sequence
            &&& a.enable_autotype == b.enable_autotype
            &&& a.enable_searching == b.enable_searching
            &&& a.last_top_visible_entry == b.last_top_visible_entry
        },
        same_group(a, b) <==> {
            &&& a.id == b.id
            &&& a.name == b.name
            &&& a.notes == b.notes
            &&& a.icon == b.icon
            &&& a.custom_data == b.custom_data
            &&& a.is_expanded == b.is_expanded
            &&& a.default_autotype_sequence == b.default_autotype_sequence
            &&& a.enable_autotype == b.enable_autotype
            &&& a.enable_searching == b.enable_searching
            &&& a.last_top_visible_entry == b.last_top_visible_entry
        },
{
    let x = a.content();
    let y = b.content();
    if x == y {
        assert(x.id == a.id && y.id == b.id);
        assert(x.name == a.name && y.name == b.name);
        assert(x.notes == a.notes && y.notes == b.notes);
        assert(x.icon == a.icon && y.icon == b.icon);
        assert(x.custom_data == a.custom_data && y.custom_data == b.custom_data);
        assert(x.is_expanded == a.is_expanded && y.is_expanded == b.is_expanded);
        assert(x.default_autotype_sequence == a.default_autotype_sequence);
        assert(y.default_autotype_sequence == b.default_autotype_sequence);
        assert(x.enable_autotype == a.enable_autotype && y.enable_autotype == b.enable_autotype);
        assert(x.enable_searching == a.enable_searching);
        assert(y.enable_searching == b.enable_searching);
        assert(x.last_top_visible_entry == a.last_top_visible_entry);
        assert(y.last_top_visible_entry == b.last_top_visible_entry);
    }
    if same_group(a, b) {
        assert(x =~= y);
    }
}

/// Whether two groups agree on everything but timestamps, place and children.
pub open spec fn same_group(a: GroupModel, b: GroupModel) -> bool {
    &&& a.id == b.id
    &&& a.name == b.name
    &&& a.notes == b.notes
    &&& a.icon == b.icon
    &&& a.custom_data == b.custom_data
    &&& a.is_expanded == b.is_expanded
    &&& a.default_autotype_sequence == b.default_autotype_sequence
    &&& a.enable_autotype == b.enable_autotype
    &&& a.enable_searching == b.enable_searching
    &&& a.last_top_visible_entry == b.last_top_visible_entry
}

/// Whether names stand for the same data in two pools: the same names are there, and each stands
/// for the same data on both sides, or dangles on both.
pub open spec fn same_data(a: Names, a_pool: Pool, b: Names, b_pool: Pool) -> bool {
    forall|name: Seq<char>|
        {
            &&& #[trigger] a.contains_key(name) == b.contains_key(name)
            &&& a.contains_key(name) ==> a_pool.contains_key(a[name]) == b_pool.contains_key(
                b[name],
            )
            &&& a.contains_key(name) && a_pool.contains_key(a[name]) ==> a_pool[a[name]].data
                == b_pool[b[name]].data
        }
}

/// Two versions of entries are equivalent exactly if they agree on their identifiers, parents,
/// fields, auto-type settings, tags, custom data, icons, colors, overriding URLs, quality checks
/// and previous parents, and if the same names stand for the same data.
pub proof fn entries_are_equivalent_exactly_in_their_fields(
    a: EntryModel,
    a_pool: Pool,
    b: EntryModel,
    b_pool: Pool,
)
    ensures
        remap::equivalent(a, a_pool, b, b_pool) <==> {
            &&& a.id == b.id
            &&& a.parent == b.parent
            &&& a.fields == b.fields
            &&& a.autotype == b.autotype
            &&& a.tags == b.tags
            &&& a.custom_data == b.custom_data
            &&& a.icon == b.icon
            &&& a.foreground_color == b.foreground_color
            &&& a.background_color == b.background_color
            &&& a.override_url == b.override_url
            &&& a.quality_check == b.quality_check
            &&& a.previous_parent_group == b.previous_parent_group
            &&& same_data(a.attachments, a_pool, b.attachments, b_pool)
        },
        a.content() == b.content() <==> {
            &&& a.id == b.id
            &&& a.parent == b.parent
            &&& a.fields == b.fields
            &&& a.autotype == b.autotype
            &&& a.tags == b.tags
            &&& a.custom_data == b.custom_data
            &&& a.icon == b.icon
            &&& a.foreground_color == b.foreground_color
            &&& a.background_color == b.background_color
            &&& a.override_url == b.override_url
            &&& a.quality_check == b.quality_check
            &&& a.previous_parent_group == b.previous_parent_group
        },
{
    let x = a.content();
    let y = b.content();
    if x == y {
        assert(x.id == a.id && y.id == b.id);
        assert(x.parent == a.parent && y.parent == b.parent);
        assert(x.fields == a.fields && y.fields == b.fields);
        assert(x.autotype == a.autotype && y.autotype == b.autotype);
        assert(x.tags == a.tags && y.tags == b.tags);
        assert(x.custom_data == a.custom_data && y.custom_data == b.custom_data);
        assert(x.icon == a.icon && y.icon == b.icon);
        assert(x.foreground_color == a.foreground_color);
        assert(y.foreground_color == b.foreground_color);
        assert(x.background_color == a.background_color);
        assert(y.background_color == b.background_color);
        assert(x.override_url == a.override_url && y.override_url == b.override_url);
        assert(x.quality_check == a.quality_check && y.quality_check == b.quality_check);
        assert(x.previous_parent_group == a.previous_parent_group);
        assert(y.previous_parent_group == b.previous_parent_group);
    }
    if {
        &&& a.id == b.id
        &&& a.parent == b.parent
        &&& a.fields == b.fields
        &&& a.autotype == b.autotype
        &&& a.tags == b.tags
        &&& a.custom_data == b.custom_data
        &&& a.icon == b.icon
        &&& a.foreground_color == b.foreground_color
        &&& a.background_color == b.background_color
        &&& a.override_url == b.override_url
        &&& a.quality_check == b.quality_check
        &&& a.previous_parent_group == b.previous_parent_group
    } {
        assert(x =~= y);
    }
    lemma_same_data(a.attachments, a_pool, b.attachments, b_pool);
}

/// Names stand for the same data exactly if what they resolve to is the same.
pub proof fn lemma_same_data(a: Names, a_pool: Pool, b: Names, b_pool: Pool)
    ensures
        remap::resolved(a, a_pool) == remap::resolved(b, b_pool) <==> same_data(
            a,
            a_pool,
            b,
            b_pool,
        ),
{
    let x = remap::resolved(a, a_pool);
    let y = remap::resolved(b, b_pool);
    if x == y {
        assert forall|name: Seq<char>|
            {
                &&& #[trigger] a.contains_key(name) == b.contains_key(name)
                &&& a.contains_key(name) ==> a_pool.contains_key(a[name]) == b_pool.contains_key(
                    b[name],
                )
                &&& a.contains_key(name) && a_pool.contains_key(a[name]) ==> a_pool[a[name]].data
                    == b_pool[b[name]].data
            } by {
            assert(x.contains_key(name) == a.contains_key(name));
            assert(y.contains_key(name) == b.contains_key(name));
            if a.contains_key(name) {
                assert(x[name] == y[name]);
            }
        }
    }
    if same_data(a, a_pool, b, b_pool) {
        assert forall|name: Seq<char>| x.contains_key(name) == #[trigger] y.contains_key(name) by {
            assert(a.contains_key(name) == b.contains_key(name));
        }
        assert forall|name: Seq<char>| #[trigger] x.contains_key(name) implies x[name]
            == y[name] by {
            assert(a.contains_key(name) == b.contains_key(name));
        }
        assert(x =~= y);
    }
}

/// Entries with different tags are never equivalent, and neither are entries that differ in a
/// field.
pub proof fn different_entries_are_not_equivalent(
    a: EntryModel,
    a_pool: Pool,
    b: EntryModel,
    b_pool: Pool,
    key: Seq<char>,
)
    ensures
        a.tags != b.tags ==> !remap::equivalent(a, a_pool, b, b_pool),
        a.fields.contains_key(key) != b.fields.contains_key(key) ==> !remap::equivalent(
            a,
            a_pool,
            b,
            b_pool,
        ),
        a.fields.contains_key(key) && b.fields.contains_key(key) && a.fields[key] != b.fields[key]
            ==> !remap::equivalent(a, a_pool, b, b_pool),
{
    entries_are_equivalent_exactly_in_their_fields(a, a_pool, b, b_pool);
}

/// Of the two sides of a group the newest wins, in each of its fields, where their modification
/// times differ and the group can be put where it is to go. Of the timestamps only those of the
/// last modification and the last move change. What the common ancestor had already is no change.
pub proof fn merge_gives_groups_the_newest_fields(
    dest: DatabaseModel,
    source: DatabaseModel,
    base: DatabaseModel,
    now: Timestamp,
    g: GroupId,
)
    requires
        outcome::two_versions(dest, source),
        merge::merged(dest, source, base, now).error is None,
        merge::merged(dest, source, base, now).db.groups.contains_key(g),
        dest.groups.contains_key(g),
        source.groups.contains_key(g),
        dest.groups[g].times.last_modification is Some,
        source.groups[g].times.last_modification is Some,
        dest.groups[g].times.last_modification != source.groups[g].times.last_modification,
        dest.groups[g].parent == source.groups[g].parent || {
            &&& source.groups[g].parent is Some
            &&& merge::merged(dest, source, base, now).db.groups.contains_key(
                source.groups[g].parent->0,
            )
        },
    ensures
        ({
            let ours = dest.groups[g];
            let theirs = source.groups[g];
            let after = merge::merged(dest, source, base, now).db.groups[g];
            let our_time = ours.times.last_modification->0;
            let their_time = theirs.times.last_modification->0;
            let unchanged = base.groups.contains_key(g) && base.groups[g].times.last_modification
                is Some && !base.groups[g].times.last_modification->0.before(their_time);
            let their_move_is_later = ours.parent != theirs.parent && ours.times.location_changed
                is Some && theirs.times.location_changed is Some
                && ours.times.location_changed->0.before(theirs.times.location_changed->0);
            &&& after.id == g
            &&& if our_time.before(their_time) && !unchanged {
                &&& after.name == theirs.name
                &&& after.notes == theirs.notes
                &&& after.icon == theirs.icon
                &&& after.custom_data == theirs.custom_data
                &&& after.is_expanded == theirs.is_expanded
                &&& after.default_autotype_sequence == theirs.default_autotype_sequence
                &&& after.enable_autotype == theirs.enable_autotype
                &&& after.enable_searching == theirs.enable_searching
                &&& after.last_top_visible_entry == theirs.last_top_visible_entry
                &&& after.times.last_modification == theirs.times.last_modification
            } else {
                &&& after.name == ours.name
                &&& after.notes == ours.notes
                &&& after.icon == ours.icon
                &&& after.custom_data == ours.custom_data
                &&& after.is_expanded == ours.is_expanded
                &&& after.default_autotype_sequence == ours.default_autotype_sequence
                &&& after.enable_autotype == ours.enable_autotype
                &&& after.enable_searching == ours.enable_searching
                &&& after.last_top_visible_entry is None || after.last_top_visible_entry
                    == ours.last_top_visible_entry
                &&& after.times.last_modification == ours.times.last_modification
            }
            &&& after.times.creation == ours.times.creation
            &&& after.times.last_access == ours.times.last_access
            &&& after.times.expiry == ours.times.expiry
            &&& after.times.expires == ours.times.expires
            &&& after.times.usage_count == ours.times.usage_count
            &&& if their_move_is_later {
                &&& after.parent == theirs.parent
                &&& after.times.location_changed == theirs.times.location_changed
            } else {
                &&& after.parent == ours.parent
                &&& after.times.location_changed == ours.times.location_changed
            }
        }),
{
    broadcast use Timestamp::numbers_decide;

    outcome::merge_settles_each_group(dest, source, base, now, g);
    let left = underway::left(dest, source, base, now).db.groups;
    let after = merge::merged(dest, source, base, now).db.groups;
    let ours = dest.groups[g];
    let theirs = source.groups[g];
    assert(database::group_placed(dest.groups, dest.root, g));
    assert(database::group_placed(source.groups, source.root, g));
    if source.groups[g].parent is Some {
        let parent = source.groups[g].parent->0;
        assert(after.contains_key(parent) == after.dom().contains(parent));
    }
    let goal = gathering::group_outcome(left[g], theirs, left.dom(), base, now, g);
    groups_diverge_exactly_in_their_fields(after[g], goal);
    let faded = GroupModel { last_top_visible_entry: left[g].last_top_visible_entry, ..ours };
    assert(faded.content() =~= (GroupModel {
        last_top_visible_entry: left[g].last_top_visible_entry,
        ..ours.content()
    }));
    groups_diverge_exactly_in_their_fields(left[g], faded);
}

/// Of the two sides of an entry the newest wins, in each of its fields and with its data, where
/// their modification times differ. What the common ancestor had already is no change.
pub proof fn merge_gives_entries_the_newest_fields(
    dest: DatabaseModel,
    source: DatabaseModel,
    base: DatabaseModel,
    now: Timestamp,
    e: EntryId,
)
    requires
        outcome::two_versions(dest, source),
        merge::merged(dest, source, base, now).error is None,
        merge::merged(dest, source, base, now).db.entries.contains_key(e),
        dest.entries.contains_key(e),
        source.entries.contains_key(e),
        dest.entries[e].times.last_modification is Some,
        source.entries[e].times.last_modification is Some,
        dest.entries[e].times.last_modification != source.entries[e].times.last_modification,
    ensures
        ({
            let ours = dest.entries[e];
            let theirs = source.entries[e];
            let after = merge::merged(dest, source, base, now).db.entries[e];
            let pool = merge::merged(dest, source, base, now).db.attachments;
            let our_time = ours.times.last_modification->0;
            let their_time = theirs.times.last_modification->0;
            let unchanged = base.entries.contains_key(e) && base.entries[e].times.last_modification
                is Some && !base.entries[e].times.last_modification->0.before(their_time);
            if our_time.before(their_time) && !unchanged {
                &&& after.fields == theirs.fields
                &&& after.autotype == theirs.autotype
                &&& after.tags == theirs.tags
                &&& after.custom_data == theirs.custom_data
                &&& after.icon == theirs.icon
                &&& after.foreground_color == theirs.foreground_color
                &&& after.background_color == theirs.background_color
                &&& after.override_url == theirs.override_url
                &&& after.quality_check == theirs.quality_check
                &&& after.times.last_modification == theirs.times.last_modification
                &&& same_data(after.attachments, pool, theirs.attachments, source.attachments)
            } else {
                &&& after.fields == ours.fields
                &&& after.autotype == ours.autotype
                &&& after.tags == ours.tags
                &&& after.custom_data == ours.custom_data
                &&& after.icon == ours.icon
                &&& after.foreground_color == ours.foreground_color
                &&& after.background_color == ours.background_color
                &&& after.override_url == ours.override_url
                &&& after.quality_check == ours.quality_check
                &&& after.times.last_modification == ours.times.last_modification
                &&& same_data(after.attachments, pool, ours.attachments, dest.attachments)
            }
        }),
{
    outcome::merge_takes_the_newest_entry(dest, source, base, now, e);
    let after = merge::merged(dest, source, base, now).db;
    lemma_same_data(
        after.entries[e].attachments,
        after.attachments,
        source.entries[e].attachments,
        source.attachments,
    );
    lemma_same_data(
        after.entries[e].attachments,
        after.attachments,
        dest.entries[e].attachments,
        dest.attachments,
    );
}

/// Whichever side's content wins, an entry that both sides have keeps its identifier and, of the
/// destination's timestamps, when it was created, last accessed, whether and when it expires, and
/// how often it was used.
pub proof fn merge_keeps_the_other_times_of_entries(
    dest: DatabaseModel,
    source: DatabaseModel,
    base: DatabaseModel,
    now: Timestamp,
    e: EntryId,
)
    requires
        outcome::two_versions(dest, source),
        merge::merged(dest, source, base, now).error is None,
        merge::merged(dest, source, base, now).db.entries.contains_key(e),
        dest.entries.contains_key(e),
        source.entries.contains_key(e),
    ensures
        ({
            let ours = dest.entries[e];
            let theirs = source.entries[e];
            let after = merge::merged(dest, source, base, now).db.entries[e];
            &&& after.id == e
            &&& after.times.creation == ours.times.creation
            &&& after.times.last_access == ours.times.last_access
            &&& after.times.expiry == ours.times.expiry
            &&& after.times.expires == ours.times.expires
            &&& after.times.usage_count == ours.times.usage_count
            &&& after.times.last_modification == ours.times.last_modification
                || after.times.last_modification == theirs.times.last_modification
            &&& after.times.location_changed == ours.times.location_changed
                || after.times.location_changed == theirs.times.location_changed
        }),
{
    outcome::merge_settles_each_entry(dest, source, base, now, e);
    assert(database::entry_placed(dest.entries, dest.groups, e));
}

/// Of two moves of an entry the later one wins, if the group that it leads to is there while the
/// entries are merged; the entry then remembers where it stood. An entry that the source did not
/// move later stays where it is.
pub proof fn merge_puts_entries_where_the_later_move_did(
    dest: DatabaseModel,
    source: DatabaseModel,
    base: DatabaseModel,
    now: Timestamp,
    e: EntryId,
)
    requires
        outcome::two_versions(dest, source),
        merge::merged(dest, source, base, now).error is None,
        merge::merged(dest, source, base, now).db.entries.contains_key(e),
        dest.entries.contains_key(e),
        source.entries.contains_key(e),
    ensures
        ({
            let ours = dest.entries[e];
            let theirs = source.entries[e];
            let after = merge::merged(dest, source, base, now).db;
            let entry = after.entries[e];
            let their_move_is_later = ours.parent != theirs.parent && ours.times.location_changed
                is Some && theirs.times.location_changed is Some
                && ours.times.location_changed->0.before(theirs.times.location_changed->0);
            &&& their_move_is_later && after.groups.contains_key(theirs.parent) ==> {
                &&& entry.parent == theirs.parent
                &&& entry.previous_parent_group == Some(ours.parent)
                &&& entry.times.location_changed == theirs.times.location_changed
            }
            &&& !their_move_is_later ==> {
                &&& entry.parent == ours.parent
                &&& entry.previous_parent_group == ours.previous_parent_group
            }
            &&& entry.parent == ours.parent || entry.parent == theirs.parent
        }),
{
    outcome::merge_settles_each_entry(dest, source, base, now, e);
    outcome::lemma_groups_at_hand(dest, source, base, now);
    let after = merge::merged(dest, source, base, now).db;
    if after.groups.contains_key(source.entries[e].parent) {
        assert(after.groups.dom().contains(source.entries[e].parent));
    }
}

/// Where the histories of an entry are merged, because the source changed it since the common
/// ancestor at another time, no version is lost: each version of the destination's history is
/// there as it was, dated to the start of the epoch if it had no time, and for each version of the
/// source's history there is one of the same time with the same content and data.
pub proof fn merge_keeps_both_histories(
    dest: DatabaseModel,
    source: DatabaseModel,
    base: DatabaseModel,
    now: Timestamp,
    e: EntryId,
    i: int,
    k: int,
)
    requires
        outcome::two_versions(dest, source),
        merge::merged(dest, source, base, now).error is None,
        merge::merged(dest, source, base, now).db.entries.contains_key(e),
        dest.entries.contains_key(e),
        source.entries.contains_key(e),
        dest.entries[e].times.last_modification is Some,
        source.entries[e].times.last_modification is Some,
        dest.entries[e].times.last_modification != source.entries[e].times.last_modification,
        !(base.entries.contains_key(e) && base.entries[e].times.last_modification is Some
            && !base.entries[e].times.last_modification->0.before(
            source.entries[e].times.last_modification->0,
        )),
    ensures
        ({
            let after = merge::merged(dest, source, base, now).db;
            let versions = after.entries[e].history->0;
            &&& after.entries[e].history is Some
            &&& dest.entries[e].history is Some && 0 <= i < dest.entries[e].history->0.len()
                ==> exists|n: int|
                {
                    let version = dest.entries[e].history->0[i];
                    &&& 0 <= n < versions.len()
                    &&& (#[trigger] versions[n]).id == version.id
                    &&& versions[n].parent == version.parent
                    &&& versions[n].fields == version.fields
                    &&& versions[n].autotype == version.autotype
                    &&& versions[n].tags == version.tags
                    &&& versions[n].custom_data == version.custom_data
                    &&& versions[n].icon == version.icon
                    &&& versions[n].foreground_color == version.foreground_color
                    &&& versions[n].background_color == version.background_color
                    &&& versions[n].override_url == version.override_url
                    &&& versions[n].quality_check == version.quality_check
                    &&& versions[n].previous_parent_group == version.previous_parent_group
                    &&& versions[n].attachments == version.attachments
                    &&& versions[n].history == version.history
                    &&& versions[n].times.creation == version.times.creation
                    &&& versions[n].times.last_access == version.times.last_access
                    &&& versions[n].times.expiry == version.times.expiry
                    &&& versions[n].times.expires == version.times.expires
                    &&& versions[n].times.usage_count == version.times.usage_count
                    &&& versions[n].times.location_changed == version.times.location_changed
                    &&& versions[n].times.last_modification == Some(
                        match version.times.last_modification {
                            Some(time) => time,
                            None => Times::spec_epoch(),
                        },
                    )
                }
            &&& source.entries[e].history is Some && 0 <= k < source.entries[e].history->0.len()
                ==> exists|n: int|
                {
                    let version = source.entries[e].history->0[k];
                    &&& 0 <= n < versions.len()
                    &&& (#[trigger] versions[n]).id == version.id
                    &&& versions[n].parent == version.parent
                    &&& versions[n].fields == version.fields
                    &&& versions[n].autotype == version.autotype
                    &&& versions[n].tags == version.tags
                    &&& versions[n].custom_data == version.custom_data
                    &&& versions[n].icon == version.icon
                    &&& versions[n].foreground_color == version.foreground_color
                    &&& versions[n].background_color == version.background_color
                    &&& versions[n].override_url == version.override_url
                    &&& versions[n].quality_check == version.quality_check
                    &&& versions[n].previous_parent_group == version.previous_parent_group
                    &&& {
                        ||| versions[n].times.last_modification == version.times.last_modification
                        ||| {
                            let epoch = Times::spec_epoch();
                            &&& versions[n].times.last_modification is Some
                                ==> versions[n].times.last_modification == Some(epoch)
                            &&& version.times.last_modification is Some
                                ==> version.times.last_modification == Some(epoch)
                        }
                    }
                    &&& same_data(
                        versions[n].attachments,
                        after.attachments,
                        version.attachments,
                        source.attachments,
                    )
                }
        }),
{
    outcome::merge_takes_the_newest_entry(dest, source, base, now, e);
    outcome::merge_settles_each_entry(dest, source, base, now, e);
    let after = merge::merged(dest, source, base, now).db;
    let versions = after.entries[e].history->0;
    if dest.entries[e].history is Some && 0 <= i < dest.entries[e].history->0.len() {
        let our_versions = entries::versions_or_none(dest.entries[e].history);
        let version = history::dated(our_versions[i]);
        assert(versions.contains(version));
        let n = choose|n: int| 0 <= n < versions.len() && versions[n] == version;
        assert(versions[n].id == version.id);
    }
    if source.entries[e].history is Some && 0 <= k < source.entries[e].history->0.len() {
        let their_versions = entries::versions_or_none(source.entries[e].history);
        let version = their_versions[k];
        assert(crate::laws::absorption::has_counterpart(
            versions,
            after.attachments,
            version,
            source.attachments,
        ));
        let n = choose|n: int|
            0 <= n < versions.len() && history::time_of(#[trigger] versions[n])
                == history::time_of(version) && remap::equivalent(
                versions[n],
                after.attachments,
                version,
                source.attachments,
            );
        entries_are_equivalent_exactly_in_their_fields(
            versions[n],
            after.attachments,
            version,
            source.attachments,
        );
        assert(versions[n].id == version.id);
    }
}

/// Names none of which dangles, carried over, stand for the same data.
proof fn lemma_carried_data(before: Names, source: Pool, after: Names, pool: Pool)
    requires
        remap::faithful(before, source, after, pool),
        references::resolves(before, source),
    ensures
        same_data(after, pool, before, source),
{
    absorption::lemma_faithful_resolved(before, source, after, pool);
    lemma_same_data(after, pool, before, source);
}

/// An entry that a merge adds is that of the source, field by field, with all its timestamps and
/// all versions of its history, and the same names stand for the same data.
pub proof fn merge_gives_new_entries_their_fields(
    dest: DatabaseModel,
    source: DatabaseModel,
    base: DatabaseModel,
    now: Timestamp,
    e: EntryId,
    i: int,
)
    requires
        outcome::two_versions(dest, source),
        merge::merged(dest, source, base, now).error is None,
        merge::merged(dest, source, base, now).db.entries.contains_key(e),
        !dest.entries.contains_key(e),
    ensures
        source.entries.contains_key(e),
        ({
            let pool = merge::merged(dest, source, base, now).db.attachments;
            let after = merge::merged(dest, source, base, now).db.entries[e];
            let theirs = source.entries[e];
            &&& after.id == theirs.id
            &&& after.parent == theirs.parent
            &&& after.fields == theirs.fields
            &&& after.autotype == theirs.autotype
            &&& after.tags == theirs.tags
            &&& after.times == theirs.times
            &&& after.custom_data == theirs.custom_data
            &&& after.icon == theirs.icon
            &&& after.foreground_color == theirs.foreground_color
            &&& after.background_color == theirs.background_color
            &&& after.override_url == theirs.override_url
            &&& after.quality_check == theirs.quality_check
            &&& after.previous_parent_group == theirs.previous_parent_group
            &&& same_data(after.attachments, pool, theirs.attachments, source.attachments)
            &&& after.history is Some == theirs.history is Some
            &&& theirs.history is Some ==> {
                &&& after.history->0.len() == theirs.history->0.len()
                &&& 0 <= i < theirs.history->0.len() ==> {
                    let version = after.history->0[i];
                    let their_version = theirs.history->0[i];
                    &&& version.id == their_version.id
                    &&& version.parent == their_version.parent
                    &&& version.fields == their_version.fields
                    &&& version.autotype == their_version.autotype
                    &&& version.tags == their_version.tags
                    &&& version.times == their_version.times
                    &&& version.custom_data == their_version.custom_data
                    &&& version.icon == their_version.icon
                    &&& version.foreground_color == their_version.foreground_color
                    &&& version.background_color == their_version.background_color
                    &&& version.override_url == their_version.override_url
                    &&& version.quality_check == their_version.quality_check
                    &&& version.previous_parent_group == their_version.previous_parent_group
                    &&& version.history == their_version.history
                    &&& same_data(
                        version.attachments,
                        pool,
                        their_version.attachments,
                        source.attachments,
                    )
                }
            }
        }),
{
    outcome::merge_copies_new_entries(dest, source, base, now, e);
    let pool = merge::merged(dest, source, base, now).db.attachments;
    let after = merge::merged(dest, source, base, now).db.entries[e];
    let theirs = source.entries[e];
    let live: Option<int> = None;
    assert(theirs.has_version(live) && theirs.version(live) == theirs);
    lemma_carried_data(theirs.attachments, source.attachments, after.attachments, pool);
    if theirs.history is Some && 0 <= i < theirs.history->0.len() {
        let index: Option<int> = Some(i);
        assert(theirs.has_version(index) && theirs.version(index) == theirs.history->0[i]);
        assert(remap::faithful(
            theirs.history->0[i].attachments,
            source.attachments,
            after.history->0[i].attachments,
            pool,
        ));
        lemma_carried_data(
            theirs.history->0[i].attachments,
            source.attachments,
            after.history->0[i].attachments,
            pool,
        );
    }
}

/// A group that a merge adds is that of the source, field by field, in the same place and with the
/// same timestamps; of the entry that it shows at the top it may show none.
pub proof fn merge_gives_new_groups_their_fields(
    dest: DatabaseModel,
    source: DatabaseModel,
    base: DatabaseModel,
    now: Timestamp,
    g: GroupId,
)
    requires
        outcome::two_versions(dest, source),
        merge::merged(dest, source, base, now).error is None,
        merge::merged(dest, source, base, now).db.groups.contains_key(g),
        !dest.groups.contains_key(g),
    ensures
        source.groups.contains_key(g),
        ({
            let after = merge::merged(dest, source, base, now).db.groups[g];
            let theirs = source.groups[g];
            &&& after.id == g
            &&& after.name == theirs.name
            &&& after.notes == theirs.notes
            &&& after.icon == theirs.icon
            &&& after.custom_data == theirs.custom_data
            &&& after.is_expanded == theirs.is_expanded
            &&& after.default_autotype_sequence == theirs.default_autotype_sequence
            &&& after.enable_autotype == theirs.enable_autotype
            &&& after.enable_searching == theirs.enable_searching
            &&& after.times == theirs.times
            &&& after.parent == theirs.parent
            &&& after.last_top_visible_entry is None || after.last_top_visible_entry
                == theirs.last_top_visible_entry
        }),
{
    outcome::merge_settles_each_group(dest, source, base, now, g);
    let left = underway::left(dest, source, base, now).db.groups;
    let after = merge::merged(dest, source, base, now).db.groups;
    let theirs = source.groups[g];
    assert(database::group_placed(source.groups, source.root, g));
    let goal = gathering::group_outcome(left[g], theirs, left.dom(), base, now, g);
    groups_diverge_exactly_in_their_fields(after[g], goal);
    lemma_faded(left[g], theirs);
}

/// Groups that are alike agree on all fields but perhaps the entry that is shown at the top.
proof fn lemma_faded(a: GroupModel, b: GroupModel)
    requires
        gathering::alike(a, b),
    ensures
        a.id == b.id,
        a.name == b.name,
        a.notes == b.notes,
        a.icon == b.icon,
        a.custom_data == b.custom_data,
        a.is_expanded == b.is_expanded,
        a.default_autotype_sequence == b.default_autotype_sequence,
        a.enable_autotype == b.enable_autotype,
        a.enable_searching == b.enable_searching,
{
    let faded = GroupModel { last_top_visible_entry: a.last_top_visible_entry, ..b };
    assert(faded.content() =~= (GroupModel {
        last_top_visible_entry: a.last_top_visible_entry,
        ..b.content()
    }));
    groups_diverge_exactly_in_their_fields(a, faded);
}

/// A group that only the destination has and that a merge leaves keeps each field, its place and
/// its timestamps; of the entry that it shows at the top it may show none any more.
pub proof fn merge_keeps_the_fields_of_other_groups(
    dest: DatabaseModel,
    source: DatabaseModel,
    base: DatabaseModel,
    now: Timestamp,
    g: GroupId,
)
    requires
        outcome::two_versions(dest, source),
        merge::merged(dest, source, base, now).error is None,
        merge::merged(dest, source, base, now).db.groups.contains_key(g),
        !source.groups.contains_key(g),
    ensures
        dest.groups.contains_key(g),
        ({
            let after = merge::merged(dest, source, base, now).db.groups[g];
            let ours = dest.groups[g];
            &&& after.id == g
            &&& after.name == ours.name
            &&& after.notes == ours.notes
            &&& after.icon == ours.icon
            &&& after.custom_data == ours.custom_data
            &&& after.is_expanded == ours.is_expanded
            &&& after.default_autotype_sequence == ours.default_autotype_sequence
            &&& after.enable_autotype == ours.enable_autotype
            &&& after.enable_searching == ours.enable_searching
            &&& after.times == ours.times
            &&& after.parent == ours.parent
            &&& after.last_top_visible_entry is None || after.last_top_visible_entry
                == ours.last_top_visible_entry
        }),
{
    outcome::merge_leaves_other_groups_alone(dest, source, base, now, g);
    assert(database::group_placed(dest.groups, dest.root, g));
    lemma_faded(merge::merged(dest, source, base, now).db.groups[g], dest.groups[g]);
}

/// Whichever side's content wins, a group that both sides have keeps, of the destination's
/// timestamps, when it was created, last accessed, whether and when it expires, and how often it
/// was used; its modification time and the time of its last move are those of one side.
pub proof fn merge_keeps_the_other_times_of_groups(
    dest: DatabaseModel,
    source: DatabaseModel,
    base: DatabaseModel,
    now: Timestamp,
    g: GroupId,
)
    requires
        outcome::two_versions(dest, source),
        merge::merged(dest, source, base, now).error is None,
        merge::merged(dest, source, base, now).db.groups.contains_key(g),
        dest.groups.contains_key(g),
        source.groups.contains_key(g),
    ensures
        ({
            let ours = dest.groups[g];
            let theirs = source.groups[g];
            let after = merge::merged(dest, source, base, now).db.groups[g];
            &&& after.id == g
            &&& after.times.creation == ours.times.creation
            &&& after.times.last_access == ours.times.last_access
            &&& after.times.expiry == ours.times.expiry
            &&& after.times.expires == ours.times.expires
            &&& after.times.usage_count == ours.times.usage_count
            &&& after.times.last_modification == ours.times.last_modification
                || after.times.last_modification == theirs.times.last_modification
            &&& after.times.location_changed == ours.times.location_changed
                || after.times.location_changed == theirs.times.location_changed
            &&& after.parent == ours.parent || after.parent == theirs.parent
        }),
{
    outcome::merge_settles_each_group(dest, source, base, now, g);
    let left = underway::left(dest, source, base, now).db.groups;
    let after = merge::merged(dest, source, base, now).db.groups;
    assert(database::group_placed(dest.groups, dest.root, g));
    assert(database::group_placed(source.groups, source.root, g));
    let goal = gathering::group_outcome(left[g], source.groups[g], left.dom(), base, now, g);
    groups_diverge_exactly_in_their_fields(after[g], goal);
    lemma_faded(left[g], dest.groups[g]);
}

/// Whether two entries agree, field by field, on everything that makes up their content but for
/// their places, and the same names stand for the same data.
pub open spec fn same_everywhere(
    a: EntryModel,
    a_pool: Pool,
    b: EntryModel,
    b_pool: Pool,
) -> bool {
    &&& a.fields == b.fields
    &&& a.autotype == b.autotype
    &&& a.tags == b.tags
    &&& a.custom_data == b.custom_data
    &&& a.icon == b.icon
    &&& a.foreground_color == b.foreground_color
    &&& a.background_color == b.background_color
    &&& a.override_url == b.override_url
    &&& a.quality_check == b.quality_check
    &&& same_data(a.attachments, a_pool, b.attachments, b_pool)
}

/// Of an entry that both sides modified at the same time and that stands in the same place on both
/// sides and in the common ancestor: without an ancestor the two must agree, or the merge fails;
/// with it, the source's fields and data are taken if the source alone differs from the ancestor,
/// and the destination's are kept otherwise.
pub proof fn merge_breaks_ties_of_entries(
    dest: DatabaseModel,
    source: DatabaseModel,
    base: DatabaseModel,
    now: Timestamp,
    e: EntryId,
)
    requires
        outcome::two_versions(dest, source),
        merge::merged(dest, source, base, now).error is None,
        dest.entries.contains_key(e),
        source.entries.contains_key(e),
        dest.entries[e].times.last_modification is Some,
        dest.entries[e].times.last_modification == source.entries[e].times.last_modification,
        dest.entries[e].parent == source.entries[e].parent,
        dest.entries[e].previous_parent_group == source.entries[e].previous_parent_group,
    ensures
        ({
            let ours = dest.entries[e];
            let theirs = source.entries[e];
            let origin = base.entries[e];
            let same = same_everywhere(ours, dest.attachments, theirs, source.attachments);
            let we_differ = !same_everywhere(ours, dest.attachments, origin, base.attachments);
            let they_differ = !same_everywhere(
                theirs,
                source.attachments,
                origin,
                base.attachments,
            );
            let after = merge::merged(dest, source, base, now).db;
            &&& !base.entries.contains_key(e) ==> same
            &&& after.entries.contains_key(e) ==> {
                let entry = after.entries[e];
                &&& same || !base.entries.contains_key(e) ==> entry == ours
                &&& !same && base.entries.contains_key(e) && origin.id == e && origin.parent
                    == ours.parent && origin.previous_parent_group == ours.previous_parent_group
                    ==> if they_differ && !we_differ {
                    &&& entry.fields == theirs.fields
                    &&& entry.autotype == theirs.autotype
                    &&& entry.tags == theirs.tags
                    &&& entry.custom_data == theirs.custom_data
                    &&& entry.icon == theirs.icon
                    &&& entry.foreground_color == theirs.foreground_color
                    &&& entry.background_color == theirs.background_color
                    &&& entry.override_url == theirs.override_url
                    &&& entry.quality_check == theirs.quality_check
                    &&& same_data(
                        entry.attachments,
                        after.attachments,
                        theirs.attachments,
                        source.attachments,
                    )
                } else {
                    &&& entry.fields == ours.fields
                    &&& entry.autotype == ours.autotype
                    &&& entry.tags == ours.tags
                    &&& entry.custom_data == ours.custom_data
                    &&& entry.icon == ours.icon
                    &&& entry.foreground_color == ours.foreground_color
                    &&& entry.background_color == ours.background_color
                    &&& entry.override_url == ours.override_url
                    &&& entry.quality_check == ours.quality_check
                    &&& same_data(
                        entry.attachments,
                        after.attachments,
                        ours.attachments,
                        dest.attachments,
                    )
                }
            }
        }),
{
    outcome::lemma_left(dest, source, base, now);
    outcome::lemma_assembled(dest, source, base, now);
    let before = underway::assembled(dest, source, base, now).db;
    assert(before.entries.contains_key(e));
    assert(database::entry_placed(dest.entries, dest.groups, e));
    assert(database::entry_placed(source.entries, source.groups, e));
    entries_are_equivalent_exactly_in_their_fields(
        dest.entries[e],
        dest.attachments,
        source.entries[e],
        source.attachments,
    );
    entries_are_equivalent_exactly_in_their_fields(
        dest.entries[e],
        dest.attachments,
        base.entries[e],
        base.attachments,
    );
    entries_are_equivalent_exactly_in_their_fields(
        source.entries[e],
        source.attachments,
        base.entries[e],
        base.attachments,
    );
    if merge::merged(dest, source, base, now).db.entries.contains_key(e) {
        outcome::merge_settles_each_entry(dest, source, base, now, e);
        let after = merge::merged(dest, source, base, now).db;
        lemma_same_data(
            after.entries[e].attachments,
            after.attachments,
            source.entries[e].attachments,
            source.attachments,
        );
        lemma_same_data(
            after.entries[e].attachments,
            after.attachments,
            dest.entries[e].attachments,
            dest.attachments,
        );
    }
}

/// Of a group that both sides modified at the same time and that stands in the same place and shows
/// the same entry, or none, at the top: without a common ancestor the two must agree, or the merge
/// fails; with it, the source's fields are taken if the source alone differs from the ancestor, and
/// the destination's are kept otherwise.
pub proof fn merge_breaks_ties_of_groups(
    dest: DatabaseModel,
    source: DatabaseModel,
    base: DatabaseModel,
    now: Timestamp,
    g: GroupId,
)
    requires
        outcome::two_versions(dest, source),
        merge::merged(dest, source, base, now).error is None,
        merge::merged(dest, source, base, now).db.groups.contains_key(g),
        dest.groups.contains_key(g),
        source.groups.contains_key(g),
        dest.groups[g].times.last_modification is Some,
        dest.groups[g].times.last_modification == source.groups[g].times.last_modification,
        dest.groups[g].parent == source.groups[g].parent,
        dest.groups[g].last_top_visible_entry is None,
    ensures
        ({
            let ours = dest.groups[g];
            let theirs = source.groups[g];
            let origin = base.groups[g];
            let group = merge::merged(dest, source, base, now).db.groups[g];
            let taken = !same_group(ours, theirs) && same_group(ours, origin);
            &&& !base.groups.contains_key(g) ==> same_group(ours, theirs)
            &&& taken && base.groups.contains_key(g) ==> {
                &&& group.name == theirs.name
                &&& group.notes == theirs.notes
                &&& group.icon == theirs.icon
                &&& group.custom_data == theirs.custom_data
                &&& group.is_expanded == theirs.is_expanded
                &&& group.default_autotype_sequence == theirs.default_autotype_sequence
                &&& group.enable_autotype == theirs.enable_autotype
                &&& group.enable_searching == theirs.enable_searching
                &&& group.last_top_visible_entry == theirs.last_top_visible_entry
            }
            &&& !(taken && base.groups.contains_key(g)) ==> {
                &&& group.name == ours.name
                &&& group.notes == ours.notes
                &&& group.icon == ours.icon
                &&& group.custom_data == ours.custom_data
                &&& group.is_expanded == ours.is_expanded
                &&& group.default_autotype_sequence == ours.default_autotype_sequence
                &&& group.enable_autotype == ours.enable_autotype
                &&& group.enable_searching == ours.enable_searching
                &&& group.last_top_visible_entry == ours.last_top_visible_entry
            }
        }),
{
    outcome::lemma_left(dest, source, base, now);
    outcome::merge_settles_each_group(dest, source, base, now, g);
    let left = underway::left(dest, source, base, now);
    let after = merge::merged(dest, source, base, now).db.groups;
    gathering::lemma_groups_settled(left, source, base, now);
    assert(database::group_placed(dest.groups, dest.root, g));
    assert(database::group_placed(source.groups, source.root, g));
    let ours = left.db.groups[g];
    let theirs = source.groups[g];
    assert(after.dom().contains(g));
    assert(left.db.groups.dom().contains(g));
    let goal = gathering::group_outcome(ours, theirs, left.db.groups.dom(), base, now, g);
    groups_diverge_exactly_in_their_fields(after[g], goal);
    lemma_faded(ours, dest.groups[g]);
    groups_diverge_exactly_in_their_fields(ours, theirs);
    groups_diverge_exactly_in_their_fields(ours, base.groups[g]);
    groups_diverge_exactly_in_their_fields(theirs, base.groups[g]);
}

/// Overwriting an entry takes each field of the other, its attachments and its modification time;
/// identifier, place, history and the other timestamps stay.
pub proof fn overwriting_an_entry_takes_the_fields(ours: EntryModel, theirs: EntryModel)
    ensures
        ({
            let after = ours.overwritten_by(theirs);
            &&& after.fields == theirs.fields
            &&& after.autotype == theirs.autotype
            &&& after.tags == theirs.tags
            &&& after.custom_data == theirs.custom_data
            &&& after.icon == theirs.icon
            &&& after.foreground_color == theirs.foreground_color
            &&& after.background_color == theirs.background_color
            &&& after.override_url == theirs.override_url
            &&& after.quality_check == theirs.quality_check
            &&& after.attachments == theirs.attachments
            &&& after.times.last_modification == theirs.times.last_modification
            &&& after.times.creation == ours.times.creation
            &&& after.times.last_access == ours.times.last_access
            &&& after.times.expiry == ours.times.expiry
            &&& after.times.location_changed == ours.times.location_changed
            &&& after.times.expires == ours.times.expires
            &&& after.times.usage_count == ours.times.usage_count
            &&& after.id == ours.id
            &&& after.parent == ours.parent
            &&& after.previous_parent_group == ours.previous_parent_group
            &&& after.history == ours.history
        }),
{
}

/// Overwriting a group takes each field of the other, and its modification time where it has one;
/// identifier, place, children and the other timestamps stay.
pub proof fn overwriting_a_group_takes_the_fields(ours: GroupModel, theirs: GroupModel)
    ensures
        ({
            let after = ours.overwritten_by(theirs);
            &&& after.name == theirs.name
            &&& after.notes == theirs.notes
            &&& after.icon == theirs.icon
            &&& after.custom_data == theirs.custom_data
            &&& after.is_expanded == theirs.is_expanded
            &&& after.default_autotype_sequence == theirs.default_autotype_sequence
            &&& after.enable_autotype == theirs.enable_autotype
            &&& after.enable_searching == theirs.enable_searching
            &&& after.last_top_visible_entry == theirs.last_top_visible_entry
            &&& theirs.times.last_modification is Some ==> after.times.last_modification
                == theirs.times.last_modification
            &&& theirs.times.last_modification is None ==> after.times.last_modification
                == ours.times.last_modification
            &&& after.times.creation == ours.times.creation
            &&& after.times.last_access == ours.times.last_access
            &&& after.times.expiry == ours.times.expiry
            &&& after.times.location_changed == ours.times.location_changed
            &&& after.times.expires == ours.times.expires
            &&& after.times.usage_count == ours.times.usage_count
            &&& after.id == ours.id
            &&& after.parent == ours.parent
            &&& after.previous_parent_group == ours.previous_parent_group
            &&& after.entries == ours.entries
            &&& after.groups == ours.groups
        }),
{
}

} // verus!
