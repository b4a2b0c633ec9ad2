//! What changes to a database change, field by field, and what they leave alone.

use vstd::prelude::*;
use crate::attachment;
use crate::attachment::Pool;
use crate::config::Compression;
use crate::config::DatabaseConfig;
use crate::config::OuterCipher;
use crate::database::DatabaseModel;
use crate::database::Groups;
use crate::entry;
use crate::entry::EntryModel;
use crate::group::GroupModel;
use crate::group::MoveGroupError;
use crate::handles;
use crate::handles::entry as entry_handles;
use crate::handles::group as group_handles;
use crate::icon::Icon;
use crate::ids;
use crate::ids::AttachmentId;
use crate::ids::CustomIconId;
use crate::ids::EntryId;
use crate::ids::GroupId;
use crate::ids::Uuid;
use crate::merge::groups;
use crate::merge::rules;
use crate::merge::rules::Tombstones;
use crate::purge;
use crate::references;
use crate::references::Referent;
use crate::references::VersionModel;
use crate::removal;
use crate::remap::Names;
use crate::times::Times;
use crate::times::Timestamp;
use crate::tree;
use crate::value::Value;

verus! {

/// Whether names are what is left of others without those that stand for an attachment: each of
/// the others is there and stands for what it did.
pub open spec fn left_without(after: Names, before: Names, a: AttachmentId) -> bool {
    forall|name: Seq<char>|
        {
            &&& #[trigger] after.contains_key(name) == (before.contains_key(name) && before[name]
                != a)
            &&& after.contains_key(name) ==> after[name] == before[name]
        }
}

/// When an attachment is removed, every version of every entry has exactly the names that it had
/// for other attachments, each for the same attachment, whose data stays. All other fields of the
/// version stay, and so do all groups, icons and deletions.
pub proof fn attachment_removal_keeps_the_rest(
    db: DatabaseModel,
    a: AttachmentId,
    e: EntryId,
    i: int,
    other: AttachmentId,
)
    requires
        db.entries.contains_key(e),
    ensures
        ({
            let after = purge::attachment_purged(db, a);
            let ours = db.entries[e];
            let entry = after.entries[e];
            &&& after.entries.dom() =~= db.entries.dom()
            &&& left_without(entry.attachments, ours.attachments, a)
            &&& entry.id == ours.id
            &&& entry.parent == ours.parent
            &&& entry.fields == ours.fields
            &&& entry.autotype == ours.autotype
            &&& entry.tags == ours.tags
            &&& entry.times == ours.times
            &&& entry.custom_data == ours.custom_data
            &&& entry.icon == ours.icon
            &&& entry.foreground_color == ours.foreground_color
            &&& entry.background_color == ours.background_color
            &&& entry.override_url == ours.override_url
            &&& entry.quality_check == ours.quality_check
            &&& entry.previous_parent_group == ours.previous_parent_group
            &&& ours.history is Some == entry.history is Some
            &&& ours.history is Some ==> {
                &&& entry.history->0.len() == ours.history->0.len()
                &&& 0 <= i < ours.history->0.len() ==> {
                    let version = entry.history->0[i];
                    let before = ours.history->0[i];
                    &&& left_without(version.attachments, before.attachments, a)
                    &&& version.id == before.id
                    &&& version.parent == before.parent
                    &&& version.fields == before.fields
                    &&& version.autotype == before.autotype
                    &&& version.tags == before.tags
                    &&& version.times == before.times
                    &&& version.custom_data == before.custom_data
                    &&& version.icon == before.icon
                    &&& version.foreground_color == before.foreground_color
                    &&& version.background_color == before.background_color
                    &&& version.override_url == before.override_url
                    &&& version.quality_check == before.quality_check
                    &&& version.previous_parent_group == before.previous_parent_group
                    &&& version.history == before.history
                }
            }
            &&& !after.attachments.contains_key(a)
            &&& other != a ==> after.attachments.contains_key(other)
                == db.attachments.contains_key(other)
            &&& other != a && db.attachments.contains_key(other) ==> after.attachments[other]
                == db.attachments[other]
            &&& after.config == db.config
            &&& after.meta == db.meta
            &&& after.root == db.root
            &&& after.custom_icons == db.custom_icons
            &&& after.groups == db.groups
            &&& after.deleted_objects == db.deleted_objects
        }),
{
}

/// When a custom icon is removed, every version of every entry, and every group, that shows it
/// shows none any more; every other icon that is shown stays, and so does every other field.
pub proof fn icon_removal_keeps_the_rest(
    db: DatabaseModel,
    icon: CustomIconId,
    e: EntryId,
    i: int,
    g: GroupId,
    other: CustomIconId,
)
    ensures
        ({
            let after = purge::icon_purged(db, icon);
            let shown = Some(Icon::Custom(icon));
            &&& after.entries.dom() =~= db.entries.dom()
            &&& db.entries.contains_key(e) ==> {
                let ours = db.entries[e];
                let entry = after.entries[e];
                &&& ours.icon == shown ==> entry.icon is None
                &&& ours.icon != shown ==> entry.icon == ours.icon
                &&& entry.id == ours.id
                &&& entry.parent == ours.parent
                &&& entry.fields == ours.fields
                &&& entry.autotype == ours.autotype
                &&& entry.tags == ours.tags
                &&& entry.times == ours.times
                &&& entry.custom_data == ours.custom_data
                &&& entry.foreground_color == ours.foreground_color
                &&& entry.background_color == ours.background_color
                &&& entry.override_url == ours.override_url
                &&& entry.quality_check == ours.quality_check
                &&& entry.attachments == ours.attachments
                &&& entry.previous_parent_group == ours.previous_parent_group
                &&& ours.history is Some == entry.history is Some
                &&& ours.history is Some ==> {
                    &&& entry.history->0.len() == ours.history->0.len()
                    &&& 0 <= i < ours.history->0.len() ==> {
                        let version = entry.history->0[i];
                        let before = ours.history->0[i];
                        &&& before.icon == shown ==> version.icon is None
                        &&& before.icon != shown ==> version.icon == before.icon
                        &&& version.id == before.id
                        &&& version.parent == before.parent
                        &&& version.fields == before.fields
                        &&& version.autotype == before.autotype
                        &&& version.tags == before.tags
                        &&& version.times == before.times
                        &&& version.custom_data == before.custom_data
                        &&& version.foreground_color == before.foreground_color
                        &&& version.background_color == before.background_color
                        &&& version.override_url == before.override_url
                        &&& version.quality_check == before.quality_check
                        &&& version.attachments == before.attachments
                        &&& version.previous_parent_group == before.previous_parent_group
                        &&& version.history == before.history
                    }
                }
            }
            &&& after.groups.dom() =~= db.groups.dom()
            &&& db.groups.contains_key(g) ==> {
                let group = after.groups[g];
                &&& db.groups[g].icon == shown ==> group.icon is None
                &&& db.groups[g].icon != shown ==> group.icon == db.groups[g].icon
                &&& group.id == db.groups[g].id
                &&& group.name == db.groups[g].name
                &&& group.notes == db.groups[g].notes
                &&& group.custom_data == db.groups[g].custom_data
                &&& group.times == db.groups[g].times
                &&& group.is_expanded == db.groups[g].is_expanded
                &&& group.default_autotype_sequence == db.groups[g].default_autotype_sequence
                &&& group.enable_autotype == db.groups[g].enable_autotype
                &&& group.enable_searching == db.groups[g].enable_searching
                &&& group.last_top_visible_entry == db.groups[g].last_top_visible_entry
                &&& group.entries == db.groups[g].entries
                &&& group.groups == db.groups[g].groups
                &&& group.parent == db.groups[g].parent
                &&& group.previous_parent_group == db.groups[g].previous_parent_group
            }
            &&& !after.custom_icons.contains_key(icon)
            &&& other != icon ==> after.custom_icons.contains_key(other)
                == db.custom_icons.contains_key(other)
            &&& other != icon && db.custom_icons.contains_key(other) ==> after.custom_icons[other]
                == db.custom_icons[other]
            &&& after.config == db.config
            &&& after.meta == db.meta
            &&& after.root == db.root
            &&& after.attachments == db.attachments
            &&& after.deleted_objects == db.deleted_objects
        }),
{
}

/// Whether a version of an entry has a name for an attachment: its live version or one of its
/// history.
pub open spec fn has_name_for(entry: EntryModel, a: AttachmentId) -> bool {
    ||| exists|name: Seq<char>| #[trigger]
        entry.attachments.contains_key(name) && entry.attachments[name] == a
    ||| exists|i: int, name: Seq<char>|
        #![trigger entry.history->0[i].attachments.contains_key(name)]
        entry.history is Some && 0 <= i < entry.history->0.len()
            && entry.history->0[i].attachments.contains_key(name)
            && entry.history->0[i].attachments[name] == a
}

/// An entry uses an attachment exactly if its live version or a version of its history has a name
/// for it, and an attachment is in use exactly if some entry uses it.
pub proof fn use_is_a_name_in_some_version(db: DatabaseModel, e: EntryId, a: AttachmentId)
    ensures
        db.entries[e].uses(a) <==> has_name_for(db.entries[e], a),
        references::used(db.entries, a) <==> exists|x: EntryId| #[trigger]
            db.entries.contains_key(x) && has_name_for(db.entries[x], a),
        db.references().contains_key(a) <==> references::used(db.entries, a),
        db.references().contains_key(a) ==> db.references()[a] == db.referrers(
            Referent::Attachment(a),
            true,
        ),
{
    assert forall|x: EntryId| #[trigger] db.entries[x].uses(a) == has_name_for(
        db.entries[x],
        a,
    ) by {
        lemma_uses(db.entries[x], a);
    }
}

proof fn lemma_uses(entry: EntryModel, a: AttachmentId)
    ensures
        entry.uses(a) <==> has_name_for(entry, a),
{
    if entry.uses(a) {
        let index = choose|index: Option<int>| #[trigger]
            entry.has_version(index) && references::refers(entry.version(index).attachments, a);
        let names = entry.version(index).attachments;
        let name = choose|name: Seq<char>| #[trigger] names.contains_key(name) && names[name] == a;
        assert(names.contains_key(name));
        if let Some(i) = index {
            assert(entry.history->0[i].attachments.contains_key(name));
        }
    }
    if has_name_for(entry, a) {
        if exists|name: Seq<char>| #[trigger]
            entry.attachments.contains_key(name) && entry.attachments[name] == a {
            let live: Option<int> = None;
            assert(entry.has_version(live) && references::refers(
                entry.version(live).attachments,
                a,
            ));
        } else {
            let (i, name) = choose|i: int, name: Seq<char>|
                #![trigger entry.history->0[i].attachments.contains_key(name)]
                entry.history is Some && 0 <= i < entry.history->0.len()
                    && entry.history->0[i].attachments.contains_key(name)
                    && entry.history->0[i].attachments[name] == a;
            let index: Option<int> = Some(i);
            assert(entry.has_version(index) && references::refers(
                entry.version(index).attachments,
                a,
            ));
        }
    }
}

/// The versions that refer to an attachment are those with a name for it, and the versions that
/// refer to an icon are those that show it; history versions count only where they are asked for.
pub proof fn referrers_are_the_versions_that_mention(
    db: DatabaseModel,
    e: EntryId,
    i: int,
    a: AttachmentId,
    icon: CustomIconId,
    historical: bool,
)
    requires
        db.entries.contains_key(e),
    ensures
        ({
            let ours = db.entries[e];
            let live = VersionModel { entry: e, index: None };
            let past = VersionModel { entry: e, index: Some(i) };
            let is_past = ours.history is Some && 0 <= i < ours.history->0.len();
            let to_attachment = db.referrers(Referent::Attachment(a), historical);
            let to_icon = db.referrers(Referent::Icon(icon), historical);
            &&& to_attachment.contains(live) <==> exists|name: Seq<char>| #[trigger]
                ours.attachments.contains_key(name) && ours.attachments[name] == a
            &&& to_attachment.contains(past) <==> historical && is_past && exists|name: Seq<char>|
                #[trigger] ours.history->0[i].attachments.contains_key(name)
                    && ours.history->0[i].attachments[name] == a
            &&& to_icon.contains(live) <==> ours.icon == Some(Icon::Custom(icon))
            &&& to_icon.contains(past) <==> historical && is_past && ours.history->0[i].icon
                == Some(Icon::Custom(icon))
        }),
{
}

/// No entry that is not there refers to anything.
pub proof fn missing_entries_refer_to_nothing(
    db: DatabaseModel,
    v: VersionModel,
    referent: Referent,
)
    requires
        !db.entries.contains_key(v.entry),
    ensures
        !db.referrers(referent, true).contains(v),
        !db.referrers(referent, false).contains(v),
{
}

/// When entries are removed, every other entry stays as it is. Each group keeps all its fields but
/// for what it lists and shows of the removed entries. An attachment goes exactly if a removed
/// entry has a name for it and no other entry has; every other attachment stays.
pub proof fn removal_of_entries_keeps_the_rest(
    db: DatabaseModel,
    gone: Set<EntryId>,
    e: EntryId,
    g: GroupId,
    a: AttachmentId,
)
    ensures
        ({
            let after = removal::entries_removed(db, gone);
            &&& after.entries.contains_key(e) <==> db.entries.contains_key(e) && !gone.contains(e)
            &&& after.entries.contains_key(e) ==> after.entries[e] == db.entries[e]
            &&& after.groups.contains_key(g) <==> db.groups.contains_key(g)
            &&& db.groups.contains_key(g) ==> {
                let ours = db.groups[g];
                let group = after.groups[g];
                &&& group.id == ours.id
                &&& group.name == ours.name
                &&& group.notes == ours.notes
                &&& group.icon == ours.icon
                &&& group.custom_data == ours.custom_data
                &&& group.times == ours.times
                &&& group.is_expanded == ours.is_expanded
                &&& group.default_autotype_sequence == ours.default_autotype_sequence
                &&& group.enable_autotype == ours.enable_autotype
                &&& group.enable_searching == ours.enable_searching
                &&& group.groups == ours.groups
                &&& group.parent == ours.parent
                &&& group.previous_parent_group == ours.previous_parent_group
                &&& group.entries.contains(e) <==> ours.entries.contains(e) && !gone.contains(e)
                &&& group.last_top_visible_entry == if ours.last_top_visible_entry is Some
                    && gone.contains(ours.last_top_visible_entry->0) {
                    None
                } else {
                    ours.last_top_visible_entry
                }
            }
            &&& after.attachments.contains_key(a) <==> db.attachments.contains_key(a) && ((exists|
                x: EntryId,
            | #[trigger]
                gone.contains(x) && db.entries.contains_key(x) && has_name_for(db.entries[x], a))
                ==> exists|x: EntryId| #[trigger]
                db.entries.contains_key(x) && !gone.contains(x) && has_name_for(db.entries[x], a))
            &&& after.attachments.contains_key(a) ==> after.attachments[a] == db.attachments[a]
            &&& after.config == db.config
            &&& after.meta == db.meta
            &&& after.root == db.root
            &&& after.custom_icons == db.custom_icons
            &&& after.deleted_objects == db.deleted_objects
        }),
{
    let after = removal::entries_removed(db, gone);
    let removed = db.entries.restrict(gone);
    let kept = db.entries.remove_keys(gone);
    assert forall|x: EntryId| #[trigger] db.entries[x].uses(a) == has_name_for(
        db.entries[x],
        a,
    ) by {
        lemma_uses(db.entries[x], a);
    }
    if references::used(removed, a) {
        let x = choose|x: EntryId| #[trigger] removed.contains_key(x) && removed[x].uses(a);
        assert(gone.contains(x) && db.entries.contains_key(x) && db.entries[x].uses(a));
    }
    if exists|x: EntryId| #[trigger]
        gone.contains(x) && db.entries.contains_key(x) && has_name_for(db.entries[x], a) {
        let x = choose|x: EntryId| #[trigger]
            gone.contains(x) && db.entries.contains_key(x) && has_name_for(db.entries[x], a);
        assert(removed.contains_key(x) && removed[x] == db.entries[x]);
        assert(db.entries[x].uses(a));
    }
    if references::used(kept, a) {
        let x = choose|x: EntryId| #[trigger] kept.contains_key(x) && kept[x].uses(a);
        assert(db.entries.contains_key(x) && db.entries[x].uses(a));
    }
    if exists|x: EntryId| #[trigger]
        db.entries.contains_key(x) && !gone.contains(x) && has_name_for(db.entries[x], a) {
        let x = choose|x: EntryId| #[trigger]
            db.entries.contains_key(x) && !gone.contains(x) && has_name_for(db.entries[x], a);
        assert(kept.contains_key(x) && kept[x] == db.entries[x]);
        assert(db.entries[x].uses(a));
    }
}

/// A group is in the subtree of another exactly if it is that group or its parent is in there.
pub proof fn subtrees_follow_the_parents(groups: Groups, g: GroupId, top: GroupId)
    requires
        groups.contains_key(g),
    ensures
        tree::in_subtree(groups, g, top) <==> {
            ||| g == top
            ||| groups[g].parent is Some && tree::in_subtree(groups, groups[g].parent->0, top)
        },
{
    if let Some(p) = groups[g].parent {
        tree::lemma_child_in_subtree(groups, g, p, top);
    } else {
        assert forall|n: nat| #[trigger] tree::ancestor(groups, g, n) == Some(top) implies g
            == top by {
            lemma_no_ancestor(groups, g, n);
        }
    }
    if g == top {
        assert(tree::ancestor(groups, g, 0) == Some(g));
    }
}

proof fn lemma_no_ancestor(groups: Groups, g: GroupId, n: nat)
    requires
        groups.contains_key(g),
        groups[g].parent is None,
    ensures
        tree::ancestor(groups, g, n) == if n == 0 {
            Some(g)
        } else {
            None
        },
    decreases n,
{
    if n > 0 {
        lemma_no_ancestor(groups, g, (n - 1) as nat);
    }
}

/// Whether an entry stands in a group or somewhere below it.
pub open spec fn stands_below(db: DatabaseModel, top: GroupId, e: EntryId) -> bool {
    db.entries.contains_key(e) && tree::in_subtree(db.groups, db.entries[e].parent, top)
}

/// When a group is removed, the groups in its subtree go and the entries in these, and every other
/// entry stays as it is. Each other group keeps all its fields but for what it lists and shows of
/// what went. An attachment goes exactly if an entry that went has a name for it and no other has.
pub proof fn removal_of_a_group_keeps_the_rest(
    db: DatabaseModel,
    top: GroupId,
    e: EntryId,
    g: GroupId,
    a: AttachmentId,
)
    requires
        db.wf(),
        db.groups.contains_key(top),
        top != db.root,
    ensures
        ({
            let after = removal::group_removed(db, top);
            &&& after.entries.contains_key(e) <==> db.entries.contains_key(e) && !stands_below(
                db,
                top,
                e,
            )
            &&& after.entries.contains_key(e) ==> after.entries[e] == db.entries[e]
            &&& after.groups.contains_key(g) <==> db.groups.contains_key(g) && !tree::in_subtree(
                db.groups,
                g,
                top,
            )
            &&& after.groups.contains_key(g) ==> {
                let ours = db.groups[g];
                let group = after.groups[g];
                &&& group.id == ours.id
                &&& group.name == ours.name
                &&& group.notes == ours.notes
                &&& group.icon == ours.icon
                &&& group.custom_data == ours.custom_data
                &&& group.times == ours.times
                &&& group.is_expanded == ours.is_expanded
                &&& group.default_autotype_sequence == ours.default_autotype_sequence
                &&& group.enable_autotype == ours.enable_autotype
                &&& group.enable_searching == ours.enable_searching
                &&& group.parent == ours.parent
                &&& group.previous_parent_group == ours.previous_parent_group
                &&& group.entries =~= ours.entries
                &&& group.groups =~= ours.groups.remove(top)
                &&& group.last_top_visible_entry == if ours.last_top_visible_entry is Some
                    && stands_below(db, top, ours.last_top_visible_entry->0) {
                    None
                } else {
                    ours.last_top_visible_entry
                }
            }
            &&& after.attachments.contains_key(a) <==> db.attachments.contains_key(a) && ((exists|
                x: EntryId,
            | #[trigger] stands_below(db, top, x) && has_name_for(db.entries[x], a)) ==> exists|
                x: EntryId,
            | #[trigger]
                db.entries.contains_key(x) && !stands_below(db, top, x) && has_name_for(
                    db.entries[x],
                    a,
                ))
            &&& after.attachments.contains_key(a) ==> after.attachments[a] == db.attachments[a]
            &&& after.config == db.config
            &&& after.meta == db.meta
            &&& after.root == db.root
            &&& after.custom_icons == db.custom_icons
            &&& after.deleted_objects == db.deleted_objects
        }),
{
    let gone = removal::entries_below(db, top);
    removal_of_entries_keeps_the_rest(db, gone, e, g, a);
    assert(crate::database::group_placed(db.groups, db.root, top));
    let p = db.groups[top].parent->0;
    removal::lemma_parent_outside(db.groups, db.root, top, p);
    assert forall|x: EntryId| #[trigger] gone.contains(x) == stands_below(db, top, x) by {}
    if exists|x: EntryId| #[trigger] stands_below(db, top, x) && has_name_for(db.entries[x], a) {
        let x = choose|x: EntryId| #[trigger]
            stands_below(db, top, x) && has_name_for(db.entries[x], a);
        assert(gone.contains(x) && db.entries.contains_key(x) && has_name_for(db.entries[x], a));
    }
    if exists|x: EntryId| #[trigger]
        db.entries.contains_key(x) && !stands_below(db, top, x) && has_name_for(
            db.entries[x],
            a,
        ) {
        let x = choose|x: EntryId| #[trigger]
            db.entries.contains_key(x) && !stands_below(db, top, x) && has_name_for(
                db.entries[x],
                a,
            );
        assert(db.entries.contains_key(x) && !gone.contains(x) && has_name_for(db.entries[x], a));
    }
    if exists|x: EntryId| #[trigger]
        gone.contains(x) && db.entries.contains_key(x) && has_name_for(db.entries[x], a) {
        let x = choose|x: EntryId| #[trigger]
            gone.contains(x) && db.entries.contains_key(x) && has_name_for(db.entries[x], a);
        assert(stands_below(db, top, x) && has_name_for(db.entries[x], a));
    }
    if exists|x: EntryId| #[trigger]
        db.entries.contains_key(x) && !gone.contains(x) && has_name_for(db.entries[x], a) {
        let x = choose|x: EntryId| #[trigger]
            db.entries.contains_key(x) && !gone.contains(x) && has_name_for(db.entries[x], a);
        assert(!stands_below(db, top, x));
    }
    assert(removal::group_removed(db, top).attachments == removal::entries_removed(
        db,
        gone,
    ).attachments);
    if db.groups.contains_key(g) && !tree::in_subtree(db.groups, g, top) {
        assert(crate::database::group_placed(db.groups, db.root, g));
        let group = removal::group_removed(db, top).groups[g];
        assert forall|x: EntryId| #[trigger] db.groups[g].entries.contains(x) implies !gone.contains(
            x,
        ) by {}
        assert(group.entries =~= db.groups[g].entries);
        if g != p {
            assert(!db.groups[g].groups.contains(top));
        }
        assert(group.groups =~= db.groups[g].groups.remove(top));
    }
}

/// The root group cannot be removed: nothing changes.
pub proof fn removal_of_the_root_changes_nothing(db: DatabaseModel)
    requires
        db.wf(),
    ensures
        removal::group_removed(db, db.root) == db,
{
    assert(crate::database::group_placed(db.groups, db.root, db.root));
}

/// An entry that is moved is listed by the group that it was moved to, has it as its parent and
/// remembers the parent that it had; no other field of it changes, no other entry, and no field of
/// any group but what the two groups list.
pub proof fn moving_an_entry_changes_its_place_only(
    db: DatabaseModel,
    e: EntryId,
    to: GroupId,
    other: EntryId,
    g: GroupId,
)
    requires
        db.wf(),
        db.entries.contains_key(e),
        db.groups.contains_key(to),
    ensures
        ({
            let after = tree::entry_moved(db, e, to);
            let ours = db.entries[e];
            let entry = after.entries[e];
            &&& after.entries.dom() =~= db.entries.dom()
            &&& entry.parent == to
            &&& entry.previous_parent_group == Some(ours.parent)
            &&& entry.id == ours.id
            &&& entry.fields == ours.fields
            &&& entry.autotype == ours.autotype
            &&& entry.tags == ours.tags
            &&& entry.times == ours.times
            &&& entry.custom_data == ours.custom_data
            &&& entry.icon == ours.icon
            &&& entry.foreground_color == ours.foreground_color
            &&& entry.background_color == ours.background_color
            &&& entry.override_url == ours.override_url
            &&& entry.quality_check == ours.quality_check
            &&& entry.attachments == ours.attachments
            &&& entry.history == ours.history
            &&& other != e ==> after.entries[other] == db.entries[other]
            &&& after.groups.dom() =~= db.groups.dom()
            &&& db.groups.contains_key(g) ==> {
                &&& after.groups[g].entries.contains(e) == (g == to)
                &&& other != e ==> after.groups[g].entries.contains(other)
                    == db.groups[g].entries.contains(other)
                &&& after.groups[g].id == db.groups[g].id
                &&& after.groups[g].name == db.groups[g].name
                &&& after.groups[g].notes == db.groups[g].notes
                &&& after.groups[g].icon == db.groups[g].icon
                &&& after.groups[g].custom_data == db.groups[g].custom_data
                &&& after.groups[g].times == db.groups[g].times
                &&& after.groups[g].is_expanded == db.groups[g].is_expanded
                &&& after.groups[g].default_autotype_sequence == db.groups[g].default_autotype_sequence
                &&& after.groups[g].enable_autotype == db.groups[g].enable_autotype
                &&& after.groups[g].enable_searching == db.groups[g].enable_searching
                &&& after.groups[g].last_top_visible_entry == db.groups[g].last_top_visible_entry
                &&& after.groups[g].groups == db.groups[g].groups
                &&& after.groups[g].parent == db.groups[g].parent
                &&& after.groups[g].previous_parent_group == db.groups[g].previous_parent_group
            }
            &&& after.config == db.config
            &&& after.meta == db.meta
            &&& after.root == db.root
            &&& after.attachments == db.attachments
            &&& after.custom_icons == db.custom_icons
            &&& after.deleted_objects == db.deleted_objects
        }),
{
    assert(crate::database::entry_placed(db.entries, db.groups, e));
}

/// A group that is moved is listed by the group that it was moved to, has it as its parent and
/// remembers the parent that it had; no other field of it changes, and no field of any other group
/// but what the two groups list.
pub proof fn moving_a_group_changes_its_place_only(
    db: DatabaseModel,
    g: GroupId,
    to: GroupId,
    x: GroupId,
    c: GroupId,
)
    requires
        db.wf(),
        db.groups.contains_key(g),
        tree::move_error(db, g, to) is None,
    ensures
        ({
            let after = tree::group_moved(db, g, to);
            let ours = db.groups[g];
            let group = after.groups[g];
            &&& after.groups.dom() =~= db.groups.dom()
            &&& group.parent == Some(to)
            &&& group.previous_parent_group == ours.parent
            &&& group.id == ours.id
            &&& group.name == ours.name
            &&& group.notes == ours.notes
            &&& group.icon == ours.icon
            &&& group.custom_data == ours.custom_data
            &&& group.times == ours.times
            &&& group.is_expanded == ours.is_expanded
            &&& group.default_autotype_sequence == ours.default_autotype_sequence
            &&& group.enable_autotype == ours.enable_autotype
            &&& group.enable_searching == ours.enable_searching
            &&& group.last_top_visible_entry == ours.last_top_visible_entry
            &&& group.entries == ours.entries
            &&& group.groups == ours.groups
            &&& db.groups.contains_key(x) ==> {
                &&& after.groups[x].groups.contains(g) == (x == to)
                &&& c != g ==> after.groups[x].groups.contains(c)
                    == db.groups[x].groups.contains(c)
                &&& x != g ==> {
                    &&& after.groups[x].id == db.groups[x].id
                    &&& after.groups[x].name == db.groups[x].name
                    &&& after.groups[x].notes == db.groups[x].notes
                    &&& after.groups[x].icon == db.groups[x].icon
                    &&& after.groups[x].custom_data == db.groups[x].custom_data
                    &&& after.groups[x].times == db.groups[x].times
                    &&& after.groups[x].is_expanded == db.groups[x].is_expanded
                    &&& after.groups[x].default_autotype_sequence == db.groups[x].default_autotype_sequence
                    &&& after.groups[x].enable_autotype == db.groups[x].enable_autotype
                    &&& after.groups[x].enable_searching == db.groups[x].enable_searching
                    &&& after.groups[x].last_top_visible_entry == db.groups[x].last_top_visible_entry
                    &&& after.groups[x].entries == db.groups[x].entries
                    &&& after.groups[x].parent == db.groups[x].parent
                    &&& after.groups[x].previous_parent_group == db.groups[x].previous_parent_group
                }
            }
            &&& after.config == db.config
            &&& after.meta == db.meta
            &&& after.root == db.root
            &&& after.attachments == db.attachments
            &&& after.custom_icons == db.custom_icons
            &&& after.entries == db.entries
            &&& after.deleted_objects == db.deleted_objects
        }),
{
    assert(crate::database::group_placed(db.groups, db.root, g));
    assert(tree::ancestor(db.groups, g, 0) == Some(g));
    let from = db.groups[g].parent->0;
    assert(from != g) by {
        if from == g {
            let depth = choose|depth: spec_fn(GroupId) -> nat|
                crate::database::deeper_than_parent(db.groups, depth);
            assert(depth(g) < depth(g));
        }
    }
    if db.groups.contains_key(x) {
        assert(crate::database::group_placed(db.groups, db.root, x));
    }
}

/// A group can be moved exactly if it is not the root, the group to move to is there, and that one
/// does not stand below it; the error says which of these fails, in this order.
pub proof fn groups_move_unless_they_cannot(db: DatabaseModel, g: GroupId, to: GroupId)
    requires
        db.wf(),
        db.groups.contains_key(g),
    ensures
        ({
            let error = tree::move_error(db, g, to);
            if g == db.root {
                error == Some(MoveGroupError::CannotMoveRoot(g))
            } else if !db.groups.contains_key(to) {
                error == Some(MoveGroupError::DestinationNotFound(to))
            } else if tree::in_subtree(db.groups, to, g) {
                error == Some(MoveGroupError::WouldCreateCycle(g, to))
            } else {
                error is None
            }
        }),
{
    assert(crate::database::group_placed(db.groups, db.root, g));
}

/// What the messages of a failed move say.
pub proof fn messages_of_failed_moves(g: GroupId, to: GroupId)
    ensures
        MoveGroupError::CannotMoveRoot(g).spec_message() == "Cannot move root group "@
            + ids::hyphenated(g.0.0),
        MoveGroupError::DestinationNotFound(to).spec_message() == "Destination group "@
            + ids::hyphenated(to.0.0) + " not found"@,
        MoveGroupError::WouldCreateCycle(g, to).spec_message() == "Cannot move group "@
            + ids::hyphenated(g.0.0) + " into its own subgroup "@ + ids::hyphenated(to.0.0),
{
}

/// An entry that is added is there as it is and listed by its group; no other entry changes, and
/// no field of any group but what that group lists.
pub proof fn adding_an_entry_changes_nothing_else(
    db: DatabaseModel,
    parent: GroupId,
    entry: EntryModel,
    other: EntryId,
    g: GroupId,
)
    requires
        db.groups.contains_key(parent),
    ensures
        ({
            let after = tree::entry_added(db, parent, entry);
            &&& after.entries.contains_key(entry.id)
            &&& after.entries[entry.id] == entry
            &&& other != entry.id ==> after.entries.contains_key(other)
                == db.entries.contains_key(other)
            &&& other != entry.id ==> after.entries[other] == db.entries[other]
            &&& after.groups.dom() =~= db.groups.dom()
            &&& db.groups.contains_key(g) ==> {
                &&& after.groups[g].entries.contains(entry.id) == (g == parent
                    || db.groups[g].entries.contains(entry.id))
                &&& other != entry.id ==> after.groups[g].entries.contains(other)
                    == db.groups[g].entries.contains(other)
                &&& after.groups[g].id == db.groups[g].id
                &&& after.groups[g].name == db.groups[g].name
                &&& after.groups[g].notes == db.groups[g].notes
                &&& after.groups[g].icon == db.groups[g].icon
                &&& after.groups[g].custom_data == db.groups[g].custom_data
                &&& after.groups[g].times == db.groups[g].times
                &&& after.groups[g].is_expanded == db.groups[g].is_expanded
                &&& after.groups[g].default_autotype_sequence == db.groups[g].default_autotype_sequence
                &&& after.groups[g].enable_autotype == db.groups[g].enable_autotype
                &&& after.groups[g].enable_searching == db.groups[g].enable_searching
                &&& after.groups[g].last_top_visible_entry == db.groups[g].last_top_visible_entry
                &&& after.groups[g].groups == db.groups[g].groups
                &&& after.groups[g].parent == db.groups[g].parent
                &&& after.groups[g].previous_parent_group == db.groups[g].previous_parent_group
            }
            &&& after.config == db.config
            &&& after.meta == db.meta
            &&& after.root == db.root
            &&& after.attachments == db.attachments
            &&& after.custom_icons == db.custom_icons
            &&& after.deleted_objects == db.deleted_objects
        }),
{
}

/// A group that is added is there as it is and listed by its parent; no field of any other group
/// changes but what its parent lists.
pub proof fn adding_a_group_changes_nothing_else(
    db: DatabaseModel,
    parent: GroupId,
    group: GroupModel,
    x: GroupId,
    c: GroupId,
)
    requires
        db.groups.contains_key(parent),
        !db.groups.contains_key(group.id),
    ensures
        ({
            let after = tree::group_added(db, parent, group);
            &&& after.groups.contains_key(group.id)
            &&& after.groups[group.id] == group
            &&& x != group.id ==> after.groups.contains_key(x) == db.groups.contains_key(x)
            &&& x != group.id && db.groups.contains_key(x) ==> {
                &&& after.groups[x].groups.contains(group.id) == (x == parent
                    || db.groups[x].groups.contains(group.id))
                &&& c != group.id ==> after.groups[x].groups.contains(c)
                    == db.groups[x].groups.contains(c)
                &&& after.groups[x].id == db.groups[x].id
                &&& after.groups[x].name == db.groups[x].name
                &&& after.groups[x].notes == db.groups[x].notes
                &&& after.groups[x].icon == db.groups[x].icon
                &&& after.groups[x].custom_data == db.groups[x].custom_data
                &&& after.groups[x].times == db.groups[x].times
                &&& after.groups[x].is_expanded == db.groups[x].is_expanded
                &&& after.groups[x].default_autotype_sequence == db.groups[x].default_autotype_sequence
                &&& after.groups[x].enable_autotype == db.groups[x].enable_autotype
                &&& after.groups[x].enable_searching == db.groups[x].enable_searching
                &&& after.groups[x].last_top_visible_entry == db.groups[x].last_top_visible_entry
                &&& after.groups[x].entries == db.groups[x].entries
                &&& after.groups[x].parent == db.groups[x].parent
                &&& after.groups[x].previous_parent_group == db.groups[x].previous_parent_group
            }
            &&& after.config == db.config
            &&& after.meta == db.meta
            &&& after.root == db.root
            &&& after.attachments == db.attachments
            &&& after.custom_icons == db.custom_icons
            &&& after.entries == db.entries
            &&& after.deleted_objects == db.deleted_objects
        }),
{
}

/// Changing a version of an entry changes that version and no other, no other entry and nothing
/// else of the database. A live version that is changed brings the history that it is given.
pub proof fn changing_a_version_changes_no_other(
    db: DatabaseModel,
    v: VersionModel,
    version: EntryModel,
    e: EntryId,
    i: int,
)
    requires
        db.entries.contains_key(v.entry),
        v.index is Some ==> db.entries[v.entry].history is Some && 0 <= v.index->0
            < db.entries[v.entry].history->0.len(),
    ensures
        ({
            let after = handles::version_changed(db, v, version);
            let entry = after.entries[v.entry];
            let ours = db.entries[v.entry];
            &&& after.entries.dom() =~= db.entries.dom()
            &&& v.index is None ==> entry == version
            &&& v.index is Some ==> {
                &&& entry.history is Some
                &&& entry.history->0.len() == ours.history->0.len()
                &&& entry.history->0[v.index->0] == version
                &&& 0 <= i < ours.history->0.len() && i != v.index->0 ==> entry.history->0[i]
                    == ours.history->0[i]
                &&& entry.id == ours.id
                &&& entry.parent == ours.parent
                &&& entry.fields == ours.fields
                &&& entry.autotype == ours.autotype
                &&& entry.tags == ours.tags
                &&& entry.times == ours.times
                &&& entry.custom_data == ours.custom_data
                &&& entry.icon == ours.icon
                &&& entry.foreground_color == ours.foreground_color
                &&& entry.background_color == ours.background_color
                &&& entry.override_url == ours.override_url
                &&& entry.quality_check == ours.quality_check
                &&& entry.attachments == ours.attachments
                &&& entry.previous_parent_group == ours.previous_parent_group
            }
            &&& e != v.entry ==> after.entries[e] == db.entries[e]
            &&& after.config == db.config
            &&& after.meta == db.meta
            &&& after.root == db.root
            &&& after.attachments == db.attachments
            &&& after.custom_icons == db.custom_icons
            &&& after.groups == db.groups
            &&& after.deleted_objects == db.deleted_objects
        }),
{
}

/// Setting a field sets that field; showing an icon changes the icon; noting a change changes the
/// modification time. Nothing else changes.
pub proof fn edits_change_what_they_say(
    version: EntryModel,
    key: Seq<char>,
    value: Value<Seq<char>>,
    other: Seq<char>,
    icon: Option<Icon>,
    now: Timestamp,
)
    ensures
        ({
            let after = entry_handles::with_field(version, key, value);
            &&& after.fields.contains_key(key)
            &&& after.fields[key] == value
            &&& other != key ==> after.fields.contains_key(other) == version.fields.contains_key(
                other,
            )
            &&& other != key ==> after.fields[other] == version.fields[other]
            &&& after.id == version.id
            &&& after.parent == version.parent
            &&& after.autotype == version.autotype
            &&& after.tags == version.tags
            &&& after.times == version.times
            &&& after.custom_data == version.custom_data
            &&& after.icon == version.icon
            &&& after.foreground_color == version.foreground_color
            &&& after.background_color == version.background_color
            &&& after.override_url == version.override_url
            &&& after.quality_check == version.quality_check
            &&& after.attachments == version.attachments
            &&& after.previous_parent_group == version.previous_parent_group
            &&& after.history == version.history
        }),
        ({
            let after = entry_handles::with_icon(version, icon);
            &&& after.icon == icon
            &&& after.id == version.id
            &&& after.parent == version.parent
            &&& after.fields == version.fields
            &&& after.autotype == version.autotype
            &&& after.tags == version.tags
            &&& after.times == version.times
            &&& after.custom_data == version.custom_data
            &&& after.foreground_color == version.foreground_color
            &&& after.background_color == version.background_color
            &&& after.override_url == version.override_url
            &&& after.quality_check == version.quality_check
            &&& after.attachments == version.attachments
            &&& after.previous_parent_group == version.previous_parent_group
            &&& after.history == version.history
        }),
        ({
            let after = entry_handles::modified_at(version, now);
            &&& after.times.last_modification == Some(now)
            &&& after.times.creation == version.times.creation
            &&& after.times.last_access == version.times.last_access
            &&& after.times.expiry == version.times.expiry
            &&& after.times.location_changed == version.times.location_changed
            &&& after.times.expires == version.times.expires
            &&& after.times.usage_count == version.times.usage_count
            &&& after.id == version.id
            &&& after.parent == version.parent
            &&& after.fields == version.fields
            &&& after.autotype == version.autotype
            &&& after.tags == version.tags
            &&& after.custom_data == version.custom_data
            &&& after.icon == version.icon
            &&& after.foreground_color == version.foreground_color
            &&& after.background_color == version.background_color
            &&& after.override_url == version.override_url
            &&& after.quality_check == version.quality_check
            &&& after.attachments == version.attachments
            &&& after.previous_parent_group == version.previous_parent_group
            &&& after.history == version.history
        }),
{
}

/// Changing a group changes that group only; noting the change changes its modification time.
pub proof fn changing_a_group_changes_no_other(
    db: DatabaseModel,
    g: GroupId,
    group: GroupModel,
    x: GroupId,
    now: Timestamp,
)
    requires
        db.groups.contains_key(g),
    ensures
        ({
            let after = group_handles::group_changed(db, g, group);
            &&& after.groups.dom() =~= db.groups.dom()
            &&& after.groups[g] == group
            &&& x != g ==> after.groups[x] == db.groups[x]
            &&& after.config == db.config
            &&& after.meta == db.meta
            &&& after.root == db.root
            &&& after.attachments == db.attachments
            &&& after.custom_icons == db.custom_icons
            &&& after.entries == db.entries
            &&& after.deleted_objects == db.deleted_objects
        }),
        ({
            let after = group_handles::modified_at(group, now);
            &&& after.times.last_modification == Some(now)
            &&& after.times.creation == group.times.creation
            &&& after.times.last_access == group.times.last_access
            &&& after.times.expiry == group.times.expiry
            &&& after.times.location_changed == group.times.location_changed
            &&& after.times.expires == group.times.expires
            &&& after.times.usage_count == group.times.usage_count
            &&& after.id == group.id
            &&& after.name == group.name
            &&& after.notes == group.notes
            &&& after.icon == group.icon
            &&& after.custom_data == group.custom_data
            &&& after.is_expanded == group.is_expanded
            &&& after.default_autotype_sequence == group.default_autotype_sequence
            &&& after.enable_autotype == group.enable_autotype
            &&& after.enable_searching == group.enable_searching
            &&& after.last_top_visible_entry == group.last_top_visible_entry
            &&& after.entries == group.entries
            &&& after.groups == group.groups
            &&& after.parent == group.parent
            &&& after.previous_parent_group == group.previous_parent_group
        }),
{
}

/// A group that is moved at a given time is moved, and of all its timestamps only that of the last
/// move changes, to this time.
pub proof fn moving_a_group_notes_the_time(
    db: DatabaseModel,
    g: GroupId,
    to: GroupId,
    now: Timestamp,
    x: GroupId,
)
    requires
        db.wf(),
        db.groups.contains_key(g),
        tree::move_error(db, g, to) is None,
    ensures
        ({
            let after = group_handles::group_moved_at(db, g, to, now);
            let moved = tree::group_moved(db, g, to);
            &&& after.groups[g].times.location_changed == Some(now)
            &&& after.groups[g].times.creation == db.groups[g].times.creation
            &&& after.groups[g].times.last_modification == db.groups[g].times.last_modification
            &&& after.groups[g].times.last_access == db.groups[g].times.last_access
            &&& after.groups[g].times.expiry == db.groups[g].times.expiry
            &&& after.groups[g].times.expires == db.groups[g].times.expires
            &&& after.groups[g].times.usage_count == db.groups[g].times.usage_count
            &&& after.groups[g].id == moved.groups[g].id
            &&& after.groups[g].name == moved.groups[g].name
            &&& after.groups[g].notes == moved.groups[g].notes
            &&& after.groups[g].icon == moved.groups[g].icon
            &&& after.groups[g].custom_data == moved.groups[g].custom_data
            &&& after.groups[g].is_expanded == moved.groups[g].is_expanded
            &&& after.groups[g].default_autotype_sequence == moved.groups[g].default_autotype_sequence
            &&& after.groups[g].enable_autotype == moved.groups[g].enable_autotype
            &&& after.groups[g].enable_searching == moved.groups[g].enable_searching
            &&& after.groups[g].last_top_visible_entry == moved.groups[g].last_top_visible_entry
            &&& after.groups[g].entries == moved.groups[g].entries
            &&& after.groups[g].groups == moved.groups[g].groups
            &&& after.groups[g].parent == moved.groups[g].parent
            &&& after.groups[g].previous_parent_group == moved.groups[g].previous_parent_group
            &&& x != g ==> after.groups[x] == moved.groups[x]
            &&& after.groups.dom() =~= db.groups.dom()
            &&& after.config == db.config
            &&& after.meta == db.meta
            &&& after.root == db.root
            &&& after.attachments == db.attachments
            &&& after.custom_icons == db.custom_icons
            &&& after.entries == db.entries
            &&& after.deleted_objects == db.deleted_objects
        }),
{
    moving_a_group_changes_its_place_only(db, g, to, g, g);
}

/// Data that is added under a name is there, under the least free identifier, and the name stands
/// for it. If the name stood for another attachment, each name of that version for it is dropped;
/// every other name stays, and so does every other version, every other field, and all data.
pub proof fn adding_data_keeps_the_rest(
    db: DatabaseModel,
    v: VersionModel,
    name: Seq<char>,
    data: Value<Seq<u8>>,
    free: AttachmentId,
    a: AttachmentId,
    other: Seq<char>,
    e: EntryId,
    i: int,
)
    requires
        db.entries.contains_key(v.entry),
        v.index is Some ==> db.entries[v.entry].history is Some && 0 <= v.index->0
            < db.entries[v.entry].history->0.len(),
        !db.attachments.contains_key(free),
        forall|lesser: AttachmentId|
            lesser.0 < free.0 ==> #[trigger] db.attachments.contains_key(lesser),
        ({
            let names = match v.index {
                None => db.entries[v.entry].attachments,
                Some(k) => db.entries[v.entry].history->0[k].attachments,
            };
            names.contains_key(name) ==> names[name] != free
        }),
    ensures
        ({
            let after = entry_handles::attachment_added(db, v, name, data);
            let ours = db.entries[v.entry];
            let entry = after.entries[v.entry];
            let before = match v.index {
                None => ours,
                Some(k) => ours.history->0[k],
            };
            let version = match v.index {
                None => entry,
                Some(k) => entry.history->0[k],
            };
            let replaced = before.attachments.contains_key(name)
                && before.attachments.contains_key(other) && before.attachments[other]
                == before.attachments[name];
            &&& after.attachments.contains_key(free)
            &&& after.attachments[free].id == free
            &&& after.attachments[free].data == data
            &&& a != free ==> after.attachments.contains_key(a) == db.attachments.contains_key(a)
            &&& a != free ==> after.attachments[a] == db.attachments[a]
            &&& version.attachments.contains_key(name)
            &&& version.attachments[name] == free
            &&& other != name ==> version.attachments.contains_key(other)
                == (before.attachments.contains_key(other) && !replaced)
            &&& other != name && version.attachments.contains_key(other)
                ==> version.attachments[other] == before.attachments[other]
            &&& version.id == before.id
            &&& version.parent == before.parent
            &&& version.fields == before.fields
            &&& version.autotype == before.autotype
            &&& version.tags == before.tags
            &&& version.times == before.times
            &&& version.custom_data == before.custom_data
            &&& version.icon == before.icon
            &&& version.foreground_color == before.foreground_color
            &&& version.background_color == before.background_color
            &&& version.override_url == before.override_url
            &&& version.quality_check == before.quality_check
            &&& version.previous_parent_group == before.previous_parent_group
            &&& version.history == before.history
            &&& v.index is Some ==> {
                &&& entry.history is Some
                &&& entry.history->0.len() == ours.history->0.len()
                &&& 0 <= i < ours.history->0.len() && i != v.index->0 ==> entry.history->0[i]
                    == ours.history->0[i]
                &&& entry.id == ours.id
                &&& entry.parent == ours.parent
                &&& entry.fields == ours.fields
                &&& entry.autotype == ours.autotype
                &&& entry.tags == ours.tags
                &&& entry.times == ours.times
                &&& entry.custom_data == ours.custom_data
                &&& entry.icon == ours.icon
                &&& entry.foreground_color == ours.foreground_color
                &&& entry.background_color == ours.background_color
                &&& entry.override_url == ours.override_url
                &&& entry.quality_check == ours.quality_check
                &&& entry.attachments == ours.attachments
                &&& entry.previous_parent_group == ours.previous_parent_group
            }
            &&& after.entries.dom() =~= db.entries.dom()
            &&& e != v.entry ==> after.entries[e] == db.entries[e]
            &&& after.config == db.config
            &&& after.meta == db.meta
            &&& after.root == db.root
            &&& after.custom_icons == db.custom_icons
            &&& after.groups == db.groups
            &&& after.deleted_objects == db.deleted_objects
        }),
{
    attachment::lemma_least_free(db.attachments, free);
}

/// A new custom icon is there, with its data, the time of its making and no name, and the version
/// shows it; nothing else changes.
pub proof fn creating_an_icon_keeps_the_rest(
    db: DatabaseModel,
    v: VersionModel,
    id: CustomIconId,
    data: Seq<u8>,
    now: Timestamp,
    other: CustomIconId,
    e: EntryId,
    i: int,
)
    requires
        db.entries.contains_key(v.entry),
        v.index is Some ==> db.entries[v.entry].history is Some && 0 <= v.index->0
            < db.entries[v.entry].history->0.len(),
    ensures
        ({
            let after = entry_handles::icon_created(
                db,
                v,
                entry_handles::fresh_icon(id, data, now),
            );
            let ours = db.entries[v.entry];
            let entry = after.entries[v.entry];
            let before = match v.index {
                None => ours,
                Some(k) => ours.history->0[k],
            };
            let version = match v.index {
                None => entry,
                Some(k) => entry.history->0[k],
            };
            &&& after.custom_icons.contains_key(id)
            &&& after.custom_icons[id].id == id
            &&& after.custom_icons[id].data == data
            &&& after.custom_icons[id].last_modification_time == Some(now)
            &&& after.custom_icons[id].name is None
            &&& after.custom_icons[id].groups =~= Set::empty()
            &&& other != id ==> after.custom_icons.contains_key(other)
                == db.custom_icons.contains_key(other)
            &&& other != id ==> after.custom_icons[other] == db.custom_icons[other]
            &&& version.icon == Some(Icon::Custom(id))
            &&& version.id == before.id
            &&& version.parent == before.parent
            &&& version.fields == before.fields
            &&& version.autotype == before.autotype
            &&& version.tags == before.tags
            &&& version.times == before.times
            &&& version.custom_data == before.custom_data
            &&& version.foreground_color == before.foreground_color
            &&& version.background_color == before.background_color
            &&& version.override_url == before.override_url
            &&& version.quality_check == before.quality_check
            &&& version.attachments == before.attachments
            &&& version.previous_parent_group == before.previous_parent_group
            &&& version.history == before.history
            &&& v.index is Some ==> {
                &&& entry.history is Some
                &&& entry.history->0.len() == ours.history->0.len()
                &&& 0 <= i < ours.history->0.len() && i != v.index->0 ==> entry.history->0[i]
                    == ours.history->0[i]
                &&& entry.id == ours.id
                &&& entry.parent == ours.parent
                &&& entry.fields == ours.fields
                &&& entry.autotype == ours.autotype
                &&& entry.tags == ours.tags
                &&& entry.times == ours.times
                &&& entry.custom_data == ours.custom_data
                &&& entry.icon == ours.icon
                &&& entry.foreground_color == ours.foreground_color
                &&& entry.background_color == ours.background_color
                &&& entry.override_url == ours.override_url
                &&& entry.quality_check == ours.quality_check
                &&& entry.attachments == ours.attachments
                &&& entry.previous_parent_group == ours.previous_parent_group
            }
            &&& after.entries.dom() =~= db.entries.dom()
            &&& e != v.entry ==> after.entries[e] == db.entries[e]
            &&& after.config == db.config
            &&& after.meta == db.meta
            &&& after.root == db.root
            &&& after.attachments == db.attachments
            &&& after.groups == db.groups
            &&& after.deleted_objects == db.deleted_objects
        }),
{
}

/// When the tracking of changes ends, what the entry was before is the latest version of its
/// history, without a history of its own; the older versions follow as they were. Nothing else
/// changes, and nothing at all if the entry is gone.
pub proof fn tracking_adds_one_version(
    db: DatabaseModel,
    id: EntryId,
    historical: EntryModel,
    e: EntryId,
    i: int,
)
    ensures
        ({
            let after = entry_handles::tracking_finished(db, id, historical);
            let ours = db.entries[id];
            let entry = after.entries[id];
            let count: int = if ours.history is Some {
                ours.history->0.len() as int
            } else {
                0
            };
            &&& db.entries.contains_key(id) ==> {
                &&& entry.history is Some
                &&& entry.history->0.len() == count + 1
                &&& entry.history->0[0].history is None
                &&& entry.history->0[0].id == historical.id
                &&& entry.history->0[0].parent == historical.parent
                &&& entry.history->0[0].fields == historical.fields
                &&& entry.history->0[0].autotype == historical.autotype
                &&& entry.history->0[0].tags == historical.tags
                &&& entry.history->0[0].times == historical.times
                &&& entry.history->0[0].custom_data == historical.custom_data
                &&& entry.history->0[0].icon == historical.icon
                &&& entry.history->0[0].foreground_color == historical.foreground_color
                &&& entry.history->0[0].background_color == historical.background_color
                &&& entry.history->0[0].override_url == historical.override_url
                &&& entry.history->0[0].quality_check == historical.quality_check
                &&& entry.history->0[0].attachments == historical.attachments
                &&& entry.history->0[0].previous_parent_group == historical.previous_parent_group
                &&& 0 <= i < count ==> entry.history->0[i + 1] == ours.history->0[i]
                &&& entry.id == ours.id
                &&& entry.parent == ours.parent
                &&& entry.fields == ours.fields
                &&& entry.autotype == ours.autotype
                &&& entry.tags == ours.tags
                &&& entry.times == ours.times
                &&& entry.custom_data == ours.custom_data
                &&& entry.icon == ours.icon
                &&& entry.foreground_color == ours.foreground_color
                &&& entry.background_color == ours.background_color
                &&& entry.override_url == ours.override_url
                &&& entry.quality_check == ours.quality_check
                &&& entry.attachments == ours.attachments
                &&& entry.previous_parent_group == ours.previous_parent_group
            }
            &&& after.entries.dom() =~= db.entries.dom()
            &&& e != id || !db.entries.contains_key(id) ==> after.entries[e] == db.entries[e]
            &&& after.config == db.config
            &&& after.meta == db.meta
            &&& after.root == db.root
            &&& after.attachments == db.attachments
            &&& after.custom_icons == db.custom_icons
            &&& after.groups == db.groups
            &&& after.deleted_objects == db.deleted_objects
        }),
{
}

/// A history with one more version has it, without a history of its own, in front of all others.
pub proof fn new_version_comes_first(history: Seq<EntryModel>, version: EntryModel, i: int)
    ensures
        ({
            let after = entry::with_version(history, version);
            &&& after.len() == history.len() + 1
            &&& after[0].history is None
            &&& after[0].id == version.id
            &&& after[0].parent == version.parent
            &&& after[0].fields == version.fields
            &&& after[0].autotype == version.autotype
            &&& after[0].tags == version.tags
            &&& after[0].times == version.times
            &&& after[0].custom_data == version.custom_data
            &&& after[0].icon == version.icon
            &&& after[0].foreground_color == version.foreground_color
            &&& after[0].background_color == version.background_color
            &&& after[0].override_url == version.override_url
            &&& after[0].quality_check == version.quality_check
            &&& after[0].attachments == version.attachments
            &&& after[0].previous_parent_group == version.previous_parent_group
            &&& 0 <= i < history.len() ==> after[i + 1] == history[i]
        }),
{
}

/// Deleting an entry removes it and notes the time; no other deletion is touched.
pub proof fn deletion_of_an_entry_is_noted(
    db: DatabaseModel,
    id: EntryId,
    now: Timestamp,
    other: Uuid,
    e: EntryId,
)
    ensures
        ({
            let after = entry_handles::entry_deleted(db, id, now);
            &&& after.deleted_objects.contains_key(id.0)
            &&& after.deleted_objects[id.0] == Some(now)
            &&& other != id.0 ==> after.deleted_objects.contains_key(other)
                == db.deleted_objects.contains_key(other)
            &&& other != id.0 ==> after.deleted_objects[other] == db.deleted_objects[other]
            &&& after.entries.contains_key(e) <==> db.entries.contains_key(e) && e != id
            &&& after.entries.contains_key(e) ==> after.entries[e] == db.entries[e]
            &&& after == (DatabaseModel {
                deleted_objects: after.deleted_objects,
                ..removal::entries_removed(db, Set::empty().insert(id))
            })
        }),
{
}

/// Deleting a group notes the time for each group and each entry that goes with it, and for no
/// other object.
pub proof fn deletion_of_a_group_is_noted(
    db: DatabaseModel,
    top: GroupId,
    now: Timestamp,
    object: Uuid,
)
    requires
        db.wf(),
        db.groups.contains_key(top),
        top != db.root,
    ensures
        ({
            let after = group_handles::group_deleted(db, top, now);
            let goes = {
                ||| db.groups.contains_key(GroupId(object)) && tree::in_subtree(
                    db.groups,
                    GroupId(object),
                    top,
                )
                ||| db.entries.contains_key(EntryId(object)) && tree::in_subtree(
                    db.groups,
                    db.entries[EntryId(object)].parent,
                    top,
                )
            };
            &&& after.deleted_objects.contains_key(object) <==> goes
                || db.deleted_objects.contains_key(object)
            &&& goes ==> after.deleted_objects[object] == Some(now)
            &&& !goes && db.deleted_objects.contains_key(object) ==> after.deleted_objects[object]
                == db.deleted_objects[object]
            &&& after == (DatabaseModel {
                deleted_objects: after.deleted_objects,
                ..removal::group_removed(db, top)
            })
        }),
{
}

/// Data that is put into a pool is there under the identifier that it gets. Data that the pool had
/// is not stored twice: it gets an identifier that had it, the least one, and the pool stays. New
/// data gets the least free identifier, and everything else stays.
pub proof fn data_is_stored_once(
    pool: Pool,
    data: Value<Seq<u8>>,
    id: AttachmentId,
    a: AttachmentId,
)
    ensures
        ({
            &&& pool.contains_key(id)
            &&& pool[id].data == data
            &&& forall|lesser: AttachmentId| lesser.0 < id.0 && #[trigger]
                pool.contains_key(lesser) ==> pool[lesser].data != data
        }) ==> {
            &&& attachment::interned_id(pool, data) == id
            &&& attachment::interned(pool, data) == pool
        },
        ({
            &&& forall|x: AttachmentId| #[trigger] pool.contains_key(x) ==> pool[x].data != data
            &&& !pool.contains_key(id)
            &&& forall|lesser: AttachmentId|
                lesser.0 < id.0 ==> #[trigger] pool.contains_key(lesser)
        }) ==> {
            let after = attachment::interned(pool, data);
            &&& attachment::interned_id(pool, data) == id
            &&& after.contains_key(id)
            &&& after[id].id == id
            &&& after[id].data == data
            &&& a != id ==> after.contains_key(a) == pool.contains_key(a)
            &&& a != id ==> after[a] == pool[a]
        },
{
    if pool.contains_key(id) && pool[id].data == data && forall|lesser: AttachmentId| lesser.0
        < id.0 && #[trigger] pool.contains_key(lesser) ==> pool[lesser].data != data {
        assert forall|other: AttachmentId| other.0 < id.0 implies !#[trigger] attachment::holds(
            pool,
            other,
            data,
        ) by {
            if pool.contains_key(other) {
                assert(pool[other].data != data);
            }
        }
        attachment::lemma_least_holding(pool, data, id);
    }
    if (forall|x: AttachmentId| #[trigger] pool.contains_key(x) ==> pool[x].data != data)
        && !pool.contains_key(id) && (forall|lesser: AttachmentId|
        lesser.0 < id.0 ==> #[trigger] pool.contains_key(lesser)) {
        attachment::lemma_least_free(pool, id);
        assert forall|x: AttachmentId| !#[trigger] attachment::holds(pool, x, data) by {
            if pool.contains_key(x) {
                assert(pool[x].data != data);
            }
        }
    }
}

/// What is created now has all its timestamps set to now, does not expire and was never used.
pub proof fn timestamps_of_new_objects(now: Timestamp)
    ensures
        ({
            let times = Times::fresh(now);
            &&& times.creation == Some(now)
            &&& times.last_modification == Some(now)
            &&& times.last_access == Some(now)
            &&& times.expiry == Some(now)
            &&& times.location_changed == Some(now)
            &&& times.expires == Some(false)
            &&& times.usage_count == Some(0usize)
        }),
{
}

/// An object was last updated when it was last modified; only where this is not known, the time of
/// its last move counts.
pub proof fn last_update_of_an_object(times: Times)
    ensures
        times.last_modification is Some ==> times.updated() == times.last_modification,
        times.last_modification is None ==> times.updated() == times.location_changed,
{
}

/// A new entry has no content but a quality check that is on, and an empty history.
pub proof fn new_entries_are_blank(id: EntryId, parent: GroupId, times: Times)
    ensures
        ({
            let entry = EntryModel::fresh(id, parent, times);
            &&& entry.id == id
            &&& entry.parent == parent
            &&& entry.times == times
            &&& entry.fields =~= Map::empty()
            &&& entry.autotype is None
            &&& entry.tags.len() == 0
            &&& entry.custom_data =~= Map::empty()
            &&& entry.icon is None
            &&& entry.foreground_color is None
            &&& entry.background_color is None
            &&& entry.override_url is None
            &&& entry.quality_check
            &&& entry.attachments =~= Map::empty()
            &&& entry.previous_parent_group is None
            &&& entry.history is Some
            &&& entry.history->0.len() == 0
        }),
{
}

/// A new group has no name, no content and no children.
pub proof fn new_groups_are_blank(id: GroupId, parent: Option<GroupId>, times: Times)
    ensures
        ({
            let group = GroupModel::fresh(id, parent, times);
            &&& group.id == id
            &&& group.parent == parent
            &&& group.times == times
            &&& group.name.len() == 0
            &&& group.notes is None
            &&& group.icon is None
            &&& group.custom_data =~= Map::empty()
            &&& !group.is_expanded
            &&& group.default_autotype_sequence is None
            &&& group.enable_autotype is None
            &&& group.enable_searching is None
            &&& group.last_top_visible_entry is None
            &&& group.entries =~= Set::empty()
            &&& group.groups =~= Set::empty()
            &&& group.previous_parent_group is None
        }),
{
}

/// A new database has a root group and nothing else.
pub proof fn new_databases_are_empty(config: DatabaseConfig, root: GroupId, times: Times)
    ensures
        ({
            let db = DatabaseModel::initial(config, root, times);
            &&& db.config == config
            &&& db.meta.recyclebin_uuid is None
            &&& db.root == root
            &&& db.groups.dom() =~= Set::empty().insert(root)
            &&& db.groups[root] == GroupModel::fresh(root, None, times)
            &&& db.entries =~= Map::empty()
            &&& db.attachments =~= Map::empty()
            &&& db.custom_icons =~= Map::empty()
            &&& db.deleted_objects =~= Map::empty()
        }),
        DatabaseConfig::initial().outer_cipher == OuterCipher::Aes256,
        DatabaseConfig::initial().compression == Compression::GZip,
{
}

/// An object that only the source has comes back exactly if the destination did not delete it, or
/// if it was updated, as far as is known after the deletion. One that only the destination has goes
/// exactly if the source deleted it and it is not known to have been updated after that.
pub proof fn deletions_and_updates_are_weighed(
    deleted: Tombstones,
    object: Uuid,
    updated: Option<Timestamp>,
)
    ensures
        rules::revived(deleted, object, updated) <==> {
            ||| !deleted.contains_key(object)
            ||| updated is Some && deleted[object] is None
            ||| updated is Some && deleted[object] is Some && deleted[object]->0.before(updated->0)
        },
        rules::buried(deleted, object, updated) <==> {
            &&& deleted.contains_key(object)
            &&& !(updated is Some && deleted[object] is Some && deleted[object]->0.before(
                updated->0,
            ))
        },
{
}

/// A side changed since the common ancestor unless the ancestor's time is known and not before its
/// own.
pub proof fn changes_are_told_by_time(base: Option<Timestamp>, modified: Timestamp)
    ensures
        rules::changed_since(base, modified) <==> (base is None || base->0.before(modified)),
{
}

/// What a value holds does not depend on its protection.
pub proof fn protection_changes_no_content(inner: Seq<char>)
    ensures
        Value::Protected(inner).content() == inner,
        Value::Unprotected(inner).content() == inner,
{
}

/// The number that decimal digits stand for.
pub open spec fn number_of(digits: Seq<char>) -> int
    decreases digits.len(),
{
    if digits.len() == 0 {
        0
    } else {
        10 * number_of(digits.drop_last()) + (digits.last() as int - '0' as int)
    }
}

/// The decimal text of a number consists of digits, stands for that number, and has no leading
/// zero but for zero itself.
pub proof fn decimal_text_stands_for_the_number(n: nat, i: int)
    ensures
        number_of(ids::decimal(n)) == n,
        ids::decimal(n).len() > 0,
        0 <= i < ids::decimal(n).len() ==> '0' <= ids::decimal(n)[i] <= '9',
        n > 0 ==> ids::decimal(n)[0] != '0',
    decreases n,
{
    let digits = ids::decimal(n);
    reveal_with_fuel(number_of, 2);
    if n >= 10 {
        decimal_text_stands_for_the_number(n / 10, i);
        decimal_text_stands_for_the_number(n / 10, 0);
        assert(digits.drop_last() =~= ids::decimal(n / 10));
        assert(digits[0] == ids::decimal(n / 10)[0]);
    } else {
        assert(digits.drop_last() =~= Seq::empty());
    }
}

/// Dropping the names for an attachment leaves the others, each for what it stood for.
pub proof fn dropping_names_leaves_the_others(names: Names, a: AttachmentId)
    ensures
        left_without(entry_handles::names_without(names, a), names, a),
{
}

/// Moving an entry sets its parent and the parent before; noting the time of the move sets that
/// time; setting the history aside leaves everything else.
pub proof fn small_changes_of_entries(entry: EntryModel, to: GroupId, time: Option<Timestamp>)
    ensures
        ({
            let after = entry.moved_to(to);
            &&& after.parent == to
            &&& after.previous_parent_group == Some(entry.parent)
            &&& after.id == entry.id
            &&& after.fields == entry.fields
            &&& after.autotype == entry.autotype
            &&& after.tags == entry.tags
            &&& after.times == entry.times
            &&& after.custom_data == entry.custom_data
            &&& after.icon == entry.icon
            &&& after.foreground_color == entry.foreground_color
            &&& after.background_color == entry.background_color
            &&& after.override_url == entry.override_url
            &&& after.quality_check == entry.quality_check
            &&& after.attachments == entry.attachments
            &&& after.history == entry.history
        }),
        ({
            let after = entry.relocated_at(time);
            &&& after.times.location_changed == time
            &&& after.times.creation == entry.times.creation
            &&& after.times.last_modification == entry.times.last_modification
            &&& after.times.last_access == entry.times.last_access
            &&& after.times.expiry == entry.times.expiry
            &&& after.times.expires == entry.times.expires
            &&& after.times.usage_count == entry.times.usage_count
            &&& after.id == entry.id
            &&& after.parent == entry.parent
            &&& after.fields == entry.fields
            &&& after.autotype == entry.autotype
            &&& after.tags == entry.tags
            &&& after.custom_data == entry.custom_data
            &&& after.icon == entry.icon
            &&& after.foreground_color == entry.foreground_color
            &&& after.background_color == entry.background_color
            &&& after.override_url == entry.override_url
            &&& after.quality_check == entry.quality_check
            &&& after.attachments == entry.attachments
            &&& after.previous_parent_group == entry.previous_parent_group
            &&& after.history == entry.history
        }),
        ({
            let after = entry.without_history();
            &&& after.history is None
            &&& after.id == entry.id
            &&& after.parent == entry.parent
            &&& after.fields == entry.fields
            &&& after.autotype == entry.autotype
            &&& after.tags == entry.tags
            &&& after.times == entry.times
            &&& after.custom_data == entry.custom_data
            &&& after.icon == entry.icon
            &&& after.foreground_color == entry.foreground_color
            &&& after.background_color == entry.background_color
            &&& after.override_url == entry.override_url
            &&& after.quality_check == entry.quality_check
            &&& after.attachments == entry.attachments
            &&& after.previous_parent_group == entry.previous_parent_group
        }),
{
}

/// Noting the time of a group's move sets that time and nothing else.
pub proof fn noting_a_move_changes_nothing_else(group: GroupModel, time: Timestamp)
    ensures
        ({
            let after = groups::relocated_at(group, time);
            &&& after.times.location_changed == Some(time)
            &&& after.times.creation == group.times.creation
            &&& after.times.last_modification == group.times.last_modification
            &&& after.times.last_access == group.times.last_access
            &&& after.times.expiry == group.times.expiry
            &&& after.times.expires == group.times.expires
            &&& after.times.usage_count == group.times.usage_count
            &&& after.id == group.id
            &&& after.name == group.name
            &&& after.notes == group.notes
            &&& after.icon == group.icon
            &&& after.custom_data == group.custom_data
            &&& after.is_expanded == group.is_expanded
            &&& after.default_autotype_sequence == group.default_autotype_sequence
            &&& after.enable_autotype == group.enable_autotype
            &&& after.enable_searching == group.enable_searching
            &&& after.last_top_visible_entry == group.last_top_visible_entry
            &&& after.entries == group.entries
            &&& after.groups == group.groups
            &&& after.parent == group.parent
            &&& after.previous_parent_group == group.previous_parent_group
        }),
{
}

} // verus!
