//! Groups.

use vstd::prelude::*;
use crate::content::Content;
use crate::icon::Icon;
use crate::ids::EntryId;
use crate::ids::GroupId;
use crate::sorted_map::SortedMap;
use crate::sorted_set::SortedSet;
use crate::text;
use crate::times::Times;
use crate::times::Timestamp;
use crate::value::CustomDataItem;
use crate::value::CustomDataItemModel;

verus! {

/// A group of entries and other groups.
#[derive(Debug, PartialEq, Eq)]
pub struct Group {
    /// The identifier of the group.
    pub id: GroupId,
    /// The name of the group.
    pub name: String,
    /// Notes on the group.
    pub notes: Option<String>,
    /// The icon of the group.
    pub icon: Option<Icon>,
    /// Custom data items of the group.
    pub custom_data: SortedMap<String, CustomDataItem>,
    /// Timestamps of the group.
    pub times: Times,
    /// Whether the group is shown expanded.
    pub is_expanded: bool,
    /// The sequence that auto-type types by default.
    pub default_autotype_sequence: Option<String>,
    /// Whether auto-type is on for the entries of the group.
    pub enable_autotype: Option<bool>,
    /// Whether the entries of the group are searched.
    pub enable_searching: Option<bool>,
    /// The entry that is shown at the top.
    pub last_top_visible_entry: Option<EntryId>,
    /// The entries in the group.
    pub entries: SortedSet<EntryId>,
    /// The groups in the group.
    pub groups: SortedSet<GroupId>,
    /// The group that holds the group; the root group has none.
    pub parent: Option<GroupId>,
    /// The group that held the group before.
    pub previous_parent_group: Option<GroupId>,
}

/// What a [Group] holds.
#[verifier::ext_equal]
pub struct GroupModel {
    /// The identifier of the group.
    pub id: GroupId,
    /// The name of the group.
    pub name: Seq<char>,
    /// Notes on the group.
    pub notes: Option<Seq<char>>,
    /// The icon of the group.
    pub icon: Option<Icon>,
    /// Custom data items of the group.
    pub custom_data: Map<Seq<char>, CustomDataItemModel>,
    /// Timestamps of the group.
    pub times: Times,
    /// Whether the group is shown expanded.
    pub is_expanded: bool,
    /// The sequence that auto-type types by default.
    pub default_autotype_sequence: Option<Seq<char>>,
    /// Whether auto-type is on for the entries of the group.
    pub enable_autotype: Option<bool>,
    /// Whether the entries of the group are searched.
    pub enable_searching: Option<bool>,
    /// The entry that is shown at the top.
    pub last_top_visible_entry: Option<EntryId>,
    /// The entries in the group.
    pub entries: Set<EntryId>,
    /// The groups in the group.
    pub groups: Set<GroupId>,
    /// The group that holds the group.
    pub parent: Option<GroupId>,
    /// The group that held the group before.
    pub previous_parent_group: Option<GroupId>,
}

impl DeepView for Group {
    type V = GroupModel;

    open spec fn deep_view(&self) -> GroupModel {
        GroupModel {
            id: self.id,
            name: self.name.deep_view(),
            notes: self.notes.deep_view(),
            icon: self.icon,
            custom_data: self.custom_data.deep_view(),
            times: self.times,
            is_expanded: self.is_expanded,
            default_autotype_sequence: self.default_autotype_sequence.deep_view(),
            enable_autotype: self.enable_autotype,
            enable_searching: self.enable_searching,
            last_top_visible_entry: self.last_top_visible_entry,
            entries: self.entries.deep_view(),
            groups: self.groups.deep_view(),
            parent: self.parent,
            previous_parent_group: self.previous_parent_group,
        }
    }
}

impl GroupModel {
    /// What makes up the content of a group: everything but its timestamps, its place in the tree
    /// and what stands below it.
    pub open spec fn content(self) -> GroupModel {
        GroupModel {
            times: Times::blank(),
            entries: Set::empty(),
            groups: Set::empty(),
            parent: None,
            previous_parent_group: None,
            ..self
        }
    }

    /// A new group.
    pub open spec fn fresh(id: GroupId, parent: Option<GroupId>, times: Times) -> GroupModel {
        GroupModel {
            id,
            name: Seq::empty(),
            notes: None,
            icon: None,
            custom_data: Map::empty(),
            times,
            is_expanded: false,
            default_autotype_sequence: None,
            enable_autotype: None,
            enable_searching: None,
            last_top_visible_entry: None,
            entries: Set::empty(),
            groups: Set::empty(),
            parent,
            previous_parent_group: None,
        }
    }

    /// The group with the content of another, and with its modification time where it has one.
    /// Place and children stay.
    pub open spec fn overwritten_by(self, source: GroupModel) -> GroupModel {
        GroupModel {
            name: source.name,
            notes: source.notes,
            icon: source.icon,
            custom_data: source.custom_data,
            times: Times {
                last_modification: if source.times.last_modification is Some {
                    source.times.last_modification
                } else {
                    self.times.last_modification
                },
                ..self.times
            },
            is_expanded: source.is_expanded,
            default_autotype_sequence: source.default_autotype_sequence,
            enable_autotype: source.enable_autotype,
            enable_searching: source.enable_searching,
            last_top_visible_entry: source.last_top_visible_entry,
            ..self
        }
    }
}

impl Content for Group {
    fn duplicate(&self) -> (result: Self) {
        Group {
            id: self.id,
            name: self.name.duplicate(),
            notes: self.notes.duplicate(),
            icon: self.icon,
            custom_data: self.custom_data.duplicate(),
            times: self.times,
            is_expanded: self.is_expanded,
            default_autotype_sequence: self.default_autotype_sequence.duplicate(),
            enable_autotype: self.enable_autotype,
            enable_searching: self.enable_searching,
            last_top_visible_entry: self.last_top_visible_entry,
            entries: self.entries.duplicate(),
            groups: self.groups.duplicate(),
            parent: self.parent,
            previous_parent_group: self.previous_parent_group,
        }
    }

    fn same_as(&self, other: &Self) -> (result: bool) {
        let same = !have_groups_diverged(self, other) && self.times.same_as(&other.times)
            && self.entries.same_as(&other.entries) && self.groups.same_as(&other.groups)
            && self.parent.same_as(&other.parent) && self.previous_parent_group.same_as(
            &other.previous_parent_group,
        );
        proof {
            let a = self.deep_view();
            let b = other.deep_view();
            assert(a.content().id == a.id && b.content().id == b.id);
            if same {
                assert(a =~= b);
            }
        }
        same
    }
}

impl Clone for Group {
    fn clone(&self) -> (result: Self)
        ensures
            result.deep_view() == self.deep_view(),
    {
        self.duplicate()
    }
}

/// Whether two groups differ in content. Timestamps, children, the parent and the previous parent
/// do not count: a group that was only moved has not diverged.
pub fn have_groups_diverged(a: &Group, b: &Group) -> (result: bool)
    ensures
        result == (a.deep_view().content() != b.deep_view().content()),
        !result <==> {
            &&& a.id == b.id
            &&& a.deep_view().name == b.deep_view().name
            &&& a.deep_view().notes == b.deep_view().notes
            &&& a.deep_view().icon == b.deep_view().icon
            &&& a.deep_view().custom_data == b.deep_view().custom_data
            &&& a.deep_view().is_expanded == b.deep_view().is_expanded
            &&& a.deep_view().default_autotype_sequence == b.deep_view().default_autotype_sequence
            &&& a.deep_view().enable_autotype == b.deep_view().enable_autotype
            &&& a.deep_view().enable_searching == b.deep_view().enable_searching
            &&& a.deep_view().last_top_visible_entry == b.deep_view().last_top_visible_entry
        },
{
    let same = a.id == b.id && a.name.same_as(&b.name) && a.notes.same_as(&b.notes)
        && a.icon.same_as(&b.icon) && a.custom_data.same_as(&b.custom_data) && a.is_expanded
        == b.is_expanded && a.default_autotype_sequence.same_as(&b.default_autotype_sequence)
        && a.enable_autotype.same_as(&b.enable_autotype) && a.enable_searching.same_as(
        &b.enable_searching,
    ) && a.last_top_visible_entry.same_as(&b.last_top_visible_entry);
    !same
}

/// Overwrite `dest`'s content fields from `source`. Location and child membership are not
/// touched.
pub fn overwrite_group_fields(dest: &mut Group, source: &Group)
    ensures
        final(dest).deep_view() == old(dest).deep_view().overwritten_by(source.deep_view()),
        final(dest).deep_view().name == source.deep_view().name,
        final(dest).deep_view().notes == source.deep_view().notes,
        final(dest).deep_view().icon == source.deep_view().icon,
        final(dest).deep_view().custom_data == source.deep_view().custom_data,
        final(dest).deep_view().is_expanded == source.deep_view().is_expanded,
        final(dest).deep_view().default_autotype_sequence == source.deep_view().default_autotype_sequence,
        final(dest).deep_view().enable_autotype == source.deep_view().enable_autotype,
        final(dest).deep_view().enable_searching == source.deep_view().enable_searching,
        final(dest).deep_view().last_top_visible_entry == source.deep_view().last_top_visible_entry,
        final(dest).times.last_modification == if source.times.last_modification is Some {
            source.times.last_modification
        } else {
            old(dest).times.last_modification
        },
        final(dest).times.creation == old(dest).times.creation,
        final(dest).times.last_access == old(dest).times.last_access,
        final(dest).times.expiry == old(dest).times.expiry,
        final(dest).times.location_changed == old(dest).times.location_changed,
        final(dest).times.expires == old(dest).times.expires,
        final(dest).times.usage_count == old(dest).times.usage_count,
        final(dest).id == old(dest).id,
        final(dest).parent == old(dest).parent,
        final(dest).previous_parent_group == old(dest).previous_parent_group,
        final(dest).deep_view().entries == old(dest).deep_view().entries,
        final(dest).deep_view().groups == old(dest).deep_view().groups,
{
    dest.name = source.name.duplicate();
    dest.notes = source.notes.duplicate();
    dest.icon = source.icon;
    dest.custom_data = source.custom_data.duplicate();
    if source.times.last_modification.is_some() {
        dest.times.last_modification = source.times.last_modification;
    }
    dest.is_expanded = source.is_expanded;
    dest.default_autotype_sequence = source.default_autotype_sequence.duplicate();
    dest.enable_autotype = source.enable_autotype;
    dest.enable_searching = source.enable_searching;
    dest.last_top_visible_entry = source.last_top_visible_entry;
}

impl Group {
    /// A new group with the given identifier.
    pub fn with_id(id: GroupId, parent: Option<GroupId>) -> (result: Group)
        ensures
            exists|now: Timestamp|
                now.is_reading() && #[trigger] GroupModel::fresh(id, parent, Times::fresh(now)) == result.deep_view(),
    {
        let times = Times::new();
        let result = Group::with_times(id, parent, times);
        proof {
            let now = choose|now: Timestamp|
                now.is_reading() && #[trigger] Times::fresh(now) == times;
            assert(result.deep_view() == GroupModel::fresh(id, parent, Times::fresh(now)));
        }
        result
    }

    /// A new group with the given identifier and timestamps.
    pub(crate) fn with_times(id: GroupId, parent: Option<GroupId>, times: Times) -> (result: Group)
        ensures
            result.deep_view() == GroupModel::fresh(id, parent, times),
    {
        let name = String::new();
        proof {
            assert(name@ =~= Seq::<char>::empty());
        }
        Group {
            id,
            name,
            notes: None,
            icon: None,
            custom_data: SortedMap::new(),
            times,
            is_expanded: false,
            default_autotype_sequence: None,
            enable_autotype: None,
            enable_searching: None,
            last_top_visible_entry: None,
            entries: SortedSet::new(),
            groups: SortedSet::new(),
            parent,
            previous_parent_group: None,
        }
    }

    /// Get the unique identifier for the [Group]
    pub fn id(&self) -> (result: GroupId)
        ensures
            result == self.id,
    {
        self.id
    }
}

/// Error type for when an entry is added under an identifier that is taken.
#[derive(Debug, Clone, Copy, PartialEq, Eq, Structural)]
pub struct DuplicateEntryIdError(pub EntryId);

/// Error type for when a group is added under an identifier that is taken.
#[derive(Debug, Clone, Copy, PartialEq, Eq, Structural)]
pub struct DuplicateGroupIdError(pub GroupId);

/// Why a group could not be moved.
#[derive(Debug, Clone, Copy, PartialEq, Eq, Structural)]
pub enum MoveGroupError {
    /// The root group has no place to be moved from.
    CannotMoveRoot(GroupId),
    /// The group to move to is not in the database.
    DestinationNotFound(GroupId),
    /// The group to move to is the group itself or stands below it.
    WouldCreateCycle(GroupId, GroupId),
}

impl MoveGroupError {
    /// What the message of the error says.
    pub open spec fn spec_message(self) -> Seq<char> {
        match self {
            MoveGroupError::CannotMoveRoot(id) => "Cannot move root group "@
                + crate::ids::hyphenated(id.0.0),
            MoveGroupError::DestinationNotFound(id) => "Destination group "@
                + crate::ids::hyphenated(id.0.0) + " not found"@,
            MoveGroupError::WouldCreateCycle(id, to) => "Cannot move group "@
                + crate::ids::hyphenated(id.0.0) + " into its own subgroup "@
                + crate::ids::hyphenated(to.0.0),
        }
    }

    /// The message of the error.
    pub fn message(&self) -> (result: String)
        ensures
            result@ == self.spec_message(),
    {
        match self {
            MoveGroupError::CannotMoveRoot(id) => text::join(
                "Cannot move root group ",
                id.text().as_str(),
            ),
            MoveGroupError::DestinationNotFound(id) => text::join3(
                "Destination group ",
                id.text().as_str(),
                " not found",
            ),
            MoveGroupError::WouldCreateCycle(id, to) => text::join(
                text::join3(
                    "Cannot move group ",
                    id.text().as_str(),
                    " into its own subgroup ",
                ).as_str(),
                to.text().as_str(),
            ),
        }
    }
}

/// Error type for when a destination [GroupId] is provided that does not exist in the database
#[derive(Debug, Clone, Copy, PartialEq, Eq, Structural)]
pub struct DestinationGroupNotFoundError(pub GroupId);

impl DestinationGroupNotFoundError {
    /// The message of the error.
    pub fn message(&self) -> (result: String)
        ensures
            result@ == "Destination group "@ + crate::ids::hyphenated(self.0.0.0) + " not found"@,
    {
        text::join3("Destination group ", self.0.text().as_str(), " not found")
    }
}

} // verus!
