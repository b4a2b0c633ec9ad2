//! Icons of entries and groups.

use vstd::prelude::*;
use crate::content::Content;
use crate::ids::CustomIconId;
use crate::ids::GroupId;
use crate::sorted_set::SortedSet;
use crate::text;
use crate::times::Timestamp;

verus! {

/// The icon of an entry or a group.
#[derive(Debug, Clone, Copy, PartialEq, Eq, Structural)]
pub enum Icon {
    /// An icon that comes with the program, by its number.
    BuiltIn(usize),
    /// An icon that is stored in the database.
    Custom(CustomIconId),
}

impl DeepView for Icon {
    type V = Icon;

    open spec fn deep_view(&self) -> Icon {
        *self
    }
}

impl Content for Icon {
    fn duplicate(&self) -> (result: Self) {
        *self
    }

    fn same_as(&self, other: &Self) -> (result: bool) {
        *self == *other
    }
}

/// An icon that is stored in the database.
#[derive(Debug, PartialEq, Eq)]
pub struct CustomIcon {
    /// The identifier of the icon.
    pub id: CustomIconId,
    /// The groups that were given the icon.
    pub groups: SortedSet<GroupId>,
    /// The name of the icon.
    pub name: Option<String>,
    /// When the icon was last changed.
    pub last_modification_time: Option<Timestamp>,
    /// The image.
    pub data: Vec<u8>,
}

/// What a [CustomIcon] holds.
#[verifier::ext_equal]
pub struct CustomIconModel {
    /// The identifier of the icon.
    pub id: CustomIconId,
    /// The groups that were given the icon.
    pub groups: Set<GroupId>,
    /// The name of the icon.
    pub name: Option<Seq<char>>,
    /// When the icon was last changed.
    pub last_modification_time: Option<Timestamp>,
    /// The image.
    pub data: Seq<u8>,
}

impl DeepView for CustomIcon {
    type V = CustomIconModel;

    open spec fn deep_view(&self) -> CustomIconModel {
        CustomIconModel {
            id: self.id,
            groups: self.groups.deep_view(),
            name: self.name.deep_view(),
            last_modification_time: self.last_modification_time.deep_view(),
            data: self.data.deep_view(),
        }
    }
}

impl Content for CustomIcon {
    fn duplicate(&self) -> (result: Self) {
        CustomIcon {
            id: self.id,
            groups: self.groups.duplicate(),
            name: self.name.duplicate(),
            last_modification_time: self.last_modification_time.duplicate(),
            data: self.data.duplicate(),
        }
    }

    fn same_as(&self, other: &Self) -> (result: bool) {
        self.id == other.id && self.groups.same_as(&other.groups) && self.name.same_as(&other.name)
            && self.last_modification_time.same_as(&other.last_modification_time)
            && self.data.same_as(&other.data)
    }
}

impl Clone for CustomIcon {
    fn clone(&self) -> (result: Self)
        ensures
            result.deep_view() == self.deep_view(),
    {
        self.duplicate()
    }
}

impl CustomIcon {
    /// Get the identifier of this icon.
    pub fn id(&self) -> (result: CustomIconId)
        ensures
            result == self.id,
    {
        self.id
    }
}

/// Error type for when a [CustomIconId] is provided that does not exist in the database
#[derive(Debug, Clone, Copy, PartialEq, Eq, Structural)]
pub struct CustomIconNotFoundError(pub CustomIconId);

impl CustomIconNotFoundError {
    /// The message of the error.
    pub fn message(&self) -> (result: String)
        ensures
            result@ == "Custom icon "@ + crate::ids::hyphenated(self.0.0.0) + " not found"@,
    {
        text::join3("Custom icon ", self.0.text().as_str(), " not found")
    }
}

} // verus!
