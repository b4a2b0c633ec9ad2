//! Entries and their history.

use vstd::prelude::*;
use crate::content::Content;
use crate::fields;
use crate::ids;
use crate::ids::AttachmentId;
use crate::ids::EntryId;
use crate::ids::GroupId;
use crate::icon::Icon;
use crate::sorted_map::SortedMap;
use crate::times::Times;
use crate::times::Timestamp;
use crate::value::AutoType;
use crate::value::AutoTypeModel;
use crate::value::Color;
use crate::value::CustomDataItem;
use crate::value::CustomDataItemModel;
use crate::value::Value;

verus! {

/// Earlier versions of an entry, the latest first.
#[derive(Debug, PartialEq, Eq)]
pub struct History {
    /// The versions.
    pub entries: Vec<Entry>,
}

/// A database entry containing several key-value fields.
#[derive(Debug, PartialEq, Eq)]
pub struct Entry {
    /// The identifier of the entry.
    pub id: EntryId,
    /// The group that holds the entry.
    pub parent: GroupId,
    /// the key-value fields of this entry, such as username and password.
    ///
    /// Common field names are available in [crate::fields].
    pub fields: SortedMap<String, Value<String>>,
    /// AutoType settings for this entry
    pub autotype: Option<AutoType>,
    /// tags associated with this entry
    pub tags: Vec<String>,
    /// timestamps for this entry
    pub times: Times,
    /// custom data items associated with this entry
    pub custom_data: SortedMap<String, CustomDataItem>,
    /// the icon of this entry
    pub icon: Option<Icon>,
    /// foreground color for this entry
    pub foreground_color: Option<Color>,
    /// background color for this entry
    pub background_color: Option<Color>,
    /// URL override for this entry
    pub override_url: Option<String>,
    /// whether to enable password quality check for this entry
    pub quality_check: bool,
    /// attachments associated with this entry, mapped by attachment name to attachment ID
    pub attachments: SortedMap<String, AttachmentId>,
    /// Identifier of the group that the Entry was previously contained in
    pub previous_parent_group: Option<GroupId>,
    /// history of this entry
    pub history: Option<History>,
}

/// What an [Entry] holds.
#[verifier::ext_equal]
pub struct EntryModel {
    /// The identifier of the entry.
    pub id: EntryId,
    /// The group that holds the entry.
    pub parent: GroupId,
    /// The fields by name.
    pub fields: Map<Seq<char>, Value<Seq<char>>>,
    /// The auto-type settings.
    pub autotype: Option<AutoTypeModel>,
    /// The tags.
    pub tags: Seq<Seq<char>>,
    /// The timestamps.
    pub times: Times,
    /// The custom data items by name.
    pub custom_data: Map<Seq<char>, CustomDataItemModel>,
    /// The icon.
    pub icon: Option<Icon>,
    /// The foreground color.
    pub foreground_color: Option<Color>,
    /// The background color.
    pub background_color: Option<Color>,
    /// The URL override.
    pub override_url: Option<Seq<char>>,
    /// Whether the password quality is checked.
    pub quality_check: bool,
    /// The attachments by name.
    pub attachments: Map<Seq<char>, AttachmentId>,
    /// The group that held the entry before.
    pub previous_parent_group: Option<GroupId>,
    /// The earlier versions, the latest first.
    pub history: Option<Seq<EntryModel>>,
}

impl Entry {
    /// What the entry holds.
    pub open spec fn model(&self) -> EntryModel
        decreases self,
    {
        EntryModel {
            id: self.id,
            parent: self.parent,
            fields: self.fields.deep_view(),
            autotype: self.autotype.deep_view(),
            tags: self.tags.deep_view(),
            times: self.times,
            custom_data: self.custom_data.deep_view(),
            icon: self.icon,
            foreground_color: self.foreground_color,
            background_color: self.background_color,
            override_url: self.override_url.deep_view(),
            quality_check: self.quality_check,
            attachments: self.attachments.deep_view(),
            previous_parent_group: self.previous_parent_group,
            history: match self.history {
                Some(history) => Some(history.model()),
                None => None,
            },
        }
    }
}

impl History {
    /// What the versions hold.
    pub open spec fn model(&self) -> Seq<EntryModel>
        decreases self,
    {
        Seq::new(
            self.entries@.len(),
            |i: int|
                if 0 <= i < self.entries@.len() {
                    self.entries@[i].model()
                } else {
                    arbitrary()
                },
        )
    }
}

impl DeepView for Entry {
    type V = EntryModel;

    open spec fn deep_view(&self) -> EntryModel {
        self.model()
    }
}

impl DeepView for History {
    type V = Seq<EntryModel>;

    open spec fn deep_view(&self) -> Seq<EntryModel> {
        self.model()
    }
}

impl Content for Entry {
    fn duplicate(&self) -> (result: Self) {
        self.copied()
    }

    fn same_as(&self, other: &Self) -> (result: bool) {
        self.agrees_with(other)
    }
}

impl Content for History {
    fn duplicate(&self) -> (result: Self) {
        self.copied()
    }

    fn same_as(&self, other: &Self) -> (result: bool) {
        self.agrees_with(other)
    }
}

impl Clone for Entry {
    fn clone(&self) -> (result: Self)
        ensures
            result.deep_view() == self.deep_view(),
    {
        self.copied()
    }
}

impl Clone for History {
    fn clone(&self) -> (result: Self)
        ensures
            result.deep_view() == self.deep_view(),
    {
        self.copied()
    }
}

impl EntryModel {
    /// What makes up the content of an entry version besides its attachments: everything but
    /// timestamps, history and attachments.
    pub open spec fn content(self) -> EntryModel {
        EntryModel {
            times: Times::blank(),
            history: None,
            attachments: Map::empty(),
            ..self
        }
    }

    /// A new entry.
    pub open spec fn fresh(id: EntryId, parent: GroupId, times: Times) -> EntryModel {
        EntryModel {
            id,
            parent,
            fields: Map::empty(),
            autotype: None,
            tags: Seq::empty(),
            times,
            custom_data: Map::empty(),
            icon: None,
            foreground_color: None,
            background_color: None,
            override_url: None,
            quality_check: true,
            attachments: Map::empty(),
            previous_parent_group: None,
            history: Some(Seq::empty()),
        }
    }

    /// The entry without its history.
    pub open spec fn without_history(self) -> EntryModel {
        EntryModel { history: None, ..self }
    }

    /// The entry with the content of another: everything but place, history and timestamps, of
    /// which only the modification time is taken over.
    pub open spec fn overwritten_by(self, incoming: EntryModel) -> EntryModel {
        EntryModel {
            times: Times {
                last_modification: incoming.times.last_modification,
                ..self.times
            },
            fields: incoming.fields,
            autotype: incoming.autotype,
            tags: incoming.tags,
            custom_data: incoming.custom_data,
            icon: incoming.icon,
            foreground_color: incoming.foreground_color,
            background_color: incoming.background_color,
            override_url: incoming.override_url,
            quality_check: incoming.quality_check,
            attachments: incoming.attachments,
            ..self
        }
    }

    /// The entry with another time of its last move.
    pub open spec fn relocated_at(self, time: Option<Timestamp>) -> EntryModel {
        EntryModel { times: Times { location_changed: time, ..self.times }, ..self }
    }

    /// The entry with another parent group and the parent that it had before.
    pub open spec fn moved_to(self, group: GroupId) -> EntryModel {
        EntryModel { parent: group, previous_parent_group: Some(self.parent), ..self }
    }
}

impl Entry {
    /// A copy of the entry.
    fn copied(&self) -> (result: Entry)
        ensures
            result.model() == self.model(),
        decreases self,
    {
        let history = match &self.history {
            Some(history) => Some(history.copied()),
            None => None,
        };
        Entry {
            id: self.id,
            parent: self.parent,
            fields: self.fields.duplicate(),
            autotype: self.autotype.duplicate(),
            tags: self.tags.duplicate(),
            times: self.times,
            custom_data: self.custom_data.duplicate(),
            icon: self.icon,
            foreground_color: self.foreground_color,
            background_color: self.background_color,
            override_url: self.override_url.duplicate(),
            quality_check: self.quality_check,
            attachments: self.attachments.duplicate(),
            previous_parent_group: self.previous_parent_group,
            history,
        }
    }

    /// Whether the entries are the same besides timestamps, history and attachments.
    pub fn same_content(&self, other: &Entry) -> (result: bool)
        ensures
            result == (self.model().content() == other.model().content()),
            result <==> {
                &&& self.model().id == other.model().id
                &&& self.model().parent == other.model().parent
                &&& self.model().fields == other.model().fields
                &&& self.model().autotype == other.model().autotype
                &&& self.model().tags == other.model().tags
                &&& self.model().custom_data == other.model().custom_data
                &&& self.model().icon == other.model().icon
                &&& self.model().foreground_color == other.model().foreground_color
                &&& self.model().background_color == other.model().background_color
                &&& self.model().override_url == other.model().override_url
                &&& self.model().quality_check == other.model().quality_check
                &&& self.model().previous_parent_group == other.model().previous_parent_group
            },
    {
        let result = self.id == other.id && self.parent == other.parent && self.fields.same_as(
            &other.fields,
        ) && self.autotype.same_as(&other.autotype) && self.tags.same_as(&other.tags)
            && self.custom_data.same_as(&other.custom_data) && self.icon.same_as(&other.icon)
            && self.foreground_color.same_as(&other.foreground_color)
            && self.background_color.same_as(&other.background_color)
            && self.override_url.same_as(&other.override_url) && self.quality_check
            == other.quality_check && self.previous_parent_group.same_as(
            &other.previous_parent_group,
        );
        result
    }

    /// Whether the entries hold the same.
    fn agrees_with(&self, other: &Entry) -> (result: bool)
        ensures
            result == (self.model() == other.model()),
        decreases self,
    {
        if !self.same_content(other) || !self.times.same_as(&other.times)
            || !self.attachments.same_as(&other.attachments) {
            assert(self.model().content() != other.model().content() || self.times != other.times
                || self.attachments.deep_view() != other.attachments.deep_view());
            return false;
        }
        proof {
            let a = self.model();
            let b = other.model();
            assert(a.content() == b.content());
            assert(a.id == a.content().id && b.id == b.content().id);
        }
        match (&self.history, &other.history) {
            (Some(x), Some(y)) => x.agrees_with(y),
            (None, None) => true,
            _ => false,
        }
    }

    /// A new entry with a random identifier.
    pub fn new(parent: GroupId) -> (result: Entry)
        ensures
            ids::version_four(result.id.0.0),
            exists|now: Timestamp|
                now.is_reading() && #[trigger] EntryModel::fresh(result.id, parent, Times::fresh(now)) == result.model(),
    {
        Entry::with_id(EntryId::new(), parent)
    }

    /// A new entry with the given identifier.
    pub fn with_id(id: EntryId, parent: GroupId) -> (result: Entry)
        ensures
            exists|now: Timestamp|
                now.is_reading() && #[trigger] EntryModel::fresh(id, parent, Times::fresh(now)) == result.model(),
    {
        let times = Times::new();
        let result = Entry {
            id,
            parent,
            fields: SortedMap::new(),
            autotype: None,
            tags: Vec::new(),
            times,
            custom_data: SortedMap::new(),
            icon: None,
            foreground_color: None,
            background_color: None,
            override_url: None,
            quality_check: true,
            attachments: SortedMap::new(),
            previous_parent_group: None,
            history: Some(History::new()),
        };
        proof {
            let now = choose|now: Timestamp|
                now.is_reading() && #[trigger] Times::fresh(now) == times;
            assert(result.tags.deep_view() =~= Seq::<Seq<char>>::empty());
            assert(result.model() =~= EntryModel::fresh(id, parent, Times::fresh(now)));
        }
        result
    }

    /// Get the unique identifier for the [Entry]
    pub fn id(&self) -> (result: EntryId)
        ensures
            result == self.id,
    {
        self.id
    }

    /// Get the icon of this entry, if it exists
    pub fn icon(&self) -> (result: Option<&Icon>)
        ensures
            match result {
                Some(icon) => self.icon == Some(*icon),
                None => self.icon is None,
            },
    {
        self.icon.as_ref()
    }

    /// Get a field by name, taking care of unprotecting Protected values automatically
    pub fn get(&self, key: &str) -> (result: Option<&str>)
        ensures
            match result {
                Some(text) => self.model().fields.contains_key(key@)
                    && self.model().fields[key@].content() == text@,
                None => !self.model().fields.contains_key(key@),
            },
    {
        match self.fields.get(&key.to_owned()) {
            Some(value) => Some(value.as_str()),
            None => None,
        }
    }

    /// Set a field's value by name
    pub fn set(&mut self, key: &str, value: Value<String>)
        ensures
            final(self).model() == (EntryModel {
                fields: old(self).model().fields.insert(key@, value.deep_view()),
                ..old(self).model()
            }),
    {
        self.fields.insert(key.to_owned(), value);
    }

    /// Set a field's unprotected value by name
    pub fn set_unprotected(&mut self, key: &str, value: &str)
        ensures
            final(self).model() == (EntryModel {
                fields: old(self).model().fields.insert(key@, Value::Unprotected(value@)),
                ..old(self).model()
            }),
    {
        self.set(key, Value::unprotected(value.to_owned()));
    }

    /// Set a field's protected value by name
    pub fn set_protected(&mut self, key: &str, value: &str)
        ensures
            final(self).model() == (EntryModel {
                fields: old(self).model().fields.insert(key@, Value::Protected(value@)),
                ..old(self).model()
            }),
    {
        self.set(key, Value::protected(value.to_owned()));
    }

    /// Convenience method for getting the raw value of the 'otp' field
    pub fn get_raw_otp_value(&self) -> (result: Option<&str>)
        ensures
            match result {
                Some(text) => self.model().fields.contains_key(fields::OTP@)
                    && self.model().fields[fields::OTP@].content() == text@,
                None => !self.model().fields.contains_key(fields::OTP@),
            },
    {
        self.get(fields::OTP)
    }

    /// Convenience method for getting the value of the 'Title' field
    pub fn get_title(&self) -> (result: Option<&str>)
        ensures
            match result {
                Some(text) => self.model().fields.contains_key(fields::TITLE@)
                    && self.model().fields[fields::TITLE@].content() == text@,
                None => !self.model().fields.contains_key(fields::TITLE@),
            },
    {
        self.get(fields::TITLE)
    }

    /// Convenience method for getting the value of the 'UserName' field
    pub fn get_username(&self) -> (result: Option<&str>)
        ensures
            match result {
                Some(text) => self.model().fields.contains_key(fields::USERNAME@)
                    && self.model().fields[fields::USERNAME@].content() == text@,
                None => !self.model().fields.contains_key(fields::USERNAME@),
            },
    {
        self.get(fields::USERNAME)
    }

    /// Convenience method for getting the value of the 'Password' field
    pub fn get_password(&self) -> (result: Option<&str>)
        ensures
            match result {
                Some(text) => self.model().fields.contains_key(fields::PASSWORD@)
                    && self.model().fields[fields::PASSWORD@].content() == text@,
                None => !self.model().fields.contains_key(fields::PASSWORD@),
            },
    {
        self.get(fields::PASSWORD)
    }

    /// Convenience method for getting the value of the 'URL' field
    pub fn get_url(&self) -> (result: Option<&str>)
        ensures
            match result {
                Some(text) => self.model().fields.contains_key(fields::URL@)
                    && self.model().fields[fields::URL@].content() == text@,
                None => !self.model().fields.contains_key(fields::URL@),
            },
    {
        self.get(fields::URL)
    }
}

/// The history with one more version, stripped of its own history, as the latest.
pub open spec fn with_version(history: Seq<EntryModel>, version: EntryModel) -> Seq<EntryModel> {
    seq![version.without_history()] + history
}

impl History {
    /// A copy of the history.
    fn copied(&self) -> (result: History)
        ensures
            result.model() == self.model(),
        decreases self,
    {
        let mut entries: Vec<Entry> = Vec::new();
        let mut i: usize = 0;
        while i < self.entries.len()
            invariant
                i <= self.entries@.len(),
                entries@.len() == i,
                forall|j: int|
                    0 <= j < i ==> (#[trigger] entries@[j]).model() == self.entries@[j].model(),
            decreases self.entries@.len() - i,
        {
            let entry = self.entries[i].copied();
            entries.push(entry);
            i += 1;
        }
        let result = History { entries };
        assert(result.model() =~= self.model());
        result
    }

    /// Whether the histories hold the same versions.
    fn agrees_with(&self, other: &History) -> (result: bool)
        ensures
            result == (self.model() == other.model()),
        decreases self,
    {
        if self.entries.len() != other.entries.len() {
            assert(self.model().len() != other.model().len());
            return false;
        }
        let mut i: usize = 0;
        while i < self.entries.len()
            invariant
                i <= self.entries@.len(),
                self.entries@.len() == other.entries@.len(),
                forall|j: int|
                    0 <= j < i ==> (#[trigger] self.entries@[j]).model()
                        == other.entries@[j].model(),
            decreases self.entries@.len() - i,
        {
            if !self.entries[i].agrees_with(&other.entries[i]) {
                assert(self.model()[i as int] != other.model()[i as int]);
                return false;
            }
            i += 1;
        }
        assert(self.model() =~= other.model());
        true
    }

    /// A history without versions.
    pub fn new() -> (result: History)
        ensures
            result.model() == Seq::<EntryModel>::empty(),
    {
        let result = History { entries: Vec::new() };
        assert(result.model() =~= Seq::<EntryModel>::empty());
        result
    }

    /// Puts a version in front of the others. Its own history is dropped, so that histories do
    /// not nest.
    pub fn add_entry(&mut self, entry: Entry)
        ensures
            final(self).model() == with_version(old(self).model(), entry.model()),
    {
        let mut version = entry;
        version.history = None;
        self.entries.insert(0, version);
        assert(self.model() =~= with_version(old(self).model(), entry.model()));
    }
}

impl Default for History {
    fn default() -> (result: Self)
        ensures
            result.model() == Seq::<EntryModel>::empty(),
    {
        History::new()
    }
}

} // verus!
