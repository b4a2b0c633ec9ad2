//! Which versions of which entries refer to an attachment or to a custom icon.

use vstd::prelude::*;
use crate::attachment::Pool;
use crate::content::Content;
use crate::database::Database;
use crate::database::DatabaseModel;
use crate::database::Entries;
use crate::entry::Entry;
use crate::entry::EntryModel;
use crate::icon::Icon;
use crate::ids::AttachmentId;
use crate::ids::CustomIconId;
use crate::ids::EntryId;
use crate::order;
use crate::order::Key;
use crate::sorted_map::SortedMap;
use crate::sorted_set::SortedSet;

verus! {

/// A version of an entry: the live one, or one of its history by its index.
#[derive(Debug, Clone, Copy, PartialEq, Eq, Hash)]
pub struct VersionId {
    /// The entry.
    pub entry: EntryId,
    /// The index in the history; none for the live version.
    pub index: Option<usize>,
}

/// A version of an entry: the live one, or one of its history by its index.
pub struct VersionModel {
    /// The entry.
    pub entry: EntryId,
    /// The index in the history; none for the live version.
    pub index: Option<int>,
}

/// An index into a history as a number.
pub open spec fn position(index: Option<usize>) -> Option<int> {
    match index {
        Some(i) => Some(i as int),
        None => None,
    }
}

impl DeepView for VersionId {
    type V = VersionModel;

    open spec fn deep_view(&self) -> VersionModel {
        VersionModel { entry: self.entry, index: position(self.index) }
    }
}

impl Content for VersionId {
    fn duplicate(&self) -> (result: Self) {
        *self
    }

    fn same_as(&self, other: &Self) -> (result: bool) {
        self.entry == other.entry && match (self.index, other.index) {
            (Some(i), Some(j)) => i == j,
            (None, None) => true,
            _ => false,
        }
    }
}

impl Key for VersionId {
    open spec fn precedes(a: VersionModel, b: VersionModel) -> bool {
        ||| EntryId::precedes(a.entry, b.entry)
        ||| a.entry == b.entry && match (a.index, b.index) {
            (Some(i), Some(j)) => i < j,
            (None, Some(_)) => true,
            _ => false,
        }
    }

    fn is_before(&self, other: &Self) -> (result: bool) {
        self.entry.is_before(&other.entry) || (self.entry == other.entry && match (
            self.index,
            other.index,
        ) {
            (Some(i), Some(j)) => i < j,
            (None, Some(_)) => true,
            _ => false,
        })
    }

    proof fn order_is_irreflexive(a: VersionModel) {
    }

    proof fn order_is_transitive(a: VersionModel, b: VersionModel, c: VersionModel) {
    }

    proof fn order_is_total(a: VersionModel, b: VersionModel) {
    }
}

/// Something that a version of an entry can mention.
#[derive(Debug, Clone, Copy, PartialEq, Eq, Structural)]
pub enum Referent {
    /// An attachment.
    Attachment(AttachmentId),
    /// A custom icon.
    Icon(CustomIconId),
}

/// Whether one of the names stands for the attachment.
pub open spec fn refers(names: Map<Seq<char>, AttachmentId>, a: AttachmentId) -> bool {
    exists|name: Seq<char>| #[trigger] names.contains_key(name) && names[name] == a
}

/// Whether the names stand for attachments of the pool: none of them dangles.
pub open spec fn resolves(names: Map<Seq<char>, AttachmentId>, pool: Pool) -> bool {
    forall|name: Seq<char>| #[trigger]
        names.contains_key(name) ==> pool.contains_key(names[name])
}

impl EntryModel {
    /// Whether no version of the entry has a dangling reference.
    pub open spec fn sound(self, pool: Pool) -> bool {
        forall|index: Option<int>| #[trigger]
            self.has_version(index) ==> resolves(self.version(index).attachments, pool)
    }

    /// Whether the entry has this version.
    pub open spec fn has_version(self, index: Option<int>) -> bool {
        match index {
            None => true,
            Some(i) => self.history is Some && 0 <= i < self.history->0.len(),
        }
    }

    /// A version of the entry.
    pub open spec fn version(self, index: Option<int>) -> EntryModel {
        match index {
            None => self,
            Some(i) => self.history->0[i],
        }
    }

    /// The entry with one of its versions replaced.
    pub open spec fn with_version_replaced(
        self,
        index: Option<int>,
        version: EntryModel,
    ) -> EntryModel {
        match index {
            None => version,
            Some(i) => EntryModel { history: Some(self.history->0.update(i, version)), ..self },
        }
    }

    /// Whether a version of the entry refers to the attachment.
    pub open spec fn uses(self, a: AttachmentId) -> bool {
        exists|index: Option<int>| #[trigger]
            self.has_version(index) && refers(self.version(index).attachments, a)
    }

    /// Whether this version mentions the attachment or the icon.
    pub open spec fn mentions(self, referent: Referent) -> bool {
        match referent {
            Referent::Attachment(a) => refers(self.attachments, a),
            Referent::Icon(icon) => self.icon == Some(Icon::Custom(icon)),
        }
    }
}

/// Whether a version of one of the entries refers to the attachment.
pub open spec fn used(entries: Entries, a: AttachmentId) -> bool {
    exists|e: EntryId| #[trigger] entries.contains_key(e) && entries[e].uses(a)
}

impl DatabaseModel {
    /// Whether no version of an entry has a dangling reference.
    pub open spec fn sound(self) -> bool {
        forall|e: EntryId| #[trigger]
            self.entries.contains_key(e) ==> self.entries[e].sound(self.attachments)
    }

    /// Whether the database has this version of an entry.
    pub open spec fn has_version(self, v: VersionModel) -> bool {
        self.entries.contains_key(v.entry) && self.entries[v.entry].has_version(v.index)
    }

    /// A version of an entry.
    pub open spec fn version(self, v: VersionModel) -> EntryModel {
        self.entries[v.entry].version(v.index)
    }

    /// The versions that mention an attachment or an icon; without `historical` only the live
    /// ones.
    pub open spec fn referrers(self, referent: Referent, historical: bool) -> Set<VersionModel> {
        Set::new(
            |v: VersionModel|
                self.has_version(v) && self.version(v).mentions(referent) && (historical
                    || v.index is None),
        )
    }

    /// All versions that refer to each attachment that is in use.
    pub open spec fn references(self) -> Map<AttachmentId, Set<VersionModel>> {
        Map::new(
            |a: AttachmentId| used(self.entries, a),
            |a: AttachmentId| self.referrers(Referent::Attachment(a), true),
        )
    }
}

/// Whether one of the names stands for the attachment.
pub fn refers_to(names: &SortedMap<String, AttachmentId>, a: AttachmentId) -> (result: bool)
    ensures
        result == refers(names.deep_view(), a),
{
    let count: usize = names.len();
    let ghost listing = order::ordered::<String>(names.deep_view().dom());
    let mut i: usize = 0;
    while i < count
        invariant
            listing == order::ordered::<String>(names.deep_view().dom()),
            i <= count == listing.len(),
            forall|j: int| 0 <= j < i ==> names.deep_view()[#[trigger] listing[j]] != a,
        decreases count - i,
    {
        if *names.value_at(i) == a {
            assert(names.deep_view().contains_key(listing[i as int]));
            return true;
        }
        i += 1;
    }
    proof {
        if refers(names.deep_view(), a) {
            let name = choose|name: Seq<char>| #[trigger]
                names.deep_view().contains_key(name) && names.deep_view()[name] == a;
            assert(names.deep_view().dom().contains(name));
            let j = choose|j: int| 0 <= j < listing.len() && listing[j] == name;
            assert(names.deep_view()[listing[j]] != a);
        }
    }
    false
}

/// Adds the attachments that the names stand for to a set.
pub(crate) fn collect_references(
    names: &SortedMap<String, AttachmentId>,
    into: &mut SortedSet<AttachmentId>,
)
    ensures
        final(into).deep_view() == old(into).deep_view().union(
            Set::new(|a: AttachmentId| refers(names.deep_view(), a)),
        ),
{
    let count: usize = names.len();
    let ghost listing = order::ordered::<String>(names.deep_view().dom());
    let ghost model = names.deep_view();
    let mut i: usize = 0;
    while i < count
        invariant
            model == names.deep_view(),
            listing == order::ordered::<String>(model.dom()),
            order::lists::<String>(listing, model.dom()),
            i <= count == listing.len(),
            forall|a: AttachmentId| #[trigger]
                into.deep_view().contains(a) <==> old(into).deep_view().contains(a) || exists|
                    j: int,
                |
                    0 <= j < i && model[#[trigger] listing[j]] == a,
        decreases count - i,
    {
        let a = *names.value_at(i);
        let ghost before = into.deep_view();
        into.insert(a);
        proof {
            assert forall|x: AttachmentId| #[trigger] into.deep_view().contains(x) <==> old(into).deep_view().contains(x) || exists|j: int|
                0 <= j < i + 1 && model[#[trigger] listing[j]] == x by {
                if x == a {
                    assert(model[listing[i as int]] == x);
                }
                assert(before.contains(x) <==> old(into).deep_view().contains(x) || exists|j: int|
                    0 <= j < i && model[#[trigger] listing[j]] == x);
                if exists|j: int| 0 <= j < i + 1 && model[#[trigger] listing[j]] == x {
                    let j = choose|j: int| 0 <= j < i + 1 && model[#[trigger] listing[j]] == x;
                    if j == i {
                        assert(x == a);
                    }
                }
            }
        }
        i += 1;
    }
    proof {
        assert forall|a: AttachmentId| #[trigger] into.deep_view().contains(a) <==> old(into).deep_view().contains(a) || refers(model, a) by {
            if refers(model, a) {
                let name = choose|name: Seq<char>| #[trigger]
                    model.contains_key(name) && model[name] == a;
                assert(model.dom().contains(name));
                let j = choose|j: int| 0 <= j < listing.len() && listing[j] == name;
                assert(model[listing[j]] == a);
            }
            if exists|j: int| 0 <= j < count && model[#[trigger] listing[j]] == a {
                let j = choose|j: int| 0 <= j < count && model[#[trigger] listing[j]] == a;
                assert(listing.contains(listing[j]));
                assert(model.dom().contains(listing[j]));
                assert(model.contains_key(listing[j]));
            }
        }
        assert(into.deep_view() =~= old(into).deep_view().union(
            Set::new(|a: AttachmentId| refers(model, a)),
        ));
    }
}

impl Entry {
    /// Whether a version of the entry refers to the attachment.
    pub fn uses_attachment(&self, a: AttachmentId) -> (result: bool)
        ensures
            result == self.model().uses(a),
    {
        let ghost model = self.model();
        if refers_to(&self.attachments, a) {
            proof {
                let live: Option<int> = None;
                assert(model.has_version(live) && refers(model.version(live).attachments, a));
            }
            return true;
        }
        if let Some(history) = &self.history {
            let mut i: usize = 0;
            while i < history.entries.len()
                invariant
                    model == self.model(),
                    self.history == Some(*history),
                    i <= history.entries@.len(),
                    !refers(model.attachments, a),
                    forall|j: int|
                        0 <= j < i ==> !refers(#[trigger] model.history->0[j].attachments, a),
                decreases history.entries@.len() - i,
            {
                if refers_to(&history.entries[i].attachments, a) {
                    proof {
                        let index = Some(i as int);
                        assert(model.has_version(index) && refers(
                            model.version(index).attachments,
                            a,
                        ));
                    }
                    return true;
                }
                assert(model.history->0[i as int] == history.entries@[i as int].model());
                i += 1;
            }
        }
        proof {
            assert forall|index: Option<int>| #[trigger] model.has_version(index) implies !refers(
                model.version(index).attachments,
                a,
            ) by {
                match index {
                    Some(i) => {
                        assert(!refers(model.history->0[i].attachments, a));
                    },
                    None => {},
                }
            }
        }
        false
    }

    /// Adds the attachments that versions of the entry refer to to a set.
    pub(crate) fn collect_attachments(&self, into: &mut SortedSet<AttachmentId>)
        ensures
            final(into).deep_view() == old(into).deep_view().union(
                Set::new(|a: AttachmentId| self.model().uses(a)),
            ),
    {
        let ghost model = self.model();
        collect_references(&self.attachments, into);
        proof {
            let live: Option<int> = None;
            assert(model.has_version(live) && model.version(live) == model);
        }
        if let Some(history) = &self.history {
            let mut i: usize = 0;
            while i < history.entries.len()
                invariant
                    model == self.model(),
                    self.history == Some(*history),
                    i <= history.entries@.len(),
                    forall|a: AttachmentId| #[trigger]
                        into.deep_view().contains(a) <==> old(into).deep_view().contains(a)
                            || refers(model.attachments, a) || exists|j: int|
                            0 <= j < i && refers(#[trigger] model.history->0[j].attachments, a),
                decreases history.entries@.len() - i,
            {
                let ghost before = into.deep_view();
                collect_references(&history.entries[i].attachments, into);
                proof {
                    assert(model.history->0[i as int] == history.entries@[i as int].model());
                    assert forall|a: AttachmentId| #[trigger]
                        into.deep_view().contains(a) <==> old(into).deep_view().contains(a)
                            || refers(model.attachments, a) || exists|j: int|
                            0 <= j < i + 1 && refers(
                                #[trigger] model.history->0[j].attachments,
                                a,
                            ) by {
                        assert(before.contains(a) <==> old(into).deep_view().contains(a) || refers(
                            model.attachments,
                            a,
                        ) || exists|j: int|
                            0 <= j < i && refers(#[trigger] model.history->0[j].attachments, a));
                        if refers(history.entries@[i as int].model().attachments, a) {
                            assert(refers(model.history->0[i as int].attachments, a));
                        }
                        if exists|j: int|
                            0 <= j < i + 1 && refers(
                                #[trigger] model.history->0[j].attachments,
                                a,
                            ) {
                            let j = choose|j: int|
                                0 <= j < i + 1 && refers(
                                    #[trigger] model.history->0[j].attachments,
                                    a,
                                );
                            assert(j < i || j == i);
                        }
                    }
                }
                i += 1;
            }
        }
        proof {
            assert forall|a: AttachmentId| #[trigger] into.deep_view().contains(a) <==> old(into).deep_view().contains(a) || model.uses(a) by {
                if model.uses(a) {
                    let index = choose|index: Option<int>| #[trigger]
                        model.has_version(index) && refers(model.version(index).attachments, a);
                    match index {
                        Some(i) => {
                            assert(refers(model.history->0[i].attachments, a));
                        },
                        None => {},
                    }
                }
                if model.history is Some && exists|j: int|
                    0 <= j < model.history->0.len() && refers(
                        #[trigger] model.history->0[j].attachments,
                        a,
                    ) {
                    let j = choose|j: int|
                        0 <= j < model.history->0.len() && refers(
                            #[trigger] model.history->0[j].attachments,
                            a,
                        );
                    assert(model.has_version(Some(j)));
                }
                let live: Option<int> = None;
                assert(model.has_version(live));
            }
            assert(into.deep_view() =~= old(into).deep_view().union(
                Set::new(|a: AttachmentId| model.uses(a)),
            ));
        }
    }

    /// Whether this version mentions the attachment or the icon.
    fn does_mention(&self, referent: Referent) -> (result: bool)
        ensures
            result == self.model().mentions(referent),
    {
        match referent {
            Referent::Attachment(a) => refers_to(&self.attachments, a),
            Referent::Icon(icon) => match self.icon {
                Some(Icon::Custom(id)) => id == icon,
                _ => false,
            },
        }
    }

    /// Adds the versions of the entry that mention the referent to a set.
    fn collect_referrers(
        &self,
        e: EntryId,
        referent: Referent,
        historical: bool,
        into: &mut SortedSet<VersionId>,
    )
        ensures
            final(into).deep_view() == old(into).deep_view().union(
                Set::new(
                    |v: VersionModel|
                        v.entry == e && self.model().has_version(v.index) && self.model().version(
                            v.index,
                        ).mentions(referent) && (historical || v.index is None),
                ),
            ),
    {
        let ghost model = self.model();
        let ghost live = VersionModel { entry: e, index: None };
        if self.does_mention(referent) {
            into.insert(VersionId { entry: e, index: None });
        }
        if historical {
            if let Some(history) = &self.history {
                let mut i: usize = 0;
                while i < history.entries.len()
                    invariant
                        model == self.model(),
                        self.history == Some(*history),
                        live == (VersionModel { entry: e, index: None }),
                        i <= history.entries@.len(),
                        forall|v: VersionModel| #[trigger]
                            into.deep_view().contains(v) <==> old(into).deep_view().contains(v) || (
                            v == live && model.mentions(referent)) || (v.entry == e && (
                            v.index matches Some(j) && 0 <= j < i
                                && model.history->0[j].mentions(referent))),
                    decreases history.entries@.len() - i,
                {
                    assert(model.history->0[i as int] == history.entries@[i as int].model());
                    if history.entries[i].does_mention(referent) {
                        into.insert(VersionId { entry: e, index: Some(i) });
                    }
                    i += 1;
                }
            }
        }
        proof {
            assert(into.deep_view() =~= old(into).deep_view().union(
                Set::new(
                    |v: VersionModel|
                        v.entry == e && model.has_version(v.index) && model.version(
                            v.index,
                        ).mentions(referent) && (historical || v.index is None),
                ),
            ));
        }
    }
}

impl Database {
    /// Whether a version of an entry refers to the attachment.
    pub fn is_attachment_used(&self, a: AttachmentId) -> (result: bool)
        ensures
            result == used(self.deep_view().entries, a),
    {
        let ghost entries = self.deep_view().entries;
        let ids = self.entries.keys();
        let ghost listing = ids.deep_view();
        let mut i: usize = 0;
        while i < ids.len()
            invariant
                entries == self.deep_view().entries,
                listing == ids.deep_view(),
                order::lists::<EntryId>(listing, entries.dom()),
                i <= ids@.len(),
                forall|j: int| 0 <= j < i ==> !entries[#[trigger] listing[j]].uses(a),
            decreases ids@.len() - i,
        {
            let id = ids[i];
            assert(listing[i as int] == id);
            if let Some(entry) = self.entries.get(&id) {
                if entry.uses_attachment(a) {
                    assert(entries.contains_key(id));
                    return true;
                }
            } else {
                assert(listing.contains(id));
                assert(entries.dom().contains(id));
            }
            i += 1;
        }
        proof {
            assert forall|e: EntryId| #[trigger] entries.contains_key(e) implies !entries[e].uses(
                a,
            ) by {
                assert(entries.dom().contains(e));
                let j = choose|j: int| 0 <= j < listing.len() && listing[j] == e;
                assert(!entries[listing[j]].uses(a));
            }
        }
        false
    }

    /// The versions that mention an attachment or an icon, in order.
    fn versions_mentioning(&self, referent: Referent, historical: bool) -> (result: SortedSet<
        VersionId,
    >)
        ensures
            result.deep_view() == self.deep_view().referrers(referent, historical),
    {
        let ghost db = self.deep_view();
        let mut found: SortedSet<VersionId> = SortedSet::new();
        let ids = self.entries.keys();
        let ghost listing = ids.deep_view();
        let mut i: usize = 0;
        while i < ids.len()
            invariant
                db == self.deep_view(),
                listing == ids.deep_view(),
                order::lists::<EntryId>(listing, db.entries.dom()),
                i <= ids@.len(),
                forall|v: VersionModel| #[trigger]
                    found.deep_view().contains(v) <==> db.referrers(referent, historical).contains(
                        v,
                    ) && listing.take(i as int).contains(v.entry),
            decreases ids@.len() - i,
        {
            let id = ids[i];
            let ghost before = found.deep_view();
            assert(listing[i as int] == id);
            assert(listing.contains(id));
            assert(db.entries.dom().contains(id));
            if let Some(entry) = self.entries.get(&id) {
                entry.collect_referrers(id, referent, historical, &mut found);
                proof {
                    let prefix = listing.take(i as int);
                    let longer = listing.take(i + 1);
                    assert(longer =~= prefix.push(id));
                    assert forall|v: VersionModel| #[trigger]
                        found.deep_view().contains(v) <==> db.referrers(
                            referent,
                            historical,
                        ).contains(v) && longer.contains(v.entry) by {
                        assert(before.contains(v) <==> db.referrers(referent, historical).contains(
                            v,
                        ) && prefix.contains(v.entry));
                        assert(longer.contains(v.entry) <==> prefix.contains(v.entry) || v.entry
                            == id) by {
                            if v.entry == id {
                                assert(longer[i as int] == id);
                            }
                            if prefix.contains(v.entry) {
                                let j = choose|j: int|
                                    0 <= j < prefix.len() && prefix[j] == v.entry;
                                assert(longer[j] == v.entry);
                            }
                            if longer.contains(v.entry) && v.entry != id {
                                let j = choose|j: int|
                                    0 <= j < longer.len() && longer[j] == v.entry;
                                assert(prefix[j] == v.entry);
                            }
                        }
                    }
                }
            }
            i += 1;
        }
        proof {
            assert(listing.take(listing.len() as int) =~= listing);
            assert forall|v: VersionModel| #[trigger] found.deep_view().contains(v)
                <==> db.referrers(referent, historical).contains(v) by {
                if db.referrers(referent, historical).contains(v) {
                    assert(db.entries.dom().contains(v.entry));
                    assert(listing.contains(v.entry));
                }
            }
            assert(found.deep_view() =~= db.referrers(referent, historical));
        }
        found
    }

    /// Collect the versions that currently reference the given attachment id, derived from the
    /// `name -> AttachmentId` maps of the versions. With `include_historical` false, only the live
    /// versions are returned.
    pub fn attachment_referrers(&self, id: AttachmentId, include_historical: bool) -> (result: Vec<
        VersionId,
    >)
        ensures
            result.deep_view() == order::ordered::<VersionId>(
                self.deep_view().referrers(Referent::Attachment(id), include_historical),
            ),
            order::lists::<VersionId>(
                result.deep_view(),
                self.deep_view().referrers(Referent::Attachment(id), include_historical),
            ),
    {
        self.versions_mentioning(Referent::Attachment(id), include_historical).members()
    }

    /// Collect the versions that currently show the given custom icon, derived from the `icon`
    /// fields of the versions. With `include_historical` false, only the live versions are
    /// returned.
    pub fn custom_icon_referrers(&self, id: CustomIconId, include_historical: bool) -> (result: Vec<
        VersionId,
    >)
        ensures
            result.deep_view() == order::ordered::<VersionId>(
                self.deep_view().referrers(Referent::Icon(id), include_historical),
            ),
            order::lists::<VersionId>(
                result.deep_view(),
                self.deep_view().referrers(Referent::Icon(id), include_historical),
            ),
    {
        self.versions_mentioning(Referent::Icon(id), include_historical).members()
    }

    /// Map each still-referenced attachment id to the versions that reference it across every live
    /// and history entry. This walk over the entries' `name -> AttachmentId` maps is the
    /// authoritative source of truth for which binaries are in use.
    pub fn attachment_references(&self) -> (result: SortedMap<AttachmentId, SortedSet<VersionId>>)
        ensures
            result.deep_view() == self.deep_view().references(),
    {
        let ghost db = self.deep_view();
        let in_use = self.attachments_in_use();
        let mut result: SortedMap<AttachmentId, SortedSet<VersionId>> = SortedMap::new();
        let ids = in_use.members();
        let ghost listing = ids.deep_view();
        let mut i: usize = 0;
        while i < ids.len()
            invariant
                db == self.deep_view(),
                listing == ids.deep_view(),
                order::lists::<AttachmentId>(listing, in_use.deep_view()),
                i <= ids@.len(),
                result.deep_view() == Map::new(
                    |a: AttachmentId| listing.take(i as int).contains(a),
                    |a: AttachmentId| db.referrers(Referent::Attachment(a), true),
                ),
            decreases ids@.len() - i,
        {
            let id = ids[i];
            let versions = self.versions_mentioning(Referent::Attachment(id), true);
            result.insert(id, versions);
            proof {
                let prefix = listing.take(i as int);
                let longer = listing.take(i + 1);
                assert(listing[i as int] == id);
                assert(longer =~= prefix.push(id));
                assert forall|a: AttachmentId| longer.contains(a) <==> #[trigger] prefix.contains(a)
                    || a == id by {
                    if a == id {
                        assert(longer[i as int] == a);
                    }
                    if prefix.contains(a) {
                        let j = choose|j: int| 0 <= j < prefix.len() && prefix[j] == a;
                        assert(longer[j] == a);
                    }
                    if longer.contains(a) && a != id {
                        let j = choose|j: int| 0 <= j < longer.len() && longer[j] == a;
                        assert(prefix[j] == a);
                    }
                }
                assert(result.deep_view() =~= Map::new(
                    |a: AttachmentId| longer.contains(a),
                    |a: AttachmentId| db.referrers(Referent::Attachment(a), true),
                ));
            }
            i += 1;
        }
        proof {
            assert(listing.take(listing.len() as int) =~= listing);
            assert forall|a: AttachmentId| listing.contains(a) <==> #[trigger] used(
                db.entries,
                a,
            ) by {
                assert(in_use.deep_view().contains(a) <==> used(db.entries, a));
            }
            assert(result.deep_view() =~= db.references());
        }
        result
    }

    /// The attachments that some version of an entry refers to.
    pub(crate) fn attachments_in_use(&self) -> (result: SortedSet<AttachmentId>)
        ensures
            result.deep_view() == Set::new(
                |a: AttachmentId| used(self.deep_view().entries, a),
            ),
    {
        let ghost entries = self.deep_view().entries;
        let mut found: SortedSet<AttachmentId> = SortedSet::new();
        let ids = self.entries.keys();
        let ghost listing = ids.deep_view();
        let mut i: usize = 0;
        while i < ids.len()
            invariant
                entries == self.deep_view().entries,
                listing == ids.deep_view(),
                order::lists::<EntryId>(listing, entries.dom()),
                i <= ids@.len(),
                forall|a: AttachmentId| #[trigger]
                    found.deep_view().contains(a) <==> exists|j: int|
                        0 <= j < i && entries[#[trigger] listing[j]].uses(a),
            decreases ids@.len() - i,
        {
            let id = ids[i];
            let ghost before = found.deep_view();
            assert(listing[i as int] == id);
            assert(listing.contains(id));
            assert(entries.dom().contains(id));
            if let Some(entry) = self.entries.get(&id) {
                entry.collect_attachments(&mut found);
                proof {
                    assert forall|a: AttachmentId| #[trigger] found.deep_view().contains(a)
                        <==> exists|j: int|
                        0 <= j < i + 1 && entries[#[trigger] listing[j]].uses(a) by {
                        assert(before.contains(a) <==> exists|j: int|
                            0 <= j < i && entries[#[trigger] listing[j]].uses(a));
                        if entries[id].uses(a) {
                            assert(entries[listing[i as int]].uses(a));
                        }
                    }
                }
            }
            i += 1;
        }
        proof {
            assert forall|a: AttachmentId| #[trigger] found.deep_view().contains(a) <==> used(
                entries,
                a,
            ) by {
                if used(entries, a) {
                    let e = choose|e: EntryId| #[trigger]
                        entries.contains_key(e) && entries[e].uses(a);
                    assert(entries.dom().contains(e));
                    let j = choose|j: int| 0 <= j < listing.len() && listing[j] == e;
                    assert(entries[listing[j]].uses(a));
                }
                if found.deep_view().contains(a) {
                    let j = choose|j: int|
                        0 <= j < listing.len() && entries[#[trigger] listing[j]].uses(a);
                    assert(listing.contains(listing[j]));
                    assert(entries.dom().contains(listing[j]));
                    assert(entries.contains_key(listing[j]));
                }
            }
            assert(found.deep_view() =~= Set::new(|a: AttachmentId| used(entries, a)));
        }
        found
    }
}

} // verus!
