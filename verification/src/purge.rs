//! The removal of attachments and custom icons together with all that refers to them.

use vstd::prelude::*;
use crate::database;
use crate::database::Database;
use crate::database::DatabaseModel;
use crate::entry::Entry;
use crate::entry::EntryModel;
use crate::group::GroupModel;
use crate::handles::entry;
use crate::icon::Icon;
use crate::ids::AttachmentId;
use crate::ids::CustomIconId;
use crate::ids::EntryId;
use crate::ids::GroupId;
use crate::laws::upkeep;
use crate::order;
use crate::references::Referent;
use crate::tree;

verus! {

/// An icon, unless it is the custom icon that goes.
pub open spec fn icon_unless(icon: Option<Icon>, gone: CustomIconId) -> Option<Icon> {
    if icon == Some(Icon::Custom(gone)) {
        None
    } else {
        icon
    }
}

/// A version that does not mention something any more.
pub open spec fn version_without(version: EntryModel, gone: Referent) -> EntryModel {
    match gone {
        Referent::Attachment(a) => EntryModel {
            attachments: entry::names_without(version.attachments, a),
            ..version
        },
        Referent::Icon(icon) => EntryModel { icon: icon_unless(version.icon, icon), ..version },
    }
}

/// An entry none of whose versions mentions something any more.
pub open spec fn entry_without(entry: EntryModel, gone: Referent) -> EntryModel {
    EntryModel {
        history: match entry.history {
            Some(versions) => Some(
                versions.map_values(|version: EntryModel| version_without(version, gone)),
            ),
            None => None,
        },
        ..version_without(entry, gone)
    }
}

/// The database without an attachment and all references to it.
pub open spec fn attachment_purged(db: DatabaseModel, a: AttachmentId) -> DatabaseModel {
    DatabaseModel {
        entries: db.entries.map_values(
            |entry: EntryModel| entry_without(entry, Referent::Attachment(a)),
        ),
        attachments: db.attachments.remove(a),
        ..db
    }
}

/// The database without a custom icon, which entries and groups do not show any more.
pub open spec fn icon_purged(db: DatabaseModel, icon: CustomIconId) -> DatabaseModel {
    DatabaseModel {
        entries: db.entries.map_values(
            |entry: EntryModel| entry_without(entry, Referent::Icon(icon)),
        ),
        groups: db.groups.map_values(
            |group: GroupModel| GroupModel { icon: icon_unless(group.icon, icon), ..group },
        ),
        custom_icons: db.custom_icons.remove(icon),
        ..db
    }
}

/// After the removal of an attachment no version refers to it.
pub proof fn lemma_attachment_purged(db: DatabaseModel, a: AttachmentId)
    ensures
        attachment_purged(db, a).referrers(Referent::Attachment(a), true)
            == Set::<crate::references::VersionModel>::empty(),
        db.wf() ==> attachment_purged(db, a).wf(),
{
    let after = attachment_purged(db, a);
    assert(after.referrers(Referent::Attachment(a), true)
        =~= Set::<crate::references::VersionModel>::empty());
    if db.wf() {
        assert(after.groups.dom() =~= db.groups.dom());
        assert(after.entries.dom() =~= db.entries.dom());
        lemma_same_places(db, after);
    }
}

/// After the removal of an icon no version shows it.
pub proof fn lemma_icon_purged(db: DatabaseModel, icon: CustomIconId)
    ensures
        icon_purged(db, icon).referrers(Referent::Icon(icon), true)
            == Set::<crate::references::VersionModel>::empty(),
        db.wf() ==> icon_purged(db, icon).wf(),
{
    let after = icon_purged(db, icon);
    assert(after.referrers(Referent::Icon(icon), true)
        =~= Set::<crate::references::VersionModel>::empty());
    if db.wf() {
        assert(after.groups.dom() =~= db.groups.dom());
        assert(after.entries.dom() =~= db.entries.dom());
        lemma_same_places(db, after);
    }
}

/// A database whose entries and groups keep their places stays well formed.
proof fn lemma_same_places(before: DatabaseModel, after: DatabaseModel)
    requires
        before.wf(),
        after.root == before.root,
        after.groups.dom() == before.groups.dom(),
        forall|g: GroupId| #[trigger]
            after.groups.contains_key(g) ==> after.groups[g].id == before.groups[g].id
                && after.groups[g].parent == before.groups[g].parent && after.groups[g].groups
                == before.groups[g].groups && after.groups[g].entries == before.groups[g].entries,
        after.entries.dom() == before.entries.dom(),
        forall|e: EntryId| #[trigger]
            after.entries.contains_key(e) ==> after.entries[e].id == before.entries[e].id
                && after.entries[e].parent == before.entries[e].parent,
        forall|a: AttachmentId| #[trigger]
            after.attachments.contains_key(a) ==> after.attachments[a].id == a,
        forall|i: CustomIconId| #[trigger]
            after.custom_icons.contains_key(i) ==> after.custom_icons[i].id == i,
    ensures
        after.wf(),
{
    tree::lemma_same_tree(before.groups, after.groups, before.root);
    assert forall|e: EntryId| #[trigger] after.entries.contains_key(e) implies
        database::entry_placed(after.entries, after.groups, e) by {
        assert(before.entries.dom().contains(e));
        assert(database::entry_placed(before.entries, before.groups, e));
        assert(before.groups.dom().contains(before.entries[e].parent));
        assert(after.groups.contains_key(after.entries[e].parent));
    }
    assert forall|g: GroupId, e: EntryId|
        after.groups.contains_key(g) && #[trigger] after.groups[g].entries.contains(e) implies
        after.entries.contains_key(e) && after.entries[e].parent == g by {
        assert(before.groups.dom().contains(g));
        assert(before.groups[g].entries.contains(e));
        assert(before.entries.contains_key(e));
        assert(after.entries.dom().contains(e));
    }
}

impl Entry {
    /// Takes something out of this version.
    fn strip_version(&mut self, gone: Referent)
        ensures
            final(self).model() == version_without(old(self).model(), gone),
            match gone {
                Referent::Attachment(a) => {
                    &&& upkeep::left_without(
                        final(self).model().attachments,
                        old(self).model().attachments,
                        a,
                    )
                    &&& final(self).model().icon == old(self).model().icon
                },
                Referent::Icon(icon) => {
                    &&& final(self).model().attachments == old(self).model().attachments
                    &&& old(self).model().icon == Some(Icon::Custom(icon))
                        ==> final(self).model().icon is None
                    &&& old(self).model().icon != Some(Icon::Custom(icon))
                        ==> final(self).model().icon == old(self).model().icon
                },
            },
            final(self).model().id == old(self).model().id,
            final(self).model().parent == old(self).model().parent,
            final(self).model().fields == old(self).model().fields,
            final(self).model().autotype == old(self).model().autotype,
            final(self).model().tags == old(self).model().tags,
            final(self).model().times == old(self).model().times,
            final(self).model().custom_data == old(self).model().custom_data,
            final(self).model().foreground_color == old(self).model().foreground_color,
            final(self).model().background_color == old(self).model().background_color,
            final(self).model().override_url == old(self).model().override_url,
            final(self).model().quality_check == old(self).model().quality_check,
            final(self).model().previous_parent_group == old(self).model().previous_parent_group,
            final(self).model().history == old(self).model().history,
    {
        match gone {
            Referent::Attachment(a) => entry::drop_names(&mut self.attachments, a),
            Referent::Icon(icon) => {
                let shown = match self.icon {
                    Some(Icon::Custom(id)) => id == icon,
                    _ => false,
                };
                if shown {
                    self.icon = None;
                }
            },
        }
    }

    /// Takes something out of all versions of the entry.
    fn strip(&mut self, gone: Referent)
        ensures
            final(self).model() == entry_without(old(self).model(), gone),
    {
        self.strip_version(gone);
        if let Some(history) = &mut self.history {
            let ghost versions = history.model();
            let ghost stripped = versions.map_values(
                |version: EntryModel| version_without(version, gone),
            );
            let mut i: usize = 0;
            while i < history.entries.len()
                invariant
                    i <= history.entries@.len() == versions.len(),
                    stripped == versions.map_values(
                        |version: EntryModel| version_without(version, gone),
                    ),
                    forall|j: int|
                        0 <= j < i ==> (#[trigger] history.entries@[j]).model() == stripped[j],
                    forall|j: int|
                        i <= j < versions.len() ==> (#[trigger] history.entries@[j]).model()
                            == versions[j],
                decreases history.entries@.len() - i,
            {
                assert(history.entries@[i as int].model() == versions[i as int]);
                history.entries[i].strip_version(gone);
                i += 1;
            }
            assert(history.model() =~= stripped);
        }
    }
}

impl Database {
    /// Takes something out of all versions of all entries.
    fn strip_entries(&mut self, gone: Referent)
        ensures
            final(self).deep_view() == (DatabaseModel {
                entries: old(self).deep_view().entries.map_values(
                    |entry: EntryModel| entry_without(entry, gone),
                ),
                ..old(self).deep_view()
            }),
    {
        let ghost db = self.deep_view();
        let ids = self.entries.keys();
        let ghost listing = ids.deep_view();
        let mut i: usize = 0;
        while i < ids.len()
            invariant
                self.deep_view() == (DatabaseModel { entries: self.deep_view().entries, ..db }),
                listing == ids.deep_view(),
                order::lists::<EntryId>(listing, db.entries.dom()),
                i <= ids@.len(),
                self.deep_view().entries.dom() == db.entries.dom(),
                forall|e: EntryId| #[trigger]
                    db.entries.contains_key(e) ==> self.deep_view().entries[e] == (
                    if listing.take(i as int).contains(e) {
                        entry_without(db.entries[e], gone)
                    } else {
                        db.entries[e]
                    }),
            decreases ids@.len() - i,
        {
            let id = ids[i];
            proof {
                assert(listing[i as int] == id);
                assert(listing.contains(id));
                assert(db.entries.dom().contains(id));
                order::lemma_take_next(listing, i as int);
                order::lemma_increasing_no_duplicates::<EntryId>(listing);
                if listing.take(i as int).contains(id) {
                    let j = choose|j: int| 0 <= j < i && listing.take(i as int)[j] == id;
                    assert(listing[j] == id);
                }
            }
            if let Some(entry) = self.entries.get_mut(&id) {
                entry.strip(gone);
            }
            assert(self.deep_view().entries.dom() =~= db.entries.dom());
            i += 1;
        }
        proof {
            assert(listing.take(listing.len() as int) =~= listing);
            assert forall|e: EntryId| #[trigger] db.entries.contains_key(e) implies
                self.deep_view().entries[e] == entry_without(db.entries[e], gone) by {
                assert(db.entries.dom().contains(e));
                assert(listing.contains(e));
            }
            assert(self.deep_view().entries =~= db.entries.map_values(
                |entry: EntryModel| entry_without(entry, gone),
            ));
        }
    }

    /// Removes an attachment from the pool, and all references to it.
    pub fn purge_attachment(&mut self, a: AttachmentId)
        ensures
            final(self).deep_view() == attachment_purged(old(self).deep_view(), a),
            old(self).wf() ==> final(self).wf(),
    {
        proof {
            lemma_attachment_purged(self.deep_view(), a);
        }
        self.strip_entries(Referent::Attachment(a));
        self.attachments.remove(&a);
    }

    /// Removes a custom icon, which entries and groups do not show any more.
    pub fn purge_icon(&mut self, icon: CustomIconId)
        ensures
            final(self).deep_view() == icon_purged(old(self).deep_view(), icon),
            old(self).wf() ==> final(self).wf(),
    {
        proof {
            lemma_icon_purged(self.deep_view(), icon);
        }
        self.strip_entries(Referent::Icon(icon));
        let ghost db = self.deep_view();
        let ids = self.groups.keys();
        let ghost listing = ids.deep_view();
        let mut i: usize = 0;
        while i < ids.len()
            invariant
                self.deep_view() == (DatabaseModel { groups: self.deep_view().groups, ..db }),
                listing == ids.deep_view(),
                order::lists::<GroupId>(listing, db.groups.dom()),
                i <= ids@.len(),
                self.deep_view().groups.dom() == db.groups.dom(),
                forall|g: GroupId| #[trigger]
                    db.groups.contains_key(g) ==> self.deep_view().groups[g] == (
                    if listing.take(i as int).contains(g) {
                        GroupModel { icon: icon_unless(db.groups[g].icon, icon), ..db.groups[g] }
                    } else {
                        db.groups[g]
                    }),
            decreases ids@.len() - i,
        {
            let id = ids[i];
            proof {
                assert(listing[i as int] == id);
                assert(listing.contains(id));
                assert(db.groups.dom().contains(id));
                order::lemma_take_next(listing, i as int);
                order::lemma_increasing_no_duplicates::<GroupId>(listing);
                if listing.take(i as int).contains(id) {
                    let j = choose|j: int| 0 <= j < i && listing.take(i as int)[j] == id;
                    assert(listing[j] == id);
                }
            }
            if let Some(group) = self.groups.get_mut(&id) {
                let shown = match group.icon {
                    Some(Icon::Custom(shown)) => shown == icon,
                    _ => false,
                };
                if shown {
                    group.icon = None;
                }
            }
            assert(self.deep_view().groups.dom() =~= db.groups.dom());
            i += 1;
        }
        proof {
            assert(listing.take(listing.len() as int) =~= listing);
            assert forall|g: GroupId| #[trigger] db.groups.contains_key(g) implies
                self.deep_view().groups[g] == (GroupModel {
                icon: icon_unless(db.groups[g].icon, icon),
                ..db.groups[g]
            }) by {
                assert(db.groups.dom().contains(g));
                assert(listing.contains(g));
            }
            assert(self.deep_view().groups =~= db.groups.map_values(
                |group: GroupModel| GroupModel { icon: icon_unless(group.icon, icon), ..group },
            ));
        }
        self.custom_icons.remove(&icon);
    }
}

} // verus!
