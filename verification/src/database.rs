//! The database: everything it holds, and when it is well formed.

use vstd::prelude::*;
use crate::attachment::Attachment;
use crate::attachment::AttachmentModel;
use crate::config::DatabaseConfig;
use crate::config::Meta;
use crate::content::Content;
use crate::entry::Entry;
use crate::entry::EntryModel;
use crate::group::Group;
use crate::group::GroupModel;
use crate::icon::CustomIcon;
use crate::icon::CustomIconModel;
use crate::ids;
use crate::ids::AttachmentId;
use crate::ids::CustomIconId;
use crate::ids::EntryId;
use crate::ids::GroupId;
use crate::ids::Uuid;
use crate::sorted_map::SortedMap;
use crate::times::Times;
use crate::times::Timestamp;

verus! {

/// A decrypted KeePass database
#[derive(Debug, PartialEq, Eq)]
pub struct Database {
    /// Configuration settings of the database such as encryption and compression algorithms
    pub config: DatabaseConfig,
    /// Metadata of the KeePass database
    pub meta: Meta,
    /// Root node of the KeePass database
    pub root: GroupId,
    /// All attachments in the database, by identifier
    pub attachments: SortedMap<AttachmentId, Attachment>,
    /// All custom icons in the database, by identifier
    pub custom_icons: SortedMap<CustomIconId, CustomIcon>,
    /// All entries in the database, by identifier
    pub entries: SortedMap<EntryId, Entry>,
    /// All groups in the database, by identifier
    pub groups: SortedMap<GroupId, Group>,
    /// References to previously-deleted objects and their deletion times.
    pub deleted_objects: SortedMap<Uuid, Option<Timestamp>>,
}

/// The groups of a database by identifier.
pub type Groups = Map<GroupId, GroupModel>;

/// The entries of a database by identifier.
pub type Entries = Map<EntryId, EntryModel>;

/// What a [Database] holds.
#[verifier::ext_equal]
pub struct DatabaseModel {
    /// Configuration settings.
    pub config: DatabaseConfig,
    /// Metadata.
    pub meta: Meta,
    /// The root group.
    pub root: GroupId,
    /// The attachments.
    pub attachments: Map<AttachmentId, AttachmentModel>,
    /// The custom icons.
    pub custom_icons: Map<CustomIconId, CustomIconModel>,
    /// The entries.
    pub entries: Map<EntryId, EntryModel>,
    /// The groups.
    pub groups: Map<GroupId, GroupModel>,
    /// Deleted objects and when they were deleted.
    pub deleted_objects: Map<Uuid, Option<Timestamp>>,
}

impl DeepView for Database {
    type V = DatabaseModel;

    open spec fn deep_view(&self) -> DatabaseModel {
        DatabaseModel {
            config: self.config,
            meta: self.meta,
            root: self.root,
            attachments: self.attachments.deep_view(),
            custom_icons: self.custom_icons.deep_view(),
            entries: self.entries.deep_view(),
            groups: self.groups.deep_view(),
            deleted_objects: self.deleted_objects.deep_view(),
        }
    }
}

/// Whether every group stands deeper than its parent, by the given depths.
pub open spec fn deeper_than_parent(groups: Groups, depth: spec_fn(GroupId) -> nat) -> bool {
    forall|g: GroupId| #[trigger]
        groups.contains_key(g) ==> match groups[g].parent {
            Some(p) => depth(p) < depth(g),
            None => true,
        }
}

/// Whether no group stands below itself.
pub open spec fn acyclic(groups: Groups) -> bool {
    exists|depth: spec_fn(GroupId) -> nat| deeper_than_parent(groups, depth)
}

/// Whether the group with this identifier is in the right place: it carries the identifier, its
/// parent lists it (the root has no parent), and each group that it lists has it as parent.
pub open spec fn group_placed(groups: Groups, root: GroupId, g: GroupId) -> bool {
    &&& groups[g].id == g
    &&& match groups[g].parent {
        Some(p) => g != root && groups.contains_key(p) && groups[p].groups.contains(g),
        None => g == root,
    }
    &&& forall|c: GroupId| #[trigger]
        groups[g].groups.contains(c) ==> groups.contains_key(c) && groups[c].parent == Some(g)
}

/// Whether the groups make up a tree under the root.
pub open spec fn is_tree(groups: Groups, root: GroupId) -> bool {
    &&& groups.contains_key(root)
    &&& forall|g: GroupId| #[trigger] groups.contains_key(g) ==> group_placed(groups, root, g)
    &&& acyclic(groups)
}

/// Whether the entry with this identifier carries it, and its parent is there and lists it.
pub open spec fn entry_placed(entries: Entries, groups: Groups, e: EntryId) -> bool {
    &&& entries[e].id == e
    &&& groups.contains_key(entries[e].parent)
    &&& groups[entries[e].parent].entries.contains(e)
}

/// Whether entries and groups fit together: each entry is listed by its parent, and by no other
/// group.
pub open spec fn entries_placed(entries: Entries, groups: Groups) -> bool {
    &&& forall|e: EntryId| #[trigger]
        entries.contains_key(e) ==> entry_placed(entries, groups, e)
    &&& forall|g: GroupId, e: EntryId|
        groups.contains_key(g) && #[trigger] groups[g].entries.contains(e) ==> entries.contains_key(
            e,
        ) && entries[e].parent == g
}

impl DatabaseModel {
    /// Whether the database is well formed: its groups make up a tree, its entries stand in it,
    /// and attachments and icons carry the identifiers under which they are stored.
    pub open spec fn wf(self) -> bool {
        &&& is_tree(self.groups, self.root)
        &&& entries_placed(self.entries, self.groups)
        &&& forall|a: AttachmentId| #[trigger]
            self.attachments.contains_key(a) ==> self.attachments[a].id == a
        &&& forall|i: CustomIconId| #[trigger]
            self.custom_icons.contains_key(i) ==> self.custom_icons[i].id == i
    }

    /// Whether the database holds finitely many objects, as every database in memory does.
    pub open spec fn finite(self) -> bool {
        &&& self.attachments.dom().finite()
        &&& self.custom_icons.dom().finite()
        &&& self.entries.dom().finite()
        &&& self.groups.dom().finite()
        &&& self.deleted_objects.dom().finite()
    }

    /// A database with nothing but a root group.
    pub open spec fn initial(config: DatabaseConfig, root: GroupId, times: Times) -> DatabaseModel {
        DatabaseModel {
            config,
            meta: Meta::initial(),
            root,
            attachments: Map::empty(),
            custom_icons: Map::empty(),
            entries: Map::empty(),
            groups: Map::empty().insert(root, GroupModel::fresh(root, None, times)),
            deleted_objects: Map::empty(),
        }
    }
}

impl Content for Database {
    fn duplicate(&self) -> (result: Self) {
        Database {
            config: self.config,
            meta: self.meta,
            root: self.root,
            attachments: self.attachments.duplicate(),
            custom_icons: self.custom_icons.duplicate(),
            entries: self.entries.duplicate(),
            groups: self.groups.duplicate(),
            deleted_objects: self.deleted_objects.duplicate(),
        }
    }

    fn same_as(&self, other: &Self) -> (result: bool) {
        self.config == other.config && (match (
            self.meta.recyclebin_uuid,
            other.meta.recyclebin_uuid,
        ) {
            (Some(x), Some(y)) => x == y,
            (None, None) => true,
            _ => false,
        }) && self.root == other.root && self.attachments.same_as(&other.attachments)
            && self.custom_icons.same_as(&other.custom_icons) && self.entries.same_as(
            &other.entries,
        ) && self.groups.same_as(&other.groups) && self.deleted_objects.same_as(
            &other.deleted_objects,
        )
    }
}

impl Clone for Database {
    fn clone(&self) -> (result: Self)
        ensures
            result.deep_view() == self.deep_view(),
    {
        self.duplicate()
    }
}

impl Database {
    /// Whether the database is well formed.
    pub open spec fn wf(&self) -> bool {
        self.deep_view().wf()
    }

    /// Create a new database with a single root group and no entries, groups, or attachments.
    ///
    /// The root group will be assigned a new random UUID.
    pub fn new() -> (result: Self)
        ensures
            result.wf(),
            ids::version_four(result.root.0.0),
            exists|now: Timestamp|
                now.is_reading() && #[trigger] DatabaseModel::initial(DatabaseConfig::initial(), result.root, Times::fresh(now))
                    == result.deep_view(),
    {
        Self::new_with_root_id(GroupId::new())
    }

    /// Create a new database with the given configuration and a single root group.
    ///
    /// The root group will be assigned a new random UUID.
    pub fn with_config(config: DatabaseConfig) -> (result: Self)
        ensures
            result.wf(),
            ids::version_four(result.root.0.0),
            exists|now: Timestamp|
                now.is_reading() && #[trigger] DatabaseModel::initial(config, result.root, Times::fresh(now))
                    == result.deep_view(),
    {
        Self::with_data(config, GroupId::new())
    }

    /// Create a new database with a single root group that has the given identifier.
    pub fn new_with_root_id(root_id: GroupId) -> (result: Self)
        ensures
            result.wf(),
            exists|now: Timestamp|
                now.is_reading() && #[trigger] DatabaseModel::initial(DatabaseConfig::initial(), root_id, Times::fresh(now))
                    == result.deep_view(),
    {
        Self::with_data(DatabaseConfig::default(), root_id)
    }

    /// Create a new database with the given configuration and a single root group that has the
    /// given identifier.
    pub fn with_data(config: DatabaseConfig, root_id: GroupId) -> (result: Self)
        ensures
            result.wf(),
            exists|now: Timestamp|
                now.is_reading() && #[trigger] DatabaseModel::initial(config, root_id, Times::fresh(now)) == result.deep_view(),
    {
        let root = Group::with_id(root_id, None);
        let ghost root_model = root.deep_view();
        let mut groups = SortedMap::new();
        groups.insert(root_id, root);
        let result = Database {
            config,
            meta: Meta::default(),
            root: root_id,
            attachments: SortedMap::new(),
            custom_icons: SortedMap::new(),
            entries: SortedMap::new(),
            groups,
            deleted_objects: SortedMap::new(),
        };
        proof {
            let now = choose|now: Timestamp|
                now.is_reading() && #[trigger] GroupModel::fresh(root_id, None, Times::fresh(now)) == root_model;
            assert(result.deep_view() =~= DatabaseModel::initial(
                config,
                root_id,
                Times::fresh(now),
            ));
            let depth = |g: GroupId| 0nat;
            assert(deeper_than_parent(result.deep_view().groups, depth));
        }
        result
    }

    /// An identifier for a new entry: a random one, or another one if that is taken.
    pub(crate) fn unused_entry_id(&self) -> (result: EntryId)
        ensures
            ids::version_four(result.0.0),
            !self.deep_view().entries.contains_key(result),
    {
        let id = EntryId::new();
        if !self.entries.contains_key(&id) {
            return id;
        }
        let keys = self.entries.keys();
        let mut taken: Vec<Uuid> = Vec::new();
        let mut i: usize = 0;
        while i < keys.len()
            invariant
                i <= keys@.len(),
                taken@.len() == i,
                forall|j: int| 0 <= j < i ==> (#[trigger] taken@[j]) == keys@[j].0,
            decreases keys@.len() - i,
        {
            taken.push(keys[i].uuid());
            i += 1;
        }
        let other = EntryId(ids::unlisted(&taken));
        proof {
            if self.deep_view().entries.contains_key(other) {
                let listing = keys.deep_view();
                assert(self.deep_view().entries.dom().contains(other));
                assert(listing.contains(other));
                let n = choose|n: int| 0 <= n < listing.len() && listing[n] == other;
                assert(taken@[n] == other.0);
            }
        }
        other
    }

    /// An identifier for a new group: a random one, or another one if that is taken.
    pub(crate) fn unused_group_id(&self) -> (result: GroupId)
        ensures
            ids::version_four(result.0.0),
            !self.deep_view().groups.contains_key(result),
    {
        let id = GroupId::new();
        if !self.groups.contains_key(&id) {
            return id;
        }
        let keys = self.groups.keys();
        let mut taken: Vec<Uuid> = Vec::new();
        let mut i: usize = 0;
        while i < keys.len()
            invariant
                i <= keys@.len(),
                taken@.len() == i,
                forall|j: int| 0 <= j < i ==> (#[trigger] taken@[j]) == keys@[j].0,
            decreases keys@.len() - i,
        {
            taken.push(keys[i].uuid());
            i += 1;
        }
        let other = GroupId(ids::unlisted(&taken));
        proof {
            if self.deep_view().groups.contains_key(other) {
                let listing = keys.deep_view();
                assert(self.deep_view().groups.dom().contains(other));
                assert(listing.contains(other));
                let n = choose|n: int| 0 <= n < listing.len() && listing[n] == other;
                assert(taken@[n] == other.0);
            }
        }
        other
    }

    /// Get the number of attachments in the database
    pub fn num_attachments(&self) -> (result: usize)
        ensures
            result == self.deep_view().attachments.dom().len(),
            self.deep_view().attachments.dom().finite(),
    {
        self.attachments.len()
    }

    /// Get the number of custom icons in the database
    pub fn num_custom_icons(&self) -> (result: usize)
        ensures
            result == self.deep_view().custom_icons.dom().len(),
            self.deep_view().custom_icons.dom().finite(),
    {
        self.custom_icons.len()
    }

    /// Get the number of entries in the database
    pub fn num_entries(&self) -> (result: usize)
        ensures
            result == self.deep_view().entries.dom().len(),
            self.deep_view().entries.dom().finite(),
    {
        self.entries.len()
    }

    /// Get the number of groups in the database, including the root group and the recycle bin (if
    /// it exists)
    pub fn num_groups(&self) -> (result: usize)
        ensures
            result == self.deep_view().groups.dom().len(),
            self.deep_view().groups.dom().finite(),
    {
        self.groups.len()
    }
}

} // verus!
