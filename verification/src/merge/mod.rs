//! Merging two versions of the same database.
//!
//! See [`Database::merge`] for the entry point. The types in [`log`] describe what a merge
//! changed, via the returned [`MergeLog`].

pub mod entries;
pub mod groups;
pub mod history;
pub mod icons;
pub mod log;
pub mod rules;

use vstd::prelude::*;
use crate::config::DatabaseConfig;
use crate::config::Meta;
use crate::content::Content;
use crate::database::Database;
use crate::database::DatabaseModel;
use crate::ids::GroupId;
use crate::ids::Uuid;
use crate::merge::entries::Progress;
use crate::merge::log::LogModel;
use crate::merge::log::MergeError;
use crate::merge::log::MergeLog;
use crate::sorted_map::SortedMap;
use crate::times::Times;
use crate::times::Timestamp;

verus! {

/// An ancestor of which nothing is known: it holds nothing at all.
pub open spec fn no_ancestor() -> DatabaseModel {
    DatabaseModel {
        config: DatabaseConfig::initial(),
        meta: Meta::initial(),
        root: GroupId(Uuid(0)),
        attachments: Map::empty(),
        custom_icons: Map::empty(),
        entries: Map::empty(),
        groups: Map::empty(),
        deleted_objects: Map::empty(),
    }
}

/// Whether two databases can be merged: each group that the merge adds to the destination has a
/// place there. Two versions of the same database share their root group, and then this holds.
pub open spec fn mergeable(dest: DatabaseModel, source: DatabaseModel, base: DatabaseModel) -> bool {
    groups::mergeable(icons::icons_merged(dest, source, base), source)
}

/// What becomes of a database by a merge at a given time: first the icons are merged, then the
/// groups with the entries.
pub open spec fn merged(
    dest: DatabaseModel,
    source: DatabaseModel,
    base: DatabaseModel,
    now: Timestamp,
) -> Progress {
    groups::groups_merged(
        entries::going(
            icons::icons_merged(dest, source, base),
            icons::icons_log(dest, source, base, LogModel::blank()),
        ),
        source,
        base,
        now,
    )
}

/// Whether the merge came out as described.
pub open spec fn outcome(
    expected: Progress,
    db: DatabaseModel,
    result: Result<MergeLog, MergeError>,
) -> bool {
    &&& db == expected.db
    &&& match result {
        Ok(log) => expected.error is None && log.deep_view() == expected.log,
        Err(error) => expected.error == Some(error),
    }
}

impl Database {
    /// A database that holds nothing, not even a root group: the ancestor when none is known.
    fn hollow() -> (result: Database)
        ensures
            result.deep_view() == no_ancestor(),
    {
        let result = Database {
            config: DatabaseConfig::default(),
            meta: Meta::default(),
            root: GroupId(Uuid(0)),
            attachments: SortedMap::new(),
            custom_icons: SortedMap::new(),
            entries: SortedMap::new(),
            groups: SortedMap::new(),
            deleted_objects: SortedMap::new(),
        };
        assert(result.deep_view() =~= no_ancestor());
        result
    }

    /// Whether a database can be merged with another: each group that the merge would add has a
    /// place. Databases that do not share their root group cannot be merged, as a rule.
    pub fn can_merge(&self, other: &Database) -> (result: bool)
        requires
            other.wf(),
        ensures
            forall|ancestor: DatabaseModel|
                result == #[trigger] mergeable(self.deep_view(), other.deep_view(), ancestor),
    {
        let mut copy = self.duplicate();
        let mut log = MergeLog::new();
        icons::merge_icons(&mut copy, other, &Database::hollow(), &mut log);
        let result = groups::is_mergeable(&copy, other);
        proof {
            let dest = self.deep_view();
            let source = other.deep_view();
            assert forall|ancestor: DatabaseModel| #[trigger]
                mergeable(dest, source, ancestor) == result by {
                let start = icons::icons_merged(dest, source, ancestor);
                assert(start.deleted_objects == copy.deep_view().deleted_objects);
                assert(groups::groups_to_add(start, source) =~= groups::groups_to_add(
                    copy.deep_view(),
                    source,
                ));
            }
        }
        result
    }

    /// Merge a database with another version of the same database and a common ancestor, at the
    /// given time. The time stands in for the modification time of an object of `self` that has
    /// none. See [`Database::merge_with_ancestor`].
    pub fn merge_with_ancestor_at(
        &mut self,
        other: &Database,
        ancestor: &Database,
        now: Timestamp,
    ) -> (result: Result<MergeLog, MergeError>)
        requires
            old(self).wf(),
            other.wf(),
            mergeable(old(self).deep_view(), other.deep_view(), ancestor.deep_view()),
        ensures
            final(self).wf(),
            old(self).deep_view().sound() ==> final(self).deep_view().sound(),
            outcome(
                merged(old(self).deep_view(), other.deep_view(), ancestor.deep_view(), now),
                final(self).deep_view(),
                result,
            ),
    {
        let mut log = MergeLog::new();
        icons::merge_icons(self, other, ancestor, &mut log);
        match groups::merge_groups(self, other, ancestor, now, &mut log) {
            Ok(_) => Ok(log),
            Err(error) => Err(error),
        }
    }

    /// Merge a database with another version of the same database, at the given time. See
    /// [`Database::merge`].
    pub fn merge_at(&mut self, other: &Database, now: Timestamp) -> (result: Result<
        MergeLog,
        MergeError,
    >)
        requires
            old(self).wf(),
            other.wf(),
            mergeable(old(self).deep_view(), other.deep_view(), no_ancestor()),
        ensures
            final(self).wf(),
            old(self).deep_view().sound() ==> final(self).deep_view().sound(),
            outcome(
                merged(old(self).deep_view(), other.deep_view(), no_ancestor(), now),
                final(self).deep_view(),
                result,
            ),
    {
        self.merge_with_ancestor_at(other, &Database::hollow(), now)
    }

    /// Merge a database with another version of the same database and a common ancestor,
    /// applying the changes to self.
    ///
    /// This is a three-way merge. Providing the last-known-common ancestor lets the merge
    /// distinguish a one-sided change from a true conflict:
    ///
    /// - Changed in `self` only (since `ancestor`) → keep `self`'s value, silently.
    /// - Changed in `other` only → take `other`'s value, silently.
    /// - Changed identically in both → trivially resolved.
    /// - Changed differently in both → real conflict: resolved by newest-wins and surfaced in
    ///   [`MergeLog::warnings`].
    ///
    /// UUIDs are used to detect which entries and groups are the same across the three databases.
    /// Use [`Database::merge`] when no ancestor is available; it degrades to two-way (newest-wins)
    /// semantics, where every object looks changed on both sides.
    pub fn merge_with_ancestor(&mut self, other: &Database, ancestor: &Database) -> (result: Result<
        MergeLog,
        MergeError,
    >)
        requires
            old(self).wf(),
            other.wf(),
            mergeable(old(self).deep_view(), other.deep_view(), ancestor.deep_view()),
        ensures
            final(self).wf(),
            old(self).deep_view().sound() ==> final(self).deep_view().sound(),
            exists|now: Timestamp|
                now.is_reading() && outcome(
                    #[trigger] merged(
                        old(self).deep_view(),
                        other.deep_view(),
                        ancestor.deep_view(),
                        now,
                    ),
                    final(self).deep_view(),
                    result,
                ),
    {
        self.merge_with_ancestor_at(other, ancestor, Times::now())
    }

    /// Merge a database with another version of the same database, applying the changes to self.
    ///
    /// This is a two-way merge: conflicts are resolved by `last_modification` timestamp alone
    /// (newest-wins). When a last-known-common ancestor is available,
    /// [`Database::merge_with_ancestor`] resolves one-sided changes automatically and surfaces
    /// true conflicts more precisely.
    ///
    /// This function will use the UUIDs to detect what entries and groups are the same.
    pub fn merge(&mut self, other: &Database) -> (result: Result<MergeLog, MergeError>)
        requires
            old(self).wf(),
            other.wf(),
            mergeable(old(self).deep_view(), other.deep_view(), no_ancestor()),
        ensures
            final(self).wf(),
            old(self).deep_view().sound() ==> final(self).deep_view().sound(),
            exists|now: Timestamp|
                now.is_reading() && outcome(
                    #[trigger] merged(
                        old(self).deep_view(),
                        other.deep_view(),
                        no_ancestor(),
                        now,
                    ),
                    final(self).deep_view(),
                    result,
                ),
    {
        self.merge_at(other, Times::now())
    }
}

} // verus!
