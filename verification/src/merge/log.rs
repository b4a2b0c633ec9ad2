//! What a merge changed, what it warns of, and why it can fail.

use vstd::prelude::*;
use crate::group::MoveGroupError;
use crate::ids;
use crate::ids::CustomIconId;
use crate::ids::EntryId;
use crate::ids::GroupId;
use crate::text;
use crate::times;
use crate::times::Timestamp;

verus! {

/// The kind of change a merge applied to an object.
#[derive(Debug, Clone, Copy, PartialEq, Eq, Structural)]
#[non_exhaustive]
pub enum MergeEventType {
    /// The object existed only in the source and was created in the destination.
    Created,
    /// The object was deleted as a result of the merge.
    Deleted,
    /// The object was moved to a different location (parent group).
    LocationUpdated,
    /// The object's contents were updated from the source.
    Updated,
}

/// The object a [`MergeEvent`] applies to.
#[derive(Debug, Clone, Copy, PartialEq, Eq, Structural)]
#[non_exhaustive]
pub enum MergeEventTarget {
    /// An entry, identified by its UUID.
    Entry(EntryId),
    /// A group, identified by its UUID.
    Group(GroupId),
    /// A custom icon, identified by its UUID.
    Icon(CustomIconId),
}

/// A single change applied to the destination database during a merge.
#[derive(Debug, Clone, Copy, PartialEq, Eq, Structural)]
pub struct MergeEvent {
    /// The object that was changed.
    pub target: MergeEventTarget,
    /// The kind of change that was applied.
    pub event_type: MergeEventType,
}

/// Errors while merge two databases
#[derive(Debug, Clone, Copy, PartialEq, Eq)]
#[non_exhaustive]
pub enum MergeError {
    /// Two entries with the same UUID have the same modification time but different contents.
    EntryModificationTimeNotUpdated(EntryId),
    /// Two groups with the same UUID have the same modification time but different contents.
    GroupModificationTimeNotUpdated(GroupId),
    /// An entry has two history items sharing the same timestamp, so their order is ambiguous.
    DuplicateHistoryEntries(Timestamp, EntryId),
    /// A group could not be moved to its merged location.
    MoveGroupError(MoveGroupError),
}

impl MergeError {
    /// What the message of the error says.
    pub open spec fn spec_message(self) -> Seq<char> {
        match self {
            MergeError::EntryModificationTimeNotUpdated(id) => "Entries with UUID "@
                + ids::hyphenated(id.0.0)
                + " have the same modification time but have diverged."@,
            MergeError::GroupModificationTimeNotUpdated(id) => "Groups with UUID "@
                + ids::hyphenated(id.0.0)
                + " have the same modification time but have diverged."@,
            MergeError::DuplicateHistoryEntries(time, id) =>
            "Found history entries with the same timestamp ("@ + times::timestamp_text(
                time.spec_seconds(),
                time.spec_nanos(),
            ) + ") for entry "@ + ids::hyphenated(id.0.0) + "."@,
            MergeError::MoveGroupError(error) => error.spec_message(),
        }
    }

    /// The message of the error.
    pub fn message(&self) -> (result: String)
        ensures
            result@ == self.spec_message(),
    {
        match self {
            MergeError::EntryModificationTimeNotUpdated(id) => text::join3(
                "Entries with UUID ",
                id.text().as_str(),
                " have the same modification time but have diverged.",
            ),
            MergeError::GroupModificationTimeNotUpdated(id) => text::join3(
                "Groups with UUID ",
                id.text().as_str(),
                " have the same modification time but have diverged.",
            ),
            MergeError::DuplicateHistoryEntries(time, id) => text::join5(
                "Found history entries with the same timestamp (",
                time.text().as_str(),
                ") for entry ",
                id.text().as_str(),
                ".",
            ),
            MergeError::MoveGroupError(error) => error.message(),
        }
    }
}

impl From<MoveGroupError> for MergeError {
    fn from(error: MoveGroupError) -> (result: Self) {
        MergeError::MoveGroupError(error)
    }
}

impl vstd::std_specs::convert::FromSpecImpl<MoveGroupError> for MergeError {
    open spec fn obeys_from_spec() -> bool {
        true
    }

    open spec fn from_spec(error: MoveGroupError) -> Self {
        MergeError::MoveGroupError(error)
    }
}

/// Record of everything a merge changed.
#[derive(Debug, Clone)]
pub struct MergeLog {
    /// Non-fatal issues encountered during the merge.
    pub warnings: Vec<String>,
    /// The changes that were applied to the destination database.
    pub events: Vec<MergeEvent>,
}

/// What a [MergeLog] holds.
#[verifier::ext_equal]
pub struct LogModel {
    /// The warnings.
    pub warnings: Seq<Seq<char>>,
    /// The changes.
    pub events: Seq<MergeEvent>,
}

impl DeepView for MergeLog {
    type V = LogModel;

    open spec fn deep_view(&self) -> LogModel {
        LogModel { warnings: self.warnings.deep_view(), events: self.events@ }
    }
}

impl LogModel {
    /// A log of nothing.
    pub open spec fn blank() -> LogModel {
        LogModel { warnings: Seq::empty(), events: Seq::empty() }
    }

    /// The log with one more warning.
    pub open spec fn warned(self, warning: Seq<char>) -> LogModel {
        LogModel { warnings: self.warnings.push(warning), ..self }
    }

    /// The log with one more warning, if there is something to warn of.
    pub open spec fn warned_if(self, condition: bool, warning: Seq<char>) -> LogModel {
        if condition {
            self.warned(warning)
        } else {
            self
        }
    }

    /// The log with one more change.
    pub open spec fn noted(self, target: MergeEventTarget, event_type: MergeEventType) -> LogModel {
        LogModel { events: self.events.push(MergeEvent { target, event_type }), ..self }
    }
}

impl MergeLog {
    /// A log of nothing.
    pub fn new() -> (result: MergeLog)
        ensures
            result.deep_view() == LogModel::blank(),
    {
        let result = MergeLog { warnings: Vec::new(), events: Vec::new() };
        assert(result.deep_view() =~= LogModel::blank());
        result
    }

    /// Adds a warning.
    pub(crate) fn warn(&mut self, warning: String)
        ensures
            final(self).deep_view() == old(self).deep_view().warned(warning@),
    {
        self.warnings.push(warning);
        assert(self.deep_view() =~= old(self).deep_view().warned(warning@));
    }

    /// Adds a change.
    pub(crate) fn note(&mut self, target: MergeEventTarget, event_type: MergeEventType)
        ensures
            final(self).deep_view() == old(self).deep_view().noted(target, event_type),
    {
        self.events.push(MergeEvent { target, event_type });
    }
}

impl Default for MergeLog {
    fn default() -> (result: Self)
        ensures
            result.deep_view() == LogModel::blank(),
    {
        MergeLog::new()
    }
}

} // verus!
