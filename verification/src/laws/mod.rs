//! What holds of the library as a whole.

pub mod absorption;
pub mod ancestor;
pub mod basics;
pub mod chronicle;
pub mod compaction;
pub mod deletion;
pub mod entries;
pub mod fields;
pub mod gathering;
pub mod groups;
pub mod history;
pub mod icons;
pub mod merging;
pub mod outcome;
pub mod pool;
pub mod quiet;
pub mod record;
pub mod remapping;
pub mod remerge;
pub mod reports;
pub mod self_merge;
pub mod soundness;
pub mod underway;
pub mod upkeep;
pub mod views;
