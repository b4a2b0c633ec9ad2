//! A KeePass database in memory: entries, groups, custom icons and attachments, and the merging
//! of two versions of the same database.

pub mod attachment;
pub mod compaction;
pub mod config;
pub mod content;
pub mod database;
pub mod entry;
pub mod fields;
pub mod group;
pub mod handles;
pub mod icon;
pub mod ids;
pub mod laws;
pub mod merge;
pub mod order;
pub mod purge;
pub mod references;
pub mod remap;
pub mod removal;
pub mod sorted_map;
pub mod sorted_set;
pub mod text;
pub mod times;
pub mod tree;
pub mod value;
