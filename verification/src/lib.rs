//! Core of a deduplicating backup tool's restore path: an in-archive path
//! model, tree snapshots, band selection, exclusion filtering, and the
//! engine that copies one tree into a restore destination.

pub mod apath;
pub mod archive;
pub mod band;
pub mod copy;
pub mod entry;
pub mod errors;
pub mod excludes;
pub mod options;
pub mod report;
pub mod restore;
pub mod stats;
pub mod tree;

pub use apath::Apath;
pub use archive::Archive;
pub use band::{BandId, BandSelectionPolicy};
pub use copy::copy_tree;
pub use entry::{Entry, Kind};
pub use errors::Error;
pub use options::RestoreOptions;
pub use report::{Problem, Report};
pub use restore::{FsNode, FsPayload, RestoreTree};
pub use stats::CopyStats;
pub use tree::StoredTree;
