//! Disk-usage visualisation and safety-first cache cleaning.
//!
//! Everything that is decided or computed stands here, verified: what a walk
//! keeps and how it becomes a tree ([`scanner`], [`models`]), what a cleanup
//! would remove ([`planning`], [`registry`]), which locations are never
//! touched ([`jail`]), how items are removed and reported ([`execution`]),
//! and what is shown ([`ui`]). The file system and the terminal are read and
//! written around the library, which takes and gives plain values.

pub mod binary64;
pub mod census;
pub mod cleaner;
pub mod cli;
pub mod errors;
pub mod execution;
pub mod flow;
pub mod jail;
pub mod models;
pub mod palette;
pub mod path;
pub mod planning;
pub mod registry;
pub mod scanner;
pub mod text;
pub mod ui;
pub mod util;
pub mod width;

pub use errors::DiskPulseError;
pub use models::{
    CleanItem, CleanItemResult, CleanItemStatus, CleanPlan, CleanReport, DirectoryNode, EntryKind,
    FileEntry, ScanResult, ScanSummary, TargetSummary,
};
