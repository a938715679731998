//! Audits a managed filesystem tree against a package manifest and a
//! repository mirror, classifying drift into four kinds of diff entry:
//! untracked files, changed mirror-managed files, deleted package files,
//! and changed package backup files.
//!
//! The reconciliation engine works over plain values: the callers perform
//! the disk walks, ignore-pattern queries and stat calls, and hand the
//! answers in; the engine's four phases classify every path and its report
//! is rendered as sorted, line-oriented text.

pub mod backup;
pub mod engine;
pub mod entry;
pub mod hasher;
pub mod laws;
pub mod report;
pub mod strings;
pub mod track;

pub use entry::{DiffEntry, EntryModel, Marker};
