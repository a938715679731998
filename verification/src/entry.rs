//! Diff entries: the classification markers and the paths they concern.

use vstd::prelude::*;

verus! {

/// The four drift classifications a path can receive.
#[derive(Clone, Copy, Debug, PartialEq, Eq, Structural)]
pub enum Marker {
    /// Present on disk but owned by no package.
    Untracked,
    /// Mirror-managed file whose live content differs from the mirror.
    RepoChanged,
    /// Package-owned file missing from disk.
    Deleted,
    /// Package backup file whose live content differs from its recorded fingerprint.
    BackupChanged,
}

/// Mathematical image of a diff entry: a marker and a store-relative path.
pub ghost struct EntryModel {
    pub marker: Marker,
    pub path: Seq<char>,
}

/// One classified discrepancy: a marker paired with the store-relative path.
#[derive(Debug)]
pub struct DiffEntry {
    pub marker: Marker,
    pub path: String,
}

impl View for DiffEntry {
    type V = EntryModel;

    open spec fn view(&self) -> EntryModel {
        EntryModel { marker: self.marker, path: self.path@ }
    }
}

/// The models of a sequence of diff entries.
pub open spec fn entry_views(s: Seq<DiffEntry>) -> Seq<EntryModel> {
    s.map_values(|e: DiffEntry| e@)
}

/// The views of a sequence of strings.
pub open spec fn str_views(s: Seq<String>) -> Seq<Seq<char>> {
    s.map_values(|p: String| p@)
}

pub open spec fn untracked(p: Seq<char>) -> EntryModel {
    EntryModel { marker: Marker::Untracked, path: p }
}

pub open spec fn repo_changed(p: Seq<char>) -> EntryModel {
    EntryModel { marker: Marker::RepoChanged, path: p }
}

pub open spec fn deleted(p: Seq<char>) -> EntryModel {
    EntryModel { marker: Marker::Deleted, path: p }
}

pub open spec fn backup_changed(p: Seq<char>) -> EntryModel {
    EntryModel { marker: Marker::BackupChanged, path: p }
}

/// How many entries of `s` carry the path `p`.
pub open spec fn count_path(s: Seq<EntryModel>, p: Seq<char>) -> nat
    decreases s.len(),
{
    if s.len() == 0 {
        0
    } else {
        (if s[0].path == p {
            1nat
        } else {
            0nat
        }) + count_path(s.drop_first(), p)
    }
}

} // verus!
