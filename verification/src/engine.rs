//! The reconciliation engine: four classification phases over the set of
//! package-owned paths, the backup map, and the observations the caller
//! gathered from the live tree, the repository mirror, the ignore matcher
//! and the stat calls.
//!
//! Phase order matters: the live scan must finish before the deleted check
//! (it consumes what the scan left of the package-owned paths), and the mirror scan
//! must finish before the backup check (a mirrored path supersedes the
//! package's backup record). The engine enforces this with its phase flags.

use vstd::prelude::*;
use crate::backup::{remove_entry, BackupEntryModel, BackupFileMap};
use crate::entry::{
    backup_changed, deleted, entry_views, repo_changed, str_views, untracked, DiffEntry,
    EntryModel, Marker,
};
use crate::track::{lemma_remove_path_absent, remove_path, TrackedFileSet};

verus! {

/// One file seen in the repository mirror, with the fingerprints of its
/// mirror copy and of its live counterpart; `None` stands for a fingerprint
/// that could not be computed and makes the engine skip the comparison.
pub struct MirrorFile {
    pub path: String,
    pub mirror_digest: Option<String>,
    pub live_digest: Option<String>,
}

/// Mathematical image of a mirror observation.
pub ghost struct MirrorFileModel {
    pub path: Seq<char>,
    pub mirror_digest: Option<Seq<char>>,
    pub live_digest: Option<Seq<char>>,
}

impl View for MirrorFile {
    type V = MirrorFileModel;

    open spec fn view(&self) -> MirrorFileModel {
        MirrorFileModel {
            path: self.path@,
            mirror_digest: match self.mirror_digest {
                Option::Some(s) => Option::Some(s@),
                Option::None => Option::None,
            },
            live_digest: match self.live_digest {
                Option::Some(s) => Option::Some(s@),
                Option::None => Option::None,
            },
        }
    }
}

pub open spec fn mirror_views(s: Seq<MirrorFile>) -> Seq<MirrorFileModel> {
    s.map_values(|m: MirrorFile| m@)
}

/// One deleted-check observation for a still-unconfirmed package-owned path:
/// whether the direct ignore query excludes it, and whether a stat call
/// found it on disk.
pub struct PathCheck {
    pub path: String,
    pub excluded: bool,
    pub exists: bool,
}

/// Mathematical image of a deleted-check observation.
pub ghost struct PathCheckModel {
    pub path: Seq<char>,
    pub excluded: bool,
    pub exists: bool,
}

impl View for PathCheck {
    type V = PathCheckModel;

    open spec fn view(&self) -> PathCheckModel {
        PathCheckModel { path: self.path@, excluded: self.excluded, exists: self.exists }
    }
}

pub open spec fn path_check_views(s: Seq<PathCheck>) -> Seq<PathCheckModel> {
    s.map_values(|c: PathCheck| c@)
}

pub open spec fn check_paths(s: Seq<PathCheckModel>) -> Seq<Seq<char>> {
    s.map_values(|c: PathCheckModel| c.path)
}

/// One backup-check observation for a still-unsuperseded backup record:
/// the recorded fingerprint, whether the ancestor-inclusive ignore query
/// excludes the path, and the live fingerprint when it could be computed.
pub struct BackupCheck {
    pub path: String,
    pub expected: String,
    pub excluded: bool,
    pub live_digest: Option<String>,
}

/// Mathematical image of a backup-check observation.
pub ghost struct BackupCheckModel {
    pub path: Seq<char>,
    pub expected: Seq<char>,
    pub excluded: bool,
    pub live_digest: Option<Seq<char>>,
}

impl View for BackupCheck {
    type V = BackupCheckModel;

    open spec fn view(&self) -> BackupCheckModel {
        BackupCheckModel {
            path: self.path@,
            expected: self.expected@,
            excluded: self.excluded,
            live_digest: match self.live_digest {
                Option::Some(s) => Option::Some(s@),
                Option::None => Option::None,
            },
        }
    }
}

pub open spec fn backup_check_views(s: Seq<BackupCheck>) -> Seq<BackupCheckModel> {
    s.map_values(|c: BackupCheck| c@)
}

pub open spec fn check_keys(s: Seq<BackupCheckModel>) -> Seq<BackupEntryModel> {
    s.map_values(|c: BackupCheckModel| BackupEntryModel { path: c.path, digest: c.expected })
}

/// The untracked entries the live scan emits: a scanned path found in the recorded
/// set of package-owned paths silently confirms it (and removes it), any other scanned
/// path is untracked.
pub open spec fn live_scan_entries(t: Seq<Seq<char>>, live: Seq<Seq<char>>) -> Seq<EntryModel>
    decreases live.len(),
{
    if live.len() == 0 {
        Seq::empty()
    } else if t.contains(live[0]) {
        live_scan_entries(remove_path(t, live[0]), live.drop_first())
    } else {
        seq![untracked(live[0])] + live_scan_entries(t, live.drop_first())
    }
}

/// What the live scan leaves of the package-owned paths: every scanned path removed.
pub open spec fn remaining_tracked(t: Seq<Seq<char>>, live: Seq<Seq<char>>) -> Seq<Seq<char>>
    decreases live.len(),
{
    if live.len() == 0 {
        t
    } else {
        remaining_tracked(remove_path(t, live[0]), live.drop_first())
    }
}

/// Both fingerprints of a mirror observation were computed and differ.
pub open spec fn mirror_digest_differs(m: MirrorFileModel) -> bool {
    match (m.mirror_digest, m.live_digest) {
        (Option::Some(a), Option::Some(b)) => a != b,
        _ => false,
    }
}

/// The repo-changed entries the mirror scan emits.
pub open spec fn mirror_scan_entries(ms: Seq<MirrorFileModel>) -> Seq<EntryModel>
    decreases ms.len(),
{
    if ms.len() == 0 {
        Seq::empty()
    } else if mirror_digest_differs(ms[0]) {
        seq![repo_changed(ms[0].path)] + mirror_scan_entries(ms.drop_first())
    } else {
        mirror_scan_entries(ms.drop_first())
    }
}

/// What the mirror scan leaves in the backup map: every mirrored path's
/// record removed, whether or not the fingerprints could be compared.
pub open spec fn remaining_backup(
    b: Seq<BackupEntryModel>,
    ms: Seq<MirrorFileModel>,
) -> Seq<BackupEntryModel>
    decreases ms.len(),
{
    if ms.len() == 0 {
        b
    } else {
        remaining_backup(remove_entry(b, ms[0].path), ms.drop_first())
    }
}

/// A deleted-check observation that emits an entry: not excluded by the
/// direct ignore query, and absent from disk.
pub open spec fn check_missing(c: PathCheckModel) -> bool {
    !c.excluded && !c.exists
}

/// The deleted entries the deleted check emits.
pub open spec fn deleted_entries(cs: Seq<PathCheckModel>) -> Seq<EntryModel>
    decreases cs.len(),
{
    if cs.len() == 0 {
        Seq::empty()
    } else if check_missing(cs[0]) {
        seq![deleted(cs[0].path)] + deleted_entries(cs.drop_first())
    } else {
        deleted_entries(cs.drop_first())
    }
}

/// A backup-check observation that emits an entry: not excluded by the
/// ancestor-inclusive ignore query, live fingerprint computed, and that
/// fingerprint differs from the recorded one.
pub open spec fn check_changed(c: BackupCheckModel) -> bool {
    &&& !c.excluded
    &&& match c.live_digest {
        Option::Some(h) => h != c.expected,
        Option::None => false,
    }
}

/// The backup-changed entries the backup check emits.
pub open spec fn backup_changed_entries(cs: Seq<BackupCheckModel>) -> Seq<EntryModel>
    decreases cs.len(),
{
    if cs.len() == 0 {
        Seq::empty()
    } else if check_changed(cs[0]) {
        seq![backup_changed(cs[0].path)] + backup_changed_entries(cs.drop_first())
    } else {
        backup_changed_entries(cs.drop_first())
    }
}

/// The reconciliation engine: owns the manifest copies for one run, mutates
/// them phase by phase, and collects the diff entries in discovery order.
pub struct Engine {
    owned: TrackedFileSet,
    backup: BackupFileMap,
    entries: Vec<DiffEntry>,
    live_scanned: bool,
    mirror_scanned: bool,
    deleted_checked: bool,
    backup_checked: bool,
}

impl Engine {
    pub closed spec fn wf(&self) -> bool {
        self.owned.wf() && self.backup.wf()
    }

    pub closed spec fn tracked_view(&self) -> Seq<Seq<char>> {
        self.owned@
    }

    pub closed spec fn backup_view(&self) -> Seq<BackupEntryModel> {
        self.backup@
    }

    pub closed spec fn entries_view(&self) -> Seq<EntryModel> {
        entry_views(self.entries@)
    }

    pub closed spec fn live_scan_done(&self) -> bool {
        self.live_scanned
    }

    pub closed spec fn mirror_scan_done(&self) -> bool {
        self.mirror_scanned
    }

    pub closed spec fn deleted_check_done(&self) -> bool {
        self.deleted_checked
    }

    pub closed spec fn backup_check_done(&self) -> bool {
        self.backup_checked
    }

    /// A fresh engine over the manifest copies, with no phase run and no
    /// entry collected.
    pub fn new(owned: TrackedFileSet, backup: BackupFileMap) -> (e: Engine)
        requires
            owned.wf(),
            backup.wf(),
        ensures
            e.wf(),
            e.tracked_view() == owned@,
            e.backup_view() == backup@,
            e.entries_view() == Seq::<EntryModel>::empty(),
            !e.live_scan_done(),
            !e.mirror_scan_done(),
            !e.deleted_check_done(),
            !e.backup_check_done(),
    {
        let e = Engine {
            owned,
            backup,
            entries: Vec::new(),
            live_scanned: false,
            mirror_scanned: false,
            deleted_checked: false,
            backup_checked: false,
        };
        proof {
            assert(e.entries_view() =~= Seq::<EntryModel>::empty());
        }
        e
    }

    /// Phase one. `live` holds the file paths of the pruned live-tree walk,
    /// root-relative. A path the recorded set holds is confirmed and removed;
    /// any other is reported untracked.
    pub fn run_live_scan(&mut self, live: &Vec<String>)
        requires
            old(self).wf(),
            !old(self).live_scan_done(),
            !old(self).deleted_check_done(),
        ensures
            final(self).wf(),
            final(self).live_scan_done(),
            final(self).mirror_scan_done() == old(self).mirror_scan_done(),
            !final(self).deleted_check_done(),
            final(self).backup_check_done() == old(self).backup_check_done(),
            final(self).backup_view() == old(self).backup_view(),
            final(self).tracked_view() == remaining_tracked(
                old(self).tracked_view(),
                str_views(live@),
            ),
            final(self).entries_view() == old(self).entries_view() + live_scan_entries(
                old(self).tracked_view(),
                str_views(live@),
            ),
    {
        let ghost t0 = self.owned@;
        let ghost e0 = entry_views(self.entries@);
        let ghost lv = str_views(live@);
        let n = live.len();
        let mut i: usize = 0;
        proof {
            assert(lv.skip(0) =~= lv);
        }
        while i < n
            invariant
                i <= n,
                n == live@.len(),
                lv == str_views(live@),
                lv.len() == n,
                t0 == old(self).owned@,
                e0 == entry_views(old(self).entries@),
                self.owned.wf(),
                self.backup == old(self).backup,
                self.live_scanned == old(self).live_scanned,
                self.mirror_scanned == old(self).mirror_scanned,
                self.deleted_checked == old(self).deleted_checked,
                self.backup_checked == old(self).backup_checked,
                remaining_tracked(t0, lv) == remaining_tracked(self.owned@, lv.skip(i as int)),
                e0 + live_scan_entries(t0, lv) == entry_views(self.entries@) + live_scan_entries(
                    self.owned@,
                    lv.skip(i as int),
                ),
            decreases n - i,
        {
            let ghost tcur = self.owned@;
            let ghost rest = lv.skip(i as int);
            proof {
                assert(rest.len() == n - i);
                assert(rest[0] == lv[i as int]);
                assert(lv[i as int] == live@[i as int]@);
                assert(rest.drop_first() =~= lv.skip(i + 1));
            }
            let p = &live[i];
            let found = self.owned.remove(p);
            if !found {
                let ghost eb = self.entries@;
                self.entries.push(DiffEntry { marker: Marker::Untracked, path: p.clone() });
                proof {
                    lemma_remove_path_absent(tcur, p@);
                    assert(self.owned@ == tcur);
                    assert(entry_views(self.entries@) =~= entry_views(eb).push(untracked(p@)));
                    assert(live_scan_entries(tcur, rest) == seq![untracked(p@)]
                        + live_scan_entries(tcur, rest.drop_first()));
                    assert(entry_views(eb) + live_scan_entries(tcur, rest) =~= entry_views(
                        self.entries@,
                    ) + live_scan_entries(tcur, rest.drop_first()));
                    assert(remaining_tracked(tcur, rest) == remaining_tracked(
                        self.owned@,
                        rest.drop_first(),
                    ));
                }
            } else {
                proof {
                    assert(self.owned@ == remove_path(tcur, p@));
                    assert(live_scan_entries(tcur, rest) == live_scan_entries(
                        self.owned@,
                        rest.drop_first(),
                    ));
                    assert(remaining_tracked(tcur, rest) == remaining_tracked(
                        self.owned@,
                        rest.drop_first(),
                    ));
                }
            }
            i = i + 1;
        }
        proof {
            assert(lv.skip(n as int) =~= Seq::<Seq<char>>::empty());
            assert(remaining_tracked(self.owned@, Seq::<Seq<char>>::empty()) == self.owned@);
            assert(live_scan_entries(self.owned@, Seq::<Seq<char>>::empty())
                =~= Seq::<EntryModel>::empty());
            assert(entry_views(self.entries@) + Seq::<EntryModel>::empty() =~= entry_views(
                self.entries@,
            ));
            assert(e0 + live_scan_entries(t0, lv) =~= entry_views(self.entries@));
        }
        self.live_scanned = true;
    }

    /// Phase two. `mirror` holds one observation per file of the unfiltered
    /// mirror walk. Every mirrored path's backup record is removed; when both
    /// fingerprints were computed and differ, the path is reported
    /// repo-changed.
    pub fn run_mirror_scan(&mut self, mirror: &Vec<MirrorFile>)
        requires
            old(self).wf(),
            !old(self).mirror_scan_done(),
            !old(self).backup_check_done(),
        ensures
            final(self).wf(),
            final(self).mirror_scan_done(),
            final(self).live_scan_done() == old(self).live_scan_done(),
            final(self).deleted_check_done() == old(self).deleted_check_done(),
            !final(self).backup_check_done(),
            final(self).tracked_view() == old(self).tracked_view(),
            final(self).backup_view() == remaining_backup(
                old(self).backup_view(),
                mirror_views(mirror@),
            ),
            final(self).entries_view() == old(self).entries_view() + mirror_scan_entries(
                mirror_views(mirror@),
            ),
    {
        let ghost b0 = self.backup@;
        let ghost e0 = entry_views(self.entries@);
        let ghost mv = mirror_views(mirror@);
        let n = mirror.len();
        let mut i: usize = 0;
        proof {
            assert(mv.skip(0) =~= mv);
        }
        while i < n
            invariant
                i <= n,
                n == mirror@.len(),
                mv == mirror_views(mirror@),
                mv.len() == n,
                b0 == old(self).backup@,
                e0 == entry_views(old(self).entries@),
                self.backup.wf(),
                self.owned == old(self).owned,
                self.live_scanned == old(self).live_scanned,
                self.mirror_scanned == old(self).mirror_scanned,
                self.deleted_checked == old(self).deleted_checked,
                self.backup_checked == old(self).backup_checked,
                remaining_backup(b0, mv) == remaining_backup(self.backup@, mv.skip(i as int)),
                e0 + mirror_scan_entries(mv) == entry_views(self.entries@) + mirror_scan_entries(
                    mv.skip(i as int),
                ),
            decreases n - i,
        {
            let ghost bcur = self.backup@;
            let ghost rest = mv.skip(i as int);
            proof {
                assert(rest.len() == n - i);
                assert(rest[0] == mv[i as int]);
                assert(mv[i as int] == mirror@[i as int]@);
                assert(rest.drop_first() =~= mv.skip(i + 1));
            }
            let m = &mirror[i];
            self.backup.remove_key(&m.path);
            proof {
                assert(self.backup@ == remove_entry(bcur, m.path@));
                assert(remaining_backup(bcur, rest) == remaining_backup(
                    self.backup@,
                    rest.drop_first(),
                ));
            }
            let mut differs = false;
            if let Option::Some(mh) = &m.mirror_digest {
                if let Option::Some(lh) = &m.live_digest {
                    if !(*mh == *lh) {
                        differs = true;
                    }
                }
            }
            proof {
                assert(differs == mirror_digest_differs(rest[0]));
            }
            if differs {
                let ghost eb = self.entries@;
                self.entries.push(DiffEntry { marker: Marker::RepoChanged, path: m.path.clone() });
                proof {
                    assert(entry_views(self.entries@) =~= entry_views(eb).push(
                        repo_changed(m.path@),
                    ));
                    assert(mirror_scan_entries(rest) == seq![repo_changed(m.path@)]
                        + mirror_scan_entries(rest.drop_first()));
                    assert(entry_views(eb) + mirror_scan_entries(rest) =~= entry_views(
                        self.entries@,
                    ) + mirror_scan_entries(rest.drop_first()));
                }
            } else {
                proof {
                    assert(mirror_scan_entries(rest) == mirror_scan_entries(rest.drop_first()));
                }
            }
            i = i + 1;
        }
        proof {
            assert(mv.skip(n as int) =~= Seq::<MirrorFileModel>::empty());
            assert(remaining_backup(self.backup@, Seq::<MirrorFileModel>::empty())
                == self.backup@);
            assert(mirror_scan_entries(Seq::<MirrorFileModel>::empty())
                =~= Seq::<EntryModel>::empty());
            assert(entry_views(self.entries@) + Seq::<EntryModel>::empty() =~= entry_views(
                self.entries@,
            ));
            assert(e0 + mirror_scan_entries(mv) =~= entry_views(self.entries@));
        }
        self.mirror_scanned = true;
    }

    /// A copy of the package-owned paths the live scan did not confirm, in order;
    /// the caller gathers one deleted-check observation per path.
    pub fn remaining_tracked_paths(&self) -> (r: Vec<String>)
        ensures
            str_views(r@) == self.tracked_view(),
    {
        self.owned.paths()
    }

    /// Phase three. `checks` holds one observation per path left in the
    /// recorded set, in order. A path neither excluded by the direct ignore
    /// query nor found by a stat call is reported deleted; the rest of the
    /// set is dropped.
    pub fn run_deleted_checks(&mut self, checks: &Vec<PathCheck>)
        requires
            old(self).wf(),
            old(self).live_scan_done(),
            !old(self).deleted_check_done(),
            check_paths(path_check_views(checks@)) == old(self).tracked_view(),
        ensures
            final(self).wf(),
            final(self).deleted_check_done(),
            final(self).live_scan_done(),
            final(self).mirror_scan_done() == old(self).mirror_scan_done(),
            final(self).backup_check_done() == old(self).backup_check_done(),
            final(self).backup_view() == old(self).backup_view(),
            final(self).tracked_view() == Seq::<Seq<char>>::empty(),
            final(self).entries_view() == old(self).entries_view() + deleted_entries(
                path_check_views(checks@),
            ),
    {
        let ghost e0 = entry_views(self.entries@);
        let ghost cv = path_check_views(checks@);
        let n = checks.len();
        let mut i: usize = 0;
        proof {
            assert(cv.skip(0) =~= cv);
        }
        while i < n
            invariant
                i <= n,
                n == checks@.len(),
                cv == path_check_views(checks@),
                cv.len() == n,
                e0 == entry_views(old(self).entries@),
                self.owned == old(self).owned,
                self.backup == old(self).backup,
                self.live_scanned == old(self).live_scanned,
                self.mirror_scanned == old(self).mirror_scanned,
                self.deleted_checked == old(self).deleted_checked,
                self.backup_checked == old(self).backup_checked,
                e0 + deleted_entries(cv) == entry_views(self.entries@) + deleted_entries(
                    cv.skip(i as int),
                ),
            decreases n - i,
        {
            let ghost rest = cv.skip(i as int);
            proof {
                assert(rest.len() == n - i);
                assert(rest[0] == cv[i as int]);
                assert(cv[i as int] == checks@[i as int]@);
                assert(rest.drop_first() =~= cv.skip(i + 1));
            }
            let c = &checks[i];
            if !c.excluded && !c.exists {
                let ghost eb = self.entries@;
                self.entries.push(DiffEntry { marker: Marker::Deleted, path: c.path.clone() });
                proof {
                    assert(entry_views(self.entries@) =~= entry_views(eb).push(deleted(c.path@)));
                    assert(deleted_entries(rest) == seq![deleted(c.path@)] + deleted_entries(
                        rest.drop_first(),
                    ));
                    assert(entry_views(eb) + deleted_entries(rest) =~= entry_views(self.entries@)
                        + deleted_entries(rest.drop_first()));
                }
            } else {
                proof {
                    assert(deleted_entries(rest) == deleted_entries(rest.drop_first()));
                }
            }
            i = i + 1;
        }
        proof {
            assert(cv.skip(n as int) =~= Seq::<PathCheckModel>::empty());
            assert(deleted_entries(Seq::<PathCheckModel>::empty()) =~= Seq::<EntryModel>::empty());
            assert(entry_views(self.entries@) + Seq::<EntryModel>::empty() =~= entry_views(
                self.entries@,
            ));
            assert(e0 + deleted_entries(cv) =~= entry_views(self.entries@));
        }
        self.owned.clear();
        self.deleted_checked = true;
    }

    /// A copy of the backup records the mirror scan did not supersede, in
    /// order; the caller gathers one backup-check observation per record.
    pub fn remaining_backup_records(&self) -> (r: Vec<crate::backup::BackupEntry>)
        ensures
            crate::backup::backup_views(r@) == self.backup_view(),
    {
        self.backup.entries()
    }

    /// Phase four. `checks` holds one observation per record left in the
    /// backup map, in order. A record neither excluded by the
    /// ancestor-inclusive ignore query nor matching its live fingerprint is
    /// reported backup-changed; a record whose live fingerprint could not be
    /// computed is skipped. The rest of the map is dropped.
    pub fn run_backup_checks(&mut self, checks: &Vec<BackupCheck>)
        requires
            old(self).wf(),
            old(self).mirror_scan_done(),
            !old(self).backup_check_done(),
            check_keys(backup_check_views(checks@)) == old(self).backup_view(),
        ensures
            final(self).wf(),
            final(self).backup_check_done(),
            final(self).mirror_scan_done(),
            final(self).live_scan_done() == old(self).live_scan_done(),
            final(self).deleted_check_done() == old(self).deleted_check_done(),
            final(self).tracked_view() == old(self).tracked_view(),
            final(self).backup_view() == Seq::<BackupEntryModel>::empty(),
            final(self).entries_view() == old(self).entries_view() + backup_changed_entries(
                backup_check_views(checks@),
            ),
    {
        let ghost e0 = entry_views(self.entries@);
        let ghost cv = backup_check_views(checks@);
        let n = checks.len();
        let mut i: usize = 0;
        proof {
            assert(cv.skip(0) =~= cv);
        }
        while i < n
            invariant
                i <= n,
                n == checks@.len(),
                cv == backup_check_views(checks@),
                cv.len() == n,
                e0 == entry_views(old(self).entries@),
                self.owned == old(self).owned,
                self.backup == old(self).backup,
                self.live_scanned == old(self).live_scanned,
                self.mirror_scanned == old(self).mirror_scanned,
                self.deleted_checked == old(self).deleted_checked,
                self.backup_checked == old(self).backup_checked,
                e0 + backup_changed_entries(cv) == entry_views(self.entries@)
                    + backup_changed_entries(cv.skip(i as int)),
            decreases n - i,
        {
            let ghost rest = cv.skip(i as int);
            proof {
                assert(rest.len() == n - i);
                assert(rest[0] == cv[i as int]);
                assert(cv[i as int] == checks@[i as int]@);
                assert(rest.drop_first() =~= cv.skip(i + 1));
            }
            let c = &checks[i];
            let mut changed = false;
            if !c.excluded {
                if let Option::Some(h) = &c.live_digest {
                    if !(*h == c.expected) {
                        changed = true;
                    }
                }
            }
            proof {
                assert(changed == check_changed(rest[0]));
            }
            if changed {
                let ghost eb = self.entries@;
                self.entries.push(
                    DiffEntry { marker: Marker::BackupChanged, path: c.path.clone() },
                );
                proof {
                    assert(entry_views(self.entries@) =~= entry_views(eb).push(
                        backup_changed(c.path@),
                    ));
                    assert(backup_changed_entries(rest) == seq![backup_changed(c.path@)]
                        + backup_changed_entries(rest.drop_first()));
                    assert(entry_views(eb) + backup_changed_entries(rest) =~= entry_views(
                        self.entries@,
                    ) + backup_changed_entries(rest.drop_first()));
                }
            } else {
                proof {
                    assert(backup_changed_entries(rest) == backup_changed_entries(
                        rest.drop_first(),
                    ));
                }
            }
            i = i + 1;
        }
        proof {
            assert(cv.skip(n as int) =~= Seq::<BackupCheckModel>::empty());
            assert(backup_changed_entries(Seq::<BackupCheckModel>::empty())
                =~= Seq::<EntryModel>::empty());
            assert(entry_views(self.entries@) + Seq::<EntryModel>::empty() =~= entry_views(
                self.entries@,
            ));
            assert(e0 + backup_changed_entries(cv) =~= entry_views(self.entries@));
        }
        self.backup.clear();
        self.backup_checked = true;
    }

    /// Hands the collected diff entries over, in discovery order.
    pub fn into_entries(self) -> (r: Vec<DiffEntry>)
        ensures
            entry_views(r@) == self.entries_view(),
    {
        let Engine { entries, .. } = self;
        entries
    }
}

} // verus!
