//! The reconciliation laws: what the four phases guarantee jointly, proved
//! over the same spec functions the engine's contracts use.

use vstd::prelude::*;
use crate::backup::{contains_key, remove_entry, unique_keys, BackupEntryModel,
    lemma_remove_entry_members};
use crate::entry::{count_path, untracked, EntryModel, Marker};
use crate::engine::{
    backup_changed_entries, check_changed, check_keys, check_missing, deleted_entries,
    live_scan_entries, mirror_digest_differs, mirror_scan_entries, remaining_backup,
    remaining_tracked, BackupCheckModel, MirrorFileModel, PathCheckModel,
};
use crate::track::{lemma_remove_path_members, remove_path};

verus! {

/// The paths of a mirror scan's observations, in order.
pub open spec fn mirror_paths(ms: Seq<MirrorFileModel>) -> Seq<Seq<char>> {
    ms.map_values(|m: MirrorFileModel| m.path)
}

proof fn lemma_count_path_cons(e: EntryModel, r: Seq<EntryModel>, p: Seq<char>)
    ensures
        count_path(seq![e] + r, p) == (if e.path == p {
            1nat
        } else {
            0nat
        }) + count_path(r, p),
{
    let s = seq![e] + r;
    assert(s.len() == 1 + r.len());
    assert(s[0] == e);
    assert(s.drop_first() =~= r);
}

proof fn lemma_remove_path_subset(s: Seq<Seq<char>>, q: Seq<char>, x: Seq<char>)
    requires
        remove_path(s, q).contains(x),
    ensures
        s.contains(x),
    decreases s.len(),
{
    if s.len() == 0 {
    } else if s[0] == q {
        let i = choose|i: int| 0 <= i < s.drop_first().len() && s.drop_first()[i] == x;
        assert(s[i + 1] == x);
    } else {
        let r = seq![s[0]] + remove_path(s.drop_first(), q);
        let i = choose|i: int| 0 <= i < r.len() && r[i] == x;
        if i == 0 {
            assert(s.contains(s[0]));
        } else {
            assert(remove_path(s.drop_first(), q)[i - 1] == x);
            assert(remove_path(s.drop_first(), q).contains(x));
            lemma_remove_path_subset(s.drop_first(), q, x);
            let j = choose|j: int| 0 <= j < s.drop_first().len() && s.drop_first()[j] == x;
            assert(s[j + 1] == x);
        }
    }
}

proof fn lemma_remaining_tracked_no_new_path(t: Seq<Seq<char>>, live: Seq<Seq<char>>, p: Seq<char>)
    requires
        !t.contains(p),
    ensures
        !remaining_tracked(t, live).contains(p),
    decreases live.len(),
{
    if live.len() == 0 {
    } else {
        let t1 = remove_path(t, live[0]);
        if t1.contains(p) {
            lemma_remove_path_subset(t, live[0], p);
        }
        lemma_remaining_tracked_no_new_path(t1, live.drop_first(), p);
    }
}

proof fn lemma_live_scan_no_path_no_entry(t: Seq<Seq<char>>, live: Seq<Seq<char>>, p: Seq<char>)
    requires
        !live.contains(p),
    ensures
        count_path(live_scan_entries(t, live), p) == 0,
    decreases live.len(),
{
    if live.len() == 0 {
    } else {
        let q = live[0];
        assert(live.contains(live[0]));
        assert(q != p);
        assert forall|i: int| 0 <= i < live.drop_first().len() implies live.drop_first()[i] != p by {
            assert(live[i + 1] == live.drop_first()[i]);
        }
        if t.contains(q) {
            lemma_live_scan_no_path_no_entry(remove_path(t, q), live.drop_first(), p);
        } else {
            lemma_live_scan_no_path_no_entry(t, live.drop_first(), p);
            lemma_count_path_cons(untracked(q), live_scan_entries(t, live.drop_first()), p);
        }
    }
}

/// Law: a package-owned path that the live scan reaches is confirmed, not
/// reported. If `p` is recorded and the scan saw it, then after the live
/// scan `p` is no longer in the set of package-owned paths, and no
/// untracked entry carries `p`.
pub proof fn lemma_confirmed_path_not_reported(
    t: Seq<Seq<char>>,
    live: Seq<Seq<char>>,
    p: Seq<char>,
)
    requires
        t.no_duplicates(),
        live.no_duplicates(),
        t.contains(p),
        live.contains(p),
    ensures
        !remaining_tracked(t, live).contains(p),
        count_path(live_scan_entries(t, live), p) == 0,
    decreases live.len(),
{
    assert(live.len() > 0);
    let q = live[0];
    lemma_remove_path_members(t, q);
    let t1 = remove_path(t, q);
    let live1 = live.drop_first();
    assert(live1.no_duplicates()) by {
        assert forall|i: int, j: int| 0 <= i < j < live1.len() implies live1[i] != live1[j] by {
            assert(live[i + 1] == live1[i]);
            assert(live[j + 1] == live1[j]);
        }
    }
    if q == p {
        assert(t.contains(q));
        assert(!live1.contains(p)) by {
            if live1.contains(p) {
                let i = choose|i: int| 0 <= i < live1.len() && live1[i] == p;
                assert(live[i + 1] == live[0]);
            }
        }
        assert(!t1.contains(p));
        lemma_remaining_tracked_no_new_path(t1, live1, p);
        lemma_live_scan_no_path_no_entry(t1, live1, p);
        assert(live_scan_entries(t, live) == live_scan_entries(t1, live1));
        assert(remaining_tracked(t, live) == remaining_tracked(t1, live1));
    } else {
        assert(live1.contains(p)) by {
            let i = choose|i: int| 0 <= i < live.len() && live[i] == p;
            assert(i != 0);
            assert(live1[i - 1] == p);
        }
        assert(t1.contains(p));
        assert(t1.no_duplicates());
        lemma_confirmed_path_not_reported(t1, live1, p);
        if t.contains(q) {
            assert(live_scan_entries(t, live) == live_scan_entries(t1, live1));
        } else {
            crate::track::lemma_remove_path_absent(t, q);
            assert(t1 == t);
            assert(live_scan_entries(t, live) == seq![untracked(q)] + live_scan_entries(t, live1));
            lemma_count_path_cons(untracked(q), live_scan_entries(t, live1), p);
        }
        assert(remaining_tracked(t, live) == remaining_tracked(t1, live1));
    }
}

/// Law: a scanned path that no package owns is reported untracked exactly
/// once.
pub proof fn lemma_untracked_reported_once(t: Seq<Seq<char>>, live: Seq<Seq<char>>, p: Seq<char>)
    requires
        t.no_duplicates(),
        live.no_duplicates(),
        !t.contains(p),
        live.contains(p),
    ensures
        count_path(live_scan_entries(t, live), p) == 1,
    decreases live.len(),
{
    assert(live.len() > 0);
    let q = live[0];
    lemma_remove_path_members(t, q);
    let t1 = remove_path(t, q);
    let live1 = live.drop_first();
    assert(live1.no_duplicates()) by {
        assert forall|i: int, j: int| 0 <= i < j < live1.len() implies live1[i] != live1[j] by {
            assert(live[i + 1] == live1[i]);
            assert(live[j + 1] == live1[j]);
        }
    }
    if q == p {
        assert(!t.contains(q));
        assert(!live1.contains(p)) by {
            if live1.contains(p) {
                let i = choose|i: int| 0 <= i < live1.len() && live1[i] == p;
                assert(live[i + 1] == live[0]);
            }
        }
        lemma_live_scan_no_path_no_entry(t, live1, p);
        lemma_count_path_cons(untracked(q), live_scan_entries(t, live1), p);
    } else {
        assert(live1.contains(p)) by {
            let i = choose|i: int| 0 <= i < live.len() && live[i] == p;
            assert(i != 0);
            assert(live1[i - 1] == p);
        }
        if t.contains(q) {
            assert(!t1.contains(p));
            lemma_untracked_reported_once(t1, live1, p);
        } else {
            lemma_untracked_reported_once(t, live1, p);
            lemma_count_path_cons(untracked(q), live_scan_entries(t, live1), p);
        }
    }
}

/// Every entry of the live scan is an untracked entry.
pub proof fn lemma_live_scan_entries_marker(t: Seq<Seq<char>>, live: Seq<Seq<char>>)
    ensures
        forall|i: int|
            0 <= i < live_scan_entries(t, live).len() ==> #[trigger] live_scan_entries(
                t,
                live,
            )[i].marker == Marker::Untracked,
    decreases live.len(),
{
    if live.len() == 0 {
    } else if t.contains(live[0]) {
        lemma_live_scan_entries_marker(remove_path(t, live[0]), live.drop_first());
    } else {
        lemma_live_scan_entries_marker(t, live.drop_first());
        let s = seq![untracked(live[0])] + live_scan_entries(t, live.drop_first());
        assert forall|i: int| 0 <= i < s.len() implies #[trigger] s[i].marker == Marker::Untracked by {
            if i > 0 {
                assert(s[i] == live_scan_entries(t, live.drop_first())[i - 1]);
            }
        }
    }
}

/// Law: the mirror scan reports `p` repo-changed exactly when some mirror
/// observation of `p` computed both fingerprints and they differ.
pub proof fn lemma_repo_changed_characterization(ms: Seq<MirrorFileModel>, p: Seq<char>)
    ensures
        (count_path(mirror_scan_entries(ms), p) > 0) == (exists|i: int|
            0 <= i < ms.len() && ms[i].path == p && mirror_digest_differs(ms[i])),
    decreases ms.len(),
{
    if ms.len() == 0 {
    } else {
        let tail = ms.drop_first();
        lemma_repo_changed_characterization(tail, p);
        if mirror_digest_differs(ms[0]) {
            lemma_count_path_cons(
                crate::entry::repo_changed(ms[0].path),
                mirror_scan_entries(tail),
                p,
            );
        }
        if exists|i: int| 0 <= i < tail.len() && tail[i].path == p && mirror_digest_differs(
            tail[i],
        ) {
            let i = choose|i: int|
                0 <= i < tail.len() && tail[i].path == p && mirror_digest_differs(tail[i]);
            assert(ms[i + 1].path == p && mirror_digest_differs(ms[i + 1]));
        }
        if exists|i: int| 0 <= i < ms.len() && ms[i].path == p && mirror_digest_differs(ms[i]) {
            let i = choose|i: int|
                0 <= i < ms.len() && ms[i].path == p && mirror_digest_differs(ms[i]);
            if i > 0 {
                assert(tail[i - 1].path == p && mirror_digest_differs(tail[i - 1]));
            }
        }
    }
}

/// Law: the deleted check reports `p` exactly when its observation found
/// `p` neither excluded by the direct ignore query nor present on disk; an
/// excluded or present path never yields a deleted entry.
pub proof fn lemma_deleted_characterization(cs: Seq<PathCheckModel>, p: Seq<char>)
    ensures
        (count_path(deleted_entries(cs), p) > 0) == (exists|i: int|
            0 <= i < cs.len() && cs[i].path == p && check_missing(cs[i])),
    decreases cs.len(),
{
    if cs.len() == 0 {
    } else {
        let tail = cs.drop_first();
        lemma_deleted_characterization(tail, p);
        if check_missing(cs[0]) {
            lemma_count_path_cons(crate::entry::deleted(cs[0].path), deleted_entries(tail), p);
        }
        if exists|i: int| 0 <= i < tail.len() && tail[i].path == p && check_missing(tail[i]) {
            let i = choose|i: int| 0 <= i < tail.len() && tail[i].path == p && check_missing(tail[i]);
            assert(cs[i + 1].path == p && check_missing(cs[i + 1]));
        }
        if exists|i: int| 0 <= i < cs.len() && cs[i].path == p && check_missing(cs[i]) {
            let i = choose|i: int| 0 <= i < cs.len() && cs[i].path == p && check_missing(cs[i]);
            if i > 0 {
                assert(tail[i - 1].path == p && check_missing(tail[i - 1]));
            }
        }
    }
}

/// Law: the backup check reports `p` exactly when its observation found `p`
/// not excluded by the ancestor-inclusive ignore query, with a computable
/// live fingerprint that differs from the recorded one.
pub proof fn lemma_backup_changed_characterization(cs: Seq<BackupCheckModel>, p: Seq<char>)
    ensures
        (count_path(backup_changed_entries(cs), p) > 0) == (exists|i: int|
            0 <= i < cs.len() && cs[i].path == p && check_changed(cs[i])),
    decreases cs.len(),
{
    if cs.len() == 0 {
    } else {
        let tail = cs.drop_first();
        lemma_backup_changed_characterization(tail, p);
        if check_changed(cs[0]) {
            lemma_count_path_cons(
                crate::entry::backup_changed(cs[0].path),
                backup_changed_entries(tail),
                p,
            );
        }
        if exists|i: int| 0 <= i < tail.len() && tail[i].path == p && check_changed(tail[i]) {
            let i = choose|i: int| 0 <= i < tail.len() && tail[i].path == p && check_changed(tail[i]);
            assert(cs[i + 1].path == p && check_changed(cs[i + 1]));
        }
        if exists|i: int| 0 <= i < cs.len() && cs[i].path == p && check_changed(cs[i]) {
            let i = choose|i: int| 0 <= i < cs.len() && cs[i].path == p && check_changed(cs[i]);
            if i > 0 {
                assert(tail[i - 1].path == p && check_changed(tail[i - 1]));
            }
        }
    }
}

proof fn lemma_remaining_backup_no_new_key(
    b: Seq<BackupEntryModel>,
    ms: Seq<MirrorFileModel>,
    p: Seq<char>,
)
    requires
        unique_keys(b),
        !contains_key(b, p),
    ensures
        !contains_key(remaining_backup(b, ms), p),
    decreases ms.len(),
{
    if ms.len() == 0 {
    } else {
        let b1 = remove_entry(b, ms[0].path);
        lemma_remove_entry_members(b, ms[0].path);
        if contains_key(b1, p) {
            let i = choose|i: int| 0 <= i < b1.len() && b1[i].path == p;
            assert(b1.contains(b1[i]));
            assert(b.contains(b1[i]));
            let j = choose|j: int| 0 <= j < b.len() && b[j] == b1[i];
            assert(b[j].path == p);
        }
        lemma_remaining_backup_no_new_key(b1, ms.drop_first(), p);
    }
}

/// Law: a path present in the repository mirror is never eligible for the
/// backup check: the mirror scan removes its backup record, so it has no
/// key in what the backup check consumes.
pub proof fn lemma_mirror_supersedes_backup(
    b: Seq<BackupEntryModel>,
    ms: Seq<MirrorFileModel>,
    p: Seq<char>,
)
    requires
        unique_keys(b),
        mirror_paths(ms).contains(p),
    ensures
        !contains_key(remaining_backup(b, ms), p),
    decreases ms.len(),
{
    assert(mirror_paths(ms).len() == ms.len());
    assert(ms.len() > 0);
    let b1 = remove_entry(b, ms[0].path);
    lemma_remove_entry_members(b, ms[0].path);
    if ms[0].path == p {
        lemma_remaining_backup_no_new_key(b1, ms.drop_first(), p);
    } else {
        let i = choose|i: int| 0 <= i < mirror_paths(ms).len() && mirror_paths(ms)[i] == p;
        assert(ms[i].path == p);
        assert(i != 0);
        assert(mirror_paths(ms.drop_first())[i - 1] == ms.drop_first()[i - 1].path);
        assert(ms.drop_first()[i - 1] == ms[i]);
        assert(mirror_paths(ms.drop_first()).contains(p));
        lemma_mirror_supersedes_backup(b1, ms.drop_first(), p);
    }
}

/// Law: no path is reported both repo-changed and backup-changed. If the
/// mirror scan emitted a repo-changed entry for `p`, and the backup check
/// ran over what that scan left in the backup map, then no backup-changed
/// entry carries `p`.
pub proof fn lemma_no_double_classification(
    b: Seq<BackupEntryModel>,
    ms: Seq<MirrorFileModel>,
    cs: Seq<BackupCheckModel>,
    p: Seq<char>,
)
    requires
        unique_keys(b),
        check_keys(cs) == remaining_backup(b, ms),
        count_path(mirror_scan_entries(ms), p) > 0,
    ensures
        count_path(backup_changed_entries(cs), p) == 0,
{
    lemma_repo_changed_characterization(ms, p);
    let i = choose|i: int| 0 <= i < ms.len() && ms[i].path == p && mirror_digest_differs(ms[i]);
    assert(mirror_paths(ms)[i] == p);
    assert(mirror_paths(ms).contains(p));
    lemma_mirror_supersedes_backup(b, ms, p);
    lemma_backup_changed_characterization(cs, p);
    if count_path(backup_changed_entries(cs), p) > 0 {
        let j = choose|j: int| 0 <= j < cs.len() && cs[j].path == p && check_changed(cs[j]);
        assert(check_keys(cs)[j].path == p);
        assert(remaining_backup(b, ms)[j].path == p);
        assert(contains_key(remaining_backup(b, ms), p));
    }
}

/// Law: the rendered report depends only on which entries a run collected,
/// not on the order the phases appended them in; in particular two runs of
/// the full reconciliation over unchanged observations print identical
/// sorted output.
pub proof fn lemma_report_order_independent(
    e1: Seq<EntryModel>,
    e2: Seq<EntryModel>,
    root: Seq<char>,
)
    requires
        e1.to_multiset() == e2.to_multiset(),
    ensures
        crate::report::rendered_report(e1, root) == crate::report::rendered_report(e2, root),
{
    crate::report::lemma_entry_le_total_ordering();
    e1.lemma_sort_by_ensures(crate::report::entry_leq());
    e2.lemma_sort_by_ensures(crate::report::entry_leq());
    crate::report::lemma_sorted_unique(
        e1.sort_by(crate::report::entry_leq()),
        e2.sort_by(crate::report::entry_leq()),
    );
}

} // verus!
