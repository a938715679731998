//! End-to-end reconciliation scenarios and unit checks of the engine, the
//! manifest containers, and the report.

use colaz::backup::BackupFileMap;
use colaz::engine::{BackupCheck, Engine, MirrorFile, PathCheck};
use colaz::entry::Marker;
use colaz::report::report_lines;
use colaz::strings::normalize_root;
use colaz::track::TrackedFileSet;

fn set_of(paths: &[&str]) -> TrackedFileSet {
    let mut s = TrackedFileSet::new();
    for p in paths {
        s.insert(p.to_string());
    }
    s
}

fn map_of(entries: &[(&str, &str)]) -> BackupFileMap {
    let mut m = BackupFileMap::new();
    for (p, d) in entries {
        m.insert(p.to_string(), d.to_string());
    }
    m
}

#[test]
fn scenario_deleted_file() {
    // Two package-owned paths; the live tree has one of them; nothing
    // excluded, no mirror entries, no backups.
    let mut engine = Engine::new(
        set_of(&["etc/foo.conf", "etc/bar.conf"]),
        BackupFileMap::new(),
    );
    engine.run_live_scan(&vec!["etc/foo.conf".to_string()]);
    engine.run_mirror_scan(&Vec::new());
    let remaining = engine.remaining_tracked_paths();
    assert_eq!(remaining, vec!["etc/bar.conf".to_string()]);
    let checks: Vec<PathCheck> = remaining
        .into_iter()
        .map(|p| PathCheck { path: p, excluded: false, exists: false })
        .collect();
    engine.run_deleted_checks(&checks);
    engine.run_backup_checks(&Vec::new());
    let lines = report_lines(engine.into_entries(), "/");
    assert_eq!(lines, vec!["D /etc/bar.conf".to_string()]);
}

#[test]
fn scenario_backup_changed() {
    // One backup record whose live content fingerprints differently; the
    // path is neither excluded nor mirrored.
    let mut engine = Engine::new(
        TrackedFileSet::new(),
        map_of(&[("etc/baz.conf", "abc123")]),
    );
    engine.run_live_scan(&Vec::new());
    engine.run_mirror_scan(&Vec::new());
    engine.run_deleted_checks(&Vec::new());
    let records = engine.remaining_backup_records();
    assert_eq!(records.len(), 1);
    let checks: Vec<BackupCheck> = records
        .into_iter()
        .map(|r| BackupCheck {
            path: r.path,
            expected: r.digest,
            excluded: false,
            live_digest: Some("def456".to_string()),
        })
        .collect();
    engine.run_backup_checks(&checks);
    let lines = report_lines(engine.into_entries(), "/");
    assert!(lines.contains(&"B /etc/baz.conf".to_string()));
    assert_eq!(lines.len(), 1);
}

#[test]
fn scenario_excluded_missing_path_not_deleted() {
    // A package-owned path matching an ignore rule is absent from disk:
    // the deleted check must stay silent about it.
    let mut engine = Engine::new(set_of(&["etc/cache/x"]), BackupFileMap::new());
    engine.run_live_scan(&Vec::new());
    engine.run_mirror_scan(&Vec::new());
    let checks: Vec<PathCheck> = engine
        .remaining_tracked_paths()
        .into_iter()
        .map(|p| PathCheck { path: p, excluded: true, exists: false })
        .collect();
    engine.run_deleted_checks(&checks);
    engine.run_backup_checks(&Vec::new());
    let lines = report_lines(engine.into_entries(), "/");
    assert!(lines.is_empty());
}

#[test]
fn scenario_mirror_supersedes_backup() {
    // A mirrored path whose live copy differs, also carried in the backup
    // map with a stale fingerprint: exactly one repo-changed entry, and
    // never a backup-changed one for the same path.
    let mut engine = Engine::new(
        TrackedFileSet::new(),
        map_of(&[("etc/qux.conf", "stale0")]),
    );
    engine.run_live_scan(&Vec::new());
    engine.run_deleted_checks(&Vec::new());
    engine.run_mirror_scan(&vec![MirrorFile {
        path: "etc/qux.conf".to_string(),
        mirror_digest: Some("aaa111".to_string()),
        live_digest: Some("bbb222".to_string()),
    }]);
    let records = engine.remaining_backup_records();
    assert!(records.is_empty());
    engine.run_backup_checks(&Vec::new());
    let lines = report_lines(engine.into_entries(), "/");
    assert_eq!(lines, vec!["R /etc/qux.conf".to_string()]);
}

#[test]
fn untracked_file_reported_once() {
    let mut engine = Engine::new(set_of(&["usr/bin/known"]), BackupFileMap::new());
    engine.run_live_scan(&vec![
        "usr/bin/known".to_string(),
        "usr/bin/stray".to_string(),
    ]);
    engine.run_mirror_scan(&Vec::new());
    engine.run_deleted_checks(&Vec::new());
    engine.run_backup_checks(&Vec::new());
    let entries = engine.into_entries();
    assert_eq!(entries.len(), 1);
    assert_eq!(entries[0].marker, Marker::Untracked);
    assert_eq!(entries[0].path, "usr/bin/stray");
}

#[test]
fn mirror_hash_failure_skips_entry() {
    // A mirror path whose live fingerprint could not be computed yields no
    // entry, but its backup record is still superseded.
    let mut engine = Engine::new(
        TrackedFileSet::new(),
        map_of(&[("etc/quux.conf", "stale1")]),
    );
    engine.run_live_scan(&Vec::new());
    engine.run_mirror_scan(&vec![MirrorFile {
        path: "etc/quux.conf".to_string(),
        mirror_digest: Some("aaa111".to_string()),
        live_digest: None,
    }]);
    assert!(engine.remaining_backup_records().is_empty());
    engine.run_deleted_checks(&Vec::new());
    engine.run_backup_checks(&Vec::new());
    assert!(engine.into_entries().is_empty());
}

#[test]
fn backup_hash_failure_and_match_skip() {
    let mut engine = Engine::new(
        TrackedFileSet::new(),
        map_of(&[("etc/a.conf", "aaaa"), ("etc/b.conf", "bbbb")]),
    );
    engine.run_live_scan(&Vec::new());
    engine.run_mirror_scan(&Vec::new());
    engine.run_deleted_checks(&Vec::new());
    let checks: Vec<BackupCheck> = engine
        .remaining_backup_records()
        .into_iter()
        .map(|r| {
            let live = if r.path == "etc/a.conf" {
                // unchanged content: fingerprint matches the record
                Some(r.digest.clone())
            } else {
                // unreadable live file
                None
            };
            BackupCheck { path: r.path, expected: r.digest, excluded: false, live_digest: live }
        })
        .collect();
    engine.run_backup_checks(&checks);
    assert!(engine.into_entries().is_empty());
}

#[test]
fn report_is_sorted_by_path() {
    let mut engine = Engine::new(TrackedFileSet::new(), BackupFileMap::new());
    engine.run_live_scan(&vec![
        "etc/zz".to_string(),
        "etc/aa".to_string(),
        "etc/mm".to_string(),
    ]);
    engine.run_mirror_scan(&Vec::new());
    engine.run_deleted_checks(&Vec::new());
    engine.run_backup_checks(&Vec::new());
    let lines = report_lines(engine.into_entries(), "/");
    assert_eq!(
        lines,
        vec![
            "? /etc/aa".to_string(),
            "? /etc/mm".to_string(),
            "? /etc/zz".to_string(),
        ]
    );
}

fn full_run_output() -> Vec<String> {
    let mut engine = Engine::new(
        set_of(&["etc/foo.conf", "etc/gone.conf"]),
        map_of(&[("etc/baz.conf", "abc123"), ("etc/qux.conf", "stale0")]),
    );
    engine.run_live_scan(&vec!["etc/foo.conf".to_string(), "etc/new.conf".to_string()]);
    engine.run_mirror_scan(&vec![MirrorFile {
        path: "etc/qux.conf".to_string(),
        mirror_digest: Some("aaa111".to_string()),
        live_digest: Some("bbb222".to_string()),
    }]);
    let deleted_checks: Vec<PathCheck> = engine
        .remaining_tracked_paths()
        .into_iter()
        .map(|p| PathCheck { path: p, excluded: false, exists: false })
        .collect();
    engine.run_deleted_checks(&deleted_checks);
    let backup_checks: Vec<BackupCheck> = engine
        .remaining_backup_records()
        .into_iter()
        .map(|r| BackupCheck {
            path: r.path,
            expected: r.digest,
            excluded: false,
            live_digest: Some("def456".to_string()),
        })
        .collect();
    engine.run_backup_checks(&backup_checks);
    report_lines(engine.into_entries(), "/")
}

#[test]
fn full_run_is_repeatable() {
    // The same observations reconciled twice print the same sorted report.
    let first = full_run_output();
    let second = full_run_output();
    assert_eq!(first, second);
    assert_eq!(
        first,
        vec![
            "B /etc/baz.conf".to_string(),
            "D /etc/gone.conf".to_string(),
            "? /etc/new.conf".to_string(),
            "R /etc/qux.conf".to_string(),
        ]
    );
}

#[test]
fn tracked_set_holds_each_path_once() {
    let mut s = TrackedFileSet::new();
    s.insert("etc/one".to_string());
    s.insert("etc/one".to_string());
    s.insert("etc/two".to_string());
    assert_eq!(s.len(), 2);
    assert!(s.contains(&"etc/one".to_string()));
    assert!(s.remove(&"etc/one".to_string()));
    assert!(!s.remove(&"etc/one".to_string()));
    assert_eq!(s.len(), 1);
}

#[test]
fn backup_map_insert_supersedes() {
    let mut m = BackupFileMap::new();
    m.insert("etc/a".to_string(), "1111".to_string());
    m.insert("etc/a".to_string(), "2222".to_string());
    assert_eq!(m.len(), 1);
    let records = m.entries();
    assert_eq!(records[0].path, "etc/a");
    assert_eq!(records[0].digest, "2222");
    assert!(m.remove_key(&"etc/a".to_string()));
    assert_eq!(m.len(), 0);
}

#[test]
fn report_order_is_by_codepoint() {
    let mut engine = Engine::new(TrackedFileSet::new(), BackupFileMap::new());
    engine.run_live_scan(&vec![
        "etc/b".to_string(),
        "etc/a".to_string(),
        "etc/ab".to_string(),
        "etc/a/x".to_string(),
    ]);
    engine.run_mirror_scan(&Vec::new());
    engine.run_deleted_checks(&Vec::new());
    engine.run_backup_checks(&Vec::new());
    let lines = report_lines(engine.into_entries(), "/");
    assert_eq!(
        lines,
        vec![
            "? /etc/a".to_string(),
            "? /etc/a/x".to_string(),
            "? /etc/ab".to_string(),
            "? /etc/b".to_string(),
        ]
    );
}

#[test]
fn seen_tracking_is_consumed_by_first_sighting() {
    // The live scan marks a package-owned path as confirmed by removing it;
    // a second sighting of the same path finds nothing left to confirm and
    // is reported untracked.
    let mut engine = Engine::new(set_of(&["etc/dup"]), BackupFileMap::new());
    engine.run_live_scan(&vec!["etc/dup".to_string(), "etc/dup".to_string()]);
    engine.run_mirror_scan(&Vec::new());
    engine.run_deleted_checks(&Vec::new());
    engine.run_backup_checks(&Vec::new());
    let entries = engine.into_entries();
    assert_eq!(entries.len(), 1);
    assert_eq!(entries[0].marker, Marker::Untracked);
    assert_eq!(entries[0].path, "etc/dup");
}

#[test]
fn root_is_normalized_with_separator() {
    assert_eq!(normalize_root("/srv/root".to_string()), "/srv/root/");
    assert_eq!(normalize_root("/".to_string()), "/");
    assert_eq!(normalize_root("".to_string()), "/");
}

#[test]
fn report_prefixes_root_verbatim() {
    let mut engine = Engine::new(TrackedFileSet::new(), BackupFileMap::new());
    engine.run_live_scan(&vec!["etc/x".to_string()]);
    engine.run_mirror_scan(&Vec::new());
    engine.run_deleted_checks(&Vec::new());
    engine.run_backup_checks(&Vec::new());
    let lines = report_lines(engine.into_entries(), "/mnt/");
    assert_eq!(lines, vec!["? /mnt/etc/x".to_string()]);
}
