//! The map from package-declared backup paths to their recorded content
//! fingerprints, consumed destructively during reconciliation: a path found
//! in the repository mirror is removed (the mirror supersedes the package's
//! record), and what remains afterwards feeds the backup-changed check.

use vstd::prelude::*;

verus! {

/// Mathematical image of one backup record: a path and its recorded
/// fingerprint, both as character sequences.
pub ghost struct BackupEntryModel {
    pub path: Seq<char>,
    pub digest: Seq<char>,
}

/// One backup record: a store-relative path and the hex fingerprint the
/// package recorded for its original content.
#[derive(Debug)]
pub struct BackupEntry {
    pub path: String,
    pub digest: String,
}

impl View for BackupEntry {
    type V = BackupEntryModel;

    open spec fn view(&self) -> BackupEntryModel {
        BackupEntryModel { path: self.path@, digest: self.digest@ }
    }
}

/// The models of a sequence of backup records.
pub open spec fn backup_views(s: Seq<BackupEntry>) -> Seq<BackupEntryModel> {
    s.map_values(|e: BackupEntry| e@)
}

/// Each path occurs as a key at most once.
pub open spec fn unique_keys(s: Seq<BackupEntryModel>) -> bool {
    forall|i: int, j: int| 0 <= i < j < s.len() ==> s[i].path != s[j].path
}

/// Some record of `s` has the key `p`.
pub open spec fn contains_key(s: Seq<BackupEntryModel>, p: Seq<char>) -> bool {
    exists|i: int| 0 <= i < s.len() && s[i].path == p
}

/// `s` with the first record keyed `p` removed; `s` itself when no record has that key.
pub open spec fn remove_entry(s: Seq<BackupEntryModel>, p: Seq<char>) -> Seq<BackupEntryModel>
    decreases s.len(),
{
    if s.len() == 0 {
        s
    } else if s[0].path == p {
        s.drop_first()
    } else {
        seq![s[0]] + remove_entry(s.drop_first(), p)
    }
}

/// Removing an absent key changes nothing.
pub proof fn lemma_remove_entry_absent(s: Seq<BackupEntryModel>, p: Seq<char>)
    requires
        !contains_key(s, p),
    ensures
        remove_entry(s, p) == s,
    decreases s.len(),
{
    if s.len() == 0 {
    } else {
        assert(s[0].path != p);
        assert forall|i: int| 0 <= i < s.drop_first().len() implies s.drop_first()[i].path != p by {
            assert(s.drop_first()[i] == s[i + 1]);
        }
        lemma_remove_entry_absent(s.drop_first(), p);
        assert(seq![s[0]] + s.drop_first() =~= s);
    }
}

/// Removing the only record keyed `p` leaves a map without that key, keeps
/// every other record, adds nothing, and preserves key uniqueness.
pub proof fn lemma_remove_entry_members(s: Seq<BackupEntryModel>, p: Seq<char>)
    requires
        unique_keys(s),
    ensures
        !contains_key(remove_entry(s, p), p),
        forall|q: BackupEntryModel| #[trigger] remove_entry(s, p).contains(q) ==> s.contains(q),
        forall|q: BackupEntryModel|
            q.path != p && s.contains(q) ==> #[trigger] remove_entry(s, p).contains(q),
        unique_keys(remove_entry(s, p)),
    decreases s.len(),
{
    if s.len() == 0 {
    } else if s[0].path == p {
        let r = s.drop_first();
        assert(remove_entry(s, p) == r);
        assert forall|i: int, j: int| 0 <= i < j < r.len() implies r[i].path != r[j].path by {
            assert(r[i] == s[i + 1]);
            assert(r[j] == s[j + 1]);
        }
        assert forall|i: int| 0 <= i < r.len() implies r[i].path != p by {
            assert(r[i] == s[i + 1]);
        }
        assert forall|q: BackupEntryModel| #[trigger] r.contains(q) implies s.contains(q) by {
            let i = choose|i: int| 0 <= i < r.len() && r[i] == q;
            assert(s[i + 1] == q);
        }
        assert forall|q: BackupEntryModel| q.path != p && s.contains(q) implies #[trigger] r.contains(
            q,
        ) by {
            let i = choose|i: int| 0 <= i < s.len() && s[i] == q;
            assert(i != 0);
            assert(r[i - 1] == q);
        }
    } else {
        assert forall|i: int, j: int|
            0 <= i < j < s.drop_first().len() implies s.drop_first()[i].path != s.drop_first()[j].path by {
            assert(s.drop_first()[i] == s[i + 1]);
            assert(s.drop_first()[j] == s[j + 1]);
        }
        lemma_remove_entry_members(s.drop_first(), p);
        let rest = remove_entry(s.drop_first(), p);
        let r = seq![s[0]] + rest;
        assert(remove_entry(s, p) == r);
        assert forall|i: int| 0 <= i < r.len() implies r[i].path != p by {
            if i > 0 {
                assert(r[i] == rest[i - 1]);
                assert(rest.contains(rest[i - 1]));
                assert(s.drop_first().contains(rest[i - 1]));
                if rest[i - 1].path == p {
                    assert(contains_key(rest, p)) by {
                        assert(rest[i - 1].path == p);
                    }
                }
            }
        }
        assert forall|q: BackupEntryModel| #[trigger] r.contains(q) implies s.contains(q) by {
            let i = choose|i: int| 0 <= i < r.len() && r[i] == q;
            if i == 0 {
                assert(s.contains(s[0]));
            } else {
                assert(rest[i - 1] == q);
                assert(rest.contains(q));
                assert(s.drop_first().contains(q));
                let j = choose|j: int| 0 <= j < s.drop_first().len() && s.drop_first()[j] == q;
                assert(s[j + 1] == q);
            }
        }
        assert forall|q: BackupEntryModel| q.path != p && s.contains(q) implies #[trigger] r.contains(
            q,
        ) by {
            let i = choose|i: int| 0 <= i < s.len() && s[i] == q;
            if i == 0 {
                assert(r[0] == q);
            } else {
                assert(s.drop_first()[i - 1] == q);
                assert(rest.contains(q));
                let j = choose|j: int| 0 <= j < rest.len() && rest[j] == q;
                assert(r[j + 1] == q);
            }
        }
        assert forall|i: int, j: int| 0 <= i < j < r.len() implies r[i].path != r[j].path by {
            if i == 0 {
                assert(r[j] == rest[j - 1]);
                assert(rest.contains(rest[j - 1]));
                assert(s.drop_first().contains(r[j]));
                let k = choose|k: int|
                    0 <= k < s.drop_first().len() && s.drop_first()[k] == r[j];
                assert(s[k + 1] == r[j]);
            } else {
                assert(r[i] == rest[i - 1]);
                assert(r[j] == rest[j - 1]);
            }
        }
    }
}

/// Map from package-declared backup paths to their recorded fingerprints.
pub struct BackupFileMap {
    entries: Vec<BackupEntry>,
}

impl View for BackupFileMap {
    type V = Seq<BackupEntryModel>;

    closed spec fn view(&self) -> Seq<BackupEntryModel> {
        backup_views(self.entries@)
    }
}

impl BackupFileMap {
    /// Keys are unique.
    pub open spec fn wf(&self) -> bool {
        unique_keys(self@)
    }

    /// An empty map.
    pub fn new() -> (r: BackupFileMap)
        ensures
            r@ == Seq::<BackupEntryModel>::empty(),
            r.wf(),
    {
        let r = BackupFileMap { entries: Vec::new() };
        proof {
            assert(r@ =~= Seq::<BackupEntryModel>::empty());
        }
        r
    }

    pub fn len(&self) -> (n: usize)
        ensures
            n == self@.len(),
    {
        self.entries.len()
    }

    /// Removes the record keyed `p`, reporting whether one was present.
    pub fn remove_key(&mut self, p: &String) -> (found: bool)
        requires
            old(self).wf(),
        ensures
            final(self).wf(),
            found == contains_key(old(self)@, p@),
            final(self)@ == remove_entry(old(self)@, p@),
    {
        let ghost s0 = self@;
        let n = self.entries.len();
        let mut i: usize = 0;
        while i < n
            invariant
                i <= n,
                old(self)@ == s0,
                self@ == s0,
                self.wf(),
                n == self@.len(),
                self@.len() == self.entries@.len(),
                forall|k: int| 0 <= k < i ==> self@[k].path != p@,
            decreases n - i,
        {
            if self.entries[i].path == *p {
                let ghost es0 = self.entries@;
                proof {
                    assert(s0[i as int].path == p@);
                    assert(contains_key(s0, p@));
                }
                self.entries.remove(i);
                proof {
                    assert(self.entries@ == es0.remove(i as int));
                    assert forall|j: int|
                        0 <= j < backup_views(es0.remove(i as int)).len() implies backup_views(
                        es0.remove(i as int),
                    )[j] == s0.remove(i as int)[j] by {
                        assert(backup_views(es0.remove(i as int))[j] == es0.remove(i as int)[j]@);
                        if j < i {
                            assert(es0.remove(i as int)[j] == es0[j]);
                            assert(s0.remove(i as int)[j] == s0[j]);
                        } else {
                            assert(es0.remove(i as int)[j] == es0[j + 1]);
                            assert(s0.remove(i as int)[j] == s0[j + 1]);
                        }
                    }
                    assert(self@ =~= s0.remove(i as int));
                    lemma_prefix_clean_remove_entry(s0, p@, i as int);
                    assert(remove_entry(s0, p@) =~= s0.remove(i as int));
                    lemma_remove_entry_members(s0, p@);
                }
                return true;
            }
            i = i + 1;
        }
        proof {
            assert(!contains_key(s0, p@));
            lemma_remove_entry_absent(s0, p@);
        }
        false
    }

    /// Records the fingerprint `d` for `p`, superseding any earlier record.
    pub fn insert(&mut self, p: String, d: String)
        requires
            old(self).wf(),
        ensures
            final(self).wf(),
            final(self)@ == remove_entry(old(self)@, p@).push(
                BackupEntryModel { path: p@, digest: d@ },
            ),
    {
        let ghost s0 = self@;
        self.remove_key(&p);
        let ghost s1 = self@;
        let ghost es1 = self.entries@;
        self.entries.push(BackupEntry { path: p, digest: d });
        proof {
            assert(self@ =~= s1.push(self.entries@.last()@));
            lemma_remove_entry_members(s0, p@);
            let r = self@;
            assert forall|i: int, j: int| 0 <= i < j < r.len() implies r[i].path != r[j].path by {
                if j < r.len() - 1 {
                    assert(r[i] == s1[i]);
                    assert(r[j] == s1[j]);
                } else {
                    assert(r[i] == s1[i]);
                    assert(s1.contains(s1[i]));
                    if s1[i].path == r[j].path {
                        assert(contains_key(s1, r[j].path));
                    }
                }
            }
        }
    }

    /// Drops every record still held.
    pub fn clear(&mut self)
        ensures
            final(self).wf(),
            final(self)@ == Seq::<BackupEntryModel>::empty(),
    {
        self.entries.clear();
        proof {
            assert(self@ =~= Seq::<BackupEntryModel>::empty());
        }
    }

    /// A copy of the records still held, in order.
    pub fn entries(&self) -> (r: Vec<BackupEntry>)
        ensures
            backup_views(r@) == self@,
    {
        let n = self.entries.len();
        let mut r: Vec<BackupEntry> = Vec::new();
        let mut i: usize = 0;
        while i < n
            invariant
                i <= n,
                n == self.entries@.len(),
                backup_views(r@) =~= self@.take(i as int),
            decreases n - i,
        {
            let ghost before = r@;
            r.push(BackupEntry {
                path: self.entries[i].path.clone(),
                digest: self.entries[i].digest.clone(),
            });
            proof {
                assert(backup_views(r@) =~= backup_views(before).push(self.entries@[i as int]@));
                assert(backup_views(r@) =~= self@.take(i + 1));
            }
            i = i + 1;
        }
        proof {
            assert(self@.take(n as int) =~= self@);
        }
        r
    }
}

/// When the first `i` records are keyed otherwise and `s[i]` is keyed `p`,
/// removing index `i` is exactly `remove_entry`.
proof fn lemma_prefix_clean_remove_entry(s: Seq<BackupEntryModel>, p: Seq<char>, i: int)
    requires
        0 <= i < s.len(),
        s[i].path == p,
        forall|k: int| 0 <= k < i ==> s[k].path != p,
    ensures
        remove_entry(s, p) == s.remove(i),
    decreases i,
{
    if i == 0 {
        assert(remove_entry(s, p) == s.drop_first());
        assert(s.drop_first() =~= s.remove(0));
    } else {
        assert(s[0].path != p);
        assert(remove_entry(s, p) == seq![s[0]] + remove_entry(s.drop_first(), p));
        assert(s.drop_first()[i - 1].path == p);
        assert forall|k: int| 0 <= k < i - 1 implies s.drop_first()[k].path != p by {
            assert(s[k + 1].path != p);
        }
        lemma_prefix_clean_remove_entry(s.drop_first(), p, i - 1);
        assert(seq![s[0]] + s.drop_first().remove(i - 1) =~= s.remove(i));
    }
}

} // verus!
