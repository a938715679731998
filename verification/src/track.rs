//! The set of package-owned paths, consumed destructively during
//! reconciliation: confirming a path on disk removes it, and what remains
//! afterwards feeds the deleted check.

use vstd::prelude::*;
use crate::entry::str_views;

verus! {

/// `s` with the first occurrence of `p` removed; `s` itself when `p` is absent.
pub open spec fn remove_path(s: Seq<Seq<char>>, p: Seq<char>) -> Seq<Seq<char>>
    decreases s.len(),
{
    if s.len() == 0 {
        s
    } else if s[0] == p {
        s.drop_first()
    } else {
        seq![s[0]] + remove_path(s.drop_first(), p)
    }
}

/// Removing an absent path changes nothing.
pub proof fn lemma_remove_path_absent(s: Seq<Seq<char>>, p: Seq<char>)
    requires
        !s.contains(p),
    ensures
        remove_path(s, p) == s,
    decreases s.len(),
{
    if s.len() == 0 {
    } else {
        assert(s[0] != p);
        assert(s.drop_first().contains(p) ==> s.contains(p));
        lemma_remove_path_absent(s.drop_first(), p);
        assert(seq![s[0]] + s.drop_first() =~= s);
    }
}

/// Removing the only occurrence of `p` leaves a sequence without `p`,
/// keeps every other element, and adds nothing.
pub proof fn lemma_remove_path_members(s: Seq<Seq<char>>, p: Seq<char>)
    requires
        s.no_duplicates(),
    ensures
        !remove_path(s, p).contains(p),
        forall|q: Seq<char>| #[trigger] remove_path(s, p).contains(q) ==> s.contains(q),
        forall|q: Seq<char>| q != p && s.contains(q) ==> #[trigger] remove_path(s, p).contains(q),
        remove_path(s, p).no_duplicates(),
    decreases s.len(),
{
    if s.len() == 0 {
    } else if s[0] == p {
        assert(remove_path(s, p) == s.drop_first());
        assert forall|q: Seq<char>| #[trigger] s.drop_first().contains(q) implies s.contains(q) by {
            let i = choose|i: int| 0 <= i < s.drop_first().len() && s.drop_first()[i] == q;
            assert(s[i + 1] == q);
        }
        if s.drop_first().contains(p) {
            let i = choose|i: int| 0 <= i < s.drop_first().len() && s.drop_first()[i] == p;
            assert(s[i + 1] == s[0]);
        }
        assert forall|q: Seq<char>| q != p && s.contains(q) implies #[trigger] s.drop_first().contains(q) by {
            let i = choose|i: int| 0 <= i < s.len() && s[i] == q;
            assert(i != 0);
            assert(s.drop_first()[i - 1] == q);
        }
    } else {
        assert(s.drop_first().no_duplicates()) by {
            assert forall|i: int, j: int|
                0 <= i < j < s.drop_first().len() implies s.drop_first()[i] != s.drop_first()[j] by {
                assert(s[i + 1] == s.drop_first()[i]);
                assert(s[j + 1] == s.drop_first()[j]);
            }
        }
        lemma_remove_path_members(s.drop_first(), p);
        let r = seq![s[0]] + remove_path(s.drop_first(), p);
        assert(remove_path(s, p) == r);
        assert forall|q: Seq<char>| #[trigger] r.contains(q) implies (q == s[0]
            || remove_path(s.drop_first(), p).contains(q)) by {
            let i = choose|i: int| 0 <= i < r.len() && r[i] == q;
            if i > 0 {
                assert(remove_path(s.drop_first(), p)[i - 1] == q);
            }
        }
        assert forall|q: Seq<char>| #[trigger] r.contains(q) implies s.contains(q) by {
            if q == s[0] {
                assert(s.contains(s[0]));
            } else {
                assert(remove_path(s.drop_first(), p).contains(q));
                assert(s.drop_first().contains(q));
                let i = choose|i: int| 0 <= i < s.drop_first().len() && s.drop_first()[i] == q;
                assert(s[i + 1] == q);
            }
        }
        assert forall|q: Seq<char>| q != p && s.contains(q) implies #[trigger] r.contains(q) by {
            let i = choose|i: int| 0 <= i < s.len() && s[i] == q;
            if i == 0 {
                assert(r[0] == q);
            } else {
                assert(s.drop_first()[i - 1] == q);
                assert(remove_path(s.drop_first(), p).contains(q));
                let j = choose|j: int|
                    0 <= j < remove_path(s.drop_first(), p).len() && remove_path(
                        s.drop_first(),
                        p,
                    )[j] == q;
                assert(r[j + 1] == q);
            }
        }
        assert(!r.contains(p));
        assert(r.no_duplicates()) by {
            if !s.drop_first().contains(s[0]) {
                assert forall|i: int, j: int| 0 <= i < j < r.len() implies r[i] != r[j] by {
                    if i == 0 {
                        assert(r[j] == remove_path(s.drop_first(), p)[j - 1]);
                        assert(remove_path(s.drop_first(), p).contains(r[j]));
                        if r[j] == s[0] {
                            assert(s.drop_first().contains(s[0]));
                        }
                    } else {
                        assert(r[i] == remove_path(s.drop_first(), p)[i - 1]);
                        assert(r[j] == remove_path(s.drop_first(), p)[j - 1]);
                    }
                }
            } else {
                let i = choose|i: int| 0 <= i < s.drop_first().len() && s.drop_first()[i] == s[0];
                assert(s[i + 1] == s[0]);
            }
        }
    }
}

/// Set of paths the package manifest records as owned by installed packages.
pub struct TrackedFileSet {
    paths: Vec<String>,
}

impl View for TrackedFileSet {
    type V = Seq<Seq<char>>;

    closed spec fn view(&self) -> Seq<Seq<char>> {
        str_views(self.paths@)
    }
}

impl TrackedFileSet {
    /// The set holds each path at most once.
    pub open spec fn wf(&self) -> bool {
        self@.no_duplicates()
    }

    /// An empty set.
    pub fn new() -> (r: TrackedFileSet)
        ensures
            r@ == Seq::<Seq<char>>::empty(),
            r.wf(),
    {
        let r = TrackedFileSet { paths: Vec::new() };
        proof {
            assert(r@ =~= Seq::<Seq<char>>::empty());
        }
        r
    }

    pub fn len(&self) -> (n: usize)
        ensures
            n == self@.len(),
    {
        self.paths.len()
    }

    /// Records `p` as package-owned; a path already present is kept once.
    pub fn insert(&mut self, p: String)
        requires
            old(self).wf(),
        ensures
            final(self).wf(),
            final(self)@ == (if old(self)@.contains(p@) {
                old(self)@
            } else {
                old(self)@.push(p@)
            }),
    {
        if !self.contains(&p) {
            let ghost before = self.paths@;
            self.paths.push(p);
            proof {
                assert(str_views(before.push(p)) =~= str_views(before).push(p@));
            }
        }
    }

    /// Whether `p` is (still) recorded in the set.
    pub fn contains(&self, p: &String) -> (r: bool)
        ensures
            r == self@.contains(p@),
    {
        let n = self.paths.len();
        let mut i: usize = 0;
        while i < n
            invariant
                i <= n,
                n == self@.len(),
                self@.len() == self.paths@.len(),
                forall|k: int| 0 <= k < i ==> self@[k] != p@,
            decreases n - i,
        {
            if self.paths[i] == *p {
                assert(self@[i as int] == p@);
                return true;
            }
            i = i + 1;
        }
        false
    }

    /// Removes `p` from the set, reporting whether it was present.
    pub fn remove(&mut self, p: &String) -> (found: bool)
        requires
            old(self).wf(),
        ensures
            final(self).wf(),
            found == old(self)@.contains(p@),
            final(self)@ == remove_path(old(self)@, p@),
    {
        let ghost s0 = self@;
        let n = self.paths.len();
        let mut i: usize = 0;
        while i < n
            invariant
                i <= n,
                old(self)@ == s0,
                self@ == s0,
                self.wf(),
                n == self@.len(),
                self@.len() == self.paths@.len(),
                forall|k: int| 0 <= k < i ==> self@[k] != p@,
            decreases n - i,
        {
            if self.paths[i] == *p {
                let ghost ps0 = self.paths@;
                proof {
                    assert(s0[i as int] == p@);
                    assert(s0.contains(p@));
                }
                self.paths.remove(i);
                proof {
                    assert(self.paths@ == ps0.remove(i as int));
                    assert forall|j: int|
                        0 <= j < str_views(ps0.remove(i as int)).len() implies str_views(
                        ps0.remove(i as int),
                    )[j] == s0.remove(i as int)[j] by {
                        assert(str_views(ps0.remove(i as int))[j] == ps0.remove(i as int)[j]@);
                        if j < i {
                            assert(ps0.remove(i as int)[j] == ps0[j]);
                            assert(s0.remove(i as int)[j] == s0[j]);
                        } else {
                            assert(ps0.remove(i as int)[j] == ps0[j + 1]);
                            assert(s0.remove(i as int)[j] == s0[j + 1]);
                        }
                    }
                    assert(self@ =~= s0.remove(i as int));
                    lemma_prefix_clean_remove(s0, p@, i as int);
                    assert(remove_path(s0, p@) =~= s0.remove(i as int));
                    lemma_remove_path_members(s0, p@);
                }
                return true;
            }
            i = i + 1;
        }
        proof {
            assert(!s0.contains(p@));
            lemma_remove_path_absent(s0, p@);
        }
        false
    }

    /// Drops every path still recorded.
    pub fn clear(&mut self)
        ensures
            final(self).wf(),
            final(self)@ == Seq::<Seq<char>>::empty(),
    {
        self.paths.clear();
        proof {
            assert(self@ =~= Seq::<Seq<char>>::empty());
        }
    }

    /// A copy of the paths still recorded, in order.
    pub fn paths(&self) -> (r: Vec<String>)
        ensures
            str_views(r@) == self@,
    {
        let n = self.paths.len();
        let mut r: Vec<String> = Vec::new();
        let mut i: usize = 0;
        while i < n
            invariant
                i <= n,
                n == self.paths@.len(),
                str_views(r@) =~= self@.take(i as int),
            decreases n - i,
        {
            let ghost before = r@;
            r.push(self.paths[i].clone());
            proof {
                assert(str_views(before.push(self.paths@[i as int])) =~= str_views(before).push(
                    self.paths@[i as int]@,
                ));
                assert(str_views(r@) =~= self@.take(i + 1));
            }
            i = i + 1;
        }
        proof {
            assert(self@.take(n as int) =~= self@);
        }
        r
    }
}

/// When the first `i` elements differ from `p` and `s[i] == p`,
/// removing index `i` is exactly `remove_path`.
proof fn lemma_prefix_clean_remove(s: Seq<Seq<char>>, p: Seq<char>, i: int)
    requires
        0 <= i < s.len(),
        s[i] == p,
        forall|k: int| 0 <= k < i ==> s[k] != p,
    ensures
        remove_path(s, p) == s.remove(i),
    decreases i,
{
    if i == 0 {
        assert(remove_path(s, p) == s.drop_first());
        assert(s.drop_first() =~= s.remove(0));
    } else {
        assert(s[0] != p);
        assert(remove_path(s, p) == seq![s[0]] + remove_path(s.drop_first(), p));
        assert(s.drop_first()[i - 1] == p);
        assert forall|k: int| 0 <= k < i - 1 implies s.drop_first()[k] != p by {
            assert(s[k + 1] != p);
        }
        lemma_prefix_clean_remove(s.drop_first(), p, i - 1);
        assert(seq![s[0]] + s.drop_first().remove(i - 1) =~= s.remove(i));
    }
}

} // verus!
