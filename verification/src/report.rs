//! The report: diff entries sorted by path (ties broken by marker rank) and
//! rendered one line per entry as `<marker> <root><path>`.

use vstd::prelude::*;
use vstd::relations::{sorted_by, total_ordering};
use vstd::seq_lib::group_to_multiset_ensures;
use vstd::string::StringExecFns;
use crate::entry::{entry_views, str_views, DiffEntry, EntryModel, Marker};
use crate::strings::{
    lemma_lex_le_antisym, lemma_lex_le_total, lemma_lex_le_trans, lex_le, str_lex_le,
};

verus! {

/// The tie-breaking rank of a marker in the report order.
pub open spec fn marker_rank(m: Marker) -> int {
    match m {
        Marker::Untracked => 0,
        Marker::RepoChanged => 1,
        Marker::Deleted => 2,
        Marker::BackupChanged => 3,
    }
}

/// Report order: ascending by path; entries with equal paths (which a full
/// reconciliation does not produce) are ordered by marker rank.
pub open spec fn entry_le(a: EntryModel, b: EntryModel) -> bool {
    if a.path == b.path {
        marker_rank(a.marker) <= marker_rank(b.marker)
    } else {
        lex_le(a.path, b.path)
    }
}

/// The report order as a relation value.
pub open spec fn entry_leq() -> spec_fn(EntryModel, EntryModel) -> bool {
    |a: EntryModel, b: EntryModel| entry_le(a, b)
}

/// The canonical sorted arrangement of a collection of entries.
pub open spec fn sort_entry_models(s: Seq<EntryModel>) -> Seq<EntryModel> {
    s.sort_by(entry_leq())
}

/// The report order is a total ordering.
pub proof fn lemma_entry_le_total_ordering()
    ensures
        total_ordering(entry_leq()),
{
    let leq = entry_leq();
    assert forall|x: EntryModel| #[trigger] leq(x, x) by {
        lemma_lex_le_total(x.path, x.path);
    }
    assert forall|x: EntryModel, y: EntryModel| #[trigger] leq(x, y) && #[trigger] leq(y, x)
        implies x == y by {
        if x.path == y.path {
            assert(marker_rank(x.marker) == marker_rank(y.marker));
            assert(x.marker == y.marker);
        } else {
            lemma_lex_le_antisym(x.path, y.path);
        }
    }
    assert forall|x: EntryModel, y: EntryModel, z: EntryModel|
        #[trigger] leq(x, y) && #[trigger] leq(y, z) implies leq(x, z) by {
        if x.path == y.path {
        } else if y.path == z.path {
        } else if x.path == z.path {
            lemma_lex_le_antisym(x.path, y.path);
        } else {
            lemma_lex_le_trans(x.path, y.path, z.path);
        }
    }
    assert forall|x: EntryModel, y: EntryModel| #[trigger] leq(x, y) || #[trigger] leq(y, x) by {
        if x.path != y.path {
            lemma_lex_le_total(x.path, y.path);
        }
    }
}

/// Two sorted arrangements of the same entries are the same sequence.
pub proof fn lemma_sorted_unique(s1: Seq<EntryModel>, s2: Seq<EntryModel>)
    requires
        sorted_by(s1, entry_leq()),
        sorted_by(s2, entry_leq()),
        s1.to_multiset() == s2.to_multiset(),
    ensures
        s1 == s2,
    decreases s1.len(),
{
    broadcast use group_to_multiset_ensures;

    lemma_entry_le_total_ordering();
    let leq = entry_leq();
    assert(s1.len() == s1.to_multiset().len());
    assert(s2.len() == s2.to_multiset().len());
    if s1.len() == 0 {
        assert(s2.len() == 0);
        assert(s1 =~= s2);
    } else {
        assert(s2.len() == s1.len());
        let a = s1[0];
        let b = s2[0];
        assert(s1.contains(a));
        assert(s2.to_multiset().count(a) > 0);
        assert(s2.contains(a));
        let i = choose|i: int| 0 <= i < s2.len() && s2[i] == a;
        assert(leq(b, a)) by {
            if i > 0 {
                assert(leq(s2[0], s2[i]));
            }
        }
        assert(s2.contains(b));
        assert(s1.to_multiset().count(b) > 0);
        assert(s1.contains(b));
        let j = choose|j: int| 0 <= j < s1.len() && s1[j] == b;
        assert(leq(a, b)) by {
            if j > 0 {
                assert(leq(s1[0], s1[j]));
            }
        }
        assert(a == b);
        let t1 = s1.drop_first();
        let t2 = s2.drop_first();
        assert(t1 =~= s1.remove(0));
        assert(t2 =~= s2.remove(0));
        assert(t1.to_multiset() == s1.to_multiset().remove(a));
        assert(t2.to_multiset() == s2.to_multiset().remove(a));
        assert(sorted_by(t1, leq)) by {
            assert forall|k: int, l: int| 0 <= k < l < t1.len() implies #[trigger] leq(
                t1[k],
                t1[l],
            ) by {
                assert(t1[k] == s1[k + 1]);
                assert(t1[l] == s1[l + 1]);
            }
        }
        assert(sorted_by(t2, leq)) by {
            assert forall|k: int, l: int| 0 <= k < l < t2.len() implies #[trigger] leq(
                t2[k],
                t2[l],
            ) by {
                assert(t2[k] == s2[k + 1]);
                assert(t2[l] == s2[l + 1]);
            }
        }
        lemma_sorted_unique(t1, t2);
        assert(s1 =~= s2) by {
            assert forall|k: int| 0 <= k < s1.len() implies s1[k] == s2[k] by {
                if k > 0 {
                    assert(t1[k - 1] == t2[k - 1]);
                }
            }
        }
    }
}

/// A sorted arrangement of the same entries is the canonical one.
pub proof fn lemma_sorted_is_sort(s: Seq<EntryModel>, t: Seq<EntryModel>)
    requires
        s.to_multiset() == t.to_multiset(),
        sorted_by(t, entry_leq()),
    ensures
        t == sort_entry_models(s),
{
    lemma_entry_le_total_ordering();
    s.lemma_sort_by_ensures(entry_leq());
    lemma_sorted_unique(t, s.sort_by(entry_leq()));
}

proof fn lemma_entry_views_remove(s: Seq<DiffEntry>, i: int)
    requires
        0 <= i < s.len(),
    ensures
        entry_views(s.remove(i)) =~= entry_views(s).remove(i),
{
    s.remove_ensures(i);
    entry_views(s).remove_ensures(i);
    assert forall|j: int| 0 <= j < entry_views(s.remove(i)).len() implies entry_views(
        s.remove(i),
    )[j] == entry_views(s).remove(i)[j] by {
        if j < i {
            assert(s.remove(i)[j] == s[j]);
        } else {
            assert(s.remove(i)[j] == s[j + 1]);
        }
    }
}

proof fn lemma_entry_views_insert(s: Seq<DiffEntry>, i: int, e: DiffEntry)
    requires
        0 <= i <= s.len(),
    ensures
        entry_views(s.insert(i, e)) =~= entry_views(s).insert(i, e@),
{
    s.insert_ensures(i, e);
    entry_views(s).insert_ensures(i, e@);
    assert forall|j: int| 0 <= j < entry_views(s.insert(i, e)).len() implies entry_views(
        s.insert(i, e),
    )[j] == entry_views(s).insert(i, e@)[j] by {
        if j < i {
            assert(s.insert(i, e)[j] == s[j]);
        } else if j == i {
            assert(s.insert(i, e)[j] == e);
        } else {
            assert(s.insert(i, e)[j] == s[j - 1]);
        }
    }
}

fn marker_rank_exec(m: Marker) -> (r: u8)
    ensures
        r as int == marker_rank(m),
{
    match m {
        Marker::Untracked => 0,
        Marker::RepoChanged => 1,
        Marker::Deleted => 2,
        Marker::BackupChanged => 3,
    }
}

/// Executable report-order comparison.
pub fn entry_le_exec(a: &DiffEntry, b: &DiffEntry) -> (r: bool)
    ensures
        r == entry_le(a@, b@),
{
    if a.path == b.path {
        marker_rank_exec(a.marker) <= marker_rank_exec(b.marker)
    } else {
        str_lex_le(a.path.as_str(), b.path.as_str())
    }
}

/// Sorts the collected entries into the canonical report order.
pub fn sort_entries(entries: &mut Vec<DiffEntry>)
    ensures
        entry_views(final(entries)@) == sort_entry_models(entry_views(old(entries)@)),
{
    let ghost m0 = entry_views(old(entries)@).to_multiset();
    let n = entries.len();
    if n <= 1 {
        proof {
            assert(sorted_by(entry_views(entries@), entry_leq()));
            lemma_sorted_is_sort(entry_views(old(entries)@), entry_views(entries@));
        }
        return;
    }
    let mut i: usize = 1;
    while i < n
        invariant
            1 <= i <= n,
            n == entries@.len(),
            m0 == entry_views(old(entries)@).to_multiset(),
            entry_views(entries@).to_multiset() == m0,
            sorted_by(entry_views(entries@).take(i as int), entry_leq()),
        decreases n - i,
    {
        let ghost vs0 = entries@;
        let ghost v0 = entry_views(entries@);
        let e = entries.remove(i);
        let ghost u = entry_views(entries@);
        proof {
            broadcast use group_to_multiset_ensures;

            lemma_entry_views_remove(vs0, i as int);
            assert(u == v0.remove(i as int));
            v0.remove_ensures(i as int);
            assert(u.take(i as int) =~= v0.take(i as int));
            assert(v0[i as int] == e@);
            assert(v0.contains(e@));
            assert(u.to_multiset() == m0.remove(e@));
            assert(m0.count(e@) > 0);
        }
        let mut j: usize = 0;
        loop
            invariant
                j <= i,
                1 <= i < n,
                n == entries@.len() + 1,
                u == entry_views(entries@),
                u.len() == n - 1,
                forall|k: int| 0 <= k < j ==> !entry_le(e@, u[k]),
                sorted_by(u.take(i as int), entry_leq()),
            ensures
                j <= i,
                forall|k: int| 0 <= k < j ==> !entry_le(e@, u[k]),
                j == i || entry_le(e@, u[j as int]),
            decreases i - j,
        {
            if j == i {
                break;
            }
            if entry_le_exec(&e, &entries[j]) {
                proof {
                    assert(u[j as int] == entries@[j as int]@);
                }
                break;
            }
            j = j + 1;
        }
        let ghost us0 = entries@;
        entries.insert(j, e);
        proof {
            broadcast use group_to_multiset_ensures;

            lemma_entry_le_total_ordering();
            let leq = entry_leq();
            assert(vstd::relations::transitive(leq));
            assert(vstd::relations::strongly_connected(leq));
            lemma_entry_views_insert(us0, j as int, e);
            let w = entry_views(entries@);
            assert(w == u.insert(j as int, e@));
            u.insert_ensures(j as int, e@);
            assert(w.to_multiset() == u.to_multiset().insert(e@));
            assert(w.to_multiset() =~= m0);
            assert forall|k: int| 0 <= k < i implies #[trigger] leq(u[k], e@) || k >= j by {
                if k < j {
                    assert(!entry_le(e@, u[k]));
                    assert(leq(e@, u[k]) || leq(u[k], e@));
                }
            }
            assert forall|k: int, l: int| 0 <= k < l < i + 1 implies #[trigger] leq(
                w[k],
                w[l],
            ) by {
                assert(forall|x: int, y: int|
                    0 <= x < y < i ==> #[trigger] leq(u.take(i as int)[x], u.take(i as int)[y]));
                assert(forall|x: int, y: int| 0 <= x < y < i ==> leq(u[x], u[y])) by {
                    assert(forall|x: int| 0 <= x < i ==> u.take(i as int)[x] == u[x]);
                }
                if l < j {
                    assert(w[k] == u[k] && w[l] == u[l]);
                } else if l == j {
                    assert(w[l] == e@);
                    assert(w[k] == u[k]);
                    assert(leq(u[k], e@));
                } else {
                    assert(w[l] == u[l - 1]);
                    if k < j {
                        assert(w[k] == u[k]);
                        if k < l - 1 {
                            assert(leq(u[k], u[l - 1]));
                        }
                    } else if k == j {
                        assert(w[k] == e@);
                        assert(j < i);
                        assert(entry_le(e@, u[j as int]));
                        assert(leq(e@, u[j as int]));
                        if l - 1 > j {
                            assert(leq(u[j as int], u[l - 1]));
                            assert(leq(e@, u[l - 1]));
                        } else {
                            assert(l - 1 == j);
                        }
                    } else {
                        assert(w[k] == u[k - 1]);
                        assert(leq(u[k - 1], u[l - 1]));
                    }
                }
            }
            assert(sorted_by(w.take(i + 1), leq)) by {
                assert(forall|x: int| 0 <= x < i + 1 ==> w.take(i + 1)[x] == w[x]);
            }
        }
        i = i + 1;
    }
    proof {
        assert(entry_views(entries@).take(n as int) =~= entry_views(entries@));
        lemma_sorted_is_sort(entry_views(old(entries)@), entry_views(entries@));
    }
}

/// The two-character prefix a marker renders as.
pub open spec fn marker_prefix(m: Marker) -> Seq<char> {
    match m {
        Marker::Untracked => seq!['?', ' '],
        Marker::RepoChanged => seq!['R', ' '],
        Marker::Deleted => seq!['D', ' '],
        Marker::BackupChanged => seq!['B', ' '],
    }
}

/// The rendered line of one entry: its marker prefix, the root, its path.
pub open spec fn render_model(e: EntryModel, root: Seq<char>) -> Seq<char> {
    marker_prefix(e.marker) + root + e.path
}

/// Every entry rendered, in order.
pub open spec fn render_all(es: Seq<EntryModel>, root: Seq<char>) -> Seq<Seq<char>> {
    es.map_values(|e: EntryModel| render_model(e, root))
}

/// The whole report of a collection of entries: sorted, then rendered.
pub open spec fn rendered_report(es: Seq<EntryModel>, root: Seq<char>) -> Seq<Seq<char>> {
    render_all(sort_entry_models(es), root)
}

/// Renders one entry as `<marker> <root><path>`.
pub fn render_line(e: &DiffEntry, root: &str) -> (line: String)
    ensures
        line@ == render_model(e@, root@),
{
    let prefix: &str = match e.marker {
        Marker::Untracked => "? ",
        Marker::RepoChanged => "R ",
        Marker::Deleted => "D ",
        Marker::BackupChanged => "B ",
    };
    proof {
        reveal_strlit("? ");
        reveal_strlit("R ");
        reveal_strlit("D ");
        reveal_strlit("B ");
        assert(prefix@ =~= marker_prefix(e@.marker));
    }
    let mut line = String::from_str(prefix);
    line.append(root);
    line.append(e.path.as_str());
    proof {
        assert(line@ =~= marker_prefix(e@.marker) + root@ + e.path@);
    }
    line
}

/// The full report: the entries sorted into the canonical order and
/// rendered one line each, `<marker> <root><path>`.
pub fn report_lines(entries: Vec<DiffEntry>, root: &str) -> (lines: Vec<String>)
    ensures
        str_views(lines@) == rendered_report(entry_views(entries@), root@),
{
    let ghost es0 = entry_views(entries@);
    let mut in_order = entries;
    sort_entries(&mut in_order);
    let ghost sv = entry_views(in_order@);
    let n = in_order.len();
    let mut lines: Vec<String> = Vec::new();
    let mut i: usize = 0;
    proof {
        assert(str_views(lines@) =~= render_all(sv.take(0), root@));
    }
    while i < n
        invariant
            i <= n,
            n == in_order@.len(),
            sv == entry_views(in_order@),
            sv == sort_entry_models(es0),
            sv.len() == n,
            str_views(lines@) =~= render_all(sv.take(i as int), root@),
        decreases n - i,
    {
        let ghost before = lines@;
        let line = render_line(&in_order[i], root);
        proof {
            assert(in_order@[i as int]@ == sv[i as int]);
        }
        lines.push(line);
        proof {
            assert(str_views(lines@) =~= str_views(before).push(line@));
            assert(render_all(sv.take(i + 1), root@) =~= render_all(sv.take(i as int), root@).push(
                render_model(sv[i as int], root@),
            ));
        }
        i = i + 1;
    }
    proof {
        assert(sv.take(n as int) =~= sv);
        assert(str_views(lines@) =~= rendered_report(es0, root@));
    }
    lines
}

} // verus!
