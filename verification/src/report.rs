//! The reporter: extracts the cyclic entries of a resolution table, sorts
//! them by package identity, and renders one line per cyclic package, in
//! plain text or as a markdown checklist.

use vstd::prelude::*;
use vstd::string::{StrSliceExecFns, StringExecFns};
use crate::package::{PackageId, PkgView, pids_view};
use crate::order::{pid_le, lemma_pid_le_total, lemma_pid_le_trans};
use crate::detect::{Resolution, ResolutionView, ResolutionTable, TableView};

verus! {

/// The table views of executable entry pairs.
pub open spec fn entries_view(s: Seq<(PackageId, Resolution)>) -> TableView {
    s.map_values(|e: (PackageId, Resolution)| (e.0@, e.1@))
}

// ---------------------------------------------------------------------------
// Selecting the cyclic entries
// ---------------------------------------------------------------------------

/// The entries marked cyclic, in table order.
pub open spec fn cyclic_entries(t: TableView) -> TableView
    decreases t.len(),
{
    if t.len() == 0 {
        Seq::empty()
    } else {
        (if t[0].1 is Cyclic {
            seq![t[0]]
        } else {
            Seq::empty()
        }) + cyclic_entries(t.drop_first())
    }
}

/// Every selected entry is cyclic and comes from the table.
pub proof fn lemma_cyclic_entries(t: TableView)
    ensures
        forall|k: int|
            0 <= k < cyclic_entries(t).len() ==> (#[trigger] cyclic_entries(t)[k]).1 is Cyclic
                && t.contains(cyclic_entries(t)[k]),
    decreases t.len(),
{
    if t.len() > 0 {
        lemma_cyclic_entries(t.drop_first());
        let c = cyclic_entries(t);
        let rest = cyclic_entries(t.drop_first());
        assert forall|k: int| 0 <= k < c.len() implies (#[trigger] c[k]).1 is Cyclic
            && t.contains(c[k]) by {
            let head: TableView = if t[0].1 is Cyclic {
                seq![t[0]]
            } else {
                Seq::empty()
            };
            if k < head.len() {
                assert(c[k] == t[0]);
                assert(t[0] == t[0]);
            } else {
                assert(c[k] == rest[k - head.len()]);
                let e = rest[k - head.len()];
                assert(t.drop_first().contains(e));
                let w = choose|i: int|
                    0 <= i < t.drop_first().len() && t.drop_first()[i] == e;
                assert(t[w + 1] == e);
            }
        }
    }
}

/// Duplicates a resolution value.
fn duplicate_resolution(r: &Resolution) -> (d: Resolution)
    ensures
        d@ == r@,
{
    match r {
        Resolution::Acyclic => Resolution::Acyclic,
        Resolution::Cyclic(p) => {
            let mut v: Vec<PackageId> = Vec::new();
            let mut i: usize = 0;
            while i < p.len()
                invariant
                    i <= p@.len(),
                    pids_view(v@) =~= pids_view(p@).take(i as int),
                decreases p@.len() - i,
            {
                let ghost v0 = pids_view(v@);
                v.push(p[i].duplicate());
                proof {
                    assert(pids_view(v@) =~= v0.push(pids_view(p@)[i as int]));
                }
                i = i + 1;
            }
            proof {
                assert(pids_view(p@).take(p@.len() as int) =~= pids_view(p@));
            }
            Resolution::Cyclic(v)
        },
    }
}

/// Copies the cyclic entries out of the table, in table order.
fn cyclic_of(t: &ResolutionTable) -> (r: Vec<(PackageId, Resolution)>)
    ensures
        entries_view(r@) == cyclic_entries(t@),
{
    let mut r: Vec<(PackageId, Resolution)> = Vec::new();
    proof {
        assert(t@.skip(0) =~= t@);
        assert(entries_view(r@) + cyclic_entries(t@) =~= cyclic_entries(t@));
    }
    let n = t.entries.len();
    let mut i: usize = 0;
    while i < n
        invariant
            i <= n,
            n == t@.len(),
            n == t.entries@.len(),
            entries_view(r@) + cyclic_entries(t@.skip(i as int)) =~= cyclic_entries(t@),
        decreases n - i,
    {
        let ghost r0 = entries_view(r@);
        let e = &t.entries[i];
        proof {
            assert(t@.skip(i as int)[0] == t@[i as int]);
            assert(t@[i as int] == (e.0@, e.1@));
            assert(t@.skip(i as int).drop_first() =~= t@.skip(i + 1));
        }
        match &e.1 {
            Resolution::Cyclic(_) => {
                let d = (e.0.duplicate(), duplicate_resolution(&e.1));
                r.push(d);
                proof {
                    assert(entries_view(r@) =~= r0.push(t@[i as int]));
                }
            },
            Resolution::Acyclic => {},
        }
        proof {
            assert(entries_view(r@) + cyclic_entries(t@.skip(i + 1)) =~= cyclic_entries(t@));
        }
        i = i + 1;
    }
    proof {
        assert(cyclic_entries(t@.skip(n as int)) =~= Seq::<(PkgView, ResolutionView)>::empty());
        assert(entries_view(r@) =~= cyclic_entries(t@));
    }
    r
}

// ---------------------------------------------------------------------------
// Sorting by package identity
// ---------------------------------------------------------------------------

/// Inserts an entry into a sorted run, before the first key not smaller
/// than its own.
pub open spec fn insert_sorted(x: (PkgView, ResolutionView), s: TableView) -> TableView
    decreases s.len(),
{
    if s.len() == 0 {
        seq![x]
    } else if pid_le(x.0, s[0].0) {
        seq![x] + s
    } else {
        seq![s[0]] + insert_sorted(x, s.drop_first())
    }
}

/// Insertion sort on entries, ordering by package id.
pub open spec fn sort_entries_spec(s: TableView) -> TableView
    decreases s.len(),
{
    if s.len() == 0 {
        Seq::empty()
    } else {
        insert_sorted(s[0], sort_entries_spec(s.drop_first()))
    }
}

/// Keys appear in `pid_le` order.
pub open spec fn entries_sorted(s: TableView) -> bool {
    forall|i: int, j: int| 0 <= i < j < s.len() ==> pid_le(s[i].0, s[j].0)
}

/// Inserting into a sorted run keeps it sorted; the result holds exactly
/// the inserted entry and the run's own.
pub proof fn lemma_insert_sorted(x: (PkgView, ResolutionView), s: TableView)
    requires
        entries_sorted(s),
    ensures
        entries_sorted(insert_sorted(x, s)),
        insert_sorted(x, s).len() == s.len() + 1,
        forall|k: int|
            0 <= k < insert_sorted(x, s).len() ==> insert_sorted(x, s)[k] == x || s.contains(
                #[trigger] insert_sorted(x, s)[k],
            ),
        insert_sorted(x, s).to_multiset() == s.to_multiset().insert(x),
    decreases s.len(),
{
    broadcast use vstd::seq_lib::group_to_multiset_ensures;

    let r = insert_sorted(x, s);
    if s.len() == 0 {
        assert(r =~= Seq::empty().push(x));
    } else if pid_le(x.0, s[0].0) {
        assert forall|i: int, j: int| 0 <= i < j < r.len() implies pid_le(r[i].0, r[j].0) by {
            if i == 0 {
                if j > 0 {
                    assert(r[j] == s[j - 1]);
                    if j - 1 > 0 {
                        lemma_pid_le_trans(x.0, s[0].0, s[j - 1].0);
                    }
                }
            } else {
                assert(r[i] == s[i - 1]);
                assert(r[j] == s[j - 1]);
            }
        }
        assert forall|k: int| 0 <= k < r.len() implies r[k] == x || s.contains(#[trigger] r[k])
            by {
            if k > 0 {
                assert(r[k] == s[k - 1]);
            }
        }
        assert(r =~= s.insert(0, x));
    } else {
        let rest = insert_sorted(x, s.drop_first());
        assert forall|i: int, j: int| 0 <= i < j < s.drop_first().len() implies pid_le(
            s.drop_first()[i].0,
            s.drop_first()[j].0,
        ) by {
            assert(s.drop_first()[i] == s[i + 1]);
            assert(s.drop_first()[j] == s[j + 1]);
        }
        lemma_insert_sorted(x, s.drop_first());
        lemma_pid_le_total(x.0, s[0].0);
        assert forall|i: int, j: int| 0 <= i < j < r.len() implies pid_le(r[i].0, r[j].0) by {
            if i == 0 {
                assert(r[j] == rest[j - 1]);
                if rest[j - 1] == x {
                    assert(pid_le(s[0].0, x.0));
                } else {
                    assert(s.drop_first().contains(rest[j - 1]));
                    let w = choose|m: int|
                        0 <= m < s.drop_first().len() && s.drop_first()[m] == rest[j - 1];
                    assert(s[w + 1] == rest[j - 1]);
                    assert(pid_le(s[0].0, s[w + 1].0));
                }
            } else {
                assert(r[i] == rest[i - 1]);
                assert(r[j] == rest[j - 1]);
            }
        }
        assert forall|k: int| 0 <= k < r.len() implies r[k] == x || s.contains(#[trigger] r[k])
            by {
            if k == 0 {
                assert(s[0] == r[0]);
                assert(s.contains(s[0]));
            } else {
                assert(r[k] == rest[k - 1]);
                if rest[k - 1] != x {
                    let w = choose|m: int|
                        0 <= m < s.drop_first().len() && s.drop_first()[m] == rest[k - 1];
                    assert(s[w + 1] == rest[k - 1]);
                }
            }
        }
        assert(s =~= s.drop_first().insert(0, s[0]));
        assert(s.to_multiset() == s.drop_first().to_multiset().insert(s[0]));
        assert(r =~= rest.insert(0, s[0]));
        assert(r.to_multiset() == rest.to_multiset().insert(s[0]));
        assert(s.to_multiset().insert(x) =~= r.to_multiset());
    }
}

/// The sort is a permutation and its result is sorted.
pub proof fn lemma_sort_entries(s: TableView)
    ensures
        entries_sorted(sort_entries_spec(s)),
        sort_entries_spec(s).to_multiset() == s.to_multiset(),
        sort_entries_spec(s).len() == s.len(),
        forall|k: int|
            0 <= k < sort_entries_spec(s).len() ==> s.contains(
                #[trigger] sort_entries_spec(s)[k],
            ),
    decreases s.len(),
{
    broadcast use vstd::seq_lib::group_to_multiset_ensures;

    if s.len() > 0 {
        lemma_sort_entries(s.drop_first());
        let rest = sort_entries_spec(s.drop_first());
        lemma_insert_sorted(s[0], rest);
        assert(s =~= s.drop_first().insert(0, s[0]));
        assert(s.to_multiset() == s.drop_first().to_multiset().insert(s[0]));
        let r = sort_entries_spec(s);
        assert forall|k: int| 0 <= k < r.len() implies s.contains(#[trigger] r[k]) by {
            if r[k] == s[0] {
                assert(s[0] == s[0]);
            } else {
                assert(r[k] == s[0] || rest.contains(r[k]));
                let w = choose|m: int| 0 <= m < rest.len() && rest[m] == r[k];
                assert(s.drop_first().contains(rest[w]));
                let w2 = choose|m: int|
                    0 <= m < s.drop_first().len() && s.drop_first()[m] == r[k];
                assert(s[w2 + 1] == r[k]);
            }
        }
    }
}

/// Inserts one entry into a run sorted by package id.
fn insert_entry(x: (PackageId, Resolution), v: Vec<(PackageId, Resolution)>) -> (r: Vec<
    (PackageId, Resolution),
>)
    ensures
        entries_view(r@) == insert_sorted((x.0@, x.1@), entries_view(v@)),
    decreases v@.len(),
{
    let ghost xv = (x.0@, x.1@);
    let ghost sv = entries_view(v@);
    if v.len() == 0 {
        let mut v = v;
        v.push(x);
        proof {
            assert(entries_view(v@) =~= seq![xv]);
        }
        v
    } else if x.0.before_or_same(&v[0].0) {
        let mut v = v;
        v.insert(0, x);
        proof {
            assert(entries_view(v@) =~= seq![xv] + sv);
        }
        v
    } else {
        let mut v = v;
        let h = v.remove(0);
        proof {
            assert(entries_view(v@) =~= sv.drop_first());
        }
        let r = insert_entry(x, v);
        let mut r = r;
        r.insert(0, h);
        proof {
            assert(entries_view(r@) =~= seq![sv[0]] + insert_sorted(xv, sv.drop_first()));
        }
        r
    }
}

/// Sorts the entries by package id: name first, then version.
fn sort_entries(v: Vec<(PackageId, Resolution)>) -> (r: Vec<(PackageId, Resolution)>)
    ensures
        entries_view(r@) == sort_entries_spec(entries_view(v@)),
    decreases v@.len(),
{
    let ghost sv = entries_view(v@);
    if v.len() == 0 {
        proof {
            assert(entries_view(v@) =~= Seq::<(PkgView, ResolutionView)>::empty());
        }
        v
    } else {
        let mut v = v;
        let h = v.remove(0);
        proof {
            assert(entries_view(v@) =~= sv.drop_first());
            assert((h.0@, h.1@) == sv[0]);
        }
        let rest = sort_entries(v);
        insert_entry(h, rest)
    }
}

// ---------------------------------------------------------------------------
// Rendering
// ---------------------------------------------------------------------------

/// One chain element: `name(version)`.
pub open spec fn item_str(p: PkgView) -> Seq<char> {
    p.name + "("@ + p.version + ")"@
}

/// A cycle record rendered as chain elements joined by arrows.
pub open spec fn chain_str(c: Seq<PkgView>) -> Seq<char>
    decreases c.len(),
{
    if c.len() == 0 {
        Seq::empty()
    } else if c.len() == 1 {
        item_str(c[0])
    } else {
        item_str(c[0]) + " -> "@ + chain_str(c.drop_first())
    }
}

/// A plain-text report line.
pub open spec fn plain_line(k: PkgView, rec: Seq<PkgView>) -> Seq<char> {
    k.name + " ("@ + k.version + "): Cycle through "@ + chain_str(rec)
}

/// A markdown-checklist report line: same content, with the identity
/// quoted.
pub open spec fn md_line(k: PkgView, rec: Seq<PkgView>) -> Seq<char> {
    "- [ ] `"@ + k.name + "` (`"@ + k.version + "`): Cycle through "@ + chain_str(rec)
}

/// The line of one cyclic entry, in the chosen mode.
pub open spec fn line_str(markdown: bool, k: PkgView, rec: Seq<PkgView>) -> Seq<char> {
    if markdown {
        md_line(k, rec)
    } else {
        plain_line(k, rec)
    }
}

/// The cycle record of a resolution (empty for an acyclic one).
pub open spec fn rec_of(r: ResolutionView) -> Seq<PkgView> {
    match r {
        ResolutionView::Cyclic(c) => c,
        ResolutionView::Acyclic => Seq::empty(),
    }
}

/// The lines of a run of entries, in order.
pub open spec fn lines_of(s: TableView, markdown: bool) -> Seq<Seq<char>>
    decreases s.len(),
{
    if s.len() == 0 {
        Seq::empty()
    } else {
        seq![line_str(markdown, s[0].0, rec_of(s[0].1))] + lines_of(s.drop_first(), markdown)
    }
}

pub proof fn lemma_lines_of_len(s: TableView, markdown: bool)
    ensures
        lines_of(s, markdown).len() == s.len(),
    decreases s.len(),
{
    if s.len() > 0 {
        lemma_lines_of_len(s.drop_first(), markdown);
    }
}

/// The cyclic entries of a table, sorted by package id.
pub open spec fn report_entries(t: TableView) -> TableView {
    sort_entries_spec(cyclic_entries(t))
}

/// The rendered report of a table: one line per cyclic entry, sorted.
pub open spec fn report_lines(t: TableView, markdown: bool) -> Seq<Seq<char>> {
    lines_of(report_entries(t), markdown)
}

/// Renders `name(version)`.
fn item_string(p: &PackageId) -> (r: String)
    ensures
        r@ == item_str(p@),
{
    let mut s = String::new();
    s.append(p.name.as_str());
    s.append("(");
    s.append(p.version.as_str());
    s.append(")");
    proof {
        assert(s@ =~= item_str(p@));
    }
    s
}

/// Renders the chain of `rec` from position `i` on.
fn chain_string_from(rec: &Vec<PackageId>, i: usize) -> (r: String)
    requires
        i <= rec@.len(),
    ensures
        r@ == chain_str(pids_view(rec@).skip(i as int)),
    decreases rec@.len() - i,
{
    let ghost c = pids_view(rec@).skip(i as int);
    if i == rec.len() {
        let r = String::new();
        proof {
            assert(c =~= Seq::<PkgView>::empty());
        }
        r
    } else {
        let mut s = item_string(&rec[i]);
        proof {
            assert(c[0] == pids_view(rec@)[i as int]);
        }
        if i + 1 < rec.len() {
            s.append(" -> ");
            let rest = chain_string_from(rec, i + 1);
            s.append(rest.as_str());
            proof {
                assert(c.drop_first() =~= pids_view(rec@).skip(i + 1));
                assert(s@ =~= chain_str(c));
            }
        } else {
            proof {
                assert(c.len() == 1);
                assert(s@ =~= chain_str(c));
            }
        }
        s
    }
}

/// Renders the line of one cyclic entry.
fn render_line(k: &PackageId, rec: &Vec<PackageId>, markdown: bool) -> (r: String)
    ensures
        r@ == line_str(markdown, k@, pids_view(rec@)),
{
    let chain = chain_string_from(rec, 0);
    proof {
        assert(pids_view(rec@).skip(0) =~= pids_view(rec@));
    }
    let mut s = String::new();
    if markdown {
        s.append("- [ ] `");
        s.append(k.name.as_str());
        s.append("` (`");
        s.append(k.version.as_str());
        s.append("`): Cycle through ");
        s.append(chain.as_str());
        proof {
            assert(s@ =~= md_line(k@, pids_view(rec@)));
        }
    } else {
        s.append(k.name.as_str());
        s.append(" (");
        s.append(k.version.as_str());
        s.append("): Cycle through ");
        s.append(chain.as_str());
        proof {
            assert(s@ =~= plain_line(k@, pids_view(rec@)));
        }
    }
    s
}

/// Renders the report of a table: one line per cyclic package, sorted by
/// name and version, in plain or markdown mode. The report is empty
/// exactly when the table holds no cyclic entry.
pub fn render_report(table: &ResolutionTable, markdown: bool) -> (lines: Vec<String>)
    ensures
        lines@.map_values(|s: String| s@) == report_lines(table@, markdown),
        lines@.len() == report_entries(table@).len(),
{
    let cyc = cyclic_of(table);
    let sorted = sort_entries(cyc);
    let ghost se = report_entries(table@);
    proof {
        lemma_cyclic_entries(table@);
        lemma_sort_entries(cyclic_entries(table@));
        lemma_lines_of_len(se, markdown);
        assert(entries_view(sorted@) == se);
    }
    let n = sorted.len();
    let mut lines: Vec<String> = Vec::new();
    proof {
        assert(se.skip(0) =~= se);
        assert(lines@.map_values(|s: String| s@) + lines_of(se, markdown) =~= lines_of(
            se,
            markdown,
        ));
    }
    let mut i: usize = 0;
    while i < n
        invariant
            i <= n,
            n == sorted@.len(),
            se == report_entries(table@),
            entries_view(sorted@) == se,
            forall|k: int| 0 <= k < se.len() ==> (#[trigger] se[k]).1 is Cyclic,
            lines@.map_values(|s: String| s@) + lines_of(se.skip(i as int), markdown)
                =~= lines_of(se, markdown),
        decreases n - i,
    {
        let ghost l0 = lines@.map_values(|s: String| s@);
        let e = &sorted[i];
        proof {
            assert(se[i as int] == (e.0@, e.1@));
            assert(se.skip(i as int)[0] == se[i as int]);
            assert(se.skip(i as int).drop_first() =~= se.skip(i + 1));
        }
        let line = match &e.1 {
            Resolution::Cyclic(rec) => render_line(&e.0, rec, markdown),
            Resolution::Acyclic => {
                proof {
                    assert(se[i as int].1 is Cyclic);
                    assert(false);
                }
                vstd::pervasive::unreached()
            },
        };
        lines.push(line);
        proof {
            assert(lines@.map_values(|s: String| s@) =~= l0.push(
                line_str(markdown, se[i as int].0, rec_of(se[i as int].1)),
            ));
            assert(lines@.map_values(|s: String| s@) + lines_of(se.skip(i + 1), markdown)
                =~= lines_of(se, markdown));
        }
        i = i + 1;
    }
    proof {
        assert(lines_of(se.skip(n as int), markdown) =~= Seq::<Seq<char>>::empty());
        assert(lines@.map_values(|s: String| s@) =~= lines_of(se, markdown));
    }
    lines
}

// ---------------------------------------------------------------------------
// The failure message
// ---------------------------------------------------------------------------

/// The decimal digit character of `d`.
pub open spec fn dec_digit(d: int) -> char {
    if d == 0 {
        '0'
    } else if d == 1 {
        '1'
    } else if d == 2 {
        '2'
    } else if d == 3 {
        '3'
    } else if d == 4 {
        '4'
    } else if d == 5 {
        '5'
    } else if d == 6 {
        '6'
    } else if d == 7 {
        '7'
    } else if d == 8 {
        '8'
    } else {
        '9'
    }
}

/// The decimal rendering of a non-negative number.
pub open spec fn dec_str(n: int) -> Seq<char>
    decreases n,
{
    if n < 10 {
        seq![dec_digit(n)]
    } else {
        dec_str(n / 10).push(dec_digit(n % 10))
    }
}

/// One decimal digit as text.
fn digit_str(d: usize) -> (r: &'static str)
    requires
        d < 10,
    ensures
        r@ == seq![dec_digit(d as int)],
{
    proof {
        reveal_strlit("0");
        reveal_strlit("1");
        reveal_strlit("2");
        reveal_strlit("3");
        reveal_strlit("4");
        reveal_strlit("5");
        reveal_strlit("6");
        reveal_strlit("7");
        reveal_strlit("8");
        reveal_strlit("9");
    }
    match d {
        0 => "0",
        1 => "1",
        2 => "2",
        3 => "3",
        4 => "4",
        5 => "5",
        6 => "6",
        7 => "7",
        8 => "8",
        _ => "9",
    }
}

/// Renders a count in decimal.
pub fn usize_string(n: usize) -> (r: String)
    ensures
        r@ == dec_str(n as int),
    decreases n,
{
    if n < 10 {
        digit_str(n).to_owned()
    } else {
        let mut s = usize_string(n / 10);
        s.append(digit_str(n % 10));
        proof {
            assert(s@ =~= dec_str(n as int));
        }
        s
    }
}

/// The overall failure message carrying the number of cyclic packages.
pub fn failure_message(count: usize) -> (r: String)
    ensures
        r@ == dec_str(count as int) + " cyclic dependencies found"@,
{
    let mut s = usize_string(count);
    s.append(" cyclic dependencies found");
    s
}

} // verus!
