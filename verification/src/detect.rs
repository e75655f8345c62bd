//! The cycle detector: a depth-first traversal over the graph with a
//! global memo, classifying every visited node as cyclic (with the cycle
//! path through it) or acyclic, exactly once.

use vstd::prelude::*;
use crate::package::{PackageId, PkgView, pids_view};
use crate::graph::{Graph, GraphView, gr_has_key, gr_keys, gr_lookup, lemma_gr_keys};

verus! {

/// The classification of one resolved node.
pub enum Resolution {
    /// No cycle was discovered through the node.
    Acyclic,
    /// The node lies on a cycle: the recorded path starts at the node,
    /// follows dependency edges, and closes back on the node itself.
    Cyclic(Vec<PackageId>),
}

/// The mathematical value of a [`Resolution`].
pub enum ResolutionView {
    Acyclic,
    Cyclic(Seq<PkgView>),
}

impl View for Resolution {
    type V = ResolutionView;

    open spec fn view(&self) -> ResolutionView {
        match self {
            Resolution::Acyclic => ResolutionView::Acyclic,
            Resolution::Cyclic(p) => ResolutionView::Cyclic(pids_view(p@)),
        }
    }
}

/// The mathematical value of a [`ResolutionTable`]: entries in the order
/// the traversal wrote them.
pub type TableView = Seq<(PkgView, ResolutionView)>;

/// Whether some entry of `t` carries the key `k`.
pub open spec fn tbl_has_key(t: TableView, k: PkgView) -> bool {
    exists|i: int| 0 <= i < t.len() && t[i].0 == k
}

/// The first position whose entry carries the key `k`.
pub open spec fn tbl_index_of(t: TableView, k: PkgView) -> int
    decreases t.len(),
{
    if t.len() == 0 {
        0
    } else if t[0].0 == k {
        0
    } else {
        1 + tbl_index_of(t.drop_first(), k)
    }
}

/// The resolution stored under the key `k`.
pub open spec fn tbl_lookup(t: TableView, k: PkgView) -> ResolutionView {
    t[tbl_index_of(t, k)].1
}

/// No two entries share a key.
pub open spec fn tbl_wf(t: TableView) -> bool {
    forall|i: int, j: int| 0 <= i < j < t.len() ==> t[i].0 != t[j].0
}

/// `tbl_index_of` finds the first entry with the key.
pub proof fn lemma_tbl_first(t: TableView, k: PkgView, i: int)
    requires
        0 <= i < t.len(),
        t[i].0 == k,
        forall|m: int| 0 <= m < i ==> t[m].0 != k,
    ensures
        tbl_has_key(t, k),
        tbl_index_of(t, k) == i,
    decreases i,
{
    if i == 0 {
    } else {
        assert(t[0].0 != k);
        lemma_tbl_first(t.drop_first(), k, i - 1);
    }
}

/// The resolution table: a memo from package identity to its
/// classification, populated at most once per node and never overwritten.
pub struct ResolutionTable {
    pub entries: Vec<(PackageId, Resolution)>,
}

impl View for ResolutionTable {
    type V = TableView;

    open spec fn view(&self) -> TableView {
        self.entries@.map_values(|e: (PackageId, Resolution)| (e.0@, e.1@))
    }
}

impl ResolutionTable {
    /// An empty table.
    pub fn new() -> (t: ResolutionTable)
        ensures
            t@ =~= Seq::<(PkgView, ResolutionView)>::empty(),
    {
        ResolutionTable { entries: Vec::new() }
    }

    /// The number of resolved nodes.
    pub fn len(&self) -> (n: usize)
        ensures
            n == self@.len(),
    {
        self.entries.len()
    }

    /// Whether `k` has been resolved already.
    pub fn contains(&self, k: &PackageId) -> (r: bool)
        ensures
            r == tbl_has_key(self@, k@),
    {
        let n = self.entries.len();
        let mut i: usize = 0;
        while i < n
            invariant
                i <= n,
                n == self@.len(),
                n == self.entries@.len(),
                forall|m: int| 0 <= m < i ==> self@[m].0 != k@,
            decreases n - i,
        {
            if self.entries[i].0.same(k) {
                proof {
                    assert(self@[i as int].0 == k@);
                }
                return true;
            }
            i = i + 1;
        }
        false
    }

    /// The resolution recorded for `k`, if any.
    pub fn get(&self, k: &PackageId) -> (r: Option<&Resolution>)
        ensures
            match r {
                Some(res) => tbl_has_key(self@, k@) && res@ == tbl_lookup(self@, k@),
                None => !tbl_has_key(self@, k@),
            },
    {
        let n = self.entries.len();
        let mut i: usize = 0;
        while i < n
            invariant
                i <= n,
                n == self@.len(),
                n == self.entries@.len(),
                forall|m: int| 0 <= m < i ==> self@[m].0 != k@,
            decreases n - i,
        {
            if self.entries[i].0.same(k) {
                proof {
                    assert(self@[i as int].0 == k@);
                    lemma_tbl_first(self@, k@, i as int);
                }
                return Some(&self.entries[i].1);
            }
            i = i + 1;
        }
        None
    }

    /// Appends an entry.
    fn push_entry(&mut self, k: PackageId, r: Resolution)
        ensures
            final(self)@ == old(self)@.push((k@, r@)),
    {
        let ghost t0 = self@;
        let ghost e = (k@, r@);
        self.entries.push((k, r));
        proof {
            assert(self@ =~= t0.push(e));
        }
    }
}

// ---------------------------------------------------------------------------
// The traversal, as a mathematical function
// ---------------------------------------------------------------------------

/// The first position of `k` in the active path.
pub open spec fn first_pos(path: Seq<PkgView>, k: PkgView) -> int
    decreases path.len(),
{
    if path.len() == 0 {
        0
    } else if path[0] == k {
        0
    } else {
        1 + first_pos(path.drop_first(), k)
    }
}

/// `first_pos` finds the first occurrence.
pub proof fn lemma_first_pos_at(path: Seq<PkgView>, k: PkgView, i: int)
    requires
        0 <= i < path.len(),
        path[i] == k,
        forall|m: int| 0 <= m < i ==> path[m] != k,
    ensures
        path.contains(k),
        first_pos(path, k) == i,
    decreases i,
{
    if i == 0 {
    } else {
        assert(path[0] != k);
        lemma_first_pos_at(path.drop_first(), k, i - 1);
    }
}

/// Properties of `first_pos` on a contained key.
pub proof fn lemma_first_pos(path: Seq<PkgView>, k: PkgView)
    requires
        path.contains(k),
    ensures
        0 <= first_pos(path, k) < path.len(),
        path[first_pos(path, k)] == k,
        forall|m: int| 0 <= m < first_pos(path, k) ==> path[m] != k,
    decreases path.len(),
{
    if path.len() == 0 {
    } else if path[0] == k {
    } else {
        let w = choose|i: int| 0 <= i < path.len() && path[i] == k;
        assert(path.drop_first()[w - 1] == k);
        lemma_first_pos(path.drop_first(), k);
        assert forall|m: int| 0 <= m < first_pos(path, k) implies path[m] != k by {
            if m > 0 {
                assert(path.drop_first()[m - 1] == path[m]);
            }
        }
    }
}

/// Pushing a node absent from the path onto it shrinks the set of graph
/// keys still off the path.
pub proof fn lemma_measure_dec(g: GraphView, path: Seq<PkgView>, cur: PkgView)
    requires
        gr_has_key(g, cur),
        !path.contains(cur),
    ensures
        (gr_keys(g) - path.push(cur).to_set()).len() < (gr_keys(g) - path.to_set()).len(),
{
    broadcast use vstd::seq_lib::seq_to_set_is_finite;

    lemma_gr_keys(g, cur);
    let ks = gr_keys(g);
    let a = ks - path.to_set();
    let b = ks - path.push(cur).to_set();
    assert forall|x: PkgView| path.push(cur).contains(x) implies path.contains(x) || x == cur by {
        let i = choose|i: int| 0 <= i < path.push(cur).len() && path.push(cur)[i] == x;
        if i < path.len() {
            assert(path[i] == x);
        }
    }
    assert forall|x: PkgView| path.contains(x) implies path.push(cur).contains(x) by {
        let i = choose|i: int| 0 <= i < path.len() && path[i] == x;
        assert(path.push(cur)[i] == x);
    }
    assert(path.push(cur)[path.len() as int] == cur);
    assert forall|x: PkgView| b.contains(x) == a.remove(cur).contains(x) by {
        assert(b.contains(x) == (ks.contains(x) && !path.push(cur).contains(x)));
        assert(a.remove(cur).contains(x) == (ks.contains(x) && !path.contains(x) && x != cur));
    }
    assert(b =~= a.remove(cur));
    assert(a.contains(cur));
    vstd::set::axiom_set_remove_len(a, cur);
}

/// What the traversal of one dependency list does to the memo, processing
/// targets in declared order: a target already resolved is skipped; a
/// target on the active path closes a cycle, recorded from its first
/// occurrence on the path back to itself; any other target is explored
/// depth-first (when it is a node of the graph at all) and then recorded
/// as acyclic unless the exploration already resolved it.
pub open spec fn process_deps(
    g: GraphView,
    deps: Seq<PkgView>,
    path: Seq<PkgView>,
    found: TableView,
) -> TableView
    decreases (gr_keys(g) - path.to_set()).len(), deps.len() via process_deps_dec
{
    if deps.len() == 0 {
        found
    } else {
        let cur = deps[0];
        let found1 = if tbl_has_key(found, cur) {
            found
        } else if path.contains(cur) {
            found.push(
                (cur, ResolutionView::Cyclic(path.skip(first_pos(path, cur)).push(cur))),
            )
        } else {
            let found2 = if gr_has_key(g, cur) {
                process_deps(g, gr_lookup(g, cur), path.push(cur), found)
            } else {
                found
            };
            if tbl_has_key(found2, cur) {
                found2
            } else {
                found2.push((cur, ResolutionView::Acyclic))
            }
        };
        process_deps(g, deps.drop_first(), path, found1)
    }
}

#[via_fn]
proof fn process_deps_dec(g: GraphView, deps: Seq<PkgView>, path: Seq<PkgView>, found: TableView) {
    if deps.len() > 0 {
        let cur = deps[0];
        if !tbl_has_key(found, cur) && !path.contains(cur) && gr_has_key(g, cur) {
            lemma_measure_dec(g, path, cur);
        }
    }
}

/// The memo after running the traversal from each node of `g` from
/// position `i` on, as an independent root.
pub open spec fn detect_from(g: GraphView, i: int, found: TableView) -> TableView
    decreases g.len() - i,
{
    if i < 0 || i >= g.len() {
        found
    } else {
        detect_from(g, i + 1, process_deps(g, g[i].1, seq![g[i].0], found))
    }
}

/// The resolution table of a graph: every node of the graph is taken as a
/// traversal root, in insertion order, over one shared memo.
pub open spec fn detect_spec(g: GraphView) -> TableView {
    detect_from(g, 0, Seq::empty())
}

// ---------------------------------------------------------------------------
// The traversal, executable
// ---------------------------------------------------------------------------

/// The first position of `k` on the path, if `k` is on it.
fn position_in(path: &Vec<PackageId>, k: &PackageId) -> (r: Option<usize>)
    ensures
        match r {
            Some(p) => pids_view(path@).contains(k@) && first_pos(pids_view(path@), k@) == p && p
                < path@.len(),
            None => !pids_view(path@).contains(k@),
        },
{
    let n = path.len();
    let mut i: usize = 0;
    while i < n
        invariant
            i <= n,
            n == path@.len(),
            forall|m: int| 0 <= m < i ==> pids_view(path@)[m] != k@,
        decreases n - i,
    {
        if path[i].same(k) {
            proof {
                lemma_first_pos_at(pids_view(path@), k@, i as int);
            }
            return Some(i);
        }
        i = i + 1;
    }
    proof {
        if pids_view(path@).contains(k@) {
            let w = choose|m: int|
                0 <= m < pids_view(path@).len() && pids_view(path@)[m] == k@;
            assert(false);
        }
    }
    None
}

/// Processes one dependency list against the shared memo, with the active
/// depth-first path threaded through: the executable form of
/// [`process_deps`]. The path is restored before returning.
pub fn check_packages(
    graph: &Graph,
    deps: &Vec<PackageId>,
    cur_path: &mut Vec<PackageId>,
    found: &mut ResolutionTable,
)
    ensures
        pids_view(final(cur_path)@) == pids_view(old(cur_path)@),
        final(found)@ == process_deps(
            graph@,
            pids_view(deps@),
            pids_view(old(cur_path)@),
            old(found)@,
        ),
    decreases (gr_keys(graph@) - pids_view(old(cur_path)@).to_set()).len(),
{
    let ghost g = graph@;
    let ghost path0 = pids_view(cur_path@);
    let ghost found0 = found@;
    let ghost dv = pids_view(deps@);
    proof {
        assert(dv.skip(0) =~= dv);
    }
    let n = deps.len();
    let mut j: usize = 0;
    while j < n
        invariant
            j <= n,
            n == deps@.len(),
            g == graph@,
            dv == pids_view(deps@),
            path0 == pids_view(old(cur_path)@),
            found0 == old(found)@,
            pids_view(cur_path@) == path0,
            process_deps(g, dv.skip(j as int), path0, found@) == process_deps(
                g,
                dv,
                path0,
                found0,
            ),
        decreases n - j,
    {
        let ghost foundj = found@;
        let cur = &deps[j];
        proof {
            assert(dv.skip(j as int)[0] == dv[j as int]);
            assert(dv[j as int] == cur@);
            assert(dv.skip(j as int).drop_first() =~= dv.skip(j + 1));
        }
        if found.contains(cur) {
        } else {
            match position_in(cur_path, cur) {
                Some(p) => {
                    let mut record: Vec<PackageId> = Vec::new();
                    let mut m: usize = p;
                    proof {
                        assert(pids_view(record@) =~= path0.subrange(p as int, p as int));
                    }
                    while m < cur_path.len()
                        invariant
                            p <= m <= cur_path@.len(),
                            pids_view(cur_path@) == path0,
                            pids_view(record@) =~= path0.subrange(p as int, m as int),
                        decreases cur_path@.len() - m,
                    {
                        let ghost rv0 = pids_view(record@);
                        let e = cur_path[m].duplicate();
                        record.push(e);
                        proof {
                            assert(pids_view(record@) =~= rv0.push(path0[m as int]));
                            assert(pids_view(record@) =~= path0.subrange(p as int, m + 1));
                        }
                        m = m + 1;
                    }
                    let ghost rv1 = pids_view(record@);
                    record.push(cur.duplicate());
                    proof {
                        assert(pids_view(record@) =~= rv1.push(cur@));
                        assert(path0.subrange(p as int, path0.len() as int) =~= path0.skip(
                            p as int,
                        ));
                        assert(pids_view(record@) =~= path0.skip(p as int).push(cur@));
                    }
                    found.push_entry(cur.duplicate(), Resolution::Cyclic(record));
                },
                None => {
                    cur_path.push(cur.duplicate());
                    proof {
                        assert(pids_view(cur_path@) =~= path0.push(cur@));
                    }
                    match graph.get_deps(cur) {
                        Some(inner) => {
                            proof {
                                lemma_measure_dec(g, path0, cur@);
                            }
                            check_packages(graph, inner, cur_path, found);
                        },
                        None => {},
                    }
                    proof {
                        assert(pids_view(cur_path@) == path0.push(cur@));
                        assert(cur_path@.len() == path0.len() + 1);
                    }
                    let ghost pre = cur_path@;
                    cur_path.pop();
                    proof {
                        assert(cur_path@ == pre.subrange(0, pre.len() - 1));
                        assert forall|ii: int| 0 <= ii < path0.len() implies pids_view(
                            cur_path@,
                        )[ii] == path0[ii] by {
                            assert(cur_path@[ii] == pre[ii]);
                            assert(pids_view(pre)[ii] == pre[ii]@);
                        }
                        assert(pids_view(cur_path@) =~= path0);
                    }
                    if !found.contains(cur) {
                        found.push_entry(cur.duplicate(), Resolution::Acyclic);
                    }
                },
            }
        }
        proof {
            assert(process_deps(g, dv.skip(j + 1), path0, found@) == process_deps(
                g,
                dv,
                path0,
                found0,
            ));
        }
        j = j + 1;
    }
    proof {
        assert(dv.skip(n as int) =~= Seq::<PkgView>::empty());
    }
}

/// Runs the detector over the whole graph: every node is a traversal
/// root, in insertion order, and the returned table is exactly
/// [`detect_spec`] of the graph.
pub fn detect(graph: &Graph) -> (t: ResolutionTable)
    ensures
        t@ == detect_spec(graph@),
{
    let mut t = ResolutionTable::new();
    let n = graph.len();
    let mut i: usize = 0;
    while i < n
        invariant
            i <= n,
            n == graph@.len(),
            n == graph.entries@.len(),
            detect_from(graph@, i as int, t@) == detect_spec(graph@),
        decreases n - i,
    {
        let root = &graph.entries[i];
        let mut path: Vec<PackageId> = Vec::new();
        path.push(root.0.duplicate());
        let ghost t0 = t@;
        proof {
            assert(pids_view(path@) =~= seq![graph@[i as int].0]);
            assert(pids_view(root.1@) == graph@[i as int].1);
        }
        check_packages(graph, &root.1, &mut path, &mut t);
        proof {
            assert(detect_from(graph@, i + 1, t@) == detect_spec(graph@));
        }
        i = i + 1;
    }
    t
}

} // verus!
