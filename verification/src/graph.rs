//! Building the dependency graph: splitting dependency specifiers into
//! tokens, deriving edges, and indexing packages by identity.

use vstd::prelude::*;
use vstd::string::StrSliceExecFns;
use crate::package::{PackageId, PackageRecord, PkgView, RecordView, pids_view};

verus! {

/// The mathematical value of a [`Graph`]: package entries in insertion
/// order, each a node identity with its ordered dependency targets.
pub type GraphView = Seq<(PkgView, Seq<PkgView>)>;

// ---------------------------------------------------------------------------
// Tokenizing dependency specifiers
// ---------------------------------------------------------------------------

/// Length of the leading run of non-space characters.
pub open spec fn token_end(s: Seq<char>) -> nat
    decreases s.len(),
{
    if s.len() == 0 || s[0] == ' ' {
        0
    } else {
        1 + token_end(s.drop_first())
    }
}

pub proof fn lemma_token_end_bounds(s: Seq<char>)
    ensures
        token_end(s) <= s.len(),
        s.len() > 0 && s[0] != ' ' ==> token_end(s) >= 1,
    decreases s.len(),
{
    if s.len() > 0 && s[0] != ' ' {
        lemma_token_end_bounds(s.drop_first());
    }
}

/// `token_end` is the position of the first space, or the length when
/// there is none.
pub proof fn lemma_token_end_at(s: Seq<char>, k: int)
    requires
        0 <= k <= s.len(),
        forall|m: int| 0 <= m < k ==> s[m] != ' ',
        k == s.len() || s[k] == ' ',
    ensures
        token_end(s) == k,
    decreases k,
{
    if k == 0 {
    } else {
        assert(s[0] != ' ');
        lemma_token_end_at(s.drop_first(), k - 1);
    }
}

/// The whitespace-separated tokens of a specifier: maximal non-empty runs
/// of non-space characters, in order.
pub open spec fn tokens_of(s: Seq<char>) -> Seq<Seq<char>>
    decreases s.len() via tokens_of_dec
{
    if s.len() == 0 {
        Seq::empty()
    } else if s[0] == ' ' {
        tokens_of(s.drop_first())
    } else {
        seq![s.take(token_end(s) as int)] + tokens_of(s.skip(token_end(s) as int))
    }
}

#[via_fn]
proof fn tokens_of_dec(s: Seq<char>) {
    if s.len() > 0 && s[0] != ' ' {
        lemma_token_end_bounds(s);
    }
}

/// The tokens of `s` from position `i` on.
fn tokens_from(s: &str, i: usize, len: usize) -> (r: Vec<String>)
    requires
        len == s@.len(),
        i <= len,
    ensures
        r@.map_values(|t: String| t@) == tokens_of(s@.skip(i as int)),
    decreases len - i,
{
    if i == len {
        let r: Vec<String> = Vec::new();
        proof {
            assert(s@.skip(i as int) =~= Seq::<char>::empty());
            assert(r@.map_values(|t: String| t@) =~= tokens_of(s@.skip(i as int)));
        }
        r
    } else if s.get_char(i) == ' ' {
        let r = tokens_from(s, i + 1, len);
        proof {
            assert(s@.skip(i as int).drop_first() =~= s@.skip(i + 1));
        }
        r
    } else {
        let ghost suf = s@.skip(i as int);
        let mut j: usize = i + 1;
        while j < len && s.get_char(j) != ' '
            invariant
                i < j <= len,
                len == s@.len(),
                forall|m: int| i <= m < j ==> s@[m] != ' ',
            decreases len - j,
        {
            j = j + 1;
        }
        proof {
            assert(forall|m: int| 0 <= m < j - i ==> suf[m] == s@[i + m]);
            assert(j < len ==> suf[j - i] == s@[j as int]);
            lemma_token_end_at(suf, j - i);
        }
        let tok = s.substring_char(i, j).to_owned();
        let rest = tokens_from(s, j, len);
        let mut r: Vec<String> = Vec::new();
        r.push(tok);
        let mut rest = rest;
        r.append(&mut rest);
        proof {
            assert(suf.take((j - i) as int) =~= s@.subrange(i as int, j as int));
            assert(suf.skip((j - i) as int) =~= s@.skip(j as int));
            assert(r@.map_values(|t: String| t@) =~= tokens_of(suf));
        }
        r
    }
}

/// Splits a specifier into its whitespace-separated tokens.
pub fn tokenize(s: &str) -> (r: Vec<String>)
    ensures
        r@.map_values(|t: String| t@) == tokens_of(s@),
{
    let len = s.unicode_len();
    let r = tokens_from(s, 0, len);
    proof {
        assert(s@.skip(0) =~= s@);
    }
    r
}

// ---------------------------------------------------------------------------
// Dependency specifiers
// ---------------------------------------------------------------------------

/// The edge a dependency specifier yields: its first two tokens as a
/// package id when it has two or three tokens (a third token names the
/// dependency's source and is discarded); any other token count yields
/// nothing.
pub open spec fn parse_dep(s: Seq<char>) -> Option<PkgView> {
    let ts = tokens_of(s);
    if ts.len() == 2 || ts.len() == 3 {
        Some(PkgView { name: ts[0], version: ts[1] })
    } else {
        None
    }
}

/// Reduces one dependency specifier to its target package id, or to
/// nothing when it is malformed.
pub fn parse_dependency(s: &str) -> (r: Option<PackageId>)
    ensures
        match r {
            Some(p) => parse_dep(s@) == Some(p@),
            None => parse_dep(s@) is None,
        },
{
    let mut ts = tokenize(s);
    if ts.len() == 2 || ts.len() == 3 {
        let name = ts.remove(0);
        let version = ts.remove(0);
        proof {
            assert(name@ == tokens_of(s@)[0]);
            assert(version@ == tokens_of(s@)[1]);
        }
        Some(PackageId { name, version })
    } else {
        None
    }
}

/// The edges derived from a record's dependency list, in declared order;
/// malformed specifiers contribute nothing.
pub open spec fn rec_edges(deps: Seq<Seq<char>>) -> Seq<PkgView>
    decreases deps.len(),
{
    if deps.len() == 0 {
        Seq::empty()
    } else {
        (match parse_dep(deps[0]) {
            Some(p) => seq![p],
            None => Seq::empty(),
        }) + rec_edges(deps.drop_first())
    }
}

/// Derives the edges of one dependency list.
pub fn parse_edges(deps: &Vec<String>) -> (r: Vec<PackageId>)
    ensures
        pids_view(r@) == rec_edges(deps@.map_values(|d: String| d@)),
{
    let ghost dv = deps@.map_values(|d: String| d@);
    let mut r: Vec<PackageId> = Vec::new();
    proof {
        assert(dv.skip(0) =~= dv);
        assert(pids_view(r@) =~= Seq::<PkgView>::empty());
        assert(pids_view(r@) + rec_edges(dv) =~= rec_edges(dv));
    }
    let mut i: usize = 0;
    while i < deps.len()
        invariant
            i <= deps.len(),
            dv == deps@.map_values(|d: String| d@),
            pids_view(r@) + rec_edges(dv.skip(i as int)) =~= rec_edges(dv),
        decreases deps.len() - i,
    {
        let ghost r0 = pids_view(r@);
        match parse_dependency(deps[i].as_str()) {
            Some(p) => {
                let ghost pv = p@;
                r.push(p);
                proof {
                    assert(pids_view(r@) =~= r0.push(pv));
                }
            },
            None => {},
        }
        proof {
            assert(dv.skip(i as int).drop_first() =~= dv.skip(i + 1));
            assert(dv.skip(i as int)[0] == dv[i as int]);
            assert(pids_view(r@) + rec_edges(dv.skip(i + 1)) =~= rec_edges(dv));
        }
        i = i + 1;
    }
    proof {
        assert(rec_edges(dv.skip(deps@.len() as int)) =~= Seq::<PkgView>::empty());
        assert(pids_view(r@) =~= rec_edges(dv));
    }
    r
}

// ---------------------------------------------------------------------------
// The graph
// ---------------------------------------------------------------------------

/// Whether some entry of `g` carries the key `k`.
pub open spec fn gr_has_key(g: GraphView, k: PkgView) -> bool {
    exists|i: int| 0 <= i < g.len() && g[i].0 == k
}

/// The first position whose entry carries the key `k`.
pub open spec fn gr_index_of(g: GraphView, k: PkgView) -> int
    decreases g.len(),
{
    if g.len() == 0 {
        0
    } else if g[0].0 == k {
        0
    } else {
        1 + gr_index_of(g.drop_first(), k)
    }
}

/// The dependency targets stored under the key `k`.
pub open spec fn gr_lookup(g: GraphView, k: PkgView) -> Seq<PkgView> {
    g[gr_index_of(g, k)].1
}

/// The set of node identities of the graph.
pub open spec fn gr_keys(g: GraphView) -> Set<PkgView> {
    g.map_values(|e: (PkgView, Seq<PkgView>)| e.0).to_set()
}

/// No two entries share a key.
pub open spec fn gr_wf(g: GraphView) -> bool {
    forall|i: int, j: int| 0 <= i < j < g.len() ==> g[i].0 != g[j].0
}

/// `gr_index_of` finds the first entry with the key.
pub proof fn lemma_gr_first(g: GraphView, k: PkgView, i: int)
    requires
        0 <= i < g.len(),
        g[i].0 == k,
        forall|m: int| 0 <= m < i ==> g[m].0 != k,
    ensures
        gr_has_key(g, k),
        gr_index_of(g, k) == i,
    decreases i,
{
    if i == 0 {
    } else {
        assert(g[0].0 != k);
        lemma_gr_first(g.drop_first(), k, i - 1);
    }
}

/// Properties of `gr_index_of` on a present key.
pub proof fn lemma_gr_index_of(g: GraphView, k: PkgView)
    requires
        gr_has_key(g, k),
    ensures
        0 <= gr_index_of(g, k) < g.len(),
        g[gr_index_of(g, k)].0 == k,
        forall|m: int| 0 <= m < gr_index_of(g, k) ==> g[m].0 != k,
    decreases g.len(),
{
    if g.len() == 0 {
    } else if g[0].0 == k {
    } else {
        let w = choose|i: int| 0 <= i < g.len() && g[i].0 == k;
        assert(g.drop_first()[w - 1].0 == k);
        lemma_gr_index_of(g.drop_first(), k);
        assert forall|m: int| 0 <= m < gr_index_of(g, k) implies g[m].0 != k by {
            if m > 0 {
                assert(g.drop_first()[m - 1] == g[m]);
            }
        }
    }
}

/// Membership in `gr_keys` is having an entry.
pub proof fn lemma_gr_keys(g: GraphView, k: PkgView)
    ensures
        gr_keys(g).contains(k) == gr_has_key(g, k),
        gr_keys(g).finite(),
{
    broadcast use vstd::seq_lib::seq_to_set_is_finite;

    let m = g.map_values(|e: (PkgView, Seq<PkgView>)| e.0);
    if gr_has_key(g, k) {
        let i = choose|i: int| 0 <= i < g.len() && g[i].0 == k;
        assert(m[i] == k);
        assert(m.contains(k));
    }
    if m.contains(k) {
        let i = choose|i: int| 0 <= i < m.len() && m[i] == k;
        assert(g[i].0 == k);
    }
}

/// Stores `v` under `k`: overwrites the entry already carrying `k`, in
/// place, or else appends a new entry.
pub open spec fn gr_set(g: GraphView, k: PkgView, v: Seq<PkgView>) -> GraphView {
    if gr_has_key(g, k) {
        g.update(gr_index_of(g, k), (k, v))
    } else {
        g.push((k, v))
    }
}

/// `gr_set` preserves key uniqueness.
pub proof fn lemma_gr_set_wf(g: GraphView, k: PkgView, v: Seq<PkgView>)
    requires
        gr_wf(g),
    ensures
        gr_wf(gr_set(g, k, v)),
{
    if gr_has_key(g, k) {
        lemma_gr_index_of(g, k);
    }
}

/// The directed dependency graph: a mapping from package identity to the
/// ordered dependency targets declared for it.
pub struct Graph {
    pub entries: Vec<(PackageId, Vec<PackageId>)>,
}

impl View for Graph {
    type V = GraphView;

    open spec fn view(&self) -> GraphView {
        self.entries@.map_values(|e: (PackageId, Vec<PackageId>)| (e.0@, pids_view(e.1@)))
    }
}

impl Graph {
    /// An empty graph.
    pub fn new() -> (g: Graph)
        ensures
            g@ =~= Seq::<(PkgView, Seq<PkgView>)>::empty(),
            gr_wf(g@),
    {
        Graph { entries: Vec::new() }
    }

    /// The number of nodes.
    pub fn len(&self) -> (n: usize)
        ensures
            n == self@.len(),
    {
        self.entries.len()
    }

    /// The position of the first entry keyed `k`, if any.
    fn find_index(&self, k: &PackageId) -> (r: Option<usize>)
        ensures
            match r {
                Some(i) => gr_has_key(self@, k@) && gr_index_of(self@, k@) == i && i
                    < self@.len(),
                None => !gr_has_key(self@, k@),
            },
    {
        let n = self.entries.len();
        let mut i: usize = 0;
        while i < n
            invariant
                i <= n,
                n == self@.len(),
                n == self.entries@.len(),
                forall|m: int| 0 <= m < i ==> self@[m].0 != k@,
            decreases n - i,
        {
            if self.entries[i].0.same(k) {
                proof {
                    lemma_gr_first(self@, k@, i as int);
                }
                return Some(i);
            }
            i = i + 1;
        }
        None
    }

    /// The dependency list of node `k`, or nothing when `k` is absent.
    pub fn get_deps<'a>(&'a self, k: &PackageId) -> (r: Option<&'a Vec<PackageId>>)
        ensures
            match r {
                Some(ds) => gr_has_key(self@, k@) && pids_view(ds@) == gr_lookup(self@, k@),
                None => !gr_has_key(self@, k@),
            },
    {
        match self.find_index(k) {
            Some(i) => Some(&self.entries[i].1),
            None => None,
        }
    }

    /// Stores `v` under `k`, overwriting any entry already keyed `k`.
    fn upsert(&mut self, k: PackageId, v: Vec<PackageId>)
        ensures
            final(self)@ == gr_set(old(self)@, k@, pids_view(v@)),
    {
        let ghost g0 = self@;
        let ghost kv = k@;
        let ghost vv = pids_view(v@);
        match self.find_index(&k) {
            Some(i) => {
                self.entries.remove(i);
                self.entries.insert(i, (k, v));
                proof {
                    assert(self@ =~= g0.update(gr_index_of(g0, kv), (kv, vv)));
                }
            },
            None => {
                self.entries.push((k, v));
                proof {
                    assert(self@ =~= g0.push((kv, vv)));
                }
            },
        }
    }
}

// ---------------------------------------------------------------------------
// Building the graph from records
// ---------------------------------------------------------------------------

/// What one record contributes: nothing when a field is missing, else its
/// node with the edges its specifiers yield.
pub open spec fn add_record(g: GraphView, r: RecordView) -> GraphView {
    match (r.name, r.version, r.dependencies) {
        (Some(n), Some(v), Some(ds)) => gr_set(
            g,
            PkgView { name: n, version: v },
            rec_edges(ds),
        ),
        _ => g,
    }
}

/// Folds the records, in input order, into a graph.
pub open spec fn build_from(records: Seq<RecordView>, g: GraphView) -> GraphView
    decreases records.len(),
{
    if records.len() == 0 {
        g
    } else {
        build_from(records.drop_first(), add_record(g, records[0]))
    }
}

/// The graph of a record sequence.
pub open spec fn build_graph_spec(records: Seq<RecordView>) -> GraphView {
    build_from(records, Seq::empty())
}

/// Builds the graph of a record sequence: skips records missing a field,
/// keys nodes by name and version (a later record overwrites an earlier
/// one with the same identity), and keeps edges in declared order.
pub fn build_graph(records: &Vec<PackageRecord>) -> (g: Graph)
    ensures
        g@ == build_graph_spec(records@.map_values(|r: PackageRecord| r@)),
        gr_wf(g@),
{
    let ghost rv = records@.map_values(|r: PackageRecord| r@);
    let mut g = Graph::new();
    proof {
        assert(rv.skip(0) =~= rv);
        assert(g@ =~= Seq::<(PkgView, Seq<PkgView>)>::empty());
    }
    let mut i: usize = 0;
    while i < records.len()
        invariant
            i <= records.len(),
            rv == records@.map_values(|r: PackageRecord| r@),
            build_from(rv.skip(i as int), g@) == build_graph_spec(rv),
            gr_wf(g@),
        decreases records.len() - i,
    {
        let ghost g0 = g@;
        let r = &records[i];
        match (&r.name, &r.version, &r.dependencies) {
            (Some(n), Some(v), Some(ds)) => {
                let edges = parse_edges(ds);
                proof {
                    lemma_gr_set_wf(g@, PkgView { name: n@, version: v@ }, pids_view(edges@));
                }
                g.upsert(PackageId { name: n.clone(), version: v.clone() }, edges);
            },
            _ => {},
        }
        proof {
            assert(rv.skip(i as int)[0] == rv[i as int]);
            assert(rv[i as int] == records@[i as int]@);
            assert(g@ == add_record(g0, rv[i as int]));
            assert(rv.skip(i as int).drop_first() =~= rv.skip(i + 1));
            assert(build_from(rv.skip(i + 1), g@) == build_graph_spec(rv));
        }
        i = i + 1;
    }
    proof {
        assert(rv.skip(records@.len() as int) =~= Seq::<RecordView>::empty());
    }
    g
}

} // verus!
