//! Laws of the detector and the reporter: every recorded cycle is a real
//! cycle of the graph made of graph nodes only, the memo is written at
//! most once per node and never overwritten, an acyclic graph reports
//! nothing, and the whole pipeline is deterministic.

use vstd::prelude::*;
use crate::package::PkgView;
use crate::graph::{
    GraphView, gr_has_key, gr_index_of, gr_keys, gr_lookup, gr_wf, lemma_gr_index_of,
};
use crate::detect::{
    ResolutionView, TableView, detect_from, detect_spec, first_pos, lemma_first_pos,
    lemma_measure_dec, process_deps, tbl_has_key, tbl_wf,
};
use crate::report::{
    cyclic_entries, entries_sorted, lemma_lines_of_len, lemma_sort_entries, report_entries,
    report_lines,
};

verus! {

/// A directed dependency edge: `b` stands in the dependency list of the
/// node `a`.
pub open spec fn has_edge(g: GraphView, a: PkgView, b: PkgView) -> bool {
    gr_has_key(g, a) && gr_lookup(g, a).contains(b)
}

/// A directed cycle: at least one edge, consecutive nodes joined by
/// edges, and the last node equal to the first.
pub open spec fn is_cycle_chain(g: GraphView, c: Seq<PkgView>) -> bool {
    c.len() >= 2 && c[0] == c[c.len() - 1] && (forall|i: int|
        0 <= i < c.len() - 1 ==> has_edge(g, c[i], #[trigger] c[i + 1]))
}

/// A graph with no directed cycle at all.
pub open spec fn graph_acyclic(g: GraphView) -> bool {
    forall|c: Seq<PkgView>| !is_cycle_chain(g, c)
}

/// Soundness of one memo entry: a cyclic record is a real cycle chain of
/// the graph, and every node on it is a node of the graph.
pub open spec fn record_sound(g: GraphView, e: (PkgView, ResolutionView)) -> bool {
    match e.1 {
        ResolutionView::Cyclic(c) => is_cycle_chain(g, c) && (forall|j: int|
            0 <= j < c.len() ==> gr_has_key(g, #[trigger] c[j])),
        ResolutionView::Acyclic => true,
    }
}

/// Soundness of every memo entry.
pub open spec fn records_sound(g: GraphView, t: TableView) -> bool {
    forall|i: int| 0 <= i < t.len() ==> record_sound(g, #[trigger] t[i])
}

/// The active path is a real chain of graph nodes.
pub open spec fn path_ok(g: GraphView, path: Seq<PkgView>) -> bool {
    (forall|i: int| 0 <= i < path.len() ==> gr_has_key(g, #[trigger] path[i])) && (forall|i: int|
        0 <= i < path.len() - 1 ==> gr_lookup(g, path[i]).contains(#[trigger] path[i + 1]))
}

/// The traversal never rewrites the memo: the entries already present
/// stay, in place and unchanged, every added entry carries a key that was
/// not yet resolved, and key uniqueness is preserved.
pub proof fn lemma_traversal_extends_memo(
    g: GraphView,
    deps: Seq<PkgView>,
    path: Seq<PkgView>,
    found: TableView,
)
    requires
        tbl_wf(found),
    ensures
        tbl_wf(process_deps(g, deps, path, found)),
        found.len() <= process_deps(g, deps, path, found).len(),
        forall|i: int|
            0 <= i < found.len() ==> #[trigger] process_deps(g, deps, path, found)[i]
                == found[i],
        forall|i: int|
            found.len() <= i < process_deps(g, deps, path, found).len() ==> !tbl_has_key(
                found,
                (#[trigger] process_deps(g, deps, path, found)[i]).0,
            ),
    decreases (gr_keys(g) - path.to_set()).len(), deps.len(),
{
    if deps.len() == 0 {
    } else {
        let cur = deps[0];
        let r = process_deps(g, deps, path, found);
        let found1: TableView = if tbl_has_key(found, cur) {
            found
        } else if path.contains(cur) {
            found.push((cur, ResolutionView::Cyclic(path.skip(first_pos(path, cur)).push(cur))))
        } else {
            let found2: TableView = if gr_has_key(g, cur) {
                process_deps(g, gr_lookup(g, cur), path.push(cur), found)
            } else {
                found
            };
            if tbl_has_key(found2, cur) {
                found2
            } else {
                found2.push((cur, ResolutionView::Acyclic))
            }
        };
        if tbl_has_key(found, cur) {
        } else if path.contains(cur) {
            assert forall|m: int| 0 <= m < found.len() implies found[m].0 != cur by {
                if found[m].0 == cur {
                    assert(tbl_has_key(found, cur));
                }
            }
            assert(tbl_wf(found1));
        } else {
            if gr_has_key(g, cur) {
                lemma_measure_dec(g, path, cur);
                lemma_traversal_extends_memo(g, gr_lookup(g, cur), path.push(cur), found);
            }
            let found2: TableView = if gr_has_key(g, cur) {
                process_deps(g, gr_lookup(g, cur), path.push(cur), found)
            } else {
                found
            };
            if !tbl_has_key(found2, cur) {
                assert forall|m: int| 0 <= m < found2.len() implies found2[m].0 != cur by {
                    if found2[m].0 == cur {
                        assert(tbl_has_key(found2, cur));
                    }
                }
                assert(tbl_wf(found1));
            }
            assert forall|i: int|
                found.len() <= i < found1.len() implies !tbl_has_key(found, found1[i].0) by {
                if i < found2.len() {
                } else {
                    assert(found1[i].0 == cur);
                }
            }
        }
        lemma_traversal_extends_memo(g, deps.drop_first(), path, found1);
        assert forall|i: int|
            found.len() <= i < r.len() implies !tbl_has_key(found, (#[trigger] r[i]).0) by {
            if i < found1.len() {
            } else {
                assert(!tbl_has_key(found1, r[i].0));
                if tbl_has_key(found, r[i].0) {
                    let w = choose|m: int| 0 <= m < found.len() && found[m].0 == r[i].0;
                    assert(found1[w].0 == r[i].0);
                    assert(tbl_has_key(found1, r[i].0));
                }
            }
        }
    }
}

/// Every memo entry the traversal writes is sound: a node marked cyclic
/// really lies on a cycle of the graph, recorded as a chain of graph
/// nodes that closes on itself.
pub proof fn lemma_traversal_sound(
    g: GraphView,
    deps: Seq<PkgView>,
    path: Seq<PkgView>,
    found: TableView,
)
    requires
        path.len() > 0,
        path_ok(g, path),
        forall|i: int|
            0 <= i < deps.len() ==> gr_lookup(g, path.last()).contains(#[trigger] deps[i]),
        records_sound(g, found),
    ensures
        records_sound(g, process_deps(g, deps, path, found)),
    decreases (gr_keys(g) - path.to_set()).len(), deps.len(),
{
    if deps.len() == 0 {
    } else {
        let cur = deps[0];
        let found1: TableView = if tbl_has_key(found, cur) {
            found
        } else if path.contains(cur) {
            found.push((cur, ResolutionView::Cyclic(path.skip(first_pos(path, cur)).push(cur))))
        } else {
            let found2: TableView = if gr_has_key(g, cur) {
                process_deps(g, gr_lookup(g, cur), path.push(cur), found)
            } else {
                found
            };
            if tbl_has_key(found2, cur) {
                found2
            } else {
                found2.push((cur, ResolutionView::Acyclic))
            }
        };
        assert(gr_lookup(g, path.last()).contains(cur));
        assert(path[path.len() - 1] == path.last());
        if tbl_has_key(found, cur) {
        } else if path.contains(cur) {
            lemma_first_pos(path, cur);
            let p = first_pos(path, cur);
            let c = path.skip(p).push(cur);
            assert(c.len() == path.len() - p + 1);
            assert(c[0] == path[p]);
            assert(c[c.len() - 1] == cur);
            assert forall|i: int| 0 <= i < c.len() - 1 implies has_edge(
                g,
                c[i],
                #[trigger] c[i + 1],
            ) by {
                assert(c[i] == path[p + i]);
                if i + 1 < c.len() - 1 {
                    assert(c[i + 1] == path[p + i + 1]);
                    assert(gr_lookup(g, path[p + i]).contains(path[p + i + 1]));
                } else {
                    assert(c[i + 1] == cur);
                    assert(c[i] == path[path.len() - 1]);
                }
            }
            assert forall|j: int| 0 <= j < c.len() implies gr_has_key(g, #[trigger] c[j]) by {
                if j < c.len() - 1 {
                    assert(c[j] == path[p + j]);
                } else {
                    assert(c[j] == cur);
                    assert(cur == path[p]);
                }
            }
            assert(is_cycle_chain(g, c));
            assert(record_sound(g, (cur, ResolutionView::Cyclic(c))));
            assert forall|i: int| 0 <= i < found1.len() implies record_sound(
                g,
                #[trigger] found1[i],
            ) by {
                if i < found.len() {
                    assert(found1[i] == found[i]);
                }
            }
        } else {
            if gr_has_key(g, cur) {
                let npath = path.push(cur);
                assert forall|i: int| 0 <= i < npath.len() implies gr_has_key(
                    g,
                    #[trigger] npath[i],
                ) by {
                    if i < path.len() {
                        assert(npath[i] == path[i]);
                    }
                }
                assert forall|i: int| 0 <= i < npath.len() - 1 implies gr_lookup(
                    g,
                    npath[i],
                ).contains(#[trigger] npath[i + 1]) by {
                    if i + 1 < npath.len() - 1 {
                        assert(npath[i] == path[i] && npath[i + 1] == path[i + 1]);
                    } else {
                        assert(npath[i] == path[path.len() - 1]);
                        assert(npath[i + 1] == cur);
                    }
                }
                assert(npath.last() == cur);
                lemma_measure_dec(g, path, cur);
                lemma_traversal_sound(g, gr_lookup(g, cur), npath, found);
            }
            let found2: TableView = if gr_has_key(g, cur) {
                process_deps(g, gr_lookup(g, cur), path.push(cur), found)
            } else {
                found
            };
            if !tbl_has_key(found2, cur) {
                assert forall|i: int| 0 <= i < found1.len() implies record_sound(
                    g,
                    #[trigger] found1[i],
                ) by {
                    if i < found2.len() {
                        assert(found1[i] == found2[i]);
                    } else {
                        assert(found1[i] == (cur, ResolutionView::Acyclic));
                    }
                }
            }
        }
        lemma_traversal_sound(g, deps.drop_first(), path, found1);
    }
}

/// The whole run: sound records and unique keys, from every root.
proof fn lemma_detect_from_sound(g: GraphView, i: int, found: TableView)
    requires
        gr_wf(g),
        0 <= i,
        tbl_wf(found),
        records_sound(g, found),
    ensures
        tbl_wf(detect_from(g, i, found)),
        records_sound(g, detect_from(g, i, found)),
    decreases g.len() - i,
{
    if i < g.len() {
        let root = g[i].0;
        let path = seq![root];
        assert(path[0] == root);
        assert(gr_has_key(g, root));
        lemma_gr_index_of(g, root);
        assert forall|m: int| 0 <= m < g.len() && g[m].0 == root implies m == gr_index_of(
            g,
            root,
        ) by {
            let x = gr_index_of(g, root);
            if m < x {
                assert(g[m].0 != root);
            }
            if x < m {
                assert(g[x].0 != g[m].0);
            }
        }
        assert(gr_index_of(g, root) == i);
        assert(gr_lookup(g, root) == g[i].1);
        assert(path.last() == root);
        assert forall|j: int| 0 <= j < g[i].1.len() implies gr_lookup(g, path.last()).contains(
            #[trigger] g[i].1[j],
        ) by {}
        lemma_traversal_sound(g, g[i].1, path, found);
        lemma_traversal_extends_memo(g, g[i].1, path, found);
        lemma_detect_from_sound(g, i + 1, process_deps(g, g[i].1, path, found));
    }
}

/// The detector resolves each node at most once, globally: the table it
/// produces keys every entry uniquely, and every cyclic entry records a
/// real cycle chain of graph nodes.
pub proof fn lemma_detect_sound(g: GraphView)
    requires
        gr_wf(g),
    ensures
        tbl_wf(detect_spec(g)),
        records_sound(g, detect_spec(g)),
{
    lemma_detect_from_sound(g, 0, Seq::empty());
}

/// With every entry acyclic, nothing is selected for the report.
proof fn lemma_cyclic_entries_none(t: TableView)
    requires
        forall|i: int| 0 <= i < t.len() ==> (#[trigger] t[i]).1 is Acyclic,
    ensures
        cyclic_entries(t) == Seq::<(PkgView, ResolutionView)>::empty(),
    decreases t.len(),
{
    if t.len() > 0 {
        assert(t[0].1 is Acyclic);
        assert forall|i: int| 0 <= i < t.drop_first().len() implies (#[trigger] t.drop_first()[
            i
        ]).1 is Acyclic by {
            assert(t.drop_first()[i] == t[i + 1]);
        }
        lemma_cyclic_entries_none(t.drop_first());
        assert(cyclic_entries(t) =~= Seq::<(PkgView, ResolutionView)>::empty());
    }
}

/// On a graph with no directed cycle the detector marks no node cyclic,
/// and the report is empty in either mode: the tool succeeds silently.
pub proof fn lemma_acyclic_graph_reports_nothing(g: GraphView, markdown: bool)
    requires
        gr_wf(g),
        graph_acyclic(g),
    ensures
        forall|i: int|
            0 <= i < detect_spec(g).len() ==> (#[trigger] detect_spec(g)[i]).1 is Acyclic,
        report_entries(detect_spec(g)) == Seq::<(PkgView, ResolutionView)>::empty(),
        report_lines(detect_spec(g), markdown) == Seq::<Seq<char>>::empty(),
{
    lemma_detect_sound(g);
    let t = detect_spec(g);
    assert forall|i: int| 0 <= i < t.len() implies (#[trigger] t[i]).1 is Acyclic by {
        assert(record_sound(g, t[i]));
        if t[i].1 is Cyclic {
            let c = match t[i].1 {
                ResolutionView::Cyclic(c) => c,
                ResolutionView::Acyclic => Seq::empty(),
            };
            assert(is_cycle_chain(g, c));
        }
    }
    lemma_cyclic_entries_none(t);
    assert(report_entries(t) == Seq::<(PkgView, ResolutionView)>::empty());
    assert(report_lines(t, markdown) == Seq::<Seq<char>>::empty());
}

/// A package absent from the graph (the target of a dangling edge) never
/// appears in any recorded cycle.
pub proof fn lemma_dangling_never_recorded(g: GraphView, q: PkgView)
    requires
        gr_wf(g),
        !gr_has_key(g, q),
    ensures
        forall|i: int|
            0 <= i < detect_spec(g).len() ==> match (#[trigger] detect_spec(g)[i]).1 {
                ResolutionView::Cyclic(c) => !c.contains(q),
                ResolutionView::Acyclic => true,
            },
{
    lemma_detect_sound(g);
    let t = detect_spec(g);
    assert forall|i: int| 0 <= i < t.len() implies match (#[trigger] t[i]).1 {
        ResolutionView::Cyclic(c) => !c.contains(q),
        ResolutionView::Acyclic => true,
    } by {
        assert(record_sound(g, t[i]));
        match t[i].1 {
            ResolutionView::Cyclic(c) => {
                if c.contains(q) {
                    let w = choose|j: int| 0 <= j < c.len() && c[j] == q;
                    assert(gr_has_key(g, c[w]));
                }
            },
            ResolutionView::Acyclic => {},
        }
    }
}

/// Running the detector twice over one graph yields the same table and
/// the same rendered report: the pipeline is deterministic.
pub proof fn lemma_detector_idempotent(
    g: GraphView,
    t1: TableView,
    t2: TableView,
    markdown: bool,
)
    requires
        t1 == detect_spec(g),
        t2 == detect_spec(g),
    ensures
        t1 == t2,
        report_lines(t1, markdown) == report_lines(t2, markdown),
{
}

/// The report lists the cyclic packages in order: sorted by name, then
/// version.
pub proof fn lemma_report_sorted(t: TableView)
    ensures
        entries_sorted(report_entries(t)),
        report_entries(t).to_multiset() == cyclic_entries(t).to_multiset(),
{
    lemma_sort_entries(cyclic_entries(t));
}

/// The report renders one line per cyclic entry, in either mode: it is
/// empty, and the run succeeds, exactly when no node is cyclic.
pub proof fn lemma_one_line_per_cycle(t: TableView, markdown: bool)
    ensures
        report_lines(t, markdown).len() == cyclic_entries(t).len(),
{
    lemma_sort_entries(cyclic_entries(t));
    lemma_lines_of_len(report_entries(t), markdown);
}

/// After one dependency list is traversed, every one of its targets is
/// resolved.
pub proof fn lemma_traversal_complete(
    g: GraphView,
    deps: Seq<PkgView>,
    path: Seq<PkgView>,
    found: TableView,
)
    requires
        tbl_wf(found),
    ensures
        forall|i: int|
            0 <= i < deps.len() ==> tbl_has_key(
                process_deps(g, deps, path, found),
                #[trigger] deps[i],
            ),
    decreases (gr_keys(g) - path.to_set()).len(), deps.len(),
{
    if deps.len() == 0 {
    } else {
        let cur = deps[0];
        let r = process_deps(g, deps, path, found);
        let found1: TableView = if tbl_has_key(found, cur) {
            found
        } else if path.contains(cur) {
            found.push((cur, ResolutionView::Cyclic(path.skip(first_pos(path, cur)).push(cur))))
        } else {
            let found2: TableView = if gr_has_key(g, cur) {
                process_deps(g, gr_lookup(g, cur), path.push(cur), found)
            } else {
                found
            };
            if tbl_has_key(found2, cur) {
                found2
            } else {
                found2.push((cur, ResolutionView::Acyclic))
            }
        };
        if !tbl_has_key(found, cur) && !path.contains(cur) && gr_has_key(g, cur) {
            lemma_measure_dec(g, path, cur);
            lemma_traversal_extends_memo(g, gr_lookup(g, cur), path.push(cur), found);
        }
        assert(tbl_has_key(found1, cur)) by {
            if tbl_has_key(found, cur) {
                let w = choose|m: int| 0 <= m < found.len() && found[m].0 == cur;
                assert(found1[w].0 == cur);
            } else if path.contains(cur) {
                assert(found1[found.len() as int].0 == cur);
            } else {
                let found2: TableView = if gr_has_key(g, cur) {
                    process_deps(g, gr_lookup(g, cur), path.push(cur), found)
                } else {
                    found
                };
                if !tbl_has_key(found2, cur) {
                    assert(found1[found2.len() as int].0 == cur);
                }
            }
        }
        lemma_one_step_wf(g, cur, path, found);
        lemma_traversal_complete(g, deps.drop_first(), path, found1);
        lemma_traversal_extends_memo(g, deps.drop_first(), path, found1);
        assert forall|i: int| 0 <= i < deps.len() implies tbl_has_key(r, #[trigger] deps[i]) by {
            if i == 0 {
                let w = choose|m: int| 0 <= m < found1.len() && found1[m].0 == cur;
                assert(r[w] == found1[w]);
            } else {
                assert(deps.drop_first()[i - 1] == deps[i]);
            }
        }
    }
}

/// Processing a single target preserves key uniqueness of the memo.
proof fn lemma_one_step_wf(g: GraphView, cur: PkgView, path: Seq<PkgView>, found: TableView)
    requires
        tbl_wf(found),
    ensures
        tbl_wf(process_deps(g, seq![cur], path, found)),
        ({
            let found1: TableView = if tbl_has_key(found, cur) {
                found
            } else if path.contains(cur) {
                found.push(
                    (cur, ResolutionView::Cyclic(path.skip(first_pos(path, cur)).push(cur))),
                )
            } else {
                let found2: TableView = if gr_has_key(g, cur) {
                    process_deps(g, gr_lookup(g, cur), path.push(cur), found)
                } else {
                    found
                };
                if tbl_has_key(found2, cur) {
                    found2
                } else {
                    found2.push((cur, ResolutionView::Acyclic))
                }
            };
            tbl_wf(found1)
        }),
{
    lemma_traversal_extends_memo(g, seq![cur], path, found);
    reveal_with_fuel(process_deps, 2);
    assert(seq![cur][0] == cur);
    assert(seq![cur].drop_first() =~= Seq::<PkgView>::empty());
}

/// Every dependency target of every node of the graph is resolved by the
/// run: the table holds an entry for each, and, the table's keys being
/// unique, exactly one.
proof fn lemma_detect_from_complete(g: GraphView, i: int, found: TableView)
    requires
        0 <= i,
        tbl_wf(found),
    ensures
        tbl_wf(detect_from(g, i, found)),
        forall|k: PkgView|
            tbl_has_key(found, k) ==> tbl_has_key(detect_from(g, i, found), k),
        forall|m: int, j: int|
            i <= m < g.len() && 0 <= j < g[m].1.len() ==> tbl_has_key(
                detect_from(g, i, found),
                #[trigger] g[m].1[j],
            ),
    decreases g.len() - i,
{
    if i < g.len() {
        let path = seq![g[i].0];
        let found1 = process_deps(g, g[i].1, path, found);
        lemma_traversal_complete(g, g[i].1, path, found);
        lemma_traversal_extends_memo(g, g[i].1, path, found);
        lemma_detect_from_complete(g, i + 1, found1);
        assert forall|k: PkgView| tbl_has_key(found, k) implies tbl_has_key(
            detect_from(g, i, found),
            k,
        ) by {
            let w = choose|m: int| 0 <= m < found.len() && found[m].0 == k;
            assert(found1[w] == found[w]);
            assert(tbl_has_key(found1, k));
        }
        assert forall|m: int, j: int|
            i <= m < g.len() && 0 <= j < g[m].1.len() implies tbl_has_key(
            detect_from(g, i, found),
            #[trigger] g[m].1[j],
        ) by {
            if m == i {
                assert(tbl_has_key(found1, g[i].1[j]));
            }
        }
    }
}

/// The detector's completeness: every node that some dependency list of
/// the graph names has an entry in the table, whether it is a node of the
/// graph or a dangling target, and the table keys every entry uniquely.
pub proof fn lemma_detect_complete(g: GraphView)
    ensures
        tbl_wf(detect_spec(g)),
        forall|m: int, j: int|
            0 <= m < g.len() && 0 <= j < g[m].1.len() ==> tbl_has_key(
                detect_spec(g),
                #[trigger] g[m].1[j],
            ),
{
    lemma_detect_from_complete(g, 0, Seq::empty());
}

} // verus!
