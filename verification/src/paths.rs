//! What a search outcome means: the per-search exclusion filters, the
//! steps a frontier may take under them, surviving paths, reachability of
//! the two frontiers, and the laws the search contract supports.

use vstd::prelude::*;
use rustc_hash::FxHashSet;
use crate::graph::Graph;

verus! {

/// The view of an excluded-imports table: importer -> the set of imported
/// modules whose edges are suppressed for this search.
pub open spec fn excl_view(m: Map<u64, FxHashSet<u64>>) -> Map<u64, Set<u64>> {
    Map::new(|k: u64| m.dom().contains(k), |k: u64| m[k]@)
}

/// Whether the directed edge `u -> v` is suppressed by the excluded-edges
/// table.
pub open spec fn edge_excluded(exe: Map<u64, Set<u64>>, u: u64, v: u64) -> bool {
    exe.dom().contains(u) && exe[u].contains(v)
}

/// The edge `u -> v` stands in the graph and is not suppressed edge-wise.
pub open spec fn edge_ok(g: Graph, exe: Map<u64, Set<u64>>, u: u64, v: u64) -> bool {
    g.has_edge(u, v) && !edge_excluded(exe, u, v)
}

/// One step either frontier may take: a surviving edge neither end of
/// which is an excluded node. An excluded node is absent from the search's
/// graph outright, so no step leaves it and none enters it.
pub open spec fn step_ok(g: Graph, exn: Set<u64>, exe: Map<u64, Set<u64>>, u: u64, v: u64) -> bool {
    edge_ok(g, exe, u, v) && !exn.contains(u) && !exn.contains(v)
}

/// A non-empty sequence each consecutive pair of which is a step.
pub open spec fn walk_ok(g: Graph, exn: Set<u64>, exe: Map<u64, Set<u64>>, p: Seq<u64>) -> bool {
    p.len() >= 1 && (forall|i: int|
        0 <= i < p.len() - 1 ==> step_ok(g, exn, exe, #[trigger] p[i], p[i + 1]))
}

/// The forward frontier, grown from the source set, can discover `n`.
pub open spec fn fwd_reaches(
    g: Graph,
    exn: Set<u64>,
    exe: Map<u64, Set<u64>>,
    src: Set<u64>,
    n: u64,
) -> bool {
    exists|p: Seq<u64>| walk_ok(g, exn, exe, p) && src.contains(p[0]) && p.last() == n
}

/// The backward frontier, grown from the target set, can discover `n`.
pub open spec fn bwd_reaches(
    g: Graph,
    exn: Set<u64>,
    exe: Map<u64, Set<u64>>,
    tgt: Set<u64>,
    n: u64,
) -> bool {
    exists|p: Seq<u64>| walk_ok(g, exn, exe, p) && p[0] == n && tgt.contains(p.last())
}

/// Some node is discoverable by both frontiers: the search can meet.
pub open spec fn frontiers_meet(
    g: Graph,
    exn: Set<u64>,
    exe: Map<u64, Set<u64>>,
    src: Set<u64>,
    tgt: Set<u64>,
) -> bool {
    exists|m: u64| fwd_reaches(g, exn, exe, src, m) && bwd_reaches(g, exn, exe, tgt, m)
}

/// A sequence that survives the filters outright: none of its nodes — the
/// endpoints included — is an excluded node, and none of its edges is
/// suppressed.
pub open spec fn surviving_path(g: Graph, exn: Set<u64>, exe: Map<u64, Set<u64>>, p: Seq<u64>) -> bool {
    &&& p.len() >= 1
    &&& (forall|i: int| 0 <= i < p.len() ==> !exn.contains(#[trigger] p[i]))
    &&& (forall|i: int| 0 <= i < p.len() - 1 ==> edge_ok(g, exe, #[trigger] p[i], p[i + 1]))
}

/// What a returned path satisfies: a surviving sequence of at least two
/// nodes that leads from the source set to the target set.
pub open spec fn path_connects(
    g: Graph,
    exn: Set<u64>,
    exe: Map<u64, Set<u64>>,
    src: Set<u64>,
    tgt: Set<u64>,
    p: Seq<u64>,
) -> bool {
    &&& p.len() >= 2
    &&& src.contains(p[0])
    &&& tgt.contains(p[p.len() - 1])
    &&& surviving_path(g, exn, exe, p)
}

/// What `find_shortest_path_bidirectional` promises of the optional path a
/// successful call hands back: a connecting path no connecting path
/// undercuts, or — for `None` — frontiers that can never meet.
pub open spec fn search_outcome_ok(
    g: Graph,
    exn: Set<u64>,
    exe: Map<u64, Set<u64>>,
    src: Set<u64>,
    tgt: Set<u64>,
    outcome: Option<Seq<u64>>,
) -> bool {
    match outcome {
        Some(p) => {
            &&& path_connects(g, exn, exe, src, tgt, p)
            &&& frontiers_meet(g, exn, exe, src, tgt)
            &&& (forall|q: Seq<u64>|
                #[trigger] path_connects(g, exn, exe, src, tgt, q) ==> q.len() >= p.len())
        },
        None => !frontiers_meet(g, exn, exe, src, tgt),
    }
}

/// Law: when the frontiers cannot meet — the case in which the search
/// answers that no path exists — every source-to-target sequence is blocked
/// by the exclusions: nothing that starts in the source set and ends in the
/// target set survives both filters.
pub proof fn lemma_no_meeting_blocks_every_path(
    g: Graph,
    exn: Set<u64>,
    exe: Map<u64, Set<u64>>,
    src: Set<u64>,
    tgt: Set<u64>,
    p: Seq<u64>,
)
    requires
        !frontiers_meet(g, exn, exe, src, tgt),
    ensures
        !(surviving_path(g, exn, exe, p) && src.contains(p.first()) && tgt.contains(p.last())),
{
    if surviving_path(g, exn, exe, p) && src.contains(p.first()) && tgt.contains(p.last()) {
        let m = p.last();
        assert(walk_ok(g, exn, exe, p));
        assert(fwd_reaches(g, exn, exe, src, m));
        let q = seq![m];
        assert(q.last() == m);
        assert(walk_ok(g, exn, exe, q));
        assert(bwd_reaches(g, exn, exe, tgt, m));
        assert(false);
    }
}

/// Law: calling the search twice with identical inputs on an unmodified
/// graph answers the existence question identically, and any two paths that
/// satisfy the search contract have the same length — only which minimal
/// path is chosen under ties is left open.
pub proof fn lemma_existence_deterministic(
    g: Graph,
    exn: Set<u64>,
    exe: Map<u64, Set<u64>>,
    src: Set<u64>,
    tgt: Set<u64>,
    r1: Option<Seq<u64>>,
    r2: Option<Seq<u64>>,
)
    requires
        search_outcome_ok(g, exn, exe, src, tgt, r1),
        search_outcome_ok(g, exn, exe, src, tgt, r2),
    ensures
        r1 is Some <==> r2 is Some,
        r1 matches Some(p1) ==> (r2 matches Some(p2) ==> p1.len() == p2.len()),
{
}

/// Law: an excluded node takes no part in the search — no step may enter
/// it and no step may leave it.
pub proof fn lemma_excluded_node_blocks_both_ways(
    g: Graph,
    exn: Set<u64>,
    exe: Map<u64, Set<u64>>,
    x: u64,
    u: u64,
    v: u64,
)
    requires
        exn.contains(x),
    ensures
        !step_ok(g, exn, exe, u, x),
        !step_ok(g, exn, exe, x, v),
{
}

/// Law: excluding the directed edge `u -> v` suppresses exactly that edge.
/// Under the widened table the edge `u -> v` is gone, while every other
/// pair — the reverse edge `v -> u` included — survives exactly as before.
pub proof fn lemma_excluded_edge_is_directed(
    g: Graph,
    exe: Map<u64, Set<u64>>,
    exe2: Map<u64, Set<u64>>,
    u: u64,
    v: u64,
    a: u64,
    b: u64,
)
    requires
        exe2 == (if exe.dom().contains(u) {
            exe.insert(u, exe[u].insert(v))
        } else {
            exe.insert(u, set![v])
        }),
    ensures
        !edge_ok(g, exe2, u, v),
        (a != u || b != v) ==> (edge_ok(g, exe2, a, b) <==> edge_ok(g, exe, a, b)),
{
}

/// Law: a shortest connecting path repeats no node — were a node visited
/// twice, cutting the loop between the visits would leave a shorter
/// connecting path.
pub proof fn lemma_shortest_path_nodes_distinct(
    g: Graph,
    exn: Set<u64>,
    exe: Map<u64, Set<u64>>,
    src: Set<u64>,
    tgt: Set<u64>,
    p: Seq<u64>,
    i: int,
    j: int,
)
    requires
        src.disjoint(tgt),
        path_connects(g, exn, exe, src, tgt, p),
        forall|q: Seq<u64>|
            #[trigger] path_connects(g, exn, exe, src, tgt, q) ==> q.len() >= p.len(),
        0 <= i < j < p.len(),
    ensures
        p[i] != p[j],
{
    if p[i] == p[j] {
        if i == 0 && j == p.len() - 1 {
            assert(src.contains(p[0]) && tgt.contains(p[0]));
            assert(false);
        }
        let a = p.subrange(0, i + 1);
        let b = p.subrange(j + 1, p.len() as int);
        let q = a + b;
        assert(q.len() == p.len() - (j - i));
        assert(q.len() >= 2);
        assert(q[0] == p[0]);
        if b.len() > 0 {
            assert(q[q.len() - 1] == b[b.len() - 1]);
            assert(q[q.len() - 1] == p[p.len() - 1]);
        } else {
            assert(q[q.len() - 1] == a[a.len() - 1]);
            assert(q[q.len() - 1] == p[i]);
            assert(p[i] == p[p.len() - 1]);
        }
        assert forall|k: int| 0 <= k < q.len() implies !exn.contains(#[trigger] q[k]) by {
            if k <= i {
                assert(q[k] == p[k]);
            } else {
                assert(q[k] == p[k + (j - i)]);
            }
        }
        assert forall|k: int| 0 <= k < q.len() - 1 implies edge_ok(
            g,
            exe,
            #[trigger] q[k],
            q[k + 1],
        ) by {
            if k < i {
                assert(q[k] == p[k] && q[k + 1] == p[k + 1]);
                assert(edge_ok(g, exe, p[k], p[k + 1]));
            } else if k == i {
                assert(q[k] == p[j] && q[k + 1] == p[j + 1]);
                assert(edge_ok(g, exe, p[j], p[j + 1]));
            } else {
                assert(q[k] == p[k + (j - i)] && q[k + 1] == p[k + (j - i) + 1]);
                assert(edge_ok(g, exe, p[k + (j - i)], p[k + (j - i) + 1]));
            }
        }
        assert(path_connects(g, exn, exe, src, tgt, q));
        assert(q.len() >= p.len());
        assert(false);
    }
}

} // verus!
