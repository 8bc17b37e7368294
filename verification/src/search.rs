//! The bidirectional breadth-first search itself. Two discovery lists grow
//! layer by layer, one from the source set along forward edges and one from
//! the target set along reverse edges; the search stops the moment a node is
//! seen by both sides and walks the recorded chains into the answer path.

use vstd::prelude::*;
use rustc_hash::FxHashMap;
use rustc_hash::FxHashSet;
use crate::graph::Graph;
use crate::paths::bwd_reaches;
use crate::paths::edge_excluded;
use crate::paths::edge_ok;
use crate::paths::excl_view;
use crate::paths::frontiers_meet;
use crate::paths::fwd_reaches;
use crate::paths::path_connects;
use crate::paths::step_ok;
use crate::paths::surviving_path;
use crate::paths::walk_ok;
use crate::sets::edge_map_get;
use crate::sets::node_set_contains;
use crate::sets::node_set_insert;
use crate::sets::node_set_new;
use crate::sets::node_set_to_vec;
use crate::paths::search_outcome_ok;
use crate::ModuleToken;
use crate::SearchError;

verus! {

/// One discovery record: the node, and the position of the entry that
/// discovered it — `None` for a seed of the frontier's origin set. Entries
/// are only ever appended, so positions double as insertion order and a
/// frontier cursor is a plain index.
type Entry = (u64, Option<usize>);

/// The nodes a discovery list holds.
pub(crate) open spec fn entry_nodes(s: Seq<Entry>) -> Set<u64> {
    Set::new(|n: u64| exists|i: int| 0 <= i < s.len() && (#[trigger] s[i]).0 == n)
}

/// No node is recorded twice: first discovery is the only discovery.
pub(crate) open spec fn distinct_nodes(s: Seq<Entry>) -> bool {
    forall|i: int, j: int| 0 <= i < j < s.len() ==> (#[trigger] s[i]).0 != (#[trigger] s[j]).0
}

/// The forward discovery list is sound: seeds lie in the source set, every
/// other entry was discovered from an earlier entry over a forward step, no
/// node repeats, and every node is known to the graph.
pub(crate) open spec fn fwd_entries_wf(
    s: Seq<Entry>,
    g: Graph,
    exn: Set<u64>,
    exe: Map<u64, Set<u64>>,
    src: Set<u64>,
) -> bool {
    &&& (forall|i: int|
        #![trigger s[i]]
        0 <= i < s.len() ==> match s[i].1 {
            Option::None => src.contains(s[i].0),
            Option::Some(pi) => pi < i && step_ok(g, exn, exe, s[pi as int].0, s[i].0),
        })
    &&& distinct_nodes(s)
    &&& (forall|i: int| 0 <= i < s.len() ==> g.nodes().contains((#[trigger] s[i]).0))
    &&& (forall|i: int| 0 <= i < s.len() ==> !exn.contains((#[trigger] s[i]).0))
}

/// The backward discovery list is sound, symmetrically: seeds lie in the
/// target set, and an entry's node steps backward to the entry that
/// discovered it.
pub(crate) open spec fn bwd_entries_wf(
    s: Seq<Entry>,
    g: Graph,
    exn: Set<u64>,
    exe: Map<u64, Set<u64>>,
    tgt: Set<u64>,
) -> bool {
    &&& (forall|i: int|
        #![trigger s[i]]
        0 <= i < s.len() ==> match s[i].1 {
            Option::None => tgt.contains(s[i].0),
            Option::Some(pi) => pi < i && step_ok(g, exn, exe, s[i].0, s[pi as int].0),
        })
    &&& distinct_nodes(s)
    &&& (forall|i: int| 0 <= i < s.len() ==> g.nodes().contains((#[trigger] s[i]).0))
    &&& (forall|i: int| 0 <= i < s.len() ==> !exn.contains((#[trigger] s[i]).0))
}

/// Every entry below `upto` has been expanded forward: each of its
/// surviving forward steps lands on a recorded node.
pub(crate) open spec fn fwd_closed(
    s: Seq<Entry>,
    upto: int,
    g: Graph,
    exn: Set<u64>,
    exe: Map<u64, Set<u64>>,
) -> bool {
    forall|i: int, v: u64|
        #![trigger step_ok(g, exn, exe, s[i].0, v)]
        0 <= i < upto && step_ok(g, exn, exe, s[i].0, v) ==> entry_nodes(s).contains(v)
}

/// Every entry below `upto` has been expanded backward: each surviving
/// backward step into it starts from a recorded node.
pub(crate) open spec fn bwd_closed(
    s: Seq<Entry>,
    upto: int,
    g: Graph,
    exn: Set<u64>,
    exe: Map<u64, Set<u64>>,
) -> bool {
    forall|i: int, v: u64|
        #![trigger step_ok(g, exn, exe, v, s[i].0)]
        0 <= i < upto && step_ok(g, exn, exe, v, s[i].0) ==> entry_nodes(s).contains(v)
}

/// Appending an entry adds exactly its node to the recorded node set.
proof fn lemma_entry_nodes_push(s: Seq<Entry>, e: Entry)
    ensures
        entry_nodes(s.push(e)) == entry_nodes(s).insert(e.0),
{
    let t = s.push(e);
    assert forall|n: u64| entry_nodes(t).contains(n) implies entry_nodes(s).insert(e.0).contains(
        n,
    ) by {
        let i = choose|i: int| 0 <= i < t.len() && t[i].0 == n;
        if i < s.len() {
            assert(s[i] == t[i]);
        }
    }
    assert forall|n: u64| entry_nodes(s).insert(e.0).contains(n) implies entry_nodes(t).contains(
        n,
    ) by {
        if n == e.0 {
            assert(t[s.len() as int].0 == n);
        } else {
            let i = choose|i: int| 0 <= i < s.len() && s[i].0 == n;
            assert(t[i].0 == n);
        }
    }
    assert(entry_nodes(s.push(e)) =~= entry_nodes(s).insert(e.0));
}

/// A discovery list over distinct known nodes can never outgrow the graph.
proof fn lemma_entries_bounded(s: Seq<Entry>, g: Graph)
    requires
        g.wf(),
        distinct_nodes(s),
        forall|i: int| 0 <= i < s.len() ==> g.nodes().contains((#[trigger] s[i]).0),
    ensures
        s.len() <= g.nodes().len(),
{
    let ns = s.map_values(|e: Entry| e.0);
    assert(ns.no_duplicates());
    ns.unique_seq_to_set();
    assert(ns.to_set().subset_of(g.nodes())) by {
        assert forall|n: u64| ns.to_set().contains(n) implies g.nodes().contains(n) by {
            let i = choose|i: int| 0 <= i < ns.len() && ns[i] == n;
            assert(g.nodes().contains(s[i].0));
        }
    }
    g.lemma_nodes_finite();
    vstd::set_lib::lemma_len_subset(ns.to_set(), g.nodes());
}

/// Every node on the forward list is reachable from the source set.
proof fn lemma_fwd_entry_reachable(
    s: Seq<Entry>,
    g: Graph,
    exn: Set<u64>,
    exe: Map<u64, Set<u64>>,
    src: Set<u64>,
    i: int,
)
    requires
        fwd_entries_wf(s, g, exn, exe, src),
        0 <= i < s.len(),
    ensures
        fwd_reaches(g, exn, exe, src, s[i].0),
    decreases i,
{
    match s[i].1 {
        Option::None => {
            let p = seq![s[i].0];
            assert(walk_ok(g, exn, exe, p));
            assert(src.contains(p[0]) && p.last() == s[i].0);
        },
        Option::Some(pi) => {
            lemma_fwd_entry_reachable(s, g, exn, exe, src, pi as int);
            let q = choose|q: Seq<u64>|
                walk_ok(g, exn, exe, q) && src.contains(q[0]) && q.last() == s[pi as int].0;
            let p = q.push(s[i].0);
            assert(walk_ok(g, exn, exe, p)) by {
                assert forall|k: int| 0 <= k < p.len() - 1 implies step_ok(
                    g,
                    exn,
                    exe,
                    #[trigger] p[k],
                    p[k + 1],
                ) by {
                    if k < q.len() - 1 {
                        assert(p[k] == q[k] && p[k + 1] == q[k + 1]);
                        assert(step_ok(g, exn, exe, q[k], q[k + 1]));
                    } else {
                        assert(p[k] == q.last() && p[k + 1] == s[i].0);
                    }
                }
            }
            assert(src.contains(p[0]) && p.last() == s[i].0);
        },
    }
}

/// Every node on the backward list can reach the target set.
proof fn lemma_bwd_entry_reachable(
    s: Seq<Entry>,
    g: Graph,
    exn: Set<u64>,
    exe: Map<u64, Set<u64>>,
    tgt: Set<u64>,
    i: int,
)
    requires
        bwd_entries_wf(s, g, exn, exe, tgt),
        0 <= i < s.len(),
    ensures
        bwd_reaches(g, exn, exe, tgt, s[i].0),
    decreases i,
{
    match s[i].1 {
        Option::None => {
            let p = seq![s[i].0];
            assert(walk_ok(g, exn, exe, p));
            assert(p[0] == s[i].0 && tgt.contains(p.last()));
        },
        Option::Some(pi) => {
            lemma_bwd_entry_reachable(s, g, exn, exe, tgt, pi as int);
            let q = choose|q: Seq<u64>|
                walk_ok(g, exn, exe, q) && q[0] == s[pi as int].0 && tgt.contains(q.last());
            let p = seq![s[i].0] + q;
            assert(walk_ok(g, exn, exe, p)) by {
                assert forall|k: int| 0 <= k < p.len() - 1 implies step_ok(
                    g,
                    exn,
                    exe,
                    #[trigger] p[k],
                    p[k + 1],
                ) by {
                    if k == 0 {
                        assert(p[0] == s[i].0 && p[1] == q[0]);
                    } else {
                        assert(p[k] == q[k - 1] && p[k + 1] == q[k]);
                        assert(step_ok(g, exn, exe, q[k - 1], q[k]));
                    }
                }
            }
            assert(p[0] == s[i].0);
            assert(p.last() == q.last());
            assert(tgt.contains(p.last()));
        },
    }
}

/// A fully expanded forward list holds every node the forward frontier can
/// ever discover.
proof fn lemma_fwd_closed_covers(
    s: Seq<Entry>,
    g: Graph,
    exn: Set<u64>,
    exe: Map<u64, Set<u64>>,
    src: Set<u64>,
    p: Seq<u64>,
)
    requires
        src.difference(exn).subset_of(entry_nodes(s)),
        fwd_closed(s, s.len() as int, g, exn, exe),
        walk_ok(g, exn, exe, p),
        src.contains(p[0]),
        !exn.contains(p[0]),
    ensures
        entry_nodes(s).contains(p.last()),
    decreases p.len(),
{
    if p.len() == 1 {
        assert(src.difference(exn).contains(p[0]));
        assert(entry_nodes(s).contains(p[0]));
    } else {
        let q = p.drop_last();
        assert(walk_ok(g, exn, exe, q)) by {
            assert forall|k: int| 0 <= k < q.len() - 1 implies step_ok(
                g,
                exn,
                exe,
                #[trigger] q[k],
                q[k + 1],
            ) by {
                assert(q[k] == p[k] && q[k + 1] == p[k + 1]);
                assert(step_ok(g, exn, exe, p[k], p[k + 1]));
            }
        }
        assert(q[0] == p[0]);
        lemma_fwd_closed_covers(s, g, exn, exe, src, q);
        let i = choose|i: int| 0 <= i < s.len() && (#[trigger] s[i]).0 == q.last();
        assert(q.last() == p[p.len() - 2]);
        assert(step_ok(g, exn, exe, p[p.len() - 2], p[p.len() - 1]));
        assert(step_ok(g, exn, exe, s[i].0, p.last()));
    }
}

/// A fully expanded backward list holds every node from which the backward
/// frontier's origin set can be reached.
proof fn lemma_bwd_closed_covers(
    s: Seq<Entry>,
    g: Graph,
    exn: Set<u64>,
    exe: Map<u64, Set<u64>>,
    tgt: Set<u64>,
    p: Seq<u64>,
)
    requires
        tgt.difference(exn).subset_of(entry_nodes(s)),
        bwd_closed(s, s.len() as int, g, exn, exe),
        walk_ok(g, exn, exe, p),
        tgt.contains(p.last()),
        !exn.contains(p.last()),
    ensures
        entry_nodes(s).contains(p[0]),
    decreases p.len(),
{
    if p.len() == 1 {
        assert(tgt.difference(exn).contains(p[0]));
        assert(entry_nodes(s).contains(p[0]));
    } else {
        let q = p.drop_first();
        assert(walk_ok(g, exn, exe, q)) by {
            assert forall|k: int| 0 <= k < q.len() - 1 implies step_ok(
                g,
                exn,
                exe,
                #[trigger] q[k],
                q[k + 1],
            ) by {
                assert(q[k] == p[k + 1] && q[k + 1] == p[k + 2]);
                assert(step_ok(g, exn, exe, p[k + 1], p[k + 2]));
            }
        }
        assert(q.last() == p.last());
        lemma_bwd_closed_covers(s, g, exn, exe, tgt, q);
        let i = choose|i: int| 0 <= i < s.len() && (#[trigger] s[i]).0 == q[0];
        assert(q[0] == p[1]);
        assert(step_ok(g, exn, exe, p[0], p[1]));
        assert(step_ok(g, exn, exe, p[0], s[i].0));
    }
}

/// Where a node sits on a discovery list, if it sits anywhere.
fn find_entry(entries: &Vec<Entry>, n: u64) -> (r: Option<usize>)
    ensures
        match r {
            Option::Some(i) => i < entries@.len() && entries@[i as int].0 == n,
            Option::None => !entry_nodes(entries@).contains(n),
        },
{
    let mut i: usize = 0;
    while i < entries.len()
        invariant
            i <= entries@.len(),
            forall|j: int| 0 <= j < i ==> (#[trigger] entries@[j]).0 != n,
        decreases entries@.len() - i,
    {
        if entries[i].0 == n {
            return Some(i);
        }
        i += 1;
    }
    proof {
        if entry_nodes(entries@).contains(n) {
            let wi = choose|j: int| 0 <= j < entries@.len() && (#[trigger] entries@[j]).0 == n;
            assert(entries@[wi].0 != n);
        }
    }
    None
}

/// Walk the recorded predecessor chain from the entry at `i0` back to a
/// seed: the nodes come out meeting-node first, source-seed last.
fn walk_fwd_chain(
    entries: &Vec<Entry>,
    i0: usize,
    Ghost(g): Ghost<Graph>,
    Ghost(exn): Ghost<Set<u64>>,
    Ghost(exe): Ghost<Map<u64, Set<u64>>>,
    Ghost(src): Ghost<Set<u64>>,
) -> (r: Vec<u64>)
    requires
        fwd_entries_wf(entries@, g, exn, exe, src),
        i0 < entries@.len(),
    ensures
        r@.len() >= 1,
        r@.len() == edepth(entries@, i0 as int) + 1,
        r@[0] == entries@[i0 as int].0,
        src.contains(r@[r@.len() - 1]),
        forall|k: int| 0 <= k < r@.len() - 1 ==> step_ok(g, exn, exe, r@[k + 1], #[trigger] r@[k]),
        forall|k: int| 0 <= k < r@.len() ==> !exn.contains(#[trigger] r@[k]),
{
    let mut out: Vec<u64> = Vec::new();
    let mut cur: usize = i0;
    out.push(entries[i0].0);
    while entries[cur].1.is_some()
        invariant
            fwd_entries_wf(entries@, g, exn, exe, src),
            cur < entries@.len(),
            out@.len() >= 1,
            out@.len() + edepth(entries@, cur as int) == edepth(entries@, i0 as int) + 1,
            out@[0] == entries@[i0 as int].0,
            out@[out@.len() - 1] == entries@[cur as int].0,
            forall|k: int|
                0 <= k < out@.len() - 1 ==> step_ok(g, exn, exe, out@[k + 1], #[trigger] out@[k]),
            forall|k: int| 0 <= k < out@.len() ==> !exn.contains(#[trigger] out@[k]),
        decreases cur,
    {
        let pi = entries[cur].1.unwrap();
        out.push(entries[pi].0);
        cur = pi;
    }
    out
}

/// Walk the recorded successor chain from the entry at `i0` forward to a
/// seed: the nodes come out meeting-node first, target-seed last.
fn walk_bwd_chain(
    entries: &Vec<Entry>,
    i0: usize,
    Ghost(g): Ghost<Graph>,
    Ghost(exn): Ghost<Set<u64>>,
    Ghost(exe): Ghost<Map<u64, Set<u64>>>,
    Ghost(tgt): Ghost<Set<u64>>,
) -> (r: Vec<u64>)
    requires
        bwd_entries_wf(entries@, g, exn, exe, tgt),
        i0 < entries@.len(),
    ensures
        r@.len() >= 1,
        r@.len() == edepth(entries@, i0 as int) + 1,
        r@[0] == entries@[i0 as int].0,
        tgt.contains(r@[r@.len() - 1]),
        forall|k: int| 0 <= k < r@.len() - 1 ==> step_ok(g, exn, exe, #[trigger] r@[k], r@[k + 1]),
        forall|k: int| 0 <= k < r@.len() ==> !exn.contains(#[trigger] r@[k]),
{
    let mut out: Vec<u64> = Vec::new();
    let mut cur: usize = i0;
    out.push(entries[i0].0);
    while entries[cur].1.is_some()
        invariant
            bwd_entries_wf(entries@, g, exn, exe, tgt),
            cur < entries@.len(),
            out@.len() >= 1,
            out@.len() + edepth(entries@, cur as int) == edepth(entries@, i0 as int) + 1,
            out@[0] == entries@[i0 as int].0,
            out@[out@.len() - 1] == entries@[cur as int].0,
            forall|k: int|
                0 <= k < out@.len() - 1 ==> step_ok(g, exn, exe, #[trigger] out@[k], out@[k + 1]),
            forall|k: int| 0 <= k < out@.len() ==> !exn.contains(#[trigger] out@[k]),
        decreases cur,
    {
        let pi = entries[cur].1.unwrap();
        out.push(entries[pi].0);
        cur = pi;
    }
    out
}

/// The elements of a vector, last first.
fn reversed(v: &Vec<u64>) -> (r: Vec<u64>)
    ensures
        r@.len() == v@.len(),
        forall|i: int| 0 <= i < v@.len() ==> #[trigger] r@[i] == v@[v@.len() - 1 - i],
{
    let mut r: Vec<u64> = Vec::new();
    let mut k: usize = v.len();
    while k > 0
        invariant
            k <= v@.len(),
            r@.len() == v@.len() - k,
            forall|i: int| 0 <= i < r@.len() ==> #[trigger] r@[i] == v@[v@.len() - 1 - i],
        decreases k,
    {
        k -= 1;
        r.push(v[k]);
    }
    r
}

/// Expand a meeting node into the full answer: the predecessor chain,
/// reversed, then the successor chain.
fn reconstruct_path(
    pred: &Vec<Entry>,
    succ: &Vec<Entry>,
    pi: usize,
    si: usize,
    Ghost(g): Ghost<Graph>,
    Ghost(exn): Ghost<Set<u64>>,
    Ghost(exe): Ghost<Map<u64, Set<u64>>>,
    Ghost(src): Ghost<Set<u64>>,
    Ghost(tgt): Ghost<Set<u64>>,
) -> (r: Vec<u64>)
    requires
        fwd_entries_wf(pred@, g, exn, exe, src),
        bwd_entries_wf(succ@, g, exn, exe, tgt),
        pi < pred@.len(),
        si < succ@.len(),
        pred@[pi as int].0 == succ@[si as int].0,
        src.disjoint(tgt),
    ensures
        path_connects(g, exn, exe, src, tgt, r@),
        r@.len() == edepth(pred@, pi as int) + edepth(succ@, si as int) + 1,
{
    let back = walk_fwd_chain(pred, pi, Ghost(g), Ghost(exn), Ghost(exe), Ghost(src));
    let front = reversed(&back);
    let tail = walk_bwd_chain(succ, si, Ghost(g), Ghost(exn), Ghost(exe), Ghost(tgt));
    let ghost backv = back@;
    let ghost frontv = front@;
    let ghost tailv = tail@;
    let ghost lf = frontv.len() as int;
    let ghost lt = tailv.len() as int;
    let mut r = front;
    let mut j: usize = 1;
    while j < tail.len()
        invariant
            1 <= j <= tailv.len(),
            tail@ == tailv,
            r@ == frontv + tailv.subrange(1, j as int),
        decreases tailv.len() - j,
    {
        r.push(tail[j]);
        proof {
            assert(r@ =~= frontv + tailv.subrange(1, j as int + 1));
        }
        j += 1;
    }
    proof {
        assert(tailv.subrange(1, lt) =~= tailv.subrange(1, tailv.len() as int));
        let rv = r@;
        let n = rv.len() as int;
        assert(n == lf + lt - 1);
        // How the pieces index into the joined sequence.
        assert(forall|i: int| 0 <= i < lf ==> rv[i] == frontv[i]);
        assert(forall|k: int| 1 <= k < lt ==> rv[lf - 1 + k] == tailv[k]);
        assert(frontv[lf - 1] == backv[0]);
        assert(backv[0] == tailv[0]);
        // The endpoints.
        assert(rv[0] == frontv[0]);
        assert(frontv[0] == backv[lf - 1]);
        assert(src.contains(rv[0]));
        if lt == 1 {
            assert(rv[n - 1] == frontv[lf - 1]);
            assert(rv[n - 1] == tailv[0]);
            assert(tgt.contains(tailv[lt - 1]));
        } else {
            assert(rv[n - 1] == tailv[lt - 1]);
        }
        assert(tgt.contains(rv[n - 1]));
        // The answer has at least two nodes: were it one, the meeting node
        // would be both a source and a target seed.
        if n == 1 {
            assert(lf == 1 && lt == 1);
            assert(src.contains(rv[0]) && tgt.contains(rv[0]));
            assert(false);
        }
        // Every consecutive pair is a surviving graph edge.
        assert forall|i: int| 0 <= i < n - 1 implies crate::paths::edge_ok(
            g,
            exe,
            #[trigger] rv[i],
            rv[i + 1],
        ) by {
            if i < lf - 1 {
                let k = lf - 2 - i;
                assert(frontv[i] == backv[lf - 1 - i]);
                assert(frontv[i + 1] == backv[lf - 2 - i]);
                assert(step_ok(g, exn, exe, backv[k + 1], backv[k]));
                assert(rv[i] == frontv[i] && rv[i + 1] == frontv[i + 1]);
            } else {
                let k = i - (lf - 1);
                assert(step_ok(g, exn, exe, tailv[k], tailv[k + 1]));
                if k == 0 {
                    assert(rv[i] == frontv[lf - 1]);
                    assert(rv[i] == tailv[0]);
                } else {
                    assert(rv[i] == tailv[k]);
                }
                assert(rv[i + 1] == tailv[k + 1]);
            }
        }
        // No node of the answer is excluded.
        assert forall|i: int| 0 <= i < n implies !exn.contains(#[trigger] rv[i]) by {
            if i <= lf - 1 {
                assert(rv[i] == frontv[i]);
                assert(frontv[i] == backv[lf - 1 - i]);
            } else {
                assert(rv[i] == tailv[i - (lf - 1)]);
            }
        }
        assert(path_connects(g, exn, exe, src, tgt, rv));
    }
    r
}

/// Seeding keeps the forward list sound.
proof fn lemma_fwd_push_seed(
    s: Seq<Entry>,
    m: u64,
    g: Graph,
    exn: Set<u64>,
    exe: Map<u64, Set<u64>>,
    src: Set<u64>,
)
    requires
        fwd_entries_wf(s, g, exn, exe, src),
        !entry_nodes(s).contains(m),
        src.contains(m),
        g.nodes().contains(m),
        !exn.contains(m),
    ensures
        fwd_entries_wf(s.push((m, Option::None)), g, exn, exe, src),
{
    let t = s.push((m, Option::None));
    assert forall|i: int, j: int| 0 <= i < j < t.len() implies (#[trigger] t[i]).0 != (
    #[trigger] t[j]).0 by {
        if j < s.len() {
            assert(t[i] == s[i] && t[j] == s[j]);
        } else {
            assert(t[i] == s[i]);
            assert(entry_nodes(s).contains(s[i].0));
        }
    }
    assert forall|i: int| #![trigger t[i]] 0 <= i < t.len() implies (match t[i].1 {
        Option::None => src.contains(t[i].0),
        Option::Some(pi) => pi < i && step_ok(g, exn, exe, t[pi as int].0, t[i].0),
    } && g.nodes().contains(t[i].0)) by {
        if i < s.len() {
            assert(t[i] == s[i]);
            if t[i].1 is Some {
                let pi = t[i].1->0;
                assert(t[pi as int] == s[pi as int]);
            }
        }
    }
    assert forall|i: int| 0 <= i < t.len() implies !exn.contains((#[trigger] t[i]).0) by {
        if i < s.len() {
            assert(t[i] == s[i]);
        }
    }
}

/// Discovering a new node over a forward step keeps the forward list sound.
proof fn lemma_fwd_push_step(
    s: Seq<Entry>,
    v: u64,
    pi: usize,
    g: Graph,
    exn: Set<u64>,
    exe: Map<u64, Set<u64>>,
    src: Set<u64>,
)
    requires
        fwd_entries_wf(s, g, exn, exe, src),
        !entry_nodes(s).contains(v),
        (pi as int) < s.len(),
        step_ok(g, exn, exe, s[pi as int].0, v),
        g.nodes().contains(v),
    ensures
        fwd_entries_wf(s.push((v, Option::Some(pi))), g, exn, exe, src),
{
    let t = s.push((v, Option::Some(pi)));
    assert forall|i: int, j: int| 0 <= i < j < t.len() implies (#[trigger] t[i]).0 != (
    #[trigger] t[j]).0 by {
        if j < s.len() {
            assert(t[i] == s[i] && t[j] == s[j]);
        } else {
            assert(t[i] == s[i]);
            assert(entry_nodes(s).contains(s[i].0));
        }
    }
    assert forall|i: int| #![trigger t[i]] 0 <= i < t.len() implies (match t[i].1 {
        Option::None => src.contains(t[i].0),
        Option::Some(qi) => qi < i && step_ok(g, exn, exe, t[qi as int].0, t[i].0),
    } && g.nodes().contains(t[i].0)) by {
        if i < s.len() {
            assert(t[i] == s[i]);
            if t[i].1 is Some {
                let qi = t[i].1->0;
                assert(t[qi as int] == s[qi as int]);
            }
        } else {
            assert(t[pi as int] == s[pi as int]);
        }
    }
    assert forall|i: int| 0 <= i < t.len() implies !exn.contains((#[trigger] t[i]).0) by {
        if i < s.len() {
            assert(t[i] == s[i]);
        }
    }
}

/// Seeding keeps the backward list sound.
proof fn lemma_bwd_push_seed(
    s: Seq<Entry>,
    m: u64,
    g: Graph,
    exn: Set<u64>,
    exe: Map<u64, Set<u64>>,
    tgt: Set<u64>,
)
    requires
        bwd_entries_wf(s, g, exn, exe, tgt),
        !entry_nodes(s).contains(m),
        tgt.contains(m),
        g.nodes().contains(m),
        !exn.contains(m),
    ensures
        bwd_entries_wf(s.push((m, Option::None)), g, exn, exe, tgt),
{
    let t = s.push((m, Option::None));
    assert forall|i: int, j: int| 0 <= i < j < t.len() implies (#[trigger] t[i]).0 != (
    #[trigger] t[j]).0 by {
        if j < s.len() {
            assert(t[i] == s[i] && t[j] == s[j]);
        } else {
            assert(t[i] == s[i]);
            assert(entry_nodes(s).contains(s[i].0));
        }
    }
    assert forall|i: int| #![trigger t[i]] 0 <= i < t.len() implies (match t[i].1 {
        Option::None => tgt.contains(t[i].0),
        Option::Some(pi) => pi < i && step_ok(g, exn, exe, t[i].0, t[pi as int].0),
    } && g.nodes().contains(t[i].0)) by {
        if i < s.len() {
            assert(t[i] == s[i]);
            if t[i].1 is Some {
                let pi = t[i].1->0;
                assert(t[pi as int] == s[pi as int]);
            }
        }
    }
    assert forall|i: int| 0 <= i < t.len() implies !exn.contains((#[trigger] t[i]).0) by {
        if i < s.len() {
            assert(t[i] == s[i]);
        }
    }
}

/// Discovering a new node over a backward step keeps the backward list
/// sound.
proof fn lemma_bwd_push_step(
    s: Seq<Entry>,
    v: u64,
    pi: usize,
    g: Graph,
    exn: Set<u64>,
    exe: Map<u64, Set<u64>>,
    tgt: Set<u64>,
)
    requires
        bwd_entries_wf(s, g, exn, exe, tgt),
        !entry_nodes(s).contains(v),
        (pi as int) < s.len(),
        step_ok(g, exn, exe, v, s[pi as int].0),
        g.nodes().contains(v),
    ensures
        bwd_entries_wf(s.push((v, Option::Some(pi))), g, exn, exe, tgt),
{
    let t = s.push((v, Option::Some(pi)));
    assert forall|i: int, j: int| 0 <= i < j < t.len() implies (#[trigger] t[i]).0 != (
    #[trigger] t[j]).0 by {
        if j < s.len() {
            assert(t[i] == s[i] && t[j] == s[j]);
        } else {
            assert(t[i] == s[i]);
            assert(entry_nodes(s).contains(s[i].0));
        }
    }
    assert forall|i: int| #![trigger t[i]] 0 <= i < t.len() implies (match t[i].1 {
        Option::None => tgt.contains(t[i].0),
        Option::Some(qi) => qi < i && step_ok(g, exn, exe, t[i].0, t[qi as int].0),
    } && g.nodes().contains(t[i].0)) by {
        if i < s.len() {
            assert(t[i] == s[i]);
            if t[i].1 is Some {
                let qi = t[i].1->0;
                assert(t[qi as int] == s[qi as int]);
            }
        } else {
            assert(t[pi as int] == s[pi as int]);
        }
    }
    assert forall|i: int| 0 <= i < t.len() implies !exn.contains((#[trigger] t[i]).0) by {
        if i < s.len() {
            assert(t[i] == s[i]);
        }
    }
}

/// Appending an entry never unexpands an already expanded forward prefix.
proof fn lemma_fwd_closed_push(
    s: Seq<Entry>,
    e: Entry,
    upto: int,
    g: Graph,
    exn: Set<u64>,
    exe: Map<u64, Set<u64>>,
)
    requires
        fwd_closed(s, upto, g, exn, exe),
        0 <= upto <= s.len(),
    ensures
        fwd_closed(s.push(e), upto, g, exn, exe),
{
    let t = s.push(e);
    lemma_entry_nodes_push(s, e);
    assert forall|i: int, v: u64|
        0 <= i < upto && #[trigger] step_ok(g, exn, exe, t[i].0, v) implies entry_nodes(
        t,
    ).contains(v) by {
        assert(t[i] == s[i]);
        assert(step_ok(g, exn, exe, s[i].0, v));
        assert(entry_nodes(s).contains(v));
    }
}

/// Appending an entry never unexpands an already expanded backward prefix.
proof fn lemma_bwd_closed_push(
    s: Seq<Entry>,
    e: Entry,
    upto: int,
    g: Graph,
    exn: Set<u64>,
    exe: Map<u64, Set<u64>>,
)
    requires
        bwd_closed(s, upto, g, exn, exe),
        0 <= upto <= s.len(),
    ensures
        bwd_closed(s.push(e), upto, g, exn, exe),
{
    let t = s.push(e);
    lemma_entry_nodes_push(s, e);
    assert forall|i: int, v: u64|
        0 <= i < upto && #[trigger] step_ok(g, exn, exe, v, t[i].0) implies entry_nodes(
        t,
    ).contains(v) by {
        assert(t[i] == s[i]);
        assert(step_ok(g, exn, exe, v, s[i].0));
        assert(entry_nodes(s).contains(v));
    }
}

/// How many steps a discovery record is from its frontier's seeds: the
/// length in edges of its recorded chain.
pub(crate) open spec fn edepth(s: Seq<Entry>, i: int) -> nat
    decreases i,
{
    if 0 <= i < s.len() {
        match s[i].1 {
            Option::None => 0,
            Option::Some(pi) => if pi < i {
                edepth(s, pi as int) + 1
            } else {
                0
            },
        }
    } else {
        0
    }
}

/// Appending an entry leaves every earlier entry's chain length as it was.
proof fn lemma_edepth_push(s: Seq<Entry>, e: Entry, j: int)
    requires
        0 <= j < s.len(),
    ensures
        edepth(s.push(e), j) == edepth(s, j),
    decreases j,
{
    let t = s.push(e);
    assert(t[j] == s[j]);
    match s[j].1 {
        Option::None => {},
        Option::Some(pi) => {
            if pi < j {
                lemma_edepth_push(s, e, pi as int);
            }
        },
    }
}

/// Appending an entry leaves every earlier chain length as it was.
proof fn lemma_push_depths(s: Seq<Entry>, e: Entry)
    ensures
        forall|j: int| 0 <= j < s.len() ==> edepth(s.push(e), j) == edepth(s, j),
{
    assert forall|j: int| 0 <= j < s.len() implies edepth(s.push(e), j) == edepth(s, j) by {
        lemma_edepth_push(s, e, j);
    }
}

/// A record discovered from the entry at `pi` sits one step deeper.
proof fn lemma_edepth_push_new(s: Seq<Entry>, v: u64, pi: usize)
    requires
        (pi as int) < s.len(),
    ensures
        edepth(s.push((v, Option::Some(pi))), s.len() as int) == edepth(s, pi as int) + 1,
{
    lemma_edepth_push(s, (v, Option::Some(pi)), pi as int);
}

/// Appending a record discovered from a batch entry keeps every depth
/// fact: old chains are untouched, the new chain is one step deeper than
/// the batch, and the batch itself is unchanged.
proof fn lemma_push_depth_facts(s: Seq<Entry>, v: u64, pi: usize, lo: int, hi: int, lvl: int)
    requires
        0 <= lo <= pi < hi <= s.len(),
        depths_le(s, lvl + 1),
        batch_at(s, hi, lvl + 1),
        forall|jj: int| lo <= jj < hi ==> edepth(s, jj) == lvl,
    ensures
        depths_le(s.push((v, Option::Some(pi))), lvl + 1),
        batch_at(s.push((v, Option::Some(pi))), hi, lvl + 1),
        forall|jj: int| lo <= jj < hi ==> edepth(s.push((v, Option::Some(pi))), jj) == lvl,
        edepth(s.push((v, Option::Some(pi))), s.len() as int) == lvl + 1,
{
    let t = s.push((v, Option::Some(pi)));
    lemma_push_depths(s, (v, Option::Some(pi)));
    lemma_edepth_push_new(s, v, pi);
    assert(edepth(s, pi as int) == lvl);
    assert forall|jj: int| 0 <= jj < t.len() implies edepth(t, jj) <= lvl + 1 by {
        if jj < s.len() {
            assert(edepth(t, jj) == edepth(s, jj));
        }
    }
    assert forall|jj: int| hi <= jj < t.len() implies edepth(t, jj) == lvl + 1 by {
        if jj < s.len() {
            assert(edepth(t, jj) == edepth(s, jj));
        }
    }
    assert forall|jj: int| lo <= jj < hi implies edepth(t, jj) == lvl by {
        assert(edepth(t, jj) == edepth(s, jj));
    }
}

/// `n` lies within `k` surviving steps of the source set.
pub(crate) open spec fn near_src(
    g: Graph,
    exn: Set<u64>,
    exe: Map<u64, Set<u64>>,
    src: Set<u64>,
    n: u64,
    k: int,
) -> bool {
    exists|q: Seq<u64>|
        surviving_path(g, exn, exe, q) && src.contains(q[0]) && q.last() == n && q.len() <= k + 1
}

/// `n` lies within `k` surviving steps of the target set.
pub(crate) open spec fn near_tgt(
    g: Graph,
    exn: Set<u64>,
    exe: Map<u64, Set<u64>>,
    tgt: Set<u64>,
    n: u64,
    k: int,
) -> bool {
    exists|q: Seq<u64>|
        surviving_path(g, exn, exe, q) && q[0] == n && tgt.contains(q.last()) && q.len() <= k + 1
}

/// The forward list already holds every node within `lvl` steps of the
/// source set: the breadth-first layers up to `lvl` are complete.
pub(crate) open spec fn fwd_complete(
    s: Seq<Entry>,
    lvl: int,
    g: Graph,
    exn: Set<u64>,
    exe: Map<u64, Set<u64>>,
    src: Set<u64>,
) -> bool {
    forall|n: u64, k: int|
        0 <= k <= lvl && #[trigger] near_src(g, exn, exe, src, n, k) ==> entry_nodes(s).contains(n)
}

/// The backward list already holds every node within `lvl` steps of the
/// target set.
pub(crate) open spec fn bwd_complete(
    s: Seq<Entry>,
    lvl: int,
    g: Graph,
    exn: Set<u64>,
    exe: Map<u64, Set<u64>>,
    tgt: Set<u64>,
) -> bool {
    forall|n: u64, k: int|
        0 <= k <= lvl && #[trigger] near_tgt(g, exn, exe, tgt, n, k) ==> entry_nodes(s).contains(n)
}

/// Every chain on the list is at most `lvl` steps long.
pub(crate) open spec fn depths_le(s: Seq<Entry>, lvl: int) -> bool {
    forall|j: int| 0 <= j < s.len() ==> edepth(s, j) <= lvl
}

/// Every entry from `lo` on sits exactly `lvl` steps deep: the pending
/// batch is one whole breadth-first layer.
pub(crate) open spec fn batch_at(s: Seq<Entry>, lo: int, lvl: int) -> bool {
    forall|j: int| lo <= j < s.len() ==> edepth(s, j) == lvl
}

/// Layer completeness only grows as the list grows.
proof fn lemma_fwd_complete_push(
    s: Seq<Entry>,
    e: Entry,
    lvl: int,
    g: Graph,
    exn: Set<u64>,
    exe: Map<u64, Set<u64>>,
    src: Set<u64>,
)
    requires
        fwd_complete(s, lvl, g, exn, exe, src),
    ensures
        fwd_complete(s.push(e), lvl, g, exn, exe, src),
{
    lemma_entry_nodes_push(s, e);
    assert forall|n: u64, k: int|
        0 <= k <= lvl && #[trigger] near_src(g, exn, exe, src, n, k) implies entry_nodes(
        s.push(e),
    ).contains(n) by {
        assert(entry_nodes(s).contains(n));
    }
}

/// Layer completeness only grows as the list grows.
proof fn lemma_bwd_complete_push(
    s: Seq<Entry>,
    e: Entry,
    lvl: int,
    g: Graph,
    exn: Set<u64>,
    exe: Map<u64, Set<u64>>,
    tgt: Set<u64>,
)
    requires
        bwd_complete(s, lvl, g, exn, exe, tgt),
    ensures
        bwd_complete(s.push(e), lvl, g, exn, exe, tgt),
{
    lemma_entry_nodes_push(s, e);
    assert forall|n: u64, k: int|
        0 <= k <= lvl && #[trigger] near_tgt(g, exn, exe, tgt, n, k) implies entry_nodes(
        s.push(e),
    ).contains(n) by {
        assert(entry_nodes(s).contains(n));
    }
}

/// The heart of the shortest-path argument: while the two lists are
/// disjoint and each side's layers are complete to its level, every
/// connecting path has more than `cf + cb` edges — a shorter one would have
/// a node within `cf` steps of the sources and `cb` steps of the targets,
/// which both lists would already hold.
proof fn lemma_meeting_minimal(
    g: Graph,
    exn: Set<u64>,
    exe: Map<u64, Set<u64>>,
    src: Set<u64>,
    tgt: Set<u64>,
    sp: Seq<Entry>,
    ss: Seq<Entry>,
    cf: int,
    cb: int,
    q: Seq<u64>,
)
    requires
        cf >= 0,
        cb >= 0,
        entry_nodes(sp).disjoint(entry_nodes(ss)),
        fwd_complete(sp, cf, g, exn, exe, src),
        bwd_complete(ss, cb, g, exn, exe, tgt),
        path_connects(g, exn, exe, src, tgt, q),
    ensures
        q.len() >= cf + cb + 2,
{
    if q.len() >= cf + cb + 2 {
        return;
    }
    let e = q.len() - 1;
    let j: int = if e <= cf {
        e
    } else {
        cf
    };
    let front = q.subrange(0, j + 1);
    assert(surviving_path(g, exn, exe, front)) by {
        assert forall|i: int| 0 <= i < front.len() implies !exn.contains(#[trigger] front[i]) by {
            assert(front[i] == q[i]);
        }
        assert forall|i: int| 0 <= i < front.len() - 1 implies edge_ok(
            g,
            exe,
            #[trigger] front[i],
            front[i + 1],
        ) by {
            assert(front[i] == q[i] && front[i + 1] == q[i + 1]);
            assert(edge_ok(g, exe, q[i], q[i + 1]));
        }
    }
    assert(front[0] == q[0] && front.last() == q[j]);
    assert(near_src(g, exn, exe, src, q[j], j));
    assert(entry_nodes(sp).contains(q[j]));
    let tail = q.subrange(j, e + 1);
    assert(surviving_path(g, exn, exe, tail)) by {
        assert forall|i: int| 0 <= i < tail.len() implies !exn.contains(#[trigger] tail[i]) by {
            assert(tail[i] == q[j + i]);
        }
        assert forall|i: int| 0 <= i < tail.len() - 1 implies edge_ok(
            g,
            exe,
            #[trigger] tail[i],
            tail[i + 1],
        ) by {
            assert(tail[i] == q[j + i] && tail[i + 1] == q[j + i + 1]);
            assert(edge_ok(g, exe, q[j + i], q[j + i + 1]));
        }
    }
    assert(tail[0] == q[j] && tail.last() == q[e]);
    assert(near_tgt(g, exn, exe, tgt, q[j], e - j));
    assert(entry_nodes(ss).contains(q[j]));
    assert(false);
}


/// Whether the excluded-imports table suppresses the edge `u -> v`.
fn edge_is_excluded(exe_map: &FxHashMap<u64, FxHashSet<u64>>, u: u64, v: u64) -> (r: bool)
    ensures
        r == edge_excluded(excl_view(exe_map@), u, v),
{
    match edge_map_get(exe_map, u) {
        Option::Some(s) => node_set_contains(s, v),
        Option::None => false,
    }
}

/// Everything the two frontiers keep in lockstep while the search runs:
/// both discovery lists are sound, each membership set mirrors its list,
/// and no node is on both lists.
pub(crate) open spec fn search_state_ok(
    g: Graph,
    exn: Set<u64>,
    exe: Map<u64, Set<u64>>,
    src: Set<u64>,
    tgt: Set<u64>,
    pred: Seq<Entry>,
    pseen: Set<u64>,
    succ: Seq<Entry>,
    sseen: Set<u64>,
) -> bool {
    &&& fwd_entries_wf(pred, g, exn, exe, src)
    &&& bwd_entries_wf(succ, g, exn, exe, tgt)
    &&& pseen == entry_nodes(pred)
    &&& sseen == entry_nodes(succ)
    &&& entry_nodes(pred).disjoint(entry_nodes(succ))
}

/// Expand one forward entry: visit every surviving forward neighbour of
/// the node at `i`, recording the new ones, and stop with the finished
/// path the instant one is already on the backward list.
#[verifier::rlimit(100)]
fn expand_forward_entry(
    graph: &Graph,
    excluded_modules: &FxHashSet<u64>,
    excluded_imports: &FxHashMap<u64, FxHashSet<u64>>,
    pred: &mut Vec<Entry>,
    pred_seen: &mut FxHashSet<u64>,
    succ: &Vec<Entry>,
    succ_seen: &FxHashSet<u64>,
    i: usize,
    fcur: usize,
    flen: usize,
    Ghost(src): Ghost<Set<u64>>,
    Ghost(tgt): Ghost<Set<u64>>,
    Ghost(lvl): Ghost<int>,
) -> (r: Option<Vec<u64>>)
    requires
        graph.wf(),
        src.disjoint(tgt),
        lvl >= 0,
        bwd_entries_wf(succ@, *graph, excluded_modules@, excl_view(excluded_imports@), tgt),
        succ_seen@ == entry_nodes(succ@),
        depths_le(succ@, lvl),
        bwd_complete(succ@, lvl, *graph, excluded_modules@, excl_view(excluded_imports@), tgt),
        fcur <= i < flen <= old(pred)@.len(),
        fwd_entries_wf(old(pred)@, *graph, excluded_modules@, excl_view(excluded_imports@), src),
        old(pred_seen)@ == entry_nodes(old(pred)@),
        entry_nodes(old(pred)@).disjoint(entry_nodes(succ@)),
        old(pred)@.len() <= graph.nodes().len(),
        fwd_closed(old(pred)@, i as int, *graph, excluded_modules@, excl_view(excluded_imports@)),
        depths_le(old(pred)@, lvl + 1),
        batch_at(old(pred)@, flen as int, lvl + 1),
        forall|jj: int| fcur <= jj < flen ==> edepth(old(pred)@, jj) == lvl,
        fwd_complete(
            old(pred)@,
            lvl,
            *graph,
            excluded_modules@,
            excl_view(excluded_imports@),
            src,
        ),
    ensures
        r matches Some(p) ==> search_outcome_ok(
            *graph,
            excluded_modules@,
            excl_view(excluded_imports@),
            src,
            tgt,
            Option::Some(p@),
        ),
        r is None ==> {
            &&& fwd_entries_wf(
                final(pred)@,
                *graph,
                excluded_modules@,
                excl_view(excluded_imports@),
                src,
            )
            &&& final(pred_seen)@ == entry_nodes(final(pred)@)
            &&& entry_nodes(final(pred)@).disjoint(entry_nodes(succ@))
            &&& final(pred)@.len() <= graph.nodes().len()
            &&& flen <= final(pred)@.len()
            &&& (forall|jj: int| 0 <= jj < flen ==> final(pred)@[jj] == old(pred)@[jj])
            &&& fwd_closed(
                final(pred)@,
                i as int + 1,
                *graph,
                excluded_modules@,
                excl_view(excluded_imports@),
            )
            &&& entry_nodes(old(pred)@).subset_of(entry_nodes(final(pred)@))
            &&& depths_le(final(pred)@, lvl + 1)
            &&& batch_at(final(pred)@, flen as int, lvl + 1)
            &&& (forall|jj: int| fcur <= jj < flen ==> edepth(final(pred)@, jj) == lvl)
            &&& fwd_complete(
                final(pred)@,
                lvl,
                *graph,
                excluded_modules@,
                excl_view(excluded_imports@),
                src,
            )
        },
{
    let ghost g = *graph;
    let ghost exn = excluded_modules@;
    let ghost exe = excl_view(excluded_imports@);
    let u = pred[i].0;
        let nbrs = graph.forward_neighbors(u);
        let mut j: usize = 0;
        while j < nbrs.len()
            invariant
                graph.wf(),
                g == *graph,
                exn == excluded_modules@,
                exe == excl_view(excluded_imports@),
                src.disjoint(tgt),
                lvl >= 0,
                bwd_entries_wf(succ@, g, exn, exe, tgt),
                succ_seen@ == entry_nodes(succ@),
                depths_le(succ@, lvl),
                bwd_complete(succ@, lvl, g, exn, exe, tgt),
                j <= nbrs@.len(),
                fcur <= i < flen,
                u == pred@[i as int].0,
                (forall|v: u64| nbrs@.contains(v) <==> g.has_edge(u, v)),
                flen <= old(pred)@.len(),
                flen <= pred@.len(),
                forall|jj: int| 0 <= jj < flen ==> pred@[jj] == old(pred)@[jj],
                fwd_entries_wf(pred@, g, exn, exe, src),
                pred_seen@ == entry_nodes(pred@),
                entry_nodes(pred@).disjoint(entry_nodes(succ@)),
                pred@.len() <= graph.nodes().len(),
                fwd_closed(pred@, i as int, g, exn, exe),
                entry_nodes(old(pred)@).subset_of(entry_nodes(pred@)),
                depths_le(pred@, lvl + 1),
                batch_at(pred@, flen as int, lvl + 1),
                forall|jj: int| fcur <= jj < flen ==> edepth(pred@, jj) == lvl,
                fwd_complete(pred@, lvl, g, exn, exe, src),
                forall|jj: int|
                    0 <= jj < j && step_ok(g, exn, exe, u, #[trigger] nbrs@[jj]) ==> entry_nodes(
                        pred@,
                    ).contains(nbrs@[jj]),
            decreases nbrs@.len() - j,
        {
            let v = nbrs[j];
            let barred = node_set_contains(excluded_modules, v) || edge_is_excluded(
                excluded_imports,
                u,
                v,
            );
            if !barred {
                let ghost pred_before = pred@;
                proof {
                    assert(nbrs@.contains(nbrs@[j as int]));
                    assert(g.has_edge(u, v));
                    assert(!exn.contains(u));
                    assert(step_ok(g, exn, exe, u, v));
                    g.lemma_edges_in_nodes();
                }
                let was_seen = node_set_contains(pred_seen, v);
                if !was_seen {
                    pred.push((v, Some(i)));
                    node_set_insert(pred_seen, v);
                    proof {
                        lemma_entry_nodes_push(pred_before, (v, Option::Some(i)));
                        lemma_fwd_push_step(pred_before, v, i, g, exn, exe, src);
                        lemma_fwd_closed_push(pred_before, (v, Option::Some(i)), i as int, g, exn, exe);
                        lemma_entries_bounded(pred@, g);
                        lemma_push_depth_facts(pred_before, v, i, fcur as int, flen as int, lvl);
                        lemma_fwd_complete_push(pred_before, (v, Option::Some(i)), lvl, g, exn, exe, src);
                    }
                }
                if node_set_contains(succ_seen, v) {
                    proof {
                        assert(entry_nodes(succ@).contains(v));
                        if was_seen {
                            assert(entry_nodes(pred_before).contains(v));
                            assert(false);
                        }
                        assert(entry_nodes(pred@).contains(v));
                    }
                    let pi = find_entry(pred, v).unwrap();
                    let si = find_entry(succ, v).unwrap();
                    let path = reconstruct_path(
                        pred,
                        succ,
                        pi,
                        si,
                        Ghost(g),
                        Ghost(exn),
                        Ghost(exe),
                        Ghost(src),
                        Ghost(tgt),
                    );
                    proof {
                        if (pi as int) < pred@.len() - 1 {
                            assert(pred@[pi as int].0 != pred@[pred@.len() - 1].0);
                            assert(false);
                        }
                        assert(edepth(pred@, pi as int) == lvl + 1);
                        let db = edepth(succ@, si as int);
                        assert(db <= lvl);
                        assert(path@.len() == lvl + 1 + db + 1);
                        lemma_fwd_entry_reachable(pred@, g, exn, exe, src, pi as int);
                        lemma_bwd_entry_reachable(succ@, g, exn, exe, tgt, si as int);
                        assert(frontiers_meet(g, exn, exe, src, tgt));
                        assert forall|q: Seq<u64>|
                            #[trigger] path_connects(g, exn, exe, src, tgt, q) implies q.len()
                            >= path@.len() by {
                            lemma_meeting_minimal(
                                g,
                                exn,
                                exe,
                                src,
                                tgt,
                                pred_before,
                                succ@,
                                lvl,
                                lvl,
                                q,
                            );
                            assert(q.len() >= 2 * lvl + 2);
                        }
                    }
                    return Some(path);
                }
                proof {
                    assert(!entry_nodes(succ@).contains(v));
                    assert forall|x: u64| entry_nodes(pred@).contains(x) implies !entry_nodes(
                        succ@,
                    ).contains(x) by {}
                }
            }
            j += 1;
        }
        proof {
            assert forall|v: u64| step_ok(g, exn, exe, pred@[i as int].0, v) implies entry_nodes(
                pred@,
            ).contains(v) by {
                assert(g.has_edge(u, v));
                assert(nbrs@.contains(v));
                let jj = choose|jj: int| 0 <= jj < nbrs@.len() && nbrs@[jj] == v;
                assert(step_ok(g, exn, exe, u, nbrs@[jj]));
            }
            assert(fwd_closed(pred@, i as int + 1, g, exn, exe));
        }
    None
}

/// Expand the forward entries from `fcur` up to `flen` — the batch fixed at
/// the start of the round, one whole breadth-first layer `lvl` steps deep —
/// discovering their surviving forward neighbours. Stops with the finished
/// path the instant a candidate is already on the backward list, mid-batch
/// included; the alternation keeps both sides' layers complete to `lvl`
/// then, which is what makes that path a shortest one.
#[verifier::rlimit(100)]
fn expand_forward_layer(
    graph: &Graph,
    excluded_modules: &FxHashSet<u64>,
    excluded_imports: &FxHashMap<u64, FxHashSet<u64>>,
    pred: &mut Vec<Entry>,
    pred_seen: &mut FxHashSet<u64>,
    succ: &Vec<Entry>,
    succ_seen: &FxHashSet<u64>,
    fcur: usize,
    flen: usize,
    Ghost(src): Ghost<Set<u64>>,
    Ghost(tgt): Ghost<Set<u64>>,
    Ghost(lvl): Ghost<int>,
) -> (r: Option<Vec<u64>>)
    requires
        graph.wf(),
        src.disjoint(tgt),
        lvl >= 0,
        search_state_ok(
            *graph,
            excluded_modules@,
            excl_view(excluded_imports@),
            src,
            tgt,
            old(pred)@,
            old(pred_seen)@,
            succ@,
            succ_seen@,
        ),
        fcur <= flen,
        flen == old(pred)@.len(),
        old(pred)@.len() <= graph.nodes().len(),
        fwd_closed(
            old(pred)@,
            fcur as int,
            *graph,
            excluded_modules@,
            excl_view(excluded_imports@),
        ),
        depths_le(old(pred)@, lvl),
        batch_at(old(pred)@, fcur as int, lvl),
        fwd_complete(
            old(pred)@,
            lvl,
            *graph,
            excluded_modules@,
            excl_view(excluded_imports@),
            src,
        ),
        depths_le(succ@, lvl),
        bwd_complete(succ@, lvl, *graph, excluded_modules@, excl_view(excluded_imports@), tgt),
    ensures
        r matches Some(p) ==> search_outcome_ok(
            *graph,
            excluded_modules@,
            excl_view(excluded_imports@),
            src,
            tgt,
            Option::Some(p@),
        ),
        r is None ==> search_state_ok(
            *graph,
            excluded_modules@,
            excl_view(excluded_imports@),
            src,
            tgt,
            final(pred)@,
            final(pred_seen)@,
            succ@,
            succ_seen@,
        ),
        r is None ==> flen <= final(pred)@.len() <= graph.nodes().len(),
        r is None ==> fwd_closed(
            final(pred)@,
            flen as int,
            *graph,
            excluded_modules@,
            excl_view(excluded_imports@),
        ),
        r is None ==> entry_nodes(old(pred)@).subset_of(entry_nodes(final(pred)@)),
        r is None ==> depths_le(final(pred)@, lvl + 1),
        r is None ==> batch_at(final(pred)@, flen as int, lvl + 1),
        r is None ==> fwd_complete(
            final(pred)@,
            lvl + 1,
            *graph,
            excluded_modules@,
            excl_view(excluded_imports@),
            src,
        ),
{
    let ghost g = *graph;
    let ghost exn = excluded_modules@;
    let ghost exe = excl_view(excluded_imports@);
    let mut i = fcur;
    while i < flen
        invariant
            graph.wf(),
            g == *graph,
            exn == excluded_modules@,
            exe == excl_view(excluded_imports@),
            src.disjoint(tgt),
            lvl >= 0,
            bwd_entries_wf(succ@, g, exn, exe, tgt),
            succ_seen@ == entry_nodes(succ@),
            depths_le(succ@, lvl),
            bwd_complete(succ@, lvl, g, exn, exe, tgt),
            fcur <= i <= flen,
            flen == old(pred)@.len(),
            flen <= pred@.len(),
            forall|jj: int| 0 <= jj < flen ==> pred@[jj] == old(pred)@[jj],
            fwd_entries_wf(pred@, g, exn, exe, src),
            pred_seen@ == entry_nodes(pred@),
            entry_nodes(pred@).disjoint(entry_nodes(succ@)),
            pred@.len() <= graph.nodes().len(),
            fwd_closed(pred@, i as int, g, exn, exe),
            entry_nodes(old(pred)@).subset_of(entry_nodes(pred@)),
            depths_le(pred@, lvl + 1),
            batch_at(pred@, flen as int, lvl + 1),
            forall|jj: int| fcur <= jj < flen ==> edepth(pred@, jj) == lvl,
            fwd_complete(pred@, lvl, g, exn, exe, src),
        decreases flen - i,
    {
        let ghost pred_in = pred@;
        let found = expand_forward_entry(
            graph,
            excluded_modules,
            excluded_imports,
            pred,
            pred_seen,
            succ,
            succ_seen,
            i,
            fcur,
            flen,
            Ghost(src),
            Ghost(tgt),
            Ghost(lvl),
        );
        match found {
            Some(path) => {
                return Some(path);
            },
            None => {},
        }
        proof {
            assert forall|x: u64| entry_nodes(old(pred)@).contains(x) implies entry_nodes(
                pred@,
            ).contains(x) by {
                assert(entry_nodes(pred_in).contains(x));
            }
        }
        i += 1;
    }
    proof {
        assert forall|n: u64, k: int|
            0 <= k <= lvl + 1 && #[trigger] near_src(g, exn, exe, src, n, k) implies entry_nodes(
            pred@,
        ).contains(n) by {
            let q = choose|q: Seq<u64>|
                surviving_path(g, exn, exe, q) && src.contains(q[0]) && q.last() == n && q.len()
                    <= k + 1;
            if q.len() <= lvl + 1 {
                assert(near_src(g, exn, exe, src, n, q.len() - 1));
                assert(entry_nodes(old(pred)@).contains(n));
            } else {
                let x = q[q.len() - 2];
                let qq = q.drop_last();
                assert(surviving_path(g, exn, exe, qq)) by {
                    assert forall|ii: int| 0 <= ii < qq.len() implies !exn.contains(
                        #[trigger] qq[ii],
                    ) by {
                        assert(qq[ii] == q[ii]);
                    }
                    assert forall|ii: int| 0 <= ii < qq.len() - 1 implies edge_ok(
                        g,
                        exe,
                        #[trigger] qq[ii],
                        qq[ii + 1],
                    ) by {
                        assert(qq[ii] == q[ii] && qq[ii + 1] == q[ii + 1]);
                        assert(edge_ok(g, exe, q[ii], q[ii + 1]));
                    }
                }
                assert(qq[0] == q[0] && qq.last() == x);
                assert(near_src(g, exn, exe, src, x, lvl));
                assert(entry_nodes(old(pred)@).contains(x));
                let jx = choose|jx: int|
                    0 <= jx < old(pred)@.len() && (#[trigger] old(pred)@[jx]).0 == x;
                assert(pred@[jx] == old(pred)@[jx]);
                assert(edge_ok(g, exe, q[q.len() - 2], q[q.len() - 1]));
                assert(step_ok(g, exn, exe, pred@[jx].0, n));
            }
        }
        assert(fwd_complete(pred@, lvl + 1, g, exn, exe, src));
    }
    None
}

/// Expand one backward entry: visit every surviving reverse neighbour of
/// the node at `bi`, recording the new ones, and stop with the finished
/// path the instant one is already on the forward list.
#[verifier::rlimit(100)]
fn expand_backward_entry(
    graph: &Graph,
    excluded_modules: &FxHashSet<u64>,
    excluded_imports: &FxHashMap<u64, FxHashSet<u64>>,
    pred: &Vec<Entry>,
    pred_seen: &FxHashSet<u64>,
    succ: &mut Vec<Entry>,
    succ_seen: &mut FxHashSet<u64>,
    bi: usize,
    bcur: usize,
    blen: usize,
    Ghost(src): Ghost<Set<u64>>,
    Ghost(tgt): Ghost<Set<u64>>,
    Ghost(lvl): Ghost<int>,
) -> (r: Option<Vec<u64>>)
    requires
        graph.wf(),
        src.disjoint(tgt),
        lvl >= 0,
        fwd_entries_wf(pred@, *graph, excluded_modules@, excl_view(excluded_imports@), src),
        pred_seen@ == entry_nodes(pred@),
        depths_le(pred@, lvl + 1),
        fwd_complete(pred@, lvl + 1, *graph, excluded_modules@, excl_view(excluded_imports@), src),
        bcur <= bi < blen <= old(succ)@.len(),
        bwd_entries_wf(old(succ)@, *graph, excluded_modules@, excl_view(excluded_imports@), tgt),
        old(succ_seen)@ == entry_nodes(old(succ)@),
        entry_nodes(pred@).disjoint(entry_nodes(old(succ)@)),
        old(succ)@.len() <= graph.nodes().len(),
        bwd_closed(old(succ)@, bi as int, *graph, excluded_modules@, excl_view(excluded_imports@)),
        depths_le(old(succ)@, lvl + 1),
        batch_at(old(succ)@, blen as int, lvl + 1),
        forall|jj: int| bcur <= jj < blen ==> edepth(old(succ)@, jj) == lvl,
        bwd_complete(
            old(succ)@,
            lvl,
            *graph,
            excluded_modules@,
            excl_view(excluded_imports@),
            tgt,
        ),
    ensures
        r matches Some(p) ==> search_outcome_ok(
            *graph,
            excluded_modules@,
            excl_view(excluded_imports@),
            src,
            tgt,
            Option::Some(p@),
        ),
        r is None ==> {
            &&& bwd_entries_wf(
                final(succ)@,
                *graph,
                excluded_modules@,
                excl_view(excluded_imports@),
                tgt,
            )
            &&& final(succ_seen)@ == entry_nodes(final(succ)@)
            &&& entry_nodes(pred@).disjoint(entry_nodes(final(succ)@))
            &&& final(succ)@.len() <= graph.nodes().len()
            &&& blen <= final(succ)@.len()
            &&& (forall|jj: int| 0 <= jj < blen ==> final(succ)@[jj] == old(succ)@[jj])
            &&& bwd_closed(
                final(succ)@,
                bi as int + 1,
                *graph,
                excluded_modules@,
                excl_view(excluded_imports@),
            )
            &&& entry_nodes(old(succ)@).subset_of(entry_nodes(final(succ)@))
            &&& depths_le(final(succ)@, lvl + 1)
            &&& batch_at(final(succ)@, blen as int, lvl + 1)
            &&& (forall|jj: int| bcur <= jj < blen ==> edepth(final(succ)@, jj) == lvl)
            &&& bwd_complete(
                final(succ)@,
                lvl,
                *graph,
                excluded_modules@,
                excl_view(excluded_imports@),
                tgt,
            )
        },
{
    let ghost g = *graph;
    let ghost exn = excluded_modules@;
    let ghost exe = excl_view(excluded_imports@);
    let u = succ[bi].0;
        let nbrs = graph.reverse_neighbors(u);
        let mut j: usize = 0;
        while j < nbrs.len()
            invariant
                graph.wf(),
                g == *graph,
                exn == excluded_modules@,
                exe == excl_view(excluded_imports@),
                src.disjoint(tgt),
                lvl >= 0,
                fwd_entries_wf(pred@, g, exn, exe, src),
                pred_seen@ == entry_nodes(pred@),
                depths_le(pred@, lvl + 1),
                fwd_complete(pred@, lvl + 1, g, exn, exe, src),
                j <= nbrs@.len(),
                bcur <= bi < blen,
                u == succ@[bi as int].0,
                (forall|x: u64| nbrs@.contains(x) <==> g.has_edge(x, u)),
                blen <= old(succ)@.len(),
                blen <= succ@.len(),
                forall|jj: int| 0 <= jj < blen ==> succ@[jj] == old(succ)@[jj],
                bwd_entries_wf(succ@, g, exn, exe, tgt),
                succ_seen@ == entry_nodes(succ@),
                entry_nodes(pred@).disjoint(entry_nodes(succ@)),
                succ@.len() <= graph.nodes().len(),
                bwd_closed(succ@, bi as int, g, exn, exe),
                entry_nodes(old(succ)@).subset_of(entry_nodes(succ@)),
                depths_le(succ@, lvl + 1),
                batch_at(succ@, blen as int, lvl + 1),
                forall|jj: int| bcur <= jj < blen ==> edepth(succ@, jj) == lvl,
                bwd_complete(succ@, lvl, g, exn, exe, tgt),
                forall|jj: int|
                    0 <= jj < j && step_ok(g, exn, exe, #[trigger] nbrs@[jj], u) ==> entry_nodes(
                        succ@,
                    ).contains(nbrs@[jj]),
            decreases nbrs@.len() - j,
        {
            let w = nbrs[j];
            let barred = node_set_contains(excluded_modules, w) || edge_is_excluded(
                excluded_imports,
                w,
                u,
            );
            if !barred {
                let ghost succ_before = succ@;
                proof {
                    assert(nbrs@.contains(nbrs@[j as int]));
                    assert(g.has_edge(w, u));
                    assert(!exn.contains(u));
                    assert(step_ok(g, exn, exe, w, u));
                    g.lemma_edges_in_nodes();
                }
                let was_seen = node_set_contains(succ_seen, w);
                if !was_seen {
                    succ.push((w, Some(bi)));
                    node_set_insert(succ_seen, w);
                    proof {
                        lemma_entry_nodes_push(succ_before, (w, Option::Some(bi)));
                        lemma_bwd_push_step(succ_before, w, bi, g, exn, exe, tgt);
                        lemma_bwd_closed_push(succ_before, (w, Option::Some(bi)), bi as int, g, exn, exe);
                        lemma_entries_bounded(succ@, g);
                        lemma_push_depth_facts(succ_before, w, bi, bcur as int, blen as int, lvl);
                        lemma_bwd_complete_push(succ_before, (w, Option::Some(bi)), lvl, g, exn, exe, tgt);
                    }
                }
                if node_set_contains(pred_seen, w) {
                    proof {
                        assert(entry_nodes(pred@).contains(w));
                        if was_seen {
                            assert(entry_nodes(succ_before).contains(w));
                            assert(false);
                        }
                        assert(entry_nodes(succ@).contains(w));
                    }
                    let pi = find_entry(pred, w).unwrap();
                    let si = find_entry(succ, w).unwrap();
                    let path = reconstruct_path(
                        pred,
                        succ,
                        pi,
                        si,
                        Ghost(g),
                        Ghost(exn),
                        Ghost(exe),
                        Ghost(src),
                        Ghost(tgt),
                    );
                    proof {
                        if (si as int) < succ@.len() - 1 {
                            assert(succ@[si as int].0 != succ@[succ@.len() - 1].0);
                            assert(false);
                        }
                        assert(edepth(succ@, si as int) == lvl + 1);
                        let dfw = edepth(pred@, pi as int);
                        assert(dfw <= lvl + 1);
                        assert(path@.len() == dfw + lvl + 1 + 1);
                        lemma_fwd_entry_reachable(pred@, g, exn, exe, src, pi as int);
                        lemma_bwd_entry_reachable(succ@, g, exn, exe, tgt, si as int);
                        assert(frontiers_meet(g, exn, exe, src, tgt));
                        assert forall|q: Seq<u64>|
                            #[trigger] path_connects(g, exn, exe, src, tgt, q) implies q.len()
                            >= path@.len() by {
                            lemma_meeting_minimal(
                                g,
                                exn,
                                exe,
                                src,
                                tgt,
                                pred@,
                                succ_before,
                                lvl + 1,
                                lvl,
                                q,
                            );
                            assert(q.len() >= 2 * lvl + 3);
                        }
                    }
                    return Some(path);
                }
                proof {
                    assert(!entry_nodes(pred@).contains(w));
                    assert forall|x: u64| entry_nodes(pred@).contains(x) implies !entry_nodes(
                        succ@,
                    ).contains(x) by {}
                }
            }
            j += 1;
        }
        proof {
            assert forall|v: u64| step_ok(g, exn, exe, v, succ@[bi as int].0) implies entry_nodes(
                succ@,
            ).contains(v) by {
                assert(g.has_edge(v, u));
                assert(nbrs@.contains(v));
                let jj = choose|jj: int| 0 <= jj < nbrs@.len() && nbrs@[jj] == v;
                assert(step_ok(g, exn, exe, nbrs@[jj], u));
            }
            assert(bwd_closed(succ@, bi as int + 1, g, exn, exe));
        }
    None
}

/// Expand the backward entries from `bcur` up to `blen` — one whole layer
/// `lvl` steps deep — discovering the surviving tails of reverse edges.
/// Stops with the finished path the instant a candidate is already on the
/// forward list, whose layers are complete to `lvl + 1` by now.
#[verifier::rlimit(100)]
fn expand_backward_layer(
    graph: &Graph,
    excluded_modules: &FxHashSet<u64>,
    excluded_imports: &FxHashMap<u64, FxHashSet<u64>>,
    pred: &Vec<Entry>,
    pred_seen: &FxHashSet<u64>,
    succ: &mut Vec<Entry>,
    succ_seen: &mut FxHashSet<u64>,
    bcur: usize,
    blen: usize,
    Ghost(src): Ghost<Set<u64>>,
    Ghost(tgt): Ghost<Set<u64>>,
    Ghost(lvl): Ghost<int>,
) -> (r: Option<Vec<u64>>)
    requires
        graph.wf(),
        src.disjoint(tgt),
        lvl >= 0,
        search_state_ok(
            *graph,
            excluded_modules@,
            excl_view(excluded_imports@),
            src,
            tgt,
            pred@,
            pred_seen@,
            old(succ)@,
            old(succ_seen)@,
        ),
        bcur <= blen,
        blen == old(succ)@.len(),
        old(succ)@.len() <= graph.nodes().len(),
        bwd_closed(
            old(succ)@,
            bcur as int,
            *graph,
            excluded_modules@,
            excl_view(excluded_imports@),
        ),
        depths_le(old(succ)@, lvl),
        batch_at(old(succ)@, bcur as int, lvl),
        bwd_complete(
            old(succ)@,
            lvl,
            *graph,
            excluded_modules@,
            excl_view(excluded_imports@),
            tgt,
        ),
        depths_le(pred@, lvl + 1),
        fwd_complete(
            pred@,
            lvl + 1,
            *graph,
            excluded_modules@,
            excl_view(excluded_imports@),
            src,
        ),
    ensures
        r matches Some(p) ==> search_outcome_ok(
            *graph,
            excluded_modules@,
            excl_view(excluded_imports@),
            src,
            tgt,
            Option::Some(p@),
        ),
        r is None ==> search_state_ok(
            *graph,
            excluded_modules@,
            excl_view(excluded_imports@),
            src,
            tgt,
            pred@,
            pred_seen@,
            final(succ)@,
            final(succ_seen)@,
        ),
        r is None ==> blen <= final(succ)@.len() <= graph.nodes().len(),
        r is None ==> bwd_closed(
            final(succ)@,
            blen as int,
            *graph,
            excluded_modules@,
            excl_view(excluded_imports@),
        ),
        r is None ==> entry_nodes(old(succ)@).subset_of(entry_nodes(final(succ)@)),
        r is None ==> depths_le(final(succ)@, lvl + 1),
        r is None ==> batch_at(final(succ)@, blen as int, lvl + 1),
        r is None ==> bwd_complete(
            final(succ)@,
            lvl + 1,
            *graph,
            excluded_modules@,
            excl_view(excluded_imports@),
            tgt,
        ),
{
    let ghost g = *graph;
    let ghost exn = excluded_modules@;
    let ghost exe = excl_view(excluded_imports@);
    let mut bi = bcur;
    while bi < blen
        invariant
            graph.wf(),
            g == *graph,
            exn == excluded_modules@,
            exe == excl_view(excluded_imports@),
            src.disjoint(tgt),
            lvl >= 0,
            fwd_entries_wf(pred@, g, exn, exe, src),
            pred_seen@ == entry_nodes(pred@),
            depths_le(pred@, lvl + 1),
            fwd_complete(pred@, lvl + 1, g, exn, exe, src),
            bcur <= bi <= blen,
            blen == old(succ)@.len(),
            blen <= succ@.len(),
            forall|jj: int| 0 <= jj < blen ==> succ@[jj] == old(succ)@[jj],
            bwd_entries_wf(succ@, g, exn, exe, tgt),
            succ_seen@ == entry_nodes(succ@),
            entry_nodes(pred@).disjoint(entry_nodes(succ@)),
            succ@.len() <= graph.nodes().len(),
            bwd_closed(succ@, bi as int, g, exn, exe),
            entry_nodes(old(succ)@).subset_of(entry_nodes(succ@)),
            depths_le(succ@, lvl + 1),
            batch_at(succ@, blen as int, lvl + 1),
            forall|jj: int| bcur <= jj < blen ==> edepth(succ@, jj) == lvl,
            bwd_complete(succ@, lvl, g, exn, exe, tgt),
        decreases blen - bi,
    {
        let ghost succ_in = succ@;
        let found = expand_backward_entry(
            graph,
            excluded_modules,
            excluded_imports,
            pred,
            pred_seen,
            succ,
            succ_seen,
            bi,
            bcur,
            blen,
            Ghost(src),
            Ghost(tgt),
            Ghost(lvl),
        );
        match found {
            Some(path) => {
                return Some(path);
            },
            None => {},
        }
        proof {
            assert forall|x: u64| entry_nodes(old(succ)@).contains(x) implies entry_nodes(
                succ@,
            ).contains(x) by {
                assert(entry_nodes(succ_in).contains(x));
            }
        }
        bi += 1;
    }
    proof {
        assert forall|n: u64, k: int|
            0 <= k <= lvl + 1 && #[trigger] near_tgt(g, exn, exe, tgt, n, k) implies entry_nodes(
            succ@,
        ).contains(n) by {
            let q = choose|q: Seq<u64>|
                surviving_path(g, exn, exe, q) && q[0] == n && tgt.contains(q.last()) && q.len()
                    <= k + 1;
            if q.len() <= lvl + 1 {
                assert(near_tgt(g, exn, exe, tgt, n, q.len() - 1));
                assert(entry_nodes(old(succ)@).contains(n));
            } else {
                let x = q[1];
                let qq = q.drop_first();
                assert(surviving_path(g, exn, exe, qq)) by {
                    assert forall|ii: int| 0 <= ii < qq.len() implies !exn.contains(
                        #[trigger] qq[ii],
                    ) by {
                        assert(qq[ii] == q[ii + 1]);
                    }
                    assert forall|ii: int| 0 <= ii < qq.len() - 1 implies edge_ok(
                        g,
                        exe,
                        #[trigger] qq[ii],
                        qq[ii + 1],
                    ) by {
                        assert(qq[ii] == q[ii + 1] && qq[ii + 1] == q[ii + 2]);
                        assert(edge_ok(g, exe, q[ii + 1], q[ii + 2]));
                    }
                }
                assert(qq[0] == x && qq.last() == q.last());
                assert(near_tgt(g, exn, exe, tgt, x, lvl));
                assert(entry_nodes(old(succ)@).contains(x));
                let jx = choose|jx: int|
                    0 <= jx < old(succ)@.len() && (#[trigger] old(succ)@[jx]).0 == x;
                assert(succ@[jx] == old(succ)@[jx]);
                assert(edge_ok(g, exe, q[0], q[1]));
                assert(step_ok(g, exn, exe, n, succ@[jx].0));
            }
        }
        assert(bwd_complete(succ@, lvl + 1, g, exn, exe, tgt));
    }
    None
}

/// Compute one shortest import chain from any module in `from_modules` to
/// any module in `to_modules`, honouring the caller's exclusion filters: an
/// excluded module is treated as absent from the graph, and an excluded
/// import suppresses exactly that directed edge. Overlapping endpoint sets
/// are rejected before any traversal; a missing path is a successful
/// `None`, not an error.
#[verifier::loop_isolation(false)]
#[verifier::rlimit(100)]
pub fn find_shortest_path_bidirectional(
    graph: &Graph,
    from_modules: &FxHashSet<ModuleToken>,
    to_modules: &FxHashSet<ModuleToken>,
    excluded_modules: &FxHashSet<ModuleToken>,
    excluded_imports: &FxHashMap<ModuleToken, FxHashSet<ModuleToken>>,
) -> (r: Result<Option<Vec<ModuleToken>>, SearchError>)
    requires
        graph.wf(),
        from_modules@.subset_of(graph.nodes()),
        to_modules@.subset_of(graph.nodes()),
    ensures
        r is Err <==> !from_modules@.disjoint(to_modules@),
        r matches Err(e) ==> e == SearchError::SharedEndpoints,
        r matches Ok(Some(p)) ==> search_outcome_ok(
            *graph,
            excluded_modules@,
            excl_view(excluded_imports@),
            from_modules@,
            to_modules@,
            Option::Some(p@),
        ),
        r matches Ok(None) ==> search_outcome_ok(
            *graph,
            excluded_modules@,
            excl_view(excluded_imports@),
            from_modules@,
            to_modules@,
            Option::None,
        ),
{
    let ghost g = *graph;
    let ghost exn = excluded_modules@;
    let ghost exe = excl_view(excluded_imports@);
    let ghost src = from_modules@;
    let ghost tgt = to_modules@;

    // Input validation: the endpoint sets must not overlap.
    let from_vec = node_set_to_vec(from_modules);
    let mut vi: usize = 0;
    while vi < from_vec.len()
        invariant
            vi <= from_vec@.len(),
            forall|j: int| 0 <= j < vi ==> !tgt.contains(#[trigger] from_vec@[j]),
        decreases from_vec@.len() - vi,
    {
        if node_set_contains(to_modules, from_vec[vi]) {
            proof {
                assert(from_vec@.to_set().contains(from_vec@[vi as int]));
                assert(!src.disjoint(tgt));
            }
            return Err(SearchError::SharedEndpoints);
        }
        vi += 1;
    }
    proof {
        assert forall|x: u64| src.contains(x) implies !tgt.contains(x) by {
            assert(from_vec@.to_set().contains(x));
            let j = choose|j: int| 0 <= j < from_vec@.len() && from_vec@[j] == x;
            assert(!tgt.contains(from_vec@[j]));
        }
        assert(src.disjoint(tgt));
    }

    // Seed the forward side with every source module, the backward side
    // with every target module; a seed has no discoverer.
    let mut pred: Vec<Entry> = Vec::new();
    let mut pred_seen: FxHashSet<u64> = node_set_new();
    proof {
        assert(entry_nodes(pred@) =~= Set::<u64>::empty());
        assert(from_vec@.take(0).to_set() =~= Set::<u64>::empty());
    }
    let mut k: usize = 0;
    while k < from_vec.len()
        invariant
            k <= from_vec@.len(),
            fwd_entries_wf(pred@, g, exn, exe, src),
            pred_seen@ == entry_nodes(pred@),
            entry_nodes(pred@) == from_vec@.take(k as int).to_set().difference(exn),
            forall|jj: int| 0 <= jj < pred@.len() ==> (#[trigger] pred@[jj]).1 is None,
        decreases from_vec@.len() - k,
    {
        let m = from_vec[k];
        let ghost pred0 = pred@;
        if !node_set_contains(excluded_modules, m) {
            proof {
                if entry_nodes(pred@).contains(m) {
                    assert(from_vec@.take(k as int).to_set().contains(m));
                    let j = choose|j: int| 0 <= j < k && #[trigger] from_vec@.take(k as int)[j]
                        == m;
                    assert(from_vec@[j] == from_vec@[k as int]);
                    assert(false);
                }
                assert(from_vec@.to_set().contains(from_vec@[k as int]));
            }
            pred.push((m, None));
            node_set_insert(&mut pred_seen, m);
            proof {
                lemma_entry_nodes_push(pred0, (m, Option::None));
                lemma_fwd_push_seed(pred0, m, g, exn, exe, src);
            }
        }
        proof {
            broadcast use vstd::prelude::Seq::lemma_push_to_set_commute;

            assert(from_vec@.take(k as int + 1) =~= from_vec@.take(k as int).push(
                from_vec@[k as int],
            ));
            assert(entry_nodes(pred@) =~= from_vec@.take(k as int + 1).to_set().difference(exn));
        }
        k += 1;
    }
    proof {
        assert(from_vec@.take(from_vec@.len() as int) =~= from_vec@);
        assert(entry_nodes(pred@) == src.difference(exn));
    }

    let to_vec = node_set_to_vec(to_modules);
    let mut succ: Vec<Entry> = Vec::new();
    let mut succ_seen: FxHashSet<u64> = node_set_new();
    proof {
        assert(entry_nodes(succ@) =~= Set::<u64>::empty());
        assert(to_vec@.take(0).to_set() =~= Set::<u64>::empty());
    }
    let mut h: usize = 0;
    while h < to_vec.len()
        invariant
            h <= to_vec@.len(),
            bwd_entries_wf(succ@, g, exn, exe, tgt),
            succ_seen@ == entry_nodes(succ@),
            entry_nodes(succ@) == to_vec@.take(h as int).to_set().difference(exn),
            forall|jj: int| 0 <= jj < succ@.len() ==> (#[trigger] succ@[jj]).1 is None,
        decreases to_vec@.len() - h,
    {
        let m = to_vec[h];
        let ghost succ0 = succ@;
        if !node_set_contains(excluded_modules, m) {
            proof {
                if entry_nodes(succ@).contains(m) {
                    assert(to_vec@.take(h as int).to_set().contains(m));
                    let j = choose|j: int| 0 <= j < h && #[trigger] to_vec@.take(h as int)[j]
                        == m;
                    assert(to_vec@[j] == to_vec@[h as int]);
                    assert(false);
                }
                assert(to_vec@.to_set().contains(to_vec@[h as int]));
            }
            succ.push((m, None));
            node_set_insert(&mut succ_seen, m);
            proof {
                lemma_entry_nodes_push(succ0, (m, Option::None));
                lemma_bwd_push_seed(succ0, m, g, exn, exe, tgt);
            }
        }
        proof {
            broadcast use vstd::prelude::Seq::lemma_push_to_set_commute;

            assert(to_vec@.take(h as int + 1) =~= to_vec@.take(h as int).push(to_vec@[h as int]));
            assert(entry_nodes(succ@) =~= to_vec@.take(h as int + 1).to_set().difference(exn));
        }
        h += 1;
    }
    proof {
        assert(to_vec@.take(to_vec@.len() as int) =~= to_vec@);
        assert(entry_nodes(succ@) == tgt.difference(exn));
    }

    let n_modules = graph.module_count();
    let ghost mut lvl: int = 0;
    proof {
        lemma_entries_bounded(pred@, g);
        lemma_entries_bounded(succ@, g);
        assert(fwd_complete(pred@, 0, g, exn, exe, src)) by {
            assert forall|n: u64, kk: int|
                0 <= kk <= 0 && #[trigger] near_src(g, exn, exe, src, n, kk) implies entry_nodes(
                pred@,
            ).contains(n) by {
                let q = choose|q: Seq<u64>|
                    surviving_path(g, exn, exe, q) && src.contains(q[0]) && q.last() == n
                        && q.len() <= kk + 1;
                assert(q.len() == 1);
                assert(q.last() == q[0]);
                assert(!exn.contains(q[0]));
                assert(src.difference(exn).contains(n));
            }
        }
        assert(bwd_complete(succ@, 0, g, exn, exe, tgt)) by {
            assert forall|n: u64, kk: int|
                0 <= kk <= 0 && #[trigger] near_tgt(g, exn, exe, tgt, n, kk) implies entry_nodes(
                succ@,
            ).contains(n) by {
                let q = choose|q: Seq<u64>|
                    surviving_path(g, exn, exe, q) && q[0] == n && tgt.contains(q.last())
                        && q.len() <= kk + 1;
                assert(q.len() == 1);
                assert(q.last() == q[0]);
                assert(!exn.contains(q[0]));
                assert(tgt.difference(exn).contains(n));
            }
        }
    }

    // Alternate full layers: the forward side first, then — only if no
    // meeting node surfaced — the backward side. A round that discovers
    // nothing on either side means the frontiers are exhausted.
    let mut fcur: usize = 0;
    let mut bcur: usize = 0;
    loop
        invariant
            search_state_ok(g, exn, exe, src, tgt, pred@, pred_seen@, succ@, succ_seen@),
            src.difference(exn).subset_of(entry_nodes(pred@)),
            tgt.difference(exn).subset_of(entry_nodes(succ@)),
            fcur <= pred@.len(),
            bcur <= succ@.len(),
            pred@.len() <= n_modules,
            succ@.len() <= n_modules,
            fwd_closed(pred@, fcur as int, g, exn, exe),
            bwd_closed(succ@, bcur as int, g, exn, exe),
            lvl >= 0,
            depths_le(pred@, lvl),
            batch_at(pred@, fcur as int, lvl),
            fwd_complete(pred@, lvl, g, exn, exe, src),
            depths_le(succ@, lvl),
            batch_at(succ@, bcur as int, lvl),
            bwd_complete(succ@, lvl, g, exn, exe, tgt),
        decreases 2 * (n_modules as int) + 2 - fcur - bcur,
    {
        let flen = pred.len();
        let blen = succ.len();
        if fcur == flen && bcur == blen {
            proof {
                if frontiers_meet(g, exn, exe, src, tgt) {
                    let m = choose|m: u64|
                        fwd_reaches(g, exn, exe, src, m) && bwd_reaches(g, exn, exe, tgt, m);
                    let p = choose|p: Seq<u64>|
                        walk_ok(g, exn, exe, p) && src.contains(p[0]) && p.last() == m;
                    let q = choose|q: Seq<u64>|
                        walk_ok(g, exn, exe, q) && q[0] == m && tgt.contains(q.last());
                    if p.len() == 1 && q.len() == 1 {
                        assert(src.contains(m) && tgt.contains(m));
                        assert(false);
                    }
                    if p.len() >= 2 {
                        assert(step_ok(g, exn, exe, p[0], p[1]));
                        lemma_fwd_closed_covers(pred@, g, exn, exe, src, p);
                    } else {
                        assert(step_ok(g, exn, exe, q[0], q[1]));
                        assert(src.difference(exn).contains(m));
                    }
                    assert(entry_nodes(pred@).contains(m));
                    if q.len() >= 2 {
                        assert(step_ok(g, exn, exe, q[q.len() - 2], q[q.len() - 1]));
                        lemma_bwd_closed_covers(succ@, g, exn, exe, tgt, q);
                    } else {
                        assert(step_ok(g, exn, exe, p[p.len() - 2], p[p.len() - 1]));
                        assert(tgt.difference(exn).contains(m));
                    }
                    assert(entry_nodes(succ@).contains(m));
                    assert(false);
                }
            }
            return Ok(None);
        }
        let found = expand_forward_layer(
            graph,
            excluded_modules,
            excluded_imports,
            &mut pred,
            &mut pred_seen,
            &succ,
            &succ_seen,
            fcur,
            flen,
            Ghost(src),
            Ghost(tgt),
            Ghost(lvl),
        );
        match found {
            Some(path) => {
                return Ok(Some(path));
            },
            None => {},
        }
        fcur = flen;
        let found_back = expand_backward_layer(
            graph,
            excluded_modules,
            excluded_imports,
            &pred,
            &pred_seen,
            &mut succ,
            &mut succ_seen,
            bcur,
            blen,
            Ghost(src),
            Ghost(tgt),
            Ghost(lvl),
        );
        match found_back {
            Some(path) => {
                return Ok(Some(path));
            },
            None => {},
        }
        bcur = blen;
        proof {
            lvl = lvl + 1;
        }
    }
}

} // verus!
