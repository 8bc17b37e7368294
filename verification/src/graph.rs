//! The immutable directed graph a search runs over: forward adjacency
//! (which modules a module imports) and reverse adjacency (which modules
//! import it), kept in mirror so that neighbours can be looked up in both
//! directions in O(1) amortized time.

use vstd::prelude::*;
use crate::ModuleToken;
use rustc_hash::FxHashMap;
use rustc_hash::FxHashSet;
use crate::sets::edge_map_get;
use crate::sets::edge_map_insert;
use crate::sets::edge_map_new;
use crate::sets::edge_map_remove;
use crate::sets::node_set_insert;
use crate::sets::node_set_new;
use crate::sets::node_set_to_vec;

verus! {

/// A dependency graph over module tokens. `modules` lists every node once,
/// and the two hash maps hold one entry per node, mirroring each other.
pub struct Graph {
    modules: Vec<u64>,
    imports: FxHashMap<u64, FxHashSet<u64>>,
    reverse_imports: FxHashMap<u64, FxHashSet<u64>>,
}

impl Graph {
    /// The set of modules the graph knows.
    pub closed spec fn nodes(self) -> Set<u64> {
        self.imports@.dom()
    }

    /// Whether the graph holds the directed edge `u -> v`
    /// ("`u` imports `v`").
    pub closed spec fn has_edge(self, u: u64, v: u64) -> bool {
        self.imports@.dom().contains(u) && self.imports@[u]@.contains(v)
    }

    /// Internal consistency: the module list names the key set exactly once
    /// each, both maps share that key set, every edge endpoint is a known
    /// module, and the reverse map mirrors the forward map.
    pub closed spec fn wf(self) -> bool {
        &&& self.reverse_imports@.dom() == self.imports@.dom()
        &&& self.modules@.no_duplicates()
        &&& self.modules@.to_set() == self.imports@.dom()
        &&& (forall|u: u64, v: u64| #[trigger] self.has_edge(u, v) ==> self.imports@.dom().contains(
            v,
        ))
        &&& (forall|u: u64, v: u64|
            self.reverse_imports@.dom().contains(v) && #[trigger] self.reverse_imports@[v]@.contains(
                u,
            ) ==> self.has_edge(u, v))
        &&& (forall|u: u64, v: u64| #[trigger] self.has_edge(u, v)
            ==> self.reverse_imports@[v]@.contains(u))
    }

    /// Every edge runs between known modules.
    pub proof fn lemma_edges_in_nodes(self)
        requires
            self.wf(),
        ensures
            forall|u: u64, v: u64| #[trigger] self.has_edge(u, v) ==> self.nodes().contains(u)
                && self.nodes().contains(v),
    {
    }

    /// A graph holds finitely many modules.
    pub proof fn lemma_nodes_finite(self)
        requires
            self.wf(),
        ensures
            self.nodes().finite(),
    {
        broadcast use vstd::seq_lib::seq_to_set_is_finite;

    }

    /// A fresh graph: no modules, no edges.
    pub fn new() -> (g: Graph)
        ensures
            g.wf(),
            g.nodes() == Set::<u64>::empty(),
            forall|u: u64, v: u64| !g.has_edge(u, v),
    {
        let g = Graph { modules: Vec::new(), imports: edge_map_new(), reverse_imports: edge_map_new() };
        proof {
            assert(g.modules@.to_set() =~= g.imports@.dom());
        }
        g
    }

    /// Record a module; a module already present is left as it is. No edge
    /// is added or removed.
    pub fn add_module(&mut self, m: ModuleToken)
        requires
            old(self).wf(),
        ensures
            final(self).wf(),
            final(self).nodes() == old(self).nodes().insert(m),
            forall|u: u64, v: u64| #[trigger] final(self).has_edge(u, v) <==> old(self).has_edge(
                u,
                v,
            ),
    {
        let present = edge_map_get(&self.imports, m).is_some();
        if !present {
            self.modules.push(m);
            edge_map_insert(&mut self.imports, m, node_set_new());
            edge_map_insert(&mut self.reverse_imports, m, node_set_new());
        }
        proof {
            broadcast use vstd::prelude::Seq::lemma_push_to_set_commute;

            assert(self.nodes() =~= old(self).nodes().insert(m));
            assert(self.modules@.to_set() =~= self.imports@.dom());
            if !present {
                assert forall|i: int| 0 <= i < old(self).modules@.len() implies old(
                    self,
                ).modules@[i] != m by {
                    if old(self).modules@[i] == m {
                        assert(old(self).modules@.to_set().contains(m));
                    }
                }
                assert(self.modules@.no_duplicates());
            }
            assert forall|u: u64, v: u64| #[trigger] self.has_edge(u, v) implies old(
                self,
            ).has_edge(u, v) by {
                if u == m && !present {
                    assert(self.imports@[u]@ =~= Set::<u64>::empty());
                }
            }
            assert(final(self).wf());
        }
    }

    /// Record the directed import `importer -> imported`, adding either
    /// module first if it is new. Every other edge is untouched.
    pub fn add_import(&mut self, importer: ModuleToken, imported: ModuleToken)
        requires
            old(self).wf(),
        ensures
            final(self).wf(),
            final(self).nodes() == old(self).nodes().insert(importer).insert(imported),
            forall|u: u64, v: u64| #[trigger] final(self).has_edge(u, v) <==> (old(self).has_edge(
                u,
                v,
            ) || (u == importer && v == imported)),
    {
        self.add_module(importer);
        self.add_module(imported);
        let ghost mid = *self;
        let fwd_opt = edge_map_remove(&mut self.imports, importer);
        let mut fwd = fwd_opt.unwrap();
        node_set_insert(&mut fwd, imported);
        edge_map_insert(&mut self.imports, importer, fwd);
        let rev_opt = edge_map_remove(&mut self.reverse_imports, imported);
        let mut rev = rev_opt.unwrap();
        node_set_insert(&mut rev, importer);
        edge_map_insert(&mut self.reverse_imports, imported, rev);
        proof {
            assert(self.imports@.dom() =~= mid.imports@.dom());
            assert(self.reverse_imports@.dom() =~= mid.reverse_imports@.dom());
            assert(self.nodes() =~= old(self).nodes().insert(importer).insert(imported));
            assert(self.modules@.to_set() =~= self.imports@.dom());
            assert forall|u: u64, v: u64| #[trigger] self.has_edge(u, v) <==> (mid.has_edge(u, v)
                || (u == importer && v == imported)) by {
                assert(self.imports@[importer]@ =~= mid.imports@[importer]@.insert(imported));
            }
            assert forall|u: u64, v: u64|
                self.reverse_imports@.dom().contains(v)
                    && #[trigger] self.reverse_imports@[v]@.contains(u) implies self.has_edge(
                u,
                v,
            ) by {
                assert(self.reverse_imports@[imported]@ =~= mid.reverse_imports@[
                    imported
                ]@.insert(importer));
            }
            assert forall|u: u64, v: u64| #[trigger] self.has_edge(u, v) implies self.reverse_imports@[
                v
            ]@.contains(u) by {
                assert(self.reverse_imports@[imported]@ =~= mid.reverse_imports@[
                    imported
                ]@.insert(importer));
            }
            assert(final(self).wf());
        }
    }

    /// How many modules the graph holds.
    pub fn module_count(&self) -> (r: usize)
        requires
            self.wf(),
        ensures
            r == self.nodes().len(),
    {
        proof {
            self.modules@.unique_seq_to_set();
        }
        self.modules.len()
    }

    /// The modules `u` imports, each exactly once, in an unspecified order.
    pub fn forward_neighbors(&self, u: ModuleToken) -> (r: Vec<ModuleToken>)
        requires
            self.wf(),
            self.nodes().contains(u),
        ensures
            forall|v: u64| r@.contains(v) <==> self.has_edge(u, v),
            r@.no_duplicates(),
    {
        let s = edge_map_get(&self.imports, u).unwrap();
        node_set_to_vec(s)
    }

    /// The modules that import `v`, each exactly once, in an unspecified
    /// order.
    pub fn reverse_neighbors(&self, v: ModuleToken) -> (r: Vec<ModuleToken>)
        requires
            self.wf(),
            self.nodes().contains(v),
        ensures
            forall|u: u64| r@.contains(u) <==> self.has_edge(u, v),
            r@.no_duplicates(),
    {
        let s = edge_map_get(&self.reverse_imports, v).unwrap();
        let r = node_set_to_vec(s);
        proof {
            assert forall|u: u64| r@.contains(u) implies self.has_edge(u, v) by {
                assert(r@.to_set().contains(u));
            }
            assert forall|u: u64| self.has_edge(u, v) implies r@.contains(u) by {
                assert(self.reverse_imports@[v]@.contains(u));
                assert(r@.to_set().contains(u));
            }
        }
        r
    }
}

} // verus!
