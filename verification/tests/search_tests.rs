use import_paths::find_shortest_path_bidirectional;
use import_paths::graph::Graph;
use import_paths::ModuleToken;
use import_paths::SearchError;
use rustc_hash::FxHashMap;
use rustc_hash::FxHashSet;

const A: ModuleToken = 1;
const B: ModuleToken = 2;
const C: ModuleToken = 3;
const D: ModuleToken = 4;
const E: ModuleToken = 5;

fn diamond() -> Graph {
    let mut g = Graph::new();
    g.add_import(A, B);
    g.add_import(B, D);
    g.add_import(A, C);
    g.add_import(C, D);
    g
}

fn set_of(items: &[ModuleToken]) -> FxHashSet<ModuleToken> {
    let mut s = FxHashSet::default();
    for &m in items {
        s.insert(m);
    }
    s
}

fn no_excluded_edges() -> FxHashMap<ModuleToken, FxHashSet<ModuleToken>> {
    FxHashMap::default()
}

#[test]
fn diamond_has_length_three_path() {
    let g = diamond();
    let r = find_shortest_path_bidirectional(
        &g,
        &set_of(&[A]),
        &set_of(&[D]),
        &set_of(&[]),
        &no_excluded_edges(),
    );
    let path = r.expect("no error expected").expect("a path exists");
    assert_eq!(path.len(), 3);
    assert_eq!(path[0], A);
    assert_eq!(path[2], D);
    assert!(path[1] == B || path[1] == C);
}

#[test]
fn excluded_edge_forces_the_other_branch() {
    let g = diamond();
    let mut excluded_imports = FxHashMap::default();
    excluded_imports.insert(B, set_of(&[D]));
    let r = find_shortest_path_bidirectional(
        &g,
        &set_of(&[A]),
        &set_of(&[D]),
        &set_of(&[]),
        &excluded_imports,
    );
    let path = r.expect("no error expected").expect("a path exists");
    assert_eq!(path, vec![A, C, D]);
}

#[test]
fn excluded_nodes_block_every_path() {
    let g = diamond();
    let r = find_shortest_path_bidirectional(
        &g,
        &set_of(&[A]),
        &set_of(&[D]),
        &set_of(&[B, C]),
        &no_excluded_edges(),
    );
    assert_eq!(r, Ok(None));
}

#[test]
fn shared_endpoints_are_rejected() {
    let g = diamond();
    let r = find_shortest_path_bidirectional(
        &g,
        &set_of(&[A]),
        &set_of(&[A]),
        &set_of(&[]),
        &no_excluded_edges(),
    );
    assert_eq!(r, Err(SearchError::SharedEndpoints));
}

#[test]
fn overlapping_larger_sets_are_rejected() {
    let g = diamond();
    let r = find_shortest_path_bidirectional(
        &g,
        &set_of(&[A, B]),
        &set_of(&[B, D]),
        &set_of(&[]),
        &no_excluded_edges(),
    );
    assert_eq!(r, Err(SearchError::SharedEndpoints));
}

#[test]
fn direct_edge_is_a_two_node_path() {
    let g = diamond();
    let r = find_shortest_path_bidirectional(
        &g,
        &set_of(&[A]),
        &set_of(&[B]),
        &set_of(&[]),
        &no_excluded_edges(),
    );
    assert_eq!(r, Ok(Some(vec![A, B])));
}

#[test]
fn no_path_against_edge_direction() {
    let g = diamond();
    let r = find_shortest_path_bidirectional(
        &g,
        &set_of(&[D]),
        &set_of(&[A]),
        &set_of(&[]),
        &no_excluded_edges(),
    );
    assert_eq!(r, Ok(None));
}

#[test]
fn chain_is_followed_in_full() {
    let mut g = Graph::new();
    g.add_import(A, B);
    g.add_import(B, C);
    g.add_import(C, D);
    g.add_import(D, E);
    let r = find_shortest_path_bidirectional(
        &g,
        &set_of(&[A]),
        &set_of(&[E]),
        &set_of(&[]),
        &no_excluded_edges(),
    );
    assert_eq!(r, Ok(Some(vec![A, B, C, D, E])));
}

#[test]
fn excluding_an_edge_leaves_the_reverse_edge_intact() {
    let mut g = Graph::new();
    g.add_import(A, B);
    g.add_import(B, A);
    let mut excluded_imports = FxHashMap::default();
    excluded_imports.insert(A, set_of(&[B]));
    let forward = find_shortest_path_bidirectional(
        &g,
        &set_of(&[A]),
        &set_of(&[B]),
        &set_of(&[]),
        &excluded_imports,
    );
    assert_eq!(forward, Ok(None));
    let reverse = find_shortest_path_bidirectional(
        &g,
        &set_of(&[B]),
        &set_of(&[A]),
        &set_of(&[]),
        &excluded_imports,
    );
    assert_eq!(reverse, Ok(Some(vec![B, A])));
}

#[test]
fn excluding_a_node_removes_inbound_and_outbound_edges() {
    let mut g = Graph::new();
    g.add_import(A, C);
    g.add_import(C, B);
    let r = find_shortest_path_bidirectional(
        &g,
        &set_of(&[A]),
        &set_of(&[B]),
        &set_of(&[C]),
        &no_excluded_edges(),
    );
    assert_eq!(r, Ok(None));
}

#[test]
fn identical_calls_give_identical_results() {
    let g = diamond();
    let from = set_of(&[A]);
    let to = set_of(&[D]);
    let excluded_modules = set_of(&[]);
    let excluded_imports = no_excluded_edges();
    let first =
        find_shortest_path_bidirectional(&g, &from, &to, &excluded_modules, &excluded_imports);
    let second =
        find_shortest_path_bidirectional(&g, &from, &to, &excluded_modules, &excluded_imports);
    assert_eq!(first, second);
}

#[test]
fn several_sources_and_targets_take_the_shortest_link() {
    let mut g = Graph::new();
    g.add_import(A, C);
    g.add_import(C, D);
    g.add_import(B, E);
    let r = find_shortest_path_bidirectional(
        &g,
        &set_of(&[A, B]),
        &set_of(&[D, E]),
        &set_of(&[]),
        &no_excluded_edges(),
    );
    let path = r.expect("no error expected").expect("a path exists");
    assert_eq!(path, vec![B, E]);
}

#[test]
fn unrelated_exclusions_do_not_hide_a_path() {
    let g = diamond();
    let mut excluded_imports = FxHashMap::default();
    excluded_imports.insert(D, set_of(&[A]));
    let r = find_shortest_path_bidirectional(
        &g,
        &set_of(&[A]),
        &set_of(&[D]),
        &set_of(&[E]),
        &excluded_imports,
    );
    let path = r.expect("no error expected").expect("a path exists");
    assert_eq!(path.len(), 3);
}

#[test]
fn excluding_a_source_module_blocks_paths_out_of_it() {
    let mut g = Graph::new();
    g.add_import(A, B);
    let r = find_shortest_path_bidirectional(
        &g,
        &set_of(&[A]),
        &set_of(&[B]),
        &set_of(&[A]),
        &no_excluded_edges(),
    );
    assert_eq!(r, Ok(None));
}

#[test]
fn excluding_a_target_module_blocks_paths_into_it() {
    let mut g = Graph::new();
    g.add_import(A, B);
    let r = find_shortest_path_bidirectional(
        &g,
        &set_of(&[A]),
        &set_of(&[B]),
        &set_of(&[B]),
        &no_excluded_edges(),
    );
    assert_eq!(r, Ok(None));
}
