use hetero_rust::sim::design::{self, DesignBuildContextFn};
use hetero_rust::sim::mecch::{self, MecchBuildContextFn};
use hetero_rust::sim::BuildContextFn;
use hetero_rust::{AdjacencyMatrix, DblpNodeType, HeteroGraph, NodeSet};
use sprs::num_kinds::Pattern;
use sprs::TriMatI;

fn triplets(rows: usize, cols: usize, edges: &[(u32, u32)]) -> TriMatI<Pattern, u32> {
    let r: Vec<u32> = edges.iter().map(|e| e.0).collect();
    let c: Vec<u32> = edges.iter().map(|e| e.1).collect();
    TriMatI::from_triplets((rows, cols), r, c, vec![Pattern; edges.len()])
}

fn small_dblp() -> HeteroGraph {
    let mut g = HeteroGraph::new();
    let s = |x: &str| x.to_string();
    g.insert(s("author"), s("paper"), AdjacencyMatrix::from_triplets(&triplets(3, 2, &[(0, 0), (0, 1), (1, 1)])));
    g.insert(s("paper"), s("author"), AdjacencyMatrix::from_triplets(&triplets(2, 3, &[(0, 0), (1, 0), (1, 1)])));
    g.insert(s("paper"), s("conference"), AdjacencyMatrix::from_triplets(&triplets(2, 2, &[(0, 0), (1, 0)])));
    g.insert(s("conference"), s("paper"), AdjacencyMatrix::from_triplets(&triplets(2, 2, &[(0, 0), (0, 1)])));
    g
}

fn sorted(s: &NodeSet) -> Vec<(u32, u32)> {
    let mut v = s.to_vec();
    v.sort();
    v
}

const A: u32 = 0;
const P: u32 = 1;
const C: u32 = 2;

use DblpNodeType::{Author, Conference, Paper};

#[test]
fn design_contexts_of_one_step() {
    let g = small_dblp();
    let ctx = design::build_context(&g, &[Author, Paper]);
    assert_eq!(ctx.len(), 3);
    assert_eq!(sorted(&ctx[0]), vec![(A, 0), (P, 0), (P, 1)]);
    assert_eq!(sorted(&ctx[1]), vec![(A, 1), (P, 1)]);
    assert_eq!(sorted(&ctx[2]), vec![(A, 2)]);
}

#[test]
fn design_contexts_of_two_steps() {
    let g = small_dblp();
    let ctx = design::build_context(&g, &[Author, Paper, Author]);
    assert_eq!(sorted(&ctx[0]), vec![(A, 0), (A, 1), (P, 0), (P, 1)]);
    assert_eq!(sorted(&ctx[1]), vec![(A, 0), (A, 1), (P, 1)]);
    assert_eq!(sorted(&ctx[2]), vec![(A, 2)]);
}

#[test]
fn mecch_contexts_of_four_steps() {
    let g = small_dblp();
    let ctx = mecch::build_context(&g, &[Author, Paper, Conference, Paper, Author]);
    assert_eq!(ctx.len(), 3);
    assert_eq!(sorted(&ctx[0]), vec![(A, 0), (A, 1), (P, 0), (P, 1), (C, 0)]);
    assert_eq!(sorted(&ctx[1]), vec![(A, 0), (A, 1), (P, 0), (P, 1), (C, 0)]);
    assert_eq!(sorted(&ctx[2]), vec![(A, 2)]);
}

#[test]
fn design_and_mecch_agree() {
    let g = small_dblp();
    for path in [
        vec![Author, Paper],
        vec![Author, Paper, Author],
        vec![Paper, Conference, Paper],
        vec![Author, Paper, Conference, Paper, Author],
        vec![Conference, Paper, Author, Paper, Conference],
    ] {
        let d = design::build_context(&g, &path);
        let m = mecch::build_context(&g, &path);
        assert_eq!(d.len(), m.len());
        for (x, y) in d.iter().zip(m.iter()) {
            assert_eq!(sorted(x), sorted(y));
        }
    }
}

#[test]
fn design_keeps_neighbours_without_a_row() {
    // Paper 2 is written by author 0 but has no row of its own.
    let mut g = small_dblp();
    let s = |x: &str| x.to_string();
    g.insert(s("author"), s("paper"), AdjacencyMatrix::from_triplets(&triplets(3, 3, &[(0, 0), (0, 2)])));
    let path = [Author, Paper, Conference, Paper, Author];
    let d = design::build_context(&g, &path);
    assert_eq!(sorted(&d[0]), vec![(A, 0), (A, 1), (P, 0), (P, 1), (P, 2), (C, 0)]);
    let m = mecch::build_context(&g, &path);
    assert_eq!(sorted(&m[0]), sorted(&d[0]));
    let d2 = design::build_context(&g, &[Author, Paper, Author]);
    assert_eq!(sorted(&d2[0]), vec![(A, 0), (P, 0), (P, 2)]);
}

#[test]
fn build_context_trait_impls_agree() {
    let g = small_dblp();
    let path = [Paper, Author, Paper];
    let d = <DesignBuildContextFn as BuildContextFn<DblpNodeType>>::build_context(&g, &path);
    let m = <MecchBuildContextFn as BuildContextFn<DblpNodeType>>::build_context(&g, &path);
    assert_eq!(d.len(), 2);
    for (x, y) in d.iter().zip(m.iter()) {
        assert_eq!(sorted(x), sorted(y));
    }
    assert_eq!(sorted(&d[1]), vec![(A, 0), (A, 1), (P, 0), (P, 1)]);
}

#[test]
fn node_set_operations() {
    let mut s = NodeSet::new();
    assert_eq!(s.len(), 0);
    assert!(s.insert((1, 2)));
    assert!(!s.insert((1, 2)));
    assert!(s.contains((1, 2)));
    assert!(!s.contains((2, 1)));
    let mut t = NodeSet::new();
    t.insert((3, 3));
    t.insert((1, 2));
    s.extend_with(&t);
    assert_eq!(s.len(), 2);
    let d = s.duplicate();
    assert_eq!(sorted(&d), vec![(1, 2), (3, 3)]);
}

#[test]
fn node_sets_compare_by_their_nodes() {
    let mut s = NodeSet::new();
    s.insert((1, 2));
    s.insert((3, 3));
    let mut t = NodeSet::new();
    t.insert((3, 3));
    assert!(!s.same_as(&t));
    assert!(!t.same_as(&s));
    t.insert((1, 2));
    assert!(s.same_as(&t));
    assert!(NodeSet::new().same_as(&NodeSet::new()));
}

#[test]
fn a_longer_metapath_only_adds_nodes() {
    let g = small_dblp();
    let short = design::build_context(&g, &[Author, Paper, Conference]);
    let long = design::build_context(&g, &[Author, Paper, Conference, Paper, Author]);
    assert_eq!(short.len(), long.len());
    for (a, b) in short.iter().zip(long.iter()) {
        for x in a.to_vec() {
            assert!(b.contains(x));
        }
    }
    assert_eq!(sorted(&short[1]), vec![(A, 1), (P, 1), (C, 0)]);
    assert_eq!(sorted(&long[1]), vec![(A, 0), (A, 1), (P, 0), (P, 1), (C, 0)]);
}

#[test]
fn an_added_edge_only_adds_nodes() {
    let g = small_dblp();
    let mut g2 = HeteroGraph::new();
    let s = |x: &str| x.to_string();
    g2.insert(s("author"), s("paper"), AdjacencyMatrix::from_triplets(&triplets(3, 2, &[(0, 0), (0, 1), (1, 1), (2, 0)])));
    g2.insert(s("paper"), s("author"), AdjacencyMatrix::from_triplets(&triplets(2, 3, &[(0, 0), (1, 0), (1, 1)])));
    let path = [Author, Paper, Author];
    let before = design::build_context(&g, &path);
    let after = design::build_context(&g2, &path);
    for (a, b) in before.iter().zip(after.iter()) {
        for x in a.to_vec() {
            assert!(b.contains(x));
        }
    }
    assert_eq!(sorted(&before[2]), vec![(A, 2)]);
    assert_eq!(sorted(&after[2]), vec![(A, 0), (A, 2), (P, 0)]);
}

#[test]
fn trait_impls_say_when_they_apply() {
    let g = small_dblp();
    let inside = [Author, Paper, Author];
    let outside = [Author, Conference];
    assert!(<DesignBuildContextFn as BuildContextFn<DblpNodeType>>::check_can_build(&g, &inside));
    assert!(<MecchBuildContextFn as BuildContextFn<DblpNodeType>>::check_can_build(&g, &inside));
    assert!(!<DesignBuildContextFn as BuildContextFn<DblpNodeType>>::check_can_build(&g, &outside));
    assert!(!<MecchBuildContextFn as BuildContextFn<DblpNodeType>>::check_can_build(&g, &outside));
}

#[test]
fn node_rows_of_a_metapath() {
    let g = small_dblp();
    let rows = hetero_rust::sim::get_node_rows(&g, &[Author, Paper, Conference, Paper, Author]);
    assert_eq!(rows, vec![(A, 3), (P, 2), (C, 2)]);
    let rows = hetero_rust::sim::get_node_rows(&g, &[Paper, Author]);
    assert_eq!(rows, vec![(P, 2)]);
}

#[test]
fn feature_sizes_of_a_metapath() {
    let g = small_dblp();
    let path = [Author, Paper, Conference, Paper, Author];
    let rows = hetero_rust::sim::get_node_rows(&g, &path);
    let sizes = hetero_rust::sim::feature_sizes(&path, &rows);
    assert_eq!(sizes, Some(vec![(A, 3), (P, 2), (C, 2)]));
    // The last type of this metapath starts no step.
    let path = [Author, Paper];
    let rows = hetero_rust::sim::get_node_rows(&g, &path);
    assert_eq!(hetero_rust::sim::feature_sizes(&path, &rows), None);
}

#[test]
fn single_node_updates_are_idempotent_and_commute() {
    let g = small_dblp();
    let path = [Author, Paper, Author];
    let mut once = NodeSet::new();
    mecch::build_context_for_single_node(&g, &path, &mut once, 0);
    let mut twice = NodeSet::new();
    mecch::build_context_for_single_node(&g, &path, &mut twice, 0);
    mecch::build_context_for_single_node(&g, &path, &mut twice, 0);
    assert!(once.same_as(&twice));
    let mut vw = NodeSet::new();
    mecch::build_context_for_single_node(&g, &path, &mut vw, 0);
    mecch::build_context_for_single_node(&g, &path, &mut vw, 1);
    let mut wv = NodeSet::new();
    mecch::build_context_for_single_node(&g, &path, &mut wv, 1);
    mecch::build_context_for_single_node(&g, &path, &mut wv, 0);
    assert!(vw.same_as(&wv));
    assert_eq!(sorted(&vw), vec![(A, 0), (A, 1), (P, 0), (P, 1)]);
}
