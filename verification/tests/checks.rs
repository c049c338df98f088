use hetero_rust::metapath::count_metapath_memory_usage_checked;
use hetero_rust::sim::design_agg::check_features_cover;
use hetero_rust::sim::{
    check_contexts_buildable, check_path_in_graph, check_reach_defined,
    check_reach_defined_everywhere,
};
use hetero_rust::{AdjacencyMatrix, DblpNodeType, FeatureMap, HeteroGraph, Metapath};
use sprs::num_kinds::Pattern;
use sprs::TriMatI;

fn triplets(rows: usize, cols: usize, edges: &[(u32, u32)]) -> TriMatI<Pattern, u32> {
    let r: Vec<u32> = edges.iter().map(|e| e.0).collect();
    let c: Vec<u32> = edges.iter().map(|e| e.1).collect();
    TriMatI::from_triplets((rows, cols), r, c, vec![Pattern; edges.len()])
}

fn small_dblp() -> HeteroGraph {
    let mut g = HeteroGraph::new();
    let s = |x: &str| x.to_string();
    g.insert(s("author"), s("paper"), AdjacencyMatrix::from_triplets(&triplets(3, 2, &[(0, 0), (0, 1), (1, 1)])));
    g.insert(s("paper"), s("author"), AdjacencyMatrix::from_triplets(&triplets(2, 3, &[(0, 0), (1, 0), (1, 1)])));
    g.insert(s("paper"), s("conference"), AdjacencyMatrix::from_triplets(&triplets(2, 2, &[(0, 0), (1, 0)])));
    g.insert(s("conference"), s("paper"), AdjacencyMatrix::from_triplets(&triplets(2, 2, &[(0, 0), (0, 1)])));
    g
}

fn names(parts: &[&str]) -> Vec<String> {
    parts.iter().map(|p| p.to_string()).collect()
}

use DblpNodeType::{Author, Conference, Paper, Term};

#[test]
fn checked_memory_usage_matches() {
    let g = small_dblp();
    let m = Metapath::from(names(&["author", "paper", "conference", "paper", "author"]));
    assert_eq!(count_metapath_memory_usage_checked(&g, &m), Some(36));
}

#[test]
fn checked_memory_usage_refuses_missing_matrix() {
    let g = small_dblp();
    let m = Metapath::from(names(&["author", "term"]));
    assert_eq!(count_metapath_memory_usage_checked(&g, &m), None);
    let m = Metapath::from(names(&["author"]));
    assert_eq!(count_metapath_memory_usage_checked(&g, &m), None);
}

#[test]
fn checked_memory_usage_refuses_a_last_step_outside_its_matrix() {
    // Author 0 wrote paper 2, which has no row in the paper-author matrix.
    let mut g = small_dblp();
    g.insert("author".to_string(), "paper".to_string(), AdjacencyMatrix::from_triplets(&triplets(1, 3, &[(0, 2)])));
    let m = Metapath::from(names(&["author", "paper", "author"]));
    assert_eq!(count_metapath_memory_usage_checked(&g, &m), None);
    // Longer paths count nothing past a matrix.
    let m = Metapath::from(names(&["author", "paper", "conference", "paper", "author"]));
    assert_eq!(count_metapath_memory_usage_checked(&g, &m), Some(0));
}

#[test]
fn checked_memory_usage_refuses_overflow() {
    // A complete bipartite graph between 2^16 authors and 2^16 papers has
    // 2^48 walks of three steps starting at each author.
    let n: u32 = 1 << 12;
    let mut edges = Vec::new();
    for a in 0..n {
        for p in 0..16u32 {
            edges.push((a, p));
        }
    }
    let mut back = Vec::new();
    for p in 0..16u32 {
        for a in 0..n {
            back.push((p, a));
        }
    }
    let mut g = HeteroGraph::new();
    g.insert("author".to_string(), "paper".to_string(), AdjacencyMatrix::from_triplets(&triplets(n as usize, 16, &edges)));
    g.insert("paper".to_string(), "author".to_string(), AdjacencyMatrix::from_triplets(&triplets(16, n as usize, &back)));
    let short = Metapath::from(names(&["author", "paper", "author"]));
    let per_author = 16 * n as usize;
    assert_eq!(
        count_metapath_memory_usage_checked(&g, &short),
        Some(4 * n as usize * per_author)
    );
    let long: Vec<&str> = (0..17).map(|i| if i % 2 == 0 { "author" } else { "paper" }).collect();
    let long = Metapath::from(names(&long));
    assert_eq!(count_metapath_memory_usage_checked(&g, &long), None);
}

#[test]
fn path_checks() {
    let g = small_dblp();
    assert!(check_path_in_graph(&g, &[Author, Paper, Conference]));
    assert!(!check_path_in_graph(&g, &[Author, Paper, Term]));
    assert!(!check_path_in_graph(&g, &[Author]));
    assert!(check_reach_defined(&g, &[Author, Paper, Author], 0));
    assert!(!check_reach_defined(&g, &[Author, Paper], 7));
    assert!(check_reach_defined_everywhere(&g, &[Conference, Paper, Author]));
    assert!(check_contexts_buildable(&g, &[Author, Paper, Conference, Paper, Author]));
    assert!(!check_contexts_buildable(&g, &[Author, Term]));
}

#[test]
fn reach_check_follows_only_reached_steps() {
    // Conference 1 has no paper, so the missing term matrix is never read.
    let g = small_dblp();
    assert!(check_reach_defined(&g, &[Conference, Paper, Term], 5));
    assert!(!check_reach_defined(&g, &[Conference, Paper, Term], 0));
}

#[test]
fn feature_cover_check() {
    let g = small_dblp();
    let mut f = FeatureMap::new();
    f.insert(0, vec![1, 2, 3]);
    f.insert(1, vec![1, 2]);
    assert!(check_features_cover(&g, &[Author, Paper, Author], &f));
    f.insert(1, vec![1]);
    assert!(!check_features_cover(&g, &[Author, Paper, Author], &f));
    assert!(!check_features_cover(&g, &[Author, Paper, Conference], &f));
}

#[test]
fn graph_well_formedness() {
    let g = small_dblp();
    assert!(g.is_well_formed());
    assert!(HeteroGraph::new().is_well_formed());
}
