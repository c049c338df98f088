use hetero_rust::{count_metapath_memory_usage, count_partial_metapath_count, AdjacencyMatrix, HeteroGraph, Metapath};
use sprs::num_kinds::Pattern;
use sprs::TriMatI;
use std::collections::BTreeMap;

fn triplets(rows: usize, cols: usize, edges: &[(u32, u32)]) -> TriMatI<Pattern, u32> {
    let r: Vec<u32> = edges.iter().map(|e| e.0).collect();
    let c: Vec<u32> = edges.iter().map(|e| e.1).collect();
    TriMatI::from_triplets((rows, cols), r, c, vec![Pattern; edges.len()])
}

/// Authors a0, a1, a2; papers p0, p1; conferences c0, c1.
/// a0 wrote p0 and p1, a1 wrote p1; both papers appeared at c0.
fn small_dblp() -> HeteroGraph {
    let mut g = HeteroGraph::new();
    let s = |x: &str| x.to_string();
    g.insert(s("author"), s("paper"), AdjacencyMatrix::from_triplets(&triplets(3, 2, &[(0, 0), (0, 1), (1, 1)])));
    g.insert(s("paper"), s("author"), AdjacencyMatrix::from_triplets(&triplets(2, 3, &[(0, 0), (1, 0), (1, 1)])));
    g.insert(s("paper"), s("conference"), AdjacencyMatrix::from_triplets(&triplets(2, 2, &[(0, 0), (1, 0)])));
    g.insert(s("conference"), s("paper"), AdjacencyMatrix::from_triplets(&triplets(2, 2, &[(0, 0), (0, 1)])));
    g
}

fn names(parts: &[&str]) -> Vec<String> {
    parts.iter().map(|p| p.to_string()).collect()
}

#[test]
fn count_walks_of_two_steps() {
    let g = small_dblp();
    let path = names(&["author", "paper", "author"]);
    let mut cache = BTreeMap::new();
    assert_eq!(count_partial_metapath_count(&g, &path, 0, &mut cache), 3);
    assert_eq!(count_partial_metapath_count(&g, &path, 1, &mut cache), 2);
    assert_eq!(count_partial_metapath_count(&g, &path, 2, &mut cache), 0);
}

#[test]
fn count_walks_of_one_step_is_the_row_length() {
    let g = small_dblp();
    let path = names(&["author", "paper"]);
    let mut cache = BTreeMap::new();
    assert_eq!(count_partial_metapath_count(&g, &path, 0, &mut cache), 2);
    assert_eq!(cache.get(&(0, 2)), Some(&2));
}

#[test]
fn count_walks_of_four_steps() {
    let g = small_dblp();
    let path = names(&["author", "paper", "conference", "paper", "author"]);
    let mut cache = BTreeMap::new();
    assert_eq!(count_partial_metapath_count(&g, &path, 0, &mut cache), 6);
    assert_eq!(count_partial_metapath_count(&g, &path, 1, &mut cache), 3);
    assert_eq!(count_partial_metapath_count(&g, &path, 2, &mut cache), 0);
}

#[test]
fn count_cache_holds_suffix_counts() {
    let g = small_dblp();
    let path = names(&["author", "paper", "conference", "paper", "author"]);
    let mut cache = BTreeMap::new();
    count_partial_metapath_count(&g, &path, 0, &mut cache);
    assert_eq!(cache.get(&(0, 5)), Some(&6));
    assert_eq!(cache.get(&(0, 4)), Some(&3));
    assert_eq!(cache.get(&(1, 4)), Some(&3));
    assert_eq!(cache.get(&(0, 3)), Some(&3));
    assert_eq!(cache.get(&(0, 2)), Some(&1));
    assert_eq!(cache.get(&(1, 2)), Some(&2));
}

#[test]
fn count_with_a_warm_cache_is_unchanged() {
    let g = small_dblp();
    let path = names(&["author", "paper", "conference", "paper", "author"]);
    let mut cache = BTreeMap::new();
    let first = count_partial_metapath_count(&g, &path, 0, &mut cache);
    let size = cache.len();
    let second = count_partial_metapath_count(&g, &path, 0, &mut cache);
    assert_eq!(first, second);
    assert_eq!(cache.len(), size);
    assert_eq!(count_partial_metapath_count(&g, &path[1..], 1, &mut cache), 3);
}

#[test]
fn count_past_the_first_matrix_is_zero_on_long_paths() {
    let g = small_dblp();
    let path = names(&["author", "paper", "author"]);
    let mut cache = BTreeMap::new();
    assert_eq!(count_partial_metapath_count(&g, &path, 10, &mut cache), 0);
}

#[test]
fn memory_usage_is_four_bytes_per_walk() {
    let g = small_dblp();
    let apa = Metapath::from(names(&["author", "paper", "author"]));
    assert_eq!(count_metapath_memory_usage(&g, &apa), 20);
    let apcpa = Metapath::from(names(&["author", "paper", "conference", "paper", "author"]));
    assert_eq!(count_metapath_memory_usage(&g, &apcpa), 36);
    let cp = Metapath::from(names(&["conference", "paper"]));
    assert_eq!(count_metapath_memory_usage(&g, &cp), 8);
}

#[test]
fn metapath_keeps_its_names() {
    let m = Metapath::from(names(&["movie", "actor", "movie"]));
    assert_eq!(m.path(), &names(&["movie", "actor", "movie"]));
}

/// The graph of the worked example: author 0 wrote papers 0 and 1, author 1
/// wrote paper 1; paper 0 has author 0, paper 1 has authors 0 and 1.
fn two_by_two() -> HeteroGraph {
    let mut g = HeteroGraph::new();
    g.insert("author".to_string(), "paper".to_string(), AdjacencyMatrix::from_triplets(&triplets(2, 2, &[(0, 0), (0, 1), (1, 1)])));
    g.insert("paper".to_string(), "author".to_string(), AdjacencyMatrix::from_triplets(&triplets(2, 2, &[(0, 0), (1, 0), (1, 1)])));
    g
}

#[test]
fn count_cache_holds_exactly_the_visited_suffixes() {
    let g = two_by_two();
    let path = names(&["author", "paper", "author"]);
    let mut cache = BTreeMap::new();
    assert_eq!(count_partial_metapath_count(&g, &path, 0, &mut cache), 3);
    let expected = BTreeMap::from([((0, 2), 1), ((1, 2), 2), ((0, 3), 3)]);
    assert_eq!(cache, expected);
}

#[test]
fn count_cache_hit_returns_the_stored_value() {
    let g = two_by_two();
    let path = names(&["author", "paper", "author"]);
    let mut cache = BTreeMap::from([((0, 3), 42)]);
    assert_eq!(count_partial_metapath_count(&g, &path, 0, &mut cache), 42);
    assert_eq!(cache, BTreeMap::from([((0, 3), 42)]));
    // A hit needs neither a long enough path nor a matrix.
    let mut cache = BTreeMap::from([((7, 1), 5)]);
    assert_eq!(count_partial_metapath_count(&g, &names(&["nowhere"]), 7, &mut cache), 5);
}

#[test]
fn count_cache_entries_are_reused() {
    let g = two_by_two();
    let path = names(&["author", "paper", "author"]);
    let mut cache = BTreeMap::from([((1, 2), 2)]);
    assert_eq!(count_partial_metapath_count(&g, &path, 0, &mut cache), 3);
    assert_eq!(cache, BTreeMap::from([((0, 2), 1), ((1, 2), 2), ((0, 3), 3)]));
}

#[test]
fn count_past_the_first_matrix_is_zero_whatever_the_cache() {
    let g = two_by_two();
    let path = names(&["author", "paper", "author"]);
    // The cache holds a wrong count of a suffix; the start has no row.
    let mut cache = BTreeMap::from([((0, 2), 99)]);
    assert_eq!(count_partial_metapath_count(&g, &path, 5, &mut cache), 0);
    assert_eq!(cache, BTreeMap::from([((0, 2), 99), ((5, 3), 0)]));
}
