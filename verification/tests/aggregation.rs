use hetero_rust::sim::design;
use hetero_rust::sim::design_agg::{build_context_and_aggregation, context_feature_sum, BuildContextFnAgg, DesignBuildContextAggFn};
use hetero_rust::{AdjacencyMatrix, DblpNodeType, FeatureMap, HeteroGraph, NodeSet};
use sprs::num_kinds::Pattern;
use sprs::TriMatI;

fn triplets(rows: usize, cols: usize, edges: &[(u32, u32)]) -> TriMatI<Pattern, u32> {
    let r: Vec<u32> = edges.iter().map(|e| e.0).collect();
    let c: Vec<u32> = edges.iter().map(|e| e.1).collect();
    TriMatI::from_triplets((rows, cols), r, c, vec![Pattern; edges.len()])
}

fn small_dblp() -> HeteroGraph {
    let mut g = HeteroGraph::new();
    let s = |x: &str| x.to_string();
    g.insert(s("author"), s("paper"), AdjacencyMatrix::from_triplets(&triplets(3, 2, &[(0, 0), (0, 1), (1, 1)])));
    g.insert(s("paper"), s("author"), AdjacencyMatrix::from_triplets(&triplets(2, 3, &[(0, 0), (1, 0), (1, 1)])));
    g.insert(s("paper"), s("conference"), AdjacencyMatrix::from_triplets(&triplets(2, 2, &[(0, 0), (1, 0)])));
    g.insert(s("conference"), s("paper"), AdjacencyMatrix::from_triplets(&triplets(2, 2, &[(0, 0), (0, 1)])));
    g
}

fn features() -> FeatureMap {
    let mut f = FeatureMap::new();
    f.insert(0, vec![1, 10, 100]);
    f.insert(1, vec![1000, 10000]);
    f.insert(2, vec![100000, 1000000]);
    f
}

fn sorted(s: &NodeSet) -> Vec<(u32, u32)> {
    let mut v = s.to_vec();
    v.sort();
    v
}

fn feature_sum(f: &FeatureMap, s: &NodeSet) -> u64 {
    s.to_vec().iter().fold(0u64, |acc, k| acc.wrapping_add(f.get(k.0).unwrap()[k.1 as usize]))
}

use DblpNodeType::{Author, Conference, Paper};

#[test]
fn aggregation_on_one_step_sums_neighbours_and_self() {
    let g = small_dblp();
    let f = features();
    let (ctx, res) = build_context_and_aggregation(&g, &[Author, Paper], &f);
    assert_eq!(res, vec![1 + 1000 + 10000, 10 + 10000, 100]);
    assert_eq!(sorted(&ctx[1]), vec![(0, 1), (1, 1)]);
}

#[test]
fn aggregation_is_the_feature_sum_of_the_context() {
    let g = small_dblp();
    let f = features();
    for path in [
        vec![Author, Paper, Author],
        vec![Author, Paper, Conference, Paper, Author],
        vec![Conference, Paper, Author, Paper, Conference],
    ] {
        let (ctx, res) = build_context_and_aggregation(&g, &path, &f);
        for (c, r) in ctx.iter().zip(res.iter()) {
            assert_eq!(*r, feature_sum(&f, c));
        }
    }
}

#[test]
fn aggregation_of_apa() {
    let g = small_dblp();
    let f = features();
    let (_, res) = build_context_and_aggregation(&g, &[Author, Paper, Author], &f);
    assert_eq!(res, vec![1 + 10 + 1000 + 10000, 1 + 10 + 10000, 100]);
}

#[test]
fn aggregation_contexts_match_design() {
    let g = small_dblp();
    let f = features();
    let path = [Author, Paper, Conference, Paper, Author];
    let (ctx, _) = build_context_and_aggregation(&g, &path, &f);
    let d = design::build_context(&g, &path);
    assert_eq!(ctx.len(), d.len());
    for (x, y) in ctx.iter().zip(d.iter()) {
        assert_eq!(sorted(x), sorted(y));
    }
}

#[test]
fn aggregation_wraps_around() {
    let g = small_dblp();
    let mut f = FeatureMap::new();
    f.insert(0, vec![u64::MAX, 2, 3]);
    f.insert(1, vec![5, 7]);
    let (_, res) = build_context_and_aggregation(&g, &[Author, Paper], &f);
    assert_eq!(res[0], 11);
    assert_eq!(res[1], 9);
}

#[test]
fn aggregation_counts_a_self_loop_twice_on_the_last_step() {
    // Author 0 co-authored with itself: on the last step its feature is added
    // as a neighbour and as the source.
    let mut g = HeteroGraph::new();
    g.insert("author".to_string(), "author".to_string(), AdjacencyMatrix::from_triplets(&triplets(2, 2, &[(0, 0), (0, 1)])));
    let mut f = FeatureMap::new();
    f.insert(0, vec![3, 5]);
    let (ctx, res) = build_context_and_aggregation(&g, &[Author, Author], &f);
    assert_eq!(sorted(&ctx[0]), vec![(0, 0), (0, 1)]);
    assert_eq!(res[0], 3 + 5 + 3);
}

#[test]
fn aggregation_trait_impl() {
    let g = small_dblp();
    let f = features();
    let r = <DesignBuildContextAggFn as BuildContextFnAgg>::build_context_agg(&g, &[Paper, Author], &f);
    assert_eq!(r, vec![1000 + 1, 10000 + 1 + 10]);
}

#[test]
fn feature_map_operations() {
    let mut f = FeatureMap::new();
    assert!(f.get(4).is_none());
    f.insert(4, vec![1, 2]);
    f.insert(4, vec![3]);
    assert_eq!(f.get(4), Some(&vec![3]));
}

#[test]
fn aggregation_counts_a_missing_source_feature_as_zero() {
    // The last step's source type has features for node 0 only.
    let g = small_dblp();
    let mut f = FeatureMap::new();
    f.insert(1, vec![1000]);
    f.insert(0, vec![1, 10, 100]);
    let (ctx, res) = build_context_and_aggregation(&g, &[Paper, Author], &f);
    assert_eq!(sorted(&ctx[1]), vec![(0, 0), (0, 1), (1, 1)]);
    assert_eq!(res, vec![1000 + 1, 1 + 10]);
}

#[test]
fn aggregation_counts_a_rowless_neighbour_without_feature_as_zero() {
    // Author 2 wrote paper 5, which has no row in the paper matrix and no
    // feature.
    let mut g = HeteroGraph::new();
    g.insert("author".to_string(), "paper".to_string(), AdjacencyMatrix::from_triplets(&triplets(3, 6, &[(0, 0), (2, 5)])));
    g.insert("paper".to_string(), "author".to_string(), AdjacencyMatrix::from_triplets(&triplets(2, 3, &[(0, 0)])));
    let mut f = FeatureMap::new();
    f.insert(0, vec![1, 10, 100]);
    f.insert(1, vec![1000, 10000]);
    let (ctx, res) = build_context_and_aggregation(&g, &[Author, Paper, Author], &f);
    assert_eq!(sorted(&ctx[2]), vec![(0, 2), (1, 5)]);
    assert_eq!(res[2], 100);
    assert_eq!(res[0], 1000 + 1);
    assert_eq!(res[1], 10);
}

#[test]
fn context_feature_sum_wraps_and_skips_missing_features() {
    let mut f = FeatureMap::new();
    f.insert(0, vec![u64::MAX, 2]);
    let mut s = NodeSet::new();
    s.insert((0, 0));
    s.insert((0, 1));
    s.insert((0, 9));
    s.insert((3, 0));
    assert_eq!(context_feature_sum(&s, &f), 1);
    assert_eq!(context_feature_sum(&NodeSet::new(), &f), 0);
}

#[test]
fn aggregate_equals_context_feature_sum() {
    let g = small_dblp();
    let f = features();
    let path = [Author, Paper, Conference, Paper, Author];
    let (ctx, res) = build_context_and_aggregation(&g, &path, &f);
    for (c, r) in ctx.iter().zip(res.iter()) {
        assert_eq!(context_feature_sum(c, &f), *r);
        assert_eq!(feature_sum(&f, c), *r);
    }
}

#[test]
fn aggregate_is_additive_in_the_features() {
    let g = small_dblp();
    let path = [Author, Paper, Conference, Paper, Author];
    let mut f1 = FeatureMap::new();
    f1.insert(0, vec![1, 2, 3]);
    f1.insert(1, vec![4, 5]);
    f1.insert(2, vec![6, u64::MAX]);
    let mut f2 = FeatureMap::new();
    f2.insert(0, vec![10, 20, 30]);
    f2.insert(1, vec![40, 50]);
    f2.insert(2, vec![60, 3]);
    let mut f3 = FeatureMap::new();
    f3.insert(0, vec![11, 22, 33]);
    f3.insert(1, vec![44, 55]);
    f3.insert(2, vec![66, 2]);
    let (_, r1) = build_context_and_aggregation(&g, &path, &f1);
    let (_, r2) = build_context_and_aggregation(&g, &path, &f2);
    let (_, r3) = build_context_and_aggregation(&g, &path, &f3);
    for i in 0..r3.len() {
        assert_eq!(r3[i], r1[i].wrapping_add(r2[i]));
    }
}

#[test]
fn aggregation_trait_impl_matches_the_function() {
    let g = small_dblp();
    let f = features();
    let path = [Author, Paper, Conference, Paper, Author];
    let r = <DesignBuildContextAggFn as BuildContextFnAgg>::build_context_agg(&g, &path, &f);
    let (_, direct) = build_context_and_aggregation(&g, &path, &f);
    assert_eq!(r, direct);
}
