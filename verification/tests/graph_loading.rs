use hetero_rust::{load_graph, load_hetero_graph, parse_edge_type, AdjacencyMatrix, HeteroGraph, LoadError};
use sprs::num_kinds::Pattern;
use sprs::TriMatI;

fn triplets(rows: usize, cols: usize, edges: &[(u32, u32)]) -> TriMatI<Pattern, u32> {
    let r: Vec<u32> = edges.iter().map(|e| e.0).collect();
    let c: Vec<u32> = edges.iter().map(|e| e.1).collect();
    TriMatI::from_triplets((rows, cols), r, c, vec![Pattern; edges.len()])
}

/// A MatrixMarket pattern file of the given shape and 0-based positions.
fn mtx(rows: usize, cols: usize, edges: &[(u32, u32)]) -> Vec<u8> {
    let mut text = format!("%%MatrixMarket matrix coordinate pattern general\n% a comment\n{} {} {}\n", rows, cols, edges.len());
    for (r, c) in edges {
        text.push_str(&format!("{} {}\n", r + 1, c + 1));
    }
    text.into_bytes()
}

#[test]
fn parse_edge_type_splits_at_the_dollar() {
    let r = parse_edge_type("author$paper");
    assert_eq!(r, Some(("author".to_string(), "paper".to_string())));
}

#[test]
fn parse_edge_type_keeps_empty_sides() {
    assert_eq!(parse_edge_type("$paper"), Some((String::new(), "paper".to_string())));
    assert_eq!(parse_edge_type("author$"), Some(("author".to_string(), String::new())));
}

#[test]
fn parse_edge_type_refuses_no_dollar() {
    assert_eq!(parse_edge_type("author_paper"), None);
    assert_eq!(parse_edge_type(""), None);
}

#[test]
fn parse_edge_type_refuses_two_dollars() {
    assert_eq!(parse_edge_type("author$paper$term"), None);
    assert_eq!(parse_edge_type("$$"), None);
}

#[test]
fn parse_edge_type_handles_non_ascii_names() {
    assert_eq!(parse_edge_type("é$ü"), Some(("é".to_string(), "ü".to_string())));
}

#[test]
fn load_graph_sorts_and_merges_rows() {
    let m = AdjacencyMatrix::from_triplets(&triplets(3, 4, &[(0, 3), (0, 1), (2, 2), (0, 1), (0, 0)]));
    assert_eq!(m.rows(), 3);
    assert_eq!(m.row(0), Some(&[0u32, 1, 3][..]));
    assert_eq!(m.row(1), Some(&[][..]));
    assert_eq!(m.row(2), Some(&[2u32][..]));
    assert_eq!(m.row(3), None);
}

#[test]
fn load_graph_of_empty_matrix() {
    let m = AdjacencyMatrix::from_triplets(&triplets(0, 0, &[]));
    assert_eq!(m.rows(), 0);
    assert_eq!(m.row(0), None);
}

#[test]
fn graph_insert_then_get_gives_back_the_matrix() {
    let mut g = HeteroGraph::new();
    let a = "author".to_string();
    let p = "paper".to_string();
    assert!(g.get(&a, &p).is_none());
    let old = g.insert(a.clone(), p.clone(), AdjacencyMatrix::from_triplets(&triplets(2, 2, &[(0, 1)])));
    assert!(old.is_none());
    assert_eq!(g.get(&a, &p).unwrap().rows(), 2);
    assert!(g.get(&p, &a).is_none());
    let old = g.insert(a.clone(), p.clone(), AdjacencyMatrix::from_triplets(&triplets(5, 2, &[(4, 1)])));
    assert_eq!(old.unwrap().rows(), 2);
    assert_eq!(g.get(&a, &p).unwrap().rows(), 5);
    assert_eq!(g.subgraphs.len(), 1);
}

#[test]
fn insert_file_refuses_bad_stem() {
    let mut g = HeteroGraph::new();
    let r = g.insert_file("author_paper", &mtx(1, 1, &[(0, 0)]));
    assert_eq!(r, Err(LoadError::BadFileName));
    assert_eq!(g.subgraphs.len(), 0);
}

#[test]
fn insert_file_refuses_bad_matrix() {
    let mut g = HeteroGraph::new();
    let r = g.insert_file("author$paper", b"not a matrix\n");
    assert_eq!(r, Err(LoadError::BadMatrixFile));
    assert_eq!(g.subgraphs.len(), 0);
}

#[test]
fn insert_file_adds_named_subgraph() {
    let mut g = HeteroGraph::new();
    let r = g.insert_file("paper$term", &mtx(2, 3, &[(1, 2), (1, 0)]));
    assert_eq!(r, Ok(()));
    let m = g.get(&"paper".to_string(), &"term".to_string()).unwrap();
    assert_eq!(m.row(1), Some(&[0u32, 2][..]));
    assert_eq!(m.cols(), 3);
}

#[test]
fn load_graph_reads_matrix_market_bytes() {
    let m = load_graph(&mtx(3, 4, &[(0, 3), (0, 1), (2, 2), (0, 1), (0, 0)])).unwrap();
    assert_eq!(m.rows(), 3);
    assert_eq!(m.cols(), 4);
    assert_eq!(m.row(0), Some(&[0u32, 1, 3][..]));
    assert_eq!(m.row(1), Some(&[][..]));
    assert_eq!(m.row(2), Some(&[2u32][..]));
}

#[test]
fn load_graph_refuses_a_bad_header() {
    assert_eq!(load_graph(b"%%MatrixMarket matrix coordinate pattern general\n2 2\n").err(), Some(LoadError::BadMatrixFile));
    assert_eq!(load_graph(b"").err(), Some(LoadError::BadMatrixFile));
}

#[test]
fn load_hetero_graph_keeps_the_last_file_of_a_type() {
    let files = vec![
        ("author$paper".to_string(), mtx(2, 2, &[(0, 0)])),
        ("paper$author".to_string(), mtx(2, 2, &[(0, 0)])),
        ("author$paper".to_string(), mtx(3, 2, &[(2, 1)])),
    ];
    let g = load_hetero_graph(&files).unwrap();
    let m = g.get(&"author".to_string(), &"paper".to_string()).unwrap();
    assert_eq!(m.rows(), 3);
    assert_eq!(m.row(2), Some(&[1u32][..]));
    assert!(g.get(&"paper".to_string(), &"author".to_string()).is_some());
    assert_eq!(g.subgraphs.len(), 2);
    assert!(g.is_well_formed());
}

#[test]
fn load_hetero_graph_fails_on_bad_file_name() {
    let files = vec![
        ("author$paper".to_string(), mtx(2, 2, &[(0, 0)])),
        ("readme".to_string(), mtx(1, 1, &[])),
    ];
    assert_eq!(load_hetero_graph(&files).err(), Some(LoadError::BadFileName));
}

#[test]
fn load_hetero_graph_fails_at_the_first_bad_file() {
    let files = vec![
        ("author$paper".to_string(), b"garbage".to_vec()),
        ("readme".to_string(), mtx(1, 1, &[])),
    ];
    assert_eq!(load_hetero_graph(&files).err(), Some(LoadError::BadMatrixFile));
}

#[test]
fn load_hetero_graph_of_no_files() {
    let g = load_hetero_graph(&[]).unwrap();
    assert_eq!(g.subgraphs.len(), 0);
}

#[test]
fn graph_with_a_repeated_edge_type_is_not_well_formed() {
    let mut g = HeteroGraph::new();
    g.insert("a".to_string(), "b".to_string(), AdjacencyMatrix::from_triplets(&triplets(1, 1, &[])));
    assert!(g.is_well_formed());
    let m = AdjacencyMatrix::from_triplets(&triplets(1, 1, &[]));
    g.subgraphs.push(hetero_rust::Subgraph { source: "a".to_string(), target: "b".to_string(), matrix: m });
    assert!(!g.is_well_formed());
}
