//! Heterogeneous graphs: one adjacency matrix per ordered pair of node types.
use vstd::prelude::*;
use crate::matrix::{AdjacencyMatrix, matrix_market, read_triplets};

verus! {

/// The edges from nodes of type `source` to nodes of type `target`.
pub struct Subgraph {
    pub source: String,
    pub target: String,
    pub matrix: AdjacencyMatrix,
}

/// A heterogeneous graph: its subgraphs, looked up by edge type
/// `(source, target)`. A well-formed graph holds each edge type once.
pub struct HeteroGraph {
    pub subgraphs: Vec<Subgraph>,
}

/// Why a subgraph file could not be added to a graph.
#[derive(Debug, Clone, Copy, PartialEq, Eq)]
pub enum LoadError {
    /// The file's stem is not two type names joined by a single `$`.
    BadFileName,
    /// The file's bytes are not a MatrixMarket matrix.
    BadMatrixFile,
}

/// The matrix of the first subgraph of edge type `(a, b)`.
pub open spec fn lookup_subgraph(subs: Seq<Subgraph>, a: Seq<char>, b: Seq<char>) -> Option<
    AdjacencyMatrix,
>
    decreases subs.len(),
{
    if subs.len() == 0 {
        None
    } else if subs[0].source@ == a && subs[0].target@ == b {
        Some(subs[0].matrix)
    } else {
        lookup_subgraph(subs.drop_first(), a, b)
    }
}

/// The edge type that a subgraph file's stem names: the stem split at its
/// only `$`, or `None` where it holds no `$` or more than one.
pub open spec fn edge_type_of(stem: Seq<char>) -> Option<(Seq<char>, Seq<char>)> {
    if exists|k: int| is_only_separator(stem, k) {
        let k = choose|k: int| is_only_separator(stem, k);
        Some((stem.take(k), stem.skip(k + 1)))
    } else {
        None
    }
}

/// `stem[k]` is a `$` and no other character of `stem` is.
pub open spec fn is_only_separator(stem: Seq<char>, k: int) -> bool {
    &&& 0 <= k < stem.len()
    &&& stem[k] == '$'
    &&& forall|j: int| 0 <= j < stem.len() && j != k ==> stem[j] != '$'
}

impl HeteroGraph {
    /// The matrix of edge type `(a, b)`, if the graph has one.
    pub open spec fn subgraph_spec(&self, a: Seq<char>, b: Seq<char>) -> Option<AdjacencyMatrix> {
        lookup_subgraph(self.subgraphs@, a, b)
    }

    /// Whether the graph has edges of type `(a, b)`.
    pub open spec fn has_edge_type(&self, a: Seq<char>, b: Seq<char>) -> bool {
        self.subgraph_spec(a, b) is Some
    }

    /// The rows of the matrix of edge type `(a, b)`.
    pub open spec fn adjacency(&self, a: Seq<char>, b: Seq<char>) -> Seq<Seq<u32>> {
        self.subgraph_spec(a, b).unwrap().rows_spec()
    }

    /// Well-formedness: every matrix is well formed, and no edge type occurs
    /// twice.
    pub open spec fn wf(&self) -> bool {
        &&& forall|i: int|
            0 <= i < self.subgraphs@.len() ==> (#[trigger] self.subgraphs@[i]).matrix.wf()
        &&& forall|i: int, j: int|
            0 <= i < j < self.subgraphs@.len() ==> !(#[trigger] self.subgraphs@[i].source@
                == #[trigger] self.subgraphs@[j].source@ && self.subgraphs@[i].target@
                == self.subgraphs@[j].target@)
    }

    /// A graph without subgraphs.
    pub fn new() -> (g: HeteroGraph)
        ensures
            g.subgraphs@.len() == 0,
            g.wf(),
            forall|a: Seq<char>, b: Seq<char>| !#[trigger] g.has_edge_type(a, b),
    {
        HeteroGraph { subgraphs: Vec::new() }
    }

    /// Whether the graph is well formed.
    pub fn is_well_formed(&self) -> (r: bool)
        ensures
            r == self.wf(),
    {
        let n = self.subgraphs.len();
        for i in 0..n
            invariant
                n == self.subgraphs@.len(),
                forall|j: int| 0 <= j < i ==> (#[trigger] self.subgraphs@[j]).matrix.wf(),
                forall|p: int, q: int|
                    0 <= p < q < n && p < i ==> !(#[trigger] self.subgraphs@[p].source@
                        == #[trigger] self.subgraphs@[q].source@ && self.subgraphs@[p].target@
                        == self.subgraphs@[q].target@),
        {
            if !self.subgraphs[i].matrix.is_well_formed() {
                return false;
            }
            for j in i + 1..n
                invariant
                    n == self.subgraphs@.len(),
                    i < n,
                    forall|q: int|
                        i < q < j ==> !(#[trigger] self.subgraphs@[q].source@
                            == self.subgraphs@[i as int].source@ && self.subgraphs@[i as int].target@
                            == self.subgraphs@[q].target@),
            {
                if self.subgraphs[i].source == self.subgraphs[j].source
                    && self.subgraphs[i].target == self.subgraphs[j].target {
                    assert(!self.wf()) by {
                        assert(self.subgraphs@[i as int].source@ == self.subgraphs@[j as int].source@);
                    }
                    return false;
                }
            }
        }
        true
    }

    /// The matrix of edge type `(a, b)`, if the graph has one.
    pub fn get(&self, a: &String, b: &String) -> (r: Option<&AdjacencyMatrix>)
        ensures
            match r {
                Some(m) => self.subgraph_spec(a@, b@) == Some(*m),
                None => self.subgraph_spec(a@, b@) is None,
            },
    {
        let n = self.subgraphs.len();
        let mut i: usize = 0;
        assert(self.subgraphs@.skip(0) =~= self.subgraphs@);
        while i < n
            invariant
                n == self.subgraphs@.len(),
                0 <= i <= n,
                lookup_subgraph(self.subgraphs@, a@, b@) == lookup_subgraph(
                    self.subgraphs@.skip(i as int),
                    a@,
                    b@,
                ),
            decreases n - i,
        {
            assert(self.subgraphs@.skip(i as int).drop_first() =~= self.subgraphs@.skip(i + 1));
            if self.subgraphs[i].source == *a && self.subgraphs[i].target == *b {
                return Some(&self.subgraphs[i].matrix);
            }
            i = i + 1;
        }
        None
    }

    /// Sets the matrix of edge type `(source, target)`, replacing the one it
    /// had; returns the replaced matrix.
    pub fn insert(&mut self, source: String, target: String, matrix: AdjacencyMatrix) -> (r: Option<
        AdjacencyMatrix,
    >)
        ensures
            r == old(self).subgraph_spec(source@, target@),
            final(self).subgraph_spec(source@, target@) == Some(matrix),
            forall|a: Seq<char>, b: Seq<char>|
                !(a == source@ && b == target@) ==> #[trigger] final(self).subgraph_spec(a, b)
                    == old(self).subgraph_spec(a, b),
            old(self).wf() && matrix.wf() ==> final(self).wf(),
    {
        let n = self.subgraphs.len();
        let mut i: usize = 0;
        while i < n
            invariant_except_break
                n == self.subgraphs@.len(),
                0 <= i <= n,
                forall|j: int|
                    0 <= j < i ==> !(#[trigger] self.subgraphs@[j].source@ == source@
                        && self.subgraphs@[j].target@ == target@),
            ensures
                n == self.subgraphs@.len(),
                0 <= i <= n,
                forall|j: int|
                    0 <= j < i ==> !(#[trigger] self.subgraphs@[j].source@ == source@
                        && self.subgraphs@[j].target@ == target@),
                i < n ==> self.subgraphs@[i as int].source@ == source@
                    && self.subgraphs@[i as int].target@ == target@,
            decreases n - i,
        {
            if self.subgraphs[i].source == source && self.subgraphs[i].target == target {
                break;
            }
            i = i + 1;
        }
        let ghost before = self.subgraphs@;
        proof {
            lemma_lookup_prefix_miss(before, i as int, source@, target@);
        }
        if i < n {
            let old_entry = self.subgraphs.remove(i);
            self.subgraphs.insert(i, Subgraph { source, target, matrix });
            proof {
                let after = self.subgraphs@;
                assert(after =~= before.update(i as int, after[i as int]));
                lemma_lookup_update(before, i as int, after[i as int]);
            }
            Some(old_entry.matrix)
        } else {
            let ghost src = source@;
            let ghost tgt = target@;
            self.subgraphs.push(Subgraph { source, target, matrix });
            proof {
                lemma_lookup_push(before, self.subgraphs@[n as int]);
                assert(self.subgraphs@ =~= before.push(self.subgraphs@[n as int]));
            }
            None
        }
    }

    /// Adds the subgraph that a file holds: its stem names the edge type
    /// (`source$target`), its bytes the edges, as a MatrixMarket matrix.
    /// Fails, leaving the graph as it was, where the stem names no edge type
    /// or the bytes are not a MatrixMarket matrix.
    pub fn insert_file(&mut self, stem: &str, bytes: &[u8]) -> (r: Result<(), LoadError>)
        requires
            edge_type_of(stem@) is Some ==> loadable(bytes@),
        ensures
            edge_type_of(stem@) is None ==> r == Err::<(), LoadError>(LoadError::BadFileName)
                && final(self).subgraphs@ == old(self).subgraphs@,
            edge_type_of(stem@) is Some && matrix_market(bytes@) == Some(
                None::<((nat, nat), Seq<(u32, u32)>)>,
            ) ==> r == Err::<(), LoadError>(LoadError::BadMatrixFile) && final(self).subgraphs@
                == old(self).subgraphs@,
            edge_type_of(stem@) matches Some((a, b)) ==> (matrix_market(bytes@) matches Some(
                Some((shape, entries)),
            ) ==> {
                &&& r is Ok
                &&& final(self).subgraph_spec(a, b) matches Some(m) && is_adjacency_of(
                    shape,
                    entries,
                    m,
                )
                &&& forall|x: Seq<char>, y: Seq<char>|
                    !(x == a && y == b) ==> #[trigger] final(self).subgraph_spec(x, y)
                        == old(self).subgraph_spec(x, y)
                &&& old(self).wf() ==> final(self).wf()
            }),
    {
        match parse_edge_type(stem) {
            Some((a, b)) => {
                match load_graph(bytes) {
                    Ok(m) => {
                        let _ = self.insert(a, b, m);
                        Ok(())
                    },
                    Err(e) => Err(e),
                }
            },
            None => Err(LoadError::BadFileName),
        }
    }
}

/// The MatrixMarket reader does not panic on these bytes, and what it reads
/// has a row count and an entry count that fit the `u32` indices of a CSR
/// matrix.
pub open spec fn loadable(bytes: Seq<u8>) -> bool {
    &&& matrix_market(bytes) is Some
    &&& matrix_market(bytes) matches Some(Some((shape, entries))) ==> shape.0 <= u32::MAX
        && entries.len() <= u32::MAX
}

/// `m` is the adjacency matrix of a matrix of the given shape and stored
/// positions: one row per row of the shape, row `i` holding, in increasing
/// order and once each, the columns `c` of the positions `(i, c)`.
pub open spec fn is_adjacency_of(
    shape: (nat, nat),
    entries: Seq<(u32, u32)>,
    m: AdjacencyMatrix,
) -> bool {
    &&& m.wf()
    &&& m.rows_spec().len() == shape.0
    &&& m.cols_spec() == shape.1
    &&& forall|i: int, c: u32|
        0 <= i < m.rows_spec().len() ==> (#[trigger] m.rows_spec()[i].contains(c)
            <==> entries.contains((i as u32, c)))
}

/// The edge type that the stem of file `i` names.
pub open spec fn file_edge_type(files: Seq<(String, Vec<u8>)>, i: int) -> Option<
    (Seq<char>, Seq<char>),
> {
    edge_type_of(files[i].0@)
}

/// File `i` names an edge type and holds a MatrixMarket matrix.
pub open spec fn file_ok(files: Seq<(String, Vec<u8>)>, i: int) -> bool {
    &&& file_edge_type(files, i) is Some
    &&& matrix_market(files[i].1@) matches Some(Some(_))
}

/// Every file before `n` names an edge type and holds a matrix.
pub open spec fn files_ok_before(files: Seq<(String, Vec<u8>)>, n: int) -> bool {
    forall|j: int| 0 <= j < n ==> #[trigger] file_ok(files, j)
}

/// The error that file `i` gives when it is not ok.
pub open spec fn file_error(files: Seq<(String, Vec<u8>)>, i: int) -> LoadError {
    if file_edge_type(files, i) is None {
        LoadError::BadFileName
    } else {
        LoadError::BadMatrixFile
    }
}

/// The shape and stored positions of file `i`'s matrix.
pub open spec fn file_matrix(files: Seq<(String, Vec<u8>)>, i: int) -> ((nat, nat), Seq<(u32, u32)>) {
    matrix_market(files[i].1@).unwrap().unwrap()
}

/// Some file before `n` names edge type `(a, b)`.
pub open spec fn files_name(files: Seq<(String, Vec<u8>)>, n: int, a: Seq<char>, b: Seq<char>) -> bool {
    exists|j: int| 0 <= j < n && #[trigger] file_edge_type(files, j) == Some((a, b))
}

/// File `j` names edge type `(a, b)` and no file after it, before `n`, does.
pub open spec fn last_file_for(
    files: Seq<(String, Vec<u8>)>,
    n: int,
    j: int,
    a: Seq<char>,
    b: Seq<char>,
) -> bool {
    &&& 0 <= j < n
    &&& file_edge_type(files, j) == Some((a, b))
    &&& forall|k: int| j < k < n ==> #[trigger] file_edge_type(files, k) != Some((a, b))
}

/// `g` holds the subgraphs of the first `n` files: an edge type for each
/// type that a file names, with the matrix of the last file that names it.
pub open spec fn built_from_files(g: HeteroGraph, files: Seq<(String, Vec<u8>)>, n: int) -> bool {
    &&& g.wf()
    &&& forall|a: Seq<char>, b: Seq<char>| #[trigger]
        g.has_edge_type(a, b) <==> files_name(files, n, a, b)
    &&& forall|j: int, a: Seq<char>, b: Seq<char>|
        #[trigger] last_file_for(files, n, j, a, b) ==> is_adjacency_of(
            file_matrix(files, j).0,
            file_matrix(files, j).1,
            g.subgraph_spec(a, b).unwrap(),
        )
}

/// The heterogeneous graph that a directory's subgraph files hold, given as
/// each file's stem with its bytes, in the order the directory lists them.
/// Fails at the first file whose stem names no edge type or whose bytes are
/// not a MatrixMarket matrix.
pub fn load_hetero_graph(files: &[(String, Vec<u8>)]) -> (r: Result<HeteroGraph, LoadError>)
    requires
        forall|i: int|
            0 <= i < files@.len() && files_ok_before(files@, i) && file_edge_type(files@, i) is Some
                ==> loadable((#[trigger] files@[i]).1@),
    ensures
        r is Ok <==> files_ok_before(files@, files@.len() as int),
        r matches Err(e) ==> exists|i: int|
            0 <= i < files@.len() && files_ok_before(files@, i) && !file_ok(files@, i) && e
                == #[trigger] file_error(files@, i),
        r matches Ok(g) ==> built_from_files(g, files@, files@.len() as int),
{
    let mut graph = HeteroGraph::new();
    let n = files.len();
    for i in 0..n
        invariant
            n == files@.len(),
            forall|k: int|
                0 <= k < files@.len() && files_ok_before(files@, k) && file_edge_type(files@, k) is Some
                    ==> loadable((#[trigger] files@[k]).1@),
            files_ok_before(files@, i as int),
            built_from_files(graph, files@, i as int),
    {
        let ghost before = graph;
        let entry = &files[i];
        assert(files@[i as int] == *entry);
        match graph.insert_file(entry.0.as_str(), entry.1.as_slice()) {
            Ok(()) => {},
            Err(e) => {
                assert(!file_ok(files@, i as int));
                assert(e == file_error(files@, i as int));
                return Err(e);
            },
        }
        proof {
            let (x, y) = file_edge_type(files@, i as int).unwrap();
            let fs = files@;
            assert(file_ok(fs, i as int));
            assert forall|j: int| 0 <= j < i + 1 implies #[trigger] file_ok(fs, j) by {
                if j < i {
                    assert(file_ok(fs, j));
                }
            }
            assert forall|a: Seq<char>, b: Seq<char>| #[trigger]
                graph.has_edge_type(a, b) <==> files_name(fs, i + 1, a, b) by {
                if a == x && b == y {
                    assert(file_edge_type(fs, i as int) == Some((a, b)));
                } else {
                    assert(graph.subgraph_spec(a, b) == before.subgraph_spec(a, b));
                    assert(before.has_edge_type(a, b) == files_name(fs, i as int, a, b));
                    if files_name(fs, i + 1, a, b) {
                        let j = choose|j: int| 0 <= j < i + 1 && #[trigger] file_edge_type(fs, j)
                            == Some((a, b));
                        assert(files_name(fs, i as int, a, b));
                    }
                    if files_name(fs, i as int, a, b) {
                        let j = choose|j: int| 0 <= j < i && #[trigger] file_edge_type(fs, j)
                            == Some((a, b));
                        assert(files_name(fs, i + 1, a, b));
                    }
                }
            }
            assert forall|j: int, a: Seq<char>, b: Seq<char>|
                #[trigger] last_file_for(fs, i + 1, j, a, b) implies is_adjacency_of(
                file_matrix(fs, j).0,
                file_matrix(fs, j).1,
                graph.subgraph_spec(a, b).unwrap(),
            ) by {
                if a == x && b == y {
                    if j < i {
                        assert(file_edge_type(fs, i as int) != Some((a, b)));
                    }
                } else {
                    assert(last_file_for(fs, i as int, j, a, b));
                    assert(graph.subgraph_spec(a, b) == before.subgraph_spec(a, b));
                }
            }
        }
    }
    Ok(graph)
}

/// The adjacency matrix, in CSR format, of a graph file's bytes read as a
/// MatrixMarket pattern matrix; fails where the bytes are not such a file.
pub fn load_graph(bytes: &[u8]) -> (r: Result<AdjacencyMatrix, LoadError>)
    requires
        loadable(bytes@),
    ensures
        match matrix_market(bytes@).unwrap() {
            Some((shape, entries)) => r matches Ok(m) && is_adjacency_of(shape, entries, m),
            None => r == Err::<AdjacencyMatrix, LoadError>(LoadError::BadMatrixFile),
        },
{
    match read_triplets(bytes) {
        Some(t) => {
            let m = AdjacencyMatrix::from_triplets(&t);
            Ok(m)
        },
        None => Err(LoadError::BadMatrixFile),
    }
}

/// The edge type that a subgraph file's stem names: the two node type names
/// on either side of its only `$`.
pub fn parse_edge_type(stem: &str) -> (r: Option<(String, String)>)
    ensures
        match edge_type_of(stem@) {
            Some((a, b)) => r matches Some((x, y)) && x@ == a && y@ == b,
            None => r is None,
        },
{
    let n = stem.unicode_len();
    let mut k: usize = 0;
    while k < n
        invariant_except_break
            n == stem@.len(),
            0 <= k <= n,
            forall|j: int| 0 <= j < k ==> stem@[j] != '$',
        ensures
            n == stem@.len(),
            0 <= k <= n,
            forall|j: int| 0 <= j < k ==> stem@[j] != '$',
            k < n ==> stem@[k as int] == '$',
        decreases n - k,
    {
        if stem.get_char(k) == '$' {
            break;
        }
        k = k + 1;
    }
    if k == n {
        proof {
            assert forall|q: int| !is_only_separator(stem@, q) by {}
        }
        return None;
    }
    let mut j: usize = k + 1;
    while j < n
        invariant
            n == stem@.len(),
            k < j <= n,
            stem@[k as int] == '$',
            forall|q: int| 0 <= q < k ==> stem@[q] != '$',
            forall|q: int| k < q < j ==> stem@[q] != '$',
        decreases n - j,
    {
        if stem.get_char(j) == '$' {
            proof {
                assert forall|q: int| !is_only_separator(stem@, q) by {
                    if is_only_separator(stem@, q) {
                        assert(q == k || q == j);
                    }
                }
            }
            return None;
        }
        j = j + 1;
    }
    proof {
        assert(is_only_separator(stem@, k as int));
        let c = choose|q: int| is_only_separator(stem@, q);
        assert(c == k);
    }
    let a = stem.substring_char(0, k);
    let b = stem.substring_char(k + 1, n);
    Some((String::from_str(a), String::from_str(b)))
}

/// A stem made of two type names without `$`, joined by a `$`, names the edge
/// type of those two names.
pub proof fn lemma_edge_type_round_trip(a: Seq<char>, b: Seq<char>)
    requires
        !a.contains('$'),
        !b.contains('$'),
    ensures
        edge_type_of(a + seq!['$'] + b) == Some((a, b)),
{
    let stem = a + seq!['$'] + b;
    let k = a.len() as int;
    assert(stem[k] == '$');
    assert forall|j: int| 0 <= j < stem.len() && j != k implies stem[j] != '$' by {
        if j < k {
            assert(stem[j] == a[j]);
        } else {
            assert(stem[j] == b[j - k - 1]);
        }
    }
    assert(is_only_separator(stem, k));
    let c = choose|q: int| is_only_separator(stem, q);
    assert(c == k);
    assert(stem.take(k) =~= a);
    assert(stem.skip(k + 1) =~= b);
}

/// The matrix that a well-formed graph holds for an edge type is well formed.
pub proof fn lemma_subgraph_wf(g: HeteroGraph, a: Seq<char>, b: Seq<char>)
    requires
        g.wf(),
        g.has_edge_type(a, b),
    ensures
        g.subgraph_spec(a, b).unwrap().wf(),
{
    lemma_lookup_wf(g.subgraphs@, a, b);
}

proof fn lemma_lookup_wf(subs: Seq<Subgraph>, a: Seq<char>, b: Seq<char>)
    requires
        forall|i: int| 0 <= i < subs.len() ==> (#[trigger] subs[i]).matrix.wf(),
        lookup_subgraph(subs, a, b) is Some,
    ensures
        lookup_subgraph(subs, a, b).unwrap().wf(),
    decreases subs.len(),
{
    if !(subs[0].source@ == a && subs[0].target@ == b) {
        assert forall|i: int| 0 <= i < subs.drop_first().len() implies (
        #[trigger] subs.drop_first()[i]).matrix.wf() by {
            assert(subs.drop_first()[i] == subs[i + 1]);
        }
        lemma_lookup_wf(subs.drop_first(), a, b);
    } else {
        assert(subs[0].matrix.wf());
    }
}

proof fn lemma_lookup_prefix_miss(subs: Seq<Subgraph>, i: int, a: Seq<char>, b: Seq<char>)
    requires
        0 <= i <= subs.len(),
        forall|j: int| 0 <= j < i ==> !(#[trigger] subs[j].source@ == a && subs[j].target@ == b),
    ensures
        lookup_subgraph(subs, a, b) == lookup_subgraph(subs.skip(i), a, b),
    decreases i,
{
    if i > 0 {
        lemma_lookup_prefix_miss(subs.drop_first(), i - 1, a, b);
        assert(subs.drop_first().skip(i - 1) =~= subs.skip(i));
        assert(!(subs[0].source@ == a && subs[0].target@ == b));
    } else {
        assert(subs.skip(0) =~= subs);
    }
}

proof fn lemma_lookup_update(subs: Seq<Subgraph>, i: int, e: Subgraph)
    requires
        0 <= i < subs.len(),
        forall|j: int|
            0 <= j < i ==> !(#[trigger] subs[j].source@ == e.source@ && subs[j].target@
                == e.target@),
        subs[i].source@ == e.source@,
        subs[i].target@ == e.target@,
    ensures
        lookup_subgraph(subs.update(i, e), e.source@, e.target@) == Some(e.matrix),
        lookup_subgraph(subs, e.source@, e.target@) == Some(subs[i].matrix),
        forall|a: Seq<char>, b: Seq<char>|
            !(a == e.source@ && b == e.target@) ==> #[trigger] lookup_subgraph(
                subs.update(i, e),
                a,
                b,
            ) == lookup_subgraph(subs, a, b),
    decreases i,
{
    if i > 0 {
        lemma_lookup_update(subs.drop_first(), i - 1, e);
        assert(subs.update(i, e).drop_first() =~= subs.drop_first().update(i - 1, e));
        assert(!(subs[0].source@ == e.source@ && subs[0].target@ == e.target@));
        assert forall|a: Seq<char>, b: Seq<char>|
            !(a == e.source@ && b == e.target@) implies #[trigger] lookup_subgraph(
                subs.update(i, e),
                a,
                b,
            ) == lookup_subgraph(subs, a, b) by {
            assert(subs.update(i, e)[0] == subs[0]);
            assert(lookup_subgraph(subs.drop_first().update(i - 1, e), a, b) == lookup_subgraph(
                subs.drop_first(),
                a,
                b,
            ));
        }
    } else {
        assert(subs.update(i, e).drop_first() =~= subs.drop_first());
        assert forall|a: Seq<char>, b: Seq<char>|
            !(a == e.source@ && b == e.target@) implies #[trigger] lookup_subgraph(
                subs.update(i, e),
                a,
                b,
            ) == lookup_subgraph(subs, a, b) by {
            assert(subs.update(i, e)[0] == e);
        }
    }
}

proof fn lemma_lookup_push(subs: Seq<Subgraph>, e: Subgraph)
    requires
        forall|j: int|
            0 <= j < subs.len() ==> !(#[trigger] subs[j].source@ == e.source@ && subs[j].target@
                == e.target@),
    ensures
        lookup_subgraph(subs.push(e), e.source@, e.target@) == Some(e.matrix),
        lookup_subgraph(subs, e.source@, e.target@) is None,
        forall|a: Seq<char>, b: Seq<char>|
            !(a == e.source@ && b == e.target@) ==> #[trigger] lookup_subgraph(subs.push(e), a, b)
                == lookup_subgraph(subs, a, b),
    decreases subs.len(),
{
    if subs.len() > 0 {
        lemma_lookup_push(subs.drop_first(), e);
        assert(subs.push(e).drop_first() =~= subs.drop_first().push(e));
        assert forall|a: Seq<char>, b: Seq<char>|
            !(a == e.source@ && b == e.target@) implies #[trigger] lookup_subgraph(
                subs.push(e),
                a,
                b,
            ) == lookup_subgraph(subs, a, b) by {
            assert(subs.push(e)[0] == subs[0]);
            assert(lookup_subgraph(subs.drop_first().push(e), a, b) == lookup_subgraph(
                subs.drop_first(),
                a,
                b,
            ));
        }
    } else {
        assert(subs.push(e).drop_first() =~= Seq::<Subgraph>::empty());
        assert forall|a: Seq<char>, b: Seq<char>|
            !(a == e.source@ && b == e.target@) implies #[trigger] lookup_subgraph(
                subs.push(e),
                a,
                b,
            ) == lookup_subgraph(subs, a, b) by {
            assert(subs.push(e)[0] == e);
            assert(lookup_subgraph(Seq::<Subgraph>::empty(), a, b) is None);
        }
    }
}

} // verus!
