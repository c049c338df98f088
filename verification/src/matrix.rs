//! Sparse adjacency matrices of one edge type, held in `sprs`'s CSR format.
use vstd::prelude::*;
use sprs::num_kinds::Pattern;
use sprs::{CsMatI, TriMatBase, TriMatI};

verus! {

#[verifier::external_type_specification]
#[verifier::external_body]
pub struct ExPattern(Pattern);

#[verifier::external_type_specification]
#[verifier::external_body]
#[verifier::reject_recursive_types(IStorage)]
#[verifier::reject_recursive_types(DStorage)]
pub struct ExTriMatBase<IStorage, DStorage>(TriMatBase<IStorage, DStorage>);

/// The shape `(rows, cols)` that a triplet matrix was made with.
pub uninterp spec fn triplet_shape(t: TriMatI<Pattern, u32>) -> (nat, nat);

/// The `(row, column)` positions that a triplet matrix stores, in storage order.
pub uninterp spec fn triplet_entries(t: TriMatI<Pattern, u32>) -> Seq<(u32, u32)>;

/// What `sprs::io::read_matrix_market_from_bufread` makes of a file's bytes,
/// read as a pattern matrix with `u32` indices: `None` where it panics or
/// does not return (an entry count too large to allocate for),
/// `Some(None)` where it returns an error, and otherwise the shape and the
/// stored `(row, column)` positions of the triplet matrix it returns.
pub uninterp spec fn matrix_market(bytes: Seq<u8>) -> Option<Option<((nat, nat), Seq<(u32, u32)>)>>;

/// Every stored position lies inside the shape.
pub open spec fn entries_in_shape(shape: (nat, nat), entries: Seq<(u32, u32)>) -> bool {
    forall|k: int|
        0 <= k < entries.len() ==> (#[trigger] entries[k]).0 < shape.0 && entries[k].1 < shape.1
}

/// Reads a MatrixMarket file with `sprs::io::read_matrix_market_from_bufread`.
///
/// Claimed of it: the result is a function of the bytes alone (named
/// `matrix_market`); an `Err` gives `None`; an `Ok` matrix is made by
/// `TriMatI::from_triplets`, which asserts that every stored position lies
/// inside the shape, so the positions of a result do. The reader panics on
/// some files (an index that does not fit `u32`, a position outside the
/// shape, an entry count too large to allocate for), hence the `requires`.
#[verifier::external_body]
pub(crate) fn read_triplets(bytes: &[u8]) -> (r: Option<TriMatI<Pattern, u32>>)
    requires
        matrix_market(bytes@) is Some,
    ensures
        match r {
            Some(t) => {
                &&& matrix_market(bytes@) == Some(Some((triplet_shape(t), triplet_entries(t))))
                &&& entries_in_shape(triplet_shape(t), triplet_entries(t))
            },
            None => matrix_market(bytes@) == Some(None::<((nat, nat), Seq<(u32, u32)>)>),
        },
{
    let mut reader: &[u8] = bytes;
    sprs::io::read_matrix_market_from_bufread(&mut reader).ok()
}

/// A pattern matrix in compressed sparse row format: row `i` lists the columns
/// of the edges that leave node `i`.
#[verifier::external_body]
pub struct AdjacencyMatrix {
    inner: CsMatI<Pattern, u32>,
}

/// The rows of an adjacency matrix, each the sequence of its column indices.
pub uninterp spec fn adjacency_rows(m: AdjacencyMatrix) -> Seq<Seq<u32>>;

/// The number of columns of an adjacency matrix.
pub uninterp spec fn adjacency_cols(m: AdjacencyMatrix) -> nat;

/// A sequence of column indices in strictly increasing order.
pub open spec fn strictly_increasing(s: Seq<u32>) -> bool {
    forall|i: int, j: int| 0 <= i < j < s.len() ==> s[i] < s[j]
}

/// Converts a triplet matrix to CSR with `sprs::TriMatBase::to_csr`.
///
/// Claimed of `to_csr`: the result has the shape of the triplets; row `i`
/// holds each column `c` for which `(i, c)` is stored, once, in increasing
/// order (repeated positions are merged). `to_csr` indexes its row pointers by
/// the stored row indices, and stores row and pointer indices as `u32`; it
/// panics where a stored row lies outside the shape or where the row count or
/// the number of entries does not fit, hence the `requires`.
#[verifier::external_body]
pub(crate) fn csr_from_triplets(t: &TriMatI<Pattern, u32>) -> (m: AdjacencyMatrix)
    requires
        triplet_shape(*t).0 <= u32::MAX,
        triplet_entries(*t).len() <= u32::MAX,
        forall|k: int|
            0 <= k < triplet_entries(*t).len() ==> ((#[trigger] triplet_entries(*t)[k]).0 as int)
                < triplet_shape(*t).0,
    ensures
        adjacency_rows(m).len() == triplet_shape(*t).0,
        adjacency_cols(m) == triplet_shape(*t).1,
        forall|i: int|
            0 <= i < adjacency_rows(m).len() ==> strictly_increasing(
                #[trigger] adjacency_rows(m)[i],
            ),
        forall|i: int, c: u32|
            0 <= i < adjacency_rows(m).len() ==> (#[trigger] adjacency_rows(m)[i].contains(c)
                <==> triplet_entries(*t).contains((i as u32, c))),
{
    AdjacencyMatrix { inner: t.to_csr() }
}

/// Wraps `sprs::CsMatBase::cols`: the number of columns.
#[verifier::external_body]
pub(crate) fn matrix_col_count(m: &AdjacencyMatrix) -> (r: usize)
    ensures
        r == adjacency_cols(*m),
{
    m.inner.cols()
}

/// Wraps `sprs::CsMatBase::rows`: the number of rows, which for a CSR
/// matrix is the number of its row slices.
#[verifier::external_body]
pub(crate) fn matrix_row_count(m: &AdjacencyMatrix) -> (r: usize)
    ensures
        r == adjacency_rows(*m).len(),
{
    m.inner.rows()
}

/// Wraps `sprs::CsMatBase::outer_view` followed by the view's index slice:
/// `Some` with the column indices of row `i` when the row exists, `None`
/// otherwise.
#[verifier::external_body]
pub(crate) fn matrix_row(m: &AdjacencyMatrix, i: usize) -> (r: Option<&[u32]>)
    ensures
        match r {
            Some(s) => i < adjacency_rows(*m).len() && s@ == adjacency_rows(*m)[i as int],
            None => i >= adjacency_rows(*m).len(),
        },
{
    match m.inner.outer_view(i) {
        Some(view) => Some(view.into_raw_storage().0),
        None => None,
    }
}

impl AdjacencyMatrix {
    /// The rows of this matrix.
    pub open spec fn rows_spec(&self) -> Seq<Seq<u32>> {
        adjacency_rows(*self)
    }

    /// The number of columns of this matrix.
    pub open spec fn cols_spec(&self) -> nat {
        adjacency_cols(*self)
    }

    /// Well-formedness: every row strictly increasing with every column
    /// index below the column count, and the row count fits the `u32` node
    /// identifiers.
    pub open spec fn wf(&self) -> bool {
        &&& self.rows_spec().len() <= u32::MAX
        &&& forall|i: int|
            0 <= i < self.rows_spec().len() ==> strictly_increasing(#[trigger] self.rows_spec()[i])
        &&& forall|i: int, j: int|
            0 <= i < self.rows_spec().len() && 0 <= j < self.rows_spec()[i].len() ==> (
            #[trigger] self.rows_spec()[i][j] as int) < self.cols_spec()
    }

    /// Whether the matrix is well formed.
    pub fn is_well_formed(&self) -> (r: bool)
        ensures
            r == self.wf(),
    {
        let n = self.rows();
        if n as u64 > u32::MAX as u64 {
            return false;
        }
        let cols = self.cols();
        for i in 0..n
            invariant
                n == self.rows_spec().len(),
                n <= u32::MAX,
                cols == self.cols_spec(),
                forall|k: int| 0 <= k < i ==> strictly_increasing(#[trigger] self.rows_spec()[k]),
                forall|k: int, j: int|
                    0 <= k < i && 0 <= j < self.rows_spec()[k].len() ==> (
                    #[trigger] self.rows_spec()[k][j] as int) < cols,
        {
            let row = self.row(i).unwrap();
            let len = row.len();
            let mut j: usize = 0;
            while j < len
                invariant
                    0 <= i < n,
                    n == self.rows_spec().len(),
                    cols == self.cols_spec(),
                    row@ == self.rows_spec()[i as int],
                    len == row@.len(),
                    forall|a: int, b: int| 0 <= a < b < j && b < len ==> row@[a] < row@[b],
                    forall|b: int| 0 <= b < j ==> (#[trigger] row@[b] as int) < cols,
                decreases len - j,
            {
                if row[j] as usize >= cols {
                    assert(!self.wf()) by {
                        assert(self.rows_spec()[i as int][j as int] == row@[j as int]);
                    }
                    return false;
                }
                if j > 0 && row[j - 1] >= row[j] {
                    assert(!strictly_increasing(self.rows_spec()[i as int])) by {
                        assert(row@[j - 1] >= row@[j as int]);
                    }
                    return false;
                }
                j = j + 1;
            }
            assert(strictly_increasing(self.rows_spec()[i as int]));
        }
        true
    }

    /// The number of rows.
    pub fn rows(&self) -> (r: usize)
        ensures
            r == self.rows_spec().len(),
    {
        matrix_row_count(self)
    }

    /// The number of columns.
    pub fn cols(&self) -> (r: usize)
        ensures
            r == self.cols_spec(),
    {
        matrix_col_count(self)
    }

    /// The CSR matrix of a triplet matrix whose stored positions lie inside
    /// its shape: one row per row of the shape, row `i` holding, in increasing
    /// order and once each, the columns `c` of the stored positions `(i, c)`.
    pub fn from_triplets(t: &TriMatI<Pattern, u32>) -> (m: AdjacencyMatrix)
        requires
            triplet_shape(*t).0 <= u32::MAX,
            triplet_entries(*t).len() <= u32::MAX,
            entries_in_shape(triplet_shape(*t), triplet_entries(*t)),
        ensures
            m.wf(),
            m.rows_spec().len() == triplet_shape(*t).0,
            m.cols_spec() == triplet_shape(*t).1,
            forall|i: int, c: u32|
                0 <= i < m.rows_spec().len() ==> (#[trigger] m.rows_spec()[i].contains(c)
                    <==> triplet_entries(*t).contains((i as u32, c))),
    {
        let m = csr_from_triplets(t);
        proof {
            assert forall|i: int, j: int|
                0 <= i < m.rows_spec().len() && 0 <= j < m.rows_spec()[i].len() implies (
                #[trigger] m.rows_spec()[i][j] as int) < m.cols_spec() by {
                let c = m.rows_spec()[i][j];
                assert(m.rows_spec()[i].contains(c));
                assert(triplet_entries(*t).contains((i as u32, c)));
                let k = choose|k: int| 0 <= k < triplet_entries(*t).len() && triplet_entries(*t)[k] == (i as u32, c);
            }
        }
        m
    }

    /// The column indices of row `i`, `None` past the last row.
    pub fn row(&self, i: usize) -> (r: Option<&[u32]>)
        ensures
            match r {
                Some(s) => i < self.rows_spec().len() && s@ == self.rows_spec()[i as int],
                None => i >= self.rows_spec().len(),
            },
    {
        matrix_row(self, i)
    }
}

} // verus!
