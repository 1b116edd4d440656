//! Dense count matrices and their integer utilities: the bridge to the
//! `ndarray` matrix that backs a materialized count matrix, the per-column
//! document frequency, and the IDF smoothing arithmetic.

use vstd::prelude::*;

verus! {

/// A dense documents-by-vocabulary matrix of term counts, backed by a
/// two-dimensional `ndarray` array. Row `i`, column `j` holds the number of
/// times the token with id `j` occurs in document `i`.
#[verifier::external_body]
pub struct CountMatrix {
    inner: ndarray::Array2<u64>,
}

/// The rows of a dense count matrix, as mathematical sequences.
pub uninterp spec fn mat_contents(m: CountMatrix) -> Seq<Seq<u64>>;

impl CountMatrix {
    /// Relies on `ndarray::Array2::from_shape_vec`: for shape `(rows, cols)`
    /// and a vector of exactly `rows * cols` elements it returns `Ok` with the
    /// matrix whose row `i`, column `j` holds element `i * cols + j` of the
    /// vector (row-major order).
    #[verifier::external_body]
    pub(crate) fn from_flat(rows: usize, cols: usize, flat: Vec<u64>) -> (m: CountMatrix)
        requires
            flat@.len() == rows * cols,
        ensures
            mat_contents(m).len() == rows,
            forall|i: int| 0 <= i < rows ==> (#[trigger] mat_contents(m)[i]).len() == cols,
            forall|i: int, j: int|
                0 <= i < rows && 0 <= j < cols ==> mat_contents(m)[i][j] == flat@[i * cols + j],
    {
        CountMatrix { inner: ndarray::Array2::from_shape_vec((rows, cols), flat).unwrap() }
    }

    /// Relies on `ndarray::ArrayBase::nrows`: the number of rows of a
    /// two-dimensional array.
    #[verifier::external_body]
    pub fn nrows(&self) -> (r: usize)
        ensures
            r == mat_contents(*self).len(),
    {
        self.inner.nrows()
    }

    /// Relies on `ndarray::ArrayBase::ncols`: the number of columns of a
    /// two-dimensional array, which every row has as its length.
    #[verifier::external_body]
    pub fn ncols(&self) -> (r: usize)
        ensures
            forall|i: int|
                0 <= i < mat_contents(*self).len() ==> (#[trigger] mat_contents(*self)[i]).len()
                    == r,
    {
        self.inner.ncols()
    }

    /// Relies on `ndarray` indexing with `[row, column]`, which returns the
    /// element at that position and panics only out of bounds.
    #[verifier::external_body]
    pub fn get(&self, i: usize, j: usize) -> (v: u64)
        requires
            i < mat_contents(*self).len(),
            j < mat_contents(*self)[i as int].len(),
        ensures
            v == mat_contents(*self)[i as int][j as int],
    {
        self.inner[[i, j]]
    }

    /// The matrix as a vector of rows.
    pub fn rows(&self) -> (r: Vec<Vec<u64>>)
        ensures
            r.deep_view() == mat_contents(*self),
    {
        let n = self.nrows();
        let c = self.ncols();
        let mut r: Vec<Vec<u64>> = Vec::new();
        for i in 0..n
            invariant
                n == mat_contents(*self).len(),
                forall|k: int|
                    0 <= k < n ==> (#[trigger] mat_contents(*self)[k]).len() == c,
                r@.len() == i,
                forall|k: int| 0 <= k < i ==> (#[trigger] r@[k])@ == mat_contents(*self)[k],
        {
            let mut row: Vec<u64> = Vec::new();
            for j in 0..c
                invariant
                    n == mat_contents(*self).len(),
                    i < n,
                    forall|k: int|
                        0 <= k < n ==> (#[trigger] mat_contents(*self)[k]).len() == c,
                    row@ =~= mat_contents(*self)[i as int].take(j as int),
            {
                row.push(self.get(i, j));
                proof {
                    assert(row@ =~= mat_contents(*self)[i as int].take(j + 1));
                }
            }
            proof {
                assert(row@ =~= mat_contents(*self)[i as int]);
            }
            r.push(row);
        }
        proof {
            assert(r.deep_view() =~~= mat_contents(*self));
        }
        r
    }
}

/// The document frequency of column `j`: the number of rows whose entry in
/// column `j` is nonzero.
pub open spec fn spec_doc_frequency(rows: Seq<Seq<u64>>, j: int) -> nat
    decreases rows.len(),
{
    if rows.len() == 0 {
        0
    } else {
        spec_doc_frequency(rows.drop_last(), j) + if rows.last()[j] != 0 {
            1nat
        } else {
            0nat
        }
    }
}

/// No column is nonzero in more rows than there are.
pub proof fn lemma_doc_frequency_le(rows: Seq<Seq<u64>>, j: int)
    ensures
        spec_doc_frequency(rows, j) <= rows.len(),
    decreases rows.len(),
{
    if rows.len() > 0 {
        lemma_doc_frequency_le(rows.drop_last(), j);
    }
}

/// Per column, the number of rows with a nonzero entry in that column. The
/// matrix is given as its rows, all of one width.
pub fn document_frequency(m: &Vec<Vec<u64>>) -> (df: Vec<u64>)
    requires
        forall|i: int|
            0 <= i < m@.len() ==> (#[trigger] m.deep_view()[i]).len() == m.deep_view()[0].len(),
    ensures
        df@.len() == if m@.len() == 0 {
            0int
        } else {
            m.deep_view()[0].len() as int
        },
        forall|j: int| 0 <= j < df@.len() ==> df@[j] == spec_doc_frequency(m.deep_view(), j),
{
    let ghost rows = m.deep_view();
    let n = m.len();
    let mut df: Vec<u64> = Vec::new();
    if n == 0 {
        return df;
    }
    let w = m[0].len();
    for j in 0..w
        invariant
            rows == m.deep_view(),
            n == rows.len(),
            n > 0,
            w == rows[0].len(),
            forall|i: int| 0 <= i < n ==> (#[trigger] rows[i]).len() == w,
            df@.len() == j,
            forall|j2: int| 0 <= j2 < j ==> df@[j2] == spec_doc_frequency(rows, j2),
    {
        let mut c: u64 = 0;
        for i in 0..n
            invariant
                rows == m.deep_view(),
                n == rows.len(),
                j < w,
                forall|i2: int| 0 <= i2 < n ==> (#[trigger] rows[i2]).len() == w,
                c == spec_doc_frequency(rows.take(i as int), j as int),
                c <= i,
        {
            proof {
                assert(rows.take(i + 1).drop_last() =~= rows.take(i as int));
                assert(rows.take(i + 1).last() == rows[i as int]);
                assert(m@[i as int]@ == rows[i as int]);
            }
            if m[i][j] != 0 {
                c = c + 1;
            }
        }
        proof {
            assert(rows.take(n as int) =~= rows);
        }
        df.push(c);
    }
    df
}

} // verus!
