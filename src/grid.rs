//! Dense integer matrices, held in an `ndarray::Array2<i64>` and seen
//! through their rows.

use ndarray::Array2;
use vstd::prelude::*;

verus! {

/// A dense matrix of `i64` entries.
#[verifier::external_body]
pub struct Matrix {
    inner: Array2<i64>,
}

/// The entries of a matrix, row by row.
pub uninterp spec fn grid_of(m: Matrix) -> Seq<Seq<i64>>;

impl View for Matrix {
    type V = Seq<Seq<i64>>;

    open spec fn view(&self) -> Seq<Seq<i64>> {
        grid_of(*self)
    }
}

/// Every row of `g` has `cols` entries.
pub open spec fn is_rect(g: Seq<Seq<i64>>, cols: int) -> bool {
    forall|i: int| 0 <= i < g.len() ==> #[trigger] g[i].len() == cols
}

/// `g` has `rows` rows of `cols` entries each.
pub open spec fn has_shape(g: Seq<Seq<i64>>, rows: int, cols: int) -> bool {
    g.len() == rows && is_rect(g, cols)
}

impl Matrix {
    /// Relies on `Array2::zeros`: a `rows` by `cols` matrix of zeros.
    #[verifier::external_body]
    pub(crate) fn zeros(rows: usize, cols: usize) -> (r: Matrix)
        requires
            rows <= isize::MAX,
            cols <= isize::MAX,
            rows * cols <= isize::MAX,
        ensures
            has_shape(grid_of(r), rows as int, cols as int),
            forall|i: int, j: int| 0 <= i < rows && 0 <= j < cols ==> #[trigger] grid_of(r)[i][j] == 0,
    {
        Matrix { inner: Array2::<i64>::zeros((rows, cols)) }
    }

    /// Relies on `Clone` for `Array2`, which copies every entry.
    #[verifier::external_body]
    pub(crate) fn copy(&self) -> (r: Matrix)
        ensures
            grid_of(r) == grid_of(*self),
    {
        Matrix { inner: self.inner.clone() }
    }

    /// Relies on `ArrayBase::nrows`: the number of rows.
    #[verifier::external_body]
    pub(crate) fn nrows(&self) -> (r: usize)
        ensures
            r == grid_of(*self).len(),
    {
        self.inner.nrows()
    }

    /// Relies on `ArrayBase::ncols`: every row holds this many entries.
    #[verifier::external_body]
    pub(crate) fn ncols(&self) -> (r: usize)
        ensures
            is_rect(grid_of(*self), r as int),
    {
        self.inner.ncols()
    }

    /// Relies on indexing `a[[i, j]]`, which reads the entry in row `i`,
    /// column `j`.
    #[verifier::external_body]
    pub(crate) fn at(&self, i: usize, j: usize) -> (r: i64)
        requires
            i < grid_of(*self).len(),
            j < grid_of(*self)[i as int].len(),
        ensures
            r == grid_of(*self)[i as int][j as int],
    {
        self.inner[[i, j]]
    }

    /// Relies on mutable indexing `a[[i, j]] = v`, which writes one entry and
    /// leaves every other as it was.
    #[verifier::external_body]
    pub(crate) fn set_at(&mut self, i: usize, j: usize, v: i64)
        requires
            i < grid_of(*old(self)).len(),
            j < grid_of(*old(self))[i as int].len(),
        ensures
            grid_of(*final(self)) == grid_of(*old(self)).update(i as int, grid_of(*old(self))[i as int].update(j as int, v)),
    {
        self.inner[[i, j]] = v;
    }
}

impl Matrix {
    /// The matrix whose rows are `rows`, each of `cols` entries; `None` where
    /// some row has another length.
    pub fn from_rows(rows: &Vec<Vec<i64>>, cols: usize) -> (r: Option<Matrix>)
        requires
            rows@.len() <= isize::MAX,
            cols <= isize::MAX,
            rows@.len() * cols <= isize::MAX,
        ensures
            r is Some <==> forall|i: int| 0 <= i < rows@.len() ==> #[trigger] rows@[i]@.len() == cols,
            r matches Some(m) ==> has_shape(m@, rows@.len() as int, cols as int) && forall|i: int|
                0 <= i < rows@.len() ==> #[trigger] m@[i] == rows@[i]@,
    {
        let n = rows.len();
        let mut i: usize = 0;
        while i < n
            invariant
                i <= n,
                n == rows@.len(),
                forall|k: int| 0 <= k < i ==> #[trigger] rows@[k]@.len() == cols,
            decreases n - i,
        {
            if rows[i].len() != cols {
                return None;
            }
            i = i + 1;
        }
        let mut m = Matrix::zeros(n, cols);
        let mut i: usize = 0;
        while i < n
            invariant
                i <= n,
                n == rows@.len(),
                forall|k: int| 0 <= k < n ==> #[trigger] rows@[k]@.len() == cols,
                has_shape(m@, n as int, cols as int),
                forall|k: int, j: int|
                    0 <= k < n && 0 <= j < cols ==> #[trigger] m@[k][j] == if k < i {
                        rows@[k]@[j]
                    } else {
                        0
                    },
            decreases n - i,
        {
            let mut j: usize = 0;
            while j < cols
                invariant
                    j <= cols,
                    i < n,
                    n == rows@.len(),
                    forall|k: int| 0 <= k < n ==> #[trigger] rows@[k]@.len() == cols,
                    has_shape(m@, n as int, cols as int),
                    forall|k: int, jj: int|
                        0 <= k < n && 0 <= jj < cols ==> #[trigger] m@[k][jj] == if k < i || (k == i
                            && jj < j) {
                            rows@[k]@[jj]
                        } else {
                            0
                        },
                decreases cols - j,
            {
                let ghost before = m@;
                m.set_at(i, j, rows[i][j]);
                assert forall|k: int| 0 <= k < n implies #[trigger] m@[k].len() == cols by {
                    assert(before[k].len() == cols);
                }
                j = j + 1;
            }
            i = i + 1;
        }
        assert forall|k: int| 0 <= k < n implies #[trigger] m@[k] == rows@[k]@ by {
            assert(m@[k] =~= rows@[k]@);
        }
        Some(m)
    }

    /// The rows of the matrix.
    pub fn to_rows(&self) -> (r: Vec<Vec<i64>>)
        ensures
            r@.len() == self@.len(),
            forall|i: int| 0 <= i < self@.len() ==> #[trigger] r@[i]@ == self@[i],
    {
        let n = self.nrows();
        let mut out: Vec<Vec<i64>> = Vec::new();
        if n == 0 {
            return out;
        }
        let c = self.ncols();
        let mut i: usize = 0;
        while i < n
            invariant
                i <= n,
                n == self@.len(),
                is_rect(self@, c as int),
                out@.len() == i,
                forall|k: int| 0 <= k < i ==> #[trigger] out@[k]@ == self@[k],
            decreases n - i,
        {
            let mut row: Vec<i64> = Vec::new();
            let mut j: usize = 0;
            while j < c
                invariant
                    j <= c,
                    i < n,
                    n == self@.len(),
                    is_rect(self@, c as int),
                    row@.len() == j,
                    forall|jj: int| 0 <= jj < j ==> #[trigger] row@[jj] == self@[i as int][jj],
                decreases c - j,
            {
                row.push(self.at(i, j));
                j = j + 1;
            }
            assert(row@ =~= self@[i as int]);
            out.push(row);
            i = i + 1;
        }
        out
    }

    /// The number of rows.
    pub fn rows(&self) -> (r: usize)
        ensures
            r == self@.len(),
    {
        self.nrows()
    }
}

} // verus!
