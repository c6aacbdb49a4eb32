//! A dense row-major matrix of single-precision bit patterns.

use vstd::prelude::*;

verus! {

/// A matrix of `rows` by `cols` patterns, stored row after row.
#[derive(Debug)]
pub struct Matrix {
    rows: usize,
    cols: usize,
    data: Vec<u32>,
}

/// The position of entry `(i, j)` in row-major storage stays inside the storage.
pub proof fn lemma_position_in_bounds(rows: int, cols: int, i: int, j: int)
    requires
        0 <= i < rows,
        0 <= j < cols,
    ensures
        0 <= i * cols + j < rows * cols,
        i * cols + cols <= rows * cols,
        0 <= i * cols,
{
    assert(i * cols + cols <= rows * cols) by (nonlinear_arith)
        requires
            0 <= i < rows,
            0 <= cols,
    ;
    assert(0 <= i * cols) by (nonlinear_arith)
        requires
            0 <= i,
            0 <= cols,
    ;
}

/// Fewer rows of the same width need no more storage.
pub proof fn lemma_fewer_rows_fit(fewer: int, rows: int, cols: int)
    requires
        0 <= fewer <= rows,
        0 <= cols,
    ensures
        0 <= fewer * cols <= rows * cols,
{
    assert(0 <= fewer * cols <= rows * cols) by (nonlinear_arith)
        requires
            0 <= fewer <= rows,
            0 <= cols,
    ;
}

/// Two different entries have different positions in row-major storage.
pub proof fn lemma_position_injective(cols: int, i: int, j: int, p: int, q: int)
    requires
        0 <= j < cols,
        0 <= q < cols,
        i * cols + j == p * cols + q,
    ensures
        i == p,
        j == q,
{
    assert(i == p) by (nonlinear_arith)
        requires
            0 <= j < cols,
            0 <= q < cols,
            i * cols + j == p * cols + q,
    ;
}

impl Matrix {
    /// Whether the storage holds exactly `rows() * cols()` entries. Every
    /// matrix that this module hands out is well formed.
    pub closed spec fn wf(&self) -> bool {
        self.data@.len() == self.rows * self.cols
    }

    /// The number of rows.
    pub closed spec fn rows(&self) -> nat {
        self.rows as nat
    }

    /// The number of columns.
    pub closed spec fn cols(&self) -> nat {
        self.cols as nat
    }

    /// The entry in row `i` and column `j`.
    pub closed spec fn at(&self, i: int, j: int) -> u32 {
        self.data@[i * self.cols + j]
    }

    /// Row `i` as a sequence of `cols()` entries.
    pub open spec fn row(&self, i: int) -> Seq<u32> {
        Seq::new(self.cols(), |j: int| self.at(i, j))
    }

    /// A matrix of the given shape filled with positive zero.
    pub fn zeros(rows: usize, cols: usize) -> (m: Matrix)
        requires
            rows * cols <= usize::MAX,
        ensures
            m.wf(),
            m.rows() == rows,
            m.cols() == cols,
            forall|i: int, j: int| 0 <= i < rows && 0 <= j < cols ==> m.at(i, j) == 0,
    {
        let n: usize = rows * cols;
        let data: Vec<u32> = vec![0u32; n];
        let m = Matrix { rows, cols, data };
        assert forall|i: int, j: int| 0 <= i < rows && 0 <= j < cols implies m.at(i, j) == 0 by {
            lemma_position_in_bounds(rows as int, cols as int, i, j);
        }
        m
    }

    /// The matrix whose rows lie one after another in `data`, or `None` where
    /// `data` does not hold `rows * cols` entries.
    pub fn from_vec(rows: usize, cols: usize, data: Vec<u32>) -> (r: Option<Matrix>)
        ensures
            r is Some <==> data@.len() == rows * cols,
            r matches Some(m) ==> {
                &&& m.wf()
                &&& m.rows() == rows
                &&& m.cols() == cols
                &&& forall|i: int, j: int|
                    0 <= i < rows && 0 <= j < cols ==> m.at(i, j) == data@[i * cols + j]
            },
    {
        let len: usize = data.len();
        match rows.checked_mul(cols) {
            Some(n) => {
                if len == n {
                    Some(Matrix { rows, cols, data })
                } else {
                    None
                }
            },
            None => None,
        }
    }

    /// The number of rows.
    pub fn nrows(&self) -> (n: usize)
        ensures
            n == self.rows(),
    {
        self.rows
    }

    /// The number of columns.
    pub fn ncols(&self) -> (n: usize)
        ensures
            n == self.cols(),
    {
        self.cols
    }

    /// The entry in row `i` and column `j`.
    pub fn get(&self, i: usize, j: usize) -> (v: u32)
        requires
            self.wf(),
            i < self.rows(),
            j < self.cols(),
        ensures
            v == self.at(i as int, j as int),
    {
        proof {
            assert(self.data.len() <= usize::MAX);
            lemma_position_in_bounds(self.rows as int, self.cols as int, i as int, j as int);
        }
        self.data[i * self.cols + j]
    }

    /// Replaces the entry in row `i` and column `j`.
    pub fn set(&mut self, i: usize, j: usize, value: u32)
        requires
            old(self).wf(),
            i < old(self).rows(),
            j < old(self).cols(),
        ensures
            final(self).wf(),
            final(self).rows() == old(self).rows(),
            final(self).cols() == old(self).cols(),
            final(self).at(i as int, j as int) == value,
            forall|p: int, q: int|
                0 <= p < old(self).rows() && 0 <= q < old(self).cols() && (p != i || q != j)
                    ==> final(self).at(p, q) == old(self).at(p, q),
    {
        proof {
            assert(self.data.len() <= usize::MAX);
            lemma_position_in_bounds(self.rows as int, self.cols as int, i as int, j as int);
        }
        let at: usize = i * self.cols + j;
        self.data.set(at, value);
        proof {
            assert forall|p: int, q: int|
                0 <= p < old(self).rows() && 0 <= q < old(self).cols() && (p != i || q != j)
                implies self.at(p, q) == old(self).at(p, q) by {
                lemma_position_in_bounds(self.rows as int, self.cols as int, p, q);
                if p * self.cols + q == i * self.cols + j {
                    lemma_position_injective(self.cols as int, p, q, i as int, j as int);
                }
            }
        }
    }

    /// Replaces row `i` by row `j` of `source`.
    pub fn copy_row(&mut self, i: usize, source: &Matrix, j: usize)
        requires
            old(self).wf(),
            source.wf(),
            i < old(self).rows(),
            j < source.rows(),
            old(self).cols() == source.cols(),
        ensures
            final(self).wf(),
            final(self).rows() == old(self).rows(),
            final(self).cols() == old(self).cols(),
            final(self).row(i as int) == source.row(j as int),
            forall|p: int|
                0 <= p < old(self).rows() && p != i ==> final(self).row(p) == old(self).row(p),
    {
        let cols: usize = self.cols;
        let mut col: usize = 0;
        while col < cols
            invariant
                col <= cols,
                cols == self.cols(),
                self.wf(),
                source.wf(),
                self.rows() == old(self).rows(),
                self.cols() == old(self).cols(),
                self.cols() == source.cols(),
                i < self.rows(),
                j < source.rows(),
                forall|q: int| 0 <= q < col ==> self.at(i as int, q) == source.at(j as int, q),
                forall|p: int, q: int|
                    0 <= p < self.rows() && 0 <= q < self.cols() && p != i ==> self.at(p, q)
                        == old(self).at(p, q),
            decreases cols - col,
        {
            let value: u32 = source.get(j, col);
            self.set(i, col, value);
            col += 1;
        }
        proof {
            assert(self.row(i as int) =~= source.row(j as int));
            assert forall|p: int| 0 <= p < old(self).rows() && p != i implies self.row(p) == old(
                self,
            ).row(p) by {
                assert(self.row(p) =~= old(self).row(p));
            }
        }
    }

    /// The matrix whose row `i` is row `picks[i]` of this one.
    pub fn gather(&self, picks: &Vec<usize>) -> (m: Matrix)
        requires
            self.wf(),
            forall|i: int| 0 <= i < picks@.len() ==> picks@[i] < self.rows(),
            picks@.len() * self.cols() <= usize::MAX,
        ensures
            m.wf(),
            m.rows() == picks@.len(),
            m.cols() == self.cols(),
            forall|i: int| 0 <= i < picks@.len() ==> m.row(i) == self.row(picks@[i] as int),
    {
        let count: usize = picks.len();
        let mut m = Matrix::zeros(count, self.cols);
        let mut i: usize = 0;
        while i < count
            invariant
                i <= count,
                count == picks@.len(),
                self.wf(),
                m.wf(),
                m.rows() == count,
                m.cols() == self.cols(),
                forall|p: int| 0 <= p < picks@.len() ==> picks@[p] < self.rows(),
                forall|p: int| 0 <= p < i ==> m.row(p) == self.row(picks@[p] as int),
            decreases count - i,
        {
            m.copy_row(i, self, picks[i]);
            i += 1;
        }
        m
    }

    /// The numbers of rows and of columns are machine integers.
    pub proof fn lemma_shape_fits(&self)
        ensures
            self.rows() <= usize::MAX,
            self.cols() <= usize::MAX,
    {
    }

    /// The storage of a well-formed matrix fits the address space.
    pub proof fn lemma_size_fits(&self)
        requires
            self.wf(),
        ensures
            self.rows() * self.cols() <= usize::MAX,
    {
        assert(self.data.len() <= usize::MAX);
    }

    /// The entries, row after row.
    pub fn into_vec(self) -> (data: Vec<u32>)
        requires
            self.wf(),
        ensures
            data@.len() == self.rows() * self.cols(),
            forall|i: int, j: int|
                0 <= i < self.rows() && 0 <= j < self.cols() ==> data@[i * self.cols() + j]
                    == self.at(i, j),
    {
        self.data
    }
}

impl View for Matrix {
    type V = Seq<Seq<u32>>;

    /// The rows, each a sequence of `cols()` entries.
    open spec fn view(&self) -> Seq<Seq<u32>> {
        Seq::new(self.rows(), |i: int| self.row(i))
    }
}

} // verus!
