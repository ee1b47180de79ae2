use vstd::prelude::*;

use crate::ast::Operator;
use crate::errors::EvaluationError;
use crate::scalar::Scalar;

verus! {

/// `r * cols + c` addresses a cell inside a `rows` by `cols` buffer.
pub proof fn lemma_cell_index(r: int, c: int, rows: int, cols: int)
    requires
        0 <= r < rows,
        0 <= c < cols,
    ensures
        0 <= r * cols + c < rows * cols,
        r * cols + c >= r * cols,
        (r + 1) * cols == r * cols + cols,
{
    assert(0 <= r * cols + c < rows * cols) by (nonlinear_arith)
        requires
            0 <= r < rows,
            0 <= c < cols,
    ;
    assert((r + 1) * cols == r * cols + cols) by (nonlinear_arith);
}

/// A dense matrix, stored row by row.
#[derive(Debug, Clone)]
pub struct Matrix<T> {
    data: Vec<T>,
    rows: usize,
    cols: usize,
}

impl<T> Matrix<T> {
    /// Number of rows.
    pub closed spec fn spec_nrows(&self) -> nat {
        self.rows as nat
    }

    /// Number of columns.
    pub closed spec fn spec_ncols(&self) -> nat {
        self.cols as nat
    }

    /// The buffer holds exactly one cell per row and column.
    pub closed spec fn wf(&self) -> bool {
        self.data@.len() == self.rows * self.cols
    }

    /// The cell in row `r` and column `c`.
    pub closed spec fn cell(&self, r: int, c: int) -> T {
        self.data@[r * self.cols + c]
    }
}

impl<T> View for Matrix<T> {
    /// Rows, columns, and the cells row by row.
    type V = (nat, nat, Seq<T>);

    closed spec fn view(&self) -> (nat, nat, Seq<T>) {
        (self.rows as nat, self.cols as nat, self.data@)
    }
}

/// `m` is `rows` by `cols` and well formed.
pub open spec fn has_shape<T>(m: Matrix<T>, rows: nat, cols: nat) -> bool {
    m.wf() && m.spec_nrows() == rows && m.spec_ncols() == cols
}

impl<T: Scalar> Matrix<T> {
    /// The empty matrix, with no rows and no columns.
    pub fn new() -> (r: Self)
        ensures
            has_shape(r, 0, 0),
    {
        Matrix { data: Vec::new(), rows: 0, cols: 0 }
    }

    /// A `nrows` by `ncols` matrix with every cell `value`.
    fn filled(nrows: usize, ncols: usize, value: T) -> (r: Self)
        requires
            nrows * ncols <= usize::MAX,
        ensures
            has_shape(r, nrows as nat, ncols as nat),
            forall|i: int, j: int| 0 <= i < nrows && 0 <= j < ncols ==> #[trigger] r.cell(i, j) == value,
    {
        let n = nrows * ncols;
        let mut data: Vec<T> = Vec::new();
        while data.len() < n
            invariant
                data@.len() <= n,
                forall|k: int| 0 <= k < data@.len() ==> data@[k] == value,
            decreases n - data@.len(),
        {
            data.push(value);
        }
        let r = Matrix { data, rows: nrows, cols: ncols };
        proof {
            assert forall|i: int, j: int| 0 <= i < nrows && 0 <= j < ncols implies #[trigger] r.cell(i, j) == value by {
                lemma_cell_index(i, j, nrows as int, ncols as int);
            }
        }
        r
    }

    /// Builds a matrix from its rows. An empty list gives the empty matrix;
    /// a row whose length differs from the first row's is an error.
    pub fn try_from_rows(data: Vec<Vec<T>>) -> (r: Result<Self, EvaluationError>)
        ensures
            data@.len() == 0 ==> r is Ok && has_shape(r->Ok_0, 0, 0),
            data@.len() > 0 ==> match r {
                Ok(m) => {
                    &&& has_shape(m, data@.len(), data@[0]@.len())
                    &&& forall|i: int| 0 <= i < data@.len() ==> #[trigger] data@[i]@.len() == data@[0]@.len()
                    &&& forall|i: int, j: int|
                        0 <= i < data@.len() && 0 <= j < data@[0]@.len() ==> m.cell(i, j) == #[trigger] data@[i]@[j]
                },
                Err(e) => exists|i: int|
                    0 <= i < data@.len() && #[trigger] data@[i]@.len() != data@[0]@.len() && e
                        == EvaluationError::InconsistantMatrixWidth(data@[0]@.len() as usize, data@[i]@.len() as usize)
                        && forall|k: int| 0 <= k < i ==> #[trigger] data@[k]@.len() == data@[0]@.len(),
            },
    {
        let height = data.len();
        if height == 0 {
            return Ok(Matrix::new());
        }
        let width = data[0].len();
        let mut i: usize = 0;
        while i < height
            invariant
                i <= height,
                height == data@.len(),
                width == data@[0]@.len(),
                forall|k: int| 0 <= k < i ==> #[trigger] data@[k]@.len() == width,
            decreases height - i,
        {
            if data[i].len() != width {
                return Err(EvaluationError::InconsistantMatrixWidth(width, data[i].len()));
            }
            i = i + 1;
        }
        let mut flat: Vec<T> = Vec::new();
        let mut r: usize = 0;
        while r < height
            invariant
                r <= height,
                height == data@.len(),
                width == data@[0]@.len(),
                forall|k: int| 0 <= k < height ==> #[trigger] data@[k]@.len() == width,
                flat@.len() == r * width,
                forall|a: int, b: int|
                    0 <= a < r && 0 <= b < width ==> flat@[a * width + b] == #[trigger] data@[a]@[b],
            decreases height - r,
        {
            let mut c: usize = 0;
            proof {
                assert((r + 1) * width == r * width + width) by (nonlinear_arith);
            }
            while c < width
                invariant
                    r < height,
                    c <= width,
                    height == data@.len(),
                    width == data@[0]@.len(),
                    forall|k: int| 0 <= k < height ==> #[trigger] data@[k]@.len() == width,
                    flat@.len() == r * width + c,
                    (r + 1) * width == r * width + width,
                    forall|a: int, b: int|
                        0 <= a < r && 0 <= b < width ==> flat@[a * width + b] == #[trigger] data@[a]@[b],
                    forall|b: int| 0 <= b < c ==> flat@[r * width + b] == #[trigger] data@[r as int]@[b],
                decreases width - c,
            {
                proof {
                    lemma_cell_index(r as int, c as int, height as int, width as int);
                }
                let ghost before = flat@;
                flat.push(data[r][c]);
                proof {
                    assert forall|a: int, b: int|
                        0 <= a < r && 0 <= b < width implies flat@[a * width + b] == #[trigger] data@[a]@[b] by {
                        lemma_cell_index(a, b, r as int, width as int);
                        assert(flat@[a * width + b] == before[a * width + b]);
                    }
                }
                c = c + 1;
            }
            proof {
                assert forall|a: int, b: int|
                    0 <= a < r + 1 && 0 <= b < width implies flat@[a * width + b] == #[trigger] data@[a]@[b] by {
                    if a == r {
                        assert(flat@[r * width + b] == data@[r as int]@[b]);
                    }
                }
            }
            r = r + 1;
        }
        let m = Matrix { data: flat, rows: height, cols: width };
        Ok(m)
    }
}

} // verus!

verus! {

/// The cells of `m` in rows `r1` and `r2` and columns `start..end` trade
/// places; everything else of `old_m` is kept.
pub open spec fn rows_swapped<T>(old_m: Matrix<T>, m: Matrix<T>, r1: int, r2: int, start: int, end: int) -> bool {
    &&& m.wf()
    &&& m.spec_nrows() == old_m.spec_nrows()
    &&& m.spec_ncols() == old_m.spec_ncols()
    &&& forall|i: int, j: int|
        0 <= i < m.spec_nrows() && 0 <= j < m.spec_ncols() ==> #[trigger] m.cell(i, j) == if start <= j
            < end && i == r1 {
            old_m.cell(r2, j)
        } else if start <= j < end && i == r2 {
            old_m.cell(r1, j)
        } else {
            old_m.cell(i, j)
        }
}

impl<T: Scalar> Matrix<T> {
    /// The cell in row `r` and column `c`.
    fn at(&self, r: usize, c: usize) -> (v: T)
        requires
            self.wf(),
            r < self.spec_nrows(),
            c < self.spec_ncols(),
        ensures
            v == self.cell(r as int, c as int),
    {
        let cells = self.data.len();
        proof {
            lemma_cell_index(r as int, c as int, self.rows as int, self.cols as int);
            assert(r * self.cols + c < cells);
        }
        self.data[r * self.cols + c]
    }

    /// Overwrites the cell in row `r` and column `c`.
    fn put(&mut self, r: usize, c: usize, v: T)
        requires
            old(self).wf(),
            r < old(self).spec_nrows(),
            c < old(self).spec_ncols(),
        ensures
            final(self).wf(),
            final(self).spec_nrows() == old(self).spec_nrows(),
            final(self).spec_ncols() == old(self).spec_ncols(),
            forall|i: int, j: int|
                0 <= i < old(self).spec_nrows() && 0 <= j < old(self).spec_ncols() ==> #[trigger] final(self).cell(i, j)
                    == if i == r && j == c {
                    v
                } else {
                    old(self).cell(i, j)
                },
    {
        let cells = self.data.len();
        proof {
            lemma_cell_index(r as int, c as int, self.rows as int, self.cols as int);
            assert(r * self.cols + c < cells);
        }
        let k = r * self.cols + c;
        self.data.set(k, v);
        proof {
            assert forall|i: int, j: int|
                0 <= i < old(self).spec_nrows() && 0 <= j < old(self).spec_ncols() implies #[trigger] self.cell(i, j)
                    == if i == r && j == c {
                    v
                } else {
                    old(self).cell(i, j)
                } by {
                lemma_cell_index(i, j, self.rows as int, self.cols as int);
                if i != r {
                    if i < r {
                        lemma_cell_index(i, j, r as int, self.cols as int);
                    } else {
                        lemma_cell_index(r as int, c as int, i as int, self.cols as int);
                    }
                }
            }
        }
    }

    /// The cell in row `row` and column `col`.
    pub fn get(&self, row: usize, col: usize) -> (r: Option<&T>)
        requires
            self.wf(),
            row < self.spec_nrows(),
            col < self.spec_ncols(),
        ensures
            r == Some(&self.cell(row as int, col as int)),
    {
        let cells = self.data.len();
        proof {
            lemma_cell_index(row as int, col as int, self.rows as int, self.cols as int);
            assert(row * self.cols + col < cells);
        }
        Some(&self.data[row * self.cols + col])
    }

    /// The cell in row `row` and column `col`, to be changed in place.
    pub fn get_mut(&mut self, row: usize, col: usize) -> (r: &mut T)
        requires
            old(self).wf(),
            row < old(self).spec_nrows(),
            col < old(self).spec_ncols(),
        ensures
            *r == old(self).cell(row as int, col as int),
            final(self)@ == (
                old(self)@.0,
                old(self)@.1,
                old(self)@.2.update(row * old(self).spec_ncols() + col, *final(r)),
            ),
    {
        let cells = self.data.len();
        proof {
            lemma_cell_index(row as int, col as int, self.rows as int, self.cols as int);
            assert(row * self.cols + col < cells);
        }
        let k = row * self.cols + col;
        &mut self.data[k]
    }

    /// The cells, row by row, to be changed in place.
    pub fn iter_mut(&mut self) -> (r: &mut [T])
        ensures
            r@ == old(self)@.2,
            final(self)@ == (old(self)@.0, old(self)@.1, final(r)@),
    {
        self.data.as_mut_slice()
    }

    /// The cells, row by row.
    pub fn iter(&self) -> (r: &[T])
        requires
            self.wf(),
        ensures
            r@.len() == self.spec_nrows() * self.spec_ncols(),
            forall|i: int, j: int|
                0 <= i < self.spec_nrows() && 0 <= j < self.spec_ncols() ==> r@[i * self.spec_ncols() + j]
                    == #[trigger] self.cell(i, j),
    {
        self.data.as_slice()
    }

    /// The cell in the last row and last column, if there are cells.
    pub fn last_cell(&self) -> (r: Option<&T>)
        requires
            self.wf(),
        ensures
            self.spec_nrows() * self.spec_ncols() == 0 ==> r is None,
            self.spec_nrows() * self.spec_ncols() > 0 ==> r == Some(
                &self.cell(self.spec_nrows() - 1, self.spec_ncols() - 1),
            ),
    {
        let n = self.data.len();
        if n == 0 {
            None
        } else {
            proof {
                assert((self.rows - 1) * self.cols + (self.cols - 1) == self.rows * self.cols - 1)
                    by (nonlinear_arith)
                    requires
                        self.rows * self.cols > 0,
                ;
            }
            Some(&self.data[n - 1])
        }
    }

    /// `(rows, columns)`
    pub fn get_shape(&self) -> (r: (usize, usize))
        ensures
            r.0 == self.spec_nrows(),
            r.1 == self.spec_ncols(),
    {
        (self.rows, self.cols)
    }

    /// The number of columns.
    pub fn width(&self) -> (r: usize)
        ensures
            r == self.spec_ncols(),
    {
        self.cols
    }

    /// The number of rows.
    pub fn height(&self) -> (r: usize)
        ensures
            r == self.spec_nrows(),
    {
        self.rows
    }

    /// The number of rows.
    pub fn nrows(&self) -> (r: usize)
        ensures
            r == self.spec_nrows(),
    {
        self.rows
    }

    /// The number of columns.
    pub fn ncols(&self) -> (r: usize)
        ensures
            r == self.spec_ncols(),
    {
        self.cols
    }

    /// The number of cells.
    pub fn cell_count(&self) -> (r: usize)
        requires
            self.wf(),
        ensures
            r == self.spec_nrows() * self.spec_ncols(),
    {
        self.data.len()
    }

    pub fn is_square(&self) -> (r: bool)
        ensures
            r == (self.spec_nrows() == self.spec_ncols()),
    {
        self.rows == self.cols
    }

    /// Exchanges the cells of rows `row1` and `row2` in the columns of
    /// `range`.
    pub fn swap_rows_ranged(&mut self, row1: usize, row2: usize, range: std::ops::Range<usize>)
        requires
            old(self).wf(),
            row1 < old(self).spec_nrows(),
            row2 < old(self).spec_nrows(),
            range.end <= old(self).spec_ncols(),
        ensures
            rows_swapped(*old(self), *final(self), row1 as int, row2 as int, range.start as int, range.end as int),
    {
        if range.start >= range.end {
            return;
        }
        let mut col = range.start;
        while col < range.end
            invariant
                range.start <= col <= range.end,
                range.end <= self.spec_ncols(),
                row1 < self.spec_nrows(),
                row2 < self.spec_nrows(),
                rows_swapped(*old(self), *self, row1 as int, row2 as int, range.start as int, col as int),
            decreases range.end - col,
        {
            let ghost mid = *self;
            let a = self.at(row1, col);
            let b = self.at(row2, col);
            self.put(row1, col, b);
            let ghost mid2 = *self;
            self.put(row2, col, a);
            proof {
                assert forall|i: int, j: int|
                    0 <= i < self.spec_nrows() && 0 <= j < self.spec_ncols() implies #[trigger] self.cell(i, j)
                        == if range.start <= j < col + 1 && i == row1 {
                        old(self).cell(row2 as int, j)
                    } else if range.start <= j < col + 1 && i == row2 {
                        old(self).cell(row1 as int, j)
                    } else {
                        old(self).cell(i, j)
                    } by {
                    assert(mid2.cell(i, j) == if i == row1 && j == col { b } else { mid.cell(i, j) });
                    assert(mid.cell(i, j) == if range.start <= j < col && i == row1 {
                        old(self).cell(row2 as int, j)
                    } else if range.start <= j < col && i == row2 {
                        old(self).cell(row1 as int, j)
                    } else {
                        old(self).cell(i, j)
                    });
                    assert(mid.cell(row1 as int, col as int) == old(self).cell(row1 as int, col as int));
                    assert(mid.cell(row2 as int, col as int) == old(self).cell(row2 as int, col as int));
                }
            }
            col = col + 1;
        }
    }

    /// Exchanges rows `row1` and `row2`.
    pub fn swap_rows(&mut self, row1: usize, row2: usize)
        requires
            old(self).wf(),
            row1 < old(self).spec_nrows(),
            row2 < old(self).spec_nrows(),
        ensures
            rows_swapped(*old(self), *final(self), row1 as int, row2 as int, 0, old(self).spec_ncols() as int),
    {
        let n = self.cols;
        self.swap_rows_ranged(row1, row2, 0..n);
    }

    /// Exchanges rows `row1` and `row2` from column `start_col` on.
    pub fn swap_rows_starting_from(&mut self, row1: usize, row2: usize, start_col: usize)
        requires
            old(self).wf(),
            row1 < old(self).spec_nrows(),
            row2 < old(self).spec_nrows(),
        ensures
            rows_swapped(*old(self), *final(self), row1 as int, row2 as int, start_col as int, old(self).spec_ncols() as int),
    {
        let n = self.cols;
        self.swap_rows_ranged(row1, row2, start_col..n);
    }

    /// Exchanges rows `row1` and `row2` up to and including column
    /// `end_col`.
    pub fn swap_rows_ending_at(&mut self, row1: usize, row2: usize, end_col: usize)
        requires
            old(self).wf(),
            row1 < old(self).spec_nrows(),
            row2 < old(self).spec_nrows(),
            end_col < old(self).spec_ncols(),
        ensures
            rows_swapped(*old(self), *final(self), row1 as int, row2 as int, 0, end_col + 1),
    {
        self.swap_rows_ranged(row1, row2, 0..end_col + 1);
    }
}

} // verus!

verus! {

/// The number that an arithmetic operator gives for two numbers.
pub open spec fn operator_value<T: Scalar>(op: Operator, a: T, b: T) -> T {
    match op {
        Operator::Add => T::spec_plus(a, b),
        Operator::Subtract => T::spec_minus(a, b),
        Operator::Multiply => T::spec_times(a, b),
        _ => T::spec_over(a, b),
    }
}

/// The sum `l[i][0] * r[0][j] + .. + l[i][n-1] * r[n-1][j]`, added up from
/// zero in column order.
pub open spec fn dot<T: Scalar>(l: Matrix<T>, r: Matrix<T>, i: int, j: int, n: int) -> T
    decreases n,
{
    if n <= 0 {
        T::spec_zero()
    } else {
        T::spec_plus(dot(l, r, i, j, n - 1), T::spec_times(l.cell(i, n - 1), r.cell(n - 1, j)))
    }
}

/// Applies an arithmetic operator to two numbers.
pub fn apply_operator<T: Scalar>(op: Operator, a: T, b: T) -> (r: T)
    requires
        op != Operator::Assign,
    ensures
        r == operator_value(op, a, b),
{
    match op {
        Operator::Add => a.plus(b),
        Operator::Subtract => a.minus(b),
        Operator::Multiply => a.times(b),
        _ => a.over(b),
    }
}

impl<T: Scalar> Matrix<T> {
    /// Puts `one` at `(rows_of[c], c)` for each column `c` of a matrix whose
    /// cells all hold `zero`.
    fn mark_cells(&mut self, rows_of: &Vec<usize>, zero: T, one: T)
        requires
            old(self).wf(),
            rows_of@.len() == old(self).spec_ncols(),
            forall|c: int| 0 <= c < rows_of@.len() ==> #[trigger] rows_of@[c] < old(self).spec_nrows(),
            forall|i: int, j: int|
                0 <= i < old(self).spec_nrows() && 0 <= j < old(self).spec_ncols() ==> #[trigger] old(self).cell(i, j) == zero,
        ensures
            final(self).wf(),
            final(self).spec_nrows() == old(self).spec_nrows(),
            final(self).spec_ncols() == old(self).spec_ncols(),
            forall|i: int, j: int|
                0 <= i < old(self).spec_nrows() && 0 <= j < old(self).spec_ncols() ==> #[trigger] final(self).cell(i, j)
                    == if i == rows_of@[j] {
                    one
                } else {
                    zero
                },
    {
        let mut c: usize = 0;
        while c < rows_of.len()
            invariant
                c <= rows_of@.len(),
                rows_of@.len() == self.spec_ncols(),
                forall|k: int| 0 <= k < rows_of@.len() ==> #[trigger] rows_of@[k] < self.spec_nrows(),
                self.wf(),
                self.spec_nrows() == old(self).spec_nrows(),
                self.spec_ncols() == old(self).spec_ncols(),
                forall|i: int, j: int|
                    0 <= i < self.spec_nrows() && 0 <= j < self.spec_ncols() ==> #[trigger] self.cell(i, j)
                        == if j < c && i == rows_of@[j] {
                        one
                    } else {
                        zero
                    },
            decreases rows_of@.len() - c,
        {
            self.put(rows_of[c], c, one);
            c = c + 1;
        }
    }

    /// The `size` by `size` identity matrix.
    pub fn identity_square(size: usize) -> (r: Self)
        requires
            size * size <= usize::MAX,
        ensures
            has_shape(r, size as nat, size as nat),
            forall|i: int, j: int| 0 <= i < size && 0 <= j < size ==> #[trigger] r.cell(i, j) == if i == j {
                T::spec_one()
            } else {
                T::spec_zero()
            },
    {
        Self::identity_rect(size, size)
    }

    /// The `nrows` by `ncols` matrix with ones on its main diagonal and
    /// zeros elsewhere.
    pub fn identity_rect(nrows: usize, ncols: usize) -> (r: Self)
        requires
            nrows * ncols <= usize::MAX,
        ensures
            has_shape(r, nrows as nat, ncols as nat),
            forall|i: int, j: int| 0 <= i < nrows && 0 <= j < ncols ==> #[trigger] r.cell(i, j) == if i == j {
                T::spec_one()
            } else {
                T::spec_zero()
            },
    {
        let zero = T::zero();
        let one = T::one();
        let mut r = Self::filled(nrows, ncols, zero);
        let n = if nrows < ncols { nrows } else { ncols };
        let mut i: usize = 0;
        while i < n
            invariant
                i <= n,
                n <= nrows,
                n <= ncols,
                has_shape(r, nrows as nat, ncols as nat),
                forall|a: int, b: int|
                    0 <= a < nrows && 0 <= b < ncols ==> #[trigger] r.cell(a, b) == if a == b && a < i {
                        one
                    } else {
                        zero
                    },
            decreases n - i,
        {
            r.put(i, i, one);
            i = i + 1;
        }
        proof {
            assert forall|a: int, b: int| 0 <= a < nrows && 0 <= b < ncols implies #[trigger] r.cell(a, b) == if a == b {
                one
            } else {
                zero
            } by {}
        }
        r
    }

    /// The `size` by `size` matrix of zeros.
    pub fn zeros_square(size: usize) -> (r: Self)
        requires
            size * size <= usize::MAX,
        ensures
            has_shape(r, size as nat, size as nat),
            forall|i: int, j: int| 0 <= i < size && 0 <= j < size ==> #[trigger] r.cell(i, j) == T::spec_zero(),
    {
        Self::filled(size, size, T::zero())
    }

    /// The `nrows` by `ncolumns` matrix of zeros.
    pub fn zeros_rect(nrows: usize, ncolumns: usize) -> (r: Self)
        requires
            nrows * ncolumns <= usize::MAX,
        ensures
            has_shape(r, nrows as nat, ncolumns as nat),
            forall|i: int, j: int| 0 <= i < nrows && 0 <= j < ncolumns ==> #[trigger] r.cell(i, j) == T::spec_zero(),
    {
        Self::filled(nrows, ncolumns, T::zero())
    }

    /// The `size` by `size` matrix of ones.
    pub fn ones_square(size: usize) -> (r: Self)
        requires
            size * size <= usize::MAX,
        ensures
            has_shape(r, size as nat, size as nat),
            forall|i: int, j: int| 0 <= i < size && 0 <= j < size ==> #[trigger] r.cell(i, j) == T::spec_one(),
    {
        Self::filled(size, size, T::one())
    }

    /// The `nrows` by `ncolumns` matrix of ones.
    pub fn ones_rect(nrows: usize, ncolumns: usize) -> (r: Self)
        requires
            nrows * ncolumns <= usize::MAX,
        ensures
            has_shape(r, nrows as nat, ncolumns as nat),
            forall|i: int, j: int| 0 <= i < nrows && 0 <= j < ncolumns ==> #[trigger] r.cell(i, j) == T::spec_one(),
    {
        Self::filled(nrows, ncolumns, T::one())
    }

    /// The permutation matrix of a permutation vector: column `c` has its
    /// one in row `input[c]`.
    pub fn from_permutations_vector(input: Vec<usize>) -> (r: Self)
        requires
            input@.len() * input@.len() <= usize::MAX,
            forall|c: int| 0 <= c < input@.len() ==> #[trigger] input@[c] < input@.len(),
        ensures
            has_shape(r, input@.len(), input@.len()),
            forall|i: int, j: int|
                0 <= i < input@.len() && 0 <= j < input@.len() ==> #[trigger] r.cell(i, j) == if i == input@[j] {
                    T::spec_one()
                } else {
                    T::spec_zero()
                },
    {
        let zero = T::zero();
        let mut r = Self::filled(input.len(), input.len(), zero);
        r.mark_cells(&input, zero, T::one());
        r
    }
}

} // verus!

verus! {

impl<T: Scalar> Matrix<T> {
    /// Combines two matrices of one shape cell by cell.
    fn zip_cells(&self, rhs: &Self, op: Operator) -> (r: Self)
        requires
            self.wf(),
            rhs.wf(),
            self.spec_nrows() == rhs.spec_nrows(),
            self.spec_ncols() == rhs.spec_ncols(),
            op != Operator::Assign,
        ensures
            has_shape(r, self.spec_nrows(), self.spec_ncols()),
            forall|i: int, j: int|
                0 <= i < self.spec_nrows() && 0 <= j < self.spec_ncols() ==> #[trigger] r.cell(i, j)
                    == operator_value(op, self.cell(i, j), rhs.cell(i, j)),
    {
        let n = self.data.len();
        let mut data: Vec<T> = Vec::new();
        let mut k: usize = 0;
        while k < n
            invariant
                k <= n,
                n == self.data@.len(),
                n == rhs.data@.len(),
                data@.len() == k,
                op != Operator::Assign,
                forall|m: int| 0 <= m < k ==> #[trigger] data@[m] == operator_value(op, self.data@[m], rhs.data@[m]),
            decreases n - k,
        {
            data.push(apply_operator(op, self.data[k], rhs.data[k]));
            k = k + 1;
        }
        let r = Matrix { data, rows: self.rows, cols: self.cols };
        proof {
            assert forall|i: int, j: int|
                0 <= i < self.spec_nrows() && 0 <= j < self.spec_ncols() implies #[trigger] r.cell(i, j)
                    == operator_value(op, self.cell(i, j), rhs.cell(i, j)) by {
                lemma_cell_index(i, j, self.rows as int, self.cols as int);
            }
        }
        r
    }

    /// Combines every cell with `scalar`: `cell op scalar`, or
    /// `scalar op cell` when `scalar_first`.
    fn map_cells(&self, scalar: T, op: Operator, scalar_first: bool) -> (r: Self)
        requires
            self.wf(),
            op != Operator::Assign,
        ensures
            has_shape(r, self.spec_nrows(), self.spec_ncols()),
            forall|i: int, j: int|
                0 <= i < self.spec_nrows() && 0 <= j < self.spec_ncols() ==> #[trigger] r.cell(i, j) == if scalar_first {
                    operator_value(op, scalar, self.cell(i, j))
                } else {
                    operator_value(op, self.cell(i, j), scalar)
                },
    {
        let n = self.data.len();
        let mut data: Vec<T> = Vec::new();
        let mut k: usize = 0;
        while k < n
            invariant
                k <= n,
                n == self.data@.len(),
                data@.len() == k,
                op != Operator::Assign,
                forall|m: int|
                    0 <= m < k ==> #[trigger] data@[m] == if scalar_first {
                        operator_value(op, scalar, self.data@[m])
                    } else {
                        operator_value(op, self.data@[m], scalar)
                    },
            decreases n - k,
        {
            let cell = self.data[k];
            if scalar_first {
                data.push(apply_operator(op, scalar, cell));
            } else {
                data.push(apply_operator(op, cell, scalar));
            }
            k = k + 1;
        }
        let r = Matrix { data, rows: self.rows, cols: self.cols };
        proof {
            assert forall|i: int, j: int| 0 <= i < self.spec_nrows() && 0 <= j < self.spec_ncols() implies #[trigger] r.cell(
                i,
                j,
            ) == if scalar_first {
                operator_value(op, scalar, self.cell(i, j))
            } else {
                operator_value(op, self.cell(i, j), scalar)
            } by {
                lemma_cell_index(i, j, self.rows as int, self.cols as int);
            }
        }
        r
    }

    /// The cell-by-cell sum of two matrices of one shape.
    pub fn add_matrix(&self, rhs: &Self) -> (r: Self)
        requires
            self.wf(),
            rhs.wf(),
            self.spec_nrows() == rhs.spec_nrows(),
            self.spec_ncols() == rhs.spec_ncols(),
        ensures
            has_shape(r, self.spec_nrows(), self.spec_ncols()),
            forall|i: int, j: int|
                0 <= i < self.spec_nrows() && 0 <= j < self.spec_ncols() ==> #[trigger] r.cell(i, j) == T::spec_plus(
                    self.cell(i, j),
                    rhs.cell(i, j),
                ),
    {
        self.zip_cells(rhs, Operator::Add)
    }

    /// The cell-by-cell difference of two matrices of one shape.
    pub fn sub_matrix(&self, rhs: &Self) -> (r: Self)
        requires
            self.wf(),
            rhs.wf(),
            self.spec_nrows() == rhs.spec_nrows(),
            self.spec_ncols() == rhs.spec_ncols(),
        ensures
            has_shape(r, self.spec_nrows(), self.spec_ncols()),
            forall|i: int, j: int|
                0 <= i < self.spec_nrows() && 0 <= j < self.spec_ncols() ==> #[trigger] r.cell(i, j) == T::spec_minus(
                    self.cell(i, j),
                    rhs.cell(i, j),
                ),
    {
        self.zip_cells(rhs, Operator::Subtract)
    }

    /// The matrix product; the width of `self` is the height of `rhs`.
    pub fn mul_matrix(&self, rhs: &Self) -> (r: Self)
        requires
            self.wf(),
            rhs.wf(),
            self.spec_ncols() == rhs.spec_nrows(),
            self.spec_nrows() * rhs.spec_ncols() <= usize::MAX,
        ensures
            has_shape(r, self.spec_nrows(), rhs.spec_ncols()),
            forall|i: int, j: int|
                0 <= i < self.spec_nrows() && 0 <= j < rhs.spec_ncols() ==> #[trigger] r.cell(i, j) == dot(
                    *self,
                    *rhs,
                    i,
                    j,
                    self.spec_ncols() as int,
                ),
    {
        let mut data: Vec<T> = Vec::new();
        let mut i: usize = 0;
        while i < self.rows
            invariant
                i <= self.spec_nrows(),
                self.wf(),
                rhs.wf(),
                self.spec_ncols() == rhs.spec_nrows(),
                self.spec_nrows() * rhs.spec_ncols() <= usize::MAX,
                data@.len() == i * rhs.spec_ncols(),
                forall|a: int, b: int|
                    0 <= a < i && 0 <= b < rhs.spec_ncols() ==> data@[a * rhs.spec_ncols() + b] == #[trigger] dot(
                        *self,
                        *rhs,
                        a,
                        b,
                        self.spec_ncols() as int,
                    ),
            decreases self.spec_nrows() - i,
        {
            let mut j: usize = 0;
            proof {
                assert((i + 1) * rhs.cols == i * rhs.cols + rhs.cols) by (nonlinear_arith);
            }
            while j < rhs.cols
                invariant
                    i < self.spec_nrows(),
                    j <= rhs.spec_ncols(),
                    self.wf(),
                    rhs.wf(),
                    self.spec_ncols() == rhs.spec_nrows(),
                    data@.len() == i * rhs.spec_ncols() + j,
                    forall|a: int, b: int|
                        0 <= a < i && 0 <= b < rhs.spec_ncols() ==> data@[a * rhs.spec_ncols() + b] == #[trigger] dot(
                            *self,
                            *rhs,
                            a,
                            b,
                            self.spec_ncols() as int,
                        ),
                    forall|b: int|
                        0 <= b < j ==> data@[i * rhs.spec_ncols() + b] == #[trigger] dot(
                            *self,
                            *rhs,
                            i as int,
                            b,
                            self.spec_ncols() as int,
                        ),
                decreases rhs.spec_ncols() - j,
            {
                let mut acc = T::zero();
                let mut k: usize = 0;
                while k < self.cols
                    invariant
                        i < self.spec_nrows(),
                        j < rhs.spec_ncols(),
                        k <= self.spec_ncols(),
                        self.wf(),
                        rhs.wf(),
                        self.spec_ncols() == rhs.spec_nrows(),
                        acc == dot(*self, *rhs, i as int, j as int, k as int),
                    decreases self.spec_ncols() - k,
                {
                    acc = acc.plus(self.at(i, k).times(rhs.at(k, j)));
                    k = k + 1;
                }
                let ghost before = data@;
                data.push(acc);
                proof {
                    assert forall|a: int, b: int|
                        0 <= a < i && 0 <= b < rhs.spec_ncols() implies data@[a * rhs.spec_ncols() + b]
                            == #[trigger] dot(*self, *rhs, a, b, self.spec_ncols() as int) by {
                        lemma_cell_index(a, b, i as int, rhs.cols as int);
                        assert(data@[a * rhs.spec_ncols() + b] == before[a * rhs.spec_ncols() + b]);
                    }
                    assert forall|b: int| 0 <= b < j + 1 implies data@[i * rhs.spec_ncols() + b] == #[trigger] dot(
                        *self,
                        *rhs,
                        i as int,
                        b,
                        self.spec_ncols() as int,
                    ) by {
                        if b < j {
                            assert(data@[i * rhs.spec_ncols() + b] == before[i * rhs.spec_ncols() + b]);
                        }
                    }
                }
                j = j + 1;
            }
            i = i + 1;
        }
        let r = Matrix { data, rows: self.rows, cols: rhs.cols };
        proof {
            assert forall|a: int, b: int| 0 <= a < self.spec_nrows() && 0 <= b < rhs.spec_ncols() implies #[trigger] r.cell(
                a,
                b,
            ) == dot(*self, *rhs, a, b, self.spec_ncols() as int) by {}
        }
        r
    }

    /// Every cell negated.
    pub fn negate(&self) -> (r: Self)
        requires
            self.wf(),
        ensures
            has_shape(r, self.spec_nrows(), self.spec_ncols()),
            forall|i: int, j: int|
                0 <= i < self.spec_nrows() && 0 <= j < self.spec_ncols() ==> #[trigger] r.cell(i, j) == T::spec_negated(
                    self.cell(i, j),
                ),
    {
        let n = self.data.len();
        let mut data: Vec<T> = Vec::new();
        let mut k: usize = 0;
        while k < n
            invariant
                k <= n,
                n == self.data@.len(),
                data@.len() == k,
                forall|m: int| 0 <= m < k ==> #[trigger] data@[m] == T::spec_negated(self.data@[m]),
            decreases n - k,
        {
            data.push(self.data[k].negated());
            k = k + 1;
        }
        let r = Matrix { data, rows: self.rows, cols: self.cols };
        proof {
            assert forall|i: int, j: int|
                0 <= i < self.spec_nrows() && 0 <= j < self.spec_ncols() implies #[trigger] r.cell(i, j)
                    == T::spec_negated(self.cell(i, j)) by {
                lemma_cell_index(i, j, self.rows as int, self.cols as int);
            }
        }
        r
    }

    /// `scalar` added to every cell.
    pub fn add_scalar(&self, scalar: T) -> (r: Self)
        requires
            self.wf(),
        ensures
            has_shape(r, self.spec_nrows(), self.spec_ncols()),
            forall|i: int, j: int|
                0 <= i < self.spec_nrows() && 0 <= j < self.spec_ncols() ==> #[trigger] r.cell(i, j) == T::spec_plus(self.cell(i, j), scalar),
    {
        self.map_cells(scalar, Operator::Add, false)
    }

    /// `scalar` subtracted from every cell.
    pub fn sub_scalar(&self, scalar: T) -> (r: Self)
        requires
            self.wf(),
        ensures
            has_shape(r, self.spec_nrows(), self.spec_ncols()),
            forall|i: int, j: int|
                0 <= i < self.spec_nrows() && 0 <= j < self.spec_ncols() ==> #[trigger] r.cell(i, j) == T::spec_minus(self.cell(i, j), scalar),
    {
        self.map_cells(scalar, Operator::Subtract, false)
    }

    /// Every cell multiplied by `scalar`.
    pub fn mul_scalar(&self, scalar: T) -> (r: Self)
        requires
            self.wf(),
        ensures
            has_shape(r, self.spec_nrows(), self.spec_ncols()),
            forall|i: int, j: int|
                0 <= i < self.spec_nrows() && 0 <= j < self.spec_ncols() ==> #[trigger] r.cell(i, j) == T::spec_times(self.cell(i, j), scalar),
    {
        self.map_cells(scalar, Operator::Multiply, false)
    }

    /// Every cell divided by `scalar`.
    pub fn div_scalar(&self, scalar: T) -> (r: Self)
        requires
            self.wf(),
        ensures
            has_shape(r, self.spec_nrows(), self.spec_ncols()),
            forall|i: int, j: int|
                0 <= i < self.spec_nrows() && 0 <= j < self.spec_ncols() ==> #[trigger] r.cell(i, j) == T::spec_over(self.cell(i, j), scalar),
    {
        self.map_cells(scalar, Operator::Divide, false)
    }

    /// `scalar` minus each cell.
    pub fn scalar_sub(&self, scalar: T) -> (r: Self)
        requires
            self.wf(),
        ensures
            has_shape(r, self.spec_nrows(), self.spec_ncols()),
            forall|i: int, j: int|
                0 <= i < self.spec_nrows() && 0 <= j < self.spec_ncols() ==> #[trigger] r.cell(i, j) == T::spec_minus(scalar, self.cell(i, j)),
    {
        self.map_cells(scalar, Operator::Subtract, true)
    }

    /// `scalar` divided by each cell.
    pub fn scalar_div(&self, scalar: T) -> (r: Self)
        requires
            self.wf(),
        ensures
            has_shape(r, self.spec_nrows(), self.spec_ncols()),
            forall|i: int, j: int|
                0 <= i < self.spec_nrows() && 0 <= j < self.spec_ncols() ==> #[trigger] r.cell(i, j) == T::spec_over(scalar, self.cell(i, j)),
    {
        self.map_cells(scalar, Operator::Divide, true)
    }
}

} // verus!

verus! {

/// `m` has ones on its diagonal and zeros above it: the shape of a unit
/// lower triangular matrix.
pub open spec fn unit_lower<T: Scalar>(m: Matrix<T>) -> bool {
    forall|i: int, j: int|
        0 <= i <= j < m.spec_ncols() && i < m.spec_nrows() ==> #[trigger] m.cell(i, j) == if i == j {
            T::spec_one()
        } else {
            T::spec_zero()
        }
}

/// `p` lists each of `0..n` exactly once.
pub open spec fn is_permutation(p: Seq<usize>, n: nat) -> bool {
    &&& p.len() == n
    &&& forall|i: int| 0 <= i < p.len() ==> #[trigger] p[i] < n
    &&& forall|i: int, j: int| 0 <= i < p.len() && 0 <= j < p.len() && i != j ==> #[trigger] p[i] != #[trigger] p[j]
}

/// The identity permutation `0, 1, .., n - 1`.
fn identity_permutation(n: usize) -> (r: Vec<usize>)
    ensures
        is_permutation(r@, n as nat),
        forall|i: int| 0 <= i < n ==> #[trigger] r@[i] == i,
{
    let mut r: Vec<usize> = Vec::new();
    while r.len() < n
        invariant
            r@.len() <= n,
            forall|i: int| 0 <= i < r@.len() ==> #[trigger] r@[i] == i,
        decreases n - r@.len(),
    {
        r.push(r.len());
    }
    r
}

/// Exchanges two entries of a permutation.
fn swap_entries(p: &mut Vec<usize>, a: usize, b: usize)
    requires
        a < old(p)@.len(),
        b < old(p)@.len(),
        is_permutation(old(p)@, old(p)@.len()),
    ensures
        is_permutation(final(p)@, old(p)@.len()),
        final(p)@ == old(p)@.update(a as int, old(p)@[b as int]).update(b as int, old(p)@[a as int]),
{
    let x = p[a];
    let y = p[b];
    p.set(a, y);
    p.set(b, x);
}

impl<T: Scalar> Matrix<T> {
    /// A copy of the matrix.
    pub fn duplicate(&self) -> (r: Self)
        requires
            self.wf(),
        ensures
            r@ == self@,
            has_shape(r, self.spec_nrows(), self.spec_ncols()),
            forall|i: int, j: int|
                0 <= i < self.spec_nrows() && 0 <= j < self.spec_ncols() ==> #[trigger] r.cell(i, j) == self.cell(i, j),
    {
        let n = self.data.len();
        let mut data: Vec<T> = Vec::new();
        let mut k: usize = 0;
        while k < n
            invariant
                k <= n,
                n == self.data@.len(),
                data@.len() == k,
                forall|m: int| 0 <= m < k ==> data@[m] == self.data@[m],
            decreases n - k,
        {
            data.push(self.data[k]);
            k = k + 1;
        }
        proof {
            assert(data@ =~= self.data@);
        }
        Matrix { data, rows: self.rows, cols: self.cols }
    }

    /// Subtracts multiples of pivot row `pr` from the rows below it whose
    /// cell in column `pc` is not zero, recording each multiplier in
    /// `lower` at column `pr`.
    fn eliminate_below(upper: &mut Self, lower: &mut Self, pr: usize, pc: usize)
        requires
            old(upper).wf(),
            old(lower).wf(),
            has_shape(*old(lower), old(upper).spec_nrows(), old(upper).spec_nrows()),
            pr < old(upper).spec_nrows(),
            pc < old(upper).spec_ncols(),
        ensures
            has_shape(*final(upper), old(upper).spec_nrows(), old(upper).spec_ncols()),
            has_shape(*final(lower), old(upper).spec_nrows(), old(upper).spec_nrows()),
            forall|i: int, j: int|
                0 <= i < old(upper).spec_nrows() && 0 <= j < old(upper).spec_ncols() ==> #[trigger] final(upper).cell(i, j)
                    == lu_upper_step(grid_of(*old(upper)), pr as int, pc as int)(i, j),
            forall|i: int, j: int|
                0 <= i < old(upper).spec_nrows() && 0 <= j < old(upper).spec_nrows() ==> #[trigger] final(lower).cell(i, j)
                    == lu_lower_step(grid_of(*old(upper)), grid_of(*old(lower)), pr as int, pc as int)(i, j),
    {
        let rows = upper.rows;
        let cols = upper.cols;
        let mut row = pr + 1;
        while row < rows
            invariant
                pr < row <= rows,
                pc < cols,
                rows == old(upper).spec_nrows(),
                cols == old(upper).spec_ncols(),
                has_shape(*upper, rows as nat, cols as nat),
                has_shape(*lower, rows as nat, rows as nat),
                forall|i: int, j: int|
                    0 <= i < rows && 0 <= j < cols ==> #[trigger] upper.cell(i, j) == if i < row {
                        lu_upper_step(grid_of(*old(upper)), pr as int, pc as int)(i, j)
                    } else {
                        old(upper).cell(i, j)
                    },
                forall|i: int, j: int|
                    0 <= i < rows && 0 <= j < rows ==> #[trigger] lower.cell(i, j) == if i < row {
                        lu_lower_step(grid_of(*old(upper)), grid_of(*old(lower)), pr as int, pc as int)(i, j)
                    } else {
                        old(lower).cell(i, j)
                    },
            decreases rows - row,
        {
            let below = upper.at(row, pc);
            if !below.is_zero() {
                let factor = below.over(upper.at(pr, pc));
                let mut col: usize = 0;
                while col < cols
                    invariant
                        pr < row < rows,
                        col <= cols,
                        pc < cols,
                        rows == old(upper).spec_nrows(),
                        cols == old(upper).spec_ncols(),
                        factor == lu_factor(grid_of(*old(upper)), pr as int, pc as int, row as int),
                        !lu_keeps(grid_of(*old(upper)), pr as int, pc as int, row as int),
                        has_shape(*upper, rows as nat, cols as nat),
                        forall|i: int, j: int|
                            0 <= i < rows && 0 <= j < cols ==> #[trigger] upper.cell(i, j) == if i < row || (i == row
                                && j < col) {
                                lu_upper_step(grid_of(*old(upper)), pr as int, pc as int)(i, j)
                            } else {
                                old(upper).cell(i, j)
                            },
                    decreases cols - col,
                {
                    let v = upper.at(row, col).minus(upper.at(pr, col).times(factor));
                    upper.put(row, col, v);
                    col = col + 1;
                }
                lower.put(row, pr, factor);
            }
            row = row + 1;
        }
    }

    /// LU decomposition with partial pivoting: `(L, U, P, rank)` with
    /// `P·A = L·U`, `L` unit lower triangular (`rows` by `rows`), `U` in row
    /// echelon form (the shape of `A`), and `P` the row permutation as a
    /// vector (see `from_permutations_vector`). A column with no non-zero
    /// pivot candidate is skipped, which makes the rank
    /// `min(rows, cols - skipped)`. The result is the elimination of
    /// `lu_state`, with exact comparisons against zero.
    pub fn lu_decomp(&self) -> (r: (Self, Self, Vec<usize>, usize))
        requires
            self.wf(),
            self.spec_nrows() * self.spec_nrows() <= usize::MAX,
        ensures
            holds(r.0, lu_lower(*self), self.spec_nrows()),
            unit_lower(r.0),
            holds_rect(r.1, lu_state(*self).0, self.spec_nrows(), self.spec_ncols()),
            r.2@ == lu_state(*self).2,
            is_permutation(r.2@, self.spec_nrows()),
            r.3 == lu_rank(*self),
            r.3 <= self.spec_nrows(),
            r.3 <= self.spec_ncols(),
    {
        let rows = self.rows;
        let cols = self.cols;
        let zero = T::zero();
        let mut lower = Self::filled(rows, rows, zero);
        let mut upper = self.duplicate();
        let mut permutations = identity_permutation(rows);
        let ghost init: LuState<T> = (
            grid_of(*self),
            |i: int, j: int| T::spec_zero(),
            Seq::new(rows as nat, |i: int| i as usize),
            0,
            0,
        );
        proof {
            assert(permutations@ =~= init.2);
        }
        let ghost mut k: int = 0;

        let mut shift: usize = 0;
        let mut pivot: usize = 0;
        while pivot < rows && pivot + shift < cols
            invariant
                pivot <= rows,
                pivot + shift <= cols,
                0 <= k,
                k + (cols - pivot - shift) + (rows - pivot) <= rows + cols,
                rows == self.spec_nrows(),
                cols == self.spec_ncols(),
                zero == T::spec_zero(),
                init == (
                    grid_of(*self),
                    |i: int, j: int| T::spec_zero(),
                    Seq::new(rows as nat, |i: int| i as usize),
                    0int,
                    0int,
                ),
                lu_iter(init, k, rows as int, cols as int).3 == pivot,
                lu_iter(init, k, rows as int, cols as int).4 == shift,
                lu_iter(init, k, rows as int, cols as int).2 == permutations@,
                holds_rect(upper, lu_iter(init, k, rows as int, cols as int).0, rows as nat, cols as nat),
                holds(lower, lu_iter(init, k, rows as int, cols as int).1, rows as nat),
                forall|a: int, b: int| 0 <= a < b < rows ==> #[trigger] lower.cell(a, b) == zero,
                is_permutation(permutations@, rows as nat),
            decreases (cols - pivot - shift) + (rows - pivot),
        {
            let ghost s = lu_iter(init, k, rows as int, cols as int);
            let pivot_row = pivot;
            let pivot_col = pivot + shift;
            proof {
                assert(upper.cell(pivot_row as int, pivot_col as int) == (s.0)(pivot_row as int, pivot_col as int));
            }

            if upper.at(pivot_row, pivot_col).is_zero() {
                let mut row = pivot_row;
                let mut found = false;
                while row < rows
                    invariant_except_break
                        !found,
                        holds_rect(upper, s.0, rows as nat, cols as nat),
                        holds(lower, s.1, rows as nat),
                        permutations@ == s.2,
                    invariant
                        pivot_row <= row <= rows,
                        pivot_row < rows,
                        pivot_col < cols,
                        pivot_col == pivot + shift,
                        pivot_row == pivot,
                        s.3 == pivot_row,
                        s.3 + s.4 == pivot_col,
                        T::spec_is_zero((s.0)(pivot_row as int, pivot_col as int)),
                        forall|a: int, b: int| 0 <= a < b < rows ==> #[trigger] lower.cell(a, b) == zero,
                        has_shape(lower, rows as nat, rows as nat),
                        has_shape(upper, rows as nat, cols as nat),
                        is_permutation(permutations@, rows as nat),
                        forall|r: int| pivot_row <= r < row ==> T::spec_is_zero(#[trigger] (s.0)(r, pivot_col as int)),
                    ensures
                        found ==> first_nonzero(
                            s.0,
                            pivot_col as int,
                            pivot_row as int,
                            rows as int,
                        ) is Some && holds_rect(upper, lu_pivoted(s, rows as int).0, rows as nat, cols as nat) && holds(
                            lower,
                            lu_pivoted(s, rows as int).1,
                            rows as nat,
                        ) && permutations@ == lu_pivoted(s, rows as int).2,
                        !found ==> forall|r: int|
                            pivot_row <= r < rows ==> T::spec_is_zero(#[trigger] (s.0)(r, pivot_col as int)),
                        !found ==> holds_rect(upper, s.0, rows as nat, cols as nat) && holds(lower, s.1, rows as nat)
                            && permutations@ == s.2,
                    decreases rows - row,
                {
                    if !upper.at(row, pivot_col).is_zero() {
                        proof {
                            lemma_first_nonzero(s.0, pivot_col as int, pivot_row as int, row as int, rows as int);
                            assert(upper.cell(row as int, pivot_col as int) == (s.0)(row as int, pivot_col as int));
                            assert(first_nonzero(s.0, pivot_col as int, pivot_row as int, rows as int) == Some(
                                row as int,
                            ));
                        }
                        let ghost pb = permutations@;
                        upper.swap_rows_starting_from(pivot_row, row, pivot_col);
                        lower.swap_rows_ranged(pivot_row, row, 0..pivot_row);
                        swap_entries(&mut permutations, pivot_row, row);
                        proof {
                            assert(permutations@ =~= lu_pivoted(s, rows as int).2);
                        }
                        found = true;
                        break;
                    }
                    row = row + 1;
                }
                proof {
                    if !found {
                        lemma_first_nonzero(s.0, pivot_col as int, pivot_row as int, rows as int, rows as int);
                    }
                }
            }
            let ghost t = lu_pivoted(s, rows as int);
            proof {
                assert(holds_rect(upper, t.0, rows as nat, cols as nat));
                assert(holds(lower, t.1, rows as nat));
                assert(permutations@ == t.2);
                assert(t.3 == pivot && t.4 == shift);
            }

            if upper.at(pivot_row, pivot_col).is_zero() {
                shift = shift + 1;
                proof {
                    assert(lu_iter(init, k + 1, rows as int, cols as int) == lu_step(s, rows as int, cols as int));
                    k = k + 1;
                }
                continue;
            }
            let ghost ub = upper;
            let ghost lb = lower;
            Self::eliminate_below(&mut upper, &mut lower, pivot_row, pivot_col);
            proof {
                let next = lu_iter(init, k + 1, rows as int, cols as int);
                assert(next == lu_step(s, rows as int, cols as int));
                assert forall|i: int, j: int| 0 <= i < rows && 0 <= j < cols implies #[trigger] upper.cell(i, j)
                    == (next.0)(i, j) by {
                    assert(ub.cell(i, j) == (t.0)(i, j));
                    assert(ub.cell(pivot_row as int, j) == (t.0)(pivot_row as int, j));
                    assert(ub.cell(i, pivot_col as int) == (t.0)(i, pivot_col as int));
                    assert(ub.cell(pivot_row as int, pivot_col as int) == (t.0)(pivot_row as int, pivot_col as int));
                }
                assert forall|i: int, j: int| 0 <= i < rows && 0 <= j < rows implies #[trigger] lower.cell(i, j)
                    == (next.1)(i, j) by {
                    assert(lb.cell(i, j) == (t.1)(i, j));
                    assert(ub.cell(i, pivot_col as int) == (t.0)(i, pivot_col as int));
                    assert(ub.cell(pivot_row as int, pivot_col as int) == (t.0)(pivot_row as int, pivot_col as int));
                }
                assert forall|a: int, b: int| 0 <= a < b < rows implies #[trigger] lower.cell(a, b) == zero by {
                    assert(lb.cell(a, b) == zero);
                }
                k = k + 1;
            }
            pivot = pivot + 1;
        }
        proof {
            lemma_lu_done(init, k, (rows + cols) as int, rows as int, cols as int);
        }

        let one = T::one();
        let mut i: usize = 0;
        while i < rows
            invariant
                i <= rows,
                rows == self.spec_nrows(),
                one == T::spec_one(),
                zero == T::spec_zero(),
                has_shape(lower, rows as nat, rows as nat),
                forall|a: int, b: int| 0 <= a < b < rows ==> #[trigger] lower.cell(a, b) == zero,
                forall|a: int| 0 <= a < i ==> #[trigger] lower.cell(a, a) == one,
                forall|a: int, b: int|
                    0 <= a < rows && 0 <= b < rows && (a != b || a >= i) ==> #[trigger] lower.cell(a, b)
                        == (lu_state(*self).1)(a, b),
            decreases rows - i,
        {
            lower.put(i, i, one);
            i = i + 1;
        }

        let free = cols - shift;
        let rank = if free < rows { free } else { rows };
        (lower, upper, permutations, rank)
    }

    /// The row echelon form `U` of the LU decomposition.
    pub fn row_echelon_form(&self) -> (r: Self)
        requires
            self.wf(),
            self.spec_nrows() * self.spec_nrows() <= usize::MAX,
        ensures
            holds_rect(r, lu_state(*self).0, self.spec_nrows(), self.spec_ncols()),
    {
        let (_, upper, _, _) = self.lu_decomp();
        upper
    }

    /// The rank found by the LU decomposition.
    pub fn rank(&self) -> (r: usize)
        requires
            self.wf(),
            self.spec_nrows() * self.spec_nrows() <= usize::MAX,
        ensures
            r == lu_rank(*self),
            r <= self.spec_nrows(),
            r <= self.spec_ncols(),
    {
        let (_, _, _, rank) = self.lu_decomp();
        rank
    }

    /// The product of the diagonal of the row echelon form, for a square
    /// matrix; the sign that row exchanges would contribute is not applied.
    pub fn try_det(&self) -> (r: Option<T>)
        requires
            self.wf(),
            self.spec_nrows() * self.spec_nrows() <= usize::MAX,
        ensures
            r is Some <==> self.spec_nrows() == self.spec_ncols(),
            r matches Some(d) ==> d == diag_product(lu_state(*self).0, self.spec_nrows() as int),
    {
        if !self.is_square() {
            return None;
        }
        let ref_mat = self.row_echelon_form();
        let mut res = T::one();
        let mut i: usize = 0;
        while i < ref_mat.height()
            invariant
                i <= ref_mat.spec_nrows(),
                holds_rect(ref_mat, lu_state(*self).0, self.spec_nrows(), self.spec_ncols()),
                self.spec_nrows() == self.spec_ncols(),
                res == diag_product(lu_state(*self).0, i as int),
            decreases ref_mat.spec_nrows() - i,
        {
            res = res.times(ref_mat.at(i, i));
            i = i + 1;
        }
        Some(res)
    }

}

} // verus!

verus! {

/// A matrix given cell by cell: row and column to number.
pub type Grid<T> = spec_fn(int, int) -> T;

/// The cells of `m` as a grid.
pub open spec fn grid_of<T>(m: Matrix<T>) -> Grid<T> {
    |i: int, j: int| m.cell(i, j)
}

/// The identity as a grid.
pub open spec fn identity_grid<T: Scalar>() -> Grid<T> {
    |i: int, j: int| if i == j { T::spec_one() } else { T::spec_zero() }
}

/// The first row from `row` on (below `n`) whose cell in column `col` is
/// not zero.
pub open spec fn first_nonzero<T: Scalar>(g: Grid<T>, col: int, row: int, n: int) -> Option<int>
    decreases n - row,
{
    if row >= n {
        None
    } else if !T::spec_is_zero(g(row, col)) {
        Some(row)
    } else {
        first_nonzero(g, col, row + 1, n)
    }
}

/// `g` with rows `r1` and `r2` exchanged from column `from` on.
pub open spec fn swapped<T>(g: Grid<T>, r1: int, r2: int, from: int) -> Grid<T> {
    |i: int, j: int|
        if j >= from && i == r1 {
            g(r2, j)
        } else if j >= from && i == r2 {
            g(r1, j)
        } else {
            g(i, j)
        }
}

/// `g` with row `r` multiplied by `f` from column `from` on.
pub open spec fn scaled<T: Scalar>(g: Grid<T>, r: int, from: int, f: T) -> Grid<T> {
    |i: int, j: int|
        if i == r && j >= from {
            T::spec_times(g(i, j), f)
        } else {
            g(i, j)
        }
}

/// `g` with `factors(i)` times row `prim` subtracted from every other row
/// `i`.
pub open spec fn cleared<T: Scalar>(g: Grid<T>, prim: int, factors: spec_fn(int) -> T) -> Grid<T> {
    |i: int, j: int|
        if i != prim {
            T::spec_minus(g(i, j), T::spec_times(g(prim, j), factors(i)))
        } else {
            g(i, j)
        }
}

/// The pivot search of a Gauss–Jordan step on column `prim`: keep the
/// grids when the diagonal cell is not zero, else bring the first row below
/// with a non-zero cell in the column up to row `prim`; none when there is
/// no such row.
pub open spec fn pivot_state<T: Scalar>(w: Grid<T>, e: Grid<T>, prim: int, n: int) -> Option<(Grid<T>, Grid<T>)> {
    if !T::spec_is_zero(w(prim, prim)) {
        Some((w, e))
    } else {
        match first_nonzero(w, prim, prim, n) {
            None => None,
            Some(row) => Some((swapped(w, prim, row, prim), swapped(e, prim, row, 0))),
        }
    }
}

/// The factor that makes the pivot of row `prim` one.
pub open spec fn pivot_factor<T: Scalar>(w: Grid<T>, prim: int) -> T {
    T::spec_over(T::spec_one(), w(prim, prim))
}

/// The working grid after scaling the pivot row.
pub open spec fn scaled_work<T: Scalar>(w: Grid<T>, prim: int) -> Grid<T> {
    scaled(w, prim, prim, pivot_factor(w, prim))
}

/// The elimination part of a Gauss–Jordan step: scale row `prim` so that
/// its pivot becomes one, then subtract it from every other row to clear
/// column `prim`, in both grids.
pub open spec fn reduce<T: Scalar>(w: Grid<T>, e: Grid<T>, prim: int) -> (Grid<T>, Grid<T>) {
    let w2 = scaled_work(w, prim);
    let e2 = scaled(e, prim, 0, pivot_factor(w, prim));
    (cleared(w2, prim, |i: int| w2(i, prim)), cleared(e2, prim, |i: int| w2(i, prim)))
}

/// One Gauss–Jordan step on column `prim` of the working grid `w` and the
/// companion grid `e`: the pivot search, then the elimination; none when
/// the column has no non-zero pivot.
pub open spec fn gj_step<T: Scalar>(w: Grid<T>, e: Grid<T>, prim: int, n: int) -> Option<(Grid<T>, Grid<T>)> {
    match pivot_state(w, e, prim, n) {
        None => None,
        Some((w1, e1)) => Some(reduce(w1, e1, prim)),
    }
}

/// The first `k` Gauss–Jordan steps on an `n` by `n` grid.
pub open spec fn gauss_jordan<T: Scalar>(w: Grid<T>, e: Grid<T>, k: int, n: int) -> Option<(Grid<T>, Grid<T>)>
    decreases k,
{
    if k <= 0 {
        Some((w, e))
    } else {
        match gauss_jordan(w, e, k - 1, n) {
            None => None,
            Some((w1, e1)) => gj_step(w1, e1, k - 1, n),
        }
    }
}

/// The working grid of an elimination state.
pub open spec fn working<T: Scalar>(state: Option<(Grid<T>, Grid<T>)>) -> Grid<T> {
    match state {
        Some((w, _)) => w,
        None => identity_grid::<T>(),
    }
}

/// The companion grid of an elimination state.
pub open spec fn companion<T: Scalar>(state: Option<(Grid<T>, Grid<T>)>) -> Grid<T> {
    match state {
        Some((_, e)) => e,
        None => identity_grid::<T>(),
    }
}

/// The inverse that Gauss–Jordan elimination (with
/// exact comparisons) finds for `m`: none for a matrix that is not square
/// or is empty, that runs out of non-zero pivots, or whose reduced last row
/// is not `0 .. 0 1`; else the companion grid, which started as the
/// identity.
pub open spec fn inverse<T: Scalar>(m: Matrix<T>) -> Option<Grid<T>> {
    let n = m.spec_nrows() as int;
    if m.spec_nrows() != m.spec_ncols() || n == 0 {
        None
    } else {
        let state = gauss_jordan(grid_of(m), identity_grid::<T>(), n, n);
        if state is Some && T::spec_is_one(working(state)(n - 1, n - 1)) && forall|i: int|
            0 <= i < n - 1 ==> T::spec_is_zero(#[trigger] working(state)(n - 1, i)) {
            Some(companion(state))
        } else {
            None
        }
    }
}

/// The sum `l[i][0] * r[0][j] + .. + l[i][n-1] * r[n-1][j]` over grids,
/// added up from zero in column order.
pub open spec fn grid_dot<T: Scalar>(l: Grid<T>, r: Grid<T>, i: int, j: int, n: int) -> T
    decreases n,
{
    if n <= 0 {
        T::spec_zero()
    } else {
        T::spec_plus(grid_dot(l, r, i, j, n - 1), T::spec_times(l(i, n - 1), r(n - 1, j)))
    }
}

/// A matrix product cell is the grid product cell of what the factors hold.
pub proof fn lemma_dot_grid<T: Scalar>(l: Matrix<T>, r: Matrix<T>, g: Grid<T>, i: int, j: int, k: int)
    requires
        0 <= k <= r.spec_nrows(),
        0 <= j < r.spec_ncols(),
        forall|a: int, b: int| 0 <= a < r.spec_nrows() && 0 <= b < r.spec_ncols() ==> #[trigger] r.cell(a, b) == g(a, b),
    ensures
        dot(l, r, i, j, k) == grid_dot(grid_of(l), g, i, j, k),
    decreases k,
{
    if k > 0 {
        lemma_dot_grid(l, r, g, i, j, k - 1);
        assert(r.cell(k - 1, j) == g(k - 1, j));
    }
}

/// `m` is `n` by `n` and holds `g`.
pub open spec fn holds<T>(m: Matrix<T>, g: Grid<T>, n: nat) -> bool {
    &&& has_shape(m, n, n)
    &&& forall|i: int, j: int| 0 <= i < n && 0 <= j < n ==> #[trigger] m.cell(i, j) == g(i, j)
}

proof fn lemma_gauss_jordan_stuck<T: Scalar>(w: Grid<T>, e: Grid<T>, k: int, m: int, n: int)
    requires
        0 <= k <= m,
        gauss_jordan(w, e, k, n) is None,
    ensures
        gauss_jordan(w, e, m, n) is None,
    decreases m - k,
{
    if k < m {
        lemma_gauss_jordan_stuck(w, e, k, m - 1, n);
    }
}

proof fn lemma_first_nonzero<T: Scalar>(g: Grid<T>, col: int, start: int, row: int, n: int)
    requires
        start <= row <= n,
        forall|r: int| start <= r < row ==> T::spec_is_zero(#[trigger] g(r, col)),
    ensures
        first_nonzero(g, col, start, n) == first_nonzero(g, col, row, n),
    decreases row - start,
{
    if start < row {
        lemma_first_nonzero(g, col, start + 1, row, n);
    }
}

impl<T: Scalar> Matrix<T> {
    /// Multiplies row `r` by `f` from column `from` on.
    fn scale_row(&mut self, r: usize, from: usize, f: T)
        requires
            old(self).wf(),
            r < old(self).spec_nrows(),
        ensures
            final(self).wf(),
            final(self).spec_nrows() == old(self).spec_nrows(),
            final(self).spec_ncols() == old(self).spec_ncols(),
            forall|i: int, j: int|
                0 <= i < old(self).spec_nrows() && 0 <= j < old(self).spec_ncols() ==> #[trigger] final(self).cell(i, j)
                    == scaled(grid_of(*old(self)), r as int, from as int, f)(i, j),
    {
        let mut col = from;
        while col < self.cols
            invariant
                self.wf(),
                self.spec_nrows() == old(self).spec_nrows(),
                self.spec_ncols() == old(self).spec_ncols(),
                r < self.spec_nrows(),
                from <= col,
                forall|i: int, j: int|
                    0 <= i < self.spec_nrows() && 0 <= j < self.spec_ncols() ==> #[trigger] self.cell(i, j) == if i
                        == r && from <= j < col {
                        T::spec_times(old(self).cell(i, j), f)
                    } else {
                        old(self).cell(i, j)
                    },
            decreases self.spec_ncols() - col,
        {
            let v = self.at(r, col).times(f);
            self.put(r, col, v);
            col = col + 1;
        }
    }

    /// Subtracts `factor(i)` times row `prim` from every other row `i` of
    /// both `work` and `res`, where `factor(i)` is `work`'s cell in row `i`
    /// and column `prim`.
    fn clear_column(work: &mut Self, res: &mut Self, prim: usize)
        requires
            old(work).wf(),
            old(res).wf(),
            old(work).spec_nrows() == old(work).spec_ncols(),
            has_shape(*old(res), old(work).spec_nrows(), old(work).spec_nrows()),
            prim < old(work).spec_nrows(),
        ensures
            has_shape(*final(work), old(work).spec_nrows(), old(work).spec_nrows()),
            has_shape(*final(res), old(work).spec_nrows(), old(work).spec_nrows()),
            forall|i: int, j: int|
                0 <= i < old(work).spec_nrows() && 0 <= j < old(work).spec_nrows() ==> #[trigger] final(work).cell(i, j)
                    == cleared(grid_of(*old(work)), prim as int, |k: int| old(work).cell(k, prim as int))(i, j),
            forall|i: int, j: int|
                0 <= i < old(work).spec_nrows() && 0 <= j < old(work).spec_nrows() ==> #[trigger] final(res).cell(i, j)
                    == cleared(grid_of(*old(res)), prim as int, |k: int| old(work).cell(k, prim as int))(i, j),
    {
        let n = work.rows;
        let mut row: usize = 0;
        while row < n
            invariant
                row <= n,
                prim < n,
                n == old(work).spec_nrows(),
                has_shape(*work, n as nat, n as nat),
                has_shape(*res, n as nat, n as nat),
                forall|i: int, j: int|
                    0 <= i < n && 0 <= j < n ==> #[trigger] work.cell(i, j) == if i < row {
                        cleared(grid_of(*old(work)), prim as int, |k: int| old(work).cell(k, prim as int))(i, j)
                    } else {
                        old(work).cell(i, j)
                    },
                forall|i: int, j: int|
                    0 <= i < n && 0 <= j < n ==> #[trigger] res.cell(i, j) == if i < row {
                        cleared(grid_of(*old(res)), prim as int, |k: int| old(work).cell(k, prim as int))(i, j)
                    } else {
                        old(res).cell(i, j)
                    },
            decreases n - row,
        {
            if row != prim {
                let factor = work.at(row, prim);
                let mut cell: usize = 0;
                while cell < n
                    invariant
                        cell <= n,
                        row < n,
                        prim < n,
                        row != prim,
                        n == old(work).spec_nrows(),
                        factor == old(work).cell(row as int, prim as int),
                        has_shape(*work, n as nat, n as nat),
                        has_shape(*res, n as nat, n as nat),
                        forall|i: int, j: int|
                            0 <= i < n && 0 <= j < n ==> #[trigger] work.cell(i, j) == if i < row || (i == row && j
                                < cell) {
                                cleared(grid_of(*old(work)), prim as int, |k: int| old(work).cell(k, prim as int))(i, j)
                            } else {
                                old(work).cell(i, j)
                            },
                        forall|i: int, j: int|
                            0 <= i < n && 0 <= j < n ==> #[trigger] res.cell(i, j) == if i < row || (i == row && j
                                < cell) {
                                cleared(grid_of(*old(res)), prim as int, |k: int| old(work).cell(k, prim as int))(i, j)
                            } else {
                                old(res).cell(i, j)
                            },
                    decreases n - cell,
                {
                    let w = work.at(row, cell).minus(work.at(prim, cell).times(factor));
                    work.put(row, cell, w);
                    let v = res.at(row, cell).minus(res.at(prim, cell).times(factor));
                    res.put(row, cell, v);
                    cell = cell + 1;
                }
            }
            row = row + 1;
        }
    }

    /// The inverse by Gauss–Jordan elimination (see `inverse`): the result
    /// is `Some` exactly when `inverse` finds one, and then holds its cells.
    /// Comparisons with zero and one are exact.
    pub fn try_invert(self) -> (r: Option<Self>)
        requires
            self.wf(),
            self.spec_nrows() * self.spec_nrows() <= usize::MAX,
        ensures
            r is Some <==> inverse(self) is Some,
            r matches Some(m) ==> holds(m, inverse(self)->0, self.spec_nrows()),
    {
        if !self.is_square() {
            return None;
        }
        let n = self.rows;
        if n == 0 {
            return None;
        }
        let ghost g0 = grid_of(self);
        let mut work = self;
        let mut res = Self::identity_square(n);
        let one = T::one();

        let mut prim: usize = 0;
        while prim < n
            invariant
                prim <= n,
                n > 0,
                n * n <= usize::MAX,
                n == self.spec_nrows(),
                one == T::spec_one(),
                g0 == grid_of(self),
                gauss_jordan(g0, identity_grid::<T>(), prim as int, n as int) is Some,
                holds(work, working(gauss_jordan(g0, identity_grid::<T>(), prim as int, n as int)), n as nat),
                holds(res, companion(gauss_jordan(g0, identity_grid::<T>(), prim as int, n as int)), n as nat),
            decreases n - prim,
        {
            let ghost w = working(gauss_jordan(g0, identity_grid::<T>(), prim as int, n as int));
            let ghost e = companion(gauss_jordan(g0, identity_grid::<T>(), prim as int, n as int));
            if work.at(prim, prim).is_zero() {
                let mut found = false;
                let mut row = prim;
                while row < n
                    invariant_except_break
                        !found,
                        holds(work, w, n as nat),
                        holds(res, e, n as nat),
                    invariant
                        prim <= row <= n,
                        prim < n,
                        forall|r: int| prim <= r < row ==> T::spec_is_zero(#[trigger] w(r, prim as int)),
                    ensures
                        found ==> (first_nonzero(w, prim as int, prim as int, n as int) matches Some(k) && holds(
                            work,
                            swapped(w, prim as int, k, prim as int),
                            n as nat,
                        ) && holds(res, swapped(e, prim as int, k, 0), n as nat)),
                        !found ==> forall|r: int| prim <= r < n ==> T::spec_is_zero(#[trigger] w(r, prim as int)),
                    decreases n - row,
                {
                    if !work.at(row, prim).is_zero() {
                        proof {
                            lemma_first_nonzero(w, prim as int, prim as int, row as int, n as int);
                        }
                        work.swap_rows_starting_from(prim, row, prim);
                        res.swap_rows(prim, row);
                        found = true;
                        break;
                    }
                    row = row + 1;
                }
                if !found {
                    proof {
                        lemma_first_nonzero(w, prim as int, prim as int, n as int, n as int);
                        assert(gauss_jordan(g0, identity_grid::<T>(), prim + 1, n as int) is None);
                        lemma_gauss_jordan_stuck(g0, identity_grid::<T>(), prim + 1, n as int, n as int);
                    }
                    return None;
                }
            }
            let ghost st = pivot_state(w, e, prim as int, n as int);
            proof {
                assert(st is Some);
                assert(holds(work, working(st), n as nat));
                assert(holds(res, companion(st), n as nat));
            }
            let ghost w1 = working(st);
            let ghost e1 = companion(st);
            let pivot = work.at(prim, prim);
            let factor = one.over(pivot);
            proof {
                assert(pivot == w1(prim as int, prim as int));
            }
            work.scale_row(prim, prim, factor);
            res.scale_row(prim, 0, factor);
            proof {
                assert(factor == pivot_factor(w1, prim as int));
                assert(holds(work, scaled_work(w1, prim as int), n as nat));
                assert(holds(res, scaled(e1, prim as int, 0, pivot_factor(w1, prim as int)), n as nat));
            }
            let ghost ws = work;
            Self::clear_column(&mut work, &mut res, prim);
            proof {
                let next = gauss_jordan(g0, identity_grid::<T>(), prim + 1, n as int);
                assert(next == gj_step(w, e, prim as int, n as int));
                assert(next == Some(reduce(w1, e1, prim as int)));
                let w2 = scaled_work(w1, prim as int);
                assert forall|i: int, j: int| 0 <= i < n && 0 <= j < n implies #[trigger] work.cell(i, j)
                    == working(next)(i, j) by {
                    assert(ws.cell(i, j) == w2(i, j));
                    assert(ws.cell(prim as int, j) == w2(prim as int, j));
                    assert(ws.cell(i, prim as int) == w2(i, prim as int));
                }
                assert forall|i: int, j: int| 0 <= i < n && 0 <= j < n implies #[trigger] res.cell(i, j)
                    == companion(next)(i, j) by {
                    assert(ws.cell(i, prim as int) == w2(i, prim as int));
                }
            }
            prim = prim + 1;
        }

        let ghost state = gauss_jordan(g0, identity_grid::<T>(), n as int, n as int);
        let ghost wn = working(state);
        proof {
            assert(work.cell(n - 1, n - 1) == wn(n - 1, n - 1));
            assert((n - 1) * n + (n - 1) < n * n) by (nonlinear_arith)
                requires
                    n > 0,
            ;
        }
        match work.last_cell() {
            Some(last) => {
                if !last.is_one() {
                    return None;
                }
            },
            None => {
                return None;
            },
        }
        let mut i: usize = 0;
        while i < n - 1
            invariant
                n > 0,
                i <= n - 1,
                n == self.spec_nrows(),
                self.spec_nrows() == self.spec_ncols(),
                g0 == grid_of(self),
                state == gauss_jordan(g0, identity_grid::<T>(), n as int, n as int),
                wn == working(state),
                holds(work, wn, n as nat),
                forall|k: int| 0 <= k < i ==> T::spec_is_zero(#[trigger] wn(n - 1, k)),
            decreases n - 1 - i,
        {
            if !work.at(n - 1, i).is_zero() {
                proof {
                    assert(work.cell(n - 1, i as int) == wn(n - 1, i as int));
                }
                return None;
            }
            proof {
                assert(work.cell(n - 1, i as int) == wn(n - 1, i as int));
            }
            i = i + 1;
        }
        Some(res)
    }
}

} // verus!

verus! {

/// The state of the LU elimination: the upper grid, the multipliers of the
/// lower grid, the row permutation, the next pivot row and the number of
/// skipped columns.
pub type LuState<T> = (Grid<T>, Grid<T>, Seq<usize>, int, int);

/// `g` with rows `r1` and `r2` exchanged in the columns before `to`.
pub open spec fn swapped_before<T>(g: Grid<T>, r1: int, r2: int, to: int) -> Grid<T> {
    |i: int, j: int|
        if j < to && i == r1 {
            g(r2, j)
        } else if j < to && i == r2 {
            g(r1, j)
        } else {
            g(i, j)
        }
}

/// The pivot search of an LU step: when the pivot cell is zero, bring up
/// the first row below with a non-zero cell in the pivot column, in the
/// upper grid from the pivot column on, in the lower grid before the pivot
/// row's column, and in the permutation.
pub open spec fn lu_pivoted<T: Scalar>(s: LuState<T>, rows: int) -> LuState<T> {
    let pc = s.3 + s.4;
    if !T::spec_is_zero((s.0)(s.3, pc)) {
        s
    } else {
        match first_nonzero(s.0, pc, s.3, rows) {
            None => s,
            Some(row) => (
                swapped(s.0, s.3, row, pc),
                swapped_before(s.1, s.3, row, s.3),
                s.2.update(s.3, s.2[row]).update(row, s.2[s.3]),
                s.3,
                s.4,
            ),
        }
    }
}

/// Whether row `i` is left alone by the elimination under pivot row `pr`
/// and column `pc`: it is not below the pivot, or its cell in the pivot
/// column is already zero.
pub open spec fn lu_keeps<T: Scalar>(u: Grid<T>, pr: int, pc: int, i: int) -> bool {
    i <= pr || T::spec_is_zero(u(i, pc))
}

/// The multiplier of row `i` under pivot row `pr` and column `pc`.
pub open spec fn lu_factor<T: Scalar>(u: Grid<T>, pr: int, pc: int, i: int) -> T {
    T::spec_over(u(i, pc), u(pr, pc))
}

/// The upper grid after eliminating below the pivot.
pub open spec fn lu_upper_step<T: Scalar>(u: Grid<T>, pr: int, pc: int) -> Grid<T> {
    |i: int, j: int|
        if lu_keeps(u, pr, pc, i) {
            u(i, j)
        } else {
            T::spec_minus(u(i, j), T::spec_times(u(pr, j), lu_factor(u, pr, pc, i)))
        }
}

/// The lower grid after eliminating below the pivot: each multiplier lands
/// in the pivot row's column.
pub open spec fn lu_lower_step<T: Scalar>(u: Grid<T>, l: Grid<T>, pr: int, pc: int) -> Grid<T> {
    |i: int, j: int|
        if !lu_keeps(u, pr, pc, i) && j == pr {
            lu_factor(u, pr, pc, i)
        } else {
            l(i, j)
        }
}

/// One step of the LU elimination on a `rows` by `cols` grid: nothing once
/// the pivot leaves the grid; else the pivot search, then either skipping
/// the column (no non-zero pivot) or eliminating below the pivot and moving
/// to the next row.
pub open spec fn lu_step<T: Scalar>(s: LuState<T>, rows: int, cols: int) -> LuState<T> {
    if !(s.3 < rows && s.3 + s.4 < cols) {
        s
    } else {
        let t = lu_pivoted(s, rows);
        let pc = t.3 + t.4;
        if T::spec_is_zero((t.0)(t.3, pc)) {
            (t.0, t.1, t.2, t.3, t.4 + 1)
        } else {
            (lu_upper_step(t.0, t.3, pc), lu_lower_step(t.0, t.1, t.3, pc), t.2, t.3 + 1, t.4)
        }
    }
}

/// `k` steps of the LU elimination.
pub open spec fn lu_iter<T: Scalar>(s: LuState<T>, k: int, rows: int, cols: int) -> LuState<T>
    decreases k,
{
    if k <= 0 {
        s
    } else {
        lu_step(lu_iter(s, k - 1, rows, cols), rows, cols)
    }
}

/// The final state of the LU elimination of `m`, which starts from `m`, a
/// zero lower grid and the identity permutation.
pub open spec fn lu_state<T: Scalar>(m: Matrix<T>) -> LuState<T> {
    let rows = m.spec_nrows() as int;
    let cols = m.spec_ncols() as int;
    lu_iter(
        (grid_of(m), |i: int, j: int| T::spec_zero(), Seq::new(rows as nat, |i: int| i as usize), 0, 0),
        rows + cols,
        rows,
        cols,
    )
}

/// The lower factor: the multipliers with ones on the diagonal.
pub open spec fn lu_lower<T: Scalar>(m: Matrix<T>) -> Grid<T> {
    |i: int, j: int|
        if i == j {
            T::spec_one()
        } else {
            (lu_state(m).1)(i, j)
        }
}

/// The rank: the columns not skipped, at most the number of rows.
pub open spec fn lu_rank<T: Scalar>(m: Matrix<T>) -> int {
    let free = m.spec_ncols() - lu_state(m).4;
    if free < m.spec_nrows() {
        free
    } else {
        m.spec_nrows() as int
    }
}

/// The product of the first `n` diagonal cells, from one.
pub open spec fn diag_product<T: Scalar>(g: Grid<T>, n: int) -> T
    decreases n,
{
    if n <= 0 {
        T::spec_one()
    } else {
        T::spec_times(diag_product(g, n - 1), g(n - 1, n - 1))
    }
}

/// `m` is `rows` by `cols` and holds `g`.
pub open spec fn holds_rect<T>(m: Matrix<T>, g: Grid<T>, rows: nat, cols: nat) -> bool {
    &&& has_shape(m, rows, cols)
    &&& forall|i: int, j: int| 0 <= i < rows && 0 <= j < cols ==> #[trigger] m.cell(i, j) == g(i, j)
}

proof fn lemma_lu_done<T: Scalar>(s: LuState<T>, k: int, m: int, rows: int, cols: int)
    requires
        0 <= k <= m,
        !(lu_iter(s, k, rows, cols).3 < rows && lu_iter(s, k, rows, cols).3 + lu_iter(s, k, rows, cols).4 < cols),
    ensures
        lu_iter(s, m, rows, cols) == lu_iter(s, k, rows, cols),
    decreases m - k,
{
    if k < m {
        lemma_lu_done(s, k, m - 1, rows, cols);
    }
}

} // verus!
