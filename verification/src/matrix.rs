use vstd::prelude::*;
use vstd::string::StringExecFns;

use crate::scalar::MatLinAlgBound;

verus! {

/// The element at row `i`, column `j` of a row-major buffer of `cols`-wide
/// rows.
pub open spec fn ent<T>(d: Seq<T>, cols: int, i: int, j: int) -> T {
    d[i * cols + j]
}

/// The fold-left sum of the first `k` products `a[y][i] * b[i][x]`, the
/// value the matrix product accumulates for entry `(y, x)`.
pub open spec fn mul_sum<T: MatLinAlgBound>(
    a: Matrix<T>,
    b: Matrix<T>,
    y: int,
    x: int,
    k: int,
) -> T
    decreases k,
{
    if k <= 0 {
        T::spec_zero()
    } else {
        mul_sum(a, b, y, x, k - 1).spec_add(a.at(y, k - 1).spec_mul(b.at(k - 1, x)))
    }
}

/// Error returned by the elementwise and product operations on [`Matrix`]
/// when the operands' shapes do not agree. Carries the name of the offending
/// operand and its row and column counts.
#[derive(Debug)]
pub enum MatrixOpsError {
    InvalidMatrixSize(String, usize, usize),
}

/// A dense row-major matrix: `nrows * ncols` scalars in a flat buffer,
/// row `i` occupying positions `i * ncols .. (i + 1) * ncols`.
///
/// The intended invariant, [`Matrix::wf`], is that the buffer holds exactly
/// `nrows * ncols` elements. [`Matrix::resize`] deliberately breaks it (it
/// changes the shape without touching the buffer) and is meant only for a
/// caller that immediately re-fills every element; all other operations
/// preserve it.
pub struct Matrix<T> {
    pub nrows: usize,
    pub ncols: usize,
    pub data: Vec<T>,
}

impl<T> Matrix<T> {
    /// The buffer length matches the shape.
    pub open spec fn wf(self) -> bool {
        self.data.len() == self.nrows * self.ncols
    }

    /// The element in row `i`, column `j`.
    pub open spec fn at(self, i: int, j: int) -> T {
        self.data@[i * self.ncols + j]
    }

    /// Both dimensions agree with `other`'s.
    pub open spec fn same_shape(self, other: Matrix<T>) -> bool {
        self.nrows == other.nrows && self.ncols == other.ncols
    }
}

/// The flat position of entry `(i, j)` lies inside a row-major buffer of
/// `r * c` elements.
pub proof fn lemma_row_major_index(i: int, j: int, r: int, c: int)
    requires
        0 <= i < r,
        0 <= j < c,
    ensures
        0 <= i * c + j < r * c,
        i * c + j <= (r - 1) * c + (c - 1),
{
    assert(0 <= i * c + j < r * c) by (nonlinear_arith)
        requires
            0 <= i < r,
            0 <= j < c,
    ;
    assert(i * c + j <= (r - 1) * c + (c - 1)) by (nonlinear_arith)
        requires
            0 <= i < r,
            0 <= j < c,
    ;
}

impl<T: Copy> Matrix<T> {
    /// Builds a matrix from a flat row-major buffer; the caller supplies a
    /// buffer of exactly `nrows * ncols` elements.
    pub fn new(nrows: usize, ncols: usize, data: Vec<T>) -> (r: Matrix<T>)
        requires
            data@.len() == nrows * ncols,
        ensures
            r.nrows == nrows,
            r.ncols == ncols,
            r.data == data,
            r.wf(),
    {
        Matrix { nrows, ncols, data }
    }

    pub fn rows(&self) -> (r: usize)
        ensures
            r == self.nrows,
    {
        self.nrows
    }

    pub fn cols(&self) -> (r: usize)
        ensures
            r == self.ncols,
    {
        self.ncols
    }

    /// Reads the element in row `i`, column `j`.
    pub fn get(&self, i: usize, j: usize) -> (r: T)
        requires
            self.wf(),
            i < self.nrows,
            j < self.ncols,
        ensures
            r == self.at(i as int, j as int),
    {
        proof {
            lemma_row_major_index(i as int, j as int, self.nrows as int, self.ncols as int);
        }
        self.data[i * self.ncols + j]
    }

    /// Writes `val` to row `i`, column `j`.
    pub fn set(&mut self, i: usize, j: usize, val: T)
        requires
            old(self).wf(),
            i < old(self).nrows,
            j < old(self).ncols,
        ensures
            final(self).nrows == old(self).nrows,
            final(self).ncols == old(self).ncols,
            final(self).wf(),
            final(self).data@ == old(self).data@.update(
                i * old(self).ncols + j,
                val,
            ),
            final(self).at(i as int, j as int) == val,
            forall|i2: int, j2: int|
                0 <= i2 < old(self).nrows && 0 <= j2 < old(self).ncols && !(i2 == i && j2 == j)
                    ==> #[trigger] final(self).at(i2, j2) == old(self).at(i2, j2),
    {
        proof {
            lemma_row_major_index(i as int, j as int, self.nrows as int, self.ncols as int);
        }
        let k: usize = i * self.ncols + j;
        self.data[k] = val;
        proof {
            assert forall|i2: int, j2: int|
                0 <= i2 < old(self).nrows && 0 <= j2 < old(self).ncols && !(i2 == i && j2 == j)
                    implies #[trigger] self.at(i2, j2) == old(self).at(i2, j2) by {
                lemma_row_major_index(i2, j2, self.nrows as int, self.ncols as int);
                if i2 * self.ncols + j2 == i * self.ncols + j {
                    assert((i2 - i) * self.ncols == j - j2) by (nonlinear_arith)
                        requires
                            i2 * self.ncols + j2 == i * self.ncols + j,
                    ;
                    assert(i2 == i && j2 == j) by (nonlinear_arith)
                        requires
                            (i2 - i) * self.ncols == j - j2,
                            0 <= j2 < self.ncols,
                            0 <= j < self.ncols,
                    ;
                }
            }
        }
    }

    /// Copies row `i` out as a vector of `ncols` elements.
    pub fn get_row(&self, i: usize) -> (r: Vec<T>)
        requires
            self.wf(),
            i < self.nrows,
        ensures
            r@.len() == self.ncols,
            forall|j: int| 0 <= j < self.ncols ==> r@[j] == self.at(i as int, j),
    {
        let mut r: Vec<T> = Vec::new();
        let mut j: usize = 0;
        while j < self.ncols
            invariant
                self.wf(),
                i < self.nrows,
                j <= self.ncols,
                r@.len() == j,
                forall|j2: int| 0 <= j2 < j ==> r@[j2] == self.at(i as int, j2),
            decreases self.ncols - j,
        {
            r.push(self.get(i, j));
            j += 1;
        }
        r
    }

    /// Copies column `idx` out as a vector of `nrows` elements.
    pub fn get_col(&self, idx: usize) -> (r: Vec<T>)
        requires
            self.wf(),
            idx < self.ncols,
        ensures
            r@.len() == self.nrows,
            forall|i: int| 0 <= i < self.nrows ==> r@[i] == self.at(i, idx as int),
    {
        let mut r: Vec<T> = Vec::new();
        let mut i: usize = 0;
        while i < self.nrows
            invariant
                self.wf(),
                idx < self.ncols,
                i <= self.nrows,
                r@.len() == i,
                forall|i2: int| 0 <= i2 < i ==> r@[i2] == self.at(i2, idx as int),
            decreases self.nrows - i,
        {
            r.push(self.get(i, idx));
            i += 1;
        }
        r
    }

    /// Changes the recorded shape without touching the buffer. The result is
    /// well-formed only if the buffer already has `new_rows * new_cols`
    /// elements; a caller using this is expected to overwrite every element
    /// through a shape-respecting operation afterwards.
    pub fn resize(&mut self, new_rows: usize, new_cols: usize)
        ensures
            final(self).nrows == new_rows,
            final(self).ncols == new_cols,
            final(self).data == old(self).data,
    {
        self.nrows = new_rows;
        self.ncols = new_cols;
    }

    /// Reshapes to `new_rows * new_cols` and fills every element with `val`.
    pub fn assign(&mut self, new_rows: usize, new_cols: usize, val: T)
        requires
            new_rows * new_cols <= usize::MAX,
        ensures
            final(self).nrows == new_rows,
            final(self).ncols == new_cols,
            final(self).wf(),
            forall|i: int, j: int|
                0 <= i < new_rows && 0 <= j < new_cols ==> #[trigger] final(self).at(i, j) == val,
    {
        self.nrows = new_rows;
        self.ncols = new_cols;
        let n: usize = new_rows * new_cols;
        self.data = vec_fill(val, n);
        proof {
            assert forall|i: int, j: int|
                0 <= i < new_rows && 0 <= j < new_cols implies #[trigger] self.at(i, j) == val by {
                lemma_row_major_index(i, j, new_rows as int, new_cols as int);
            }
        }
    }

    /// Swaps rows `rhs` and `lhs` in place.
    pub fn swap_rows(&mut self, rhs: usize, lhs: usize)
        requires
            old(self).wf(),
            rhs < old(self).nrows,
            lhs < old(self).nrows,
        ensures
            final(self).nrows == old(self).nrows,
            final(self).ncols == old(self).ncols,
            final(self).wf(),
            forall|j: int|
                0 <= j < old(self).ncols ==> #[trigger] final(self).at(rhs as int, j) == old(
                    self,
                ).at(lhs as int, j),
            forall|j: int|
                0 <= j < old(self).ncols ==> #[trigger] final(self).at(lhs as int, j) == old(
                    self,
                ).at(rhs as int, j),
            forall|i: int, j: int|
                0 <= i < old(self).nrows && 0 <= j < old(self).ncols && i != rhs && i != lhs
                    ==> #[trigger] final(self).at(i, j) == old(self).at(i, j),
    {
        let mut j: usize = 0;
        while j < self.ncols
            invariant
                self.wf(),
                self.nrows == old(self).nrows,
                self.ncols == old(self).ncols,
                rhs < self.nrows,
                lhs < self.nrows,
                j <= self.ncols,
                forall|j2: int|
                    0 <= j2 < j ==> #[trigger] self.at(rhs as int, j2) == old(self).at(
                        lhs as int,
                        j2,
                    ),
                forall|j2: int|
                    0 <= j2 < j ==> #[trigger] self.at(lhs as int, j2) == old(self).at(
                        rhs as int,
                        j2,
                    ),
                forall|j2: int|
                    j <= j2 < self.ncols ==> #[trigger] self.at(rhs as int, j2) == old(self).at(
                        rhs as int,
                        j2,
                    ),
                forall|j2: int|
                    j <= j2 < self.ncols ==> #[trigger] self.at(lhs as int, j2) == old(self).at(
                        lhs as int,
                        j2,
                    ),
                forall|i: int, j2: int|
                    0 <= i < self.nrows && 0 <= j2 < self.ncols && i != rhs && i != lhs
                        ==> #[trigger] self.at(i, j2) == old(self).at(i, j2),
            decreases self.ncols - j,
        {
            let a = self.get(rhs, j);
            let b = self.get(lhs, j);
            self.set(rhs, j, b);
            self.set(lhs, j, a);
            j += 1;
        }
    }

    /// Swaps columns `rhs` and `lhs` in place; a request naming a column out
    /// of range leaves the matrix unchanged.
    pub fn swap_cols(&mut self, rhs: usize, lhs: usize)
        requires
            old(self).wf(),
        ensures
            final(self).nrows == old(self).nrows,
            final(self).ncols == old(self).ncols,
            final(self).wf(),
            (rhs >= old(self).ncols || lhs >= old(self).ncols) ==> final(self).data == old(
                self,
            ).data,
            (rhs < old(self).ncols && lhs < old(self).ncols) ==> {
                &&& forall|i: int|
                    0 <= i < old(self).nrows ==> #[trigger] final(self).at(i, rhs as int) == old(
                        self,
                    ).at(i, lhs as int)
                &&& forall|i: int|
                    0 <= i < old(self).nrows ==> #[trigger] final(self).at(i, lhs as int) == old(
                        self,
                    ).at(i, rhs as int)
                &&& forall|i: int, j: int|
                    0 <= i < old(self).nrows && 0 <= j < old(self).ncols && j != rhs && j != lhs
                        ==> #[trigger] final(self).at(i, j) == old(self).at(i, j)
            },
    {
        if lhs >= self.ncols || rhs >= self.ncols {
            return ;
        }
        let mut i: usize = 0;
        while i < self.nrows
            invariant
                self.wf(),
                self.nrows == old(self).nrows,
                self.ncols == old(self).ncols,
                rhs < self.ncols,
                lhs < self.ncols,
                i <= self.nrows,
                forall|i2: int|
                    0 <= i2 < i ==> #[trigger] self.at(i2, rhs as int) == old(self).at(
                        i2,
                        lhs as int,
                    ),
                forall|i2: int|
                    0 <= i2 < i ==> #[trigger] self.at(i2, lhs as int) == old(self).at(
                        i2,
                        rhs as int,
                    ),
                forall|i2: int|
                    i <= i2 < self.nrows ==> #[trigger] self.at(i2, rhs as int) == old(self).at(
                        i2,
                        rhs as int,
                    ),
                forall|i2: int|
                    i <= i2 < self.nrows ==> #[trigger] self.at(i2, lhs as int) == old(self).at(
                        i2,
                        lhs as int,
                    ),
                forall|i2: int, j: int|
                    0 <= i2 < self.nrows && 0 <= j < self.ncols && j != rhs && j != lhs
                        ==> #[trigger] self.at(i2, j) == old(self).at(i2, j),
            decreases self.nrows - i,
        {
            let a = self.get(i, rhs);
            let b = self.get(i, lhs);
            self.set(i, rhs, b);
            self.set(i, lhs, a);
            i += 1;
        }
    }

    /// An element-for-element copy of this matrix.
    pub fn duplicate(&self) -> (r: Matrix<T>)
        ensures
            r.nrows == self.nrows,
            r.ncols == self.ncols,
            r.data@ == self.data@,
            self.wf() ==> r.wf(),
    {
        let mut data: Vec<T> = Vec::new();
        let mut k: usize = 0;
        while k < self.data.len()
            invariant
                k <= self.data@.len(),
                data@ =~= self.data@.subrange(0, k as int),
            decreases self.data@.len() - k,
        {
            data.push(self.data[k]);
            k += 1;
        }
        proof {
            assert(data@ =~= self.data@);
        }
        Matrix { nrows: self.nrows, ncols: self.ncols, data }
    }
}

impl<T: MatLinAlgBound> Matrix<T> {
    /// The `n` by `n` identity matrix.
    pub fn identity(n: usize) -> (r: Matrix<T>)
        requires
            n * n <= usize::MAX,
        ensures
            r.nrows == n,
            r.ncols == n,
            r.wf(),
            forall|i: int, j: int|
                0 <= i < n && 0 <= j < n ==> #[trigger] r.at(i, j) == (if i == j {
                    T::spec_one()
                } else {
                    T::spec_zero()
                }),
    {
        let mut r = Matrix::new(n, n, vec_fill(T::zero(), n * n));
        proof {
            assert forall|i2: int, j2: int| 0 <= i2 < n && 0 <= j2 < n implies #[trigger] r.at(
                i2,
                j2,
            ) == T::spec_zero() by {
                lemma_row_major_index(i2, j2, n as int, n as int);
            }
        }
        let mut i: usize = 0;
        while i < n
            invariant
                r.nrows == n,
                r.ncols == n,
                r.wf(),
                n * n <= usize::MAX,
                i <= n,
                forall|i2: int, j2: int|
                    0 <= i2 < n && 0 <= j2 < n ==> #[trigger] r.at(i2, j2) == (if i2 == j2 && i2
                        < i {
                        T::spec_one()
                    } else {
                        T::spec_zero()
                    }),
            decreases n - i,
        {
            r.set(i, i, T::one());
            i += 1;
        }
        proof {
            assert forall|i2: int, j2: int| 0 <= i2 < n && 0 <= j2 < n implies #[trigger] r.at(
                i2,
                j2,
            ) == (if i2 == j2 {
                T::spec_one()
            } else {
                T::spec_zero()
            }) by {
                lemma_row_major_index(i2, j2, n as int, n as int);
            }
        }
        r
    }

    /// A rectangular matrix with ones on the leading diagonal and zeros
    /// elsewhere.
    pub fn pseudo_identity(nrows: usize, ncols: usize) -> (r: Matrix<T>)
        requires
            nrows * ncols <= usize::MAX,
        ensures
            r.nrows == nrows,
            r.ncols == ncols,
            r.wf(),
            forall|i: int, j: int|
                0 <= i < nrows && 0 <= j < ncols ==> #[trigger] r.at(i, j) == (if i == j {
                    T::spec_one()
                } else {
                    T::spec_zero()
                }),
    {
        let mut r = Matrix::new(nrows, ncols, vec_fill(T::zero(), nrows * ncols));
        proof {
            assert forall|i2: int, j2: int|
                0 <= i2 < nrows && 0 <= j2 < ncols implies #[trigger] r.at(i2, j2)
                == T::spec_zero() by {
                lemma_row_major_index(i2, j2, nrows as int, ncols as int);
            }
        }
        let m = if nrows < ncols {
            nrows
        } else {
            ncols
        };
        let mut i: usize = 0;
        while i < m
            invariant
                r.nrows == nrows,
                r.ncols == ncols,
                r.wf(),
                m <= nrows,
                m <= ncols,
                (m == nrows || m == ncols),
                i <= m,
                forall|i2: int, j2: int|
                    0 <= i2 < nrows && 0 <= j2 < ncols ==> #[trigger] r.at(i2, j2) == (if i2 == j2
                        && i2 < i {
                        T::spec_one()
                    } else {
                        T::spec_zero()
                    }),
            decreases m - i,
        {
            r.set(i, i, T::one());
            i += 1;
        }
        proof {
            assert forall|i2: int, j2: int|
                0 <= i2 < nrows && 0 <= j2 < ncols implies #[trigger] r.at(i2, j2) == (if i2 == j2 {
                T::spec_one()
            } else {
                T::spec_zero()
            }) by {
                lemma_row_major_index(i2, j2, nrows as int, ncols as int);
            }
        }
        r
    }

    /// Elementwise sum. Succeeds exactly when the shapes agree; on a shape
    /// mismatch the result reports the right-hand operand's dimensions.
    pub fn add(self, rhs: Matrix<T>) -> (r: Result<Matrix<T>, MatrixOpsError>)
        requires
            self.wf(),
            rhs.wf(),
        ensures
            (r is Ok) <==> self.same_shape(rhs),
            r matches Err(e) ==> ({
                &&& e matches MatrixOpsError::InvalidMatrixSize(s, er, ec)
                &&& s@ == "rhs"@
                &&& er == rhs.nrows
                &&& ec == rhs.ncols
            }),
            r matches Ok(m) ==> ({
                &&& m.nrows == self.nrows
                &&& m.ncols == self.ncols
                &&& m.wf()
                &&& forall|i: int, j: int|
                    0 <= i < self.nrows && 0 <= j < self.ncols ==> #[trigger] m.at(i, j) == self.at(
                        i,
                        j,
                    ).spec_add(rhs.at(i, j))
            }),
    {
        if self.nrows != rhs.nrows || self.ncols != rhs.ncols {
            return Err(
                MatrixOpsError::InvalidMatrixSize(String::from_str("rhs"), rhs.nrows, rhs.ncols),
            );
        }
        let mut m = self;
        let ghost orig = m;
        let mut y: usize = 0;
        while y < m.nrows
            invariant
                m.wf(),
                rhs.wf(),
                m.nrows == orig.nrows,
                m.ncols == orig.ncols,
                rhs.nrows == orig.nrows,
                rhs.ncols == orig.ncols,
                y <= m.nrows,
                forall|i: int, j: int|
                    0 <= i < y && 0 <= j < m.ncols ==> #[trigger] m.at(i, j) == orig.at(
                        i,
                        j,
                    ).spec_add(rhs.at(i, j)),
                forall|i: int, j: int|
                    y <= i < m.nrows && 0 <= j < m.ncols ==> #[trigger] m.at(i, j) == orig.at(i, j),
            decreases m.nrows - y,
        {
            let mut x: usize = 0;
            while x < m.ncols
                invariant
                    m.wf(),
                    rhs.wf(),
                    m.nrows == orig.nrows,
                    m.ncols == orig.ncols,
                    rhs.nrows == orig.nrows,
                    rhs.ncols == orig.ncols,
                    y < m.nrows,
                    x <= m.ncols,
                    forall|i: int, j: int|
                        0 <= i < y && 0 <= j < m.ncols ==> #[trigger] m.at(i, j) == orig.at(
                            i,
                            j,
                        ).spec_add(rhs.at(i, j)),
                    forall|j: int|
                        0 <= j < x ==> #[trigger] m.at(y as int, j) == orig.at(
                            y as int,
                            j,
                        ).spec_add(rhs.at(y as int, j)),
                    forall|j: int|
                        x <= j < m.ncols ==> #[trigger] m.at(y as int, j) == orig.at(y as int, j),
                    forall|i: int, j: int|
                        y < i < m.nrows && 0 <= j < m.ncols ==> #[trigger] m.at(i, j) == orig.at(
                            i,
                            j,
                        ),
                decreases m.ncols - x,
            {
                let v = m.get(y, x).add(rhs.get(y, x));
                m.set(y, x, v);
                x += 1;
            }
            y += 1;
        }
        Ok(m)
    }

    /// Matrix product. Succeeds exactly when the inner dimensions agree; on
    /// a mismatch the result reports the right-hand operand's dimensions.
    /// Entry `(y, x)` of the product is the fold-left sum of products
    /// [`mul_sum`] over the shared dimension.
    pub fn mul(self, rhs: Matrix<T>) -> (r: Result<Matrix<T>, MatrixOpsError>)
        requires
            self.wf(),
            rhs.wf(),
            self.nrows * rhs.ncols <= usize::MAX,
        ensures
            (r is Ok) <==> self.ncols == rhs.nrows,
            r matches Err(e) ==> ({
                &&& e matches MatrixOpsError::InvalidMatrixSize(s, er, ec)
                &&& s@ == "rhs"@
                &&& er == rhs.nrows
                &&& ec == rhs.ncols
            }),
            r matches Ok(m) ==> ({
                &&& m.nrows == self.nrows
                &&& m.ncols == rhs.ncols
                &&& m.wf()
                &&& forall|y: int, x: int|
                    0 <= y < self.nrows && 0 <= x < rhs.ncols ==> #[trigger] m.at(y, x) == mul_sum(
                        self,
                        rhs,
                        y,
                        x,
                        self.ncols as int,
                    )
            }),
    {
        if self.ncols != rhs.nrows {
            return Err(
                MatrixOpsError::InvalidMatrixSize(String::from_str("rhs"), rhs.nrows, rhs.ncols),
            );
        }
        let mut m = Matrix::new(self.nrows, rhs.ncols, vec_fill(T::zero(), self.nrows * rhs.ncols));
        let mut y: usize = 0;
        while y < self.nrows
            invariant
                self.wf(),
                rhs.wf(),
                m.wf(),
                self.ncols == rhs.nrows,
                m.nrows == self.nrows,
                m.ncols == rhs.ncols,
                y <= self.nrows,
                forall|y2: int, x2: int|
                    0 <= y2 < y && 0 <= x2 < rhs.ncols ==> #[trigger] m.at(y2, x2) == mul_sum(
                        self,
                        rhs,
                        y2,
                        x2,
                        self.ncols as int,
                    ),
            decreases self.nrows - y,
        {
            let mut x: usize = 0;
            while x < rhs.ncols
                invariant
                    self.wf(),
                    rhs.wf(),
                    m.wf(),
                    self.ncols == rhs.nrows,
                    m.nrows == self.nrows,
                    m.ncols == rhs.ncols,
                    y < self.nrows,
                    x <= rhs.ncols,
                    forall|y2: int, x2: int|
                        0 <= y2 < y && 0 <= x2 < rhs.ncols ==> #[trigger] m.at(y2, x2) == mul_sum(
                            self,
                            rhs,
                            y2,
                            x2,
                            self.ncols as int,
                        ),
                    forall|x2: int|
                        0 <= x2 < x ==> #[trigger] m.at(y as int, x2) == mul_sum(
                            self,
                            rhs,
                            y as int,
                            x2,
                            self.ncols as int,
                        ),
                decreases rhs.ncols - x,
            {
                let mut acc = T::zero();
                let mut k: usize = 0;
                while k < self.ncols
                    invariant
                        self.wf(),
                        rhs.wf(),
                        self.ncols == rhs.nrows,
                        y < self.nrows,
                        x < rhs.ncols,
                        k <= self.ncols,
                        acc == mul_sum(self, rhs, y as int, x as int, k as int),
                    decreases self.ncols - k,
                {
                    acc = acc.add(self.get(y, k).mul(rhs.get(k, x)));
                    k += 1;
                }
                m.set(y, x, acc);
                x += 1;
            }
            y += 1;
        }
        Ok(m)
    }
}

/// A vector of `n` copies of `val`.
pub fn vec_fill<T: Copy>(val: T, n: usize) -> (r: Vec<T>)
    ensures
        r@.len() == n,
        forall|k: int| 0 <= k < n ==> r@[k] == val,
{
    let mut r: Vec<T> = Vec::new();
    let mut k: usize = 0;
    while k < n
        invariant
            k <= n,
            r@.len() == k,
            forall|k2: int| 0 <= k2 < k ==> r@[k2] == val,
        decreases n - k,
    {
        r.push(val);
        k += 1;
    }
    r
}

/// An element-for-element copy of a vector of scalars.
pub fn vec_dup<T: Copy>(v: &Vec<T>) -> (r: Vec<T>)
    ensures
        r@ == v@,
{
    let mut r: Vec<T> = Vec::new();
    let mut k: usize = 0;
    while k < v.len()
        invariant
            k <= v@.len(),
            r@ =~= v@.subrange(0, k as int),
        decreases v@.len() - k,
    {
        r.push(v[k]);
        k += 1;
    }
    proof {
        assert(r@ =~= v@);
    }
    r
}

} // verus!
