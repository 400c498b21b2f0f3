use vstd::prelude::*;

use crate::linalg::LinAlgError;
use crate::matrix::ent;
use crate::matrix::Matrix;
use crate::scalar::MatLinAlgBound;

verus! {

/// The partial inner sum the decomposition forms for the entry in rows
/// `i` and `j`: `a[i][j]` minus the fold-left sum of products
/// `L[i][t] * L[j][t]` for `t < k`.
pub open spec fn chol_sub<T: MatLinAlgBound>(a: Seq<T>, n: int, i: int, j: int, k: int) -> T
    decreases k, 0int, 0int,
{
    if k <= 0 {
        ent(a, n, i, j)
    } else {
        chol_sub(a, n, i, j, k - 1).spec_sub(
            chol_entry(a, n, i, k - 1).spec_mul(chol_entry(a, n, j, k - 1)),
        )
    }
}

/// The lower-triangular Cholesky factor entry at row `r`, column `c <= r`,
/// defined by the classic outer-product recurrences: the diagonal is the
/// square root of the reduced diagonal sum, and each entry below it is its
/// reduced sum divided by the diagonal of its column.
pub open spec fn chol_entry<T: MatLinAlgBound>(a: Seq<T>, n: int, r: int, c: int) -> T
    decreases c, (if r == c { 1int } else { 2int }), r,
{
    if r == c {
        chol_sub(a, n, r, r, r).spec_sqrt()
    } else {
        chol_sub(a, n, c, r, c).spec_div(chol_entry(a, n, c, c))
    }
}

/// Some reduced diagonal sum of the `n` by `n` matrix is zero or negative:
/// the condition under which the decomposition rejects the matrix as not
/// positive definite.
pub open spec fn has_nonpositive_pivot<T: MatLinAlgBound>(a: Seq<T>, n: int) -> bool {
    exists|i: int| 0 <= i < n && chol_sub(a, n, i, i, i).spec_le(T::spec_zero())
}

/// The forward-substitution inner sum for row `i` of `L x = b`: `b[i]`
/// minus the fold-left sum of `x[t] * L[i][t]` for `t < k`, where `x` is
/// the solution being built.
pub open spec fn chol_fwd_sum<T: MatLinAlgBound>(el: Seq<T>, n: int, b: Seq<T>, i: int, k: int) -> T
    decreases k, 0int,
{
    if k <= 0 {
        b[i]
    } else {
        chol_fwd_sum(el, n, b, i, k - 1).spec_sub(
            chol_fwd_val(el, n, b, k - 1).spec_mul(ent(el, n, i, k - 1)),
        )
    }
}

/// Entry `i` of the forward-substitution solution of `L x = b`.
pub open spec fn chol_fwd_val<T: MatLinAlgBound>(el: Seq<T>, n: int, b: Seq<T>, i: int) -> T
    decreases i, 1int,
{
    chol_fwd_sum(el, n, b, i, i).spec_div(ent(el, n, i, i))
}

/// The back-substitution inner sum for row `i`: the forward solution entry
/// minus the fold-left sum of `x[t] * L[t][i]` for `i < t < j`, where `x`
/// is the final solution being built from the bottom up.
pub open spec fn chol_back_sum<T: MatLinAlgBound>(
    el: Seq<T>,
    n: int,
    b: Seq<T>,
    i: int,
    j: int,
) -> T
    decreases n - i, 0int, j,
        when 0 <= i && i < n && j <= n
{
    if j <= i + 1 {
        chol_fwd_val(el, n, b, i)
    } else {
        chol_back_sum(el, n, b, i, j - 1).spec_sub(
            chol_back_val(el, n, b, j - 1).spec_mul(ent(el, n, j - 1, i)),
        )
    }
}

/// Entry `i` of the solution of `L L^T x = b`: the back-substitution value
/// over rows below, divided by the diagonal.
pub open spec fn chol_back_val<T: MatLinAlgBound>(el: Seq<T>, n: int, b: Seq<T>, i: int) -> T
    decreases n - i, 1int, 0int,
        when 0 <= i && i < n
{
    chol_back_sum(el, n, b, i, n).spec_div(ent(el, n, i, i))
}

/// The fold-left sum of products `L[i][t] * y[t]` for `t < k`: row `i` of
/// the product `L y`.
pub open spec fn chol_mult_sum<T: MatLinAlgBound>(el: Seq<T>, n: int, y: Seq<T>, i: int, k: int) -> T
    decreases k,
{
    if k <= 0 {
        T::spec_zero()
    } else {
        chol_mult_sum(el, n, y, i, k - 1).spec_add(ent(el, n, i, k - 1).spec_mul(y[k - 1]))
    }
}

/// The forward-substitution inner sum of `elsolve` for row `i`: `b[i]`
/// minus the fold-left sum of `L[i][t] * y[t]` for `t < k`.
pub open spec fn chol_elsolve_sum<T: MatLinAlgBound>(
    el: Seq<T>,
    n: int,
    b: Seq<T>,
    i: int,
    k: int,
) -> T
    decreases k, 0int,
{
    if k <= 0 {
        b[i]
    } else {
        chol_elsolve_sum(el, n, b, i, k - 1).spec_sub(
            ent(el, n, i, k - 1).spec_mul(chol_elsolve_val(el, n, b, k - 1)),
        )
    }
}

/// Entry `i` of the solution of the triangular system `L y = b`.
pub open spec fn chol_elsolve_val<T: MatLinAlgBound>(el: Seq<T>, n: int, b: Seq<T>, i: int) -> T
    decreases i, 1int,
{
    chol_elsolve_sum(el, n, b, i, i).spec_div(ent(el, n, i, i))
}

/// The inner sum of the first inverse pass at row `j`, column `i`: the
/// identity entry minus, in descending order, the fold of
/// `L[i][t] * x[j][t]` over `t` in `k..i`, where `x` holds the pass's
/// earlier columns.
pub open spec fn ci_sum1<T: MatLinAlgBound>(el: Seq<T>, n: int, i: int, j: int, k: int) -> T
    decreases i, 0int, (if i - k >= 0 { i - k } else { 0int }),
        when 0 <= j && j <= i && j <= k
{
    if k >= i {
        if i == j {
            T::spec_one()
        } else {
            T::spec_zero()
        }
    } else {
        ci_sum1(el, n, i, j, k + 1).spec_sub(
            ent(el, n, i, k).spec_mul(ci_val1(el, n, k, j)),
        )
    }
}

/// The entry the first inverse pass stores at row `j`, column `i`: the
/// inverse of the triangular factor, built column by column.
pub open spec fn ci_val1<T: MatLinAlgBound>(el: Seq<T>, n: int, i: int, j: int) -> T
    decreases i, 1int, 0int,
        when 0 <= j && j <= i
{
    ci_sum1(el, n, i, j, j).spec_div(ent(el, n, i, i))
}

/// The inner sum of the second inverse pass at row `j`, column `i`: the
/// first pass's entry minus the fold of `L[t][i] * x[j][t]` over `t` in
/// `i+1..k`, where `x` holds the symmetric entries already finished
/// below.
pub open spec fn ci_sum2<T: MatLinAlgBound>(el: Seq<T>, n: int, i: int, j: int, k: int) -> T
    decreases n - i, 0int, (if k - i >= 0 { k - i } else { 0int }),
        when 0 <= j && j <= i && i + 1 <= k && k <= n
{
    if k <= i + 1 {
        ci_val1(el, n, i, j)
    } else {
        ci_sum2(el, n, i, j, k - 1).spec_sub(
            ent(el, n, k - 1, i).spec_mul(ci_val2(el, n, k - 1, j)),
        )
    }
}

/// The entry of the inverse of the decomposed matrix at rows `i` and
/// `j <= i`, filled into both symmetric slots by the second pass.
pub open spec fn ci_val2<T: MatLinAlgBound>(el: Seq<T>, n: int, i: int, j: int) -> T
    decreases n - i, 1int, 0int,
        when 0 <= j && j <= i && i < n
{
    ci_sum2(el, n, i, j, n).spec_div(ent(el, n, i, i))
}

/// The fold-left sum of logarithms of the first `k` diagonal entries of
/// the factor.
pub open spec fn chol_logdet_sum<T: MatLinAlgBound>(el: Seq<T>, n: int, k: int) -> T
    decreases k,
{
    if k <= 0 {
        T::spec_zero()
    } else {
        chol_logdet_sum(el, n, k - 1).spec_add(ent(el, n, k - 1, k - 1).spec_ln())
    }
}

/// Cholesky decomposition of a symmetric positive-definite matrix:
/// `el` holds the lower-triangular factor `L` with `A = L * L^T`, upper
/// triangle zeroed.
pub struct Cholesky<T> {
    pub n: usize,
    pub el: Matrix<T>,
}

impl<T: MatLinAlgBound> Cholesky<T> {
    /// The factor is square of side `n`.
    pub open spec fn wf(self) -> bool {
        &&& self.el.wf()
        &&& self.el.nrows == self.n
        &&& self.el.ncols == self.n
    }

    /// Decomposes a copy of `a` into its Cholesky factor. Fails with
    /// `NegativeValueNotAllowed` exactly when a reduced diagonal sum is
    /// zero or negative; on success every entry of the factor is pinned to
    /// the [`chol_entry`] recurrence on `a`, so decomposing the same matrix
    /// twice yields identical factors.
    pub fn new(a: &Matrix<T>) -> (r: Result<Cholesky<T>, LinAlgError>)
        requires
            a.wf(),
            a.nrows == a.ncols,
        ensures
            (r is Err) <==> has_nonpositive_pivot(a.data@, a.nrows as int),
            r matches Err(e) ==> e == LinAlgError::NegativeValueNotAllowed(),
            r matches Ok(c) ==> ({
                &&& c.wf()
                &&& c.n == a.nrows
                &&& forall|i: int, j: int|
                    0 <= j <= i < a.nrows ==> #[trigger] c.el.at(i, j) == chol_entry(
                        a.data@,
                        a.nrows as int,
                        i,
                        j,
                    )
                &&& forall|i: int, j: int|
                    0 <= i < j < a.nrows ==> #[trigger] c.el.at(i, j) == T::spec_zero()
            }),
    {
        let n = a.rows();
        let ghost ad = a.data@;
        let mut el = a.duplicate();
        let mut i: usize = 0;
        while i < n
            invariant
                a.wf(),
                el.wf(),
                n == a.nrows,
                n == a.ncols,
                el.nrows == n,
                el.ncols == n,
                ad == a.data@,
                i <= n,
                forall|r2: int, c2: int|
                    0 <= c2 < i && c2 <= r2 < n ==> #[trigger] el.at(r2, c2) == chol_entry(
                        ad,
                        n as int,
                        r2,
                        c2,
                    ),
                forall|r2: int, c2: int|
                    0 <= r2 < n && i <= c2 < n ==> #[trigger] el.at(r2, c2) == a.at(r2, c2),
                forall|i2: int|
                    0 <= i2 < i ==> !chol_sub(ad, n as int, i2, i2, i2).spec_le(T::spec_zero()),
            decreases n - i,
        {
            let mut j: usize = i;
            while j < n
                invariant
                    a.wf(),
                    el.wf(),
                    n == a.nrows,
                    n == a.ncols,
                    el.nrows == n,
                    el.ncols == n,
                    ad == a.data@,
                    i < n,
                    i <= j <= n,
                    forall|r2: int, c2: int|
                        0 <= c2 < i && c2 <= r2 < n ==> #[trigger] el.at(r2, c2) == chol_entry(
                            ad,
                            n as int,
                            r2,
                            c2,
                        ),
                    j > i ==> el.at(i as int, i as int) == chol_entry(ad, n as int, i as int, i as int),
                    j > i ==> !chol_sub(ad, n as int, i as int, i as int, i as int).spec_le(
                        T::spec_zero(),
                    ),
                    forall|t: int|
                        i < t < j ==> #[trigger] el.at(t, i as int) == chol_entry(
                            ad,
                            n as int,
                            t,
                            i as int,
                        ),
                    forall|t: int|
                        j <= t < n ==> #[trigger] el.at(t, i as int) == a.at(t, i as int),
                    forall|r2: int, c2: int|
                        0 <= r2 < n && i < c2 < n ==> #[trigger] el.at(r2, c2) == a.at(r2, c2),
                    forall|i2: int|
                        0 <= i2 < i ==> !chol_sub(ad, n as int, i2, i2, i2).spec_le(T::spec_zero()),
                decreases n - j,
            {
                let mut sum = el.get(i, j);
                let mut k: usize = 0;
                while k < i
                    invariant
                        a.wf(),
                        el.wf(),
                        n == a.nrows,
                        el.nrows == n,
                        el.ncols == n,
                        ad == a.data@,
                        i < n,
                        i <= j < n,
                        k <= i,
                        forall|r2: int, c2: int|
                            0 <= c2 < i && c2 <= r2 < n ==> #[trigger] el.at(r2, c2) == chol_entry(
                                ad,
                                n as int,
                                r2,
                                c2,
                            ),
                        sum == chol_sub(ad, n as int, i as int, j as int, k as int),
                    decreases i - k,
                {
                    sum = sum.sub(el.get(i, k).mul(el.get(j, k)));
                    k += 1;
                }
                if i == j {
                    if sum.le(T::zero()) {
                        return Err(LinAlgError::NegativeValueNotAllowed());
                    }
                    el.set(i, i, sum.sqrt());
                } else {
                    let piv = el.get(i, i);
                    el.set(j, i, sum.div(piv));
                }
                j += 1;
            }
            i += 1;
        }
        let mut i: usize = 0;
        while i < n
            invariant
                el.wf(),
                el.nrows == n,
                el.ncols == n,
                i <= n,
                forall|r2: int, c2: int|
                    0 <= c2 <= r2 < n ==> #[trigger] el.at(r2, c2) == chol_entry(
                        ad,
                        n as int,
                        r2,
                        c2,
                    ),
                forall|r2: int, c2: int|
                    0 <= r2 < c2 < n && c2 < i ==> #[trigger] el.at(r2, c2) == T::spec_zero(),
            decreases n - i,
        {
            let mut j: usize = 0;
            while j < i
                invariant
                    el.wf(),
                    el.nrows == n,
                    el.ncols == n,
                    j <= i < n,
                    forall|r2: int, c2: int|
                        0 <= c2 <= r2 < n ==> #[trigger] el.at(r2, c2) == chol_entry(
                            ad,
                            n as int,
                            r2,
                            c2,
                        ),
                    forall|r2: int, c2: int|
                        0 <= r2 < c2 < n && c2 < i ==> #[trigger] el.at(r2, c2) == T::spec_zero(),
                    forall|r2: int|
                        0 <= r2 < j ==> #[trigger] el.at(r2, i as int) == T::spec_zero(),
                decreases i - j,
            {
                el.set(j, i, T::zero());
                j += 1;
            }
            i += 1;
        }
        Ok(Cholesky { n, el })
    }

    /// Solves `A x = b` by forward substitution through `L` and back
    /// substitution through `L^T`, writing over `x`. Fails with
    /// `InvalidSize` exactly when an operand's length is not `n`, leaving
    /// `x` unchanged; on success `x` is pinned to the substitution
    /// recurrences on the stored factor.
    pub fn solve(&self, b: &Vec<T>, x: &mut Vec<T>) -> (r: Result<(), LinAlgError>)
        requires
            self.wf(),
        ensures
            final(x)@.len() == old(x)@.len(),
            (r is Ok) <==> (b@.len() == self.n && old(x)@.len() == self.n),
            r matches Err(e) ==> e == LinAlgError::InvalidSize() && final(x)@ == old(x)@,
            r is Ok ==> forall|i: int|
                0 <= i < self.n ==> final(x)@[i] == chol_back_val(
                    self.el.data@,
                    self.n as int,
                    b@,
                    i,
                ),
    {
        if b.len() != self.n || x.len() != self.n {
            return Err(LinAlgError::InvalidSize());
        }
        let n = self.n;
        let ghost eld = self.el.data@;
        let mut i: usize = 0;
        while i < n
            invariant
                self.wf(),
                n == self.n,
                eld == self.el.data@,
                b@.len() == n,
                x@.len() == n,
                i <= n,
                forall|i2: int| 0 <= i2 < i ==> x@[i2] == chol_fwd_val(eld, n as int, b@, i2),
            decreases n - i,
        {
            let mut sum = b[i];
            let ghost xcur = x@;
            let mut j: usize = 0;
            while j < i
                invariant
                    self.wf(),
                    n == self.n,
                    eld == self.el.data@,
                    b@.len() == n,
                    x@ == xcur,
                    x@.len() == n,
                    i < n,
                    j <= i,
                    forall|i2: int| 0 <= i2 < i ==> x@[i2] == chol_fwd_val(eld, n as int, b@, i2),
                    sum == chol_fwd_sum(eld, n as int, b@, i as int, j as int),
                decreases i - j,
            {
                sum = sum.sub(x[j].mul(self.el.get(i, j)));
                j += 1;
            }
            let piv = self.el.get(i, i);
            x[i] = sum.div(piv);
            i += 1;
        }
        let mut i: usize = n;
        while i > 0
            invariant
                self.wf(),
                n == self.n,
                eld == self.el.data@,
                b@.len() == n,
                x@.len() == n,
                i <= n,
                forall|i2: int| 0 <= i2 < i ==> x@[i2] == chol_fwd_val(eld, n as int, b@, i2),
                forall|i2: int| i <= i2 < n ==> x@[i2] == chol_back_val(eld, n as int, b@, i2),
            decreases i,
        {
            i -= 1;
            let mut sum = x[i];
            let ghost xcur = x@;
            let mut j: usize = i + 1;
            while j < n
                invariant
                    self.wf(),
                    n == self.n,
                    eld == self.el.data@,
                    b@.len() == n,
                    x@ == xcur,
                    x@.len() == n,
                    i < n,
                    i < j <= n,
                    forall|i2: int| i < i2 < n ==> x@[i2] == chol_back_val(eld, n as int, b@, i2),
                    x@[i as int] == chol_fwd_val(eld, n as int, b@, i as int),
                    sum == chol_back_sum(eld, n as int, b@, i as int, j as int),
                decreases n - j,
            {
                sum = sum.sub(x[j].mul(self.el.get(j, i)));
                j += 1;
            }
            let piv = self.el.get(i, i);
            x[i] = sum.div(piv);
        }
        Ok(())
    }

    /// Multiplies the triangular factor by `y`, writing `L y` over `b`.
    /// Fails with `InvalidSize` exactly when an operand's length is not
    /// `n`, leaving `b` unchanged.
    pub fn elmult(&self, y: &Vec<T>, b: &mut Vec<T>) -> (r: Result<(), LinAlgError>)
        requires
            self.wf(),
        ensures
            final(b)@.len() == old(b)@.len(),
            (r is Ok) <==> (y@.len() == self.n && old(b)@.len() == self.n),
            r matches Err(e) ==> e == LinAlgError::InvalidSize() && final(b)@ == old(b)@,
            r is Ok ==> forall|i: int|
                0 <= i < self.n ==> final(b)@[i] == chol_mult_sum(
                    self.el.data@,
                    self.n as int,
                    y@,
                    i,
                    i + 1,
                ),
    {
        if b.len() != self.n || y.len() != self.n {
            return Err(LinAlgError::InvalidSize());
        }
        let n = self.n;
        let ghost eld = self.el.data@;
        let mut i: usize = 0;
        while i < n
            invariant
                self.wf(),
                n == self.n,
                eld == self.el.data@,
                y@.len() == n,
                b@.len() == n,
                i <= n,
                forall|i2: int|
                    0 <= i2 < i ==> b@[i2] == chol_mult_sum(eld, n as int, y@, i2, i2 + 1),
            decreases n - i,
        {
            let mut acc = T::zero();
            let mut j: usize = 0;
            while j <= i
                invariant
                    self.wf(),
                    n == self.n,
                    eld == self.el.data@,
                    y@.len() == n,
                    i < n,
                    j <= i + 1,
                    acc == chol_mult_sum(eld, n as int, y@, i as int, j as int),
                decreases i + 1 - j,
            {
                acc = acc.add(self.el.get(i, j).mul(y[j]));
                j += 1;
            }
            b[i] = acc;
            i += 1;
        }
        Ok(())
    }

    /// Solves the triangular system `L y = b` alone, writing over `y`.
    /// Fails with `InvalidSize` exactly when an operand's length is not
    /// `n`, leaving `y` unchanged.
    pub fn elsolve(&self, b: &Vec<T>, y: &mut Vec<T>) -> (r: Result<(), LinAlgError>)
        requires
            self.wf(),
        ensures
            final(y)@.len() == old(y)@.len(),
            (r is Ok) <==> (b@.len() == self.n && old(y)@.len() == self.n),
            r matches Err(e) ==> e == LinAlgError::InvalidSize() && final(y)@ == old(y)@,
            r is Ok ==> forall|i: int|
                0 <= i < self.n ==> final(y)@[i] == chol_elsolve_val(
                    self.el.data@,
                    self.n as int,
                    b@,
                    i,
                ),
    {
        if b.len() != self.n || y.len() != self.n {
            return Err(LinAlgError::InvalidSize());
        }
        let n = self.n;
        let ghost eld = self.el.data@;
        let mut i: usize = 0;
        while i < n
            invariant
                self.wf(),
                n == self.n,
                eld == self.el.data@,
                b@.len() == n,
                y@.len() == n,
                i <= n,
                forall|i2: int| 0 <= i2 < i ==> y@[i2] == chol_elsolve_val(eld, n as int, b@, i2),
            decreases n - i,
        {
            let mut sum = b[i];
            let ghost ycur = y@;
            let mut j: usize = 0;
            while j < i
                invariant
                    self.wf(),
                    n == self.n,
                    eld == self.el.data@,
                    b@.len() == n,
                    y@ == ycur,
                    y@.len() == n,
                    i < n,
                    j <= i,
                    forall|i2: int|
                        0 <= i2 < i ==> y@[i2] == chol_elsolve_val(eld, n as int, b@, i2),
                    sum == chol_elsolve_sum(eld, n as int, b@, i as int, j as int),
                decreases i - j,
            {
                sum = sum.sub(self.el.get(i, j).mul(y[j]));
                j += 1;
            }
            let piv = self.el.get(i, i);
            y[i] = sum.div(piv);
            i += 1;
        }
        Ok(())
    }

    /// Fills `ainv` with the inverse of the decomposed matrix by two
    /// triangular back-substitution passes, exploiting symmetry to fill
    /// both triangles: every entry is pinned to the [`ci_val2`]
    /// recurrence on the stored factor, and the result is symmetric.
    /// `ainv`'s buffer must already hold `n * n` elements; it is reshaped
    /// and every element overwritten.
    pub fn inverse(&self, ainv: &mut Matrix<T>)
        requires
            self.wf(),
            old(ainv).data@.len() == self.n * self.n,
        ensures
            final(ainv).nrows == self.n,
            final(ainv).ncols == self.n,
            final(ainv).wf(),
            forall|i: int, j: int|
                0 <= j <= i < self.n ==> #[trigger] final(ainv).at(j, i) == ci_val2(
                    self.el.data@,
                    self.n as int,
                    i,
                    j,
                ),
            forall|i: int, j: int|
                0 <= j <= i < self.n ==> #[trigger] final(ainv).at(i, j) == ci_val2(
                    self.el.data@,
                    self.n as int,
                    i,
                    j,
                ),
            forall|i: int, j: int|
                0 <= i < self.n && 0 <= j < self.n ==> #[trigger] final(ainv).at(i, j)
                    == final(ainv).at(j, i),
    {
        let n = self.n;
        let ghost eld = self.el.data@;
        let ghost nn = n as int;
        ainv.resize(n, n);
        let mut i: usize = 0;
        while i < n
            invariant
                self.wf(),
                n == self.n,
                eld == self.el.data@,
                nn == n as int,
                ainv.wf(),
                ainv.nrows == n,
                ainv.ncols == n,
                i <= n,
                forall|i2: int, j2: int|
                    0 <= j2 <= i2 < i ==> #[trigger] ainv.at(j2, i2) == ci_val1(eld, nn, i2, j2),
            decreases n - i,
        {
            let mut j: usize = 0;
            while j <= i
                invariant
                    self.wf(),
                    n == self.n,
                    eld == self.el.data@,
                    nn == n as int,
                    ainv.wf(),
                    ainv.nrows == n,
                    ainv.ncols == n,
                    i < n,
                    j <= i + 1,
                    forall|i2: int, j2: int|
                        0 <= j2 <= i2 < i ==> #[trigger] ainv.at(j2, i2) == ci_val1(
                            eld,
                            nn,
                            i2,
                            j2,
                        ),
                    forall|j2: int|
                        0 <= j2 < j ==> #[trigger] ainv.at(j2, i as int) == ci_val1(
                            eld,
                            nn,
                            i as int,
                            j2,
                        ),
                decreases i + 1 - j,
            {
                let mut sum = if i == j {
                    T::one()
                } else {
                    T::zero()
                };
                let mut k: usize = i;
                while k > j
                    invariant
                        self.wf(),
                        n == self.n,
                        eld == self.el.data@,
                        nn == n as int,
                        ainv.wf(),
                        ainv.nrows == n,
                        ainv.ncols == n,
                        i < n,
                        j <= i,
                        j <= k <= i,
                        forall|i2: int, j2: int|
                            0 <= j2 <= i2 < i ==> #[trigger] ainv.at(j2, i2) == ci_val1(
                                eld,
                                nn,
                                i2,
                                j2,
                            ),
                        sum == ci_sum1(eld, nn, i as int, j as int, k as int),
                    decreases k,
                {
                    k -= 1;
                    sum = sum.sub(self.el.get(i, k).mul(ainv.get(j, k)));
                }
                let piv = self.el.get(i, i);
                ainv.set(j, i, sum.div(piv));
                j += 1;
            }
            i += 1;
        }
        let mut i: usize = n;
        while i > 0
            invariant
                self.wf(),
                n == self.n,
                eld == self.el.data@,
                nn == n as int,
                ainv.wf(),
                ainv.nrows == n,
                ainv.ncols == n,
                i <= n,
                forall|i2: int, j2: int|
                    0 <= j2 <= i2 < i ==> #[trigger] ainv.at(j2, i2) == ci_val1(eld, nn, i2, j2),
                forall|i2: int, j2: int|
                    0 <= j2 <= i2 < n && i <= i2 ==> #[trigger] ainv.at(j2, i2) == ci_val2(
                        eld,
                        nn,
                        i2,
                        j2,
                    ),
                forall|i2: int, j2: int|
                    0 <= j2 <= i2 < n && i <= i2 ==> #[trigger] ainv.at(i2, j2) == ci_val2(
                        eld,
                        nn,
                        i2,
                        j2,
                    ),
            decreases i,
        {
            i -= 1;
            let mut j: usize = 0;
            while j <= i
                invariant
                    self.wf(),
                    n == self.n,
                    eld == self.el.data@,
                    nn == n as int,
                    ainv.wf(),
                    ainv.nrows == n,
                    ainv.ncols == n,
                    i < n,
                    j <= i + 1,
                    forall|i2: int, j2: int|
                        0 <= j2 <= i2 < i ==> #[trigger] ainv.at(j2, i2) == ci_val1(
                            eld,
                            nn,
                            i2,
                            j2,
                        ),
                    forall|j2: int|
                        j <= j2 <= i ==> #[trigger] ainv.at(j2, i as int) == ci_val1(
                            eld,
                            nn,
                            i as int,
                            j2,
                        ),
                    forall|i2: int, j2: int|
                        0 <= j2 <= i2 < n && i < i2 ==> #[trigger] ainv.at(j2, i2) == ci_val2(
                            eld,
                            nn,
                            i2,
                            j2,
                        ),
                    forall|i2: int, j2: int|
                        0 <= j2 <= i2 < n && i < i2 ==> #[trigger] ainv.at(i2, j2) == ci_val2(
                            eld,
                            nn,
                            i2,
                            j2,
                        ),
                    forall|j2: int|
                        0 <= j2 < j ==> #[trigger] ainv.at(j2, i as int) == ci_val2(
                            eld,
                            nn,
                            i as int,
                            j2,
                        ),
                    forall|j2: int|
                        0 <= j2 < j ==> #[trigger] ainv.at(i as int, j2) == ci_val2(
                            eld,
                            nn,
                            i as int,
                            j2,
                        ),
                decreases i + 1 - j,
            {
                let mut sum = if i < j {
                    T::zero()
                } else {
                    ainv.get(j, i)
                };
                let mut k: usize = i + 1;
                while k < n
                    invariant
                        self.wf(),
                        n == self.n,
                        eld == self.el.data@,
                        nn == n as int,
                        ainv.wf(),
                        ainv.nrows == n,
                        ainv.ncols == n,
                        i < n,
                        j <= i,
                        i < k <= n,
                        forall|i2: int, j2: int|
                            0 <= j2 <= i2 < n && i < i2 ==> #[trigger] ainv.at(j2, i2) == ci_val2(
                                eld,
                                nn,
                                i2,
                                j2,
                            ),
                        sum == ci_sum2(eld, nn, i as int, j as int, k as int),
                    decreases n - k,
                {
                    sum = sum.sub(self.el.get(k, i).mul(ainv.get(j, k)));
                    k += 1;
                }
                let piv = self.el.get(i, i);
                let tmp = sum.div(piv);
                ainv.set(j, i, tmp);
                ainv.set(i, j, tmp);
                j += 1;
            }
        }
    }

    /// Twice the fold-left sum of the logarithms of the factor's diagonal:
    /// the log-determinant of the decomposed matrix.
    pub fn logdet(&self) -> (r: T)
        requires
            self.wf(),
        ensures
            r == T::spec_from_usize(2).spec_mul(
                chol_logdet_sum(self.el.data@, self.n as int, self.n as int),
            ),
    {
        let mut sum = T::zero();
        let mut i: usize = 0;
        while i < self.n
            invariant
                self.wf(),
                i <= self.n,
                sum == chol_logdet_sum(self.el.data@, self.n as int, i as int),
            decreases self.n - i,
        {
            sum = sum.add(self.el.get(i, i).ln());
            i += 1;
        }
        T::from_usize(2).mul(sum)
    }
}

/// Decomposing the same matrix twice yields identical factors: every
/// entry of a successful decomposition is the [`chol_entry`] recurrence
/// on the input alone, so two results for one input agree element for
/// element. There is no hidden state.
pub proof fn lemma_cholesky_deterministic<T: MatLinAlgBound>(
    a: Matrix<T>,
    c1: Cholesky<T>,
    c2: Cholesky<T>,
)
    requires
        a.nrows == a.ncols,
        c1.wf(),
        c1.n == a.nrows,
        c2.wf(),
        c2.n == a.nrows,
        forall|i: int, j: int|
            0 <= j <= i < a.nrows ==> #[trigger] c1.el.at(i, j) == chol_entry(
                a.data@,
                a.nrows as int,
                i,
                j,
            ),
        forall|i: int, j: int|
            0 <= i < j < a.nrows ==> #[trigger] c1.el.at(i, j) == T::spec_zero(),
        forall|i: int, j: int|
            0 <= j <= i < a.nrows ==> #[trigger] c2.el.at(i, j) == chol_entry(
                a.data@,
                a.nrows as int,
                i,
                j,
            ),
        forall|i: int, j: int|
            0 <= i < j < a.nrows ==> #[trigger] c2.el.at(i, j) == T::spec_zero(),
    ensures
        c1.n == c2.n,
        c1.el.data@ == c2.el.data@,
{
    let n = a.nrows as int;
    assert forall|t: int| 0 <= t < c1.el.data@.len() implies c1.el.data@[t]
        == c2.el.data@[t] by {
        assert(0 < n * n) by (nonlinear_arith)
            requires
                0 <= t,
                t < n * n,
        ;
        assert(n > 0) by (nonlinear_arith)
            requires
                0 < n * n,
                n >= 0,
        ;
        let i = t / n;
        let j = t % n;
        vstd::arithmetic::div_mod::lemma_fundamental_div_mod(t, n);
        vstd::arithmetic::div_mod::lemma_mod_bound(t, n);
        assert(0 <= i && i < n) by (nonlinear_arith)
            requires
                t == n * i + j,
                0 <= j < n,
                0 <= t,
                t < n * n,
        ;
        assert(c1.el.at(i, j) == c1.el.data@[t]) by {
            assert(i * n + j == t) by (nonlinear_arith)
                requires
                    t == n * i + j,
            ;
        }
        assert(c2.el.at(i, j) == c2.el.data@[t]) by {
            assert(i * n + j == t) by (nonlinear_arith)
                requires
                    t == n * i + j,
            ;
        }
        if j <= i {
            assert(c1.el.at(i, j) == chol_entry(a.data@, n, i, j));
            assert(c2.el.at(i, j) == chol_entry(a.data@, n, i, j));
        } else {
            assert(c1.el.at(i, j) == T::spec_zero());
            assert(c2.el.at(i, j) == T::spec_zero());
        }
    }
    assert(c1.el.data@ =~= c2.el.data@);
}

} // verus!
