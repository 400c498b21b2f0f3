use vstd::prelude::*;
use vstd::string::StringExecFns;

use crate::linalg::LinAlgError;
use crate::matrix::ent;
use crate::matrix::vec_dup;
use crate::matrix::Matrix;
use crate::scalar::MatLinAlgBound;

verus! {

/// The running maximum of the absolute values of the first `k` entries of
/// row `i`: the scaling quantity the decomposition computes per row.
pub open spec fn row_big<T: MatLinAlgBound>(d: Seq<T>, cols: int, i: int, k: int) -> T
    decreases k,
{
    if k <= 0 {
        T::spec_zero()
    } else {
        let b = row_big(d, cols, i, k - 1);
        let v = ent(d, cols, i, k - 1).spec_abs();
        if b.spec_lt(v) {
            v
        } else {
            b
        }
    }
}

/// Some row of the `n` by `n` matrix has all its entries below the
/// singularity threshold: the condition under which the decomposition
/// reports a singular matrix.
pub open spec fn has_vanishing_row<T: MatLinAlgBound>(d: Seq<T>, n: int) -> bool {
    exists|i: int| 0 <= i < n && row_big(d, n, i, n).spec_lt(T::spec_pow10_neg(7))
}

/// `init` minus the fold-left sum of products `lu[row][j] * x[j]` for
/// `j` in `lo..hi`: one substitution step.
pub open spec fn row_dot_sub<T: MatLinAlgBound>(
    lud: Seq<T>,
    cols: int,
    x: Seq<T>,
    row: int,
    init: T,
    lo: int,
    hi: int,
) -> T
    decreases hi - lo,
{
    if hi <= lo {
        init
    } else {
        row_dot_sub(lud, cols, x, row, init, lo, hi - 1).spec_sub(
            ent(lud, cols, row, hi - 1).spec_mul(x[hi - 1]),
        )
    }
}

/// The right-hand side rearranged by the pivot permutation record.
pub open spec fn lu_perm<T: MatLinAlgBound>(b: Seq<T>, indx: Seq<usize>, n: int) -> Seq<T> {
    Seq::new(n as nat, |i: int| b[indx[i] as int])
}

/// The vector and leading-nonzero marker after the first `i` rows of
/// forward substitution, which skips leading zeros of the right-hand side.
pub open spec fn lu_fwd<T: MatLinAlgBound>(lud: Seq<T>, cols: int, x0: Seq<T>, i: int) -> (Seq<
    T,
>, int)
    decreases i,
{
    if i <= 0 {
        (x0, 0)
    } else {
        let (x, ii) = lu_fwd(lud, cols, x0, i - 1);
        let sum0 = x[i - 1];
        if ii != 0 {
            (x.update(i - 1, row_dot_sub(lud, cols, x, i - 1, sum0, 0, i - 1)), ii)
        } else if !sum0.spec_eq(T::spec_zero()) {
            (x.update(i - 1, sum0), i)
        } else {
            (x.update(i - 1, sum0), 0)
        }
    }
}

/// The vector after back substitution has processed rows `n-1` down to `i`.
pub open spec fn lu_back<T: MatLinAlgBound>(
    lud: Seq<T>,
    cols: int,
    x: Seq<T>,
    n: int,
    i: int,
) -> Seq<T>
    decreases n - i,
{
    if i >= n {
        x
    } else {
        let xs = lu_back(lud, cols, x, n, i + 1);
        xs.update(i, row_dot_sub(lud, cols, xs, i, xs[i], i + 1, n).spec_div(ent(lud, cols, i, i)))
    }
}

/// The solution the decomposition's `solve` produces for the right-hand
/// side `b`: permutation, forward substitution, then back substitution.
pub open spec fn lu_solution<T: MatLinAlgBound>(
    lud: Seq<T>,
    indx: Seq<usize>,
    n: int,
    b: Seq<T>,
) -> Seq<T> {
    lu_back(lud, n, lu_fwd(lud, n, lu_perm(b, indx, n), n).0, n, 0)
}

/// Entry `i` of the residual `a * x - b`, formed as a fold-left sum
/// starting from `-b[i]`: the quantity one refinement step solves
/// against.
pub open spec fn lu_residual<T: MatLinAlgBound>(
    ad: Seq<T>,
    n: int,
    b: Seq<T>,
    x: Seq<T>,
    i: int,
    k: int,
) -> T
    decreases k,
{
    if k <= 0 {
        b[i].spec_neg()
    } else {
        lu_residual(ad, n, b, x, i, k - 1).spec_add(ent(ad, n, i, k - 1).spec_mul(x[k - 1]))
    }
}

/// The permutation sign times the fold-left product of the first `k`
/// diagonal entries of the packed factor.
pub open spec fn det_fold<T: MatLinAlgBound>(lud: Seq<T>, cols: int, d: T, k: int) -> T
    decreases k,
{
    if k <= 0 {
        d
    } else {
        det_fold(lud, cols, d, k - 1).spec_mul(ent(lud, cols, k - 1, k - 1))
    }
}

/// The running scaled-pivot maximum and its row over rows `t..i` of
/// column `t`, after `t` elimination steps: the pair the pivot search of
/// step `t` has accumulated.
pub open spec fn lu_pivot<T: MatLinAlgBound>(ad: Seq<T>, n: int, t: int, i: int) -> (T, int)
    decreases t, 2int, (if i - t >= 0 { i - t } else { 0int }),
        when 0 <= t
{
    if i <= t {
        (T::spec_zero(), 0int)
    } else {
        let (b, im) = lu_pivot(ad, n, t, i - 1);
        let s = lu_vv(ad, n, t, i - 1).spec_mul(lu_entry(ad, n, t, i - 1, t).spec_abs());
        if b.spec_lt(s) {
            (s, i - 1)
        } else {
            (b, im)
        }
    }
}

/// The pivot row the elimination selects at step `t`.
pub open spec fn lu_imax<T: MatLinAlgBound>(ad: Seq<T>, n: int, t: int) -> int
    decreases t, 3int, 0int,
        when 0 <= t
{
    lu_pivot(ad, n, t, n).1
}

/// Slot `i` of the implicit-scaling vector after `t` elimination steps:
/// initially the reciprocal of the row's maximum absolute entry, with the
/// pivot row's scale carried along on each row swap.
pub open spec fn lu_vv<T: MatLinAlgBound>(ad: Seq<T>, n: int, t: int, i: int) -> T
    decreases t, 1int, 0int,
        when 0 <= t
{
    if t <= 0 {
        T::spec_one().spec_div(row_big(ad, n, i, n))
    } else {
        let im = lu_imax(ad, n, t - 1);
        if im != t - 1 && i == im {
            lu_vv(ad, n, t - 1, t - 1)
        } else {
            lu_vv(ad, n, t - 1, i)
        }
    }
}

/// The entry in row `r`, column `c` of the working matrix after `t`
/// elimination steps: step `t` swaps in its pivot row, regularizes an
/// exactly zero pivot to a tiny constant, stores the multipliers below
/// the pivot and reduces the trailing submatrix.
pub open spec fn lu_entry<T: MatLinAlgBound>(ad: Seq<T>, n: int, t: int, r: int, c: int) -> T
    decreases t, 0int, 0int,
        when 0 <= t
{
    if t <= 0 {
        ent(ad, n, r, c)
    } else {
        let piv = lu_base(ad, n, t - 1, t - 1, t - 1);
        if r > t - 1 && c == t - 1 {
            lu_base(ad, n, t - 1, r, t - 1).spec_div(piv)
        } else if r > t - 1 && c > t - 1 {
            lu_base(ad, n, t - 1, r, c).spec_sub(
                lu_base(ad, n, t - 1, r, t - 1).spec_div(piv).spec_mul(lu_base(ad, n, t - 1, t - 1, c)),
            )
        } else {
            lu_base(ad, n, t - 1, r, c)
        }
    }
}

/// The working matrix of step `t` after its pivot row has been swapped
/// into place and an exactly zero pivot replaced by the tiny constant,
/// just before the multipliers are formed.
pub open spec fn lu_base<T: MatLinAlgBound>(ad: Seq<T>, n: int, t: int, r: int, c: int) -> T
    decreases t, 4int, 0int,
        when 0 <= t
{
    let im = lu_imax(ad, n, t);
    let sw = if r == t {
        lu_entry(ad, n, t, im, c)
    } else if r == im {
        lu_entry(ad, n, t, t, c)
    } else {
        lu_entry(ad, n, t, r, c)
    };
    if r == t && c == t && sw.spec_eq(T::spec_zero()) {
        T::spec_pow10_neg(20)
    } else {
        sw
    }
}

/// The permutation parity after `t` elimination steps: one sign flip for
/// every step whose pivot row differed from its own.
pub open spec fn lu_parity<T: MatLinAlgBound>(ad: Seq<T>, n: int, t: int) -> T
    decreases t, 5int, 0int,
        when 0 <= t
{
    if t <= 0 {
        T::spec_one()
    } else if lu_imax(ad, n, t - 1) != t - 1 {
        lu_parity(ad, n, t - 1).spec_neg()
    } else {
        lu_parity(ad, n, t - 1)
    }
}

/// The row a pivot search returns is the first row or one of the rows it
/// scanned.
proof fn lemma_lu_pivot_bounds<T: MatLinAlgBound>(ad: Seq<T>, n: int, t: int, i: int)
    requires
        0 <= t,
    ensures
        lu_pivot::<T>(ad, n, t, i).1 == 0 || t <= lu_pivot::<T>(ad, n, t, i).1 < i,
    decreases i - t,
{
    if i > t {
        lemma_lu_pivot_bounds::<T>(ad, n, t, i - 1);
    }
}

/// LU decomposition with implicit-scaling partial pivoting (Crout's
/// method). `lu` packs the unit-lower-triangular multipliers below the
/// diagonal and the upper factor on and above it; `indx` records the row
/// swapped into place at each elimination step and `d` the parity of the
/// permutation (`+1` or `-1`) for the determinant.
pub struct LUdcmp<T> {
    pub n: usize,
    pub lu: Matrix<T>,
    pub indx: Vec<usize>,
    pub d: T,
}

impl<T: MatLinAlgBound> LUdcmp<T> {
    /// The packed factor is square of side `n` and every pivot record is a
    /// valid row index.
    pub open spec fn wf(self) -> bool {
        &&& self.lu.wf()
        &&& self.lu.nrows == self.n
        &&& self.lu.ncols == self.n
        &&& self.indx.len() == self.n
        &&& forall|k: int| 0 <= k < self.n ==> #[trigger] self.indx@[k] < self.n
    }

    /// Decomposes a copy of `a`. Fails with `InvalidMatrixSize` exactly when
    /// `a` is not square, and with `SingularMatrix` exactly when some row's
    /// maximum absolute entry is below the fixed threshold; a pivot that is
    /// exactly zero is replaced by a tiny constant instead of failing. On
    /// success the packed factor, the pivot record and the parity are all
    /// pinned to the [`lu_entry`], [`lu_imax`] and [`lu_parity`] recurrences
    /// on `a` alone, so decomposing the same matrix twice yields identical
    /// results.
    pub fn new(a: &Matrix<T>) -> (r: Result<LUdcmp<T>, LinAlgError>)
        requires
            a.wf(),
        ensures
            (r matches Err(e) && e matches LinAlgError::InvalidMatrixSize(rr, cc) && rr == a.nrows
                && cc == a.ncols) <==> a.nrows != a.ncols,
            a.nrows == a.ncols ==> ((r matches Err(e) && e matches LinAlgError::SingularMatrix(s)
                && s@ == "LUdcmp"@) <==> has_vanishing_row(a.data@, a.nrows as int)),
            (r is Ok) <==> (a.nrows == a.ncols && !has_vanishing_row(a.data@, a.nrows as int)),
            r matches Ok(lud) ==> ({
                &&& lud.wf()
                &&& lud.n == a.nrows
                &&& forall|r2: int, c2: int|
                    0 <= r2 < a.nrows && 0 <= c2 < a.nrows ==> #[trigger] lud.lu.at(r2, c2)
                        == lu_entry(a.data@, a.nrows as int, a.nrows as int, r2, c2)
                &&& forall|t: int|
                    0 <= t < a.nrows ==> #[trigger] lud.indx@[t] == lu_imax(
                        a.data@,
                        a.nrows as int,
                        t,
                    )
                &&& lud.d == lu_parity(a.data@, a.nrows as int, a.nrows as int)
            }),
    {
        if a.rows() != a.cols() {
            return Err(LinAlgError::InvalidMatrixSize(a.rows(), a.cols()));
        }
        let mut lu = a.duplicate();
        let tiny = T::pow10_neg(20);
        let n = lu.rows();
        let ghost ad = a.data@;
        let ghost nn = n as int;
        let mut d = T::one();
        let mut vv: Vec<T> = Vec::new();
        let mut indx: Vec<usize> = Vec::new();
        let mut i: usize = 0;
        while i < n
            invariant
                a.wf(),
                lu.wf(),
                lu.nrows == n,
                lu.ncols == n,
                n == a.nrows,
                n == a.ncols,
                ad == a.data@,
                nn == n as int,
                lu.data@ == a.data@,
                i <= n,
                vv@.len() == i,
                forall|i2: int| 0 <= i2 < i ==> vv@[i2] == lu_vv(ad, nn, 0, i2),
                forall|i2: int|
                    0 <= i2 < i ==> !row_big(a.data@, n as int, i2, n as int).spec_lt(
                        T::spec_pow10_neg(7),
                    ),
            decreases n - i,
        {
            let mut big = T::zero();
            let mut j: usize = 0;
            while j < n
                invariant
                    a.wf(),
                    lu.wf(),
                    lu.nrows == n,
                    lu.ncols == n,
                    n == a.nrows,
                    n == a.ncols,
                    lu.data@ == a.data@,
                    i < n,
                    j <= n,
                    big == row_big(a.data@, n as int, i as int, j as int),
                decreases n - j,
            {
                let v = lu.get(i, j).abs();
                if big.lt(v) {
                    big = v;
                }
                j += 1;
            }
            if big.lt(T::pow10_neg(7)) {
                return Err(LinAlgError::SingularMatrix(String::from_str("LUdcmp")));
            }
            vv.push(T::one().div(big));
            i += 1;
        }
        let mut k: usize = 0;
        while k < n
            invariant
                lu.wf(),
                lu.nrows == n,
                lu.ncols == n,
                ad == a.data@,
                nn == n as int,
                tiny == T::spec_pow10_neg(20),
                k <= n,
                vv@.len() == n,
                indx@.len() == k,
                forall|r2: int, c2: int|
                    0 <= r2 < n && 0 <= c2 < n ==> #[trigger] lu.at(r2, c2) == lu_entry(
                        ad,
                        nn,
                        k as int,
                        r2,
                        c2,
                    ),
                forall|i2: int| 0 <= i2 < n ==> vv@[i2] == lu_vv(ad, nn, k as int, i2),
                d == lu_parity::<T>(ad, nn, k as int),
                forall|t: int| 0 <= t < k ==> #[trigger] indx@[t] == lu_imax::<T>(ad, nn, t),
                forall|t: int| 0 <= t < k ==> #[trigger] indx@[t] < n,
            decreases n - k,
        {
            let ghost kk = k as int;
            let mut big = T::zero();
            let mut imax: usize = 0;
            let mut i2: usize = k;
            while i2 < n
                invariant
                    lu.wf(),
                    lu.nrows == n,
                    lu.ncols == n,
                    ad == a.data@,
                    nn == n as int,
                    kk == k as int,
                    k < n,
                    k <= i2 <= n,
                    vv@.len() == n,
                    imax < n,
                    forall|r2: int, c2: int|
                        0 <= r2 < n && 0 <= c2 < n ==> #[trigger] lu.at(r2, c2) == lu_entry(
                            ad,
                            nn,
                            kk,
                            r2,
                            c2,
                        ),
                    forall|i3: int| 0 <= i3 < n ==> vv@[i3] == lu_vv(ad, nn, kk, i3),
                    (big, imax as int) == lu_pivot::<T>(ad, nn, kk, i2 as int),
                decreases n - i2,
            {
                let temp = vv[i2].mul(lu.get(i2, k).abs());
                if big.lt(temp) {
                    big = temp;
                    imax = i2;
                }
                i2 += 1;
            }
            proof {
                lemma_lu_pivot_bounds::<T>(ad, nn, kk, nn);
                assert(imax as int == lu_imax::<T>(ad, nn, kk));
            }
            if k != imax {
                lu.swap_rows(k, imax);
                d = d.neg();
                let vk = vv[k];
                vv[imax] = vk;
            }
            proof {
                let im = lu_imax::<T>(ad, nn, kk);
                assert forall|r2: int, c2: int|
                    0 <= r2 < n && 0 <= c2 < n implies #[trigger] lu.at(r2, c2) == (if r2 == kk {
                    lu_entry(ad, nn, kk, im, c2)
                } else if r2 == im {
                    lu_entry(ad, nn, kk, kk, c2)
                } else {
                    lu_entry(ad, nn, kk, r2, c2)
                }) by {}
                assert forall|i3: int| 0 <= i3 < n implies vv@[i3] == lu_vv(ad, nn, kk + 1, i3) by {}
                assert(d == lu_parity::<T>(ad, nn, kk + 1));
            }
            indx.push(imax);
            if lu.get(k, k).eq(T::zero()) {
                lu.set(k, k, tiny);
                proof {
                    let im = lu_imax::<T>(ad, nn, kk);
                    assert forall|r2: int, c2: int|
                        0 <= r2 < n && 0 <= c2 < n implies #[trigger] lu.at(r2, c2) == lu_base(
                        ad,
                        nn,
                        kk,
                        r2,
                        c2,
                    ) by {
                        if r2 == kk && c2 == kk {
                            assert(lu.at(r2, c2) == T::spec_pow10_neg(20));
                            assert(lu_entry(ad, nn, kk, im, kk).spec_eq(T::spec_zero()));
                        } else {
                            assert(lu.at(r2, c2) == (if r2 == kk {
                                lu_entry(ad, nn, kk, im, c2)
                            } else if r2 == im {
                                lu_entry(ad, nn, kk, kk, c2)
                            } else {
                                lu_entry(ad, nn, kk, r2, c2)
                            }));
                        }
                    }
                }
            } else {
                proof {
                    let im = lu_imax::<T>(ad, nn, kk);
                    assert forall|r2: int, c2: int|
                        0 <= r2 < n && 0 <= c2 < n implies #[trigger] lu.at(r2, c2) == lu_base(
                        ad,
                        nn,
                        kk,
                        r2,
                        c2,
                    ) by {
                        assert(lu.at(r2, c2) == (if r2 == kk {
                            lu_entry(ad, nn, kk, im, c2)
                        } else if r2 == im {
                            lu_entry(ad, nn, kk, kk, c2)
                        } else {
                            lu_entry(ad, nn, kk, r2, c2)
                        }));
                        if r2 == kk && c2 == kk {
                            assert(!lu_entry(ad, nn, kk, im, kk).spec_eq(T::spec_zero()));
                        }
                    }
                }
            }
            let mut i3: usize = k + 1;
            while i3 < n
                invariant
                    lu.wf(),
                    lu.nrows == n,
                    lu.ncols == n,
                    ad == a.data@,
                    nn == n as int,
                    kk == k as int,
                    k < n,
                    k < i3 <= n,
                    forall|r2: int, c2: int|
                        0 <= r2 < n && 0 <= c2 < n ==> #[trigger] lu.at(r2, c2) == (if kk < r2
                            && r2 < i3 {
                            lu_entry(ad, nn, kk + 1, r2, c2)
                        } else {
                            lu_base(ad, nn, kk, r2, c2)
                        }),
                decreases n - i3,
            {
                let scale = lu.get(k, k);
                lu.set(i3, k, lu.get(i3, k).div(scale));
                let temp = lu.get(i3, k);
                proof {
                    assert(temp == lu_entry(ad, nn, kk + 1, i3 as int, kk));
                }
                let mut j2: usize = k + 1;
                while j2 < n
                    invariant
                        lu.wf(),
                        lu.nrows == n,
                        lu.ncols == n,
                        ad == a.data@,
                        nn == n as int,
                        kk == k as int,
                        k < n,
                        k < i3 < n,
                        k < j2 <= n,
                        temp == lu_entry(ad, nn, kk + 1, i3 as int, kk),
                        forall|r2: int, c2: int|
                            0 <= r2 < n && 0 <= c2 < n && r2 != i3 ==> #[trigger] lu.at(r2, c2)
                                == (if kk < r2 && r2 < i3 {
                                lu_entry(ad, nn, kk + 1, r2, c2)
                            } else {
                                lu_base(ad, nn, kk, r2, c2)
                            }),
                        lu.at(i3 as int, kk) == lu_entry(ad, nn, kk + 1, i3 as int, kk),
                        forall|c2: int|
                            kk < c2 < j2 ==> #[trigger] lu.at(i3 as int, c2) == lu_entry(
                                ad,
                                nn,
                                kk + 1,
                                i3 as int,
                                c2,
                            ),
                        forall|c2: int|
                            (0 <= c2 < kk || j2 <= c2 < n) ==> #[trigger] lu.at(i3 as int, c2)
                                == lu_base(ad, nn, kk, i3 as int, c2),
                    decreases n - j2,
                {
                    lu.set(i3, j2, lu.get(i3, j2).sub(temp.mul(lu.get(k, j2))));
                    j2 += 1;
                }
                proof {
                    assert forall|c2: int|
                        0 <= c2 < n implies #[trigger] lu.at(i3 as int, c2) == lu_entry(
                        ad,
                        nn,
                        kk + 1,
                        i3 as int,
                        c2,
                    ) by {}
                }
                i3 += 1;
            }
            proof {
                assert forall|r2: int, c2: int|
                    0 <= r2 < n && 0 <= c2 < n implies #[trigger] lu.at(r2, c2) == lu_entry(
                    ad,
                    nn,
                    kk + 1,
                    r2,
                    c2,
                ) by {}
            }
            k += 1;
        }
        Ok(LUdcmp { n, lu, indx, d })
    }

    /// Solves the system for one right-hand side, writing the solution over
    /// `x`. Fails with `InvalidVectorSize` exactly when an operand's length
    /// is not `n`, leaving `x` unchanged; on success `x` is the permutation,
    /// forward-substitution, back-substitution image of `b` ([`lu_solution`]).
    pub fn solve(&self, b: &Vec<T>, x: &mut Vec<T>) -> (r: Result<(), LinAlgError>)
        requires
            self.wf(),
        ensures
            final(x)@.len() == old(x)@.len(),
            b@.len() != self.n ==> (r matches Err(e) && e == LinAlgError::InvalidVectorSize(
                b@.len() as usize,
            ) && final(x)@ == old(x)@),
            b@.len() == self.n && old(x)@.len() != self.n ==> (r matches Err(e) && e
                == LinAlgError::InvalidVectorSize(old(x)@.len() as usize) && final(x)@ == old(
                x,
            )@),
            (r is Ok) <==> (b@.len() == self.n && old(x)@.len() == self.n),
            r is Ok ==> final(x)@ == lu_solution(
                self.lu.data@,
                self.indx@,
                self.n as int,
                b@,
            ),
    {
        if b.len() != self.n {
            return Err(LinAlgError::InvalidVectorSize(b.len()));
        }
        if x.len() != self.n {
            return Err(LinAlgError::InvalidVectorSize(x.len()));
        }
        let n = self.n;
        let ghost lud = self.lu.data@;
        let mut i: usize = 0;
        while i < n
            invariant
                self.wf(),
                n == self.n,
                b@.len() == n,
                x@.len() == n,
                i <= n,
                forall|i2: int| 0 <= i2 < i ==> x@[i2] == b@[self.indx@[i2] as int],
            decreases n - i,
        {
            let pos = self.indx[i];
            x[i] = b[pos];
            i += 1;
        }
        let ghost xp = lu_perm(b@, self.indx@, n as int);
        proof {
            assert(x@ =~= xp);
        }
        let mut ii: usize = 0;
        let mut i: usize = 0;
        while i < n
            invariant
                self.wf(),
                n == self.n,
                lud == self.lu.data@,
                x@.len() == n,
                i <= n,
                ii <= i,
                xp.len() == n,
                (x@, ii as int) == lu_fwd(lud, n as int, xp, i as int),
            decreases n - i,
        {
            let mut sum = x[i];
            let ghost xcur = x@;
            if ii != 0 {
                let mut j: usize = 0;
                while j < i
                    invariant
                        self.wf(),
                        n == self.n,
                        lud == self.lu.data@,
                        x@ == xcur,
                        x@.len() == n,
                        i < n,
                        j <= i,
                        sum == row_dot_sub(lud, n as int, xcur, i as int, xcur[i as int], 0, j as int),
                    decreases i - j,
                {
                    sum = sum.sub(self.lu.get(i, j).mul(x[j]));
                    j += 1;
                }
            } else if !sum.eq(T::zero()) {
                ii = i + 1;
            }
            x[i] = sum;
            i += 1;
        }
        let ghost xf = lu_fwd(lud, n as int, xp, n as int).0;
        let mut i: usize = n;
        while i > 0
            invariant
                self.wf(),
                n == self.n,
                lud == self.lu.data@,
                x@.len() == n,
                i <= n,
                x@ == lu_back(lud, n as int, xf, n as int, i as int),
            decreases i,
        {
            i -= 1;
            let mut sum = x[i];
            let ghost xcur = x@;
            let mut j: usize = i + 1;
            while j < n
                invariant
                    self.wf(),
                    n == self.n,
                    lud == self.lu.data@,
                    x@ == xcur,
                    x@.len() == n,
                    i < n,
                    i < j <= n,
                    sum == row_dot_sub(lud, n as int, xcur, i as int, xcur[i as int], i as int + 1, j as int),
                decreases n - j,
            {
                sum = sum.sub(self.lu.get(i, j).mul(x[j]));
                j += 1;
            }
            x[i] = sum.div(self.lu.get(i, i));
        }
        Ok(())
    }

    /// Solves independently against every column of the multi-column
    /// right-hand side, writing each solution into the matching column of
    /// `x`. Fails with `InvalidMatrixSize` exactly when the recorded
    /// shapes disagree, leaving `x` unchanged; on success column `j` of
    /// `x` is pinned to the [`lu_solution`] of column `j` of `b`.
    pub fn solve_mat(&self, b: &Matrix<T>, x: &mut Matrix<T>) -> (r: Result<(), LinAlgError>)
        requires
            self.wf(),
            b.wf(),
            old(x).wf(),
        ensures
            final(x).nrows == old(x).nrows,
            final(x).ncols == old(x).ncols,
            final(x).wf(),
            (b.nrows != self.n || old(x).nrows != self.n || b.ncols != old(x).ncols) ==> (r
                matches Err(e) && e == LinAlgError::InvalidMatrixSize(b.nrows, b.ncols)
                && final(x).data@ == old(x).data@),
            (r is Ok) <==> (b.nrows == self.n && old(x).nrows == self.n && b.ncols == old(
                x,
            ).ncols),
            r is Ok ==> forall|i: int, j: int|
                0 <= i < self.n && 0 <= j < b.ncols ==> #[trigger] final(x).at(i, j) == lu_solution(
                    self.lu.data@,
                    self.indx@,
                    self.n as int,
                    Seq::new(self.n as nat, |i2: int| b.at(i2, j as int)),
                )[i],
    {
        if b.rows() != self.n || x.rows() != self.n || b.cols() != x.cols() {
            return Err(LinAlgError::InvalidMatrixSize(b.rows(), b.cols()));
        }
        let mut j: usize = 0;
        while j < b.cols()
            invariant
                self.wf(),
                b.wf(),
                x.wf(),
                b.nrows == self.n,
                x.nrows == self.n,
                old(x).nrows == self.n,
                b.ncols == x.ncols,
                x.ncols == old(x).ncols,
                j <= b.ncols,
                forall|i2: int, j2: int|
                    0 <= i2 < self.n && 0 <= j2 < j ==> #[trigger] x.at(i2, j2) == lu_solution(
                        self.lu.data@,
                        self.indx@,
                        self.n as int,
                        Seq::new(self.n as nat, |i3: int| b.at(i3, j2)),
                    )[i2],
                forall|i2: int, j2: int|
                    0 <= i2 < x.nrows && j <= j2 < x.ncols ==> #[trigger] x.at(i2, j2) == old(
                        x,
                    ).at(i2, j2),
            decreases b.ncols - j,
        {
            let mut col = x.get_col(j);
            let bcol = b.get_col(j);
            let res = self.solve(&bcol, &mut col);
            match res {
                Ok(_) => {
                    proof {
                        assert(bcol@ =~= Seq::new(self.n as nat, |i3: int| b.at(i3, j as int)));
                    }
                    let mut i: usize = 0;
                    while i < x.rows()
                        invariant
                            self.wf(),
                            b.wf(),
                            x.wf(),
                            b.nrows == self.n,
                            x.nrows == self.n,
                            b.ncols == x.ncols,
                            x.ncols == old(x).ncols,
                            j < b.ncols,
                            i <= x.nrows,
                            col@ == lu_solution(
                                self.lu.data@,
                                self.indx@,
                                self.n as int,
                                Seq::new(self.n as nat, |i3: int| b.at(i3, j as int)),
                            ),
                            col@.len() == self.n,
                            forall|i2: int, j2: int|
                                0 <= i2 < self.n && 0 <= j2 < j ==> #[trigger] x.at(i2, j2)
                                    == lu_solution(
                                    self.lu.data@,
                                    self.indx@,
                                    self.n as int,
                                    Seq::new(self.n as nat, |i3: int| b.at(i3, j2)),
                                )[i2],
                            forall|i2: int| 0 <= i2 < i ==> #[trigger] x.at(i2, j as int) == col@[i2],
                            forall|i2: int, j2: int|
                                0 <= i2 < x.nrows && j < j2 < x.ncols ==> #[trigger] x.at(i2, j2)
                                    == old(x).at(i2, j2),
                            forall|i2: int|
                                i <= i2 < x.nrows ==> #[trigger] x.at(i2, j as int) == old(x).at(
                                    i2,
                                    j as int,
                                ),
                        decreases x.nrows - i,
                    {
                        let v = col[i];
                        x.set(i, j, v);
                        i += 1;
                    }
                },
                Err(err) => {
                    return Err(err);
                },
            }
            j += 1;
        }
        Ok(())
    }

    /// Solves against the identity matrix, so that `ainv` becomes the
    /// inverse of the decomposed matrix: column `j` of `ainv` is the
    /// solution for the `j`-th unit vector.
    pub fn inverse(&self, ainv: &mut Matrix<T>) -> (r: Result<(), LinAlgError>)
        requires
            self.wf(),
        ensures
            r is Ok,
            final(ainv).nrows == self.n,
            final(ainv).ncols == self.n,
            final(ainv).wf(),
            forall|i: int, j: int|
                0 <= i < self.n && 0 <= j < self.n ==> #[trigger] final(ainv).at(i, j)
                    == lu_solution(
                    self.lu.data@,
                    self.indx@,
                    self.n as int,
                    Seq::new(self.n as nat, |j2: int| if j2 == j {
                        T::spec_one()
                    } else {
                        T::spec_zero()
                    }),
                )[i],
    {
        proof {
            vstd::arithmetic::mul::lemma_mul_upper_bound(
                self.n as int,
                self.lu.nrows as int,
                self.n as int,
                self.lu.ncols as int,
            );
        }
        let mut b = Matrix::<T>::identity(self.n);
        ainv.assign(self.n, self.n, T::zero());
        let mut i: usize = 0;
        while i < self.n
            invariant
                self.wf(),
                ainv.nrows == self.n,
                ainv.ncols == self.n,
                ainv.wf(),
            decreases self.n - i,
        {
            ainv.set(i, i, T::one());
            i += 1;
        }
        let r = self.solve_mat(&b, ainv);
        proof {
            assert forall|i: int, j: int|
                0 <= i < self.n && 0 <= j < self.n implies #[trigger] ainv.at(i, j) == lu_solution(
                self.lu.data@,
                self.indx@,
                self.n as int,
                Seq::new(self.n as nat, |j2: int| if j2 == j {
                    T::spec_one()
                } else {
                    T::spec_zero()
                }),
            )[i] by {
                assert(Seq::new(self.n as nat, |i2: int| b.at(i2, j)) =~= Seq::new(
                    self.n as nat,
                    |j2: int| if j2 == j {
                        T::spec_one()
                    } else {
                        T::spec_zero()
                    },
                ));
            }
        }
        r
    }

    /// The determinant of the decomposed matrix: the permutation parity
    /// times the product of the packed factor's diagonal.
    pub fn det(&self) -> (r: T)
        requires
            self.wf(),
        ensures
            r == det_fold(self.lu.data@, self.n as int, self.d, self.n as int),
    {
        let mut dd = self.d;
        let mut i: usize = 0;
        while i < self.n
            invariant
                self.wf(),
                i <= self.n,
                dd == det_fold(self.lu.data@, self.n as int, self.d, i as int),
            decreases self.n - i,
        {
            dd = dd.mul(self.lu.get(i, i));
            i += 1;
        }
        dd
    }

    /// One step of iterative refinement against the original matrix `a`:
    /// forms the residual `a * x - b`, solves for the correction and
    /// subtracts it from `x`. Every entry of the refined `x` is pinned to
    /// the solved [`lu_residual`] correction.
    pub fn mprove(&self, a: &Matrix<T>, b: &Vec<T>, x: &mut Vec<T>)
        requires
            self.wf(),
            a.wf(),
            a.nrows == self.n,
            a.ncols == self.n,
            b@.len() == self.n,
            old(x)@.len() == self.n,
        ensures
            final(x)@.len() == self.n,
            forall|i: int|
                0 <= i < self.n ==> final(x)@[i] == old(x)@[i].spec_sub(
                    lu_solution(
                        self.lu.data@,
                        self.indx@,
                        self.n as int,
                        Seq::new(
                            self.n as nat,
                            |t: int|
                                lu_residual(
                                    a.data@,
                                    self.n as int,
                                    b@,
                                    old(x)@,
                                    t,
                                    self.n as int,
                                ),
                        ),
                    )[i],
                ),
    {
        let n = self.n;
        let ghost resid = Seq::new(
            n as nat,
            |t: int| lu_residual(a.data@, n as int, b@, x@, t, n as int),
        );
        let mut r: Vec<T> = Vec::new();
        let mut i: usize = 0;
        while i < n
            invariant
                self.wf(),
                a.wf(),
                a.nrows == n,
                a.ncols == n,
                n == self.n,
                b@.len() == n,
                x@.len() == n,
                x@ == old(x)@,
                resid == Seq::new(
                    n as nat,
                    |t: int| lu_residual(a.data@, n as int, b@, old(x)@, t, n as int),
                ),
                i <= n,
                r@.len() == i,
                forall|t: int| 0 <= t < i ==> r@[t] == resid[t],
            decreases n - i,
        {
            let mut sdp = b[i].neg();
            let mut j: usize = 0;
            while j < n
                invariant
                    self.wf(),
                    a.wf(),
                    a.nrows == n,
                    a.ncols == n,
                    n == self.n,
                    b@.len() == n,
                    x@.len() == n,
                    x@ == old(x)@,
                    i < n,
                    j <= n,
                    sdp == lu_residual(a.data@, n as int, b@, old(x)@, i as int, j as int),
                decreases n - j,
            {
                sdp = sdp.add(a.get(i, j).mul(x[j]));
                j += 1;
            }
            r.push(sdp);
            i += 1;
        }
        proof {
            assert(r@ =~= resid);
        }
        let rc = vec_dup(&r);
        let res = self.solve(&rc, &mut r);
        if res.is_ok() {
            let ghost corr = lu_solution(self.lu.data@, self.indx@, n as int, resid);
            let mut i2: usize = 0;
            while i2 < n
                invariant
                    n == self.n,
                    x@.len() == n,
                    r@.len() == n,
                    r@ == corr,
                    corr.len() == n,
                    i2 <= n,
                    forall|t: int| 0 <= t < i2 ==> x@[t] == old(x)@[t].spec_sub(corr[t]),
                    forall|t: int| i2 <= t < n ==> x@[t] == old(x)@[t],
                decreases n - i2,
            {
                x[i2] = x[i2].sub(r[i2]);
                i2 += 1;
            }
        }
    }
}

/// Decomposing the same matrix twice yields identical results: the packed
/// factor, the pivot record and the parity of a successful decomposition
/// are the [`lu_entry`], [`lu_imax`] and [`lu_parity`] recurrences on the
/// input alone, so two results for one input agree element for element.
/// There is no hidden state.
pub proof fn lemma_lu_deterministic<T: MatLinAlgBound>(a: Matrix<T>, l1: LUdcmp<T>, l2: LUdcmp<T>)
    requires
        a.nrows == a.ncols,
        l1.wf(),
        l1.n == a.nrows,
        l2.wf(),
        l2.n == a.nrows,
        forall|r2: int, c2: int|
            0 <= r2 < a.nrows && 0 <= c2 < a.nrows ==> #[trigger] l1.lu.at(r2, c2) == lu_entry(
                a.data@,
                a.nrows as int,
                a.nrows as int,
                r2,
                c2,
            ),
        forall|t: int|
            0 <= t < a.nrows ==> #[trigger] l1.indx@[t] == lu_imax(a.data@, a.nrows as int, t),
        l1.d == lu_parity(a.data@, a.nrows as int, a.nrows as int),
        forall|r2: int, c2: int|
            0 <= r2 < a.nrows && 0 <= c2 < a.nrows ==> #[trigger] l2.lu.at(r2, c2) == lu_entry(
                a.data@,
                a.nrows as int,
                a.nrows as int,
                r2,
                c2,
            ),
        forall|t: int|
            0 <= t < a.nrows ==> #[trigger] l2.indx@[t] == lu_imax(a.data@, a.nrows as int, t),
        l2.d == lu_parity(a.data@, a.nrows as int, a.nrows as int),
    ensures
        l1.n == l2.n,
        l1.lu.data@ == l2.lu.data@,
        l1.indx@ == l2.indx@,
        l1.d == l2.d,
{
    let n = a.nrows as int;
    assert forall|t: int| 0 <= t < l1.lu.data@.len() implies l1.lu.data@[t]
        == l2.lu.data@[t] by {
        assert(0 < n * n) by (nonlinear_arith)
            requires
                0 <= t,
                t < n * n,
        ;
        assert(n > 0) by (nonlinear_arith)
            requires
                0 < n * n,
                n >= 0,
        ;
        let i = t / n;
        let j = t % n;
        vstd::arithmetic::div_mod::lemma_fundamental_div_mod(t, n);
        vstd::arithmetic::div_mod::lemma_mod_bound(t, n);
        assert(0 <= i && i < n) by (nonlinear_arith)
            requires
                t == n * i + j,
                0 <= j < n,
                0 <= t,
                t < n * n,
        ;
        assert(l1.lu.at(i, j) == l1.lu.data@[t]) by {
            assert(i * n + j == t) by (nonlinear_arith)
                requires
                    t == n * i + j,
            ;
        }
        assert(l2.lu.at(i, j) == l2.lu.data@[t]) by {
            assert(i * n + j == t) by (nonlinear_arith)
                requires
                    t == n * i + j,
            ;
        }
    }
    assert(l1.lu.data@ =~= l2.lu.data@);
    assert(l1.indx@ =~= l2.indx@);
}

} // verus!
