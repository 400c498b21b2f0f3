use vstd::prelude::*;
use vstd::string::StringExecFns;

use crate::linalg::LinAlgError;
use crate::matrix::ent;
use crate::matrix::Matrix;
use crate::scalar::MatLinAlgBound;

verus! {

/// How many of the first `t` elimination steps chose column `k` as their
/// pivot column: the bookkeeping entry that bars a column from being
/// chosen twice.
pub open spec fn gj_ipiv<T: MatLinAlgBound>(ad: Seq<T>, n: int, t: int, k: int) -> int
    decreases t, 2int, 0int,
        when 0 <= t
{
    if t <= 0 {
        0
    } else {
        gj_ipiv::<T>(ad, n, t - 1, k) + (if gj_icol::<T>(ad, n, t - 1) == k {
            1int
        } else {
            0int
        })
    }
}

/// The running pivot magnitude and position the full-pivoting scan of
/// step `t` has accumulated over the first `p` cells (row-major order):
/// a cell competes when its row is not yet fully used, its column is
/// unused, and its magnitude is at least the running maximum; the
/// position carried in from the previous step survives when no cell
/// competes.
pub open spec fn gj_scan<T: MatLinAlgBound>(ad: Seq<T>, n: int, t: int, p: int) -> (T, int, int)
    decreases t, 3int, (if p >= 0 { p } else { 0int }),
        when 0 <= t
{
    if p <= 0 {
        (T::spec_zero(), gj_irow0::<T>(ad, n, t), gj_icol0::<T>(ad, n, t))
    } else {
        let st = gj_scan::<T>(ad, n, t, p - 1);
        let j = (p - 1) / n;
        let k = (p - 1) % n;
        if gj_ipiv::<T>(ad, n, t, j) != 1 && gj_ipiv::<T>(ad, n, t, k) == 0 && st.0.spec_le(
            gj_a(ad, n, t, j, k).spec_abs(),
        ) {
            (gj_a(ad, n, t, j, k).spec_abs(), j, k)
        } else {
            st
        }
    }
}

/// The pivot row position carried into step `t`'s scan: zero before the
/// first step, the previous step's choice after.
pub open spec fn gj_irow0<T: MatLinAlgBound>(ad: Seq<T>, n: int, t: int) -> int
    decreases t, 1int, 0int,
        when 0 <= t
{
    if t <= 0 {
        0
    } else {
        gj_irow::<T>(ad, n, t - 1)
    }
}

/// The pivot column position carried into step `t`'s scan.
pub open spec fn gj_icol0<T: MatLinAlgBound>(ad: Seq<T>, n: int, t: int) -> int
    decreases t, 1int, 1int,
        when 0 <= t
{
    if t <= 0 {
        0
    } else {
        gj_icol::<T>(ad, n, t - 1)
    }
}

/// The pivot row step `t` selects.
pub open spec fn gj_irow<T: MatLinAlgBound>(ad: Seq<T>, n: int, t: int) -> int
    decreases t, 4int, 0int,
        when 0 <= t
{
    gj_scan::<T>(ad, n, t, n * n).1
}

/// The pivot column step `t` selects.
pub open spec fn gj_icol<T: MatLinAlgBound>(ad: Seq<T>, n: int, t: int) -> int
    decreases t, 4int, 1int,
        when 0 <= t
{
    gj_scan::<T>(ad, n, t, n * n).2
}

/// The coefficient matrix at the start of step `t`: the previous step
/// has swapped its pivot row into the pivot column's row, normalized
/// that row by the pivot (its diagonal slot holding one beforehand) and
/// subtracted the pivot row's multiple from every other row, zeroing the
/// pivot column slot first.
pub open spec fn gj_a<T: MatLinAlgBound>(ad: Seq<T>, n: int, t: int, i: int, j: int) -> T
    decreases t, 0int, 0int,
        when 0 <= t
{
    if t <= 0 {
        ent(ad, n, i, j)
    } else {
        let ic = gj_icol::<T>(ad, n, t - 1);
        if i != ic {
            (if j == ic {
                T::spec_zero()
            } else {
                gj_anorm(ad, n, t - 1, i, j)
            }).spec_sub(gj_anorm(ad, n, t - 1, i, ic).spec_mul(gj_anorm(ad, n, t - 1, ic, j)))
        } else {
            gj_anorm(ad, n, t - 1, ic, j)
        }
    }
}

/// The coefficient matrix of step `t` after its pivot row swap.
pub open spec fn gj_asw<T: MatLinAlgBound>(ad: Seq<T>, n: int, t: int, i: int, j: int) -> T
    decreases t, 5int, 0int,
        when 0 <= t
{
    let ir = gj_irow::<T>(ad, n, t);
    let ic = gj_icol::<T>(ad, n, t);
    if i == ir {
        gj_a(ad, n, t, ic, j)
    } else if i == ic {
        gj_a(ad, n, t, ir, j)
    } else {
        gj_a(ad, n, t, i, j)
    }
}

/// The swapped pivot of step `t` has magnitude below the fixed
/// threshold: the condition under which the elimination reports a
/// singular matrix.
pub open spec fn gj_small<T: MatLinAlgBound>(ad: Seq<T>, n: int, t: int) -> bool
    decreases t, 6int, 0int,
        when 0 <= t
{
    let ic = gj_icol::<T>(ad, n, t);
    gj_asw(ad, n, t, ic, ic).spec_abs().spec_lt(T::spec_pow10_neg(7))
}

/// Some of the first `n` elimination steps meets a pivot of magnitude
/// below the threshold.
pub open spec fn gj_degenerate<T: MatLinAlgBound>(ad: Seq<T>, n: int) -> bool {
    exists|t: int| 0 <= t < n && gj_small::<T>(ad, n, t)
}

/// The reciprocal pivot of step `t`.
pub open spec fn gj_pivinv<T: MatLinAlgBound>(ad: Seq<T>, n: int, t: int) -> T
    decreases t, 6int, 1int,
        when 0 <= t
{
    let ic = gj_icol::<T>(ad, n, t);
    T::spec_one().spec_div(gj_asw(ad, n, t, ic, ic))
}

/// The coefficient matrix of step `t` after its pivot row has been
/// normalized: the pivot slot is replaced by one before the whole row,
/// that slot included, is scaled by the reciprocal pivot.
pub open spec fn gj_anorm<T: MatLinAlgBound>(ad: Seq<T>, n: int, t: int, i: int, j: int) -> T
    decreases t, 7int, 0int,
        when 0 <= t
{
    let ic = gj_icol::<T>(ad, n, t);
    if i == ic {
        (if j == ic {
            T::spec_one()
        } else {
            gj_asw(ad, n, t, ic, j)
        }).spec_mul(gj_pivinv::<T>(ad, n, t))
    } else {
        gj_asw(ad, n, t, i, j)
    }
}

/// The right-hand-side matrix at the start of step `t`, reduced by the
/// same swaps, normalizations and eliminations as the coefficients.
pub open spec fn gj_b<T: MatLinAlgBound>(
    ad: Seq<T>,
    bd: Seq<T>,
    n: int,
    m: int,
    t: int,
    i: int,
    j: int,
) -> T
    decreases t, 0int,
        when 0 <= t
{
    if t <= 0 {
        ent(bd, m, i, j)
    } else {
        let ic = gj_icol::<T>(ad, n, t - 1);
        if i != ic {
            gj_bnorm(ad, bd, n, m, t - 1, i, j).spec_sub(
                gj_anorm(ad, n, t - 1, i, ic).spec_mul(gj_bnorm(ad, bd, n, m, t - 1, ic, j)),
            )
        } else {
            gj_bnorm(ad, bd, n, m, t - 1, ic, j)
        }
    }
}

/// The right-hand-side matrix of step `t` after its pivot row swap.
pub open spec fn gj_bsw<T: MatLinAlgBound>(
    ad: Seq<T>,
    bd: Seq<T>,
    n: int,
    m: int,
    t: int,
    i: int,
    j: int,
) -> T
    decreases t, 1int,
        when 0 <= t
{
    let ir = gj_irow::<T>(ad, n, t);
    let ic = gj_icol::<T>(ad, n, t);
    if i == ir {
        gj_b(ad, bd, n, m, t, ic, j)
    } else if i == ic {
        gj_b(ad, bd, n, m, t, ir, j)
    } else {
        gj_b(ad, bd, n, m, t, i, j)
    }
}

/// The right-hand-side matrix of step `t` with its pivot row scaled by
/// the reciprocal pivot.
pub open spec fn gj_bnorm<T: MatLinAlgBound>(
    ad: Seq<T>,
    bd: Seq<T>,
    n: int,
    m: int,
    t: int,
    i: int,
    j: int,
) -> T
    decreases t, 2int,
        when 0 <= t
{
    let ic = gj_icol::<T>(ad, n, t);
    if i == ic {
        gj_bsw(ad, bd, n, m, t, ic, j).spec_mul(gj_pivinv::<T>(ad, n, t))
    } else {
        gj_bsw(ad, bd, n, m, t, i, j)
    }
}

/// The coefficient matrix after the column permutation has been undone
/// for the steps `n-1` down to `i`, swapping each step's recorded row
/// and column choice back in reverse order.
pub open spec fn gj_unswap<T: MatLinAlgBound>(ad: Seq<T>, n: int, i: int, r: int, c: int) -> T
    decreases n - i,
        when 0 <= i
{
    if i >= n {
        gj_a(ad, n, n, r, c)
    } else {
        let c1 = gj_irow::<T>(ad, n, i);
        let c2 = gj_icol::<T>(ad, n, i);
        if c == c1 {
            gj_unswap(ad, n, i + 1, r, c2)
        } else if c == c2 {
            gj_unswap(ad, n, i + 1, r, c1)
        } else {
            gj_unswap(ad, n, i + 1, r, c)
        }
    }
}

/// A whole row the scan may not use leaves the running state untouched
/// across all its cells.
proof fn lemma_gj_scan_skip_row<T: MatLinAlgBound>(ad: Seq<T>, n: int, t: int, j: int, k: int)
    requires
        0 <= t,
        0 <= j,
        0 <= k <= n,
        0 < n,
        gj_ipiv::<T>(ad, n, t, j) == 1,
    ensures
        gj_scan::<T>(ad, n, t, j * n + k) == gj_scan::<T>(ad, n, t, j * n),
    decreases k,
{
    if k > 0 {
        lemma_gj_scan_skip_row::<T>(ad, n, t, j, k - 1);
        assert(j * n + k - 1 >= 0) by (nonlinear_arith)
            requires
                0 <= j,
                0 < n,
                1 <= k,
        ;
        vstd::arithmetic::div_mod::lemma_fundamental_div_mod_converse(
            j * n + k - 1,
            n,
            j,
            k - 1,
        );
    }
}

/// Linear equation solution by Gauss-Jordan elimination with full
/// pivoting. Takes ownership of the coefficient matrix `a` and the
/// right-hand-side matrix `b` (one column per right-hand side). Fails
/// with `SingularMatrix` exactly when some step's pivot has magnitude
/// below the fixed threshold; on success the returned coefficient matrix
/// is pinned to the elimination-and-unswap recurrence [`gj_unswap`] (it
/// has become the inverse of `a`) and the right-hand-side matrix to the
/// reduction recurrence [`gj_b`] (its columns have become the solution
/// vectors).
pub fn gauss_jordan<T: MatLinAlgBound>(a: Matrix<T>, b: Matrix<T>) -> (r: Result<
    (Matrix<T>, Matrix<T>),
    LinAlgError,
>)
    requires
        a.wf(),
        b.wf(),
        a.nrows == a.ncols,
        b.nrows == a.nrows,
    ensures
        (r matches Err(e) && e matches LinAlgError::SingularMatrix(s) && s@ == "gauss_jordan"@)
            <==> gj_degenerate::<T>(a.data@, a.nrows as int),
        (r is Ok) <==> !gj_degenerate::<T>(a.data@, a.nrows as int),
        r matches Ok(p) ==> ({
            &&& p.0.wf()
            &&& p.0.nrows == a.nrows
            &&& p.0.ncols == a.ncols
            &&& p.1.wf()
            &&& p.1.nrows == b.nrows
            &&& p.1.ncols == b.ncols
            &&& forall|i2: int, j2: int|
                0 <= i2 < a.nrows && 0 <= j2 < a.nrows ==> #[trigger] p.0.at(i2, j2) == gj_unswap::<
                    T,
                >(a.data@, a.nrows as int, 0, i2, j2)
            &&& forall|i2: int, j2: int|
                0 <= i2 < b.nrows && 0 <= j2 < b.ncols ==> #[trigger] p.1.at(i2, j2) == gj_b::<T>(
                    a.data@,
                    b.data@,
                    a.nrows as int,
                    b.ncols as int,
                    a.nrows as int,
                    i2,
                    j2,
                )
        }),
{
    let ghost ad = a.data@;
    let ghost bd = b.data@;
    let n = a.rows();
    let m = b.cols();
    let ghost nn = n as int;
    let ghost mm = m as int;
    let mut aw = a;
    let mut bw = b;

    let mut indxc: Vec<usize> = Vec::new();
    let mut indxr: Vec<usize> = Vec::new();
    let mut ipiv: Vec<usize> = crate::matrix::vec_fill(0usize, n);

    let mut irow: usize = 0;
    let mut icol: usize = 0;
    let mut i: usize = 0;
    while i < n
        invariant
            aw.wf(),
            bw.wf(),
            aw.nrows == n,
            aw.ncols == n,
            bw.nrows == n,
            bw.ncols == m,
            nn == n as int,
            mm == m as int,
            ad == a.data@,
            bd == b.data@,
            n == a.nrows,
            m == b.ncols,
            i <= n,
            irow as int == gj_irow0::<T>(ad, nn, i as int),
            icol as int == gj_icol0::<T>(ad, nn, i as int),
            irow < n || irow == 0,
            icol < n || icol == 0,
            ipiv@.len() == n,
            forall|k: int| 0 <= k < n ==> #[trigger] ipiv@[k] == gj_ipiv::<T>(ad, nn, i as int, k),
            forall|k: int| 0 <= k < n ==> #[trigger] ipiv@[k] <= i,
            indxr@.len() == i,
            indxc@.len() == i,
            forall|k: int| 0 <= k < i ==> #[trigger] indxr@[k] == gj_irow::<T>(ad, nn, k),
            forall|k: int| 0 <= k < i ==> #[trigger] indxc@[k] == gj_icol::<T>(ad, nn, k),
            forall|k: int| 0 <= k < i ==> #[trigger] indxr@[k] < n,
            forall|k: int| 0 <= k < i ==> #[trigger] indxc@[k] < n,
            forall|t: int| 0 <= t < i ==> !gj_small::<T>(ad, nn, t),
            forall|i2: int, j2: int|
                0 <= i2 < n && 0 <= j2 < n ==> #[trigger] aw.at(i2, j2) == gj_a(ad, nn, i as int, i2, j2),
            forall|i2: int, j2: int|
                0 <= i2 < n && 0 <= j2 < m ==> #[trigger] bw.at(i2, j2) == gj_b(
                    ad,
                    bd,
                    nn,
                    mm,
                    i as int,
                    i2,
                    j2,
                ),
        decreases n - i,
    {
        let ghost tt = i as int;
        let mut big: T = T::zero();
        let mut j: usize = 0;
        while j < n
            invariant
                aw.wf(),
                aw.nrows == n,
                aw.ncols == n,
                nn == n as int,
                i < n,
                j <= n,
                irow < n || irow == 0,
                icol < n || icol == 0,
                ipiv@.len() == n,
                tt == i as int,
                forall|k: int|
                    0 <= k < n ==> #[trigger] ipiv@[k] == gj_ipiv::<T>(ad, nn, tt, k),
                forall|i2: int, j2: int|
                    0 <= i2 < n && 0 <= j2 < n ==> #[trigger] aw.at(i2, j2) == gj_a(ad, nn, tt, i2, j2),
                (big, irow as int, icol as int) == gj_scan::<T>(ad, nn, tt, j as int * nn),
            decreases n - j,
        {
            if ipiv[j] != 1 {
                let mut k: usize = 0;
                while k < n
                    invariant
                        aw.wf(),
                        aw.nrows == n,
                        aw.ncols == n,
                        nn == n as int,
                        i < n,
                        j < n,
                        k <= n,
                        irow < n || irow == 0,
                        icol < n || icol == 0,
                        ipiv@.len() == n,
                        tt == i as int,
                        gj_ipiv::<T>(ad, nn, tt, j as int) != 1,
                        forall|k2: int|
                            0 <= k2 < n ==> #[trigger] ipiv@[k2] == gj_ipiv::<T>(ad, nn, tt, k2),
                        forall|i2: int, j2: int|
                            0 <= i2 < n && 0 <= j2 < n ==> #[trigger] aw.at(i2, j2) == gj_a(
                                ad,
                                nn,
                                tt,
                                i2,
                                j2,
                            ),
                        (big, irow as int, icol as int) == gj_scan::<T>(
                            ad,
                            nn,
                            tt,
                            j as int * nn + k as int,
                        ),
                    decreases n - k,
                {
                    proof {
                        assert(j as int * nn + k as int >= 0) by (nonlinear_arith)
                            requires
                                0 <= j as int,
                                0 <= k as int,
                                0 < nn,
                        ;
                        vstd::arithmetic::div_mod::lemma_fundamental_div_mod_converse(
                            j as int * nn + k as int,
                            nn,
                            j as int,
                            k as int,
                        );
                    }
                    if ipiv[k] == 0 {
                        if big.le(aw.get(j, k).abs()) {
                            big = aw.get(j, k).abs();
                            irow = j;
                            icol = k;
                        }
                    }
                    k += 1;
                }
                proof {
                    assert(j as int * nn + nn == (j as int + 1) * nn) by (nonlinear_arith);
                }
            } else {
                proof {
                    lemma_gj_scan_skip_row::<T>(ad, nn, tt, j as int, nn);
                    assert(j as int * nn + nn == (j as int + 1) * nn) by (nonlinear_arith);
                }
            }
            j += 1;
        }
        proof {
            assert(n as int * nn == nn * nn);
            assert((big, irow as int, icol as int) == gj_scan::<T>(ad, nn, tt, nn * nn));
            assert(irow as int == gj_irow::<T>(ad, nn, tt));
            assert(icol as int == gj_icol::<T>(ad, nn, tt));
        }
        let piv_count = ipiv[icol];
        ipiv[icol] = piv_count + 1;
        indxr.push(irow);
        indxc.push(icol);
        if irow != icol {
            aw.swap_rows(irow, icol);
            bw.swap_rows(irow, icol);
        }
        proof {
            assert forall|i2: int, j2: int|
                0 <= i2 < n && 0 <= j2 < n implies #[trigger] aw.at(i2, j2) == gj_asw(
                ad,
                nn,
                tt,
                i2,
                j2,
            ) by {}
            assert forall|i2: int, j2: int|
                0 <= i2 < n && 0 <= j2 < m implies #[trigger] bw.at(i2, j2) == gj_bsw(
                ad,
                bd,
                nn,
                mm,
                tt,
                i2,
                j2,
            ) by {}
        }

        if aw.get(icol, icol).abs().lt(T::pow10_neg(7)) {
            proof {
                assert(gj_small::<T>(ad, nn, tt));
                assert(gj_degenerate::<T>(ad, nn));
            }
            return Err(LinAlgError::SingularMatrix(String::from_str("gauss_jordan")));
        }

        let pivinv = T::one().div(aw.get(icol, icol));
        proof {
            assert(pivinv == gj_pivinv::<T>(ad, nn, tt));
        }
        aw.set(icol, icol, T::one());
        let ghost aone = aw;
        let mut l: usize = 0;
        while l < n
            invariant
                aw.wf(),
                aw.nrows == n,
                aw.ncols == n,
                nn == n as int,
                tt == i as int,
                icol < n,
                icol as int == gj_icol::<T>(ad, nn, tt),
                pivinv == gj_pivinv::<T>(ad, nn, tt),
                l <= n,
                aone.nrows == n,
                aone.ncols == n,
                forall|j2: int|
                    0 <= j2 < n ==> #[trigger] aone.at(icol as int, j2) == (if j2 == icol {
                        T::spec_one()
                    } else {
                        gj_asw(ad, nn, tt, icol as int, j2)
                    }),
                forall|i2: int, j2: int|
                    0 <= i2 < n && 0 <= j2 < n && i2 != icol ==> #[trigger] aw.at(i2, j2) == gj_asw(
                        ad,
                        nn,
                        tt,
                        i2,
                        j2,
                    ),
                forall|j2: int|
                    0 <= j2 < l ==> #[trigger] aw.at(icol as int, j2) == gj_anorm(
                        ad,
                        nn,
                        tt,
                        icol as int,
                        j2,
                    ),
                forall|j2: int|
                    l <= j2 < n ==> #[trigger] aw.at(icol as int, j2) == aone.at(icol as int, j2),
            decreases n - l,
        {
            aw.set(icol, l, aw.get(icol, l).mul(pivinv));
            l += 1;
        }
        let mut l: usize = 0;
        while l < m
            invariant
                bw.wf(),
                bw.nrows == n,
                bw.ncols == m,
                nn == n as int,
                mm == m as int,
                tt == i as int,
                icol < n,
                icol as int == gj_icol::<T>(ad, nn, tt),
                pivinv == gj_pivinv::<T>(ad, nn, tt),
                l <= m,
                forall|i2: int, j2: int|
                    0 <= i2 < n && 0 <= j2 < m && i2 != icol ==> #[trigger] bw.at(i2, j2) == gj_bsw(
                        ad,
                        bd,
                        nn,
                        mm,
                        tt,
                        i2,
                        j2,
                    ),
                forall|j2: int|
                    0 <= j2 < l ==> #[trigger] bw.at(icol as int, j2) == gj_bnorm(
                        ad,
                        bd,
                        nn,
                        mm,
                        tt,
                        icol as int,
                        j2,
                    ),
                forall|j2: int|
                    l <= j2 < m ==> #[trigger] bw.at(icol as int, j2) == gj_bsw(
                        ad,
                        bd,
                        nn,
                        mm,
                        tt,
                        icol as int,
                        j2,
                    ),
            decreases m - l,
        {
            bw.set(icol, l, bw.get(icol, l).mul(pivinv));
            l += 1;
        }
        let mut l: usize = 0;
        while l < n
            invariant
                aw.wf(),
                bw.wf(),
                aw.nrows == n,
                aw.ncols == n,
                bw.nrows == n,
                bw.ncols == m,
                nn == n as int,
                mm == m as int,
                tt == i as int,
                icol < n,
                icol as int == gj_icol::<T>(ad, nn, tt),
                l <= n,
                forall|i2: int, j2: int|
                    0 <= i2 < n && 0 <= j2 < n && (i2 >= l || i2 == icol) ==> #[trigger] aw.at(
                        i2,
                        j2,
                    ) == gj_anorm(ad, nn, tt, i2, j2),
                forall|i2: int, j2: int|
                    0 <= i2 < l && 0 <= j2 < n && i2 != icol ==> #[trigger] aw.at(i2, j2) == gj_a(
                        ad,
                        nn,
                        tt + 1,
                        i2,
                        j2,
                    ),
                forall|i2: int, j2: int|
                    0 <= i2 < n && 0 <= j2 < m && (i2 >= l || i2 == icol) ==> #[trigger] bw.at(
                        i2,
                        j2,
                    ) == gj_bnorm(ad, bd, nn, mm, tt, i2, j2),
                forall|i2: int, j2: int|
                    0 <= i2 < l && 0 <= j2 < m && i2 != icol ==> #[trigger] bw.at(i2, j2) == gj_b(
                        ad,
                        bd,
                        nn,
                        mm,
                        tt + 1,
                        i2,
                        j2,
                    ),
            decreases n - l,
        {
            if l != icol {
                let scale = aw.get(l, icol);
                aw.set(l, icol, T::zero());
                proof {
                    assert(scale == gj_anorm(ad, nn, tt, l as int, icol as int));
                }
                let mut k: usize = 0;
                while k < n
                    invariant
                        aw.wf(),
                        aw.nrows == n,
                        aw.ncols == n,
                        nn == n as int,
                        tt == i as int,
                        icol < n,
                        icol as int == gj_icol::<T>(ad, nn, tt),
                        l < n,
                        l != icol,
                        k <= n,
                        scale == gj_anorm(ad, nn, tt, l as int, icol as int),
                        forall|i2: int, j2: int|
                            0 <= i2 < n && 0 <= j2 < n && i2 != l && (i2 >= l || i2 == icol)
                                ==> #[trigger] aw.at(i2, j2) == gj_anorm(ad, nn, tt, i2, j2),
                        forall|i2: int, j2: int|
                            0 <= i2 < l && 0 <= j2 < n && i2 != icol ==> #[trigger] aw.at(i2, j2)
                                == gj_a(ad, nn, tt + 1, i2, j2),
                        forall|j2: int|
                            0 <= j2 < k ==> #[trigger] aw.at(l as int, j2) == gj_a(
                                ad,
                                nn,
                                tt + 1,
                                l as int,
                                j2,
                            ),
                        forall|j2: int|
                            k <= j2 < n ==> #[trigger] aw.at(l as int, j2) == (if j2 == icol {
                                T::spec_zero()
                            } else {
                                gj_anorm(ad, nn, tt, l as int, j2)
                            }),
                    decreases n - k,
                {
                    aw.set(l, k, aw.get(l, k).sub(scale.mul(aw.get(icol, k))));
                    k += 1;
                }
                let mut k: usize = 0;
                while k < m
                    invariant
                        bw.wf(),
                        bw.nrows == n,
                        bw.ncols == m,
                        nn == n as int,
                        mm == m as int,
                        tt == i as int,
                        icol < n,
                        icol as int == gj_icol::<T>(ad, nn, tt),
                        l < n,
                        l != icol,
                        k <= m,
                        scale == gj_anorm(ad, nn, tt, l as int, icol as int),
                        forall|i2: int, j2: int|
                            0 <= i2 < n && 0 <= j2 < m && i2 != l && (i2 >= l || i2 == icol)
                                ==> #[trigger] bw.at(i2, j2) == gj_bnorm(ad, bd, nn, mm, tt, i2, j2),
                        forall|i2: int, j2: int|
                            0 <= i2 < l && 0 <= j2 < m && i2 != icol ==> #[trigger] bw.at(i2, j2)
                                == gj_b(ad, bd, nn, mm, tt + 1, i2, j2),
                        forall|j2: int|
                            0 <= j2 < k ==> #[trigger] bw.at(l as int, j2) == gj_b(
                                ad,
                                bd,
                                nn,
                                mm,
                                tt + 1,
                                l as int,
                                j2,
                            ),
                        forall|j2: int|
                            k <= j2 < m ==> #[trigger] bw.at(l as int, j2) == gj_bnorm(
                                ad,
                                bd,
                                nn,
                                mm,
                                tt,
                                l as int,
                                j2,
                            ),
                    decreases m - k,
                {
                    bw.set(l, k, bw.get(l, k).sub(scale.mul(bw.get(icol, k))));
                    k += 1;
                }
            }
            l += 1;
        }
        proof {
            assert forall|i2: int, j2: int|
                0 <= i2 < n && 0 <= j2 < n implies #[trigger] aw.at(i2, j2) == gj_a(
                ad,
                nn,
                tt + 1,
                i2,
                j2,
            ) by {}
            assert forall|i2: int, j2: int|
                0 <= i2 < n && 0 <= j2 < m implies #[trigger] bw.at(i2, j2) == gj_b(
                ad,
                bd,
                nn,
                mm,
                tt + 1,
                i2,
                j2,
            ) by {}
        }
        i += 1;
    }

    let mut i: usize = n;
    while i > 0
        invariant
            aw.wf(),
            aw.nrows == n,
            aw.ncols == n,
            nn == n as int,
            ad == a.data@,
            n == a.nrows,
            i <= n,
            indxr@.len() == n,
            indxc@.len() == n,
            forall|k: int| 0 <= k < n ==> #[trigger] indxr@[k] == gj_irow::<T>(ad, nn, k),
            forall|k: int| 0 <= k < n ==> #[trigger] indxc@[k] == gj_icol::<T>(ad, nn, k),
            forall|k: int| 0 <= k < n ==> #[trigger] indxr@[k] < n,
            forall|k: int| 0 <= k < n ==> #[trigger] indxc@[k] < n,
            forall|i2: int, j2: int|
                0 <= i2 < n && 0 <= j2 < n ==> #[trigger] aw.at(i2, j2) == gj_unswap::<T>(
                    ad,
                    nn,
                    i as int,
                    i2,
                    j2,
                ),
        decreases i,
    {
        i -= 1;
        if indxr[i] != indxc[i] {
            aw.swap_cols(indxr[i], indxc[i]);
        }
    }

    proof {
        assert forall|t: int| 0 <= t < n implies !gj_small::<T>(ad, nn, t) by {}
        assert(!gj_degenerate::<T>(ad, nn));
    }
    Ok((aw, bw))
}

} // verus!
