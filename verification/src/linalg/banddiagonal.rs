use vstd::prelude::*;

use crate::matrix::ent;
use crate::matrix::Matrix;
use crate::scalar::MatLinAlgBound;

verus! {

/// The first stored column that row `i` of a compact band matrix with
/// `m1` sub-diagonals uses: leading slots of the first `m1` rows are
/// outside the matrix.
pub open spec fn ban_lo(i: int, m1: int) -> int {
    if i < m1 {
        m1 - i
    } else {
        0
    }
}

/// One past the last stored column that row `i` of an `n`-row compact
/// band matrix with `m1` sub- and `m2` super-diagonals uses.
pub open spec fn ban_hi(i: int, n: int, m1: int, m2: int) -> int {
    if m1 + m2 + 1 <= n + m1 - i {
        m1 + m2 + 1
    } else {
        n + m1 - i
    }
}

/// The fold-left sum of products `a[i][t] * x[i + t - m1]` for stored
/// columns `t` from [`ban_lo`] up to `j`: row `i` of the band-matrix
/// product.
pub open spec fn banmul_sum<T: MatLinAlgBound>(
    ad: Seq<T>,
    cols: int,
    x: Seq<T>,
    i: int,
    m1: int,
    j: int,
) -> T
    decreases j - ban_lo(i, m1),
{
    if j <= ban_lo(i, m1) {
        T::spec_zero()
    } else {
        banmul_sum(ad, cols, x, i, m1, j - 1).spec_add(
            ent(ad, cols, i, j - 1).spec_mul(x[i + (j - 1) - m1]),
        )
    }
}

/// Multiplies a band-diagonal matrix in compact storage (`m1` rows below
/// the diagonal, `m2` above, one stored column per band) by `x`, writing
/// the product over `b` without expanding the matrix. Every entry of `b`
/// is pinned to the [`banmul_sum`] fold over its band window.
pub fn banmul<T: MatLinAlgBound>(a: &Matrix<T>, m1: usize, m2: usize, x: &Vec<T>, b: &mut Vec<T>)
    requires
        a.wf(),
        a.nrows == old(b)@.len(),
        a.ncols == m1 + m2 + 1,
        x@.len() == old(b)@.len(),
        old(b)@.len() + m1 <= usize::MAX,
    ensures
        final(b)@.len() == old(b)@.len(),
        forall|i: int|
            0 <= i < old(b)@.len() ==> final(b)@[i] == banmul_sum(
                a.data@,
                a.ncols as int,
                x@,
                i,
                m1 as int,
                ban_hi(i, old(b)@.len() as int, m1 as int, m2 as int),
            ),
{
    let n = b.len();
    let mut i: usize = 0;
    while i < n
        invariant
            a.wf(),
            a.nrows == n,
            a.ncols == m1 + m2 + 1,
            x@.len() == n,
            b@.len() == n,
            n + m1 <= usize::MAX,
            i <= n,
            forall|i2: int|
                0 <= i2 < i ==> b@[i2] == banmul_sum(
                    a.data@,
                    a.ncols as int,
                    x@,
                    i2,
                    m1 as int,
                    ban_hi(i2, n as int, m1 as int, m2 as int),
                ),
        decreases n - i,
    {
        let lo: usize = if i < m1 {
            m1 - i
        } else {
            0
        };
        let hi: usize = if m1 + m2 + 1 <= n + m1 - i {
            m1 + m2 + 1
        } else {
            n + m1 - i
        };
        let mut acc = T::zero();
        let mut j: usize = lo;
        while j < hi
            invariant
                a.wf(),
                a.nrows == n,
                a.ncols == m1 + m2 + 1,
                x@.len() == n,
                i < n,
                lo == ban_lo(i as int, m1 as int),
                hi == ban_hi(i as int, n as int, m1 as int, m2 as int),
                lo <= j <= hi,
                hi <= m1 + m2 + 1,
                i + hi <= n + m1,
                n + m1 <= usize::MAX,
                acc == banmul_sum(a.data@, a.ncols as int, x@, i as int, m1 as int, j as int),
            decreases hi - j,
        {
            acc = acc.add(a.get(i, j).mul(x[i + j - m1]));
            j += 1;
        }
        b[i] = acc;
        i += 1;
    }
}

/// One past the last row the forward elimination updates at step `k`:
/// the band reaches at most `m1` rows below the pivot.
pub open spec fn ban_fwd_l(k: int, m1: int, n: int) -> int {
    if m1 + k + 1 <= n {
        m1 + k + 1
    } else {
        n
    }
}

/// The state of the right-hand side after the multiplier for column `k`
/// has been applied to rows `k+1..j2`.
pub open spec fn ban_axpy<T: MatLinAlgBound>(
    ald: Seq<T>,
    mm: int,
    s: Seq<T>,
    k: int,
    j2: int,
) -> Seq<T>
    decreases j2 - k,
{
    if j2 <= k + 1 {
        s
    } else {
        let prev = ban_axpy(ald, mm, s, k, j2 - 1);
        prev.update(j2 - 1, prev[j2 - 1].spec_sub(ent(ald, mm, k, j2 - 1 - k - 1).spec_mul(prev[k])))
    }
}

/// The right-hand side after the first `k` forward-elimination steps:
/// each step swaps in the recorded pivot row, then applies the stored
/// multipliers to the rows inside the band below it.
pub open spec fn ban_fwd<T: MatLinAlgBound>(
    ald: Seq<T>,
    mm: int,
    m1: int,
    indx: Seq<usize>,
    n: int,
    x0: Seq<T>,
    k: int,
) -> Seq<T>
    decreases k,
{
    if k <= 0 {
        x0
    } else {
        let s = ban_fwd(ald, mm, m1, indx, n, x0, k - 1);
        let j = indx[k - 1] - 1;
        let s1 = if j != k - 1 {
            s.update(j, s[k - 1]).update(k - 1, s[j])
        } else {
            s
        };
        ban_axpy(ald, mm, s1, k - 1, ban_fwd_l(k - 1, m1, n))
    }
}

/// How many stored columns the back substitution reads at row `i`: the
/// band reaches at most `mm` columns, and no further than the last row.
pub open spec fn ban_back_l(i: int, n: int, mm: int) -> int {
    if n - i <= mm {
        n - i
    } else {
        mm
    }
}

/// The back-substitution inner sum at row `i`: the current entry minus
/// the fold-left sum of `au[i][t] * x[t + i]` for stored columns
/// `1 <= t < k2`.
pub open spec fn ban_back_sum<T: MatLinAlgBound>(
    aud: Seq<T>,
    mm: int,
    s: Seq<T>,
    i: int,
    k2: int,
) -> T
    decreases k2,
{
    if k2 <= 1 {
        s[i]
    } else {
        ban_back_sum(aud, mm, s, i, k2 - 1).spec_sub(
            ent(aud, mm, i, k2 - 1).spec_mul(s[k2 - 1 + i]),
        )
    }
}

/// The right-hand side after banded back substitution has processed rows
/// `n-1` down to `i`.
pub open spec fn ban_back<T: MatLinAlgBound>(
    aud: Seq<T>,
    mm: int,
    x: Seq<T>,
    n: int,
    i: int,
) -> Seq<T>
    decreases n - i,
{
    if i >= n {
        x
    } else {
        let s = ban_back(aud, mm, x, n, i + 1);
        s.update(
            i,
            ban_back_sum(aud, mm, s, i, ban_back_l(i, n, mm)).spec_div(ent(aud, mm, i, 0)),
        )
    }
}

/// Entry `(r, c)` of the compact band store after the leading `m1` rows
/// have been shifted left to align the band, their vacated tail slots
/// zeroed.
pub open spec fn bd_shifted<T: MatLinAlgBound>(ad: Seq<T>, mm: int, m1: int, r: int, c: int) -> T {
    if r < m1 {
        if c < mm - (m1 - r) {
            ent(ad, mm, r, c + (m1 - r))
        } else {
            T::spec_zero()
        }
    } else {
        ent(ad, mm, r, c)
    }
}

/// The running pivot value and row the band pivot search of step `t` has
/// accumulated over rows `t..j` of the stored first column.
pub open spec fn bd_pivot<T: MatLinAlgBound>(
    ad: Seq<T>,
    n: int,
    mm: int,
    m1: int,
    t: int,
    j: int,
) -> (T, int)
    decreases t, 2int, (if j - t - 1 >= 0 { j - t - 1 } else { 0int }),
        when 0 <= t
{
    if j <= t + 1 {
        (bd_entry(ad, n, mm, m1, t, t, 0), t)
    } else {
        let (dm, im) = bd_pivot(ad, n, mm, m1, t, j - 1);
        let v = bd_entry(ad, n, mm, m1, t, j - 1, 0);
        if dm.spec_abs().spec_lt(v.spec_abs()) {
            (v, j - 1)
        } else {
            (dm, im)
        }
    }
}

/// The pivot row the band elimination selects at step `t`.
pub open spec fn bd_imax<T: MatLinAlgBound>(ad: Seq<T>, n: int, mm: int, m1: int, t: int) -> int
    decreases t, 3int, 0int,
        when 0 <= t
{
    bd_pivot::<T>(ad, n, mm, m1, t, ban_fwd_l(t, m1, n)).1
}

/// The working band store of step `t` after its pivot row has been
/// swapped into place.
pub open spec fn bd_swapped<T: MatLinAlgBound>(
    ad: Seq<T>,
    n: int,
    mm: int,
    m1: int,
    t: int,
    r: int,
    c: int,
) -> T
    decreases t, 4int, 0int,
        when 0 <= t
{
    let im = bd_imax::<T>(ad, n, mm, m1, t);
    if r == t {
        bd_entry(ad, n, mm, m1, t, im, c)
    } else if r == im {
        bd_entry(ad, n, mm, m1, t, t, c)
    } else {
        bd_entry(ad, n, mm, m1, t, r, c)
    }
}

/// Entry `(r, c)` of the compact upper factor after `t` band elimination
/// steps: each step shifts the reduced rows inside its band window one
/// slot left, subtracting the pivot row's multiple, and zeroes the
/// vacated last slot.
pub open spec fn bd_entry<T: MatLinAlgBound>(
    ad: Seq<T>,
    n: int,
    mm: int,
    m1: int,
    t: int,
    r: int,
    c: int,
) -> T
    decreases t, 0int, 0int,
        when 0 <= t
{
    if t <= 0 {
        bd_shifted(ad, mm, m1, r, c)
    } else {
        let l = ban_fwd_l(t - 1, m1, n);
        if t - 1 < r && r < l {
            if c < mm - 1 {
                bd_swapped(ad, n, mm, m1, t - 1, r, c + 1).spec_sub(
                    bd_swapped(ad, n, mm, m1, t - 1, r, 0).spec_div(
                        bd_swapped(ad, n, mm, m1, t - 1, t - 1, 0),
                    ).spec_mul(bd_swapped(ad, n, mm, m1, t - 1, t - 1, c + 1)),
                )
            } else {
                T::spec_zero()
            }
        } else {
            bd_swapped(ad, n, mm, m1, t - 1, r, c)
        }
    }
}

/// Entry `(r, c)` of the multiplier store after `t` band elimination
/// steps: step `t` records in row `t - 1` the ratios that eliminated the
/// rows inside its band window.
pub open spec fn bd_al<T: MatLinAlgBound>(
    ad: Seq<T>,
    n: int,
    mm: int,
    m1: int,
    t: int,
    r: int,
    c: int,
) -> T
    decreases t, 5int, 0int,
        when 0 <= t
{
    if t <= 0 {
        T::spec_zero()
    } else if r == t - 1 && 0 <= c && c < ban_fwd_l(t - 1, m1, n) - t {
        bd_swapped(ad, n, mm, m1, t - 1, t + c, 0).spec_div(
            bd_swapped(ad, n, mm, m1, t - 1, t - 1, 0),
        )
    } else {
        bd_al(ad, n, mm, m1, t - 1, r, c)
    }
}

/// The permutation parity after `t` band elimination steps.
pub open spec fn bd_parity<T: MatLinAlgBound>(ad: Seq<T>, n: int, mm: int, m1: int, t: int) -> T
    decreases t, 6int, 0int,
        when 0 <= t
{
    if t <= 0 {
        T::spec_one()
    } else if bd_imax::<T>(ad, n, mm, m1, t - 1) != t - 1 {
        bd_parity::<T>(ad, n, mm, m1, t - 1).spec_neg()
    } else {
        bd_parity::<T>(ad, n, mm, m1, t - 1)
    }
}

/// The row a band pivot search returns is the step's own row or one of
/// the rows it scanned.
proof fn lemma_bd_pivot_bounds<T: MatLinAlgBound>(
    ad: Seq<T>,
    n: int,
    mm: int,
    m1: int,
    t: int,
    j: int,
)
    requires
        0 <= t,
    ensures
        t <= bd_pivot::<T>(ad, n, mm, m1, t, j).1,
        bd_pivot::<T>(ad, n, mm, m1, t, j).1 < j || bd_pivot::<T>(ad, n, mm, m1, t, j).1 == t,
    decreases (if j - t - 1 >= 0 { j - t - 1 } else { 0int }),
{
    if j > t + 1 {
        lemma_bd_pivot_bounds::<T>(ad, n, mm, m1, t, j - 1);
    }
}

/// LU decomposition of a band-diagonal matrix held in compact storage:
/// partial pivoting restricted to the band, upper factor in `au`, the
/// multipliers in `al`, the pivot row choices (offset by one) in `indx`
/// and the permutation parity in `d`.
pub struct Bandec<T> {
    pub n: usize,
    pub m1: usize,
    pub m2: usize,
    pub au: Matrix<T>,
    pub al: Matrix<T>,
    pub indx: Vec<usize>,
    pub d: T,
}

impl<T: MatLinAlgBound> Bandec<T> {
    /// Both compact factors have `n` rows of the band width, and every
    /// pivot record is a valid one-based row index.
    pub open spec fn wf(self) -> bool {
        &&& self.au.wf()
        &&& self.au.nrows == self.n
        &&& self.au.ncols == self.m1 + self.m2 + 1
        &&& self.al.wf()
        &&& self.al.nrows == self.n
        &&& self.al.ncols == self.m1 + self.m2 + 1
        &&& self.m1 <= self.n
        &&& self.indx.len() == self.n
        &&& forall|k: int| 0 <= k < self.n ==> 1 <= #[trigger] self.indx@[k] <= self.n
    }

    /// Decomposes the compact band matrix `a` (consumed) with partial
    /// pivoting restricted to the band; construction never fails. Both
    /// compact factors, the pivot record and the parity are pinned to the
    /// [`bd_entry`], [`bd_al`], [`bd_imax`] and [`bd_parity`] recurrences
    /// on `a` alone, so decomposing the same matrix twice yields identical
    /// results.
    pub fn new(a: Matrix<T>, m1: usize, m2: usize) -> (bd: Bandec<T>)
        requires
            a.wf(),
            a.ncols == m1 + m2 + 1,
            m1 <= a.nrows,
        ensures
            bd.wf(),
            bd.n == a.nrows,
            bd.m1 == m1,
            bd.m2 == m2,
            forall|r2: int, c2: int|
                0 <= r2 < a.nrows && 0 <= c2 < a.ncols ==> #[trigger] bd.au.at(r2, c2) == bd_entry(
                    a.data@,
                    a.nrows as int,
                    a.ncols as int,
                    m1 as int,
                    a.nrows as int,
                    r2,
                    c2,
                ),
            forall|r2: int, c2: int|
                0 <= r2 < a.nrows && 0 <= c2 < a.ncols ==> #[trigger] bd.al.at(r2, c2) == bd_al(
                    a.data@,
                    a.nrows as int,
                    a.ncols as int,
                    m1 as int,
                    a.nrows as int,
                    r2,
                    c2,
                ),
            forall|t: int|
                0 <= t < a.nrows ==> #[trigger] bd.indx@[t] == bd_imax::<T>(
                    a.data@,
                    a.nrows as int,
                    a.ncols as int,
                    m1 as int,
                    t,
                ) + 1,
            bd.d == bd_parity::<T>(a.data@, a.nrows as int, a.ncols as int, m1 as int, a.nrows as int),
    {
        let tiny = T::pow10_neg(10);
        let n = a.rows();
        let ghost ad = a.data@;
        let ghost nn = n as int;
        let ghost m1i = m1 as int;
        let mut au = a;
        proof {
            vstd::arithmetic::mul::lemma_mul_upper_bound(
                au.nrows as int,
                au.nrows as int,
                au.ncols as int,
                au.ncols as int,
            );
        }
        let mut al = Matrix::new(
            au.rows(),
            au.cols(),
            crate::matrix::vec_fill(T::zero(), au.rows() * au.cols()),
        );
        let mut indx: Vec<usize> = Vec::new();
        let mut d = T::one();

        let mm = m1 + m2 + 1;
        let ghost mmi = mm as int;
        proof {
            assert forall|r2: int, c2: int|
                0 <= r2 < n && 0 <= c2 < mm implies #[trigger] al.at(r2, c2) == bd_al(
                ad,
                nn,
                mmi,
                m1i,
                0,
                r2,
                c2,
            ) by {
                crate::matrix::lemma_row_major_index(r2, c2, n as int, mm as int);
            }
        }
        let mut l = m1;
        let mut i: usize = 0;
        while i < m1
            invariant
                au.wf(),
                au.nrows == n,
                au.ncols == mm,
                mm == m1 + m2 + 1,
                nn == n as int,
                mmi == mm as int,
                m1i == m1 as int,
                m1 <= n,
                i <= m1,
                l == m1 - i,
                forall|r2: int, c2: int|
                    0 <= r2 < n && 0 <= c2 < mm ==> #[trigger] au.at(r2, c2) == (if r2 < i {
                        bd_shifted::<T>(ad, mmi, m1i, r2, c2)
                    } else {
                        ent(ad, mmi, r2, c2)
                    }),
            decreases m1 - i,
        {
            let mut j: usize = m1 - i;
            while j < mm
                invariant
                    au.wf(),
                    au.nrows == n,
                    au.ncols == mm,
                    mm == m1 + m2 + 1,
                    nn == n as int,
                    mmi == mm as int,
                    m1i == m1 as int,
                    m1 <= n,
                    i < m1,
                    l == m1 - i,
                    m1 - i <= j <= mm,
                    forall|r2: int, c2: int|
                        0 <= r2 < n && 0 <= c2 < mm && r2 != i ==> #[trigger] au.at(r2, c2) == (
                        if r2 < i {
                            bd_shifted::<T>(ad, mmi, m1i, r2, c2)
                        } else {
                            ent(ad, mmi, r2, c2)
                        }),
                    forall|c2: int|
                        0 <= c2 < j - l ==> #[trigger] au.at(i as int, c2) == ent(
                            ad,
                            mmi,
                            i as int,
                            c2 + l,
                        ),
                    forall|c2: int|
                        j - l <= c2 < mm ==> #[trigger] au.at(i as int, c2) == ent(
                            ad,
                            mmi,
                            i as int,
                            c2,
                        ),
                decreases mm - j,
            {
                au.set(i, j - l, au.get(i, j));
                j += 1;
            }
            l -= 1;
            let mut j: usize = mm - l - 1;
            while j < mm
                invariant
                    au.wf(),
                    au.nrows == n,
                    au.ncols == mm,
                    mm == m1 + m2 + 1,
                    nn == n as int,
                    mmi == mm as int,
                    m1i == m1 as int,
                    m1 <= n,
                    i < m1,
                    l == m1 - i - 1,
                    mm - l - 1 <= j <= mm,
                    forall|r2: int, c2: int|
                        0 <= r2 < n && 0 <= c2 < mm && r2 != i ==> #[trigger] au.at(r2, c2) == (
                        if r2 < i {
                            bd_shifted::<T>(ad, mmi, m1i, r2, c2)
                        } else {
                            ent(ad, mmi, r2, c2)
                        }),
                    forall|c2: int|
                        0 <= c2 < mm - l - 1 ==> #[trigger] au.at(i as int, c2) == ent(
                            ad,
                            mmi,
                            i as int,
                            c2 + l + 1,
                        ),
                    forall|c2: int|
                        mm - l - 1 <= c2 < j ==> #[trigger] au.at(i as int, c2) == T::spec_zero(),
                    forall|c2: int|
                        j <= c2 < mm ==> #[trigger] au.at(i as int, c2) == ent(ad, mmi, i as int, c2),
                decreases mm - j,
            {
                au.set(i, j, T::zero());
                j += 1;
            }
            i += 1;
        }

        let mut l = m1;
        let mut k: usize = 0;
        while k < n
            invariant
                au.wf(),
                au.nrows == n,
                au.ncols == mm,
                al.wf(),
                al.nrows == n,
                al.ncols == mm,
                mm == m1 + m2 + 1,
                nn == n as int,
                mmi == mm as int,
                m1i == m1 as int,
                m1 <= n,
                k <= n,
                k <= l <= n,
                l <= k + m1,
                l == ban_fwd_l(k as int - 1, m1i, nn) || (k == 0 && l == m1),
                indx@.len() == k,
                forall|t: int| 0 <= t < k ==> 1 <= #[trigger] indx@[t] <= n,
                forall|t: int|
                    0 <= t < k ==> #[trigger] indx@[t] == bd_imax::<T>(ad, nn, mmi, m1i, t) + 1,
                d == bd_parity::<T>(ad, nn, mmi, m1i, k as int),
                forall|r2: int, c2: int|
                    0 <= r2 < n && 0 <= c2 < mm ==> #[trigger] au.at(r2, c2) == bd_entry(
                        ad,
                        nn,
                        mmi,
                        m1i,
                        k as int,
                        r2,
                        c2,
                    ),
                forall|r2: int, c2: int|
                    0 <= r2 < n && 0 <= c2 < mm ==> #[trigger] al.at(r2, c2) == bd_al(
                        ad,
                        nn,
                        mmi,
                        m1i,
                        k as int,
                        r2,
                        c2,
                    ),
            decreases n - k,
        {
            let ghost kk = k as int;
            let mut dum = au.get(k, 0);
            let mut i: usize = k;
            if l < n {
                l += 1;
            }
            proof {
                assert(l == ban_fwd_l(kk, m1i, nn));
            }
            let mut j: usize = k + 1;
            while j < l
                invariant
                    au.wf(),
                    au.nrows == n,
                    au.ncols == mm,
                    nn == n as int,
                    mmi == mm as int,
                    m1i == m1 as int,
                    mm == m1 + m2 + 1,
                    kk == k as int,
                    k < n,
                    l <= n,
                    k <= i < n,
                    k + 1 <= j <= l || j == k + 1,
                    forall|r2: int, c2: int|
                        0 <= r2 < n && 0 <= c2 < mm ==> #[trigger] au.at(r2, c2) == bd_entry(
                            ad,
                            nn,
                            mmi,
                            m1i,
                            kk,
                            r2,
                            c2,
                        ),
                    (dum, i as int) == bd_pivot::<T>(ad, nn, mmi, m1i, kk, j as int),
                decreases l - j,
            {
                if dum.abs().lt(au.get(j, 0).abs()) {
                    dum = au.get(j, 0);
                    i = j;
                }
                j += 1;
            }
            proof {
                lemma_bd_pivot_bounds::<T>(ad, nn, mmi, m1i, kk, l as int);
                assert(i as int == bd_imax::<T>(ad, nn, mmi, m1i, kk));
            }
            indx.push(i + 1);
            if dum.abs().lt(tiny) {
                dum = tiny;
            }
            if i != k {
                d = d.neg();
                au.swap_rows(k, i);
            }
            proof {
                let im = bd_imax::<T>(ad, nn, mmi, m1i, kk);
                assert forall|r2: int, c2: int|
                    0 <= r2 < n && 0 <= c2 < mm implies #[trigger] au.at(r2, c2) == bd_swapped(
                    ad,
                    nn,
                    mmi,
                    m1i,
                    kk,
                    r2,
                    c2,
                ) by {}
                assert(d == bd_parity::<T>(ad, nn, mmi, m1i, kk + 1));
            }
            let mut i2: usize = k + 1;
            while i2 < l
                invariant
                    au.wf(),
                    au.nrows == n,
                    au.ncols == mm,
                    al.wf(),
                    al.nrows == n,
                    al.ncols == mm,
                    mm == m1 + m2 + 1,
                    nn == n as int,
                    mmi == mm as int,
                    m1i == m1 as int,
                    kk == k as int,
                    k < n,
                    l <= n,
                    l == ban_fwd_l(kk, m1i, nn),
                    k + 1 <= i2 <= l || i2 == k + 1,
                    forall|r2: int, c2: int|
                        0 <= r2 < n && 0 <= c2 < mm ==> #[trigger] au.at(r2, c2) == (if kk < r2
                            && r2 < i2 {
                            bd_entry(ad, nn, mmi, m1i, kk + 1, r2, c2)
                        } else {
                            bd_swapped(ad, nn, mmi, m1i, kk, r2, c2)
                        }),
                    forall|r2: int, c2: int|
                        0 <= r2 < n && 0 <= c2 < mm ==> #[trigger] al.at(r2, c2) == (if r2 == kk
                            && 0 <= c2 < i2 - k - 1 {
                            bd_al(ad, nn, mmi, m1i, kk + 1, r2, c2)
                        } else {
                            bd_al(ad, nn, mmi, m1i, kk, r2, c2)
                        }),
                decreases l - i2,
            {
                let dum2 = au.get(i2, 0).div(au.get(k, 0));
                al.set(k, i2 - k - 1, dum2);
                proof {
                    assert(bd_al(ad, nn, mmi, m1i, kk + 1, kk, i2 - k - 1) == dum2);
                }
                let mut j2: usize = 1;
                while j2 < mm
                    invariant
                        au.wf(),
                        au.nrows == n,
                        au.ncols == mm,
                        nn == n as int,
                        mmi == mm as int,
                        m1i == m1 as int,
                        kk == k as int,
                        k < n,
                        i2 < n,
                        kk < i2 < l,
                        l == ban_fwd_l(kk, m1i, nn),
                        1 <= j2 <= mm,
                        dum2 == bd_swapped(ad, nn, mmi, m1i, kk, i2 as int, 0).spec_div(
                            bd_swapped(ad, nn, mmi, m1i, kk, kk, 0),
                        ),
                        forall|r2: int, c2: int|
                            0 <= r2 < n && 0 <= c2 < mm && r2 != i2 ==> #[trigger] au.at(r2, c2)
                                == (if kk < r2 && r2 < i2 {
                                bd_entry(ad, nn, mmi, m1i, kk + 1, r2, c2)
                            } else {
                                bd_swapped(ad, nn, mmi, m1i, kk, r2, c2)
                            }),
                        forall|c2: int|
                            0 <= c2 < j2 - 1 ==> #[trigger] au.at(i2 as int, c2) == bd_entry(
                                ad,
                                nn,
                                mmi,
                                m1i,
                                kk + 1,
                                i2 as int,
                                c2,
                            ),
                        forall|c2: int|
                            j2 - 1 <= c2 < mm ==> #[trigger] au.at(i2 as int, c2) == bd_swapped(
                                ad,
                                nn,
                                mmi,
                                m1i,
                                kk,
                                i2 as int,
                                c2,
                            ),
                    decreases mm - j2,
                {
                    au.set(i2, j2 - 1, au.get(i2, j2).sub(dum2.mul(au.get(k, j2))));
                    j2 += 1;
                }
                au.set(i2, mm - 1, T::zero());
                i2 += 1;
            }
            proof {
                assert forall|r2: int, c2: int|
                    0 <= r2 < n && 0 <= c2 < mm implies #[trigger] au.at(r2, c2) == bd_entry(
                    ad,
                    nn,
                    mmi,
                    m1i,
                    kk + 1,
                    r2,
                    c2,
                ) by {}
                assert forall|r2: int, c2: int|
                    0 <= r2 < n && 0 <= c2 < mm implies #[trigger] al.at(r2, c2) == bd_al(
                    ad,
                    nn,
                    mmi,
                    m1i,
                    kk + 1,
                    r2,
                    c2,
                ) by {}
            }
            k += 1;
        }

        Bandec { n, m1, m2, au, al, indx, d }
    }

    /// Solves the band system for one right-hand side: applies the
    /// recorded pivot permutation, then banded forward and back
    /// substitution, writing the solution over `x`. The result is pinned
    /// to the [`ban_fwd`] and [`ban_back`] recurrences over the stored
    /// factors.
    pub fn solve(&self, b: &Vec<T>, x: &mut Vec<T>)
        requires
            self.wf(),
            b@.len() == self.n,
            old(x)@.len() == self.n,
        ensures
            final(x)@.len() == self.n,
            final(x)@ == ban_back(
                self.au.data@,
                (self.m1 + self.m2 + 1) as int,
                ban_fwd(
                    self.al.data@,
                    (self.m1 + self.m2 + 1) as int,
                    self.m1 as int,
                    self.indx@,
                    self.n as int,
                    b@,
                    self.n as int,
                ),
                self.n as int,
                0,
            ),
    {
        let n = self.n;
        let mm = self.m1 + self.m2 + 1;
        let ghost ald = self.al.data@;
        let ghost aud = self.au.data@;
        let mut l = self.m1;
        let mut k: usize = 0;
        while k < n
            invariant
                n == self.n,
                b@.len() == n,
                x@.len() == n,
                k <= n,
                forall|t: int| 0 <= t < k ==> x@[t] == b@[t],
            decreases n - k,
        {
            x[k] = b[k];
            k += 1;
        }
        proof {
            assert(x@ =~= b@);
        }
        let mut k: usize = 0;
        while k < n
            invariant
                self.wf(),
                n == self.n,
                mm == self.m1 + self.m2 + 1,
                ald == self.al.data@,
                x@.len() == n,
                k <= n,
                k <= l <= n,
                l <= k + self.m1,
                l == ban_fwd_l(k as int - 1, self.m1 as int, n as int) || (k == 0 && l
                    == self.m1),
                x@ == ban_fwd(ald, mm as int, self.m1 as int, self.indx@, n as int, b@, k as int),
            decreases n - k,
        {
            let j = self.indx[k] - 1;
            if j != k {
                let tmp = x[j];
                let tmp2 = x[k];
                x[j] = tmp2;
                x[k] = tmp;
            }
            if l < n {
                l += 1;
            }
            let ghost s1 = x@;
            let mut j2: usize = k + 1;
            while j2 < l
                invariant
                    self.wf(),
                    n == self.n,
                    mm == self.m1 + self.m2 + 1,
                    ald == self.al.data@,
                    x@.len() == n,
                    k < n,
                    l <= n,
                    l <= k + self.m1 + 1,
                    l == ban_fwd_l(k as int, self.m1 as int, n as int),
                    k + 1 <= j2 <= l || j2 == k + 1,
                    x@ == ban_axpy(ald, mm as int, s1, k as int, j2 as int),
                    s1.len() == n,
                decreases l - j2,
            {
                let temp = self.al.get(k, j2 - k - 1).mul(x[k]);
                x[j2] = x[j2].sub(temp);
                j2 += 1;
            }
            k += 1;
        }
        let ghost xf = ban_fwd(ald, mm as int, self.m1 as int, self.indx@, n as int, b@, n as int);
        let mut l: usize = 1;
        let mut i: usize = n;
        while i > 0
            invariant
                self.wf(),
                n == self.n,
                mm == self.m1 + self.m2 + 1,
                aud == self.au.data@,
                x@.len() == n,
                xf.len() == n,
                i <= n,
                1 <= l <= mm,
                l <= n - i + 1,
                l == ban_back_l(i as int - 1, n as int, mm as int) || (i == n && l == 1),
                x@ == ban_back(aud, mm as int, xf, n as int, i as int),
            decreases i,
        {
            i -= 1;
            let mut dum = x[i];
            let ghost scur = x@;
            let mut k2: usize = 1;
            while k2 < l
                invariant
                    self.wf(),
                    n == self.n,
                    mm == self.m1 + self.m2 + 1,
                    aud == self.au.data@,
                    x@ == scur,
                    x@.len() == n,
                    i < n,
                    l <= mm,
                    l <= n - i,
                    1 <= k2 <= l || k2 == 1,
                    dum == ban_back_sum(aud, mm as int, scur, i as int, k2 as int),
                decreases l - k2,
            {
                dum = dum.sub(self.au.get(i, k2).mul(x[k2 + i]));
                k2 += 1;
            }
            x[i] = dum.div(self.au.get(i, 0));
            if l < mm {
                l += 1;
            }
        }
    }
}

} // verus!
