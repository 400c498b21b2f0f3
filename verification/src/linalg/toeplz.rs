use vstd::prelude::*;

use crate::linalg::LinAlgError;
use crate::scalar::MatLinAlgBound;

verus! {

/// The solution vector at the start of recursion step `m`: step `m - 1`
/// has appended its new component and folded it back into the earlier
/// ones through the backward vector. Entries beyond `m` still hold the
/// caller's initial contents.
pub open spec fn tz_x<T: MatLinAlgBound>(r: Seq<T>, y: Seq<T>, n: int, x0: Seq<T>, m: int) -> Seq<T>
    decreases m, 2int,
        when 0 <= m
{
    if m <= 0 {
        x0.update(0, y[0].spec_div(r[n - 1]))
    } else {
        let xs = tz_x(r, y, n, x0, m - 1);
        let g = tz_g(r, n, m - 1);
        let xnew = tz_sxn(r, y, n, x0, m - 1).spec_div(tz_sd(r, n, m - 1));
        let x1 = xs.update(m, xnew);
        Seq::new(
            x1.len(),
            |j: int|
                if 0 <= j < m {
                    x1[j].spec_sub(xnew.spec_mul(g[m - 1 - j]))
                } else {
                    x1[j]
                },
        )
    }
}

/// The forward auxiliary vector at the start of recursion step `m`.
pub open spec fn tz_g<T: MatLinAlgBound>(r: Seq<T>, n: int, m: int) -> Seq<T>
    decreases m, 2int,
        when 0 <= m
{
    if m <= 0 {
        Seq::new((n - 1) as nat, |j: int| T::spec_zero()).update(
            0,
            r[n - 2].spec_div(r[n - 1]),
        )
    } else {
        let g = tz_g(r, n, m - 1);
        let h = tz_h(r, n, m - 1);
        let gnew = tz_sgn(r, n, m - 1).spec_div(tz_sgd(r, n, m - 1));
        let hnew = tz_shn(r, n, m - 1).spec_div(tz_sd(r, n, m - 1));
        let g1 = g.update(m, gnew);
        let h1 = h.update(m, hnew);
        Seq::new(
            g1.len(),
            |idx: int|
                if 0 <= idx && idx <= m - 1 && (2 * idx < m || 2 * (m - 1 - idx) < m) {
                    g1[idx].spec_sub(gnew.spec_mul(h1[m - 1 - idx]))
                } else {
                    g1[idx]
                },
        )
    }
}

/// The backward auxiliary vector at the start of recursion step `m`.
pub open spec fn tz_h<T: MatLinAlgBound>(r: Seq<T>, n: int, m: int) -> Seq<T>
    decreases m, 2int,
        when 0 <= m
{
    if m <= 0 {
        Seq::new((n - 1) as nat, |j: int| T::spec_zero()).update(0, r[n].spec_div(r[n - 1]))
    } else {
        let h = tz_h(r, n, m - 1);
        let gnew = tz_sgn(r, n, m - 1).spec_div(tz_sgd(r, n, m - 1));
        let hnew = tz_shn(r, n, m - 1).spec_div(tz_sd(r, n, m - 1));
        let h1 = h.update(m, hnew);
        Seq::new(
            h1.len(),
            |idx: int|
                if 0 <= idx && idx <= m - 1 && (2 * idx < m || 2 * (m - 1 - idx) < m) {
                    h1[idx].spec_sub(hnew.spec_mul(h1[m - 1 - idx]))
                } else {
                    h1[idx]
                },
        )
    }
}

/// The numerator fold of step `m` for the new solution component.
pub open spec fn tz_sxn<T: MatLinAlgBound>(
    r: Seq<T>,
    y: Seq<T>,
    n: int,
    x0: Seq<T>,
    m: int,
) -> T
    decreases m, 3int,
        when 0 <= m
{
    tz_sxn_fold(r, y, n, tz_x(r, y, n, x0, m), m, m + 1)
}

/// The fold-left sum `-y[m+1] + sum r[n-1+m+1-j] * x[j]` over `j < k`.
pub open spec fn tz_sxn_fold<T: MatLinAlgBound>(
    r: Seq<T>,
    y: Seq<T>,
    n: int,
    x: Seq<T>,
    m: int,
    k: int,
) -> T
    decreases k,
{
    if k <= 0 {
        y[m + 1].spec_neg()
    } else {
        tz_sxn_fold(r, y, n, x, m, k - 1).spec_add(r[n + m - k + 1].spec_mul(x[k - 1]))
    }
}

/// The denominator fold of step `m` for the new solution component.
pub open spec fn tz_sd<T: MatLinAlgBound>(r: Seq<T>, n: int, m: int) -> T
    decreases m, 3int,
        when 0 <= m
{
    tz_sd_fold(r, n, tz_g(r, n, m), m, m + 1)
}

/// The fold-left sum `-r[n-1] + sum r[n-1+m+1-j] * g[m-j]` over `j < k`.
pub open spec fn tz_sd_fold<T: MatLinAlgBound>(r: Seq<T>, n: int, g: Seq<T>, m: int, k: int) -> T
    decreases k,
{
    if k <= 0 {
        r[n - 1].spec_neg()
    } else {
        tz_sd_fold(r, n, g, m, k - 1).spec_add(r[n + m - k + 1].spec_mul(g[m - k + 1]))
    }
}

/// The forward numerator fold of step `m`.
pub open spec fn tz_sgn<T: MatLinAlgBound>(r: Seq<T>, n: int, m: int) -> T
    decreases m, 3int,
        when 0 <= m
{
    tz_sgn_fold(r, n, tz_g(r, n, m), m, m + 1)
}

/// The fold-left sum `-r[n-2-m-1] + sum r[n-1+j-m-1] * g[j]` over `j < k`.
pub open spec fn tz_sgn_fold<T: MatLinAlgBound>(r: Seq<T>, n: int, g: Seq<T>, m: int, k: int) -> T
    decreases k,
{
    if k <= 0 {
        r[n - m - 3].spec_neg()
    } else {
        tz_sgn_fold(r, n, g, m, k - 1).spec_add(r[n + k - m - 3].spec_mul(g[k - 1]))
    }
}

/// The backward numerator fold of step `m`.
pub open spec fn tz_shn<T: MatLinAlgBound>(r: Seq<T>, n: int, m: int) -> T
    decreases m, 3int,
        when 0 <= m
{
    tz_shn_fold(r, n, tz_h(r, n, m), m, m + 1)
}

/// The fold-left sum `-r[n+m] + sum r[n-1+m+1-j] * h[j]` over `j < k`.
pub open spec fn tz_shn_fold<T: MatLinAlgBound>(r: Seq<T>, n: int, h: Seq<T>, m: int, k: int) -> T
    decreases k,
{
    if k <= 0 {
        r[n + m + 1].spec_neg()
    } else {
        tz_shn_fold(r, n, h, m, k - 1).spec_add(r[n + m - k + 1].spec_mul(h[k - 1]))
    }
}

/// The forward denominator fold of step `m`.
pub open spec fn tz_sgd<T: MatLinAlgBound>(r: Seq<T>, n: int, m: int) -> T
    decreases m, 3int,
        when 0 <= m
{
    tz_sgd_fold(r, n, tz_h(r, n, m), m, m + 1)
}

/// The fold-left sum `-r[n-1] + sum r[n-1+j-m-1] * h[m-j]` over `j < k`.
pub open spec fn tz_sgd_fold<T: MatLinAlgBound>(r: Seq<T>, n: int, h: Seq<T>, m: int, k: int) -> T
    decreases k,
{
    if k <= 0 {
        r[n - 1].spec_neg()
    } else {
        tz_sgd_fold(r, n, h, m, k - 1).spec_add(r[n + k - m - 3].spec_mul(h[m - k + 1]))
    }
}

/// Step `m` of the recursion hits a divisor under the threshold: the
/// first fold's divisor always, the second's only on steps that are not
/// the last.
pub open spec fn tz_step_degenerate<T: MatLinAlgBound>(r: Seq<T>, n: int, m: int) -> bool {
    ||| tz_sd(r, n, m).spec_abs().spec_lt(T::spec_pow10_neg(7))
    ||| (m + 2 != n && tz_sgd(r, n, m).spec_abs().spec_lt(T::spec_pow10_neg(7)))
}

/// Some step of the recursion hits a divisor under the threshold: the
/// condition under which the solve reports a singular principal minor.
pub open spec fn tz_degenerate<T: MatLinAlgBound>(r: Seq<T>, n: int) -> bool {
    exists|m: int| 0 <= m < n - 1 && tz_step_degenerate(r, n, m)
}

/// Solves the Toeplitz system whose first column is `r[n-1..2n-1]` and
/// first row `r[n-1..0]` (reversed), for right-hand side `y`, by the
/// Levinson-type recursion over forward and backward auxiliary vectors;
/// writes the solution over `x`. Fails with `ZeroDiagonalElemement`
/// exactly when the central coefficient's magnitude is below the fixed
/// threshold, and with `SingularPrincipleMinor` exactly when a recursive
/// divisor underflows it; on success `x` is pinned to the [`tz_x`]
/// recurrence. The recursion provably terminates at the last step: the
/// `ShouldNotArriveHere` condition is unreachable.
pub fn toeplz<T: MatLinAlgBound>(r: &Vec<T>, x: &mut Vec<T>, y: &Vec<T>) -> (res: Result<
    (),
    LinAlgError,
>)
    requires
        y@.len() >= 1,
        old(x)@.len() == y@.len(),
        r@.len() == 2 * y@.len() - 1,
    ensures
        final(x)@.len() == y@.len(),
        (res matches Err(e) && e == LinAlgError::ZeroDiagonalElemement(0usize)) <==> r@[y@.len()
            - 1].spec_abs().spec_lt(T::spec_pow10_neg(7)),
        (res matches Err(e) && e == LinAlgError::SingularPrincipleMinor()) <==> (!r@[y@.len()
            - 1].spec_abs().spec_lt(T::spec_pow10_neg(7)) && tz_degenerate::<T>(
            r@,
            y@.len() as int,
        )),
        (res is Ok) <==> (!r@[y@.len() - 1].spec_abs().spec_lt(T::spec_pow10_neg(7))
            && !tz_degenerate::<T>(r@, y@.len() as int)),
        res is Ok ==> final(x)@ == tz_x(r@, y@, y@.len() as int, old(x)@, y@.len() as int - 1),
{
    proof {
        vstd::std_specs::vec::axiom_spec_len(r);
    }
    let n = y.len();
    let n1 = n - 1;
    let ghost nn = n as int;
    let ghost rd = r@;
    let ghost yd = y@;
    let ghost x0 = x@;
    if r[n1].abs().lt(T::pow10_neg(7)) {
        return Err(LinAlgError::ZeroDiagonalElemement(0));
    }

    x[0] = y[0].div(r[n1]);
    if n1 == 0 {
        proof {
            assert(x@ =~= tz_x(rd, yd, nn, x0, 0));
            assert(x@ == tz_x(rd, yd, nn, x0, nn - 1));
        }
        return Ok(());
    }
    let mut g: Vec<T> = crate::matrix::vec_fill(T::zero(), n1);
    let mut h: Vec<T> = crate::matrix::vec_fill(T::zero(), n1);
    g[0] = r[n1 - 1].div(r[n1]);
    h[0] = r[n1 + 1].div(r[n1]);
    proof {
        assert(x@ =~= tz_x(rd, yd, nn, x0, 0));
        assert(g@ =~= tz_g::<T>(rd, nn, 0));
        assert(h@ =~= tz_h::<T>(rd, nn, 0));
    }
    let mut m: usize = 0;
    while m < n
        invariant
            n == yd.len(),
            n1 == n - 1,
            nn == n as int,
            rd == r@,
            yd == y@,
            1 <= n1,
            x@.len() == n,
            x0.len() == n,
            x0 == old(x)@,
            r@.len() == 2 * n - 1,
            g@.len() == n1,
            h@.len() == n1,
            m < n1,
            2 * n - 1 <= usize::MAX,
            !rd[nn - 1].spec_abs().spec_lt(T::spec_pow10_neg(7)),
            x@ == tz_x(rd, yd, nn, x0, m as int),
            g@ == tz_g::<T>(rd, nn, m as int),
            h@ == tz_h::<T>(rd, nn, m as int),
            forall|m2: int| 0 <= m2 < m ==> !tz_step_degenerate::<T>(rd, nn, m2),
        decreases n - m,
    {
        let ghost mm = m as int;
        let m1 = m + 1;
        let mut sxn = y[m1].neg();
        let mut sd = r[n1].neg();
        let mut j: usize = 0;
        while j < m + 1
            invariant
                n == yd.len(),
                n1 == n - 1,
                nn == n as int,
                rd == r@,
                yd == y@,
                mm == m as int,
                x@.len() == n,
                r@.len() == 2 * n - 1,
                g@.len() == n1,
                m < n1,
                m1 == m + 1,
                2 * n - 1 <= usize::MAX,
                j <= m + 1,
                sxn == tz_sxn_fold(rd, yd, nn, x@, mm, j as int),
                sd == tz_sd_fold(rd, nn, g@, mm, j as int),
            decreases m + 1 - j,
        {
            sxn = sxn.add(r[n1 + m1 - j].mul(x[j]));
            sd = sd.add(r[n1 + m1 - j].mul(g[m - j]));
            j += 1;
        }
        proof {
            assert(sxn == tz_sxn(rd, yd, nn, x0, mm));
            assert(sd == tz_sd::<T>(rd, nn, mm));
        }
        if sd.abs().lt(T::pow10_neg(7)) {
            proof {
                assert(tz_step_degenerate::<T>(rd, nn, mm));
                assert(tz_degenerate::<T>(rd, nn));
            }
            return Err(LinAlgError::SingularPrincipleMinor());
        }
        let xnew = sxn.div(sd);
        x[m1] = xnew;
        let ghost x1 = x@;
        let mut j: usize = 0;
        while j < m + 1
            invariant
                n == yd.len(),
                n1 == n - 1,
                nn == n as int,
                rd == r@,
                mm == m as int,
                x@.len() == n,
                x1.len() == n,
                g@.len() == n1,
                m < n1,
                m1 == m + 1,
                j <= m + 1,
                xnew == x1[mm + 1],
                g@ == tz_g::<T>(rd, nn, mm),
                forall|t: int|
                    0 <= t < j ==> x@[t] == x1[t].spec_sub(xnew.spec_mul(g@[mm - t])),
                forall|t: int| j <= t < n ==> x@[t] == x1[t],
            decreases m + 1 - j,
        {
            let tmp = x[m1].mul(g[m - j]);
            x[j] = x[j].sub(tmp);
            j += 1;
        }
        proof {
            assert(x@ =~= tz_x(rd, yd, nn, x0, mm + 1));
        }
        if m1 == n1 {
            proof {
                assert forall|m2: int| 0 <= m2 < nn - 1 implies !tz_step_degenerate::<T>(
                    rd,
                    nn,
                    m2,
                ) by {
                    if m2 == mm {
                        assert(mm + 2 == nn);
                        assert(!tz_sd::<T>(rd, nn, mm).spec_abs().spec_lt(T::spec_pow10_neg(7)));
                    }
                }
                assert(!tz_degenerate::<T>(rd, nn));
            }
            return Ok(());
        }
        let mut sgn = r[n1 - m1 - 1].neg();
        let mut shn = r[n1 + m1 + 1].neg();
        let mut sgd = r[n1].neg();
        let mut j: usize = 0;
        while j < m + 1
            invariant
                n == yd.len(),
                n1 == n - 1,
                nn == n as int,
                rd == r@,
                mm == m as int,
                r@.len() == 2 * n - 1,
                g@.len() == n1,
                h@.len() == n1,
                m < n1,
                m1 == m + 1,
                m1 < n1,
                2 * n - 1 <= usize::MAX,
                j <= m + 1,
                g@ == tz_g::<T>(rd, nn, mm),
                h@ == tz_h::<T>(rd, nn, mm),
                sgn == tz_sgn_fold(rd, nn, g@, mm, j as int),
                shn == tz_shn_fold(rd, nn, h@, mm, j as int),
                sgd == tz_sgd_fold(rd, nn, h@, mm, j as int),
            decreases m + 1 - j,
        {
            sgn = sgn.add(r[n1 + j - m1].mul(g[j]));
            shn = shn.add(r[n1 + m1 - j].mul(h[j]));
            sgd = sgd.add(r[n1 + j - m1].mul(h[m - j]));
            j += 1;
        }
        proof {
            assert(sgn == tz_sgn::<T>(rd, nn, mm));
            assert(shn == tz_shn::<T>(rd, nn, mm));
            assert(sgd == tz_sgd::<T>(rd, nn, mm));
        }
        if sgd.abs().lt(T::pow10_neg(7)) {
            proof {
                assert(mm + 2 != nn);
                assert(tz_step_degenerate::<T>(rd, nn, mm));
                assert(tz_degenerate::<T>(rd, nn));
            }
            return Err(LinAlgError::SingularPrincipleMinor());
        }
        let mut k: usize = m;
        let m2 = (m + 2) / 2;
        let gnew = sgn.div(sgd);
        let hnew = shn.div(sd);
        g[m1] = gnew;
        h[m1] = hnew;
        let pp = g[m1];
        let qq = h[m1];
        let ghost g1 = g@;
        let ghost h1 = h@;
        let mut j: usize = 0;
        while j < m2
            invariant
                nn == n as int,
                rd == r@,
                mm == m as int,
                g@.len() == n1,
                h@.len() == n1,
                g1.len() == n1,
                h1.len() == n1,
                m < n1,
                m1 == m + 1,
                m1 < n1,
                m2 == (m + 2) / 2,
                j <= m ==> k == m - j,
                j > m ==> k == 0,
                j <= m2,
                pp == g1[mm + 1],
                qq == h1[mm + 1],
                forall|idx: int|
                    0 <= idx < n1 && idx <= mm && (idx < j || mm - idx < j) ==> #[trigger] g@[idx]
                        == g1[idx].spec_sub(pp.spec_mul(h1[mm - idx])),
                forall|idx: int|
                    0 <= idx < n1 && !(idx <= mm && (idx < j || mm - idx < j)) ==> #[trigger] g@[idx]
                        == g1[idx],
                forall|idx: int|
                    0 <= idx < n1 && idx <= mm && (idx < j || mm - idx < j) ==> #[trigger] h@[idx]
                        == h1[idx].spec_sub(qq.spec_mul(h1[mm - idx])),
                forall|idx: int|
                    0 <= idx < n1 && !(idx <= mm && (idx < j || mm - idx < j)) ==> #[trigger] h@[idx]
                        == h1[idx],
            decreases m2 - j,
        {
            let pt1 = g[j];
            let pt2 = g[k];
            let qt1 = h[j];
            let qt2 = h[k];
            g[j] = pt1.sub(pp.mul(qt2));
            g[k] = pt2.sub(pp.mul(qt1));
            h[j] = qt1.sub(qq.mul(qt2));
            h[k] = qt2.sub(qq.mul(qt1));
            if k > 0 {
                k -= 1;
            }
            j += 1;
        }
        proof {
            assert(g@ =~= tz_g::<T>(rd, nn, mm + 1));
            assert(h@ =~= tz_h::<T>(rd, nn, mm + 1));
        }
        m += 1;
    }
    Err(LinAlgError::ShouldNotArriveHere())
}

} // verus!
