use vstd::prelude::*;
use vstd::string::StringExecFns;

use crate::linalg::LinAlgError;
use crate::matrix::ent;
use crate::matrix::vec_dup;
use crate::matrix::Matrix;
use crate::scalar::MatLinAlgBound;

verus! {

/// The fold-left sum of the first `k` products `qt[i][j] * b[j]`: row `i`
/// of the product `Q^T b`.
pub open spec fn qr_qt_sum<T: MatLinAlgBound>(qtd: Seq<T>, n: int, b: Seq<T>, i: int, k: int) -> T
    decreases k,
{
    if k <= 0 {
        T::spec_zero()
    } else {
        qr_qt_sum(qtd, n, b, i, k - 1).spec_add(ent(qtd, n, i, k - 1).spec_mul(b[k - 1]))
    }
}

/// The back-substitution inner sum for row `i` of `R x = b`: `b[i]` minus
/// the fold-left sum of `R[i][t] * x[t]` for `i < t < j`, where `x` is the
/// solution being built from the bottom up.
pub open spec fn qr_rsolve_sum<T: MatLinAlgBound>(rd: Seq<T>, n: int, b: Seq<T>, i: int, j: int) -> T
    decreases n - i, 0int, j,
        when 0 <= i && i < n && j <= n
{
    if j <= i + 1 {
        b[i]
    } else {
        qr_rsolve_sum(rd, n, b, i, j - 1).spec_sub(
            ent(rd, n, i, j - 1).spec_mul(qr_rsolve_val(rd, n, b, j - 1)),
        )
    }
}

/// Entry `i` of the solution of the triangular system `R x = b`.
pub open spec fn qr_rsolve_val<T: MatLinAlgBound>(rd: Seq<T>, n: int, b: Seq<T>, i: int) -> T
    decreases n - i, 1int, 0int,
        when 0 <= i && i < n
{
    qr_rsolve_sum(rd, n, b, i, n).spec_div(ent(rd, n, i, i))
}

/// The working matrix entry after `t` Householder columns have been
/// processed: a degenerate column leaves the matrix untouched, any other
/// is scaled, its diagonal absorbs the reflection coefficient, and the
/// columns to its right lose their projection on it.
pub open spec fn qr_r<T: MatLinAlgBound>(ad: Seq<T>, n: int, t: int, i: int, j: int) -> T
    decreases t, 0int, 0int,
        when 0 <= t
{
    if t <= 0 {
        ent(ad, n, i, j)
    } else if qr_small::<T>(ad, n, t - 1) {
        qr_r(ad, n, t - 1, i, j)
    } else if j > t - 1 && i >= t - 1 {
        qr_r2(ad, n, t - 1, i, j).spec_sub(
            qr_tau(ad, n, t - 1, j).spec_mul(qr_r2(ad, n, t - 1, i, t - 1)),
        )
    } else {
        qr_r2(ad, n, t - 1, i, j)
    }
}

/// The running maximum absolute value the scale scan of step `t` has
/// accumulated over rows `t..i` of column `t`.
pub open spec fn qr_scale_fold<T: MatLinAlgBound>(ad: Seq<T>, n: int, t: int, i: int) -> T
    decreases t, 1int, (if i - t >= 0 { i - t } else { 0int }),
        when 0 <= t
{
    if i <= t {
        T::spec_zero()
    } else {
        let prev = qr_scale_fold(ad, n, t, i - 1);
        let v = qr_r(ad, n, t, i - 1, t).spec_abs();
        if prev.spec_lt(v) {
            v
        } else {
            prev
        }
    }
}

/// The scale of column `t`: its largest absolute entry on or below the
/// diagonal.
pub open spec fn qr_scale<T: MatLinAlgBound>(ad: Seq<T>, n: int, t: int) -> T
    decreases t, 2int, 0int,
        when 0 <= t
{
    qr_scale_fold::<T>(ad, n, t, n)
}

/// Column `t` is degenerate: its scale falls below the fixed threshold,
/// which marks the factorization singular.
pub open spec fn qr_small<T: MatLinAlgBound>(ad: Seq<T>, n: int, t: int) -> bool
    decreases t, 3int, 0int,
        when 0 <= t
{
    qr_scale::<T>(ad, n, t).spec_lt(T::spec_pow10_neg(5))
}

/// The working matrix of step `t` with its column scaled.
pub open spec fn qr_r1<T: MatLinAlgBound>(ad: Seq<T>, n: int, t: int, i: int, j: int) -> T
    decreases t, 4int, 0int,
        when 0 <= t
{
    if i >= t && j == t {
        qr_r(ad, n, t, i, j).spec_div(qr_scale::<T>(ad, n, t))
    } else {
        qr_r(ad, n, t, i, j)
    }
}

/// The fold-left sum of squares of the scaled column over rows `t..i`.
pub open spec fn qr_sumsq_fold<T: MatLinAlgBound>(ad: Seq<T>, n: int, t: int, i: int) -> T
    decreases t, 5int, (if i - t >= 0 { i - t } else { 0int }),
        when 0 <= t
{
    if i <= t {
        T::spec_zero()
    } else {
        qr_sumsq_fold(ad, n, t, i - 1).spec_add(
            qr_r1(ad, n, t, i - 1, t).spec_mul(qr_r1(ad, n, t, i - 1, t)),
        )
    }
}

/// The reflection coefficient of step `t`: the scaled column's norm with
/// the sign of its diagonal entry.
pub open spec fn qr_sigma<T: MatLinAlgBound>(ad: Seq<T>, n: int, t: int) -> T
    decreases t, 6int, 0int,
        when 0 <= t
{
    qr_sumsq_fold::<T>(ad, n, t, n).spec_sqrt().spec_copysign(qr_r1(ad, n, t, t, t))
}

/// The working matrix of step `t` with the reflection coefficient added
/// into the diagonal of the scaled column.
pub open spec fn qr_r2<T: MatLinAlgBound>(ad: Seq<T>, n: int, t: int, i: int, j: int) -> T
    decreases t, 7int, 0int,
        when 0 <= t
{
    if i == t && j == t {
        qr_r1(ad, n, t, t, t).spec_add(qr_sigma::<T>(ad, n, t))
    } else {
        qr_r1(ad, n, t, i, j)
    }
}

/// The normalization constant of step `t`, zero for a degenerate column.
pub open spec fn qr_cval<T: MatLinAlgBound>(ad: Seq<T>, n: int, t: int) -> T
    decreases t, 8int, 0int,
        when 0 <= t
{
    if qr_small::<T>(ad, n, t) {
        T::spec_zero()
    } else {
        qr_sigma::<T>(ad, n, t).spec_mul(qr_r2(ad, n, t, t, t))
    }
}

/// The diagonal entry step `t` stores aside, zero for a degenerate
/// column.
pub open spec fn qr_dval<T: MatLinAlgBound>(ad: Seq<T>, n: int, t: int) -> T
    decreases t, 8int, 1int,
        when 0 <= t
{
    if qr_small::<T>(ad, n, t) {
        T::spec_zero()
    } else {
        qr_scale::<T>(ad, n, t).spec_neg().spec_mul(qr_sigma::<T>(ad, n, t))
    }
}

/// The fold-left projection sum of column `j` on the reflection vector
/// of step `t`, over rows `t..i`.
pub open spec fn qr_proj_fold<T: MatLinAlgBound>(
    ad: Seq<T>,
    n: int,
    t: int,
    j: int,
    i: int,
) -> T
    decreases t, 9int, (if i - t >= 0 { i - t } else { 0int }),
        when 0 <= t
{
    if i <= t {
        T::spec_zero()
    } else {
        qr_proj_fold(ad, n, t, j, i - 1).spec_add(
            qr_r2(ad, n, t, i - 1, t).spec_mul(qr_r2(ad, n, t, i - 1, j)),
        )
    }
}

/// The reflection multiplier step `t` applies to column `j`.
pub open spec fn qr_tau<T: MatLinAlgBound>(ad: Seq<T>, n: int, t: int, j: int) -> T
    decreases t, 10int, 0int,
        when 0 <= t
{
    qr_proj_fold::<T>(ad, n, t, j, n).spec_div(qr_cval::<T>(ad, n, t))
}

/// Some of the first `t` columns was degenerate.
pub open spec fn qr_sing<T: MatLinAlgBound>(ad: Seq<T>, n: int, t: int) -> bool
    decreases t, 11int, 0int,
        when 0 <= t
{
    if t <= 0 {
        false
    } else {
        qr_sing::<T>(ad, n, t - 1) || qr_small::<T>(ad, n, t - 1)
    }
}

/// The last diagonal entry left after all reflection steps.
pub open spec fn qr_d_last<T: MatLinAlgBound>(ad: Seq<T>, n: int) -> T {
    qr_r(ad, n, n - 1, n - 1, n - 1)
}

/// The factorization is marked singular: a degenerate column was met or
/// the final diagonal entry is below the threshold.
pub open spec fn qr_sing_final<T: MatLinAlgBound>(ad: Seq<T>, n: int) -> bool {
    qr_sing::<T>(ad, n, n - 1) || qr_d_last::<T>(ad, n).spec_abs().spec_lt(T::spec_pow10_neg(5))
}

/// Entry `(i, j)` of the stored triangular factor: the set-aside
/// diagonal entries on the diagonal, zeros below it, and the reduced
/// working matrix above it.
pub open spec fn qr_rout<T: MatLinAlgBound>(ad: Seq<T>, n: int, i: int, j: int) -> T {
    if i == j {
        if i == n - 1 {
            qr_d_last::<T>(ad, n)
        } else {
            qr_dval::<T>(ad, n, i)
        }
    } else if j < i {
        T::spec_zero()
    } else {
        qr_r(ad, n, n - 1, i, j)
    }
}

/// Entry `(i, j)` of the accumulated transpose of the orthogonal factor
/// after `t` reflection steps have been folded onto the identity.
pub open spec fn qr_q<T: MatLinAlgBound>(ad: Seq<T>, n: int, t: int, i: int, j: int) -> T
    decreases t, 0int, 0int,
        when 0 <= t
{
    if t <= 0 {
        if i == j {
            T::spec_one()
        } else {
            T::spec_zero()
        }
    } else if T::spec_zero().spec_lt(qr_cval::<T>(ad, n, t - 1).spec_abs()) && i >= t - 1 {
        qr_q(ad, n, t - 1, i, j).spec_sub(
            qr_qsum::<T>(ad, n, t - 1, j).spec_div(qr_cval::<T>(ad, n, t - 1)).spec_mul(
                qr_r(ad, n, n - 1, i, t - 1),
            ),
        )
    } else {
        qr_q(ad, n, t - 1, i, j)
    }
}

/// The fold-left projection of column `j` of the accumulating factor on
/// the stored reflection vector of step `t`, over rows `t..i`.
pub open spec fn qr_qsum_fold<T: MatLinAlgBound>(
    ad: Seq<T>,
    n: int,
    t: int,
    j: int,
    i: int,
) -> T
    decreases t, 1int, (if i - t >= 0 { i - t } else { 0int }),
        when 0 <= t
{
    if i <= t {
        T::spec_zero()
    } else {
        qr_qsum_fold(ad, n, t, j, i - 1).spec_add(
            qr_r(ad, n, n - 1, i - 1, t).spec_mul(qr_q(ad, n, t, i - 1, j)),
        )
    }
}

/// The full projection the accumulation step `t` applies to column `j`.
pub open spec fn qr_qsum<T: MatLinAlgBound>(ad: Seq<T>, n: int, t: int, j: int) -> T
    decreases t, 2int, 0int,
        when 0 <= t
{
    qr_qsum_fold::<T>(ad, n, t, j, n)
}

/// The cosine and sine the rotation derives from `a` and `b`: computed
/// through the magnitude ratio so that neither square overflows, with
/// the sign copied from the larger operand; a negligible `a` gives the
/// quarter-turn with the sign of `b`.
pub open spec fn rot_coeffs<T: MatLinAlgBound>(a: T, b: T) -> (T, T) {
    let absa = a.spec_abs();
    let absb = b.spec_abs();
    if absa.spec_lt(T::spec_pow10_neg(5)) {
        (
            T::spec_zero(),
            if T::spec_zero().spec_le(b) {
                T::spec_one()
            } else {
                T::spec_one().spec_neg()
            },
        )
    } else if absb.spec_lt(absa) {
        let fact = absb.spec_div(absa);
        let tmp = T::spec_one().spec_div(
            T::spec_one().spec_add(fact.spec_mul(fact)).spec_sqrt(),
        ).spec_copysign(a);
        (tmp, fact.spec_mul(tmp))
    } else {
        let fact = absa.spec_div(absb);
        let tmp = T::spec_one().spec_div(
            T::spec_one().spec_add(fact.spec_mul(fact)).spec_sqrt(),
        ).spec_copysign(b);
        (fact.spec_mul(tmp), tmp)
    }
}

/// The index of the first nonzero entry of the update vector at or
/// after `j`, or zero when none remains: the row from which the update's
/// reduction starts.
pub open spec fn qru_k<T: MatLinAlgBound>(u: Seq<T>, n: int, j: int) -> int
    decreases n - j,
        when 0 <= j
{
    if j >= n {
        0
    } else if !u[j].spec_eq(T::spec_zero()) {
        j
    } else {
        qru_k(u, n, j + 1)
    }
}

/// Slot `idx` of the update vector once the reduction steps `k-1` down
/// to `i` have run: each step folds slot `idx+1`'s magnitude into slot
/// `idx` through the overflow-safe hypotenuse formula.
pub open spec fn qru_w<T: MatLinAlgBound>(u: Seq<T>, n: int, k: int, i: int, idx: int) -> T
    decreases (if k - i >= 0 { k - i } else { 0int }), 0int,
        when 0 <= i
{
    if i >= k {
        u[idx]
    } else if idx == i {
        let awi = qru_w(u, n, k, i + 1, i).spec_abs();
        let awwi = qru_w(u, n, k, i + 1, i + 1).spec_abs();
        if awi.spec_lt(T::spec_pow10_neg(5)) {
            awwi
        } else if awwi.spec_lt(awi) {
            awi.spec_mul(
                T::spec_one().spec_add(awwi.spec_mul(awwi).spec_div(awi.spec_mul(awi))).spec_sqrt(),
            )
        } else {
            awwi.spec_mul(
                T::spec_one().spec_add(awi.spec_mul(awi).spec_div(awwi.spec_mul(awwi))).spec_sqrt(),
            )
        }
    } else {
        qru_w(u, n, k, i + 1, idx)
    }
}

/// The triangular factor once the reduction steps `k-1` down to `i` have
/// rotated it: step `i` mixes rows `i` and `i+1` from column `i` on,
/// with coefficients drawn from the update vector's state.
pub open spec fn qru_r1<T: MatLinAlgBound>(
    rd: Seq<T>,
    u: Seq<T>,
    n: int,
    k: int,
    i: int,
    rr: int,
    cc: int,
) -> T
    decreases (if k - i >= 0 { k - i } else { 0int }), 1int,
        when 0 <= i
{
    if i >= k {
        ent(rd, n, rr, cc)
    } else {
        let a = qru_w(u, n, k, i + 1, i);
        let b = qru_w(u, n, k, i + 1, i + 1).spec_neg();
        if rr == i && cc >= i {
            rot_coeffs(a, b).0.spec_mul(qru_r1(rd, u, n, k, i + 1, i, cc)).spec_sub(
                rot_coeffs(a, b).1.spec_mul(qru_r1(rd, u, n, k, i + 1, i + 1, cc)),
            )
        } else if rr == i + 1 && cc >= i {
            rot_coeffs(a, b).1.spec_mul(qru_r1(rd, u, n, k, i + 1, i, cc)).spec_add(
                rot_coeffs(a, b).0.spec_mul(qru_r1(rd, u, n, k, i + 1, i + 1, cc)),
            )
        } else {
            qru_r1(rd, u, n, k, i + 1, rr, cc)
        }
    }
}

/// The transposed orthogonal factor once the reduction steps `k-1` down
/// to `i` have rotated it, across all its columns.
pub open spec fn qru_q1<T: MatLinAlgBound>(
    qd: Seq<T>,
    u: Seq<T>,
    n: int,
    k: int,
    i: int,
    rr: int,
    cc: int,
) -> T
    decreases (if k - i >= 0 { k - i } else { 0int }), 2int,
        when 0 <= i
{
    if i >= k {
        ent(qd, n, rr, cc)
    } else {
        let a = qru_w(u, n, k, i + 1, i);
        let b = qru_w(u, n, k, i + 1, i + 1).spec_neg();
        if rr == i {
            rot_coeffs(a, b).0.spec_mul(qru_q1(qd, u, n, k, i + 1, i, cc)).spec_sub(
                rot_coeffs(a, b).1.spec_mul(qru_q1(qd, u, n, k, i + 1, i + 1, cc)),
            )
        } else if rr == i + 1 {
            rot_coeffs(a, b).1.spec_mul(qru_q1(qd, u, n, k, i + 1, i, cc)).spec_add(
                rot_coeffs(a, b).0.spec_mul(qru_q1(qd, u, n, k, i + 1, i + 1, cc)),
            )
        } else {
            qru_q1(qd, u, n, k, i + 1, rr, cc)
        }
    }
}

/// The triangular factor with the rank-one row folded in: the reduced
/// update vector's leading slot times `v` is added to row zero.
pub open spec fn qru_r2<T: MatLinAlgBound>(
    rd: Seq<T>,
    u: Seq<T>,
    v: Seq<T>,
    n: int,
    k: int,
    rr: int,
    cc: int,
) -> T {
    if rr == 0 {
        qru_r1(rd, u, n, k, 0, 0, cc).spec_add(qru_w(u, n, k, 0, 0).spec_mul(v[cc]))
    } else {
        qru_r1(rd, u, n, k, 0, rr, cc)
    }
}

/// The triangular factor after the first `t` re-triangularization steps:
/// step `t` mixes rows `t` and `t+1` from column `t` on, with
/// coefficients drawn from its own evolving diagonal and sub-diagonal.
pub open spec fn qru_r3<T: MatLinAlgBound>(
    rd: Seq<T>,
    u: Seq<T>,
    v: Seq<T>,
    n: int,
    k: int,
    t: int,
    rr: int,
    cc: int,
) -> T
    decreases t, 0int,
        when 0 <= t
{
    if t <= 0 {
        qru_r2(rd, u, v, n, k, rr, cc)
    } else {
        let a = qru_r3(rd, u, v, n, k, t - 1, t - 1, t - 1);
        let b = qru_r3(rd, u, v, n, k, t - 1, t, t - 1).spec_neg();
        if rr == t - 1 && cc >= t - 1 {
            rot_coeffs(a, b).0.spec_mul(qru_r3(rd, u, v, n, k, t - 1, t - 1, cc)).spec_sub(
                rot_coeffs(a, b).1.spec_mul(qru_r3(rd, u, v, n, k, t - 1, t, cc)),
            )
        } else if rr == t && cc >= t - 1 {
            rot_coeffs(a, b).1.spec_mul(qru_r3(rd, u, v, n, k, t - 1, t - 1, cc)).spec_add(
                rot_coeffs(a, b).0.spec_mul(qru_r3(rd, u, v, n, k, t - 1, t, cc)),
            )
        } else {
            qru_r3(rd, u, v, n, k, t - 1, rr, cc)
        }
    }
}

/// The transposed orthogonal factor after the first `t`
/// re-triangularization steps, rotated with the same coefficients.
pub open spec fn qru_q3<T: MatLinAlgBound>(
    qd: Seq<T>,
    rd: Seq<T>,
    u: Seq<T>,
    v: Seq<T>,
    n: int,
    k: int,
    t: int,
    rr: int,
    cc: int,
) -> T
    decreases t, 1int,
        when 0 <= t
{
    if t <= 0 {
        qru_q1(qd, u, n, k, 0, rr, cc)
    } else {
        let a = qru_r3(rd, u, v, n, k, t - 1, t - 1, t - 1);
        let b = qru_r3(rd, u, v, n, k, t - 1, t, t - 1).spec_neg();
        if rr == t - 1 {
            rot_coeffs(a, b).0.spec_mul(qru_q3(qd, rd, u, v, n, k, t - 1, t - 1, cc)).spec_sub(
                rot_coeffs(a, b).1.spec_mul(qru_q3(qd, rd, u, v, n, k, t - 1, t, cc)),
            )
        } else if rr == t {
            rot_coeffs(a, b).1.spec_mul(qru_q3(qd, rd, u, v, n, k, t - 1, t - 1, cc)).spec_add(
                rot_coeffs(a, b).0.spec_mul(qru_q3(qd, rd, u, v, n, k, t - 1, t, cc)),
            )
        } else {
            qru_q3(qd, rd, u, v, n, k, t - 1, rr, cc)
        }
    }
}

/// QR decomposition of a square matrix by Householder reflections: `qt`
/// holds the transpose of the orthogonal factor, `r` the upper-triangular
/// factor. `singular` is set during construction when a column's scaled
/// norm or the last diagonal entry of `r` falls below the fixed threshold;
/// it is advisory until `rsolve`, which refuses to solve against a
/// singular factorization.
pub struct QRdcmp<T> {
    pub n: usize,
    pub qt: Matrix<T>,
    pub r: Matrix<T>,
    pub singular: bool,
}

impl<T: MatLinAlgBound> QRdcmp<T> {
    /// Both factors are square of side `n`.
    pub open spec fn wf(self) -> bool {
        &&& self.qt.wf()
        &&& self.qt.nrows == self.n
        &&& self.qt.ncols == self.n
        &&& self.r.wf()
        &&& self.r.nrows == self.n
        &&& self.r.ncols == self.n
    }

    /// Decomposes a copy of `a` column by column, accumulating the
    /// Householder reflections into `qt` and leaving `r` upper triangular.
    /// Construction never fails: a degenerate column only marks the
    /// factorization singular. Both factors and the singular flag are
    /// pinned to the [`qr_rout`], [`qr_q`] and [`qr_sing_final`]
    /// recurrences on `a` alone.
    pub fn new(a: &Matrix<T>) -> (qr: QRdcmp<T>)
        requires
            a.wf(),
            a.nrows == a.ncols,
            a.nrows >= 1,
        ensures
            qr.wf(),
            qr.n == a.nrows,
            forall|i: int, j: int|
                0 <= i < a.nrows && 0 <= j < a.nrows ==> #[trigger] qr.r.at(i, j) == qr_rout::<T>(
                    a.data@,
                    a.nrows as int,
                    i,
                    j,
                ),
            forall|i: int, j: int|
                0 <= i < a.nrows && 0 <= j < a.nrows ==> #[trigger] qr.qt.at(i, j) == qr_q(
                    a.data@,
                    a.nrows as int,
                    a.nrows as int - 1,
                    i,
                    j,
                ),
            qr.singular == qr_sing_final::<T>(a.data@, a.nrows as int),
    {
        let n = a.rows();
        let ghost ad = a.data@;
        let ghost nn = n as int;
        proof {
            vstd::arithmetic::mul::lemma_mul_upper_bound(
                n as int,
                a.nrows as int,
                n as int,
                a.ncols as int,
            );
        }
        let mut qt = Matrix::new(n, n, crate::matrix::vec_fill(T::zero(), n * n));
        let mut r = a.duplicate();
        let mut singular = false;

        let mut c: Vec<T> = crate::matrix::vec_fill(T::zero(), n);
        let mut d: Vec<T> = crate::matrix::vec_fill(T::zero(), n);

        let mut k: usize = 0;
        while k < n - 1
            invariant
                r.wf(),
                r.nrows == n,
                r.ncols == n,
                nn == n as int,
                ad.len() == n * n,
                c@.len() == n,
                d@.len() == n,
                n >= 1,
                k <= n - 1,
                forall|t: int| 0 <= t < k ==> c@[t] == qr_cval::<T>(ad, nn, t),
                forall|t: int| k <= t < n ==> c@[t] == T::spec_zero(),
                forall|t: int| 0 <= t < k ==> d@[t] == qr_dval::<T>(ad, nn, t),
                forall|t: int| k <= t < n ==> d@[t] == T::spec_zero(),
                singular == qr_sing::<T>(ad, nn, k as int),
                forall|i2: int, j2: int|
                    0 <= i2 < n && 0 <= j2 < n ==> #[trigger] r.at(i2, j2) == qr_r(
                        ad,
                        nn,
                        k as int,
                        i2,
                        j2,
                    ),
            decreases n - 1 - k,
        {
            let ghost kk = k as int;
            let mut scale = T::zero();
            let mut i: usize = k;
            while i < n
                invariant
                    r.wf(),
                    r.nrows == n,
                    r.ncols == n,
                    nn == n as int,
                    kk == k as int,
                    k < n,
                    k <= i <= n,
                    forall|i2: int, j2: int|
                        0 <= i2 < n && 0 <= j2 < n ==> #[trigger] r.at(i2, j2) == qr_r(
                            ad,
                            nn,
                            kk,
                            i2,
                            j2,
                        ),
                    scale == qr_scale_fold::<T>(ad, nn, kk, i as int),
                decreases n - i,
            {
                let v = r.get(i, k).abs();
                if scale.lt(v) {
                    scale = v;
                }
                i += 1;
            }
            if scale.lt(T::pow10_neg(5)) {
                singular = true;
                proof {
                    assert(qr_small::<T>(ad, nn, kk));
                    assert forall|i2: int, j2: int|
                        0 <= i2 < n && 0 <= j2 < n implies #[trigger] r.at(i2, j2) == qr_r(
                        ad,
                        nn,
                        kk + 1,
                        i2,
                        j2,
                    ) by {}
                    assert(c@[kk] == qr_cval::<T>(ad, nn, kk));
                    assert(d@[kk] == qr_dval::<T>(ad, nn, kk));
                }
            } else {
                let mut i: usize = k;
                while i < n
                    invariant
                        r.wf(),
                        r.nrows == n,
                        r.ncols == n,
                        nn == n as int,
                        kk == k as int,
                        k < n,
                        k <= i <= n,
                        scale == qr_scale::<T>(ad, nn, kk),
                        forall|i2: int, j2: int|
                            0 <= i2 < n && 0 <= j2 < n ==> #[trigger] r.at(i2, j2) == (if j2 == kk
                                && kk <= i2 < i {
                                qr_r1(ad, nn, kk, i2, j2)
                            } else {
                                qr_r(ad, nn, kk, i2, j2)
                            }),
                    decreases n - i,
                {
                    r.set(i, k, r.get(i, k).div(scale));
                    i += 1;
                }
                proof {
                    assert forall|i2: int, j2: int|
                        0 <= i2 < n && 0 <= j2 < n implies #[trigger] r.at(i2, j2) == qr_r1(
                        ad,
                        nn,
                        kk,
                        i2,
                        j2,
                    ) by {}
                }
                let mut sum = T::zero();
                let mut i: usize = k;
                while i < n
                    invariant
                        r.wf(),
                        r.nrows == n,
                        r.ncols == n,
                        nn == n as int,
                        kk == k as int,
                        k < n,
                        k <= i <= n,
                        forall|i2: int, j2: int|
                            0 <= i2 < n && 0 <= j2 < n ==> #[trigger] r.at(i2, j2) == qr_r1(
                                ad,
                                nn,
                                kk,
                                i2,
                                j2,
                            ),
                        sum == qr_sumsq_fold::<T>(ad, nn, kk, i as int),
                    decreases n - i,
                {
                    sum = sum.add(r.get(i, k).mul(r.get(i, k)));
                    i += 1;
                }
                let sigma = sum.sqrt().copysign(r.get(k, k));
                proof {
                    assert(sigma == qr_sigma::<T>(ad, nn, kk));
                }
                r.set(k, k, r.get(k, k).add(sigma));
                proof {
                    assert forall|i2: int, j2: int|
                        0 <= i2 < n && 0 <= j2 < n implies #[trigger] r.at(i2, j2) == qr_r2(
                        ad,
                        nn,
                        kk,
                        i2,
                        j2,
                    ) by {}
                }
                c[k] = sigma.mul(r.get(k, k));
                d[k] = scale.neg().mul(sigma);
                proof {
                    assert(c@[kk] == qr_cval::<T>(ad, nn, kk));
                    assert(d@[kk] == qr_dval::<T>(ad, nn, kk));
                }
                let mut j: usize = k + 1;
                while j < n
                    invariant
                        r.wf(),
                        r.nrows == n,
                        r.ncols == n,
                        nn == n as int,
                        kk == k as int,
                        c@.len() == n,
                        k < n,
                        k < j <= n,
                        !qr_small::<T>(ad, nn, kk),
                        c@[kk] == qr_cval::<T>(ad, nn, kk),
                        forall|i2: int, j2: int|
                            0 <= i2 < n && 0 <= j2 < n ==> #[trigger] r.at(i2, j2) == (if kk < j2
                                && j2 < j && i2 >= kk {
                                qr_r(ad, nn, kk + 1, i2, j2)
                            } else {
                                qr_r2(ad, nn, kk, i2, j2)
                            }),
                    decreases n - j,
                {
                    let mut sum = T::zero();
                    let mut i: usize = k;
                    while i < n
                        invariant
                            r.wf(),
                            r.nrows == n,
                            r.ncols == n,
                            nn == n as int,
                            kk == k as int,
                            k < n,
                            k < j < n,
                            k <= i <= n,
                            forall|i2: int, j2: int|
                                0 <= i2 < n && 0 <= j2 < n ==> #[trigger] r.at(i2, j2) == (if kk
                                    < j2 && j2 < j && i2 >= kk {
                                    qr_r(ad, nn, kk + 1, i2, j2)
                                } else {
                                    qr_r2(ad, nn, kk, i2, j2)
                                }),
                            sum == qr_proj_fold::<T>(ad, nn, kk, j as int, i as int),
                        decreases n - i,
                    {
                        sum = sum.add(r.get(i, k).mul(r.get(i, j)));
                        i += 1;
                    }
                    let tau = sum.div(c[k]);
                    proof {
                        assert(tau == qr_tau::<T>(ad, nn, kk, j as int));
                    }
                    let mut i: usize = k;
                    while i < n
                        invariant
                            r.wf(),
                            r.nrows == n,
                            r.ncols == n,
                            nn == n as int,
                            kk == k as int,
                            k < n,
                            k < j < n,
                            k <= i <= n,
                            !qr_small::<T>(ad, nn, kk),
                            tau == qr_tau::<T>(ad, nn, kk, j as int),
                            forall|i2: int, j2: int|
                                0 <= i2 < n && 0 <= j2 < n && !(j2 == j && kk <= i2 < i)
                                    ==> #[trigger] r.at(i2, j2) == (if kk < j2 && j2 < j && i2
                                    >= kk {
                                    qr_r(ad, nn, kk + 1, i2, j2)
                                } else {
                                    qr_r2(ad, nn, kk, i2, j2)
                                }),
                            forall|i2: int|
                                kk <= i2 < i ==> #[trigger] r.at(i2, j as int) == qr_r(
                                    ad,
                                    nn,
                                    kk + 1,
                                    i2,
                                    j as int,
                                ),
                        decreases n - i,
                    {
                        let tmp = tau.mul(r.get(i, k));
                        r.set(i, j, r.get(i, j).sub(tmp));
                        i += 1;
                    }
                    j += 1;
                }
                proof {
                    assert forall|i2: int, j2: int|
                        0 <= i2 < n && 0 <= j2 < n implies #[trigger] r.at(i2, j2) == qr_r(
                        ad,
                        nn,
                        kk + 1,
                        i2,
                        j2,
                    ) by {}
                    assert(c@[kk] == qr_cval::<T>(ad, nn, kk));
                    assert(d@[kk] == qr_dval::<T>(ad, nn, kk));
                }
            }
            k += 1;
        }
        d[n - 1] = r.get(n - 1, n - 1);
        proof {
            assert(d@[nn - 1] == qr_d_last::<T>(ad, nn));
        }
        if d[n - 1].abs().lt(T::pow10_neg(5)) {
            singular = true;
        }
        proof {
            assert(singular == qr_sing_final::<T>(ad, nn));
        }
        let mut i: usize = 0;
        proof {
            assert forall|i2: int, j2: int|
                0 <= i2 < n && 0 <= j2 < n implies #[trigger] qt.at(i2, j2) == T::spec_zero() by {
                crate::matrix::lemma_row_major_index(i2, j2, n as int, n as int);
            }
        }
        while i < n
            invariant
                qt.wf(),
                qt.nrows == n,
                qt.ncols == n,
                nn == n as int,
                i <= n,
                forall|i2: int, j2: int|
                    0 <= i2 < n && 0 <= j2 < n ==> #[trigger] qt.at(i2, j2) == (if i2 == j2 && i2
                        < i {
                        T::spec_one()
                    } else {
                        T::spec_zero()
                    }),
            decreases n - i,
        {
            qt.set(i, i, T::one());
            i += 1;
        }
        proof {
            assert forall|i2: int, j2: int|
                0 <= i2 < n && 0 <= j2 < n implies #[trigger] qt.at(i2, j2) == qr_q(
                ad,
                nn,
                0,
                i2,
                j2,
            ) by {}
        }
        let mut k: usize = 0;
        while k < n - 1
            invariant
                qt.wf(),
                qt.nrows == n,
                qt.ncols == n,
                r.wf(),
                r.nrows == n,
                r.ncols == n,
                nn == n as int,
                c@.len() == n,
                n >= 1,
                k <= n - 1,
                forall|t: int| 0 <= t < n - 1 ==> c@[t] == qr_cval::<T>(ad, nn, t),
                forall|i2: int, j2: int|
                    0 <= i2 < n && 0 <= j2 < n ==> #[trigger] r.at(i2, j2) == qr_r(
                        ad,
                        nn,
                        nn - 1,
                        i2,
                        j2,
                    ),
                forall|i2: int, j2: int|
                    0 <= i2 < n && 0 <= j2 < n ==> #[trigger] qt.at(i2, j2) == qr_q(
                        ad,
                        nn,
                        k as int,
                        i2,
                        j2,
                    ),
            decreases n - 1 - k,
        {
            let ghost kk = k as int;
            if T::zero().lt(c[k].abs()) {
                let mut j: usize = 0;
                while j < n
                    invariant
                        qt.wf(),
                        qt.nrows == n,
                        qt.ncols == n,
                        r.wf(),
                        r.nrows == n,
                        r.ncols == n,
                        nn == n as int,
                        kk == k as int,
                        c@.len() == n,
                        k < n,
                        j <= n,
                        c@[kk] == qr_cval::<T>(ad, nn, kk),
                        T::spec_zero().spec_lt(qr_cval::<T>(ad, nn, kk).spec_abs()),
                        forall|i2: int, j2: int|
                            0 <= i2 < n && 0 <= j2 < n ==> #[trigger] r.at(i2, j2) == qr_r(
                                ad,
                                nn,
                                nn - 1,
                                i2,
                                j2,
                            ),
                        forall|i2: int, j2: int|
                            0 <= i2 < n && 0 <= j2 < n ==> #[trigger] qt.at(i2, j2) == (if j2 < j {
                                qr_q(ad, nn, kk + 1, i2, j2)
                            } else {
                                qr_q(ad, nn, kk, i2, j2)
                            }),
                    decreases n - j,
                {
                    let mut sum = T::zero();
                    let mut i: usize = k;
                    while i < n
                        invariant
                            qt.wf(),
                            qt.nrows == n,
                            qt.ncols == n,
                            r.wf(),
                            r.nrows == n,
                            r.ncols == n,
                            nn == n as int,
                            kk == k as int,
                            k < n,
                            j < n,
                            k <= i <= n,
                            forall|i2: int, j2: int|
                                0 <= i2 < n && 0 <= j2 < n ==> #[trigger] r.at(i2, j2) == qr_r(
                                    ad,
                                    nn,
                                    nn - 1,
                                    i2,
                                    j2,
                                ),
                            forall|i2: int, j2: int|
                                0 <= i2 < n && 0 <= j2 < n ==> #[trigger] qt.at(i2, j2) == (if j2
                                    < j {
                                    qr_q(ad, nn, kk + 1, i2, j2)
                                } else {
                                    qr_q(ad, nn, kk, i2, j2)
                                }),
                            sum == qr_qsum_fold::<T>(ad, nn, kk, j as int, i as int),
                        decreases n - i,
                    {
                        sum = sum.add(r.get(i, k).mul(qt.get(i, j)));
                        i += 1;
                    }
                    sum = sum.div(c[k]);
                    proof {
                        assert(sum == qr_qsum::<T>(ad, nn, kk, j as int).spec_div(
                            qr_cval::<T>(ad, nn, kk),
                        ));
                    }
                    let mut i: usize = k;
                    while i < n
                        invariant
                            qt.wf(),
                            qt.nrows == n,
                            qt.ncols == n,
                            r.wf(),
                            r.nrows == n,
                            r.ncols == n,
                            nn == n as int,
                            kk == k as int,
                            k < n,
                            j < n,
                            k <= i <= n,
                            T::spec_zero().spec_lt(qr_cval::<T>(ad, nn, kk).spec_abs()),
                            sum == qr_qsum::<T>(ad, nn, kk, j as int).spec_div(
                                qr_cval::<T>(ad, nn, kk),
                            ),
                            forall|i2: int, j2: int|
                                0 <= i2 < n && 0 <= j2 < n ==> #[trigger] r.at(i2, j2) == qr_r(
                                    ad,
                                    nn,
                                    nn - 1,
                                    i2,
                                    j2,
                                ),
                            forall|i2: int, j2: int|
                                0 <= i2 < n && 0 <= j2 < n && !(j2 == j && kk <= i2 < i)
                                    ==> #[trigger] qt.at(i2, j2) == (if j2 < j {
                                    qr_q(ad, nn, kk + 1, i2, j2)
                                } else {
                                    qr_q(ad, nn, kk, i2, j2)
                                }),
                            forall|i2: int|
                                kk <= i2 < i ==> #[trigger] qt.at(i2, j as int) == qr_q(
                                    ad,
                                    nn,
                                    kk + 1,
                                    i2,
                                    j as int,
                                ),
                        decreases n - i,
                    {
                        qt.set(i, j, qt.get(i, j).sub(sum.mul(r.get(i, k))));
                        i += 1;
                    }
                    proof {
                        assert forall|i2: int|
                            0 <= i2 < n implies #[trigger] qt.at(i2, j as int) == qr_q(
                            ad,
                            nn,
                            kk + 1,
                            i2,
                            j as int,
                        ) by {}
                    }
                    j += 1;
                }
            } else {
                proof {
                    assert(!T::spec_zero().spec_lt(qr_cval::<T>(ad, nn, kk).spec_abs()));
                    assert forall|i2: int, j2: int|
                        0 <= i2 < n && 0 <= j2 < n implies #[trigger] qt.at(i2, j2) == qr_q(
                        ad,
                        nn,
                        kk + 1,
                        i2,
                        j2,
                    ) by {}
                }
            }
            k += 1;
        }
        let mut i: usize = 0;
        while i < n
            invariant
                r.wf(),
                r.nrows == n,
                r.ncols == n,
                nn == n as int,
                d@.len() == n,
                i <= n,
                forall|t: int| 0 <= t < n - 1 ==> d@[t] == qr_dval::<T>(ad, nn, t),
                d@[nn - 1] == qr_d_last::<T>(ad, nn),
                n >= 1,
                forall|i2: int, j2: int|
                    0 <= i2 < n && 0 <= j2 < n ==> #[trigger] r.at(i2, j2) == (if i2 < i {
                        qr_rout::<T>(ad, nn, i2, j2)
                    } else {
                        qr_r(ad, nn, nn - 1, i2, j2)
                    }),
            decreases n - i,
        {
            r.set(i, i, d[i]);
            let mut j: usize = 0;
            while j < i
                invariant
                    r.wf(),
                    r.nrows == n,
                    r.ncols == n,
                    nn == n as int,
                    d@.len() == n,
                    i < n,
                    j <= i,
                    forall|t: int| 0 <= t < n - 1 ==> d@[t] == qr_dval::<T>(ad, nn, t),
                    d@[nn - 1] == qr_d_last::<T>(ad, nn),
                    forall|i2: int, j2: int|
                        0 <= i2 < n && 0 <= j2 < n && i2 != i ==> #[trigger] r.at(i2, j2) == (
                        if i2 < i {
                            qr_rout::<T>(ad, nn, i2, j2)
                        } else {
                            qr_r(ad, nn, nn - 1, i2, j2)
                        }),
                    r.at(i as int, i as int) == qr_rout::<T>(ad, nn, i as int, i as int),
                    forall|j2: int|
                        0 <= j2 < j ==> #[trigger] r.at(i as int, j2) == T::spec_zero(),
                    forall|j2: int|
                        j <= j2 < n && j2 != i ==> #[trigger] r.at(i as int, j2) == qr_r(
                            ad,
                            nn,
                            nn - 1,
                            i as int,
                            j2,
                        ),
                decreases i - j,
            {
                r.set(i, j, T::zero());
                j += 1;
            }
            i += 1;
        }
        proof {
            assert forall|i2: int, j2: int|
                0 <= i2 < n && 0 <= j2 < n implies #[trigger] r.at(i2, j2) == qr_rout::<T>(
                ad,
                nn,
                i2,
                j2,
            ) by {}
        }
        QRdcmp { n, qt, r, singular }
    }

    /// Solves `A x = b` by forming `Q^T b` and back-substituting through
    /// `R`, writing over `x`. Succeeds exactly when the factorization is
    /// not marked singular; on success `x` is pinned to the back
    /// substitution of the `Q^T` image of `b`.
    pub fn solve(&self, b: &Vec<T>, x: &mut Vec<T>) -> (res: Result<(), LinAlgError>)
        requires
            self.wf(),
            b@.len() == self.n,
            old(x)@.len() == self.n,
        ensures
            final(x)@.len() == self.n,
            (res is Ok) <==> !self.singular,
            res matches Err(e) ==> (e matches LinAlgError::SingularMatrix(s) && s@ == "qt"@),
            res is Err ==> forall|i: int|
                0 <= i < self.n ==> final(x)@[i] == qr_qt_sum(
                    self.qt.data@,
                    self.n as int,
                    b@,
                    i,
                    self.n as int,
                ),
            res is Ok ==> forall|i: int|
                0 <= i < self.n ==> final(x)@[i] == qr_rsolve_val(
                    self.r.data@,
                    self.n as int,
                    Seq::new(
                        self.n as nat,
                        |i2: int| qr_qt_sum(self.qt.data@, self.n as int, b@, i2, self.n as int),
                    ),
                    i,
                ),
    {
        self.qtmult(b, x);
        let xc = vec_dup(x);
        proof {
            assert(xc@ =~= Seq::new(
                self.n as nat,
                |i2: int| qr_qt_sum(self.qt.data@, self.n as int, b@, i2, self.n as int),
            ));
        }
        self.rsolve(&xc, x)
    }

    /// Writes the product `Q^T b` over `x`: entry `i` is the fold-left dot
    /// product of row `i` of `qt` with `b`.
    pub fn qtmult(&self, b: &Vec<T>, x: &mut Vec<T>)
        requires
            self.wf(),
            b@.len() == self.n,
            old(x)@.len() == self.n,
        ensures
            final(x)@.len() == self.n,
            forall|i: int|
                0 <= i < self.n ==> final(x)@[i] == qr_qt_sum(
                    self.qt.data@,
                    self.n as int,
                    b@,
                    i,
                    self.n as int,
                ),
    {
        let n = self.n;
        let mut i: usize = 0;
        while i < n
            invariant
                self.wf(),
                n == self.n,
                b@.len() == n,
                x@.len() == n,
                i <= n,
                forall|i2: int|
                    0 <= i2 < i ==> x@[i2] == qr_qt_sum(
                        self.qt.data@,
                        n as int,
                        b@,
                        i2,
                        n as int,
                    ),
            decreases n - i,
        {
            let mut sum = T::zero();
            let mut j: usize = 0;
            while j < n
                invariant
                    self.wf(),
                    n == self.n,
                    b@.len() == n,
                    i < n,
                    j <= n,
                    sum == qr_qt_sum(self.qt.data@, n as int, b@, i as int, j as int),
                decreases n - j,
            {
                sum = sum.add(self.qt.get(i, j).mul(b[j]));
                j += 1;
            }
            x[i] = sum;
            i += 1;
        }
    }

    /// Back-substitutes through the triangular factor `R`, writing the
    /// solution of `R x = b` over `x`. Fails with `SingularMatrix` exactly
    /// when the factorization is marked singular, leaving `x` unchanged.
    pub fn rsolve(&self, b: &Vec<T>, x: &mut Vec<T>) -> (res: Result<(), LinAlgError>)
        requires
            self.wf(),
            b@.len() == self.n,
            old(x)@.len() == self.n,
        ensures
            final(x)@.len() == self.n,
            (res is Ok) <==> !self.singular,
            res matches Err(e) ==> (e matches LinAlgError::SingularMatrix(s) && s@ == "qt"@
                && final(x)@ == old(x)@),
            res is Ok ==> forall|i: int|
                0 <= i < self.n ==> final(x)@[i] == qr_rsolve_val(
                    self.r.data@,
                    self.n as int,
                    b@,
                    i,
                ),
    {
        if self.singular {
            return Err(LinAlgError::SingularMatrix(String::from_str("qt")));
        }
        let n = self.n;
        let ghost rd = self.r.data@;
        let mut i: usize = n;
        while i > 0
            invariant
                self.wf(),
                n == self.n,
                rd == self.r.data@,
                b@.len() == n,
                x@.len() == n,
                i <= n,
                forall|i2: int| i <= i2 < n ==> x@[i2] == qr_rsolve_val(rd, n as int, b@, i2),
            decreases i,
        {
            i -= 1;
            let mut sum = b[i];
            let ghost xcur = x@;
            let mut j: usize = i + 1;
            while j < n
                invariant
                    self.wf(),
                    n == self.n,
                    rd == self.r.data@,
                    b@.len() == n,
                    x@ == xcur,
                    x@.len() == n,
                    i < n,
                    i < j <= n,
                    forall|i2: int| i < i2 < n ==> x@[i2] == qr_rsolve_val(rd, n as int, b@, i2),
                    sum == qr_rsolve_sum(rd, n as int, b@, i as int, j as int),
                decreases n - j,
            {
                sum = sum.sub(self.r.get(i, j).mul(x[j]));
                j += 1;
            }
            x[i] = sum.div(self.r.get(i, i));
        }
        Ok(())
    }

    /// Rank-one update of the factorization by `u v^T`: reduces `u` to a
    /// multiple of the first unit vector by Givens rotations, adds the
    /// rank-one row, re-triangularizes, and re-evaluates singularity from
    /// the new diagonal of `R`. Both factors are pinned to the
    /// [`qru_r3`] and [`qru_q3`] rotation compositions on the old factors
    /// and the update vectors, and the singular flag to the rescan of the
    /// new diagonal (set, never cleared).
    pub fn update(&mut self, u: &Vec<T>, v: &Vec<T>)
        requires
            old(self).wf(),
            u@.len() == old(self).n,
            v@.len() == old(self).n,
        ensures
            final(self).wf(),
            final(self).n == old(self).n,
            forall|rr: int, cc: int|
                0 <= rr < old(self).n && 0 <= cc < old(self).n ==> #[trigger] final(self).r.at(
                    rr,
                    cc,
                ) == qru_r3(
                    old(self).r.data@,
                    u@,
                    v@,
                    old(self).n as int,
                    qru_k(u@, old(self).n as int, 0),
                    qru_k(u@, old(self).n as int, 0),
                    rr,
                    cc,
                ),
            forall|rr: int, cc: int|
                0 <= rr < old(self).n && 0 <= cc < old(self).n ==> #[trigger] final(self).qt.at(
                    rr,
                    cc,
                ) == qru_q3(
                    old(self).qt.data@,
                    old(self).r.data@,
                    u@,
                    v@,
                    old(self).n as int,
                    qru_k(u@, old(self).n as int, 0),
                    qru_k(u@, old(self).n as int, 0),
                    rr,
                    cc,
                ),
            final(self).singular == (old(self).singular || exists|i2: int|
                0 <= i2 < old(self).n && (#[trigger] final(self).r.at(i2, i2)).spec_abs().spec_lt(
                    T::spec_pow10_neg(5),
                )),
    {
        let n = self.n;
        let ghost nn = n as int;
        let ghost uu = u@;
        let ghost vv = v@;
        let ghost rd0 = old(self).r.data@;
        let ghost qd0 = old(self).qt.data@;
        let mut w = vec_dup(u);
        let mut m: usize = 0;
        let mut k2: usize = n;
        while k2 > 0
            invariant
                w@.len() == n,
                w@ == uu,
                uu == u@,
                nn == n as int,
                uu.len() == n,
                k2 <= n,
                m < n || m == 0,
                m as int == qru_k(uu, nn, k2 as int),
            decreases k2,
        {
            k2 -= 1;
            if !w[k2].eq(T::zero()) {
                m = k2;
            }
        }
        let k = m;
        let ghost kk = k as int;
        proof {
            assert(kk == qru_k(uu, nn, 0));
            assert forall|rr: int, cc: int|
                0 <= rr < n && 0 <= cc < n implies #[trigger] self.r.at(rr, cc) == qru_r1(
                rd0,
                uu,
                nn,
                kk,
                kk,
                rr,
                cc,
            ) by {}
            assert forall|rr: int, cc: int|
                0 <= rr < n && 0 <= cc < n implies #[trigger] self.qt.at(rr, cc) == qru_q1(
                qd0,
                uu,
                nn,
                kk,
                kk,
                rr,
                cc,
            ) by {}
        }
        let mut i: usize = k;
        while i > 0
            invariant
                self.wf(),
                self.n == n,
                self.singular == old(self).singular,
                nn == n as int,
                uu == u@,
                rd0 == old(self).r.data@,
                qd0 == old(self).qt.data@,
                w@.len() == n,
                k < n || k == 0,
                kk == k as int,
                i <= k,
                forall|idx: int| 0 <= idx < n ==> w@[idx] == qru_w(uu, nn, kk, i as int, idx),
                forall|rr: int, cc: int|
                    0 <= rr < n && 0 <= cc < n ==> #[trigger] self.r.at(rr, cc) == qru_r1(
                        rd0,
                        uu,
                        nn,
                        kk,
                        i as int,
                        rr,
                        cc,
                    ),
                forall|rr: int, cc: int|
                    0 <= rr < n && 0 <= cc < n ==> #[trigger] self.qt.at(rr, cc) == qru_q1(
                        qd0,
                        uu,
                        nn,
                        kk,
                        i as int,
                        rr,
                        cc,
                    ),
            decreases i,
        {
            i -= 1;
            let ghost ag = w@[i as int];
            let ghost bg = w@[i as int + 1].spec_neg();
            self.rotate(i, w[i], w[i + 1].neg());
            proof {
                assert(ag == qru_w(uu, nn, kk, i as int + 1, i as int));
                assert(bg == qru_w(uu, nn, kk, i as int + 1, i as int + 1).spec_neg());
                assert forall|rr: int, cc: int|
                    0 <= rr < n && 0 <= cc < n implies #[trigger] self.r.at(rr, cc) == qru_r1(
                    rd0,
                    uu,
                    nn,
                    kk,
                    i as int,
                    rr,
                    cc,
                ) by {}
                assert forall|rr: int, cc: int|
                    0 <= rr < n && 0 <= cc < n implies #[trigger] self.qt.at(rr, cc) == qru_q1(
                    qd0,
                    uu,
                    nn,
                    kk,
                    i as int,
                    rr,
                    cc,
                ) by {}
            }
            let awi = w[i].abs();
            let awwi = w[i + 1].abs();
            if awi.lt(T::pow10_neg(5)) {
                w[i] = awwi;
            } else if awwi.lt(awi) {
                w[i] = awi.mul(T::one().add(awwi.mul(awwi).div(awi.mul(awi))).sqrt());
            } else {
                w[i] = awwi.mul(T::one().add(awi.mul(awi).div(awwi.mul(awwi))).sqrt());
            }
            proof {
                assert forall|idx: int|
                    0 <= idx < n implies w@[idx] == qru_w(uu, nn, kk, i as int, idx) by {}
            }
        }
        let mut i: usize = 0;
        while i < n
            invariant
                self.wf(),
                self.n == n,
                self.singular == old(self).singular,
                nn == n as int,
                uu == u@,
                vv == v@,
                rd0 == old(self).r.data@,
                qd0 == old(self).qt.data@,
                w@.len() == n,
                k < n || k == 0,
                kk == k as int,
                forall|idx: int| 0 <= idx < n ==> w@[idx] == qru_w(uu, nn, kk, 0, idx),
                v@.len() == n,
                i <= n,
                forall|rr: int, cc: int|
                    0 <= rr < n && 0 <= cc < n && !(rr == 0 && cc < i) ==> #[trigger] self.r.at(
                        rr,
                        cc,
                    ) == qru_r1(rd0, uu, nn, kk, 0, rr, cc),
                forall|cc: int|
                    0 <= cc < i ==> #[trigger] self.r.at(0, cc) == qru_r2(
                        rd0,
                        uu,
                        vv,
                        nn,
                        kk,
                        0,
                        cc,
                    ),
                forall|rr: int, cc: int|
                    0 <= rr < n && 0 <= cc < n ==> #[trigger] self.qt.at(rr, cc) == qru_q1(
                        qd0,
                        uu,
                        nn,
                        kk,
                        0,
                        rr,
                        cc,
                    ),
            decreases n - i,
        {
            let tmp = w[0].mul(v[i]);
            self.r.set(0, i, self.r.get(0, i).add(tmp));
            i += 1;
        }
        proof {
            assert forall|rr: int, cc: int|
                0 <= rr < n && 0 <= cc < n implies #[trigger] self.r.at(rr, cc) == qru_r3(
                rd0,
                uu,
                vv,
                nn,
                kk,
                0,
                rr,
                cc,
            ) by {}
            assert forall|rr: int, cc: int|
                0 <= rr < n && 0 <= cc < n implies #[trigger] self.qt.at(rr, cc) == qru_q3(
                qd0,
                rd0,
                uu,
                vv,
                nn,
                kk,
                0,
                rr,
                cc,
            ) by {}
        }
        let mut i: usize = 0;
        while i < k
            invariant
                self.wf(),
                self.n == n,
                self.singular == old(self).singular,
                nn == n as int,
                uu == u@,
                vv == v@,
                rd0 == old(self).r.data@,
                qd0 == old(self).qt.data@,
                k < n || k == 0,
                kk == k as int,
                i <= k,
                forall|rr: int, cc: int|
                    0 <= rr < n && 0 <= cc < n ==> #[trigger] self.r.at(rr, cc) == qru_r3(
                        rd0,
                        uu,
                        vv,
                        nn,
                        kk,
                        i as int,
                        rr,
                        cc,
                    ),
                forall|rr: int, cc: int|
                    0 <= rr < n && 0 <= cc < n ==> #[trigger] self.qt.at(rr, cc) == qru_q3(
                        qd0,
                        rd0,
                        uu,
                        vv,
                        nn,
                        kk,
                        i as int,
                        rr,
                        cc,
                    ),
            decreases k - i,
        {
            let ghost ag = self.r.at(i as int, i as int);
            let ghost bg = self.r.at(i as int + 1, i as int).spec_neg();
            self.rotate(i, self.r.get(i, i), self.r.get(i + 1, i).neg());
            proof {
                assert(ag == qru_r3(rd0, uu, vv, nn, kk, i as int, i as int, i as int));
                assert(bg == qru_r3(
                    rd0,
                    uu,
                    vv,
                    nn,
                    kk,
                    i as int,
                    i as int + 1,
                    i as int,
                ).spec_neg());
                assert forall|rr: int, cc: int|
                    0 <= rr < n && 0 <= cc < n implies #[trigger] self.r.at(rr, cc) == qru_r3(
                    rd0,
                    uu,
                    vv,
                    nn,
                    kk,
                    i as int + 1,
                    rr,
                    cc,
                ) by {}
                assert forall|rr: int, cc: int|
                    0 <= rr < n && 0 <= cc < n implies #[trigger] self.qt.at(rr, cc) == qru_q3(
                    qd0,
                    rd0,
                    uu,
                    vv,
                    nn,
                    kk,
                    i as int + 1,
                    rr,
                    cc,
                ) by {}
            }
            i += 1;
        }
        let ghost rfin = self.r;
        let ghost qtfin = self.qt;
        let mut i: usize = 0;
        while i < n
            invariant_except_break
                self.wf(),
                self.n == n,
                self.r == rfin,
                self.qt == qtfin,
                self.singular == old(self).singular,
                i <= n,
                forall|i2: int|
                    0 <= i2 < i ==> !(#[trigger] self.r.at(i2, i2)).spec_abs().spec_lt(
                        T::spec_pow10_neg(5),
                    ),
            ensures
                self.wf(),
                self.n == n,
                self.r == rfin,
                self.qt == qtfin,
                self.singular == (old(self).singular || exists|i2: int|
                    0 <= i2 < n && (#[trigger] self.r.at(i2, i2)).spec_abs().spec_lt(
                        T::spec_pow10_neg(5),
                    )),
            decreases n - i,
        {
            if self.r.get(i, i).abs().lt(T::pow10_neg(5)) {
                self.singular = true;
                proof {
                    assert(self.r.at(i as int, i as int).spec_abs().spec_lt(
                        T::spec_pow10_neg(5),
                    ));
                }
                break ;
            }
            i += 1;
        }
    }

    /// Applies the Givens rotation with coefficients derived from `a` and
    /// `b` ([`rot_coeffs`]) to rows `i` and `i + 1` of both stored
    /// factors: every affected entry is pinned to the rotated combination
    /// of the old rows; `r`'s columns before `i` and all other rows stay
    /// untouched.
    pub fn rotate(&mut self, i: usize, a: T, b: T)
        requires
            old(self).wf(),
            i + 1 < old(self).n,
        ensures
            final(self).wf(),
            final(self).n == old(self).n,
            final(self).singular == old(self).singular,
            forall|j: int|
                i <= j < old(self).n ==> #[trigger] final(self).r.at(i as int, j)
                    == rot_coeffs(a, b).0.spec_mul(old(self).r.at(i as int, j)).spec_sub(
                    rot_coeffs(a, b).1.spec_mul(old(self).r.at(i as int + 1, j)),
                ),
            forall|j: int|
                i <= j < old(self).n ==> #[trigger] final(self).r.at(i as int + 1, j)
                    == rot_coeffs(a, b).1.spec_mul(old(self).r.at(i as int, j)).spec_add(
                    rot_coeffs(a, b).0.spec_mul(old(self).r.at(i as int + 1, j)),
                ),
            forall|i2: int, j: int|
                0 <= i2 < old(self).n && 0 <= j < old(self).n && i2 != i && i2 != i + 1
                    ==> #[trigger] final(self).r.at(i2, j) == old(self).r.at(i2, j),
            forall|i2: int, j: int|
                0 <= i2 < old(self).n && 0 <= j < i && (i2 == i || i2 == i + 1)
                    ==> #[trigger] final(self).r.at(i2, j) == old(self).r.at(i2, j),
            forall|j: int|
                0 <= j < old(self).n ==> #[trigger] final(self).qt.at(i as int, j)
                    == rot_coeffs(a, b).0.spec_mul(old(self).qt.at(i as int, j)).spec_sub(
                    rot_coeffs(a, b).1.spec_mul(old(self).qt.at(i as int + 1, j)),
                ),
            forall|j: int|
                0 <= j < old(self).n ==> #[trigger] final(self).qt.at(i as int + 1, j)
                    == rot_coeffs(a, b).1.spec_mul(old(self).qt.at(i as int, j)).spec_add(
                    rot_coeffs(a, b).0.spec_mul(old(self).qt.at(i as int + 1, j)),
                ),
            forall|i2: int, j: int|
                0 <= i2 < old(self).n && 0 <= j < old(self).n && i2 != i && i2 != i + 1
                    ==> #[trigger] final(self).qt.at(i2, j) == old(self).qt.at(i2, j),
    {
        let n = self.n;
        let absa = a.abs();
        let absb = b.abs();
        let (c, s) = if absa.lt(T::pow10_neg(5)) {
            (T::zero(), if T::zero().le(b) {
                T::one()
            } else {
                T::one().neg()
            })
        } else if absb.lt(absa) {
            let fact = absb.div(absa);
            let tmp = T::one().div(T::one().add(fact.mul(fact)).sqrt()).copysign(a);
            (tmp, fact.mul(tmp))
        } else {
            let fact = absa.div(absb);
            let tmp = T::one().div(T::one().add(fact.mul(fact)).sqrt()).copysign(b);
            (fact.mul(tmp), tmp)
        };
        proof {
            assert(c == rot_coeffs(a, b).0);
            assert(s == rot_coeffs(a, b).1);
        }
        let mut j: usize = i;
        while j < n
            invariant
                self.wf(),
                self.n == n,
                self.qt == old(self).qt,
                self.singular == old(self).singular,
                i + 1 < n,
                i <= j <= n,
                c == rot_coeffs(a, b).0,
                s == rot_coeffs(a, b).1,
                forall|j2: int|
                    i <= j2 < j ==> #[trigger] self.r.at(i as int, j2) == c.spec_mul(
                        old(self).r.at(i as int, j2),
                    ).spec_sub(s.spec_mul(old(self).r.at(i as int + 1, j2))),
                forall|j2: int|
                    i <= j2 < j ==> #[trigger] self.r.at(i as int + 1, j2) == s.spec_mul(
                        old(self).r.at(i as int, j2),
                    ).spec_add(c.spec_mul(old(self).r.at(i as int + 1, j2))),
                forall|j2: int|
                    j <= j2 < n && 0 <= j2 ==> #[trigger] self.r.at(i as int, j2) == old(
                        self,
                    ).r.at(i as int, j2),
                forall|j2: int|
                    j <= j2 < n && 0 <= j2 ==> #[trigger] self.r.at(i as int + 1, j2) == old(
                        self,
                    ).r.at(i as int + 1, j2),
                forall|i2: int, j2: int|
                    0 <= i2 < n && 0 <= j2 < n && i2 != i && i2 != i + 1 ==> #[trigger] self.r.at(
                        i2,
                        j2,
                    ) == old(self).r.at(i2, j2),
                forall|i2: int, j2: int|
                    0 <= i2 < n && 0 <= j2 < i && (i2 == i || i2 == i + 1) ==> #[trigger] self.r.at(
                        i2,
                        j2,
                    ) == old(self).r.at(i2, j2),
            decreases n - j,
        {
            let y = self.r.get(i, j);
            let w = self.r.get(i + 1, j);
            self.r.set(i, j, c.mul(y).sub(s.mul(w)));
            self.r.set(i + 1, j, s.mul(y).add(c.mul(w)));
            j += 1;
        }
        let ghost rdone = self.r;
        let mut j: usize = 0;
        while j < n
            invariant
                self.wf(),
                self.n == n,
                self.r == rdone,
                self.singular == old(self).singular,
                i + 1 < n,
                j <= n,
                c == rot_coeffs(a, b).0,
                s == rot_coeffs(a, b).1,
                forall|j2: int|
                    0 <= j2 < j ==> #[trigger] self.qt.at(i as int, j2) == c.spec_mul(
                        old(self).qt.at(i as int, j2),
                    ).spec_sub(s.spec_mul(old(self).qt.at(i as int + 1, j2))),
                forall|j2: int|
                    0 <= j2 < j ==> #[trigger] self.qt.at(i as int + 1, j2) == s.spec_mul(
                        old(self).qt.at(i as int, j2),
                    ).spec_add(c.spec_mul(old(self).qt.at(i as int + 1, j2))),
                forall|j2: int|
                    j <= j2 < n ==> #[trigger] self.qt.at(i as int, j2) == old(self).qt.at(
                        i as int,
                        j2,
                    ),
                forall|j2: int|
                    j <= j2 < n ==> #[trigger] self.qt.at(i as int + 1, j2) == old(self).qt.at(
                        i as int + 1,
                        j2,
                    ),
                forall|i2: int, j2: int|
                    0 <= i2 < n && 0 <= j2 < n && i2 != i && i2 != i + 1 ==> #[trigger] self.qt.at(
                        i2,
                        j2,
                    ) == old(self).qt.at(i2, j2),
            decreases n - j,
        {
            let y = self.qt.get(i, j);
            let w = self.qt.get(i + 1, j);
            self.qt.set(i, j, c.mul(y).sub(s.mul(w)));
            self.qt.set(i + 1, j, s.mul(y).add(c.mul(w)));
            j += 1;
        }
    }
}

} // verus!
