use vstd::prelude::*;

use crate::linalg::LinAlgError;
use crate::matrix::ent;
use crate::matrix::vec_fill;
use crate::matrix::Matrix;
use crate::scalar::MatLinAlgBound;

verus! {

/// How many of the first `k` singular values lie strictly above the
/// threshold.
pub open spec fn svd_rank_count<T: MatLinAlgBound>(w: Seq<T>, tsh: T, k: int) -> int
    decreases k,
{
    if k <= 0 {
        0
    } else {
        svd_rank_count(w, tsh, k - 1) + (if tsh.spec_lt(w[k - 1]) {
            1int
        } else {
            0int
        })
    }
}

/// How many of the first `k` singular values lie at or below the
/// threshold.
pub open spec fn svd_null_count<T: MatLinAlgBound>(w: Seq<T>, tsh: T, k: int) -> int
    decreases k,
{
    if k <= 0 {
        0
    } else {
        svd_null_count(w, tsh, k - 1) + (if w[k - 1].spec_le(tsh) {
            1int
        } else {
            0int
        })
    }
}

proof fn lemma_rank_count_bounds<T: MatLinAlgBound>(w: Seq<T>, tsh: T, j: int, k: int)
    requires
        j <= k,
    ensures
        svd_rank_count(w, tsh, j) <= svd_rank_count(w, tsh, k),
        svd_rank_count(w, tsh, k) - svd_rank_count(w, tsh, j) <= k - j,
        0 <= svd_rank_count(w, tsh, k) || k < 0,
    decreases k - j, (if k >= 0 { k } else { 0int }),
{
    if j < k {
        lemma_rank_count_bounds(w, tsh, j, k - 1);
    } else if k > 0 {
        lemma_rank_count_bounds(w, tsh, j - 1, k - 1);
    }
}

proof fn lemma_null_count_bounds<T: MatLinAlgBound>(w: Seq<T>, tsh: T, j: int, k: int)
    requires
        j <= k,
    ensures
        svd_null_count(w, tsh, j) <= svd_null_count(w, tsh, k),
        svd_null_count(w, tsh, k) - svd_null_count(w, tsh, j) <= k - j,
        0 <= svd_null_count(w, tsh, k) || k < 0,
    decreases k - j, (if k >= 0 { k } else { 0int }),
{
    if j < k {
        lemma_null_count_bounds(w, tsh, j, k - 1);
    } else if k > 0 {
        lemma_null_count_bounds(w, tsh, j - 1, k - 1);
    }
}

/// The rank and the nullity a decomposition reports are complementary:
/// wherever the two threshold tests decide every singular value one way
/// or the other, the counts of values above and not above the threshold
/// add up to the number of singular values.
pub proof fn lemma_rank_nullity_complement<T: MatLinAlgBound>(w: Seq<T>, tsh: T, k: int)
    requires
        forall|j: int| 0 <= j < k ==> (w[j].spec_le(tsh) <==> !tsh.spec_lt(#[trigger] w[j])),
        k >= 0,
    ensures
        svd_rank_count(w, tsh, k) + svd_null_count(w, tsh, k) == k,
    decreases k,
{
    if k > 0 {
        lemma_rank_nullity_complement(w, tsh, k - 1);
    }
}

/// For a well-formed decomposition whose threshold tests are coherent on
/// its singular values, `rank` and `nullity` sum to the column count `n`.
pub proof fn lemma_rank_nullity<T: MatLinAlgBound>(sv: SVD<T>)
    requires
        sv.wf(),
        forall|j: int|
            0 <= j < sv.w@.len() ==> (sv.w@[j].spec_le(sv.tsh) <==> !sv.tsh.spec_lt(
                #[trigger] sv.w@[j],
            )),
    ensures
        svd_rank_count(sv.w@, sv.tsh, sv.n as int) + svd_null_count(sv.w@, sv.tsh, sv.n as int)
            == sv.n,
{
    lemma_rank_nullity_complement(sv.w@, sv.tsh, sv.n as int);
}

/// The running maximum of the first `k` singular values, seeded with
/// the first.
pub open spec fn svd_wmax<T: MatLinAlgBound>(w: Seq<T>, k: int) -> T
    decreases k,
{
    if k <= 1 {
        w[0]
    } else {
        let p = svd_wmax(w, k - 1);
        if p.spec_lt(w[k - 1]) {
            w[k - 1]
        } else {
            p
        }
    }
}

/// The rank threshold the decomposition derives from its shape, its
/// largest singular value and the machine epsilon.
pub open spec fn svd_tsh_spec<T: MatLinAlgBound>(w: Seq<T>, m: int, n: int) -> T {
    T::spec_half().spec_mul(
        T::spec_from_usize((m + n + 1) as usize).spec_sqrt(),
    ).spec_mul(svd_wmax(w, n)).spec_mul(T::spec_machine_eps())
}

/// The fold-left sum of products `u[i][j] * b[i]` over rows `i < k`:
/// entry `j` of the product `U^T b`.
pub open spec fn svd_usum<T: MatLinAlgBound>(ud: Seq<T>, ucols: int, b: Seq<T>, j: int, k: int) -> T
    decreases k,
{
    if k <= 0 {
        T::spec_zero()
    } else {
        svd_usum(ud, ucols, b, j, k - 1).spec_add(ent(ud, ucols, k - 1, j).spec_mul(b[k - 1]))
    }
}

/// Component `j` of the pseudo-inverse intermediate: the `U^T b` entry
/// divided by the singular value where that value is positive, zero
/// otherwise.
pub open spec fn svd_tmp_val<T: MatLinAlgBound>(
    ud: Seq<T>,
    m: int,
    w: Seq<T>,
    b: Seq<T>,
    j: int,
) -> T {
    if T::spec_zero().spec_lt(w[j]) {
        svd_usum(ud, m, b, j, m).spec_div(w[j])
    } else {
        T::spec_zero()
    }
}

/// The fold-left sum of products `v[j][i] * tmp[i]` over `i < k`: entry
/// `j` of the back-rotated solution.
pub open spec fn svd_vsum<T: MatLinAlgBound>(
    vd: Seq<T>,
    n: int,
    tmp: Seq<T>,
    j: int,
    k: int,
) -> T
    decreases k,
{
    if k <= 0 {
        T::spec_zero()
    } else {
        svd_vsum(vd, n, tmp, j, k - 1).spec_add(ent(vd, n, j, k - 1).spec_mul(tmp[k - 1]))
    }
}

/// Singular value decomposition of an `m` by `n` matrix with `m >= n`:
/// Householder bidiagonalization followed by implicit-shift Golub-Kahan
/// iteration, giving `A = U diag(w) V^T` with `u` orthogonal `m` by `m`,
/// `v` orthogonal `n` by `n` and `w` the singular values. `tsh` is the
/// fixed rank threshold derived from the machine epsilon `eps`.
pub struct SVD<T> {
    pub m: usize,
    pub n: usize,
    pub u: Matrix<T>,
    pub v: Matrix<T>,
    pub w: Vec<T>,
    pub eps: T,
    pub tsh: T,
}

/// Applies the Givens rotation with coefficients `cos` and `sin` to the
/// two-column block of `mat` starting at column `idx`, rotating the four
/// entries of rows `idx` and `idx + 1`.
fn givens_right<T: MatLinAlgBound>(cos: T, sin: T, mat: &mut Matrix<T>, idx: usize)
    requires
        old(mat).wf(),
        idx + 1 < old(mat).nrows,
        idx + 1 < old(mat).ncols,
    ensures
        final(mat).wf(),
        final(mat).nrows == old(mat).nrows,
        final(mat).ncols == old(mat).ncols,
{
    let ak0k0 = cos.mul(mat.get(idx, idx)).sub(sin.mul(mat.get(idx, idx + 1)));
    let ak0k1 = sin.mul(mat.get(idx, idx)).add(cos.mul(mat.get(idx, idx + 1)));
    let ak1k0 = cos.mul(mat.get(idx + 1, idx)).sub(sin.mul(mat.get(idx + 1, idx + 1)));
    let ak1k1 = sin.mul(mat.get(idx, idx + 1)).sub(cos.mul(mat.get(idx + 1, idx + 1)));
    mat.set(idx, idx, ak0k0);
    mat.set(idx, idx + 1, ak0k1);
    mat.set(idx + 1, idx, ak1k0);
    mat.set(idx + 1, idx + 1, ak1k1);
}

/// Householder bidiagonalization of `a` accumulating the reflections into
/// `u` and `v`, then the implicit-shift diagonalization loop; finally
/// copies the diagonal of the reduced matrix into `w`. The sweep loop
/// runs until the unreduced block vanishes, under an iteration counter
/// far too large to exhaust in practice.
fn svd_decompose<T: MatLinAlgBound>(
    a: &mut Matrix<T>,
    u: &mut Matrix<T>,
    v: &mut Matrix<T>,
    w: &mut Vec<T>,
    m: usize,
    n: usize,
)
    requires
        old(a).wf(),
        old(a).nrows == m,
        old(a).ncols == n,
        old(u).wf(),
        old(u).nrows == m,
        old(u).ncols == m,
        old(v).wf(),
        old(v).nrows == n,
        old(v).ncols == n,
        old(w)@.len() == n,
        1 <= n <= m,
    ensures
        final(a).wf(),
        final(a).nrows == m,
        final(a).ncols == n,
        final(u).wf(),
        final(u).nrows == m,
        final(u).ncols == m,
        final(v).wf(),
        final(v).nrows == n,
        final(v).ncols == n,
        final(w)@.len() == n,
{
    let mut k: usize = 0;
    while k < n
        invariant
            a.wf(),
            a.nrows == m,
            a.ncols == n,
            u.wf(),
            u.nrows == m,
            u.ncols == m,
            v.wf(),
            v.nrows == n,
            v.ncols == n,
            1 <= n <= m,
            k <= n,
        decreases n - k,
    {
        let mut sum = T::zero();
        let mut i: usize = k;
        while i < m
            invariant
                a.wf(),
                a.nrows == m,
                a.ncols == n,
                k < n,
                n <= m,
                k <= i <= m,
            decreases m - i,
        {
            sum = sum.add(a.get(i, k).mul(a.get(i, k)));
            i += 1;
        }
        let s = sum.sqrt();
        let t = a.get(k, k).sub(s.copysign(a.get(k, k)));
        sum = sum.add(t.mul(t).sub(a.get(k, k).mul(a.get(k, k))));
        let norm = sum.sqrt();
        a.set(k, k, s);
        let mut j: usize = k;
        while j < m
            invariant
                a.wf(),
                a.nrows == m,
                a.ncols == n,
                u.wf(),
                u.nrows == m,
                u.ncols == m,
                k < n,
                n <= m,
                k <= j <= m,
            decreases m - j,
        {
            let mut sum2 = T::zero();
            let mut i: usize = k;
            while i < m
                invariant
                    a.wf(),
                    a.nrows == m,
                    a.ncols == n,
                    u.wf(),
                    u.nrows == m,
                    u.ncols == m,
                    k < n,
                    n <= m,
                    j < m,
                    k <= i <= m,
                decreases m - i,
            {
                sum2 = sum2.add(u.get(j, i).mul(a.get(i, k)));
                i += 1;
            }
            let tau = sum2.div(norm).mul(T::from_usize(2));
            let mut i: usize = k;
            while i < m
                invariant
                    a.wf(),
                    a.nrows == m,
                    a.ncols == n,
                    u.wf(),
                    u.nrows == m,
                    u.ncols == m,
                    k < n,
                    n <= m,
                    j < m,
                    k <= i <= m,
                decreases m - i,
            {
                u.set(j, i, u.get(j, i).sub(tau.mul(a.get(i, k))));
                i += 1;
            }
            j += 1;
        }
        if k < n - 1 {
            let mut sum = T::zero();
            let mut i: usize = k + 1;
            while i < n
                invariant
                    a.wf(),
                    a.nrows == m,
                    a.ncols == n,
                    k < n,
                    n <= m,
                    k + 1 <= i <= n,
                decreases n - i,
            {
                sum = sum.add(a.get(k, i).mul(a.get(k, i)));
                i += 1;
            }
            let s = sum.sqrt();
            let t = a.get(k, k + 1).sub(s.copysign(a.get(k, k + 1)));
            sum = sum.add(t.mul(t).sub(a.get(k, k + 1).mul(a.get(k, k + 1))));
            let norm = sum.sqrt();
            a.set(k, k + 1, s);
            let mut j: usize = k + 1;
            while j < n
                invariant
                    a.wf(),
                    a.nrows == m,
                    a.ncols == n,
                    v.wf(),
                    v.nrows == n,
                    v.ncols == n,
                    k < n,
                    k + 1 < n,
                    n <= m,
                    k + 1 <= j <= n,
                decreases n - j,
            {
                let mut sum2 = T::zero();
                let mut i: usize = k + 1;
                while i < n
                    invariant
                        a.wf(),
                        a.nrows == m,
                        a.ncols == n,
                        v.wf(),
                        v.nrows == n,
                        v.ncols == n,
                        k + 1 < n,
                        n <= m,
                        j < n,
                        k + 1 <= i <= n,
                    decreases n - i,
                {
                    sum2 = sum2.add(v.get(i, j).mul(a.get(k, i)));
                    i += 1;
                }
                let tau = sum2.div(norm).mul(T::from_usize(2));
                let mut i: usize = k + 1;
                while i < n
                    invariant
                        a.wf(),
                        a.nrows == m,
                        a.ncols == n,
                        v.wf(),
                        v.nrows == n,
                        v.ncols == n,
                        k + 1 < n,
                        n <= m,
                        j < n,
                        k + 1 <= i <= n,
                    decreases n - i,
                {
                    v.set(i, j, v.get(i, j).sub(tau.mul(a.get(k, i))));
                    i += 1;
                }
                j += 1;
            }
        }
        k += 1;
    }
    let mut i: usize = 0;
    while i < m
        invariant
            a.wf(),
            a.nrows == m,
            a.ncols == n,
            i <= m,
        decreases m - i,
    {
        let mut j: usize = 0;
        while j < n
            invariant
                a.wf(),
                a.nrows == m,
                a.ncols == n,
                i < m,
                j <= n,
            decreases n - j,
        {
            if !(i == j || i + 1 == j) {
                a.set(i, j, T::zero());
            }
            j += 1;
        }
        i += 1;
    }
    let eps = T::pow10_neg(7);
    let mut q: usize = 0;
    let mut sweeps_left: usize = usize::MAX;
    while sweeps_left > 0
        invariant
            a.wf(),
            a.nrows == m,
            a.ncols == n,
            u.wf(),
            u.nrows == m,
            u.ncols == m,
            v.wf(),
            v.nrows == n,
            v.ncols == n,
            1 <= n <= m,
            q < n,
        decreases sweeps_left,
    {
        sweeps_left -= 1;
        let mut i: usize = 0;
        while i < n - 1
            invariant
                a.wf(),
                a.nrows == m,
                a.ncols == n,
                1 <= n <= m,
                i <= n - 1,
            decreases n - 1 - i,
        {
            let rel = a.get(i, i).abs().add(a.get(i + 1, i + 1).abs()).abs().mul(eps);
            if a.get(i, i + 1).abs().lt(rel) {
                a.set(i, i + 1, T::zero());
            }
            i += 1;
        }
        let mut found = false;
        let mut i: usize = n;
        while i > 1
            invariant
                a.wf(),
                a.nrows == m,
                a.ncols == n,
                1 <= n <= m,
                1 <= i <= n,
                q < n,
                found ==> q < n - 1,
            decreases i,
        {
            i -= 1;
            if eps.lt(a.get(i - 1, i).abs()) {
                q = n - 1 - i;
                found = true;
                break ;
            }
        }
        if !found && n > 1 {
            q = n - 1;
        }
        if q == n - 1 {
            break ;
        }
        let mut p: usize = 0;
        let mut i: usize = 0;
        while i < n - q - 1
            invariant
                a.wf(),
                a.nrows == m,
                a.ncols == n,
                1 <= n <= m,
                q < n - 1,
                i <= n - q - 1,
                p <= n - q - 1,
            decreases n - q - 1 - i,
        {
            if a.get(i, i + 1).abs().lt(eps) {
                p = i + 1;
            }
            i += 1;
        }
        let mut flag = false;
        let mut i: usize = p;
        while i < n - q - 1
            invariant
                a.wf(),
                a.nrows == m,
                a.ncols == n,
                1 <= n <= m,
                q < n - 1,
                p <= i,
                i <= n - q - 1,
            decreases n - q - 1 - i,
        {
            if a.get(i, i).abs().lt(eps) {
                let norm = a.get(i, i + 1).square().add(a.get(i + 1, i + 1).square());
                let nsin = a.get(i, i + 1).div(norm);
                let cos = a.get(i + 1, i + 1).div(norm);
                a.set(
                    i + 1,
                    i + 1,
                    nsin.mul(a.get(i, i + 1)).add(cos.mul(a.get(i + 1, i + 1))),
                );
                a.set(i, i + 1, T::zero());
                flag = true;
            }
            i += 1;
        }
        if flag {
            continue ;
        }
        let idx = n - q - 2;
        let c00 = a.get(idx, idx).square();
        let c10 = a.get(idx, idx).mul(a.get(idx, idx + 1));
        let c11 = a.get(idx, idx + 1).square().add(a.get(idx + 1, idx + 1).square());
        let nume0 = c10.mul(T::from_usize(2)).square();
        let nume1 = c00.mul(c11).sub(c10.square());
        let nume = nume0.sub(nume1.mul(T::from_usize(4)));
        let l1 = c00.add(c11).add(nume).mul(T::half());
        let l2 = c00.add(c11).sub(nume).mul(T::half());
        let mu = if l1.sub(a.get(idx + 1, idx + 1)).abs().lt(
            l2.sub(a.get(idx + 1, idx + 1)).abs(),
        ) {
            l1
        } else {
            l2
        };
        if p + 1 >= n - q {
            continue ;
        }
        let mut alpha = a.get(p, p).square().sub(mu);
        let mut beta = a.get(p, p).mul(a.get(p, p + 1));
        let mut k: usize = p;
        while k < n - q - 1
            invariant
                a.wf(),
                a.nrows == m,
                a.ncols == n,
                u.wf(),
                u.nrows == m,
                u.ncols == m,
                v.wf(),
                v.nrows == n,
                v.ncols == n,
                1 <= n <= m,
                q < n - 1,
                p <= k,
                k <= n - q - 1,
            decreases n - q - 1 - k,
        {
            let norm = alpha.norm(beta);
            let cos = alpha.div(norm);
            let sin = beta.neg().div(norm);
            givens_right(cos, sin, a, k);
            givens_right(cos, sin, v, k);
            alpha = a.get(k, k);
            beta = a.get(k + 1, k);
            let norm = alpha.norm(beta);
            let cos = alpha.div(norm);
            let sin = beta.neg().div(norm);
            givens_right(cos, sin, a, k);
            givens_right(cos, sin, u, k);
            if k + 2 < n - q {
                alpha = a.get(k, k + 1);
                beta = a.get(k, k + 2);
            }
            k += 1;
        }
    }
    let mut i: usize = 0;
    while i < n
        invariant
            a.wf(),
            a.nrows == m,
            a.ncols == n,
            w@.len() == n,
            n <= m,
            i <= n,
        decreases n - i,
    {
        w[i] = a.get(i, i);
        i += 1;
    }
}

impl<T: MatLinAlgBound> SVD<T> {
    /// Both orthogonal factors are square of their side and there is at
    /// least one column and no more columns than rows.
    pub open spec fn wf(self) -> bool {
        &&& self.u.wf()
        &&& self.u.nrows == self.m
        &&& self.u.ncols == self.m
        &&& self.v.wf()
        &&& self.v.nrows == self.n
        &&& self.v.ncols == self.n
        &&& self.w@.len() == self.n
        &&& 1 <= self.n <= self.m
    }

    /// Decomposes `a` (consumed): bidiagonalizes, iterates the
    /// implicit-shift reduction until the unreduced block vanishes, and
    /// derives the rank threshold from the machine epsilon and the first
    /// singular value.
    pub fn new(a: Matrix<T>) -> (sv: SVD<T>)
        requires
            a.wf(),
            1 <= a.ncols <= a.nrows,
            a.nrows * a.nrows <= usize::MAX,
            a.nrows + a.ncols + 1 <= usize::MAX,
        ensures
            sv.wf(),
            sv.m == a.nrows,
            sv.n == a.ncols,
            sv.eps == T::spec_machine_eps(),
            sv.tsh == svd_tsh_spec::<T>(sv.w@, a.nrows as int, a.ncols as int),
    {
        let mut a = a;
        let m = a.rows();
        let n = a.cols();
        proof {
            vstd::arithmetic::mul::lemma_mul_upper_bound(
                n as int,
                m as int,
                n as int,
                m as int,
            );
        }
        let mut u = Matrix::<T>::identity(m);
        let mut v = Matrix::<T>::identity(n);
        let mut w: Vec<T> = vec_fill(T::zero(), n);
        let eps = T::machine_eps();
        svd_decompose(&mut a, &mut u, &mut v, &mut w, m, n);
        let mut wmax = w[0];
        let mut j: usize = 1;
        while j < n
            invariant
                w@.len() == n,
                1 <= j <= n || (n == 1 && j == 1),
                wmax == svd_wmax(w@, j as int),
            decreases n - j,
        {
            if wmax.lt(w[j]) {
                wmax = w[j];
            }
            j += 1;
        }
        let tsh = T::half().mul(T::from_usize(m + n + 1).sqrt()).mul(wmax).mul(eps);
        SVD { m, n, u, v, w, eps, tsh }
    }

    /// Pseudo-inverse solve `x = V diag(1/w) U^T b`, silently zeroing the
    /// components whose singular value is not positive. Fails with
    /// `InvalidSize` exactly when the operand lengths disagree with the
    /// decomposition's shape, leaving `x` unchanged; on success every
    /// entry of `x` is pinned to the [`svd_vsum`] recurrence over the
    /// pseudo-inverse intermediate.
    pub fn solve(&self, b: &Vec<T>, x: &mut Vec<T>) -> (res: Result<(), LinAlgError>)
        requires
            self.wf(),
        ensures
            final(x)@.len() == old(x)@.len(),
            (res is Ok) <==> (b@.len() == self.m && old(x)@.len() == self.n),
            res matches Err(e) ==> e == LinAlgError::InvalidSize() && final(x)@ == old(x)@,
            res is Ok ==> forall|j: int|
                0 <= j < self.n ==> final(x)@[j] == svd_vsum(
                    self.v.data@,
                    self.n as int,
                    Seq::new(
                        self.n as nat,
                        |t: int| svd_tmp_val(self.u.data@, self.m as int, self.w@, b@, t),
                    ),
                    j,
                    self.n as int,
                ),
    {
        if b.len() != self.m || x.len() != self.n {
            return Err(LinAlgError::InvalidSize());
        }
        let m = self.m;
        let n = self.n;
        let ghost tmps = Seq::new(
            n as nat,
            |t: int| svd_tmp_val(self.u.data@, m as int, self.w@, b@, t),
        );
        let mut tmp: Vec<T> = vec_fill(T::zero(), n);
        let mut j: usize = 0;
        while j < n
            invariant
                self.wf(),
                m == self.m,
                n == self.n,
                b@.len() == m,
                tmp@.len() == n,
                tmps == Seq::new(
                    n as nat,
                    |t: int| svd_tmp_val(self.u.data@, m as int, self.w@, b@, t),
                ),
                j <= n,
                forall|t: int| 0 <= t < j ==> tmp@[t] == tmps[t],
            decreases n - j,
        {
            let mut s = T::zero();
            if T::zero().lt(self.w[j]) {
                let mut i: usize = 0;
                while i < m
                    invariant
                        self.wf(),
                        m == self.m,
                        n == self.n,
                        b@.len() == m,
                        j < n,
                        i <= m,
                        s == svd_usum(self.u.data@, m as int, b@, j as int, i as int),
                    decreases m - i,
                {
                    s = s.add(self.u.get(i, j).mul(b[i]));
                    i += 1;
                }
                s = s.div(self.w[j]);
            }
            tmp[j] = s;
            j += 1;
        }
        let mut j: usize = 0;
        while j < n
            invariant
                self.wf(),
                m == self.m,
                n == self.n,
                x@.len() == n,
                tmp@.len() == n,
                tmp@ == tmps,
                tmps.len() == n,
                j <= n,
                forall|t: int|
                    0 <= t < j ==> x@[t] == svd_vsum(self.v.data@, n as int, tmps, t, n as int),
            decreases n - j,
        {
            let mut s = T::zero();
            let mut i: usize = 0;
            while i < n
                invariant
                    self.wf(),
                    n == self.n,
                    tmp@.len() == n,
                    tmp@ == tmps,
                    j < n,
                    i <= n,
                    s == svd_vsum(self.v.data@, n as int, tmps, j as int, i as int),
                decreases n - i,
            {
                s = s.add(self.v.get(j, i).mul(tmp[i]));
                i += 1;
            }
            x[j] = s;
            j += 1;
        }
        proof {
            assert(tmp@ =~= tmps);
        }
        Ok(())
    }

    /// Solves column by column against a multi-column right-hand side,
    /// writing each pseudo-inverse solution into the matching column of
    /// `x`. For a square decomposition every written column is pinned to
    /// the pseudo-inverse of the matching column of `b`; otherwise the
    /// per-column solves all reject their operands, their failures are
    /// swallowed, and the written columns stay zero, as the pseudo-inverse
    /// policy prescribes.
    pub fn solve_mat(&self, b: &Matrix<T>, x: &mut Matrix<T>) -> (res: Result<(), LinAlgError>)
        requires
            self.wf(),
            b.wf(),
            old(x).wf(),
            self.m <= b.ncols,
        ensures
            final(x).wf(),
            final(x).nrows == old(x).nrows,
            final(x).ncols == old(x).ncols,
            (res is Ok) <==> (b.nrows == self.n && old(x).nrows == self.n && b.ncols == old(
                x,
            ).ncols),
            res matches Err(e) ==> e == LinAlgError::InvalidSize() && final(x).data@ == old(
                x,
            ).data@,
            res is Ok && self.m == self.n ==> forall|i: int, j: int|
                0 <= i < self.n && 0 <= j < self.m ==> #[trigger] final(x).at(i, j) == svd_vsum(
                    self.v.data@,
                    self.n as int,
                    Seq::new(
                        self.n as nat,
                        |t: int|
                            svd_tmp_val(
                                self.u.data@,
                                self.m as int,
                                self.w@,
                                Seq::new(self.n as nat, |i2: int| b.at(i2, j)),
                                t,
                            ),
                    ),
                    i,
                    self.n as int,
                ),
            res is Ok && self.m != self.n ==> forall|i: int, j: int|
                0 <= i < self.n && 0 <= j < self.m ==> #[trigger] final(x).at(i, j)
                    == T::spec_zero(),
    {
        if b.rows() != self.n || x.rows() != self.n || b.cols() != x.cols() {
            return Err(LinAlgError::InvalidSize());
        }
        let n = self.n;
        let mut tmp: Vec<T> = vec_fill(T::zero(), n);
        let mut j: usize = 0;
        while j < self.m
            invariant
                self.wf(),
                b.wf(),
                x.wf(),
                n == self.n,
                b.nrows == n,
                x.nrows == n,
                b.ncols == x.ncols,
                self.m <= b.ncols,
                x.ncols == old(x).ncols,
                tmp@.len() == n,
                j <= self.m,
                self.m != n ==> forall|t: int| 0 <= t < n ==> tmp@[t] == T::spec_zero(),
                self.m == n ==> forall|i2: int, j2: int|
                    0 <= i2 < n && 0 <= j2 < j ==> #[trigger] x.at(i2, j2) == svd_vsum(
                        self.v.data@,
                        n as int,
                        Seq::new(
                            n as nat,
                            |t: int|
                                svd_tmp_val(
                                    self.u.data@,
                                    self.m as int,
                                    self.w@,
                                    Seq::new(n as nat, |i3: int| b.at(i3, j2)),
                                    t,
                                ),
                        ),
                        i2,
                        n as int,
                    ),
                self.m != n ==> forall|i2: int, j2: int|
                    0 <= i2 < n && 0 <= j2 < j ==> #[trigger] x.at(i2, j2) == T::spec_zero(),
            decreases self.m - j,
        {
            let col = b.get_col(j);
            proof {
                assert(col@ =~= Seq::new(n as nat, |i2: int| b.at(i2, j as int)));
            }
            let _ = self.solve(&col, &mut tmp);
            let mut i: usize = 0;
            while i < n
                invariant
                    self.wf(),
                    x.wf(),
                    n == self.n,
                    x.nrows == n,
                    x.ncols == old(x).ncols,
                    b.wf(),
                    b.nrows == n,
                    b.ncols == x.ncols,
                    self.m <= b.ncols,
                    j < self.m,
                    tmp@.len() == n,
                    i <= n,
                    self.m != n ==> forall|t: int| 0 <= t < n ==> tmp@[t] == T::spec_zero(),
                    self.m == n ==> forall|t: int|
                        0 <= t < n ==> tmp@[t] == svd_vsum(
                            self.v.data@,
                            n as int,
                            Seq::new(
                                n as nat,
                                |t2: int|
                                    svd_tmp_val(
                                        self.u.data@,
                                        self.m as int,
                                        self.w@,
                                        Seq::new(n as nat, |i3: int| b.at(i3, j as int)),
                                        t2,
                                    ),
                            ),
                            t,
                            n as int,
                        ),
                    self.m == n ==> forall|i2: int, j2: int|
                        0 <= i2 < n && 0 <= j2 < j ==> #[trigger] x.at(i2, j2) == svd_vsum(
                            self.v.data@,
                            n as int,
                            Seq::new(
                                n as nat,
                                |t: int|
                                    svd_tmp_val(
                                        self.u.data@,
                                        self.m as int,
                                        self.w@,
                                        Seq::new(n as nat, |i3: int| b.at(i3, j2)),
                                        t,
                                    ),
                            ),
                            i2,
                            n as int,
                        ),
                    self.m != n ==> forall|i2: int, j2: int|
                        0 <= i2 < n && 0 <= j2 < j ==> #[trigger] x.at(i2, j2) == T::spec_zero(),
                    self.m == n ==> forall|i2: int|
                        0 <= i2 < i ==> #[trigger] x.at(i2, j as int) == tmp@[i2],
                    self.m != n ==> forall|i2: int|
                        0 <= i2 < i ==> #[trigger] x.at(i2, j as int) == T::spec_zero(),
                decreases n - i,
            {
                x.set(i, j, tmp[i]);
                i += 1;
            }
            j += 1;
        }
        Ok(())
    }

    /// The number of singular values strictly above the rank threshold,
    /// pinned to [`svd_rank_count`].
    pub fn rank(&self) -> (r: usize)
        requires
            self.wf(),
        ensures
            r == svd_rank_count(self.w@, self.tsh, self.n as int),
            r <= self.n,
    {
        let mut cnt: usize = 0;
        let mut j: usize = 0;
        while j < self.n
            invariant
                self.wf(),
                j <= self.n,
                cnt == svd_rank_count(self.w@, self.tsh, j as int),
                cnt <= j,
            decreases self.n - j,
        {
            if self.tsh.lt(self.w[j]) {
                cnt += 1;
            }
            j += 1;
        }
        cnt
    }

    /// The number of singular values at or below the rank threshold,
    /// pinned to [`svd_null_count`].
    pub fn nullity(&self) -> (r: usize)
        requires
            self.wf(),
        ensures
            r == svd_null_count(self.w@, self.tsh, self.n as int),
            r <= self.n,
    {
        let mut cnt: usize = 0;
        let mut j: usize = 0;
        while j < self.n
            invariant
                self.wf(),
                j <= self.n,
                cnt == svd_null_count(self.w@, self.tsh, j as int),
                cnt <= j,
            decreases self.n - j,
        {
            if self.w[j].le(self.tsh) {
                cnt += 1;
            }
            j += 1;
        }
        cnt
    }

    /// The columns of `u` whose singular values lie above the threshold:
    /// an `m` by `rank` basis of the range. The column kept for index `j`
    /// lands at position [`svd_rank_count`]`(w, tsh, j)`, so the kept
    /// columns appear in ascending `j` and each equals the matching
    /// column of `u`.
    pub fn range(&self) -> (r: Matrix<T>)
        requires
            self.wf(),
        ensures
            r.wf(),
            r.nrows == self.m,
            r.ncols == svd_rank_count(self.w@, self.tsh, self.n as int),
            forall|i: int, j: int|
                0 <= i < self.m && 0 <= j < self.n && self.tsh.spec_lt(self.w@[j])
                    ==> #[trigger] r.at(i, svd_rank_count(self.w@, self.tsh, j)) == self.u.at(i, j),
    {
        let rnk = self.rank();
        proof {
            vstd::arithmetic::mul::lemma_mul_upper_bound(
                self.m as int,
                self.u.nrows as int,
                rnk as int,
                self.u.ncols as int,
            );
        }
        let mut range_mat = Matrix::new(self.m, rnk, vec_fill(T::zero(), self.m * rnk));
        let mut cnt: usize = 0;
        let mut j: usize = 0;
        while j < self.n
            invariant
                self.wf(),
                range_mat.wf(),
                range_mat.nrows == self.m,
                range_mat.ncols == rnk,
                rnk == svd_rank_count(self.w@, self.tsh, self.n as int),
                j <= self.n,
                cnt == svd_rank_count(self.w@, self.tsh, j as int),
                forall|i2: int, j2: int|
                    0 <= i2 < self.m && 0 <= j2 < j && self.tsh.spec_lt(self.w@[j2])
                        ==> #[trigger] range_mat.at(
                        i2,
                        svd_rank_count(self.w@, self.tsh, j2),
                    ) == self.u.at(i2, j2),
            decreases self.n - j,
        {
            if self.tsh.lt(self.w[j]) {
                proof {
                    lemma_rank_count_bounds(self.w@, self.tsh, j as int + 1, self.n as int);
                }
                let mut i: usize = 0;
                while i < self.m
                    invariant
                        self.wf(),
                        range_mat.wf(),
                        range_mat.nrows == self.m,
                        range_mat.ncols == rnk,
                        j < self.n,
                        self.tsh.spec_lt(self.w@[j as int]),
                        cnt == svd_rank_count(self.w@, self.tsh, j as int),
                        cnt < rnk,
                        i <= self.m,
                        forall|i2: int, j2: int|
                            0 <= i2 < self.m && 0 <= j2 < j && self.tsh.spec_lt(self.w@[j2])
                                ==> #[trigger] range_mat.at(
                                i2,
                                svd_rank_count(self.w@, self.tsh, j2),
                            ) == self.u.at(i2, j2),
                        forall|i2: int|
                            0 <= i2 < i ==> #[trigger] range_mat.at(i2, cnt as int) == self.u.at(
                                i2,
                                j as int,
                            ),
                    decreases self.m - i,
                {
                    let val = self.u.get(i, j);
                    let ghost pre = range_mat;
                    range_mat.set(i, cnt, val);
                    proof {
                        assert forall|i2: int, j2: int|
                            0 <= i2 < self.m && 0 <= j2 < j && self.tsh.spec_lt(self.w@[j2])
                                implies #[trigger] range_mat.at(
                                i2,
                                svd_rank_count(self.w@, self.tsh, j2),
                            ) == self.u.at(i2, j2) by {
                            lemma_rank_count_bounds(self.w@, self.tsh, 0, j2);
                            lemma_rank_count_bounds(self.w@, self.tsh, j2 + 1, j as int);
                            assert(svd_rank_count(self.w@, self.tsh, j2) < cnt);
                            assert(range_mat.at(i2, svd_rank_count(self.w@, self.tsh, j2))
                                == pre.at(i2, svd_rank_count(self.w@, self.tsh, j2)));
                        }
                    }
                    i += 1;
                }
                cnt += 1;
            }
            j += 1;
        }
        range_mat
    }

    /// The columns of `v` whose singular values lie at or below the
    /// threshold: an `n` by `nullity` basis of the null space. The column
    /// kept for index `j` lands at position [`svd_null_count`]`(w, tsh,
    /// j)`, so the kept columns appear in ascending `j` and each equals
    /// the matching column of `v`.
    pub fn nullspace(&self) -> (r: Matrix<T>)
        requires
            self.wf(),
        ensures
            r.wf(),
            r.nrows == self.n,
            r.ncols == svd_null_count(self.w@, self.tsh, self.n as int),
            forall|i: int, j: int|
                0 <= i < self.n && 0 <= j < self.n && self.w@[j].spec_le(self.tsh)
                    ==> #[trigger] r.at(i, svd_null_count(self.w@, self.tsh, j)) == self.v.at(i, j),
    {
        let nul = self.nullity();
        proof {
            vstd::arithmetic::mul::lemma_mul_upper_bound(
                self.n as int,
                self.v.nrows as int,
                nul as int,
                self.v.ncols as int,
            );
        }
        let mut null_mat = Matrix::new(self.n, nul, vec_fill(T::zero(), self.n * nul));
        let mut cnt: usize = 0;
        let mut j: usize = 0;
        while j < self.n
            invariant
                self.wf(),
                null_mat.wf(),
                null_mat.nrows == self.n,
                null_mat.ncols == nul,
                nul == svd_null_count(self.w@, self.tsh, self.n as int),
                j <= self.n,
                cnt == svd_null_count(self.w@, self.tsh, j as int),
                forall|i2: int, j2: int|
                    0 <= i2 < self.n && 0 <= j2 < j && self.w@[j2].spec_le(self.tsh)
                        ==> #[trigger] null_mat.at(
                        i2,
                        svd_null_count(self.w@, self.tsh, j2),
                    ) == self.v.at(i2, j2),
            decreases self.n - j,
        {
            if self.w[j].le(self.tsh) {
                proof {
                    lemma_null_count_bounds(self.w@, self.tsh, j as int + 1, self.n as int);
                }
                let mut i: usize = 0;
                while i < self.n
                    invariant
                        self.wf(),
                        null_mat.wf(),
                        null_mat.nrows == self.n,
                        null_mat.ncols == nul,
                        j < self.n,
                        self.w@[j as int].spec_le(self.tsh),
                        cnt == svd_null_count(self.w@, self.tsh, j as int),
                        cnt < nul,
                        i <= self.n,
                        forall|i2: int, j2: int|
                            0 <= i2 < self.n && 0 <= j2 < j && self.w@[j2].spec_le(self.tsh)
                                ==> #[trigger] null_mat.at(
                                i2,
                                svd_null_count(self.w@, self.tsh, j2),
                            ) == self.v.at(i2, j2),
                        forall|i2: int|
                            0 <= i2 < i ==> #[trigger] null_mat.at(i2, cnt as int) == self.v.at(
                                i2,
                                j as int,
                            ),
                    decreases self.n - i,
                {
                    let val = self.v.get(i, j);
                    let ghost pre = null_mat;
                    null_mat.set(i, cnt, val);
                    proof {
                        assert forall|i2: int, j2: int|
                            0 <= i2 < self.n && 0 <= j2 < j && self.w@[j2].spec_le(self.tsh)
                                implies #[trigger] null_mat.at(
                                i2,
                                svd_null_count(self.w@, self.tsh, j2),
                            ) == self.v.at(i2, j2) by {
                            lemma_null_count_bounds(self.w@, self.tsh, 0, j2);
                            lemma_null_count_bounds(self.w@, self.tsh, j2 + 1, j as int);
                            assert(svd_null_count(self.w@, self.tsh, j2) < cnt);
                            assert(null_mat.at(i2, svd_null_count(self.w@, self.tsh, j2))
                                == pre.at(i2, svd_null_count(self.w@, self.tsh, j2)));
                        }
                    }
                    i += 1;
                }
                cnt += 1;
            }
            j += 1;
        }
        null_mat
    }
}

} // verus!
