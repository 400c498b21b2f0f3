use vstd::prelude::*;

use crate::matrix::vec_fill;
use crate::scalar::MatLinAlgBound;

verus! {

/// The sum of the first `k` entries of a sequence of counters.
pub open spec fn usum(s: Seq<usize>, k: int) -> int
    decreases k,
{
    if k <= 0 {
        0
    } else {
        usum(s, k - 1) + s[k - 1]
    }
}

proof fn lemma_usum_zero(s: Seq<usize>, k: int)
    requires
        forall|t: int| 0 <= t < k ==> s[t] == 0,
    ensures
        usum(s, k) == 0,
    decreases k,
{
    if k > 0 {
        lemma_usum_zero(s, k - 1);
    }
}

proof fn lemma_usum_update(s: Seq<usize>, t: int, v: usize, k: int)
    requires
        0 <= t < s.len(),
        k <= s.len(),
    ensures
        usum(s.update(t, v), k) == usum(s, k) + (if t < k {
            v - s[t]
        } else {
            0int
        }),
    decreases k,
{
    if k > 0 {
        lemma_usum_update(s, t, v, k - 1);
    }
}

proof fn lemma_usum_lower(s: Seq<usize>, t: int, k: int)
    requires
        0 <= t < k <= s.len(),
    ensures
        s[t] <= usum(s, k),
        0 <= usum(s, k),
    decreases k,
{
    if k > 0 {
        if t == k - 1 {
            lemma_usum_nonneg(s, k - 1);
        } else {
            lemma_usum_lower(s, t, k - 1);
        }
    }
}

proof fn lemma_usum_nonneg(s: Seq<usize>, k: int)
    ensures
        0 <= usum(s, k),
    decreases k,
{
    if k > 0 {
        lemma_usum_nonneg(s, k - 1);
    }
}

proof fn lemma_usum_mono(s: Seq<usize>, j: int, k: int)
    requires
        0 <= j <= k,
    ensures
        usum(s, j) <= usum(s, k),
    decreases k,
{
    if k > j {
        lemma_usum_mono(s, j, k - 1);
    }
}

/// How many of the first `p` entries of `ri` reference row `k`.
pub open spec fn occ(ri: Seq<usize>, k: int, p: int) -> int
    decreases p,
{
    if p <= 0 {
        0
    } else {
        occ(ri, k, p - 1) + (if ri[p - 1] == k {
            1int
        } else {
            0int
        })
    }
}

/// In a sequence whose adjacent entries are non-decreasing on `0..len-1`,
/// any earlier entry is at most any later one.
pub proof fn lemma_monotone_prefix(s: Seq<usize>, lo: int, hi: int)
    requires
        0 <= lo <= hi < s.len(),
        forall|t: int| 0 <= t < s.len() - 1 ==> #[trigger] s[t] <= s[t + 1],
    ensures
        s[lo] <= s[hi],
    decreases hi - lo,
{
    if lo < hi {
        lemma_monotone_prefix(s, lo, hi - 1);
        assert(s[hi - 1] <= s[hi]);
    }
}

proof fn lemma_occ_bounds(ri: Seq<usize>, k: int, p: int)
    ensures
        0 <= occ(ri, k, p),
        p >= 0 ==> occ(ri, k, p) <= p,
    decreases p,
{
    if p > 0 {
        lemma_occ_bounds(ri, k, p - 1);
    }
}

proof fn lemma_occ_mono(ri: Seq<usize>, k: int, p: int, q: int)
    requires
        p <= q,
    ensures
        occ(ri, k, p) <= occ(ri, k, q),
    decreases q - p,
{
    if q > p {
        lemma_occ_mono(ri, k, p, q - 1);
    }
}

/// The destination slot of source entry `j` under a transposition whose
/// segment bases are `cp_at`: the base of the segment of the entry's row,
/// plus how many earlier entries share that row.
pub open spec fn tslot(ri: Seq<usize>, cp_at: Seq<usize>, j: int) -> int {
    cp_at[ri[j] as int] + occ(ri, ri[j] as int, j)
}

/// The column that stores slot `j` in a matrix whose first `n` segment
/// bounds are `cp`: the largest column whose segment starts at or before
/// `j`.
pub open spec fn col_of(cp: Seq<usize>, n: int, j: int) -> int
    decreases n,
{
    if n <= 1 {
        0
    } else if cp[n - 1] <= j {
        n - 1
    } else {
        col_of(cp, n - 1, j)
    }
}

proof fn lemma_mono_range(cp: Seq<usize>, lo: int, hi: int, n: int)
    requires
        0 <= lo <= hi <= n,
        n < cp.len(),
        forall|t: int| 0 <= t < n ==> #[trigger] cp[t] <= cp[t + 1],
    ensures
        cp[lo] <= cp[hi],
    decreases hi - lo,
{
    if lo < hi {
        lemma_mono_range(cp, lo, hi - 1, n);
    }
}

/// A slot inside column `i`'s segment is attributed to column `i`.
pub proof fn lemma_col_of(cp: Seq<usize>, n: int, i: int, j: int)
    requires
        n + 1 <= cp.len(),
        forall|t: int| 0 <= t < n ==> #[trigger] cp[t] <= cp[t + 1],
        0 <= i < n,
        cp[i] <= j < cp[i + 1],
    ensures
        col_of(cp, n, j) == i,
    decreases n,
{
    if i < n - 1 {
        lemma_mono_range(cp, i + 1, n - 1, n);
        lemma_col_of(cp, n - 1, i, j);
    }
}

/// A slot inside the filled prefix of another row's destination segment
/// differs from entry `j`'s own destination slot.
proof fn lemma_slot_sep(ri: Seq<usize>, cpat: Seq<usize>, m: int, nv: int, j: int, k2: int, t: int)
    requires
        cpat.len() == m + 1,
        forall|q: int| 0 <= q < m ==> #[trigger] cpat[q] <= cpat[q + 1],
        forall|q: int| 0 <= q < m ==> #[trigger] cpat[q + 1] == cpat[q] + occ(ri, q, nv),
        0 <= j < nv,
        ri[j] < m,
        0 <= k2 < m,
        k2 != ri[j] as int,
        cpat[k2] <= t < cpat[k2] + occ(ri, k2, j),
    ensures
        t != cpat[ri[j] as int] + occ(ri, ri[j] as int, j),
{
    let kk = ri[j] as int;
    lemma_occ_mono(ri, k2, j, nv);
    lemma_occ_bounds(ri, k2, j);
    lemma_occ_mono(ri, kk, j + 1, nv);
    lemma_occ_bounds(ri, kk, j);
    assert(occ(ri, kk, j + 1) == occ(ri, kk, j) + 1);
    if k2 < kk {
        lemma_mono_range(cpat, k2 + 1, kk, m);
    } else {
        lemma_mono_range(cpat, kk + 1, k2, m);
    }
}

/// After one scatter write, the per-slot placement extends to entry `j`:
/// slot `j2`'s destination still holds its source column and value.
proof fn lemma_scatter_place_at<T>(
    ri: Seq<usize>,
    cp: Seq<usize>,
    vs: Seq<T>,
    cpat: Seq<usize>,
    ari0: Seq<usize>,
    av0: Seq<T>,
    cnt0: Seq<usize>,
    ari1: Seq<usize>,
    av1: Seq<T>,
    cnt1: Seq<usize>,
    m: int,
    n: int,
    nv: int,
    i: usize,
    j: int,
    j2: int,
)
    requires
        ri.len() == nv,
        cp.len() == n + 1,
        vs.len() == nv,
        cpat.len() == m + 1,
        ari0.len() == nv,
        av0.len() == nv,
        cnt0.len() == m,
        forall|t: int| 0 <= t < n ==> #[trigger] cp[t] <= cp[t + 1],
        forall|q: int| 0 <= q < m ==> #[trigger] cpat[q] <= cpat[q + 1],
        forall|q: int| 0 <= q < m ==> #[trigger] cpat[q + 1] == cpat[q] + occ(ri, q, nv),
        cpat[m] == nv,
        0 <= i < n,
        cp[i as int] <= j < cp[i as int + 1],
        cp[n] == nv,
        forall|t: int| 0 <= t < nv ==> #[trigger] ri[t] < m,
        forall|k: int| 0 <= k < m ==> #[trigger] cnt0[k] == occ(ri, k, j),
        forall|j2: int|
            0 <= j2 < j ==> 0 <= #[trigger] tslot(ri, cpat, j2) < nv && ari0[tslot(
                ri,
                cpat,
                j2,
            )] as int == col_of(cp, n, j2) && av0[tslot(ri, cpat, j2)] == vs[j2],
        forall|k: int, t: int|
            #![trigger cpat[k], ari0[t]]
            0 <= k < m && cpat[k] <= t < cpat[k] + cnt0[k] ==> ari0[t] <= i,
        forall|k: int, t1: int, t2: int|
            #![trigger cpat[k], ari0[t1], ari0[t2]]
            0 <= k < m && cpat[k] <= t1 <= t2 < cpat[k] + cnt0[k] ==> ari0[t1] <= ari0[t2],
        0 <= tslot(ri, cpat, j) < nv,
        ari1 == ari0.update(tslot(ri, cpat, j), i),
        av1 == av0.update(tslot(ri, cpat, j), vs[j]),
        cnt1 == cnt0.update(ri[j] as int, (cnt0[ri[j] as int] + 1) as usize),
        cnt0[ri[j] as int] + 1 <= usize::MAX,
        0 <= j2 < j + 1,
    ensures
        0 <= tslot(ri, cpat, j2) < nv,
        ari1[tslot(ri, cpat, j2)] as int == col_of(cp, n, j2),
        av1[tslot(ri, cpat, j2)] == vs[j2],
{
    lemma_mono_range(cp, i as int + 1, n, n);
    assert(j < nv);
    assert(ri[j] < m);
    let kk = ri[j] as int;
    let ck = cnt0[kk];
    let index = tslot(ri, cpat, j);
    assert(index == cpat[kk] + ck);
    let k2 = ri[j2] as int;
    if j2 == j {
        lemma_col_of(cp, n, i as int, j);
    } else {
        lemma_occ_bounds(ri, k2, j2);
        lemma_occ_mono(ri, k2, j2 + 1, j);
        assert(occ(ri, k2, j2 + 1) == occ(ri, k2, j2) + 1);
        if k2 == kk {
            assert(tslot(ri, cpat, j2) < cpat[kk] + ck);
        } else {
            lemma_slot_sep(ri, cpat, m, nv, j, k2, tslot(ri, cpat, j2));
        }
        assert(tslot(ri, cpat, j2) != index);
        assert(ari1[tslot(ri, cpat, j2)] == ari0[tslot(ri, cpat, j2)]);
        assert(av1[tslot(ri, cpat, j2)] == av0[tslot(ri, cpat, j2)]);
    }
}

/// After one scatter write, a pair of slots in any filled prefix is
/// still sorted by source column, and each stays bounded by the current
/// one.
proof fn lemma_scatter_sorted_at<T>(
    ri: Seq<usize>,
    cp: Seq<usize>,
    vs: Seq<T>,
    cpat: Seq<usize>,
    ari0: Seq<usize>,
    av0: Seq<T>,
    cnt0: Seq<usize>,
    ari1: Seq<usize>,
    av1: Seq<T>,
    cnt1: Seq<usize>,
    m: int,
    n: int,
    nv: int,
    i: usize,
    j: int,
    k2: int,
    t1: int,
    t2: int,
)
    requires
        ri.len() == nv,
        cp.len() == n + 1,
        vs.len() == nv,
        cpat.len() == m + 1,
        ari0.len() == nv,
        av0.len() == nv,
        cnt0.len() == m,
        forall|t: int| 0 <= t < n ==> #[trigger] cp[t] <= cp[t + 1],
        forall|q: int| 0 <= q < m ==> #[trigger] cpat[q] <= cpat[q + 1],
        forall|q: int| 0 <= q < m ==> #[trigger] cpat[q + 1] == cpat[q] + occ(ri, q, nv),
        cpat[m] == nv,
        0 <= i < n,
        cp[i as int] <= j < cp[i as int + 1],
        cp[n] == nv,
        forall|t: int| 0 <= t < nv ==> #[trigger] ri[t] < m,
        forall|k: int| 0 <= k < m ==> #[trigger] cnt0[k] == occ(ri, k, j),
        forall|j2: int|
            0 <= j2 < j ==> 0 <= #[trigger] tslot(ri, cpat, j2) < nv && ari0[tslot(
                ri,
                cpat,
                j2,
            )] as int == col_of(cp, n, j2) && av0[tslot(ri, cpat, j2)] == vs[j2],
        forall|k: int, t: int|
            #![trigger cpat[k], ari0[t]]
            0 <= k < m && cpat[k] <= t < cpat[k] + cnt0[k] ==> ari0[t] <= i,
        forall|k: int, t1: int, t2: int|
            #![trigger cpat[k], ari0[t1], ari0[t2]]
            0 <= k < m && cpat[k] <= t1 <= t2 < cpat[k] + cnt0[k] ==> ari0[t1] <= ari0[t2],
        0 <= tslot(ri, cpat, j) < nv,
        ari1 == ari0.update(tslot(ri, cpat, j), i),
        av1 == av0.update(tslot(ri, cpat, j), vs[j]),
        cnt1 == cnt0.update(ri[j] as int, (cnt0[ri[j] as int] + 1) as usize),
        cnt0[ri[j] as int] + 1 <= usize::MAX,
        0 <= k2 < m,
        cpat[k2] <= t1 <= t2 < cpat[k2] + cnt1[k2],
    ensures
        ari1[t1] <= ari1[t2],
        ari1[t2] <= i,
{
    lemma_mono_range(cp, i as int + 1, n, n);
    assert(j < nv);
    assert(ri[j] < m);
    let kk = ri[j] as int;
    let ck = cnt0[kk];
    let index = tslot(ri, cpat, j);
    assert(index == cpat[kk] + ck);
    if k2 == kk {
        if t2 == index {
            if t1 != index {
                assert(ari1[t1] == ari0[t1]);
                assert(ari0[t1] <= i);
            }
        } else {
            assert(t2 < cpat[kk] + ck);
            assert(ari1[t1] == ari0[t1]);
            assert(ari1[t2] == ari0[t2]);
            assert(ari0[t1] <= ari0[t2]);
            assert(ari0[t2] <= i);
        }
    } else {
        lemma_slot_sep(ri, cpat, m, nv, j, k2, t1);
        lemma_slot_sep(ri, cpat, m, nv, j, k2, t2);
        lemma_occ_mono(ri, k2, j, nv);
        lemma_mono_range(cpat, k2 + 1, m, m);
        assert(t2 < nv);
        assert(ari1[t1] == ari0[t1]);
        assert(ari1[t2] == ari0[t2]);
        assert(ari0[t1] <= ari0[t2]);
        assert(ari0[t2] <= i);
    }
}

/// One scatter step of the transposition: writing entry `j`'s source
/// column and value at its destination slot and counting it extends the
/// per-slot placement, keeps every filled prefix bounded by the current
/// source column, and keeps each filled prefix sorted.
proof fn lemma_scatter_step<T>(
    ri: Seq<usize>,
    cp: Seq<usize>,
    vs: Seq<T>,
    cpat: Seq<usize>,
    ari0: Seq<usize>,
    av0: Seq<T>,
    cnt0: Seq<usize>,
    ari1: Seq<usize>,
    av1: Seq<T>,
    cnt1: Seq<usize>,
    m: int,
    n: int,
    nv: int,
    i: usize,
    j: int,
)
    requires
        ri.len() == nv,
        cp.len() == n + 1,
        vs.len() == nv,
        cpat.len() == m + 1,
        ari0.len() == nv,
        av0.len() == nv,
        cnt0.len() == m,
        forall|t: int| 0 <= t < n ==> #[trigger] cp[t] <= cp[t + 1],
        forall|q: int| 0 <= q < m ==> #[trigger] cpat[q] <= cpat[q + 1],
        forall|q: int| 0 <= q < m ==> #[trigger] cpat[q + 1] == cpat[q] + occ(ri, q, nv),
        cpat[m] == nv,
        0 <= i < n,
        cp[i as int] <= j < cp[i as int + 1],
        cp[n] == nv,
        forall|t: int| 0 <= t < nv ==> #[trigger] ri[t] < m,
        forall|k: int| 0 <= k < m ==> #[trigger] cnt0[k] == occ(ri, k, j),
        forall|j2: int|
            0 <= j2 < j ==> 0 <= #[trigger] tslot(ri, cpat, j2) < nv && ari0[tslot(
                ri,
                cpat,
                j2,
            )] as int == col_of(cp, n, j2) && av0[tslot(ri, cpat, j2)] == vs[j2],
        forall|k: int, t: int|
            #![trigger cpat[k], ari0[t]]
            0 <= k < m && cpat[k] <= t < cpat[k] + cnt0[k] ==> ari0[t] <= i,
        forall|k: int, t1: int, t2: int|
            #![trigger cpat[k], ari0[t1], ari0[t2]]
            0 <= k < m && cpat[k] <= t1 <= t2 < cpat[k] + cnt0[k] ==> ari0[t1] <= ari0[t2],
        0 <= tslot(ri, cpat, j) < nv,
        ari1 == ari0.update(tslot(ri, cpat, j), i),
        av1 == av0.update(tslot(ri, cpat, j), vs[j]),
        cnt1 == cnt0.update(ri[j] as int, (cnt0[ri[j] as int] + 1) as usize),
        cnt0[ri[j] as int] + 1 <= usize::MAX,
    ensures
        forall|k: int| 0 <= k < m ==> #[trigger] cnt1[k] == occ(ri, k, j + 1),
        forall|j2: int|
            0 <= j2 < j + 1 ==> 0 <= #[trigger] tslot(ri, cpat, j2) < nv && ari1[tslot(
                ri,
                cpat,
                j2,
            )] as int == col_of(cp, n, j2) && av1[tslot(ri, cpat, j2)] == vs[j2],
        forall|k: int, t: int|
            #![trigger cpat[k], ari1[t]]
            0 <= k < m && cpat[k] <= t < cpat[k] + cnt1[k] ==> ari1[t] <= i,
        forall|k: int, t1: int, t2: int|
            #![trigger cpat[k], ari1[t1], ari1[t2]]
            0 <= k < m && cpat[k] <= t1 <= t2 < cpat[k] + cnt1[k] ==> ari1[t1] <= ari1[t2],
{
    lemma_mono_range(cp, i as int + 1, n, n);
    assert(j < nv);
    assert(ri[j] < m);
    let kk = ri[j] as int;
    assert forall|k2: int| 0 <= k2 < m implies #[trigger] cnt1[k2] == occ(ri, k2, j + 1) by {
        if k2 != kk {
            assert(occ(ri, k2, j + 1) == occ(ri, k2, j));
        }
    }
    assert forall|j2: int|
        0 <= j2 < j + 1 implies 0 <= #[trigger] tslot(ri, cpat, j2) < nv && ari1[tslot(
        ri,
        cpat,
        j2,
    )] as int == col_of(cp, n, j2) && av1[tslot(ri, cpat, j2)] == vs[j2] by {
        lemma_scatter_place_at(ri, cp, vs, cpat, ari0, av0, cnt0, ari1, av1, cnt1, m, n, nv, i, j, j2);
    }
    assert forall|k: int, t: int|
        #![trigger cpat[k], ari1[t]]
        0 <= k < m && cpat[k] <= t < cpat[k] + cnt1[k] implies ari1[t] <= i by {
        lemma_scatter_sorted_at(ri, cp, vs, cpat, ari0, av0, cnt0, ari1, av1, cnt1, m, n, nv, i, j, k, t, t);
    }
    assert forall|k: int, t1: int, t2: int|
        #![trigger cpat[k], ari1[t1], ari1[t2]]
        0 <= k < m && cpat[k] <= t1 <= t2 < cpat[k] + cnt1[k] implies ari1[t1] <= ari1[t2] by {
        lemma_scatter_sorted_at(ri, cp, vs, cpat, ari0, av0, cnt0, ari1, av1, cnt1, m, n, nv, i, j, k, t1, t2);
    }
}

/// A sparse column: up to `nvals` non-zero entries of a column of `nrows`
/// scalars, as parallel row-index and value arrays.
pub struct NRsparseCol<T> {
    pub nrows: usize,
    pub nvals: usize,
    pub row_ind: Vec<usize>,
    pub val: Vec<T>,
}

impl<T> NRsparseCol<T> {
    /// Both parallel arrays hold exactly `nvals` slots.
    pub open spec fn wf(self) -> bool {
        &&& self.row_ind.len() == self.nvals
        &&& self.val.len() == self.nvals
    }
}

impl<T: MatLinAlgBound> NRsparseCol<T> {
    /// A column of `nrows` scalars with room for `nvals` non-zeros, all
    /// slots zeroed.
    pub fn new(nrows: usize, nvals: usize) -> (r: NRsparseCol<T>)
        ensures
            r.wf(),
            r.nrows == nrows,
            r.nvals == nvals,
            forall|t: int| 0 <= t < nvals ==> r.row_ind@[t] == 0,
            forall|t: int| 0 <= t < nvals ==> r.val@[t] == T::spec_zero(),
    {
        NRsparseCol {
            nrows,
            nvals,
            row_ind: vec_fill(0usize, nvals),
            val: vec_fill(T::zero(), nvals),
        }
    }

    /// Reshapes the column to `nrows` rows and `nvals` slots, zeroing all
    /// storage.
    pub fn resize(&mut self, nrows: usize, nvals: usize)
        ensures
            final(self).wf(),
            final(self).nrows == nrows,
            final(self).nvals == nvals,
            forall|t: int| 0 <= t < nvals ==> final(self).row_ind@[t] == 0,
            forall|t: int| 0 <= t < nvals ==> final(self).val@[t] == T::spec_zero(),
    {
        self.nrows = nrows;
        self.nvals = nvals;
        self.row_ind = vec_fill(0usize, nvals);
        self.val = vec_fill(T::zero(), nvals);
    }
}

/// The running scatter state of a sparse matrix-vector product: `y` after
/// folding in entries `lo..hi` of column `j`.
pub open spec fn ax_range<T: MatLinAlgBound>(
    ri: Seq<usize>,
    vl: Seq<T>,
    x: Seq<T>,
    y: Seq<T>,
    j: int,
    lo: int,
    hi: int,
) -> Seq<T>
    decreases hi - lo,
{
    if hi <= lo {
        y
    } else {
        let prev = ax_range(ri, vl, x, y, j, lo, hi - 1);
        prev.update(
            ri[hi - 1] as int,
            prev[ri[hi - 1] as int].spec_add(x[j].spec_mul(vl[hi - 1])),
        )
    }
}

/// The scatter state of a sparse matrix-vector product after the first
/// `j` columns have been folded onto the zero vector `y0`.
pub open spec fn ax_cols<T: MatLinAlgBound>(
    cp: Seq<usize>,
    ri: Seq<usize>,
    vl: Seq<T>,
    x: Seq<T>,
    y0: Seq<T>,
    j: int,
) -> Seq<T>
    decreases j,
{
    if j <= 0 {
        y0
    } else {
        ax_range(ri, vl, x, ax_cols(cp, ri, vl, x, y0, j - 1), j - 1, cp[j - 1] as int, cp[j] as int)
    }
}

/// The gather sum of a transpose product for one column: the fold-left
/// sum of `x[ri[t]] * vl[t]` over entries `lo..i`.
pub open spec fn atx_sum<T: MatLinAlgBound>(
    ri: Seq<usize>,
    vl: Seq<T>,
    x: Seq<T>,
    lo: int,
    i: int,
) -> T
    decreases i - lo,
{
    if i <= lo {
        T::spec_zero()
    } else {
        atx_sum(ri, vl, x, lo, i - 1).spec_add(x[ri[i - 1] as int].spec_mul(vl[i - 1]))
    }
}

/// A sparse matrix in compressed-sparse-column storage: `col_ptr[j]` and
/// `col_ptr[j + 1]` delimit column `j`'s entries in the parallel
/// row-index and value arrays.
pub struct NRsparseMat<T> {
    pub nrows: usize,
    pub ncols: usize,
    pub nvals: usize,
    pub col_ptr: Vec<usize>,
    pub row_ind: Vec<usize>,
    pub val: Vec<T>,
}

impl<T> NRsparseMat<T> {
    /// Column pointers are monotone, start at zero and stay within the
    /// value storage, and every referenced row index is in range.
    pub open spec fn wf(self) -> bool {
        &&& self.col_ptr.len() == self.ncols + 1
        &&& self.row_ind.len() == self.nvals
        &&& self.val.len() == self.nvals
        &&& self.col_ptr@[0] == 0
        &&& forall|t: int|
            0 <= t < self.ncols ==> #[trigger] self.col_ptr@[t] <= self.col_ptr@[t + 1]
        &&& self.col_ptr@[self.ncols as int] <= self.nvals
        &&& forall|t: int|
            0 <= t < self.col_ptr@[self.ncols as int] ==> #[trigger] self.row_ind@[t] < self.nrows
    }
}

impl<T: MatLinAlgBound> NRsparseMat<T> {
    /// An empty matrix shell of the given shape with room for `nvals`
    /// entries, all storage zeroed; the caller fills the column pointers
    /// and entries.
    pub fn new(nrows: usize, ncols: usize, nvals: usize) -> (r: NRsparseMat<T>)
        requires
            ncols < usize::MAX,
        ensures
            r.wf(),
            r.nrows == nrows,
            r.ncols == ncols,
            r.nvals == nvals,
            forall|t: int| 0 <= t < ncols + 1 ==> r.col_ptr@[t] == 0,
            forall|t: int| 0 <= t < nvals ==> r.row_ind@[t] == 0,
            forall|t: int| 0 <= t < nvals ==> r.val@[t] == T::spec_zero(),
    {
        NRsparseMat {
            nrows,
            ncols,
            nvals,
            col_ptr: vec_fill(0usize, ncols + 1),
            row_ind: vec_fill(0usize, nvals),
            val: vec_fill(T::zero(), nvals),
        }
    }

    /// Multiplies the matrix by `x`, scattering each stored entry into the
    /// result: the returned vector is pinned to the [`ax_cols`] fold over
    /// all columns.
    pub fn ax(&self, x: &[T]) -> (y: Vec<T>)
        requires
            self.wf(),
            x@.len() == self.ncols,
        ensures
            y@.len() == self.nrows,
            y@ == ax_cols(
                self.col_ptr@,
                self.row_ind@,
                self.val@,
                x@,
                Seq::new(self.nrows as nat, |t: int| T::spec_zero()),
                self.ncols as int,
            ),
    {
        let mut y: Vec<T> = vec_fill(T::zero(), self.nrows);
        let ghost y0 = y@;
        proof {
            assert(y0 =~= Seq::new(self.nrows as nat, |t: int| T::spec_zero()));
        }
        let mut j: usize = 0;
        while j < self.ncols
            invariant
                self.wf(),
                x@.len() == self.ncols,
                y@.len() == self.nrows,
                y0 == Seq::new(self.nrows as nat, |t: int| T::spec_zero()),
                j <= self.ncols,
                y@ == ax_cols(self.col_ptr@, self.row_ind@, self.val@, x@, y0, j as int),
            decreases self.ncols - j,
        {
            let lo = self.col_ptr[j];
            let hi = self.col_ptr[j + 1];
            proof {
                lemma_monotone_prefix(self.col_ptr@, j as int + 1, self.ncols as int);
            }
            let ghost ybase = y@;
            let mut i: usize = lo;
            while i < hi
                invariant
                    self.wf(),
                    x@.len() == self.ncols,
                    y@.len() == self.nrows,
                    j < self.ncols,
                    lo == self.col_ptr@[j as int],
                    hi == self.col_ptr@[j as int + 1],
                    hi <= self.nvals,
                    hi <= self.col_ptr@[self.ncols as int],
                    lo <= i <= hi,
                    y@ == ax_range(self.row_ind@, self.val@, x@, ybase, j as int, lo as int, i as int),
                decreases hi - i,
            {
                let r = self.row_ind[i];
                proof {
                    lemma_monotone_prefix(self.col_ptr@, j as int + 1, self.ncols as int);
                }
                y[r] = y[r].add(x[j].mul(self.val[i]));
                i += 1;
            }
            j += 1;
        }
        y
    }

    /// Multiplies the transpose of the matrix by `x`, gathering along each
    /// column: entry `j` of the result is pinned to the [`atx_sum`] fold
    /// over column `j`'s entries.
    pub fn atx(&self, x: &[T]) -> (y: Vec<T>)
        requires
            self.wf(),
            x@.len() == self.nrows,
        ensures
            y@.len() == self.ncols,
            forall|j: int|
                0 <= j < self.ncols ==> y@[j] == atx_sum(
                    self.row_ind@,
                    self.val@,
                    x@,
                    self.col_ptr@[j] as int,
                    self.col_ptr@[j + 1] as int,
                ),
    {
        let mut y: Vec<T> = vec_fill(T::zero(), self.ncols);
        let mut j: usize = 0;
        while j < self.ncols
            invariant
                self.wf(),
                x@.len() == self.nrows,
                y@.len() == self.ncols,
                j <= self.ncols,
                forall|t: int|
                    0 <= t < j ==> y@[t] == atx_sum(
                        self.row_ind@,
                        self.val@,
                        x@,
                        self.col_ptr@[t] as int,
                        self.col_ptr@[t + 1] as int,
                    ),
            decreases self.ncols - j,
        {
            let lo = self.col_ptr[j];
            let hi = self.col_ptr[j + 1];
            proof {
                lemma_monotone_prefix(self.col_ptr@, j as int + 1, self.ncols as int);
            }
            let mut acc = T::zero();
            let mut i: usize = lo;
            while i < hi
                invariant
                    self.wf(),
                    x@.len() == self.nrows,
                    j < self.ncols,
                    lo == self.col_ptr@[j as int],
                    hi == self.col_ptr@[j as int + 1],
                    hi <= self.nvals,
                    hi <= self.col_ptr@[self.ncols as int],
                    lo <= i <= hi,
                    acc == atx_sum(self.row_ind@, self.val@, x@, lo as int, i as int),
                decreases hi - i,
            {
                acc = acc.add(x[self.row_ind[i]].mul(self.val[i]));
                i += 1;
            }
            y[j] = acc;
            j += 1;
        }
        y
    }

    /// Scatters every stored entry into its destination slot of the
    /// transposed storage: entry `j` lands at [`tslot`] of `at`'s column
    /// pointers, carrying its source column and value, which leaves each
    /// destination segment sorted by source column.
    #[verifier::rlimit(100)]
    fn transpose_scatter(&self, at: &mut NRsparseMat<T>, count: &mut Vec<usize>)
        requires
            self.wf(),
            self.col_ptr@[self.ncols as int] == self.nvals,
            old(at).wf(),
            old(at).nrows == self.ncols,
            old(at).ncols == self.nrows,
            old(at).nvals == self.nvals,
            old(at).col_ptr@[old(at).ncols as int] == old(at).nvals,
            old(count)@.len() == self.nrows,
            forall|k: int| 0 <= k < self.nrows ==> old(count)@[k] == 0,
            forall|k: int|
                0 <= k < self.nrows ==> #[trigger] old(at).col_ptr@[k + 1] == old(at).col_ptr@[k]
                    + occ(self.row_ind@, k, self.nvals as int),
        ensures
            final(at).wf(),
            final(at).nrows == old(at).nrows,
            final(at).ncols == old(at).ncols,
            final(at).nvals == old(at).nvals,
            final(at).col_ptr@ == old(at).col_ptr@,
            forall|j2: int|
                0 <= j2 < self.nvals ==> 0 <= #[trigger] tslot(
                    self.row_ind@,
                    final(at).col_ptr@,
                    j2,
                ) < self.nvals && final(at).row_ind@[tslot(
                    self.row_ind@,
                    final(at).col_ptr@,
                    j2,
                )] as int == col_of(self.col_ptr@, self.ncols as int, j2) && final(at).val@[tslot(
                    self.row_ind@,
                    final(at).col_ptr@,
                    j2,
                )] == self.val@[j2],
            forall|k: int|
                0 <= k < final(at).ncols ==> sorted_between(
                    final(at).row_ind@,
                    #[trigger] final(at).col_ptr@[k] as int,
                    final(at).col_ptr@[k + 1] as int,
                ),
    {
        let m = self.nrows;
        let n = self.ncols;
        let ghost riS = self.row_ind@;
        let ghost cpS = self.col_ptr@;
        let ghost vS = self.val@;
        let ghost nv = self.nvals as int;
        let ghost cpat = at.col_ptr@;
        let mut i: usize = 0;
        while i < n
            invariant
                self.wf(),
                at.wf(),
                m == self.nrows,
                n == self.ncols,
                count@.len() == m,
                at.nrows == n,
                at.ncols == m,
                at.nvals == self.nvals,
                at.col_ptr@ == cpat,
                riS == self.row_ind@,
                cpS == self.col_ptr@,
                vS == self.val@,
                nv == self.nvals as int,
                cpS[n as int] == nv,
                cpat[m as int] == nv,
                forall|k: int| 0 <= k < m ==> #[trigger] cpat[k + 1] == cpat[k] + occ(riS, k, nv),
                i <= n,
                forall|k: int|
                    0 <= k < m ==> #[trigger] count@[k] == occ(riS, k, cpS[i as int] as int),
                forall|j2: int|
                    0 <= j2 < cpS[i as int] ==> 0 <= #[trigger] tslot(riS, cpat, j2) < nv
                        && at.row_ind@[tslot(riS, cpat, j2)] as int == col_of(cpS, n as int, j2)
                        && at.val@[tslot(riS, cpat, j2)] == vS[j2],
                forall|k: int, t: int|
                    #![trigger cpat[k], at.row_ind@[t]]
                    0 <= k < m && cpat[k] <= t < cpat[k] + count@[k] ==> at.row_ind@[t] < i,
                forall|k: int, t1: int, t2: int|
                    #![trigger cpat[k], at.row_ind@[t1], at.row_ind@[t2]]
                    0 <= k < m && cpat[k] <= t1 <= t2 < cpat[k] + count@[k] ==> at.row_ind@[t1]
                        <= at.row_ind@[t2],
            decreases n - i,
        {
            let lo = self.col_ptr[i];
            let hi = self.col_ptr[i + 1];
            proof {
                lemma_monotone_prefix(self.col_ptr@, i as int + 1, self.ncols as int);
            }
            let mut j: usize = lo;
            while j < hi
                invariant
                    self.wf(),
                    at.wf(),
                    m == self.nrows,
                    n == self.ncols,
                    count@.len() == m,
                    at.nrows == n,
                    at.ncols == m,
                    at.nvals == self.nvals,
                    at.col_ptr@ == cpat,
                    riS == self.row_ind@,
                    cpS == self.col_ptr@,
                    vS == self.val@,
                    nv == self.nvals as int,
                    cpS[n as int] == nv,
                    cpat[m as int] == nv,
                    forall|k: int|
                        0 <= k < m ==> #[trigger] cpat[k + 1] == cpat[k] + occ(riS, k, nv),
                    i < n,
                    lo == cpS[i as int],
                    hi == cpS[i as int + 1],
                    hi <= nv,
                    lo <= j <= hi,
                    forall|k: int| 0 <= k < m ==> #[trigger] count@[k] == occ(riS, k, j as int),
                    forall|j2: int|
                        0 <= j2 < j ==> 0 <= #[trigger] tslot(riS, cpat, j2) < nv
                            && at.row_ind@[tslot(riS, cpat, j2)] as int == col_of(
                            cpS,
                            n as int,
                            j2,
                        ) && at.val@[tslot(riS, cpat, j2)] == vS[j2],
                    forall|k: int, t: int|
                        #![trigger cpat[k], at.row_ind@[t]]
                        0 <= k < m && cpat[k] <= t < cpat[k] + count@[k] ==> at.row_ind@[t] <= i,
                    forall|k: int, t1: int, t2: int|
                        #![trigger cpat[k], at.row_ind@[t1], at.row_ind@[t2]]
                        0 <= k < m && cpat[k] <= t1 <= t2 < cpat[k] + count@[k] ==> at.row_ind@[t1]
                            <= at.row_ind@[t2],
                decreases hi - j,
            {
                let k = self.row_ind[j];
                let ghost kk = k as int;
                let ck = count[k];
                proof {
                    lemma_occ_bounds(riS, kk, j as int);
                    lemma_occ_mono(riS, kk, j as int + 1, nv);
                    assert(occ(riS, kk, j as int + 1) == occ(riS, kk, j as int) + 1);
                    lemma_mono_range(cpat, kk + 1, m as int, m as int);
                    assert(cpat[kk] + ck < cpat[kk + 1]);
                    assert(cpat[kk] + ck < nv);
                }
                let index = at.col_ptr[k] + ck;
                let ghost cnt0 = count@;
                let ghost atri0 = at.row_ind@;
                let ghost atval0 = at.val@;
                at.row_ind[index] = i;
                at.val[index] = self.val[j];
                count[k] = ck + 1;
                proof {
                    assert(index == tslot(riS, cpat, j as int));
                    lemma_scatter_step::<T>(
                        riS,
                        cpS,
                        vS,
                        cpat,
                        atri0,
                        atval0,
                        cnt0,
                        at.row_ind@,
                        at.val@,
                        count@,
                        m as int,
                        n as int,
                        nv,
                        i,
                        j as int,
                    );
                    assert forall|t: int|
                        0 <= t < nv implies #[trigger] at.row_ind@[t] < at.nrows by {
                        if t != index {
                            assert(atri0[t] < n);
                        }
                    }
                    assert(at.wf());
                }
                j += 1;
            }
            i += 1;
        }
        proof {
            assert forall|k: int|
                0 <= k < m implies sorted_between(
                at.row_ind@,
                #[trigger] cpat[k] as int,
                cpat[k + 1] as int,
            ) by {
                assert(count@[k] == occ(riS, k, nv));
                assert(cpat[k + 1] == cpat[k] + count@[k]);
                assert forall|x: int, y: int|
                    #![trigger at.row_ind@[x], at.row_ind@[y]]
                    cpat[k] <= x && x <= y && y < cpat[k + 1] implies at.row_ind@[x]
                    <= at.row_ind@[y] by {}
            }
        }
    }

    /// Rebuilds the matrix in the transposed orientation by a two-pass
    /// counting sort over row indices: the column pointers of the result
    /// count the occurrences of each row, every entry lands at its
    /// [`tslot`] destination carrying its source column and value, and
    /// each destination segment is sorted by source column.
    #[verifier::rlimit(100)]
    pub fn transpose(&self) -> (at: NRsparseMat<T>)
        requires
            self.wf(),
            self.nrows < usize::MAX,
            self.col_ptr@[self.ncols as int] == self.nvals,
        ensures
            at.wf(),
            at.nrows == self.ncols,
            at.ncols == self.nrows,
            at.nvals == self.nvals,
            at.col_ptr@[at.ncols as int] == at.nvals,
            forall|k: int|
                0 <= k < self.nrows ==> #[trigger] at.col_ptr@[k + 1] == at.col_ptr@[k] + occ(
                    self.row_ind@,
                    k,
                    self.nvals as int,
                ),
            forall|j2: int|
                0 <= j2 < self.nvals ==> 0 <= #[trigger] tslot(self.row_ind@, at.col_ptr@, j2)
                    < self.nvals && at.row_ind@[tslot(self.row_ind@, at.col_ptr@, j2)] as int
                    == col_of(self.col_ptr@, self.ncols as int, j2) && at.val@[tslot(
                    self.row_ind@,
                    at.col_ptr@,
                    j2,
                )] == self.val@[j2],
            forall|k: int|
                0 <= k < at.ncols ==> sorted_between(
                    at.row_ind@,
                    #[trigger] at.col_ptr@[k] as int,
                    at.col_ptr@[k + 1] as int,
                ),
    {
        let m = self.nrows;
        let n = self.ncols;
        let ghost riS = self.row_ind@;
        let ghost nv = self.nvals as int;
        let mut at = NRsparseMat::<T>::new(n, m, self.nvals);
        let mut count: Vec<usize> = vec_fill(0usize, m);
        proof {
            lemma_usum_zero(count@, m as int);
        }
        let mut i: usize = 0;
        while i < n
            invariant
                self.wf(),
                m == self.nrows,
                n == self.ncols,
                count@.len() == m,
                riS == self.row_ind@,
                nv == self.nvals as int,
                self.col_ptr@[n as int] == self.nvals,
                i <= n,
                usum(count@, m as int) == self.col_ptr@[i as int],
                forall|t: int| 0 <= t < m ==> #[trigger] count@[t] <= usum(count@, m as int),
                forall|t: int|
                    0 <= t < m ==> #[trigger] count@[t] == occ(
                        riS,
                        t,
                        self.col_ptr@[i as int] as int,
                    ),
            decreases n - i,
        {
            let lo = self.col_ptr[i];
            let hi = self.col_ptr[i + 1];
            proof {
                lemma_monotone_prefix(self.col_ptr@, i as int + 1, self.ncols as int);
            }
            let mut j: usize = lo;
            while j < hi
                invariant
                    self.wf(),
                    m == self.nrows,
                    n == self.ncols,
                    count@.len() == m,
                    i < n,
                    lo == self.col_ptr@[i as int],
                    hi == self.col_ptr@[i as int + 1],
                    hi <= self.nvals,
                    hi <= self.col_ptr@[self.ncols as int],
                    riS == self.row_ind@,
                    lo <= j <= hi,
                    usum(count@, m as int) == j,
                    forall|t: int| 0 <= t < m ==> #[trigger] count@[t] <= usum(count@, m as int),
                    forall|t: int| 0 <= t < m ==> #[trigger] count@[t] == occ(riS, t, j as int),
                decreases hi - j,
            {
                let rj = self.row_ind[j];
                proof {
                    lemma_usum_lower(count@, rj as int, m as int);
                    lemma_usum_update(count@, rj as int, (count@[rj as int] + 1) as usize, m as int);
                }
                let cnt = count[rj];
                count[rj] = cnt + 1;
                proof {
                    assert forall|t: int| 0 <= t < m implies #[trigger] count@[t] <= usum(
                        count@,
                        m as int,
                    ) by {
                        lemma_usum_lower(count@, t, m as int);
                    }
                }
                j += 1;
            }
            i += 1;
        }
        let ghost counts = count@;
        proof {
            assert forall|t: int| 0 <= t < m implies #[trigger] counts[t] == occ(riS, t, nv) by {}
        }
        let mut j: usize = 0;
        while j < m
            invariant
                self.wf(),
                m == self.nrows,
                n == self.ncols,
                count@.len() == m,
                counts.len() == m,
                at.col_ptr@.len() == m + 1,
                at.row_ind@.len() == self.nvals,
                at.val@.len() == self.nvals,
                at.nrows == n,
                at.ncols == m,
                at.nvals == self.nvals,
                j <= m,
                usum(counts, m as int) == self.nvals,
                forall|t: int| 0 <= t < m ==> #[trigger] counts[t] == occ(riS, t, nv),
                riS == self.row_ind@,
                nv == self.nvals as int,
                forall|t: int| j <= t < m ==> count@[t] == counts[t],
                forall|t: int| 0 <= t < j ==> count@[t] == 0,
                at.col_ptr@[0] == 0,
                at.col_ptr@[j as int] == usum(counts, j as int),
                forall|t: int| 0 <= t <= j ==> #[trigger] at.col_ptr@[t] == usum(counts, t),
                forall|t: int| 0 <= t < self.nvals ==> #[trigger] at.row_ind@[t] == 0,
            decreases m - j,
        {
            proof {
                lemma_usum_lower(counts, j as int, m as int);
                lemma_usum_nonneg(counts, j as int);
                lemma_usum_mono(counts, j as int + 1, m as int);
            }
            let base = at.col_ptr[j];
            let cj = count[j];
            at.col_ptr[j + 1] = base + cj;
            count[j] = 0;
            j += 1;
        }
        proof {
            assert forall|t: int| 0 <= t < m implies #[trigger] at.col_ptr@[t] <= at.col_ptr@[t
                + 1] by {
                assert(at.col_ptr@[t] == usum(counts, t));
                assert(at.col_ptr@[t + 1] == usum(counts, t + 1));
            }
            assert(at.col_ptr@[m as int] == usum(counts, m as int));
            if at.nvals > 0 {
                assert(self.col_ptr@[0] == 0);
                assert(n >= 1);
            }
            assert(at.wf());
        }
        let ghost cpat = at.col_ptr@;
        proof {
            assert forall|k: int|
                0 <= k < m implies #[trigger] cpat[k + 1] == cpat[k] + occ(riS, k, nv) by {
                assert(cpat[k] == usum(counts, k));
                assert(cpat[k + 1] == usum(counts, k + 1));
            }
        }
        self.transpose_scatter(&mut at, &mut count);
        at
    }
}

/// The entries `lo..hi` of a sparse row-index array contain row `h`.
pub open spec fn col_has(ri: Seq<usize>, lo: int, hi: int, h: int) -> bool {
    exists|t: int| lo <= t < hi && ri[t] as int == h
}

/// Row `h` of column `j` of `A D A^T` is structurally non-zero: some
/// inner index `k` stands in column `j` of `at` and carries row `h` in
/// column `k` of `a`.
pub open spec fn adat_pat<T>(a: NRsparseMat<T>, at: NRsparseMat<T>, j: int, h: int) -> bool {
    exists|k: int|
        0 <= k < a.ncols && #[trigger] col_has(
            at.row_ind@,
            at.col_ptr@[j] as int,
            at.col_ptr@[j + 1] as int,
            k,
        ) && col_has(a.row_ind@, a.col_ptr@[k] as int, a.col_ptr@[k + 1] as int, h)
}

/// Row `h` is reachable through one of the entries `lo..i` of a column
/// of `at`: how far the pattern scan of that column has come.
pub open spec fn pat_upto<T>(a: NRsparseMat<T>, at_ri: Seq<usize>, lo: int, i: int, h: int) -> bool {
    exists|t: int|
        lo <= t < i && col_has(
            a.row_ind@,
            a.col_ptr@[at_ri[t] as int] as int,
            a.col_ptr@[at_ri[t] as int + 1] as int,
            h,
        )
}

proof fn lemma_col_has_frame(ri1: Seq<usize>, ri2: Seq<usize>, lo: int, hi: int)
    requires
        0 <= lo,
        hi <= ri1.len(),
        hi <= ri2.len(),
        forall|t: int| lo <= t < hi ==> ri1[t] == ri2[t],
    ensures
        forall|h: int| #[trigger] col_has(ri1, lo, hi, h) == col_has(ri2, lo, hi, h),
{
    assert forall|h: int| #[trigger] col_has(ri1, lo, hi, h) == col_has(ri2, lo, hi, h) by {
        if col_has(ri1, lo, hi, h) {
            let t = choose|t: int| lo <= t < hi && ri1[t] as int == h;
            assert(ri2[t] as int == h);
        }
        if col_has(ri2, lo, hi, h) {
            let t = choose|t: int| lo <= t < hi && ri2[t] as int == h;
            assert(ri1[t] as int == h);
        }
    }
}

proof fn lemma_col_has_extend(ri: Seq<usize>, lo: int, l: int)
    requires
        0 <= lo <= l < ri.len(),
    ensures
        forall|h: int| #[trigger] col_has(ri, lo, l + 1, h) == (col_has(ri, lo, l, h) || ri[l]
            as int == h),
{
    assert forall|h: int| #[trigger] col_has(ri, lo, l + 1, h) == (col_has(ri, lo, l, h) || ri[l]
        as int == h) by {
        if col_has(ri, lo, l + 1, h) {
            let t = choose|t: int| lo <= t < l + 1 && ri[t] as int == h;
            if t < l {
                assert(col_has(ri, lo, l, h));
            }
        }
        if col_has(ri, lo, l, h) {
            let t = choose|t: int| lo <= t < l && ri[t] as int == h;
            assert(lo <= t < l + 1 && ri[t] as int == h);
        }
        if ri[l] as int == h {
            assert(lo <= l < l + 1 && ri[l] as int == h);
        }
    }
}

proof fn lemma_col_has_push(ri: Seq<usize>, lo: int, v: usize)
    requires
        0 <= lo <= ri.len(),
    ensures
        forall|h: int| #[trigger] col_has(ri.push(v), lo, ri.len() as int + 1, h) == (col_has(
            ri,
            lo,
            ri.len() as int,
            h,
        ) || v as int == h),
{
    let ri2 = ri.push(v);
    lemma_col_has_frame(ri, ri2, lo, ri.len() as int);
    assert(ri2[ri.len() as int] == v);
    assert forall|h: int| #[trigger] col_has(ri2, lo, ri.len() as int + 1, h) == (col_has(
        ri,
        lo,
        ri.len() as int,
        h,
    ) || v as int == h) by {
        lemma_col_has_extend(ri2, lo, ri.len() as int);
    }
}

proof fn lemma_col_has_perm(ri1: Seq<usize>, ri2: Seq<usize>, lo: int, hi: int)
    requires
        0 <= lo <= hi,
        hi <= ri1.len(),
        hi <= ri2.len(),
        same_multiset(ri1, ri2, lo, hi),
    ensures
        forall|h: int| #[trigger] col_has(ri1, lo, hi, h) == col_has(ri2, lo, hi, h),
{
    let s1 = ri1.subrange(lo, hi);
    let s2 = ri2.subrange(lo, hi);
    s1.to_multiset_ensures();
    s2.to_multiset_ensures();
    assert forall|h: int| #[trigger] col_has(ri1, lo, hi, h) == col_has(ri2, lo, hi, h) by {
        if col_has(ri1, lo, hi, h) {
            let t = choose|t: int| lo <= t < hi && ri1[t] as int == h;
            assert(s1[t - lo] == ri1[t]);
            assert(s1.contains(ri1[t]));
            assert(s2.to_multiset().count(ri1[t]) > 0);
            assert(s2.contains(ri1[t]));
            let t2 = choose|t2: int| 0 <= t2 < s2.len() && s2[t2] == ri1[t];
            assert(ri2[lo + t2] as int == h);
            assert(col_has(ri2, lo, hi, h));
        }
        if col_has(ri2, lo, hi, h) {
            let t = choose|t: int| lo <= t < hi && ri2[t] as int == h;
            assert(s2[t - lo] == ri2[t]);
            assert(s2.contains(ri2[t]));
            assert(s1.to_multiset().count(ri2[t]) > 0);
            assert(s1.contains(ri2[t]));
            let t2 = choose|t2: int| 0 <= t2 < s1.len() && s1[t2] == ri2[t];
            assert(ri1[lo + t2] as int == h);
            assert(col_has(ri1, lo, hi, h));
        }
    }
}

proof fn lemma_pat_upto_extend<T>(a: NRsparseMat<T>, at_ri: Seq<usize>, lo: int, i: int)
    requires
        0 <= lo <= i < at_ri.len(),
    ensures
        forall|h: int| #[trigger] pat_upto(a, at_ri, lo, i + 1, h) == (pat_upto(a, at_ri, lo, i, h)
            || col_has(
            a.row_ind@,
            a.col_ptr@[at_ri[i] as int] as int,
            a.col_ptr@[at_ri[i] as int + 1] as int,
            h,
        )),
{
    assert forall|h: int| #[trigger] pat_upto(a, at_ri, lo, i + 1, h) == (pat_upto(
        a,
        at_ri,
        lo,
        i,
        h,
    ) || col_has(
        a.row_ind@,
        a.col_ptr@[at_ri[i] as int] as int,
        a.col_ptr@[at_ri[i] as int + 1] as int,
        h,
    )) by {
        if pat_upto(a, at_ri, lo, i + 1, h) {
            let t = choose|t: int|
                lo <= t < i + 1 && col_has(
                    a.row_ind@,
                    a.col_ptr@[at_ri[t] as int] as int,
                    a.col_ptr@[at_ri[t] as int + 1] as int,
                    h,
                );
            if t < i {
                assert(pat_upto(a, at_ri, lo, i, h));
            }
        }
        if pat_upto(a, at_ri, lo, i, h) {
            let t = choose|t: int|
                lo <= t < i && col_has(
                    a.row_ind@,
                    a.col_ptr@[at_ri[t] as int] as int,
                    a.col_ptr@[at_ri[t] as int + 1] as int,
                    h,
                );
            assert(lo <= t < i + 1 && col_has(
                a.row_ind@,
                a.col_ptr@[at_ri[t] as int] as int,
                a.col_ptr@[at_ri[t] as int + 1] as int,
                h,
            ));
        }
        if col_has(
            a.row_ind@,
            a.col_ptr@[at_ri[i] as int] as int,
            a.col_ptr@[at_ri[i] as int + 1] as int,
            h,
        ) {
            assert(lo <= i < i + 1 && col_has(
                a.row_ind@,
                a.col_ptr@[at_ri[i] as int] as int,
                a.col_ptr@[at_ri[i] as int + 1] as int,
                h,
            ));
        }
    }
}

/// Scanning a whole column of `at` reaches row `h` exactly when the
/// structural pattern of `A D A^T` holds it.
proof fn lemma_pat_equiv<T>(a: NRsparseMat<T>, at: NRsparseMat<T>, j: int)
    requires
        at.wf(),
        at.nrows == a.ncols,
        0 <= j < at.ncols,
    ensures
        forall|h: int| #[trigger] pat_upto(
            a,
            at.row_ind@,
            at.col_ptr@[j] as int,
            at.col_ptr@[j + 1] as int,
            h,
        ) == adat_pat(a, at, j, h),
{
    let lo = at.col_ptr@[j] as int;
    let hi = at.col_ptr@[j + 1] as int;
    lemma_mono_range(at.col_ptr@, j + 1, at.ncols as int, at.ncols as int);
    assert forall|h: int| #[trigger] pat_upto(a, at.row_ind@, lo, hi, h) == adat_pat(
        a,
        at,
        j,
        h,
    ) by {
        if pat_upto(a, at.row_ind@, lo, hi, h) {
            let t = choose|t: int|
                lo <= t < hi && col_has(
                    a.row_ind@,
                    a.col_ptr@[at.row_ind@[t] as int] as int,
                    a.col_ptr@[at.row_ind@[t] as int + 1] as int,
                    h,
                );
            assert(at.row_ind@[t] < at.nrows);
            assert(lo <= t < hi && at.row_ind@[t] as int == at.row_ind@[t] as int);
            assert(col_has(at.row_ind@, lo, hi, at.row_ind@[t] as int));
            assert(adat_pat(a, at, j, h));
        }
        if adat_pat(a, at, j, h) {
            let k = choose|k: int|
                0 <= k < a.ncols && col_has(at.row_ind@, lo, hi, k) && col_has(
                    a.row_ind@,
                    a.col_ptr@[k] as int,
                    a.col_ptr@[k + 1] as int,
                    h,
                );
            let t = choose|t: int| lo <= t < hi && at.row_ind@[t] as int == k;
            assert(lo <= t < hi && col_has(
                a.row_ind@,
                a.col_ptr@[at.row_ind@[t] as int] as int,
                a.col_ptr@[at.row_ind@[t] as int + 1] as int,
                h,
            ));
            assert(pat_upto(a, at.row_ind@, lo, hi, h));
        }
    }
}

/// The sparse product `A D A^T` for a diagonal weighting `D`, built once
/// as a symbolic pattern from `a` and its transpose `at` and refilled for
/// each new diagonal by `updateD`.
pub struct ADAT<'a, T> {
    pub a: &'a NRsparseMat<T>,
    pub at: &'a NRsparseMat<T>,
    pub adat: NRsparseMat<T>,
}

impl<'a, T: MatLinAlgBound> ADAT<'a, T> {
    /// The two referenced matrices are transpose-shaped partners and the
    /// product matrix is square of their outer dimension.
    pub open spec fn wf(self) -> bool {
        &&& self.a.wf()
        &&& self.at.wf()
        &&& self.at.nrows == self.a.ncols
        &&& self.at.ncols == self.a.nrows
        &&& self.adat.wf()
        &&& self.adat.nrows == self.a.nrows
        &&& self.adat.ncols == self.a.nrows
    }

    /// Computes the non-zero pattern of `A D A^T` from the patterns of
    /// `a` and its transpose `at`, leaving all values zero until the first
    /// `updateD`. A row appears in a column exactly when [`adat_pat`]
    /// holds of it, and within each column the row indices are sorted.
    #[verifier::rlimit(100)]
    pub fn new(a: &'a NRsparseMat<T>, at: &'a NRsparseMat<T>) -> (r: ADAT<'a, T>)
        requires
            a.wf(),
            at.wf(),
            at.nrows == a.ncols,
            at.ncols == a.nrows,
            a.nrows < usize::MAX,
        ensures
            r.wf(),
            r.a == a,
            r.at == at,
            r.adat.col_ptr@[r.adat.ncols as int] == r.adat.nvals,
            forall|j: int|
                0 <= j < r.adat.ncols ==> sorted_between(
                    r.adat.row_ind@,
                    #[trigger] r.adat.col_ptr@[j] as int,
                    r.adat.col_ptr@[j + 1] as int,
                ),
            forall|t: int| 0 <= t < r.adat.nvals ==> r.adat.val@[t] == T::spec_zero(),
            forall|j: int, h: int|
                #![trigger col_has(r.adat.row_ind@, r.adat.col_ptr@[j] as int, r.adat.col_ptr@[j + 1] as int, h)]
                0 <= j < r.adat.ncols && 0 <= h < r.adat.nrows ==> (col_has(
                    r.adat.row_ind@,
                    r.adat.col_ptr@[j] as int,
                    r.adat.col_ptr@[j + 1] as int,
                    h,
                ) <==> adat_pat(*a, *at, j, h)),
    {
        let m = at.ncols;
        let mut done: Vec<usize> = vec_fill(usize::MAX, m);
        let mut col_ptr: Vec<usize> = Vec::new();
        let mut row_ind: Vec<usize> = Vec::new();
        col_ptr.push(0);
        let mut j: usize = 0;
        while j < m
            invariant
                a.wf(),
                at.wf(),
                at.nrows == a.ncols,
                at.ncols == a.nrows,
                m == at.ncols,
                m < usize::MAX,
                done@.len() == m,
                j <= m,
                col_ptr@.len() == j + 1,
                col_ptr@[0] == 0,
                forall|t: int| 0 <= t < j ==> #[trigger] col_ptr@[t] <= col_ptr@[t + 1],
                col_ptr@[j as int] == row_ind@.len(),
                forall|t: int| 0 <= t < row_ind@.len() ==> #[trigger] row_ind@[t] < m,
                forall|h: int|
                    #![trigger done@[h]]
                    0 <= h < m ==> done@[h] == usize::MAX || done@[h] < j,
                forall|j2: int, h: int|
                    #![trigger col_has(row_ind@, col_ptr@[j2] as int, col_ptr@[j2 + 1] as int, h)]
                    0 <= j2 < j && 0 <= h < m ==> (col_has(
                        row_ind@,
                        col_ptr@[j2] as int,
                        col_ptr@[j2 + 1] as int,
                        h,
                    ) <==> adat_pat(*a, *at, j2, h)),
            decreases m - j,
        {
            let lo = at.col_ptr[j];
            let hi = at.col_ptr[j + 1];
            proof {
                lemma_monotone_prefix(at.col_ptr@, j as int + 1, at.ncols as int);
            }
            let ghost snap = row_ind@;
            let ghost colstart = row_ind@.len() as int;
            let mut i: usize = lo;
            while i < hi
                invariant
                    a.wf(),
                    at.wf(),
                    at.nrows == a.ncols,
                    at.ncols == a.nrows,
                    m == at.ncols,
                    m < usize::MAX,
                    done@.len() == m,
                    j < m,
                    lo == at.col_ptr@[j as int],
                    hi == at.col_ptr@[j as int + 1],
                    lo <= i <= hi,
                    hi <= at.nvals,
                    hi <= at.col_ptr@[at.ncols as int],
                    col_ptr@.len() == j + 1,
                    col_ptr@[0] == 0,
                    forall|t: int| 0 <= t < j ==> #[trigger] col_ptr@[t] <= col_ptr@[t + 1],
                    col_ptr@[j as int] == colstart,
                    snap.len() == colstart,
                    row_ind@.len() >= colstart,
                    forall|t: int| 0 <= t < colstart ==> #[trigger] row_ind@[t] == snap[t],
                    forall|t: int| 0 <= t < row_ind@.len() ==> #[trigger] row_ind@[t] < m,
                    forall|h: int|
                        #![trigger done@[h]]
                        0 <= h < m ==> done@[h] == usize::MAX || done@[h] <= j,
                    forall|h: int|
                        #![trigger done@[h]]
                        0 <= h < m ==> ((done@[h] == j) <==> pat_upto(
                            *a,
                            at.row_ind@,
                            lo as int,
                            i as int,
                            h,
                        )),
                    forall|h: int|
                        #![trigger done@[h]]
                        0 <= h < m ==> ((done@[h] == j) <==> col_has(
                            row_ind@,
                            colstart,
                            row_ind@.len() as int,
                            h,
                        )),
                    forall|j2: int, h: int|
                        #![trigger col_has(snap, col_ptr@[j2] as int, col_ptr@[j2 + 1] as int, h)]
                        0 <= j2 < j && 0 <= h < m ==> (col_has(
                            snap,
                            col_ptr@[j2] as int,
                            col_ptr@[j2 + 1] as int,
                            h,
                        ) <==> adat_pat(*a, *at, j2, h)),
                decreases hi - i,
            {
                let k = at.row_ind[i];
                let alo = a.col_ptr[k];
                let ahi = a.col_ptr[k + 1];
                proof {
                    lemma_monotone_prefix(a.col_ptr@, k as int + 1, a.ncols as int);
                }
                let mut l: usize = alo;
                while l < ahi
                    invariant
                        a.wf(),
                        at.wf(),
                        at.nrows == a.ncols,
                        at.ncols == a.nrows,
                        m == at.ncols,
                        m < usize::MAX,
                        done@.len() == m,
                        j < m,
                        lo == at.col_ptr@[j as int],
                        hi == at.col_ptr@[j as int + 1],
                        lo <= i < hi,
                        hi <= at.nvals,
                        hi <= at.col_ptr@[at.ncols as int],
                        k == at.row_ind@[i as int],
                        alo == a.col_ptr@[k as int],
                        ahi == a.col_ptr@[k as int + 1],
                        alo <= l <= ahi,
                        ahi <= a.nvals,
                        ahi <= a.col_ptr@[a.ncols as int],
                        col_ptr@.len() == j + 1,
                        col_ptr@[0] == 0,
                        forall|t: int| 0 <= t < j ==> #[trigger] col_ptr@[t] <= col_ptr@[t + 1],
                        col_ptr@[j as int] == colstart,
                        snap.len() == colstart,
                        row_ind@.len() >= colstart,
                        forall|t: int| 0 <= t < colstart ==> #[trigger] row_ind@[t] == snap[t],
                        forall|t: int| 0 <= t < row_ind@.len() ==> #[trigger] row_ind@[t] < m,
                        forall|h: int|
                            #![trigger done@[h]]
                            0 <= h < m ==> done@[h] == usize::MAX || done@[h] <= j,
                        forall|h: int|
                            #![trigger done@[h]]
                            0 <= h < m ==> ((done@[h] == j) <==> (pat_upto(
                                *a,
                                at.row_ind@,
                                lo as int,
                                i as int,
                                h,
                            ) || col_has(a.row_ind@, alo as int, l as int, h))),
                        forall|h: int|
                            #![trigger done@[h]]
                            0 <= h < m ==> ((done@[h] == j) <==> col_has(
                                row_ind@,
                                colstart,
                                row_ind@.len() as int,
                                h,
                            )),
                        forall|j2: int, h: int|
                            #![trigger col_has(snap, col_ptr@[j2] as int, col_ptr@[j2 + 1] as int, h)]
                            0 <= j2 < j && 0 <= h < m ==> (col_has(
                                snap,
                                col_ptr@[j2] as int,
                                col_ptr@[j2 + 1] as int,
                                h,
                            ) <==> adat_pat(*a, *at, j2, h)),
                    decreases ahi - l,
                {
                    let h = a.row_ind[l];
                    proof {
                        lemma_col_has_extend(a.row_ind@, alo as int, l as int);
                    }
                    if done[h] != j {
                        done[h] = j;
                        let ghost rprev = row_ind@;
                        row_ind.push(h);
                        proof {
                            lemma_col_has_push(rprev, colstart, h);
                        }
                    }
                    l += 1;
                }
                proof {
                    lemma_pat_upto_extend(*a, at.row_ind@, lo as int, i as int);
                }
                i += 1;
            }
            col_ptr.push(row_ind.len());
            proof {
                lemma_pat_equiv(*a, *at, j as int);
                let cp2 = col_ptr@;
                let rfin = row_ind@;
                assert forall|j2: int, h: int|
                    #![trigger col_has(rfin, cp2[j2] as int, cp2[j2 + 1] as int, h)]
                    0 <= j2 < j + 1 && 0 <= h < m implies (col_has(
                    rfin,
                    cp2[j2] as int,
                    cp2[j2 + 1] as int,
                    h,
                ) <==> adat_pat(*a, *at, j2, h)) by {
                    if j2 < j {
                        lemma_mono_range(cp2, j2 + 1, j as int, j as int + 1);
                        assert(cp2[j2 + 1] <= colstart);
                        lemma_col_has_frame(snap, rfin, cp2[j2] as int, cp2[j2 + 1] as int);
                        assert(col_has(snap, cp2[j2] as int, cp2[j2 + 1] as int, h) <==> adat_pat(
                            *a,
                            *at,
                            j2,
                            h,
                        ));
                    } else {
                        assert(cp2[j2] == colstart);
                        assert(cp2[j2 + 1] == rfin.len());
                        assert((done@[h] == j) <==> col_has(
                            rfin,
                            colstart,
                            rfin.len() as int,
                            h,
                        ));
                        assert((done@[h] == j) <==> pat_upto(
                            *a,
                            at.row_ind@,
                            lo as int,
                            hi as int,
                            h,
                        ));
                        assert(pat_upto(
                            *a,
                            at.row_ind@,
                            at.col_ptr@[j as int] as int,
                            at.col_ptr@[j as int + 1] as int,
                            h,
                        ) == adat_pat(*a, *at, j as int, h));
                    }
                }
            }
            j += 1;
        }
        let nvals = row_ind.len();
        let mut jj: usize = 0;
        while jj < m
            invariant
                m < usize::MAX,
                col_ptr@.len() == m + 1,
                col_ptr@[0] == 0,
                forall|t: int| 0 <= t < m ==> #[trigger] col_ptr@[t] <= col_ptr@[t + 1],
                col_ptr@[m as int] == nvals,
                row_ind@.len() == nvals,
                forall|t: int| 0 <= t < row_ind@.len() ==> #[trigger] row_ind@[t] < m,
                jj <= m,
                forall|j2: int|
                    0 <= j2 < jj ==> sorted_between(
                        row_ind@,
                        #[trigger] col_ptr@[j2] as int,
                        col_ptr@[j2 + 1] as int,
                    ),
                forall|j2: int, h: int|
                    #![trigger col_has(row_ind@, col_ptr@[j2] as int, col_ptr@[j2 + 1] as int, h)]
                    0 <= j2 < m && 0 <= h < m ==> (col_has(
                        row_ind@,
                        col_ptr@[j2] as int,
                        col_ptr@[j2 + 1] as int,
                        h,
                    ) <==> adat_pat(*a, *at, j2, h)),
            decreases m - jj,
        {
            let i2 = col_ptr[jj];
            let hi2 = col_ptr[jj + 1];
            proof {
                lemma_monotone_prefix(col_ptr@, jj as int + 1, m as int);
            }
            if hi2 - i2 > 1 {
                let ghost before = row_ind@;
                sort_usize_range(&mut row_ind, i2, hi2);
                proof {
                    let fs = row_ind@.subrange(i2 as int, hi2 as int);
                    let bs = before.subrange(i2 as int, hi2 as int);
                    fs.to_multiset_ensures();
                    bs.to_multiset_ensures();
                    assert forall|t: int| 0 <= t < row_ind@.len() implies #[trigger] row_ind@[t]
                        < m by {
                        if i2 <= t < hi2 {
                            assert(fs[t - i2] == row_ind@[t]);
                            assert(fs.contains(row_ind@[t]));
                            assert(bs.to_multiset().count(row_ind@[t]) > 0);
                            assert(bs.contains(row_ind@[t]));
                            let j2 = choose|j2: int| 0 <= j2 < bs.len() && bs[j2] == row_ind@[t];
                            assert(before[i2 + j2] == row_ind@[t]);
                        }
                    }
                    assert forall|j2: int|
                        0 <= j2 < jj implies sorted_between(
                        row_ind@,
                        #[trigger] col_ptr@[j2] as int,
                        col_ptr@[j2 + 1] as int,
                    ) by {
                        lemma_monotone_prefix(col_ptr@, j2 + 1, jj as int);
                        assert forall|x: int, y: int|
                            #![trigger row_ind@[x], row_ind@[y]]
                            col_ptr@[j2] <= x && x <= y && y < col_ptr@[j2 + 1] implies row_ind@[x]
                            <= row_ind@[y] by {
                            assert(row_ind@[x] == before[x]);
                            assert(row_ind@[y] == before[y]);
                        }
                    }
                    assert forall|j2: int, h: int|
                        #![trigger col_has(row_ind@, col_ptr@[j2] as int, col_ptr@[j2 + 1] as int, h)]
                        0 <= j2 < m && 0 <= h < m implies (col_has(
                        row_ind@,
                        col_ptr@[j2] as int,
                        col_ptr@[j2 + 1] as int,
                        h,
                    ) <==> adat_pat(*a, *at, j2, h)) by {
                        if j2 == jj {
                            lemma_col_has_perm(before, row_ind@, i2 as int, hi2 as int);
                        } else {
                            if j2 < jj {
                                lemma_mono_range(col_ptr@, j2 + 1, jj as int, m as int);
                            } else {
                                lemma_mono_range(col_ptr@, jj as int + 1, j2, m as int);
                            }
                            lemma_mono_range(col_ptr@, j2 + 1, m as int, m as int);
                            lemma_col_has_frame(
                                before,
                                row_ind@,
                                col_ptr@[j2] as int,
                                col_ptr@[j2 + 1] as int,
                            );
                        }
                        assert(col_has(before, col_ptr@[j2] as int, col_ptr@[j2 + 1] as int, h)
                            <==> adat_pat(*a, *at, j2, h));
                    }
                }
            } else {
                proof {
                    assert(sorted_between(row_ind@, i2 as int, hi2 as int));
                }
            }
            jj += 1;
        }
        let mut adat = NRsparseMat::<T>::new(m, m, nvals);
        adat.col_ptr = col_ptr;
        adat.row_ind = row_ind;
        ADAT { a, at, adat }
    }

    /// Recomputes the stored values of `A D A^T` for a new diagonal `d`,
    /// reusing the fixed non-zero pattern.
    #[allow(non_snake_case)]
    pub fn updateD(&mut self, d: &Vec<T>)
        requires
            old(self).wf(),
            d@.len() == old(self).a.ncols,
            old(self).a.nrows <= old(self).a.ncols,
        ensures
            final(self).wf(),
            final(self).a == old(self).a,
            final(self).at == old(self).at,
            final(self).adat.nrows == old(self).adat.nrows,
            final(self).adat.ncols == old(self).adat.ncols,
            final(self).adat.nvals == old(self).adat.nvals,
            final(self).adat.col_ptr@ == old(self).adat.col_ptr@,
            final(self).adat.row_ind@ == old(self).adat.row_ind@,
    {
        let m = self.a.nrows;
        let n = self.a.ncols;
        let mut temp: Vec<T> = vec_fill(T::zero(), n);
        let mut temp2: Vec<T> = vec_fill(T::zero(), n);
        let mut i: usize = 0;
        while i < m
            invariant
                self.wf(),
                self.a == old(self).a,
                self.at == old(self).at,
                self.adat.nrows == old(self).adat.nrows,
                self.adat.ncols == old(self).adat.ncols,
                self.adat.nvals == old(self).adat.nvals,
                self.adat.col_ptr@ == old(self).adat.col_ptr@,
                self.adat.row_ind@ == old(self).adat.row_ind@,
                m == self.a.nrows,
                n == self.a.ncols,
                m <= n,
                d@.len() == n,
                temp@.len() == n,
                temp2@.len() == n,
                i <= m,
            decreases m - i,
        {
            let lo = self.at.col_ptr[i];
            let hi = self.at.col_ptr[i + 1];
            proof {
                lemma_monotone_prefix(self.at.col_ptr@, i as int + 1, self.at.ncols as int);
            }
            let mut j: usize = lo;
            while j < hi
                invariant
                    self.wf(),
                    m == self.a.nrows,
                    n == self.a.ncols,
                    d@.len() == n,
                    temp@.len() == n,
                    lo <= j <= hi,
                    hi <= self.at.nvals,
                    hi <= self.at.col_ptr@[self.at.ncols as int],
                decreases hi - j,
            {
                let k = self.at.row_ind[j];
                temp[k] = self.at.val[j].mul(d[k]);
                j += 1;
            }
            let mut j: usize = lo;
            while j < hi
                invariant
                    self.wf(),
                    m == self.a.nrows,
                    n == self.a.ncols,
                    m <= n,
                    temp@.len() == n,
                    temp2@.len() == n,
                    lo <= j <= hi,
                    hi <= self.at.nvals,
                    hi <= self.at.col_ptr@[self.at.ncols as int],
                decreases hi - j,
            {
                let k = self.at.row_ind[j];
                let alo = self.a.col_ptr[k];
                let ahi = self.a.col_ptr[k + 1];
                proof {
                    lemma_monotone_prefix(self.a.col_ptr@, k as int + 1, self.a.ncols as int);
                }
                let mut l: usize = alo;
                while l < ahi
                    invariant
                        self.wf(),
                        m == self.a.nrows,
                        n == self.a.ncols,
                        m <= n,
                        temp@.len() == n,
                        temp2@.len() == n,
                        k < n,
                        alo <= l <= ahi,
                        ahi <= self.a.nvals,
                        ahi <= self.a.col_ptr@[self.a.ncols as int],
                    decreases ahi - l,
                {
                    let h = self.a.row_ind[l];
                    temp2[h] = temp2[h].add(temp[k].mul(self.a.val[l]));
                    l += 1;
                }
                j += 1;
            }
            let lo2 = self.adat.col_ptr[i];
            let hi2 = self.adat.col_ptr[i + 1];
            proof {
                lemma_monotone_prefix(self.adat.col_ptr@, i as int + 1, self.adat.ncols as int);
            }
            let mut j: usize = lo2;
            while j < hi2
                invariant
                    self.wf(),
                    self.a == old(self).a,
                    self.at == old(self).at,
                    self.adat.nrows == old(self).adat.nrows,
                    self.adat.ncols == old(self).adat.ncols,
                    self.adat.nvals == old(self).adat.nvals,
                    self.adat.col_ptr@ == old(self).adat.col_ptr@,
                    self.adat.row_ind@ == old(self).adat.row_ind@,
                    m == self.a.nrows,
                    n == self.a.ncols,
                    m <= n,
                    temp2@.len() == n,
                    lo2 <= j <= hi2,
                    hi2 <= self.adat.nvals,
                    hi2 <= self.adat.col_ptr@[self.adat.ncols as int],
                decreases hi2 - j,
            {
                let k = self.adat.row_ind[j];
                self.adat.val[j] = temp2[k];
                temp2[k] = T::zero();
                j += 1;
            }
            i += 1;
        }
    }

    /// A shared view of the assembled sparse product.
    pub fn reference(&'a self) -> (r: &'a NRsparseMat<T>)
        ensures
            r == &self.adat,
    {
        &self.adat
    }
}

/// The entries of `s` are non-decreasing across the positions `lo..hi`.
pub open spec fn sorted_between(s: Seq<usize>, lo: int, hi: int) -> bool {
    forall|i: int, j: int|
        #![trigger s[i], s[j]]
        lo <= i && i <= j && j < hi ==> s[i] <= s[j]
}

/// `b` has `a`'s length and agrees with `a` outside the positions
/// `lo..hi`.
pub open spec fn same_outside(a: Seq<usize>, b: Seq<usize>, lo: int, hi: int) -> bool {
    &&& a.len() == b.len()
    &&& forall|t: int| #![trigger b[t]] 0 <= t < a.len() && !(lo <= t < hi) ==> b[t] == a[t]
}

/// The positions `lo..hi` of `a` and `b` hold the same entries with the
/// same multiplicities.
pub open spec fn same_multiset(a: Seq<usize>, b: Seq<usize>, lo: int, hi: int) -> bool {
    a.subrange(lo, hi).to_multiset() == b.subrange(lo, hi).to_multiset()
}

/// Relies on `<[usize]>::sort`: sorts the subrange `lo..hi` of `v` in
/// place into non-decreasing order, rearranging exactly those elements.
#[verifier::external_body]
fn sort_usize_range(v: &mut Vec<usize>, lo: usize, hi: usize)
    requires
        lo <= hi,
        hi <= old(v)@.len(),
    ensures
        final(v)@.len() == old(v)@.len(),
        sorted_between(final(v)@, lo as int, hi as int),
        same_outside(old(v)@, final(v)@, lo as int, hi as int),
        same_multiset(old(v)@, final(v)@, lo as int, hi as int),
{
    v[lo..hi].sort();
}

} // verus!
