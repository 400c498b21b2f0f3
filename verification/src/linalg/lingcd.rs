use vstd::prelude::*;

use crate::linalg::sparse::atx_sum;
use crate::linalg::sparse::ax_cols;
use crate::linalg::sparse::lemma_monotone_prefix;
use crate::linalg::sparse::NRsparseMat;
use crate::scalar::MatLinAlgBound;

verus! {

/// The fold-left sum of squares of the first `i` entries of `sx`.
pub open spec fn snrm_sumsq<T: MatLinAlgBound>(sx: Seq<T>, i: int) -> T
    decreases i,
{
    if i <= 0 {
        T::spec_zero()
    } else {
        snrm_sumsq(sx, i - 1).spec_add(sx[i - 1].spec_mul(sx[i - 1]))
    }
}

/// The index of the entry of largest absolute value among the first `i`
/// entries of `sx`, earliest such index winning ties.
pub open spec fn snrm_max_idx<T: MatLinAlgBound>(sx: Seq<T>, i: int) -> int
    decreases i,
{
    if i <= 1 {
        0
    } else {
        let p = snrm_max_idx(sx, i - 1);
        if sx[p].spec_abs().spec_lt(sx[i - 1].spec_abs()) {
            i - 1
        } else {
            p
        }
    }
}

/// The vector norm the conjugate-gradient solver uses: the Euclidean norm
/// for convergence mode 3, the largest absolute entry otherwise.
pub open spec fn snrm_spec<T: MatLinAlgBound>(sx: Seq<T>, itol: usize) -> T {
    if itol == 3 {
        snrm_sumsq(sx, sx.len() as int).spec_sqrt()
    } else {
        sx[snrm_max_idx(sx, sx.len() as int)].spec_abs()
    }
}

/// The first stored value of column `i` whose row index equals `i`,
/// scanning entries `lo..hi`; one where the column stores no diagonal
/// entry.
pub open spec fn diag_scan<T: MatLinAlgBound>(
    ri: Seq<usize>,
    vl: Seq<T>,
    i: int,
    lo: int,
    hi: int,
) -> T
    decreases hi - lo,
{
    if hi <= lo {
        T::spec_one()
    } else if ri[lo] == i {
        vl[lo]
    } else {
        diag_scan(ri, vl, i, lo + 1, hi)
    }
}

/// The complete running state of the biconjugate-gradient iteration:
/// the refined solution, the two residuals, the two preconditioned
/// residuals, the two search directions, and the scalar carries.
pub struct CgState<T> {
    pub x: Seq<T>,
    pub r: Seq<T>,
    pub rr: Seq<T>,
    pub z: Seq<T>,
    pub zz: Seq<T>,
    pub p: Seq<T>,
    pub pp: Seq<T>,
    pub bkden: T,
    pub znrm: T,
    pub err: T,
    pub stopped: bool,
}

/// The fold-left sum of products `a[t] * b[t]` for `t < j`: the inner
/// products the iteration accumulates.
pub open spec fn cg_dot<T: MatLinAlgBound>(a: Seq<T>, b: Seq<T>, j: int) -> T
    decreases j,
{
    if j <= 0 {
        T::spec_zero()
    } else {
        cg_dot(a, b, j - 1).spec_add(a[j - 1].spec_mul(b[j - 1]))
    }
}

/// The initial residual `b - A x0` of the iteration.
pub open spec fn cg_r0<T: MatLinAlgBound, L: LinbcgSpec<T>>(l: L, b: Seq<T>, x0: Seq<T>) -> Seq<T> {
    Seq::new(b.len(), |j: int| b[j].spec_sub(l.atimes_spec(x0, 0)[j]))
}

/// The reference norm the convergence measure is scaled by, fixed
/// before the iteration from the mode `itol`.
pub open spec fn cg_bnrm<T: MatLinAlgBound, L: LinbcgSpec<T>>(
    l: L,
    b: Seq<T>,
    x0: Seq<T>,
    itol: usize,
) -> T {
    if itol == 1 {
        snrm_spec(b, 1)
    } else if itol == 2 {
        snrm_spec(l.asolve_spec(b, 0), 2)
    } else if itol == 3 || itol == 4 {
        snrm_spec(l.asolve_spec(b, 0), itol)
    } else {
        T::spec_zero()
    }
}

/// The iteration's state before the first step: the start vector, the
/// initial residuals, the preconditioned residual the mode prescribes,
/// zeroed directions, and unit denominator carry.
pub open spec fn cg_init<T: MatLinAlgBound, L: LinbcgSpec<T>>(
    l: L,
    b: Seq<T>,
    x0: Seq<T>,
    itol: usize,
    n: int,
) -> CgState<T> {
    CgState {
        x: x0,
        r: cg_r0(l, b, x0),
        rr: cg_r0(l, b, x0),
        z: if itol == 1 || itol == 2 || itol == 3 || itol == 4 {
            l.asolve_spec(cg_r0(l, b, x0), 0)
        } else {
            Seq::new(n as nat, |t: int| T::spec_zero())
        },
        zz: Seq::new(n as nat, |t: int| T::spec_zero()),
        p: Seq::new(n as nat, |t: int| T::spec_zero()),
        pp: Seq::new(n as nat, |t: int| T::spec_zero()),
        bkden: T::spec_one(),
        znrm: if itol == 3 || itol == 4 {
            snrm_spec(l.asolve_spec(cg_r0(l, b, x0), 0), itol)
        } else {
            T::spec_zero()
        },
        err: T::spec_zero(),
        stopped: false,
    }
}

/// One biconjugate-gradient step from state `s` at iteration `t`:
/// preconditions the residuals, refreshes the search directions, applies
/// the operator, refines the solution and residuals, and evaluates the
/// mode's convergence measure; `stopped` records whether the step's
/// measure fell below `tol` (the estimate modes skip the check when
/// their guards divert).
pub open spec fn cg_step<T: MatLinAlgBound, L: LinbcgSpec<T>>(
    l: L,
    bnrm: T,
    itol: usize,
    tol: T,
    n: int,
    t: int,
    s: CgState<T>,
) -> CgState<T> {
    let zz1 = l.asolve_spec(s.rr, 1);
    let bknum = cg_dot(s.z, s.rr, n);
    let bk = bknum.spec_div(s.bkden);
    let p1 = if t == 1 {
        s.z
    } else {
        Seq::new(n as nat, |j: int| bk.spec_mul(s.p[j]).spec_add(s.z[j]))
    };
    let pp1 = if t == 1 {
        zz1
    } else {
        Seq::new(n as nat, |j: int| bk.spec_mul(s.pp[j]).spec_add(zz1[j]))
    };
    let z2 = l.atimes_spec(p1, 0);
    let akden = cg_dot(z2, pp1, n);
    let ak = bknum.spec_div(akden);
    let zz2 = l.atimes_spec(pp1, 1);
    let x1 = Seq::new(n as nat, |j: int| s.x[j].spec_add(ak.spec_mul(p1[j])));
    let r1 = Seq::new(n as nat, |j: int| s.r[j].spec_sub(ak.spec_mul(z2[j])));
    let rr1 = Seq::new(n as nat, |j: int| s.rr[j].spec_sub(ak.spec_mul(zz2[j])));
    let z3 = l.asolve_spec(r1, 0);
    if itol == 1 {
        let e = snrm_spec(r1, 1).spec_div(bnrm);
        CgState {
            x: x1,
            r: r1,
            rr: rr1,
            z: z3,
            zz: zz2,
            p: p1,
            pp: pp1,
            bkden: bknum,
            znrm: s.znrm,
            err: e,
            stopped: e.spec_lt(tol),
        }
    } else if itol == 2 {
        let e = snrm_spec(z3, 2).spec_div(bnrm);
        CgState {
            x: x1,
            r: r1,
            rr: rr1,
            z: z3,
            zz: zz2,
            p: p1,
            pp: pp1,
            bkden: bknum,
            znrm: s.znrm,
            err: e,
            stopped: e.spec_lt(tol),
        }
    } else if itol == 3 || itol == 4 {
        let zminrm = s.znrm;
        let znrm1 = snrm_spec(z3, itol);
        if znrm1.spec_mul(T::spec_pow10_neg(14)).spec_lt(zminrm.spec_sub(znrm1)) {
            let dxnrm = ak.spec_abs().spec_mul(snrm_spec(p1, itol));
            let e1 = znrm1.spec_div(zminrm.spec_sub(znrm1)).spec_mul(dxnrm);
            let xnrm = snrm_spec(x1, itol);
            if e1.spec_le(T::spec_half().spec_mul(xnrm)) {
                let e = e1.spec_div(xnrm);
                CgState {
                    x: x1,
                    r: r1,
                    rr: rr1,
                    z: z3,
                    zz: zz2,
                    p: p1,
                    pp: pp1,
                    bkden: bknum,
                    znrm: znrm1,
                    err: e,
                    stopped: e.spec_lt(tol),
                }
            } else {
                CgState {
                    x: x1,
                    r: r1,
                    rr: rr1,
                    z: z3,
                    zz: zz2,
                    p: p1,
                    pp: pp1,
                    bkden: bknum,
                    znrm: znrm1,
                    err: znrm1.spec_div(bnrm),
                    stopped: false,
                }
            }
        } else {
            CgState {
                x: x1,
                r: r1,
                rr: rr1,
                z: z3,
                zz: zz2,
                p: p1,
                pp: pp1,
                bkden: bknum,
                znrm: znrm1,
                err: znrm1.spec_div(bnrm),
                stopped: false,
            }
        }
    } else {
        CgState {
            x: x1,
            r: r1,
            rr: rr1,
            z: z3,
            zz: zz2,
            p: p1,
            pp: pp1,
            bkden: bknum,
            znrm: s.znrm,
            err: s.err,
            stopped: s.err.spec_lt(tol),
        }
    }
}

/// The iteration's state after at most `t` steps: a stopped state
/// absorbs every later step.
pub open spec fn cg_state<T: MatLinAlgBound, L: LinbcgSpec<T>>(
    l: L,
    b: Seq<T>,
    x0: Seq<T>,
    itol: usize,
    tol: T,
    n: int,
    t: int,
) -> CgState<T>
    decreases t,
{
    if t <= 0 {
        cg_init(l, b, x0, itol, n)
    } else {
        let prev = cg_state(l, b, x0, itol, tol, n, t - 1);
        if prev.stopped {
            prev
        } else {
            cg_step(l, cg_bnrm(l, b, x0, itol), itol, tol, n, t, prev)
        }
    }
}

/// How many steps actually run within a cap of `t`: the step that stops
/// is counted, and no later one runs.
pub open spec fn cg_iters<T: MatLinAlgBound, L: LinbcgSpec<T>>(
    l: L,
    b: Seq<T>,
    x0: Seq<T>,
    itol: usize,
    tol: T,
    n: int,
    t: int,
) -> int
    decreases t,
{
    if t <= 0 {
        0
    } else if cg_state(l, b, x0, itol, tol, n, t - 1).stopped {
        cg_iters(l, b, x0, itol, tol, n, t - 1)
    } else {
        t
    }
}

/// Once the iteration has stopped, every later state and count is the
/// same.
pub proof fn lemma_cg_absorb<T: MatLinAlgBound, L: LinbcgSpec<T>>(
    l: L,
    b: Seq<T>,
    x0: Seq<T>,
    itol: usize,
    tol: T,
    n: int,
    t0: int,
    t: int,
)
    requires
        0 <= t0 <= t,
        cg_state(l, b, x0, itol, tol, n, t0).stopped,
    ensures
        cg_state(l, b, x0, itol, tol, n, t) == cg_state(l, b, x0, itol, tol, n, t0),
        cg_iters(l, b, x0, itol, tol, n, t) == cg_iters(l, b, x0, itol, tol, n, t0),
    decreases t - t0,
{
    if t > t0 {
        lemma_cg_absorb(l, b, x0, itol, tol, n, t0, t - 1);
    }
}

/// The mathematical face of a biconjugate-gradient operator: its
/// dimension and the result functions of its preconditioner solve and
/// operator product. It stands apart from [`Linbcg`] so the iteration's
/// recurrences can be stated over any implementor.
pub trait LinbcgSpec<T: MatLinAlgBound>: Sized {
    /// The dimension of the system this operator acts on.
    spec fn dim(&self) -> usize;

    /// The preconditioner's result on `b`: `asolve` writes exactly this.
    spec fn asolve_spec(&self, b: Seq<T>, itrnsp: usize) -> Seq<T>;

    /// The operator's product with `x`: `atimes` writes exactly this.
    spec fn atimes_spec(&self, x: Seq<T>, itrnsp: usize) -> Seq<T>;
}

/// A linear operator with a preconditioner, solvable by the
/// preconditioned biconjugate-gradient method. An implementor supplies
/// the matrix-vector product (`atimes`) and the preconditioner solve
/// (`asolve`), each pinned to its own result function from
/// [`LinbcgSpec`]; the iteration itself (`solve`) and the convergence
/// norm (`snrm`) are provided and verified here once for every
/// implementor.
pub trait Linbcg<T: MatLinAlgBound>: LinbcgSpec<T> {
    /// Applies the preconditioner (or its transpose when `itrnsp` is
    /// positive) to `b`, writing its result function's value over `x`.
    fn asolve(&self, b: &Vec<T>, x: &mut Vec<T>, itrnsp: usize)
        requires
            b@.len() == self.dim(),
            old(x)@.len() == self.dim(),
        ensures
            final(x)@.len() == self.dim(),
            final(x)@ == self.asolve_spec(b@, itrnsp),
    ;

    /// Applies the operator (or its transpose when `itrnsp` is positive)
    /// to `x`, writing its result function's value over `r`.
    fn atimes(&self, x: &Vec<T>, r: &mut Vec<T>, itrnsp: usize)
        requires
            x@.len() == self.dim(),
            old(r)@.len() == self.dim(),
        ensures
            final(r)@.len() == self.dim(),
            final(r)@ == self.atimes_spec(x@, itrnsp),
    ;

    /// Iterates the preconditioned biconjugate-gradient method from the
    /// start vector in `x` until the convergence measure selected by
    /// `itol` drops below `tol` or `itmax` iterations have run; no error
    /// is raised from exhausting the iteration cap alone — the caller
    /// inspects the iteration count and last error written to `iter` and
    /// `err`. The refined vector, the count and the error are pinned to
    /// the [`cg_state`] and [`cg_iters`] recurrences over the
    /// implementor's result functions.
    fn solve(
        &self,
        b: &Vec<T>,
        x: &mut Vec<T>,
        itol: usize,
        tol: T,
        itmax: usize,
        iter: &mut usize,
        err: &mut T,
    )
        requires
            b@.len() == self.dim(),
            old(x)@.len() == self.dim(),
            self.dim() >= 1,
        ensures
            final(x)@.len() == self.dim(),
            final(x)@ == cg_state(
                *self,
                b@,
                old(x)@,
                itol,
                tol,
                self.dim() as int,
                itmax as int,
            ).x,
            *final(err) == cg_state(
                *self,
                b@,
                old(x)@,
                itol,
                tol,
                self.dim() as int,
                itmax as int,
            ).err,
            *final(iter) as int == cg_iters(
                *self,
                b@,
                old(x)@,
                itol,
                tol,
                self.dim() as int,
                itmax as int,
            ),
            itmax == 0 ==> final(x)@ == old(x)@,
    {
        let ghost bb = b@;
        let ghost xx0 = x@;
        let ghost nn = self.dim() as int;
        let ghost me = *self;
        let eps = T::pow10_neg(14);
        let n = b.len();
        let mut p: Vec<T> = crate::matrix::vec_fill(T::zero(), n);
        let mut pp: Vec<T> = crate::matrix::vec_fill(T::zero(), n);
        let mut r: Vec<T> = crate::matrix::vec_fill(T::zero(), n);
        let mut rr: Vec<T> = crate::matrix::vec_fill(T::zero(), n);
        let mut z: Vec<T> = crate::matrix::vec_fill(T::zero(), n);
        let mut zz: Vec<T> = crate::matrix::vec_fill(T::zero(), n);
        let mut it: usize = 0;
        let mut znrm = T::zero();
        self.atimes(x, &mut r, 0);
        let mut j: usize = 0;
        while j < n
            invariant
                n == self.dim(),
                nn == n as int,
                me == *self,
                bb == b@,
                xx0 == x@,
                b@.len() == n,
                x@.len() == n,
                r@.len() == n,
                rr@.len() == n,
                j <= n,
                forall|t: int| j <= t < n ==> r@[t] == me.atimes_spec(xx0, 0)[t],
                forall|t: int| 0 <= t < j ==> r@[t] == bb[t].spec_sub(me.atimes_spec(xx0, 0)[t]),
                forall|t: int| 0 <= t < j ==> rr@[t] == r@[t],
            decreases n - j,
        {
            r[j] = b[j].sub(r[j]);
            rr[j] = r[j];
            j += 1;
        }
        proof {
            assert(r@ =~= cg_r0(me, bb, xx0));
            assert(rr@ =~= cg_r0(me, bb, xx0));
        }
        let bnrm: T = if itol == 1 {
            self.asolve(&r, &mut z, 0);
            self.snrm(b, itol)
        } else if itol == 2 {
            self.asolve(b, &mut z, 0);
            let tmp = self.snrm(&z, itol);
            self.asolve(&r, &mut z, 0);
            tmp
        } else if itol == 3 || itol == 4 {
            self.asolve(b, &mut z, 0);
            let tmp = self.snrm(&z, itol);
            self.asolve(&r, &mut z, 0);
            znrm = self.snrm(&z, itol);
            tmp
        } else {
            T::zero()
        };
        proof {
            assert(bnrm == cg_bnrm(me, bb, xx0, itol));
            if !(itol == 1 || itol == 2 || itol == 3 || itol == 4) {
                assert(z@ =~= Seq::new(nn as nat, |t: int| T::spec_zero()));
            }
            assert(zz@ =~= Seq::new(nn as nat, |t: int| T::spec_zero()));
            assert(p@ =~= Seq::new(nn as nat, |t: int| T::spec_zero()));
            assert(pp@ =~= Seq::new(nn as nat, |t: int| T::spec_zero()));
        }

        let mut errv = T::zero();
        let mut akden = T::zero();
        let mut bknum = T::zero();
        let mut bkden: T = T::one();
        proof {
            assert(cg_state(me, bb, xx0, itol, tol, nn, 0) == (CgState {
                x: x@,
                r: r@,
                rr: rr@,
                z: z@,
                zz: zz@,
                p: p@,
                pp: pp@,
                bkden: bkden,
                znrm: znrm,
                err: errv,
                stopped: false,
            }));
        }
        while it < itmax
            invariant_except_break
                n == self.dim(),
                nn == n as int,
                me == *self,
                bb == b@,
                xx0 == old(x)@,
                eps == T::spec_pow10_neg(14),
                bnrm == cg_bnrm(me, bb, xx0, itol),
                n >= 1,
                it <= itmax,
                b@.len() == n,
                x@.len() == n,
                p@.len() == n,
                pp@.len() == n,
                r@.len() == n,
                rr@.len() == n,
                z@.len() == n,
                zz@.len() == n,
                it as int == cg_iters(me, bb, xx0, itol, tol, nn, it as int),
                (cg_state(me, bb, xx0, itol, tol, nn, it as int) == (CgState {
                    x: x@,
                    r: r@,
                    rr: rr@,
                    z: z@,
                    zz: zz@,
                    p: p@,
                    pp: pp@,
                    bkden: bkden,
                    znrm: znrm,
                    err: errv,
                    stopped: false,
                })),
            ensures
                n == self.dim(),
                nn == n as int,
                x@.len() == n,
                x@ == cg_state(me, bb, xx0, itol, tol, nn, itmax as int).x,
                errv == cg_state(me, bb, xx0, itol, tol, nn, itmax as int).err,
                it as int == cg_iters(me, bb, xx0, itol, tol, nn, itmax as int),
            decreases itmax - it,
        {
            it += 1;
            let ghost prev = cg_state(me, bb, xx0, itol, tol, nn, it as int - 1);
            let ghost stepped = cg_step(me, bnrm, itol, tol, nn, it as int, prev);
            proof {
                assert(cg_state(me, bb, xx0, itol, tol, nn, it as int) == stepped);
            }
            self.asolve(&rr, &mut zz, 1);
            proof {
                assert(zz@ == me.asolve_spec(prev.rr, 1));
            }
            bknum = T::zero();
            let mut j: usize = 0;
            while j < n
                invariant
                    n == self.dim(),
                    nn == n as int,
                    me == *self,
                    z@.len() == n,
                    rr@.len() == n,
                    z@ == prev.z,
                    rr@ == prev.rr,
                    j <= n,
                    bknum == cg_dot(prev.z, prev.rr, j as int),
                decreases n - j,
            {
                bknum = bknum.add(z[j].mul(rr[j]));
                j += 1;
            }
            let ghost bk_g = bknum.spec_div(prev.bkden);
            let ghost p1_g = if it == 1 {
                prev.z
            } else {
                Seq::new(nn as nat, |j2: int| bk_g.spec_mul(prev.p[j2]).spec_add(prev.z[j2]))
            };
            let ghost pp1_g = if it == 1 {
                me.asolve_spec(prev.rr, 1)
            } else {
                Seq::new(
                    nn as nat,
                    |j2: int| bk_g.spec_mul(prev.pp[j2]).spec_add(me.asolve_spec(prev.rr, 1)[j2]),
                )
            };
            if it == 1 {
                let mut j: usize = 0;
                while j < n
                    invariant
                        n == self.dim(),
                        nn == n as int,
                        p@.len() == n,
                        pp@.len() == n,
                        z@.len() == n,
                        zz@.len() == n,
                        z@ == prev.z,
                        zz@ == pp1_g,
                        pp1_g.len() == n,
                        p1_g == prev.z,
                        prev.z.len() == n,
                        j <= n,
                        forall|t: int| 0 <= t < j ==> p@[t] == p1_g[t],
                        forall|t: int| 0 <= t < j ==> pp@[t] == pp1_g[t],
                    decreases n - j,
                {
                    p[j] = z[j];
                    pp[j] = zz[j];
                    j += 1;
                }
            } else {
                let bk = bknum.div(bkden);
                proof {
                    assert(bk == bk_g);
                }
                let mut j: usize = 0;
                while j < n
                    invariant
                        n == self.dim(),
                        nn == n as int,
                        p@.len() == n,
                        pp@.len() == n,
                        z@.len() == n,
                        zz@.len() == n,
                        z@ == prev.z,
                        zz@ == me.asolve_spec(prev.rr, 1),
                        bk == bk_g,
                        it != 1,
                        p1_g == Seq::new(
                            nn as nat,
                            |j2: int| bk_g.spec_mul(prev.p[j2]).spec_add(prev.z[j2]),
                        ),
                        pp1_g == Seq::new(
                            nn as nat,
                            |j2: int|
                                bk_g.spec_mul(prev.pp[j2]).spec_add(
                                    me.asolve_spec(prev.rr, 1)[j2],
                                ),
                        ),
                        j <= n,
                        forall|t: int| j <= t < n ==> p@[t] == prev.p[t],
                        forall|t: int| j <= t < n ==> pp@[t] == prev.pp[t],
                        forall|t: int| 0 <= t < j ==> p@[t] == p1_g[t],
                        forall|t: int| 0 <= t < j ==> pp@[t] == pp1_g[t],
                    decreases n - j,
                {
                    p[j] = bk.mul(p[j]).add(z[j]);
                    pp[j] = bk.mul(pp[j]).add(zz[j]);
                    j += 1;
                }
            }
            proof {
                assert(p@ =~= p1_g);
                assert(pp@ =~= pp1_g);
            }
            bkden = bknum;
            self.atimes(&p, &mut z, 0);
            proof {
                assert(z@ == me.atimes_spec(p1_g, 0));
            }
            akden = T::zero();
            let mut j: usize = 0;
            while j < n
                invariant
                    n == self.dim(),
                    nn == n as int,
                    z@.len() == n,
                    pp@.len() == n,
                    z@ == me.atimes_spec(p1_g, 0),
                    pp@ == pp1_g,
                    j <= n,
                    akden == cg_dot(me.atimes_spec(p1_g, 0), pp1_g, j as int),
                decreases n - j,
            {
                akden = akden.add(z[j].mul(pp[j]));
                j += 1;
            }
            let ak = bknum.div(akden);
            self.atimes(&pp, &mut zz, 1);
            proof {
                assert(zz@ == me.atimes_spec(pp1_g, 1));
            }
            let ghost xprev = x@;
            let ghost rprev = r@;
            let ghost rrprev = rr@;
            let mut j: usize = 0;
            while j < n
                invariant
                    n == self.dim(),
                    nn == n as int,
                    x@.len() == n,
                    r@.len() == n,
                    rr@.len() == n,
                    p@.len() == n,
                    z@.len() == n,
                    zz@.len() == n,
                    p@ == p1_g,
                    z@ == me.atimes_spec(p1_g, 0),
                    zz@ == me.atimes_spec(pp1_g, 1),
                    xprev.len() == n,
                    rprev.len() == n,
                    rrprev.len() == n,
                    j <= n,
                    forall|t: int| j <= t < n ==> x@[t] == xprev[t],
                    forall|t: int| j <= t < n ==> r@[t] == rprev[t],
                    forall|t: int| j <= t < n ==> rr@[t] == rrprev[t],
                    forall|t: int|
                        0 <= t < j ==> x@[t] == xprev[t].spec_add(ak.spec_mul(p1_g[t])),
                    forall|t: int|
                        0 <= t < j ==> r@[t] == rprev[t].spec_sub(
                            ak.spec_mul(me.atimes_spec(p1_g, 0)[t]),
                        ),
                    forall|t: int|
                        0 <= t < j ==> rr@[t] == rrprev[t].spec_sub(
                            ak.spec_mul(me.atimes_spec(pp1_g, 1)[t]),
                        ),
                decreases n - j,
            {
                x[j] = x[j].add(ak.mul(p[j]));
                r[j] = r[j].sub(ak.mul(z[j]));
                rr[j] = rr[j].sub(ak.mul(zz[j]));
                j += 1;
            }
            self.asolve(&r, &mut z, 0);
            proof {
                assert(x@ =~= stepped.x);
                assert(r@ =~= stepped.r);
                assert(rr@ =~= stepped.rr);
                assert(z@ == stepped.z);
                assert(zz@ == stepped.zz);
            }
            if itol == 1 {
                errv = self.snrm(&r, itol).div(bnrm);
            } else if itol == 2 {
                errv = self.snrm(&z, itol).div(bnrm);
            } else if itol == 3 || itol == 4 {
                let zminrm = znrm;
                znrm = self.snrm(&z, itol);
                if znrm.mul(eps).lt(zminrm.sub(znrm)) {
                    let dxnrm = ak.abs().mul(self.snrm(&p, itol));
                    errv = znrm.div(zminrm.sub(znrm)).mul(dxnrm);
                } else {
                    errv = znrm.div(bnrm);
                    proof {
                        assert(cg_state(me, bb, xx0, itol, tol, nn, it as int) == (CgState {
                            x: x@,
                            r: r@,
                            rr: rr@,
                            z: z@,
                            zz: zz@,
                            p: p@,
                            pp: pp@,
                            bkden: bkden,
                            znrm: znrm,
                            err: errv,
                            stopped: false,
                        }));
                    }
                    continue ;
                }
                let xnrm = self.snrm(x, itol);
                if errv.le(T::half().mul(xnrm)) {
                    errv = errv.div(xnrm);
                } else {
                    errv = znrm.div(bnrm);
                    proof {
                        assert(cg_state(me, bb, xx0, itol, tol, nn, it as int) == (CgState {
                            x: x@,
                            r: r@,
                            rr: rr@,
                            z: z@,
                            zz: zz@,
                            p: p@,
                            pp: pp@,
                            bkden: bkden,
                            znrm: znrm,
                            err: errv,
                            stopped: false,
                        }));
                    }
                    continue ;
                }
            }
            if errv.lt(tol) {
                proof {
                    assert(stepped.stopped);
                    assert(cg_state(me, bb, xx0, itol, tol, nn, it as int).stopped);
                    lemma_cg_absorb(me, bb, xx0, itol, tol, nn, it as int, itmax as int);
                    assert(x@ == cg_state(me, bb, xx0, itol, tol, nn, itmax as int).x);
                    assert(errv == cg_state(me, bb, xx0, itol, tol, nn, itmax as int).err);
                    assert(it as int == cg_iters(me, bb, xx0, itol, tol, nn, itmax as int));
                }
                break ;
            }
            proof {
                assert(cg_state(me, bb, xx0, itol, tol, nn, it as int) == (CgState {
                    x: x@,
                    r: r@,
                    rr: rr@,
                    z: z@,
                    zz: zz@,
                    p: p@,
                    pp: pp@,
                    bkden: bkden,
                    znrm: znrm,
                    err: errv,
                    stopped: false,
                }));
            }
        }
        *iter = it;
        *err = errv;
    }

    /// The convergence norm for mode `itol`: Euclidean for mode 3, the
    /// largest absolute entry otherwise; pinned to [`snrm_spec`].
    fn snrm(&self, sx: &Vec<T>, itol: usize) -> (r: T)
        requires
            sx@.len() >= 1,
        ensures
            r == snrm_spec(sx@, itol),
    {
        let n = sx.len();
        if itol == 3 {
            let mut ans = T::zero();
            let mut i: usize = 0;
            while i < n
                invariant
                    n == sx@.len(),
                    i <= n,
                    ans == snrm_sumsq(sx@, i as int),
                decreases n - i,
            {
                ans = ans.add(sx[i].mul(sx[i]));
                i += 1;
            }
            ans.sqrt()
        } else {
            let mut isamax: usize = 0;
            let mut i: usize = 0;
            while i < n
                invariant
                    n == sx@.len(),
                    n >= 1,
                    i <= n,
                    isamax < n,
                    isamax as int == snrm_max_idx(sx@, if i == 0 {
                        1int
                    } else {
                        i as int
                    }),
                decreases n - i,
            {
                if sx[isamax].abs().lt(sx[i].abs()) {
                    isamax = i;
                }
                i += 1;
            }
            sx[isamax].abs()
        }
    }
}

/// A sparse square matrix used as a biconjugate-gradient operator: the
/// matrix supplies `atimes` and its diagonal the `asolve` preconditioner.
pub struct NRsparseLingcb<'a, T> {
    mat: &'a NRsparseMat<T>,
    n: usize,
}

impl<'a, T> NRsparseLingcb<'a, T> {
    #[verifier::type_invariant]
    spec fn type_inv(self) -> bool {
        &&& self.mat.wf()
        &&& self.mat.nrows == self.n
        &&& self.mat.ncols == self.n
    }
}

impl<'a, T: MatLinAlgBound> NRsparseLingcb<'a, T> {
    /// The wrapped sparse matrix, for relating this operator's results to
    /// the matrix it was built over.
    pub closed spec fn matrix(&self) -> NRsparseMat<T> {
        *self.mat
    }

    /// Wraps a well-formed square sparse matrix as a solver operator.
    pub fn new(mat: &'a NRsparseMat<T>) -> (r: NRsparseLingcb<'a, T>)
        requires
            mat.wf(),
            mat.nrows == mat.ncols,
        ensures
            r.dim() == mat.nrows,
            r.matrix() == *mat,
    {
        NRsparseLingcb { mat, n: mat.nrows }
    }

    /// Divides each entry of `b` by the matching diagonal entry of the
    /// wrapped matrix, taking one where the column stores no diagonal
    /// entry; every output entry is pinned to the [`diag_scan`] of its
    /// column.
    pub fn asolve_diag(&self, b: &Vec<T>, x: &mut Vec<T>)
        requires
            b@.len() == self.dim(),
            old(x)@.len() == self.dim(),
        ensures
            final(x)@.len() == self.dim(),
            forall|i: int|
                0 <= i < self.dim() ==> final(x)@[i] == b@[i].spec_div(
                    diag_scan(
                        self.matrix().row_ind@,
                        self.matrix().val@,
                        i,
                        self.matrix().col_ptr@[i] as int,
                        #[trigger] self.matrix().col_ptr@[i + 1] as int,
                    ),
                ),
    {
        proof {
            use_type_invariant(self);
        }
        let n = self.n;
        let mut i: usize = 0;
        while i < n
            invariant
                self.mat.wf(),
                self.mat.nrows == n,
                self.mat.ncols == n,
                n == self.dim(),
                self.matrix() == *self.mat,
                b@.len() == n,
                x@.len() == n,
                i <= n,
                forall|i2: int|
                    0 <= i2 < i ==> x@[i2] == b@[i2].spec_div(
                        diag_scan(
                            self.mat.row_ind@,
                            self.mat.val@,
                            i2,
                            self.mat.col_ptr@[i2] as int,
                            #[trigger] self.mat.col_ptr@[i2 + 1] as int,
                        ),
                    ),
            decreases n - i,
        {
            let mut diag = T::one();
            let lo = self.mat.col_ptr[i];
            let hi = self.mat.col_ptr[i + 1];
            proof {
                lemma_monotone_prefix(self.mat.col_ptr@, i as int + 1, self.mat.ncols as int);
            }
            let mut j: usize = lo;
            while j < hi
                invariant_except_break
                    self.mat.wf(),
                    self.mat.nrows == n,
                    self.mat.ncols == n,
                    i < n,
                    lo <= j <= hi,
                    hi <= self.mat.nvals,
                    diag == T::spec_one(),
                    diag_scan(self.mat.row_ind@, self.mat.val@, i as int, lo as int, hi as int)
                        == diag_scan(
                        self.mat.row_ind@,
                        self.mat.val@,
                        i as int,
                        j as int,
                        hi as int,
                    ),
                ensures
                    self.mat.wf(),
                    self.mat.nrows == n,
                    self.mat.ncols == n,
                    i < n,
                    diag == diag_scan(
                        self.mat.row_ind@,
                        self.mat.val@,
                        i as int,
                        lo as int,
                        hi as int,
                    ),
                decreases hi - j,
            {
                if self.mat.row_ind[j] == i {
                    diag = self.mat.val[j];
                    break ;
                }
                j += 1;
            }
            x[i] = b[i].div(diag);
            i += 1;
        }
    }

    /// Applies the wrapped matrix (or its transpose when `itrnsp` is
    /// positive) to `x`, writing the product over `r`; the result is
    /// pinned to the sparse product folds of the wrapped matrix.
    pub fn atimes_mat(&self, x: &Vec<T>, r: &mut Vec<T>, itrnsp: usize)
        requires
            x@.len() == self.dim(),
            old(r)@.len() == self.dim(),
        ensures
            final(r)@.len() == self.dim(),
            itrnsp > 0 ==> forall|j: int|
                0 <= j < self.dim() ==> final(r)@[j] == atx_sum(
                    self.matrix().row_ind@,
                    self.matrix().val@,
                    x@,
                    self.matrix().col_ptr@[j] as int,
                    #[trigger] self.matrix().col_ptr@[j + 1] as int,
                ),
            itrnsp == 0 ==> final(r)@ == ax_cols(
                self.matrix().col_ptr@,
                self.matrix().row_ind@,
                self.matrix().val@,
                x@,
                Seq::new(self.dim() as nat, |t: int| T::spec_zero()),
                self.dim() as int,
            ),
    {
        proof {
            use_type_invariant(self);
        }
        if itrnsp > 0 {
            *r = self.mat.atx(x.as_slice());
        } else {
            *r = self.mat.ax(x.as_slice());
        }
    }
}

impl<'a, T: MatLinAlgBound> LinbcgSpec<T> for NRsparseLingcb<'a, T> {
    closed spec fn dim(&self) -> usize {
        self.n
    }

    closed spec fn asolve_spec(&self, b: Seq<T>, itrnsp: usize) -> Seq<T> {
        Seq::new(
            self.n as nat,
            |i: int|
                b[i].spec_div(
                    diag_scan(
                        self.mat.row_ind@,
                        self.mat.val@,
                        i,
                        self.mat.col_ptr@[i] as int,
                        self.mat.col_ptr@[i + 1] as int,
                    ),
                ),
        )
    }

    closed spec fn atimes_spec(&self, x: Seq<T>, itrnsp: usize) -> Seq<T> {
        if itrnsp > 0 {
            Seq::new(
                self.n as nat,
                |j: int|
                    atx_sum(
                        self.mat.row_ind@,
                        self.mat.val@,
                        x,
                        self.mat.col_ptr@[j] as int,
                        self.mat.col_ptr@[j + 1] as int,
                    ),
            )
        } else {
            ax_cols(
                self.mat.col_ptr@,
                self.mat.row_ind@,
                self.mat.val@,
                x,
                Seq::new(self.n as nat, |t: int| T::spec_zero()),
                self.n as int,
            )
        }
    }

}

impl<'a, T: MatLinAlgBound> Linbcg<T> for NRsparseLingcb<'a, T> {
    /// Forwards to [`NRsparseLingcb::asolve_diag`], the pinned
    /// diagonal-preconditioner solve.
    fn asolve(&self, b: &Vec<T>, x: &mut Vec<T>, itrnsp: usize) {
        self.asolve_diag(b, x);
        proof {
            assert forall|i: int|
                0 <= i < self.dim() implies x@[i] == self.asolve_spec(b@, itrnsp)[i] by {
                assert(x@[i] == b@[i].spec_div(
                    diag_scan(
                        self.matrix().row_ind@,
                        self.matrix().val@,
                        i,
                        self.matrix().col_ptr@[i] as int,
                        self.matrix().col_ptr@[i + 1] as int,
                    ),
                ));
            }
            assert(x@ =~= self.asolve_spec(b@, itrnsp));
        }
    }

    /// Forwards to [`NRsparseLingcb::atimes_mat`], the pinned sparse
    /// product.
    fn atimes(&self, x: &Vec<T>, r: &mut Vec<T>, itrnsp: usize) {
        self.atimes_mat(x, r, itrnsp);
        proof {
            if itrnsp > 0 {
                assert forall|j: int|
                    0 <= j < self.dim() implies r@[j] == self.atimes_spec(x@, itrnsp)[j] by {
                    assert(r@[j] == atx_sum(
                        self.matrix().row_ind@,
                        self.matrix().val@,
                        x@,
                        self.matrix().col_ptr@[j] as int,
                        self.matrix().col_ptr@[j + 1] as int,
                    ));
                }
                assert(r@ =~= self.atimes_spec(x@, itrnsp));
            } else {
                assert(Seq::new(self.dim() as nat, |t: int| T::spec_zero()) =~= Seq::new(
                    self.n as nat,
                    |t: int| T::spec_zero(),
                ));
                assert(r@ == self.atimes_spec(x@, itrnsp));
            }
        }
    }
}

} // verus!
