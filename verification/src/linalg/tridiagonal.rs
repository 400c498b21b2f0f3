use vstd::prelude::*;

use crate::linalg::LinAlgError;
use crate::scalar::MatLinAlgBound;

verus! {

/// The pivot of the Thomas-algorithm forward elimination at row `j`.
pub open spec fn tri_bet<T: MatLinAlgBound>(a: Seq<T>, b: Seq<T>, c: Seq<T>, j: int) -> T
    decreases j, 1int,
{
    if j <= 0 {
        b[0]
    } else {
        b[j].spec_sub(a[j].spec_mul(tri_gam(a, b, c, j)))
    }
}

/// The multiplier stored for row `j >= 1` of the forward elimination.
pub open spec fn tri_gam<T: MatLinAlgBound>(a: Seq<T>, b: Seq<T>, c: Seq<T>, j: int) -> T
    decreases j, 0int,
        when j >= 1
{
    c[j - 1].spec_div(tri_bet(a, b, c, j - 1))
}

/// Entry `j` of the intermediate solution after forward elimination.
pub open spec fn tri_fwd<T: MatLinAlgBound>(a: Seq<T>, b: Seq<T>, c: Seq<T>, r: Seq<T>, j: int) -> T
    decreases j,
{
    if j <= 0 {
        r[0].spec_div(tri_bet(a, b, c, 0))
    } else {
        r[j].spec_sub(a[j].spec_mul(tri_fwd(a, b, c, r, j - 1))).spec_div(tri_bet(a, b, c, j))
    }
}

/// Entry `j` of the final solution after back substitution over `n` rows.
pub open spec fn tri_u<T: MatLinAlgBound>(
    a: Seq<T>,
    b: Seq<T>,
    c: Seq<T>,
    r: Seq<T>,
    n: int,
    j: int,
) -> T
    decreases n - j,
        when j < n
{
    if j >= n - 1 {
        tri_fwd(a, b, c, r, j)
    } else {
        tri_fwd(a, b, c, r, j).spec_sub(tri_gam(a, b, c, j + 1).spec_mul(tri_u(a, b, c, r, n, j + 1)))
    }
}

/// Some forward-elimination pivot among rows `1..n` underflows the fixed
/// division tolerance.
pub open spec fn tri_has_small_pivot<T: MatLinAlgBound>(
    a: Seq<T>,
    b: Seq<T>,
    c: Seq<T>,
    n: int,
) -> bool {
    exists|j: int| 1 <= j < n && tri_bet(a, b, c, j).spec_abs().spec_lt(T::spec_pow10_neg(10))
}

/// Solves the tridiagonal system with sub-diagonal `a`, diagonal `b`,
/// super-diagonal `c` and right-hand side `r` by the Thomas algorithm,
/// writing the solution over `u`. Fails with `ZeroDiagonalElemement` exactly
/// when the first diagonal entry is zero and with `ZeroDivision` exactly
/// when a later elimination pivot underflows the fixed tolerance; on
/// success every entry of `u` is pinned to the [`tri_u`] recurrence.
pub fn tridiag<T: MatLinAlgBound>(
    a: &Vec<T>,
    b: &Vec<T>,
    c: &Vec<T>,
    r: &Vec<T>,
    u: &mut Vec<T>,
) -> (res: Result<(), LinAlgError>)
    requires
        a@.len() >= 1,
        b@.len() == a@.len(),
        c@.len() == a@.len(),
        r@.len() == a@.len(),
        old(u)@.len() == a@.len(),
    ensures
        final(u)@.len() == a@.len(),
        (res matches Err(e) && e == LinAlgError::ZeroDiagonalElemement(0usize)) <==> b@[0].spec_eq(
            T::spec_zero(),
        ),
        b@[0].spec_eq(T::spec_zero()) ==> final(u)@ == old(u)@,
        (res matches Err(e) && e == LinAlgError::ZeroDivision()) <==> (!b@[0].spec_eq(
            T::spec_zero(),
        ) && tri_has_small_pivot(a@, b@, c@, a@.len() as int)),
        (res is Ok) <==> (!b@[0].spec_eq(T::spec_zero()) && !tri_has_small_pivot(
            a@,
            b@,
            c@,
            a@.len() as int,
        )),
        res is Ok ==> forall|j: int|
            0 <= j < a@.len() ==> final(u)@[j] == tri_u(a@, b@, c@, r@, a@.len() as int, j),
{
    if b[0].eq(T::zero()) {
        return Err(LinAlgError::ZeroDiagonalElemement(0));
    }
    let n = a.len();
    let mut bet = b[0];
    let mut gam: Vec<T> = crate::matrix::vec_fill(T::zero(), n);
    u[0] = r[0].div(bet);

    let mut j: usize = 1;
    while j < n
        invariant
            n == a@.len(),
            b@.len() == n,
            c@.len() == n,
            r@.len() == n,
            u@.len() == n,
            gam@.len() == n,
            1 <= j <= n,
            !b@[0].spec_eq(T::spec_zero()),
            bet == tri_bet(a@, b@, c@, j - 1),
            forall|t: int| 1 <= t < j ==> gam@[t] == tri_gam(a@, b@, c@, t),
            forall|t: int| 0 <= t < j ==> u@[t] == tri_fwd(a@, b@, c@, r@, t),
            forall|t: int|
                1 <= t < j ==> !tri_bet(a@, b@, c@, t).spec_abs().spec_lt(T::spec_pow10_neg(10)),
        decreases n - j,
    {
        gam[j] = c[j - 1].div(bet);
        bet = b[j].sub(a[j].mul(gam[j]));
        proof {
            assert(bet == tri_bet(a@, b@, c@, j as int));
        }
        if bet.abs().lt(T::pow10_neg(10)) {
            proof {
                assert(1 <= j as int && (j as int) < a@.len() && tri_bet(
                    a@,
                    b@,
                    c@,
                    j as int,
                ).spec_abs().spec_lt(T::spec_pow10_neg(10)));
                assert(tri_has_small_pivot(a@, b@, c@, a@.len() as int));
            }
            return Err(LinAlgError::ZeroDivision());
        }
        let temp = a[j].mul(u[j - 1]);
        u[j] = r[j].sub(temp).div(bet);
        j += 1;
    }

    let mut j: usize = n - 1;
    while j > 0
        invariant
            n == a@.len(),
            b@.len() == n,
            c@.len() == n,
            r@.len() == n,
            u@.len() == n,
            gam@.len() == n,
            n >= 1,
            j <= n - 1,
            forall|t: int| 1 <= t < n ==> gam@[t] == tri_gam(a@, b@, c@, t),
            forall|t: int| 0 <= t < j ==> u@[t] == tri_fwd(a@, b@, c@, r@, t),
            forall|t: int| j <= t < n ==> u@[t] == tri_u(a@, b@, c@, r@, n as int, t),
        decreases j,
    {
        j -= 1;
        let temp = gam[j + 1].mul(u[j + 1]);
        u[j] = u[j].sub(temp);
    }

    Ok(())
}

/// The modified diagonal the cyclic reduction hands to the ordinary
/// tridiagonal solve: the first and last entries absorb the corner
/// coupling terms `alpha` and `beta` through the Sherman-Morrison factor
/// `gamma = -b[0]`.
pub open spec fn cyc_bb<T: MatLinAlgBound>(b: Seq<T>, alpha: T, beta: T, n: int) -> Seq<T> {
    Seq::new(
        n as nat,
        |i: int|
            if i == 0 {
                b[0].spec_sub(b[0].spec_neg())
            } else if i == n - 1 {
                b[n - 1].spec_sub(alpha.spec_mul(beta).spec_div(b[0].spec_neg()))
            } else {
                b[i]
            },
    )
}

/// The rank-one update vector of the Sherman-Morrison correction:
/// `gamma` in the first slot, `alpha` in the last, zero elsewhere.
pub open spec fn cyc_uvec<T: MatLinAlgBound>(gamma: T, alpha: T, n: int) -> Seq<T> {
    Seq::new(
        n as nat,
        |i: int|
            if i == 0 {
                gamma
            } else if i == n - 1 {
                alpha
            } else {
                T::spec_zero()
            },
    )
}

/// The Sherman-Morrison scaling factor combining the two auxiliary
/// tridiagonal solutions `x` and `z`.
pub open spec fn cyc_fact<T: MatLinAlgBound>(x: Seq<T>, z: Seq<T>, beta: T, gamma: T, n: int) -> T {
    x[0].spec_add(beta.spec_mul(x[n - 1]).spec_div(gamma)).spec_div(
        T::spec_one().spec_add(z[0]).spec_add(beta.spec_mul(z[n - 1]).spec_div(gamma)),
    )
}

/// Solves the cyclically coupled tridiagonal system (corner terms `alpha`
/// below and `beta` above) by two ordinary tridiagonal solves and a
/// Sherman-Morrison correction, writing the solution over `x`. Requires a
/// system of more than two rows, else fails with `InvalidVectorSize`; the
/// two inner solves' failures propagate unchanged, and on success every
/// entry of `x` is pinned to the corrected recurrences.
pub fn cyclic<T: MatLinAlgBound>(
    a: &Vec<T>,
    b: &Vec<T>,
    c: &Vec<T>,
    alpha: T,
    beta: T,
    r: &Vec<T>,
    x: &mut Vec<T>,
) -> (res: Result<(), LinAlgError>)
    requires
        b@.len() == a@.len(),
        c@.len() == a@.len(),
        r@.len() == a@.len(),
        old(x)@.len() == a@.len(),
    ensures
        final(x)@.len() == a@.len(),
        a@.len() <= 2 ==> (res matches Err(e) && e == LinAlgError::InvalidVectorSize(
            a@.len() as usize,
        ) && final(x)@ == old(x)@),
        a@.len() > 2 ==> {
            let n = a@.len() as int;
            let bb = cyc_bb(b@, alpha, beta, n);
            &&& ((res matches Err(e) && e == LinAlgError::ZeroDiagonalElemement(0usize)) <==> bb[0].spec_eq(
                T::spec_zero(),
            ))
            &&& ((res matches Err(e) && e == LinAlgError::ZeroDivision()) <==> (!bb[0].spec_eq(
                T::spec_zero(),
            ) && tri_has_small_pivot(a@, bb, c@, n)))
            &&& ((res is Ok) <==> (!bb[0].spec_eq(T::spec_zero()) && !tri_has_small_pivot(
                a@,
                bb,
                c@,
                n,
            )))
            &&& (res is Ok ==> ({
                let gamma = b@[0].spec_neg();
                let xt = Seq::new(n as nat, |i: int| tri_u(a@, bb, c@, r@, n, i));
                let z = Seq::new(
                    n as nat,
                    |i: int| tri_u(a@, bb, c@, cyc_uvec(gamma, alpha, n), n, i),
                );
                let fact = cyc_fact(xt, z, beta, gamma, n);
                forall|i: int| 0 <= i < n ==> final(x)@[i] == xt[i].spec_sub(fact.spec_mul(z[i]))
            }))
        },
{
    let n = a.len();
    if n <= 2 {
        return Err(LinAlgError::InvalidVectorSize(n));
    }

    let ghost nn = n as int;
    let mut bb: Vec<T> = crate::matrix::vec_fill(T::zero(), n);
    let gamma: T = b[0].neg();
    bb[0] = b[0].sub(gamma);
    bb[n - 1] = b[n - 1].sub(alpha.mul(beta).div(gamma));

    let mut i: usize = 1;
    while i < n - 1
        invariant
            n == a@.len(),
            n > 2,
            b@.len() == n,
            bb@.len() == n,
            1 <= i <= n - 1,
            bb@[0] == b@[0].spec_sub(b@[0].spec_neg()),
            bb@[n - 1] == b@[n - 1].spec_sub(alpha.spec_mul(beta).spec_div(b@[0].spec_neg())),
            forall|t: int| 1 <= t < i ==> bb@[t] == b@[t],
        decreases n - 1 - i,
    {
        bb[i] = b[i];
        i += 1;
    }
    proof {
        assert(bb@ =~= cyc_bb(b@, alpha, beta, nn));
    }
    let res = tridiag(a, &bb, c, r, x);
    if let Err(err) = res {
        return Err(err);
    }
    let mut u: Vec<T> = crate::matrix::vec_fill(T::zero(), n);
    u[0] = gamma;
    u[n - 1] = alpha;
    proof {
        assert(u@ =~= cyc_uvec(gamma, alpha, nn));
    }
    let mut z: Vec<T> = crate::matrix::vec_fill(T::zero(), n);
    let res = tridiag(a, &bb, c, &u, &mut z);
    if let Err(err) = res {
        return Err(err);
    }
    let fact = x[0].add(beta.mul(x[n - 1]).div(gamma)).div(
        T::one().add(z[0]).add(beta.mul(z[n - 1]).div(gamma)),
    );
    let ghost xt = x@;
    let ghost zs = z@;
    let mut i: usize = 0;
    while i < n
        invariant
            n == a@.len(),
            n > 2,
            x@.len() == n,
            z@.len() == n,
            z@ == zs,
            i <= n,
            forall|t: int| 0 <= t < i ==> x@[t] == xt[t].spec_sub(fact.spec_mul(zs[t])),
            forall|t: int| i <= t < n ==> x@[t] == xt[t],
        decreases n - i,
    {
        x[i] = x[i].sub(fact.mul(z[i]));
        i += 1;
    }
    Ok(())
}

} // verus!
