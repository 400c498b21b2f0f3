use vstd::prelude::*;

use crate::scalar::MatLinAlgBound;

verus! {

/// The master-polynomial coefficient array after the first `i` abscissas
/// have been folded in. Each step shifts in `-x[i-1]` from the right,
/// updating the window `n-i .. n-1` left to right and then the last slot.
pub open spec fn vander_c<T: MatLinAlgBound>(x: Seq<T>, n: int, i: int) -> Seq<T>
    decreases i,
{
    if i <= 0 {
        Seq::new(n as nat, |j: int| T::spec_zero())
    } else {
        let prev = vander_c(x, n, i - 1);
        let xx = x[i - 1].spec_neg();
        let stepped = Seq::new(
            n as nat,
            |j: int|
                if n - i <= j && j < n - 1 {
                    prev[j].spec_add(prev[j + 1].spec_mul(xx))
                } else {
                    prev[j]
                },
        );
        stepped.update(n - 1, stepped[n - 1].spec_add(xx))
    }
}

/// The synthetic-division coefficient after processing positions `n-1`
/// down to `j` for abscissa `i`.
pub open spec fn vander_b<T: MatLinAlgBound>(x: Seq<T>, c: Seq<T>, n: int, i: int, j: int) -> T
    decreases n - j,
{
    if j >= n {
        T::spec_one()
    } else {
        c[j].spec_add(x[i].spec_mul(vander_b(x, c, n, i, j + 1)))
    }
}

/// The right-hand-side accumulation after processing positions `n-1` down
/// to `j` for abscissa `i`.
pub open spec fn vander_s<T: MatLinAlgBound>(
    x: Seq<T>,
    c: Seq<T>,
    q: Seq<T>,
    n: int,
    i: int,
    j: int,
) -> T
    decreases n - j,
{
    if j >= n {
        q[n - 1]
    } else {
        vander_s(x, c, q, n, i, j + 1).spec_add(q[j - 1].spec_mul(vander_b(x, c, n, i, j)))
    }
}

/// The derivative accumulation after processing positions `n-1` down to
/// `j` for abscissa `i`.
pub open spec fn vander_t<T: MatLinAlgBound>(x: Seq<T>, c: Seq<T>, n: int, i: int, j: int) -> T
    decreases n - j,
{
    if j >= n {
        T::spec_one()
    } else {
        x[i].spec_mul(vander_t(x, c, n, i, j + 1)).spec_add(vander_b(x, c, n, i, j))
    }
}

/// The weight the Vandermonde solve produces for abscissa `i`.
pub open spec fn vander_w<T: MatLinAlgBound>(x: Seq<T>, q: Seq<T>, n: int, i: int) -> T {
    let c = vander_c(x, n, n);
    vander_s(x, c, q, n, i, 1).spec_div(vander_t(x, c, n, i, 1))
}

/// Solves the Vandermonde system `V(x) w = q` without forming `V`, by the
/// dual recursion over the master polynomial of the abscissas; writes the
/// weights over `w`. Every weight is pinned to the [`vander_w`]
/// recurrence on the abscissas and right-hand side.
pub fn vander<T: MatLinAlgBound>(x: &Vec<T>, w: &mut Vec<T>, q: &Vec<T>)
    requires
        x@.len() == q@.len(),
        old(w)@.len() == q@.len(),
    ensures
        final(w)@.len() == q@.len(),
        forall|i: int|
            0 <= i < q@.len() ==> final(w)@[i] == vander_w(x@, q@, q@.len() as int, i),
{
    let n = q.len();
    let ghost nn = n as int;
    let mut c: Vec<T> = crate::matrix::vec_fill(T::zero(), n);
    proof {
        assert(c@ =~= vander_c(x@, nn, 0));
    }
    let mut i: usize = 0;
    while i < n
        invariant
            n == q@.len(),
            nn == n as int,
            x@.len() == n,
            c@.len() == n,
            i <= n,
            c@ == vander_c(x@, nn, i as int),
        decreases n - i,
    {
        let xx = x[i].neg();
        let ghost prev = c@;
        let mut j: usize = n - i - 1;
        while j < n - 1
            invariant
                n == q@.len(),
                nn == n as int,
                x@.len() == n,
                c@.len() == n,
                i < n,
                n - i - 1 <= j <= n - 1,
                xx == x@[i as int].spec_neg(),
                prev == vander_c(x@, nn, i as int),
                forall|t: int|
                    n - i - 1 <= t < j ==> c@[t] == prev[t].spec_add(prev[t + 1].spec_mul(xx)),
                forall|t: int| 0 <= t < n - i - 1 ==> c@[t] == prev[t],
                forall|t: int| j <= t < n ==> c@[t] == prev[t],
            decreases n - 1 - j,
        {
            let val = c[j + 1];
            c[j] = c[j].add(val.mul(xx));
            j += 1;
        }
        let ghost cexit = c@;
        let cl = c[n - 1];
        c[n - 1] = cl.add(xx);
        proof {
            let next = vander_c(x@, nn, i as int + 1);
            let stepped = Seq::new(
                nn as nat,
                |t: int|
                    if nn - (i as int + 1) <= t && t < nn - 1 {
                        prev[t].spec_add(prev[t + 1].spec_mul(xx))
                    } else {
                        prev[t]
                    },
            );
            assert(next == stepped.update(nn - 1, stepped[nn - 1].spec_add(xx)));
            assert(cl == cexit[nn - 1]);
            assert(c@ == cexit.update(nn - 1, cl.spec_add(xx)));
            assert(c@ == cexit.update(nn - 1, cexit[nn - 1].spec_add(xx)));
            assert forall|t: int| 0 <= t < n implies c@[t] == next[t] by {
                if t < nn - 1 {
                    assert(c@[t] == cexit[t]);
                    assert(stepped[t] == next[t]);
                }
            }
            assert(c@ =~= next);
        }
        i += 1;
    }
    let mut i: usize = 0;
    while i < n
        invariant
            n == q@.len(),
            nn == n as int,
            x@.len() == n,
            w@.len() == n,
            c@.len() == n,
            c@ == vander_c(x@, nn, nn),
            i <= n,
            forall|t: int| 0 <= t < i ==> w@[t] == vander_w(x@, q@, nn, t),
        decreases n - i,
    {
        let xx = x[i];
        let mut b: T = T::one();
        let mut s = q[n - 1];
        let mut t: T = T::one();
        proof {
            assert(vander_b(x@, c@, nn, i as int, nn) == T::spec_one());
            assert(vander_s(x@, c@, q@, nn, i as int, nn) == q@[nn - 1]);
            assert(vander_t(x@, c@, nn, i as int, nn) == T::spec_one());
        }
        let mut j: usize = n;
        while j > 1
            invariant
                n == q@.len(),
                nn == n as int,
                x@.len() == n,
                c@.len() == n,
                c@ == vander_c(x@, nn, nn),
                i < n,
                1 <= j <= n,
                xx == x@[i as int],
                b == vander_b(x@, c@, nn, i as int, j as int),
                s == vander_s(x@, c@, q@, nn, i as int, j as int),
                t == vander_t(x@, c@, nn, i as int, j as int),
            decreases j,
        {
            j -= 1;
            b = c[j].add(xx.mul(b));
            s = s.add(q[j - 1].mul(b));
            t = xx.mul(t).add(b);
        }
        w[i] = s.div(t);
        i += 1;
    }
}

} // verus!
