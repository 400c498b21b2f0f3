use nrlinalg::linalg::banddiagonal::banmul;
use nrlinalg::linalg::banddiagonal::Bandec;
use nrlinalg::linalg::cholesky::Cholesky;
use nrlinalg::linalg::gauss_jordan::gauss_jordan;
use nrlinalg::linalg::lingcd::Linbcg;
use nrlinalg::linalg::lingcd::NRsparseLingcb;
use nrlinalg::linalg::lu_decomposition::LUdcmp;
use nrlinalg::linalg::qrdcmp::QRdcmp;
use nrlinalg::linalg::sparse::NRsparseCol;
use nrlinalg::linalg::sparse::NRsparseMat;
use nrlinalg::linalg::sparse::ADAT;
use nrlinalg::linalg::svd::SVD;
use nrlinalg::linalg::toeplz::toeplz;
use nrlinalg::linalg::tridiagonal::cyclic;
use nrlinalg::linalg::tridiagonal::tridiag;
use nrlinalg::linalg::vander::vander;
use nrlinalg::linalg::LinAlgError;
use nrlinalg::MatLinAlgBound;
use nrlinalg::Matrix;
use nrlinalg::MatrixOpsError;

/// Double-precision scalar for the solvers; the square root goes through
/// single precision, matching the tolerance the expected values assume.
#[derive(Clone, Copy, Debug)]
pub struct F64(pub f64);

impl MatLinAlgBound for F64 {
    fn spec_zero() -> Self {
        F64(0.0)
    }
    fn spec_one() -> Self {
        F64(1.0)
    }
    fn spec_half() -> Self {
        F64(0.5)
    }
    fn spec_from_usize(v: usize) -> Self {
        F64(v as f64)
    }
    fn spec_pow10_neg(k: u32) -> Self {
        F64(10f64.powi(-(k as i32)))
    }
    fn spec_machine_eps() -> Self {
        F64(f32::EPSILON as f64)
    }
    fn spec_add(self, rhs: Self) -> Self {
        self.add(rhs)
    }
    fn spec_sub(self, rhs: Self) -> Self {
        self.sub(rhs)
    }
    fn spec_mul(self, rhs: Self) -> Self {
        self.mul(rhs)
    }
    fn spec_div(self, rhs: Self) -> Self {
        self.div(rhs)
    }
    fn spec_neg(self) -> Self {
        self.neg()
    }
    fn spec_abs(self) -> Self {
        self.abs()
    }
    fn spec_sqrt(self) -> Self {
        self.sqrt()
    }
    fn spec_square(self) -> Self {
        self.square()
    }
    fn spec_copysign(self, sign: Self) -> Self {
        self.copysign(sign)
    }
    fn spec_norm(self, rhs: Self) -> Self {
        self.norm(rhs)
    }
    fn spec_ln(self) -> Self {
        self.ln()
    }
    fn spec_lt(self, rhs: Self) -> bool {
        self.lt(rhs)
    }
    fn spec_le(self, rhs: Self) -> bool {
        self.le(rhs)
    }
    fn spec_eq(self, rhs: Self) -> bool {
        MatLinAlgBound::eq(self, rhs)
    }

    fn zero() -> Self {
        F64(0.0)
    }
    fn one() -> Self {
        F64(1.0)
    }
    fn half() -> Self {
        F64(0.5)
    }
    fn from_usize(v: usize) -> Self {
        F64(v as f64)
    }
    fn pow10_neg(k: u32) -> Self {
        F64(10f64.powi(-(k as i32)))
    }
    fn machine_eps() -> Self {
        F64(f32::EPSILON as f64)
    }
    fn add(self, rhs: Self) -> Self {
        F64(self.0 + rhs.0)
    }
    fn sub(self, rhs: Self) -> Self {
        F64(self.0 - rhs.0)
    }
    fn mul(self, rhs: Self) -> Self {
        F64(self.0 * rhs.0)
    }
    fn div(self, rhs: Self) -> Self {
        F64(self.0 / rhs.0)
    }
    fn neg(self) -> Self {
        F64(-self.0)
    }
    fn abs(self) -> Self {
        if self.0 < 0.0 {
            F64(-self.0)
        } else {
            self
        }
    }
    fn sqrt(self) -> Self {
        F64(((self.0 as f32).sqrt()) as f64)
    }
    fn square(self) -> Self {
        F64(self.0 * self.0)
    }
    fn copysign(self, sign: Self) -> Self {
        if sign.0 < 0.0 {
            if self.0 < 0.0 {
                self
            } else {
                F64(-self.0)
            }
        } else {
            if self.0 < 0.0 {
                F64(-self.0)
            } else {
                self
            }
        }
    }
    fn norm(self, rhs: Self) -> Self {
        F64((((self.0 * self.0 + rhs.0 * rhs.0) as f32).sqrt()) as f64)
    }
    fn ln(self) -> Self {
        F64(self.0.ln())
    }
    fn lt(self, rhs: Self) -> bool {
        self.0 < rhs.0
    }
    fn le(self, rhs: Self) -> bool {
        self.0 <= rhs.0
    }
    fn eq(self, rhs: Self) -> bool {
        self.0 == rhs.0
    }
}

/// Integer scalar for the element tests of the matrix primitive.
#[derive(Clone, Copy, Debug)]
pub struct I64(pub i64);

impl MatLinAlgBound for I64 {
    fn spec_zero() -> Self {
        I64(0)
    }
    fn spec_one() -> Self {
        I64(1)
    }
    fn spec_half() -> Self {
        I64(0)
    }
    fn spec_from_usize(v: usize) -> Self {
        I64(v as i64)
    }
    fn spec_pow10_neg(_k: u32) -> Self {
        I64(0)
    }
    fn spec_machine_eps() -> Self {
        I64(0)
    }
    fn spec_add(self, rhs: Self) -> Self {
        self.add(rhs)
    }
    fn spec_sub(self, rhs: Self) -> Self {
        self.sub(rhs)
    }
    fn spec_mul(self, rhs: Self) -> Self {
        self.mul(rhs)
    }
    fn spec_div(self, rhs: Self) -> Self {
        self.div(rhs)
    }
    fn spec_neg(self) -> Self {
        self.neg()
    }
    fn spec_abs(self) -> Self {
        self.abs()
    }
    fn spec_sqrt(self) -> Self {
        self.sqrt()
    }
    fn spec_square(self) -> Self {
        self.square()
    }
    fn spec_copysign(self, sign: Self) -> Self {
        self.copysign(sign)
    }
    fn spec_norm(self, rhs: Self) -> Self {
        self.norm(rhs)
    }
    fn spec_ln(self) -> Self {
        self.ln()
    }
    fn spec_lt(self, rhs: Self) -> bool {
        self.lt(rhs)
    }
    fn spec_le(self, rhs: Self) -> bool {
        self.le(rhs)
    }
    fn spec_eq(self, rhs: Self) -> bool {
        MatLinAlgBound::eq(self, rhs)
    }

    fn zero() -> Self {
        I64(0)
    }
    fn one() -> Self {
        I64(1)
    }
    fn half() -> Self {
        I64(0)
    }
    fn from_usize(v: usize) -> Self {
        I64(v as i64)
    }
    fn pow10_neg(_k: u32) -> Self {
        I64(0)
    }
    fn machine_eps() -> Self {
        I64(0)
    }
    fn add(self, rhs: Self) -> Self {
        I64(self.0 + rhs.0)
    }
    fn sub(self, rhs: Self) -> Self {
        I64(self.0 - rhs.0)
    }
    fn mul(self, rhs: Self) -> Self {
        I64(self.0 * rhs.0)
    }
    fn div(self, rhs: Self) -> Self {
        I64(self.0 / rhs.0)
    }
    fn neg(self) -> Self {
        I64(-self.0)
    }
    fn abs(self) -> Self {
        I64(self.0.abs())
    }
    fn sqrt(self) -> Self {
        I64(((self.0 as f32).sqrt()) as i64)
    }
    fn square(self) -> Self {
        I64(self.0 * self.0)
    }
    fn copysign(self, sign: Self) -> Self {
        if sign.0 < 0 {
            I64(-self.0.abs())
        } else {
            I64(self.0.abs())
        }
    }
    fn norm(self, rhs: Self) -> Self {
        I64((((self.0 * self.0 + rhs.0 * rhs.0) as f32).sqrt()) as i64)
    }
    fn ln(self) -> Self {
        I64(0)
    }
    fn lt(self, rhs: Self) -> bool {
        self.0 < rhs.0
    }
    fn le(self, rhs: Self) -> bool {
        self.0 <= rhs.0
    }
    fn eq(self, rhs: Self) -> bool {
        self.0 == rhs.0
    }
}

fn fv(xs: &[f64]) -> Vec<F64> {
    xs.iter().map(|&x| F64(x)).collect()
}

fn fmat(rows: usize, cols: usize, xs: &[f64]) -> Matrix<F64> {
    assert_eq!(xs.len(), rows * cols);
    Matrix::new(rows, cols, fv(xs))
}

fn iv(xs: &[i64]) -> Vec<I64> {
    xs.iter().map(|&x| I64(x)).collect()
}

fn imat(rows: usize, cols: usize, xs: &[i64]) -> Matrix<I64> {
    assert_eq!(xs.len(), rows * cols);
    Matrix::new(rows, cols, iv(xs))
}

fn near(got: F64, want: f64, tol: f64) -> bool {
    (got.0 - want).abs() < tol
}

#[test]
fn test_matrix_identity() {
    let n = 3;
    let mat: Matrix<F64> = Matrix::identity(n);
    assert_eq!(mat.rows(), n);
    assert_eq!(mat.cols(), n);
    assert!(near(mat.get(0, 0), 1.0, 1e-5));
    assert!(near(mat.get(1, 1), 1.0, 1e-5));
    assert!(near(mat.get(2, 2), 1.0, 1e-5));
    assert!(near(mat.get(0, 1), 0.0, 1e-5));
    assert!(near(mat.get(0, 2), 0.0, 1e-5));
    assert!(near(mat.get(1, 0), 0.0, 1e-5));
    assert!(near(mat.get(1, 2), 0.0, 1e-5));
    assert!(near(mat.get(2, 0), 0.0, 1e-5));
    assert!(near(mat.get(2, 1), 0.0, 1e-5));
}

#[test]
fn test_matrix_mul() {
    let rows = 3;
    let cols = 4;
    let lhs = fmat(rows, cols, &[1.0, 1.0, 1.0, 1.0, 1.0, 1.0, 2.0, 2.0, 1.0, 2.0, 3.0, 4.0]);

    // Case : Assertion Failure
    let out = lhs.duplicate().mul(fmat(1, 1, &[1.0]));
    assert!(out.is_err());

    // Case : Normal operation in float
    let out = lhs.duplicate().mul(fmat(4, 1, &[1.0, 2.0, 3.0, 4.0])).unwrap();
    assert!(near(out.get(0, 0), 10.0, 1e-5));
    assert!(near(out.get(1, 0), 17.0, 1e-5));
    assert!(near(out.get(2, 0), 30.0, 1e-5));

    // Case : Normal operation in integer
    let lhs = imat(rows, cols, &[1, 1, 1, 1, 1, 1, 2, 2, 1, 2, 3, 4]);
    let out = lhs.duplicate().mul(imat(4, 1, &[1, 2, 3, 4])).unwrap();
    assert_eq!(out.get(0, 0).0, 10);
    assert_eq!(out.get(1, 0).0, 17);
    assert_eq!(out.get(2, 0).0, 30);
}

#[test]
fn test_matrix_add() {
    let rows = 3;
    let cols = 4;
    let lhs = imat(rows, cols, &[1, 2, 3, 4, 5, 6, 7, 8, 9, 10, 11, 12]);
    let rhs = imat(1, 1, &[1]);
    let out = lhs.duplicate().add(rhs);
    assert!(out.is_err());
    match out {
        Err(MatrixOpsError::InvalidMatrixSize(_, r, c)) => {
            assert_eq!(r, 1);
            assert_eq!(c, 1);
        }
        _ => panic!("expected a shape error"),
    }

    let out = lhs.duplicate().add(lhs.duplicate());
    assert!(out.is_ok());
    let out = out.unwrap();
    assert_eq!(out.get(0, 0).0, 2);
    assert_eq!(out.get(0, 1).0, 4);
    assert_eq!(out.get(0, 2).0, 6);
    assert_eq!(out.get(0, 3).0, 8);
    assert_eq!(out.get(1, 0).0, 10);
    assert_eq!(out.get(1, 1).0, 12);
    assert_eq!(out.get(1, 2).0, 14);
    assert_eq!(out.get(1, 3).0, 16);
    assert_eq!(out.get(2, 0).0, 18);
    assert_eq!(out.get(2, 1).0, 20);
    assert_eq!(out.get(2, 2).0, 22);
    assert_eq!(out.get(2, 3).0, 24);
}

#[test]
fn test_matrix() {
    let rows = 3;
    let cols = 4;
    let mut mat = imat(rows, cols, &[1, 2, 3, 4, 5, 6, 7, 8, 9, 10, 11, 12]);
    assert_eq!(mat.rows(), rows);
    assert_eq!(mat.cols(), cols);
    assert_eq!(mat.get(0, 0).0, 1);
    assert_eq!(mat.get_row(1).len(), cols);
    assert_eq!(mat.get(2, 3).0, 12);

    let col = mat.get_col(1);
    assert_eq!(col.len(), 3);
    assert_eq!(col[0].0, 2);
    assert_eq!(col[1].0, 6);
    assert_eq!(col[2].0, 10);

    mat.swap_rows(0, 1);
    assert_eq!(mat.get(0, 0).0, 5);
    assert_eq!(mat.get(1, 2).0, 3);

    mat.swap_cols(1, 0);
    assert_eq!(mat.get(0, 0).0, 6);
    assert_eq!(mat.get(1, 1).0, 1);

    mat.set(2, 3, I64(8));
    assert_eq!(mat.get(2, 3).0, 8);
    assert_eq!(mat.get(2, 2).0, 11);

    mat.resize(10, 11);
    assert_eq!(mat.rows(), 10);
    assert_eq!(mat.cols(), 11);

    mat.assign(5, 4, I64(1));
    assert_eq!(mat.rows(), 5);
    assert_eq!(mat.cols(), 4);
    assert_eq!(mat.get(0, 0).0, 1);
    assert_eq!(mat.get(4, 3).0, 1);
}

#[test]
fn test_banmul() {
    let a = fmat(
        4,
        4,
        &[0.0, 0.0, 1.0, 1.0, 0.0, 1.0, 1.0, 1.0, 1.0, 1.0, 1.0, 1.0, 1.0, 1.0, 1.0, 0.0],
    );
    let m1 = 2;
    let m2 = 1;
    let x = fv(&[1.0, 2.0, 3.0, 4.0]);
    let mut b = fv(&[0.0, 0.0, 0.0, 0.0]);
    banmul(&a, m1, m2, &x, &mut b);

    assert!(near(b[0], 3.0, 1e-10));
    assert!(near(b[1], 6.0, 1e-10));
    assert!(near(b[2], 10.0, 1e-10));
    assert!(near(b[3], 9.0, 1e-10));
}

#[test]
fn test_bandec() {
    let a = fmat(
        4,
        4,
        &[0.0, 0.0, 1.0, 1.0, 0.0, 1.0, 1.0, 1.0, 1.0, 1.0, 1.0, 1.0, 1.0, 1.0, 1.0, 0.0],
    );
    let bandec = Bandec::new(a, 2, 1);

    let b = fv(&[3.0, 6.0, 10.0, 9.0]);
    let mut x = fv(&[1.0, 1.0, 1.0, 1.0]);
    bandec.solve(&b, &mut x);
    assert!(near(x[0], 1.0, 1e-10));
    assert!(near(x[1], 2.0, 1e-10));
    assert!(near(x[2], 3.0, 1e-10));
    assert!(near(x[3], 4.0, 1e-10));
}

#[test]
fn bandec_same_input_gives_bit_identical_factors() {
    let data = [
        0.0, 0.0, 1.0, 1.0, 0.0, 1.0, 1.0, 1.0, 1.0, 1.0, 1.0, 1.0, 1.0, 1.0, 1.0, 0.0,
    ];
    let b1 = Bandec::new(fmat(4, 4, &data), 2, 1);
    let b2 = Bandec::new(fmat(4, 4, &data), 2, 1);
    assert_eq!(b1.indx, b2.indx);
    assert_eq!(b1.d.0.to_bits(), b2.d.0.to_bits());
    for i in 0..4 {
        for j in 0..4 {
            assert_eq!(b1.au.get(i, j).0.to_bits(), b2.au.get(i, j).0.to_bits());
            assert_eq!(b1.al.get(i, j).0.to_bits(), b2.al.get(i, j).0.to_bits());
        }
    }
}

#[test]
fn test_cholesky() {
    let mat = fmat(3, 3, &[2.0, -1.0, 0.0, -1.0, 2.0, -1.0, 0.0, -1.0, 2.0]);
    let res = Cholesky::new(&mat);
    assert!(res.is_ok());
    let ch = res.unwrap();
    let mut y = fv(&[0.0, 0.0, 0.0]);
    let b = fv(&[-4.0, 2.0, 4.0]);
    let res = ch.solve(&b, &mut y);
    assert!(res.is_ok());
    assert!(near(y[0], -1.0, 1e-5));
    assert!(near(y[1], 2.0, 1e-5));
    assert!(near(y[2], 3.0, 1e-5));

    let mut bb = fv(&[0.0, 0.0, 0.0]);
    let res = ch.elmult(&y, &mut bb);
    assert!(res.is_ok());
    assert!(near(bb[0], -1.4142135381, 1e-5));
    assert!(near(bb[1], 3.1565966252126034, 1e-5));
    assert!(near(bb[2], 1.8311084505353095, 1e-5));

    let mut ainv = fmat(3, 3, &[0.0; 9]);
    ch.inverse(&mut ainv);
    assert!(near(ainv.get(0, 0), 0.75, 1e-5));
    assert!(near(ainv.get(0, 1), 0.5, 1e-5));
    assert!(near(ainv.get(0, 2), 0.25, 1e-5));
    assert!(near(ainv.get(1, 0), 0.5, 1e-5));
    assert!(near(ainv.get(1, 1), 1.0, 1e-5));
    assert!(near(ainv.get(1, 2), 0.5, 1e-5));
    assert!(near(ainv.get(2, 0), 0.25, 1e-5));
    assert!(near(ainv.get(2, 1), 0.5, 1e-5));
    assert!(near(ainv.get(2, 2), 0.75, 1e-5));
}

#[test]
fn test_gauss_jordan() {
    let rows = 2;
    let cols = 2;
    let a = fmat(rows, cols, &[1.0, 3.0, 1.0, 2.0]);
    let b = fmat(rows, 1, &[4.0, -3.0]);
    let (a, b) = gauss_jordan(a, b).unwrap();
    assert_eq!(a.rows(), rows);
    assert_eq!(a.cols(), cols);
    assert!(near(a.get(0, 0), -2.0, 1e-5));
    assert!(near(a.get(1, 1), -1.0, 1e-5));
    assert!(near(a.get(0, 1), 3.0, 1e-5));
    assert!(near(a.get(1, 0), 1.0, 1e-5));
    assert!(near(b.get(0, 0), -17.0, 1e-5));
    assert!(near(b.get(1, 0), 7.0, 1e-5));
}

#[test]
fn test_gauss_jordan2() {
    let rows = 3;
    let cols = 3;
    let a = fmat(rows, cols, &[1.0, 1.0, 0.0, 1.0, 1.0, 1.0, 3.0, 2.0, 1.0]);
    let b = fmat(rows, 1, &[1.0, 2.0, 1.0]);
    let (_a, b) = gauss_jordan(a, b).unwrap();

    assert!(near(b.get(0, 0), -2.0, 1e-5));
    assert!(near(b.get(1, 0), 3.0, 1e-5));
    assert!(near(b.get(2, 0), 1.0, 1e-5));
}

#[test]
fn gauss_jordan_picks_pivots_by_magnitude() {
    // The dominant entry is negative; magnitude pivoting must still use it.
    let a = fmat(2, 2, &[-5.0, 1.0, 1.0, 1.0]);
    let b = fmat(2, 1, &[-4.0, 2.0]);
    let (_a1, b1) = gauss_jordan(a, b).unwrap();
    assert!(near(b1.get(0, 0), 1.0, 1e-5));
    assert!(near(b1.get(1, 0), 1.0, 1e-5));
}

#[test]
fn gauss_jordan_singular() {
    let a = fmat(2, 2, &[0.0, 0.0, 0.0, 0.0]);
    let b = fmat(2, 1, &[1.0, 1.0]);
    let res = gauss_jordan(a, b);
    assert!(matches!(res, Err(LinAlgError::SingularMatrix(_))));
}

#[test]
fn test_ludcmp() {
    // Case : invalid shape matrix
    let mat = fmat(1, 2, &[1.0, 2.0]);
    let ludcmp = LUdcmp::new(&mat);
    assert!(ludcmp.is_err());

    // Case : normal matrix
    let mat = fmat(3, 3, &[1.0, 1.0, -1.0, -2.0, -1.0, 1.0, -1.0, -2.0, 1.0]);
    let ludcmp = LUdcmp::new(&mat);

    assert!(ludcmp.is_ok());
    let ludcmp = ludcmp.unwrap();

    // Case : invalid shape vector
    let res = ludcmp.solve(&fv(&[1.0, 1.0, 1.0]), &mut fv(&[2.0, 2.0]));
    assert!(res.is_err());

    // Case : invalid shape matrix
    let res = ludcmp.solve_mat(&fmat(2, 1, &[1.0, 1.0]), &mut fmat(3, 3, &[1.0; 9]));
    assert!(res.is_err());

    // Case : inverse matrix
    let ident = fmat(3, 3, &[1.0, 0.0, 0.0, 0.0, 1.0, 0.0, 0.0, 0.0, 1.0]);
    let mut inv = fmat(3, 3, &[0.0; 9]);
    let res = ludcmp.solve_mat(&ident, &mut inv);
    assert!(res.is_ok());
    assert!(near(inv.get(0, 0), -1.0, 1e-5));
    assert!(near(inv.get(0, 1), -1.0, 1e-5));
    assert!(near(inv.get(0, 2), 0.0, 1e-5));
    assert!(near(inv.get(1, 0), -1.0, 1e-5));
    assert!(near(inv.get(1, 1), 0.0, 1e-5));
    assert!(near(inv.get(1, 2), -1.0, 1e-5));
    assert!(near(inv.get(2, 0), -3.0, 1e-5));
    assert!(near(inv.get(2, 1), -1.0, 1e-5));
    assert!(near(inv.get(2, 2), -1.0, 1e-5));

    // Case : mimprove
    let b = fv(&[1.0, 0.0, 0.0]);
    let mut x = fv(&[0.0, 0.0, 0.0]);
    let res = ludcmp.solve(&b, &mut x);
    assert!(res.is_ok());
    ludcmp.mprove(&mat, &b, &mut x);
    assert!(near(x[0], -1.0, 1e-7));
    assert!(near(x[1], -1.0, 1e-7));
    assert!(near(x[2], -3.0, 1e-7));
}

#[test]
fn test_ludcmp_singular() {
    // Singular matrix
    let mat = fmat(3, 3, &[0.0, 0.0, 0.0, 1.0, 2.0, 3.0, 4.0, 5.0, 6.0]);
    let ludcmp = LUdcmp::new(&mat);
    assert!(ludcmp.is_err());
    assert!(matches!(ludcmp, Err(LinAlgError::SingularMatrix(_))));
}

#[test]
fn lu_error_variants() {
    let mat = fmat(1, 2, &[1.0, 2.0]);
    let res = LUdcmp::new(&mat);
    assert!(matches!(res, Err(LinAlgError::InvalidMatrixSize(1, 2))));

    let mat = fmat(2, 2, &[1.0, 0.0, 0.0, 1.0]);
    let lu = LUdcmp::new(&mat).unwrap();
    let res = lu.solve(&fv(&[1.0]), &mut fv(&[0.0, 0.0]));
    assert!(matches!(res, Err(LinAlgError::InvalidVectorSize(1))));
}

#[test]
fn lu_solve_recovers_known_vector() {
    let a = fmat(3, 3, &[3.0, 1.0, 0.0, 1.0, 4.0, 2.0, 0.0, 2.0, 5.0]);
    let x0 = fv(&[1.0, -2.0, 0.5]);
    let bm = a.duplicate().mul(Matrix::new(3, 1, x0.clone())).unwrap();
    let b = bm.get_col(0);
    let lu = LUdcmp::new(&a).unwrap();
    let mut x = fv(&[0.0, 0.0, 0.0]);
    let res = lu.solve(&b, &mut x);
    assert!(res.is_ok());
    assert!(near(x[0], 1.0, 1e-5));
    assert!(near(x[1], -2.0, 1e-5));
    assert!(near(x[2], 0.5, 1e-5));
}

#[test]
fn lu_det_is_diagonal_product() {
    let mat = fmat(2, 2, &[2.0, 0.0, 0.0, 3.0]);
    let lu = LUdcmp::new(&mat).unwrap();
    assert!(near(lu.det(), 6.0, 1e-10));

    // A row swap during pivoting flips the determinant's sign.
    let mat = fmat(2, 2, &[0.0, 1.0, 1.0, 0.0]);
    let lu = LUdcmp::new(&mat).unwrap();
    assert!(near(lu.det(), -1.0, 1e-10));
}

#[test]
fn cholesky_rejects_not_positive_definite() {
    let mat = fmat(2, 2, &[-1.0, 0.0, 0.0, 1.0]);
    let res = Cholesky::new(&mat);
    assert!(matches!(res, Err(LinAlgError::NegativeValueNotAllowed())));
}

#[test]
fn cholesky_solve_rejects_wrong_lengths() {
    let mat = fmat(2, 2, &[2.0, 0.0, 0.0, 2.0]);
    let ch = Cholesky::new(&mat).unwrap();
    let res = ch.solve(&fv(&[1.0]), &mut fv(&[0.0, 0.0]));
    assert!(matches!(res, Err(LinAlgError::InvalidSize())));
}

#[test]
fn cholesky_elsolve_elmult_round_trip() {
    let mat = fmat(3, 3, &[2.0, -1.0, 0.0, -1.0, 2.0, -1.0, 0.0, -1.0, 2.0]);
    let ch = Cholesky::new(&mat).unwrap();
    let b = fv(&[1.0, 2.0, 3.0]);
    let mut y = fv(&[0.0, 0.0, 0.0]);
    assert!(ch.elsolve(&b, &mut y).is_ok());
    let mut bb = fv(&[0.0, 0.0, 0.0]);
    assert!(ch.elmult(&y, &mut bb).is_ok());
    assert!(near(bb[0], 1.0, 1e-5));
    assert!(near(bb[1], 2.0, 1e-5));
    assert!(near(bb[2], 3.0, 1e-5));
}

#[test]
fn cholesky_logdet_matches_closed_form() {
    let mat = fmat(2, 2, &[4.0, 0.0, 0.0, 9.0]);
    let ch = Cholesky::new(&mat).unwrap();
    assert!(near(ch.logdet(), 36f64.ln(), 1e-5));
}

#[test]
fn lu_same_input_gives_bit_identical_factors() {
    let mat = fmat(3, 3, &[1.0, 1.0, -1.0, -2.0, -1.0, 1.0, -1.0, -2.0, 1.0]);
    let l1 = LUdcmp::new(&mat).unwrap();
    let l2 = LUdcmp::new(&mat).unwrap();
    assert_eq!(l1.n, l2.n);
    assert_eq!(l1.indx, l2.indx);
    assert_eq!(l1.d.0.to_bits(), l2.d.0.to_bits());
    for i in 0..3 {
        for j in 0..3 {
            assert_eq!(l1.lu.get(i, j).0.to_bits(), l2.lu.get(i, j).0.to_bits());
        }
    }
}

#[test]
fn cholesky_same_input_gives_bit_identical_factors() {
    let mat = fmat(3, 3, &[2.0, -1.0, 0.0, -1.0, 2.0, -1.0, 0.0, -1.0, 2.0]);
    let c1 = Cholesky::new(&mat).unwrap();
    let c2 = Cholesky::new(&mat).unwrap();
    assert_eq!(c1.n, c2.n);
    for i in 0..3 {
        for j in 0..3 {
            assert_eq!(c1.el.get(i, j).0.to_bits(), c2.el.get(i, j).0.to_bits());
        }
    }
}

#[test]
fn test_qrdcmp() {
    let mat = fmat(3, 3, &[1.0, 1.0, -1.0, -2.0, -1.0, 1.0, -1.0, -2.0, 1.0]);
    let qrd = QRdcmp::new(&mat);
    let b = fv(&[0.0, -1.0, -2.0]);
    let mut x = fv(&[0.0, 0.0, 0.0]);
    let res = qrd.solve(&b, &mut x);
    assert!(res.is_ok());
    assert!(near(x[0], 1.0, 1e-5));
    assert!(near(x[1], 2.0, 1e-5));
    assert!(near(x[2], 3.0, 1e-5));
}

#[test]
fn qr_same_input_gives_bit_identical_factors() {
    let mat = fmat(3, 3, &[1.0, 1.0, -1.0, -2.0, -1.0, 1.0, -1.0, -2.0, 1.0]);
    let q1 = QRdcmp::new(&mat);
    let q2 = QRdcmp::new(&mat);
    assert_eq!(q1.singular, q2.singular);
    for i in 0..3 {
        for j in 0..3 {
            assert_eq!(q1.r.get(i, j).0.to_bits(), q2.r.get(i, j).0.to_bits());
            assert_eq!(q1.qt.get(i, j).0.to_bits(), q2.qt.get(i, j).0.to_bits());
        }
    }
}

#[test]
fn qr_singular_flag_blocks_solve() {
    let mat = fmat(2, 2, &[0.0, 0.0, 0.0, 0.0]);
    let qrd = QRdcmp::new(&mat);
    let mut x = fv(&[0.0, 0.0]);
    let res = qrd.solve(&fv(&[1.0, 1.0]), &mut x);
    assert!(matches!(res, Err(LinAlgError::SingularMatrix(_))));
}

#[test]
fn qr_update_with_zero_vectors_keeps_solution() {
    let mat = fmat(3, 3, &[1.0, 1.0, -1.0, -2.0, -1.0, 1.0, -1.0, -2.0, 1.0]);
    let mut qrd = QRdcmp::new(&mat);
    let z = fv(&[0.0, 0.0, 0.0]);
    qrd.update(&z, &z);
    let b = fv(&[0.0, -1.0, -2.0]);
    let mut x = fv(&[0.0, 0.0, 0.0]);
    let res = qrd.solve(&b, &mut x);
    assert!(res.is_ok());
    assert!(near(x[0], 1.0, 1e-5));
    assert!(near(x[1], 2.0, 1e-5));
    assert!(near(x[2], 3.0, 1e-5));
}

#[test]
fn test_tridiag() {
    // Case : normal
    let a = fv(&[0.0, 1.0, 1.0, 1.0]);
    let b = fv(&[2.0, 2.0, 2.0, 2.0]);
    let c = fv(&[1.0, 1.0, 1.0, 0.0]);
    let r = fv(&[4.0, 8.0, 12.0, 11.0]);
    let mut u = fv(&[0.0, 0.0, 0.0, 0.0]);

    let res = tridiag(&a, &b, &c, &r, &mut u);
    assert!(res.is_ok());

    assert!(near(u[0], 1.0, 1e-5));
    assert!(near(u[1], 2.0, 1e-5));
    assert!(near(u[2], 3.0, 1e-5));
    assert!(near(u[3], 4.0, 1e-5));

    // Case : error
    let b = fv(&[1.0, 1.0, 1.0, 1.0]);
    let res = tridiag(&a, &b, &c, &r, &mut u);
    assert!(res.is_err());
    assert!(matches!(res, Err(LinAlgError::ZeroDivision())));

    // Case : error
    let b = fv(&[0.0, 1.0, 1.0, 1.0]);
    let res = tridiag(&a, &b, &c, &r, &mut u);
    assert!(res.is_err());
    assert!(matches!(res, Err(LinAlgError::ZeroDiagonalElemement(0))));
}

#[test]
fn test_cyclic() {
    let a = fv(&[0.0, 1.0, 1.0, 1.0]);
    let b = fv(&[2.0, 2.0, 2.0, 2.0]);
    let c = fv(&[1.0, 1.0, 1.0, 0.0]);
    let r = fv(&[8.0, 8.0, 12.0, 13.0]);
    let alpha = F64(2.0);
    let beta = F64(1.0);
    let mut x = fv(&[0.0, 0.0, 0.0, 0.0]);
    let res = cyclic(&a, &b, &c, alpha, beta, &r, &mut x);
    assert!(res.is_ok());

    assert!(near(x[0], 1.0, 1e-5));
    assert!(near(x[1], 2.0, 1e-5));
    assert!(near(x[2], 3.0, 1e-5));
    assert!(near(x[3], 4.0, 1e-5));
}

#[test]
fn cyclic_rejects_short_systems() {
    let a = fv(&[1.0, 1.0]);
    let b = fv(&[2.0, 2.0]);
    let c = fv(&[1.0, 1.0]);
    let r = fv(&[1.0, 1.0]);
    let mut x = fv(&[0.0, 0.0]);
    let res = cyclic(&a, &b, &c, F64(1.0), F64(1.0), &r, &mut x);
    assert!(matches!(res, Err(LinAlgError::InvalidVectorSize(2))));
}

#[test]
fn test_toeplz() {
    let r = fv(&[1.0, 2.0, 3.0, 4.0, 0.0]);
    let mut x = fv(&[0.0, 0.0, 0.0]);
    let y = fv(&[10.0, 16.0, 17.0]);
    let res = toeplz(&r, &mut x, &y);
    assert!(res.is_ok());
    assert!(near(x[0], 1.0, 1e-7));
    assert!(near(x[1], 2.0, 1e-7));
    assert!(near(x[2], 3.0, 1e-7));
}

#[test]
fn toeplz_error_variants() {
    // Zero central coefficient.
    let r = fv(&[1.0, 1.0, 0.0, 1.0, 1.0]);
    let mut x = fv(&[0.0, 0.0, 0.0]);
    let y = fv(&[1.0, 1.0, 1.0]);
    let res = toeplz(&r, &mut x, &y);
    assert!(matches!(res, Err(LinAlgError::ZeroDiagonalElemement(0))));

    // Singular principal minor.
    let r = fv(&[1.0, 1.0, 1.0, 1.0, 1.0]);
    let mut x = fv(&[0.0, 0.0, 0.0]);
    let res = toeplz(&r, &mut x, &y);
    assert!(matches!(res, Err(LinAlgError::SingularPrincipleMinor())));
}

#[test]
fn test_vander() {
    let x = fv(&[1.0, 2.0, 3.0]);
    let mut w = fv(&[0.0, 0.0, 0.0]);
    let q = fv(&[9.0, 20.0, 50.0]);
    vander(&x, &mut w, &q);
    assert!(near(w[0], 2.0, 1e-5));
    assert!(near(w[1], 3.0, 1e-5));
    assert!(near(w[2], 4.0, 1e-5));
}

fn dense_2x2_csc() -> NRsparseMat<F64> {
    // [[1, 2], [3, 4]] held column by column.
    let mut m: NRsparseMat<F64> = NRsparseMat::new(2, 2, 4);
    m.col_ptr = vec![0, 2, 4];
    m.row_ind = vec![0, 1, 0, 1];
    m.val = fv(&[1.0, 3.0, 2.0, 4.0]);
    m
}

#[test]
fn sparse_ax_and_atx() {
    let m = dense_2x2_csc();
    let x = fv(&[1.0, 1.0]);
    let y = m.ax(&x);
    assert!(near(y[0], 3.0, 1e-10));
    assert!(near(y[1], 7.0, 1e-10));
    let y = m.atx(&x);
    assert!(near(y[0], 4.0, 1e-10));
    assert!(near(y[1], 6.0, 1e-10));
}

#[test]
fn sparse_transpose_swaps_products() {
    let m = dense_2x2_csc();
    let t = m.transpose();
    let x = fv(&[1.0, 1.0]);
    let y = t.ax(&x);
    assert!(near(y[0], 4.0, 1e-10));
    assert!(near(y[1], 6.0, 1e-10));
    let y = t.atx(&x);
    assert!(near(y[0], 3.0, 1e-10));
    assert!(near(y[1], 7.0, 1e-10));
}

#[test]
fn sparse_col_new_and_resize() {
    let mut c: NRsparseCol<F64> = NRsparseCol::new(5, 2);
    assert_eq!(c.nrows, 5);
    assert_eq!(c.nvals, 2);
    assert_eq!(c.row_ind.len(), 2);
    assert_eq!(c.val.len(), 2);
    c.resize(7, 3);
    assert_eq!(c.nrows, 7);
    assert_eq!(c.nvals, 3);
    assert_eq!(c.row_ind.len(), 3);
    assert_eq!(c.val.len(), 3);
}

#[test]
fn adat_diagonal_update() {
    // A is the 2 by 2 identity in sparse form, so A D A^T is diag(D).
    let mut a: NRsparseMat<F64> = NRsparseMat::new(2, 2, 2);
    a.col_ptr = vec![0, 1, 2];
    a.row_ind = vec![0, 1];
    a.val = fv(&[1.0, 1.0]);
    let at = a.transpose();
    let mut adat = ADAT::new(&a, &at);
    adat.updateD(&fv(&[2.0, 3.0]));
    let prod = adat.reference();
    let y = prod.ax(&fv(&[1.0, 1.0]));
    assert!(near(y[0], 2.0, 1e-10));
    assert!(near(y[1], 3.0, 1e-10));
}

#[test]
fn adat_pattern_columns_are_sorted() {
    // A = [[0, 1], [1, 1]] in sparse form; the second product column is
    // discovered out of order, so its values land correctly only after
    // the pattern's row indices are sorted.
    let mut a: NRsparseMat<F64> = NRsparseMat::new(2, 2, 3);
    a.col_ptr = vec![0, 1, 3];
    a.row_ind = vec![1, 0, 1];
    a.val = fv(&[1.0, 1.0, 1.0]);
    let at = a.transpose();
    let mut adat = ADAT::new(&a, &at);
    adat.updateD(&fv(&[1.0, 2.0]));
    let prod = adat.reference();
    let y = prod.ax(&fv(&[1.0, 0.0]));
    assert!(near(y[0], 2.0, 1e-10));
    assert!(near(y[1], 2.0, 1e-10));
    let y = prod.ax(&fv(&[0.0, 1.0]));
    assert!(near(y[0], 2.0, 1e-10));
    assert!(near(y[1], 3.0, 1e-10));
}

#[test]
fn lingcd_solves_diagonal_system() {
    let mut m: NRsparseMat<F64> = NRsparseMat::new(2, 2, 2);
    m.col_ptr = vec![0, 1, 2];
    m.row_ind = vec![0, 1];
    m.val = fv(&[2.0, 5.0]);
    let op = NRsparseLingcb::new(&m);
    let b = fv(&[4.0, 10.0]);
    let mut x = fv(&[0.0, 0.0]);
    let mut it: usize = 0;
    let mut e = F64(0.0);
    op.solve(&b, &mut x, 1, F64(1e-9), 50, &mut it, &mut e);
    assert!(near(x[0], 2.0, 1e-6));
    assert!(near(x[1], 2.0, 1e-6));
    assert!(it >= 1 && it <= 50);
    assert!(e.0 < 1e-9);
}

#[test]
fn svd_pseudo_inverse_solve_zeroes_null_directions() {
    // Identity factors and explicit singular values exercise the
    // pseudo-inverse policy directly: positive values divide, the zero
    // value contributes nothing.
    let sv = SVD {
        m: 2,
        n: 2,
        u: Matrix::<F64>::identity(2),
        v: Matrix::<F64>::identity(2),
        w: fv(&[2.0, 0.0]),
        eps: F64(f32::EPSILON as f64),
        tsh: F64(0.5),
    };
    let b = fv(&[6.0, 7.0]);
    let mut x = fv(&[0.0, 0.0]);
    let res = sv.solve(&b, &mut x);
    assert!(res.is_ok());
    assert!(near(x[0], 3.0, 1e-10));
    assert!(near(x[1], 0.0, 1e-10));

    let res = sv.solve(&fv(&[1.0]), &mut x);
    assert!(matches!(res, Err(LinAlgError::InvalidSize())));
}

#[test]
fn svd_solve_mat_solves_column_by_column() {
    let sv = SVD {
        m: 2,
        n: 2,
        u: Matrix::<F64>::identity(2),
        v: Matrix::<F64>::identity(2),
        w: fv(&[2.0, 4.0]),
        eps: F64(f32::EPSILON as f64),
        tsh: F64(0.5),
    };
    let b = fmat(2, 2, &[2.0, 8.0, 4.0, 16.0]);
    let mut x = fmat(2, 2, &[0.0; 4]);
    let res = sv.solve_mat(&b, &mut x);
    assert!(res.is_ok());
    assert!(near(x.get(0, 0), 1.0, 1e-10));
    assert!(near(x.get(1, 0), 1.0, 1e-10));
    assert!(near(x.get(0, 1), 4.0, 1e-10));
    assert!(near(x.get(1, 1), 4.0, 1e-10));
}

#[test]
fn svd_rank_plus_nullity_is_n() {
    let sv = SVD {
        m: 3,
        n: 3,
        u: Matrix::<F64>::identity(3),
        v: Matrix::<F64>::identity(3),
        w: fv(&[5.0, 1e-20, 0.3]),
        eps: F64(f32::EPSILON as f64),
        tsh: F64(0.5),
    };
    assert_eq!(sv.rank(), 1);
    assert_eq!(sv.nullity(), 2);
    assert_eq!(sv.rank() + sv.nullity(), 3);
    let range = sv.range();
    assert_eq!(range.rows(), 3);
    assert_eq!(range.cols(), 1);
    let null = sv.nullspace();
    assert_eq!(null.rows(), 3);
    assert_eq!(null.cols(), 2);
}

#[test]
fn sparse_transpose_twice_restores_storage() {
    // 3 x 2 matrix in column-major sparse form:
    // [ 1 0 ]
    // [ 2 5 ]
    // [ 0 6 ]
    let m = NRsparseMat {
        nrows: 3,
        ncols: 2,
        nvals: 4,
        col_ptr: vec![0, 2, 4],
        row_ind: vec![0, 1, 1, 2],
        val: fv(&[1.0, 2.0, 5.0, 6.0]),
    };
    let t = m.transpose();
    assert_eq!(t.nrows, 2);
    assert_eq!(t.ncols, 3);
    assert_eq!(t.col_ptr, vec![0, 1, 3, 4]);
    assert_eq!(t.row_ind, vec![0, 0, 1, 1]);
    let tvals: Vec<f64> = t.val.iter().map(|v| v.0).collect();
    assert_eq!(tvals, vec![1.0, 2.0, 5.0, 6.0]);
    let tt = t.transpose();
    assert_eq!(tt.nrows, m.nrows);
    assert_eq!(tt.ncols, m.ncols);
    assert_eq!(tt.col_ptr, m.col_ptr);
    assert_eq!(tt.row_ind, m.row_ind);
    let back: Vec<f64> = tt.val.iter().map(|v| v.0).collect();
    assert_eq!(back, vec![1.0, 2.0, 5.0, 6.0]);
}

#[test]
fn svd_new_runs_the_decomposition() {
    // A full run of the decomposition on a small non-symmetric matrix:
    // the shapes, the threshold inputs and the rank split must come out.
    let entries = [3.0, 0.0, 4.0, 5.0];
    let a = fmat(2, 2, &entries);
    let sv = SVD::new(a);
    assert_eq!(sv.m, 2);
    assert_eq!(sv.n, 2);
    assert_eq!(sv.w.len(), 2);
    assert_eq!(sv.u.rows(), 2);
    assert_eq!(sv.v.rows(), 2);
    assert!(sv.eps.0 == f32::EPSILON as f64);
    assert!(sv.w.iter().all(|v| v.0.is_finite()));
    assert_eq!(sv.rank() + sv.nullity(), 2);
}
