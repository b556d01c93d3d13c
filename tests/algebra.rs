use linalg::complex::Complex as ExactComplex;
use linalg::eigen::characteristic_polynomial;
use linalg::fraction::Fraction;
use linalg::io::{read_method, Either, QRMethod};
use linalg::longint::LongInt;
use linalg::lu::{gauss_from_lu, lu_decomposition};
use linalg::matrix::{Matrix, MatrixError};
use linalg::number::NumNonRef;
use linalg::poly::Polynome;
use linalg::qr::{gauss_from_qr, qr_method_for};

fn li(x: i64) -> LongInt {
    LongInt::from_i64(x)
}

fn q(num: i64, den: i64) -> Fraction {
    Fraction::new(li(den), li(num))
}

fn show(f: &Fraction) -> String {
    let n = f.numerator().to_decimal();
    let d = f.denominator().to_decimal();
    if d == "1" {
        n
    } else {
        format!("{}/{}", n, d)
    }
}

fn fmat(rows: &[&[i64]]) -> Matrix<Fraction> {
    let w = rows[0].len();
    let mut v = Vec::new();
    for r in rows {
        for x in r.iter() {
            v.push(q(*x, 1));
        }
    }
    Matrix::from_vec(v, w).unwrap()
}

fn imat(rows: &[&[i64]]) -> Matrix<LongInt> {
    let w = rows[0].len();
    let mut v = Vec::new();
    for r in rows {
        for x in r.iter() {
            v.push(li(*x));
        }
    }
    Matrix::from_vec(v, w).unwrap()
}

fn table(m: &Matrix<Fraction>) -> Vec<Vec<String>> {
    let mut t = Vec::new();
    for i in 0..m.height() {
        let mut row = Vec::new();
        for j in 0..m.width() {
            row.push(show(m.get(i, j)));
        }
        t.push(row);
    }
    t
}

fn coefs(p: &Polynome) -> Vec<String> {
    let mut v = Vec::new();
    if let Some(n) = (0..64).rev().find(|k| !p.get(*k).is_zero()) {
        for k in 0..=n {
            v.push(p.get(k).to_decimal());
        }
    }
    v
}

fn strs(v: &[&str]) -> Vec<String> {
    v.iter().map(|s| s.to_string()).collect()
}

#[test]
fn lu_of_two_by_two() {
    let a = fmat(&[&[4, 3], &[6, 3]]);
    let (l, u) = lu_decomposition(&a).unwrap();
    assert_eq!(table(&l), vec![strs(&["1", "0"]), strs(&["3/2", "1"])]);
    assert_eq!(table(&u), vec![strs(&["4", "3"]), strs(&["0", "-3/2"])]);
    let prod = l.mul(&u).unwrap();
    assert_eq!(table(&prod), table(&a));
}

#[test]
fn lu_reproduces_a_larger_matrix() {
    let a = fmat(&[&[2, 1, 1, 0], &[4, 3, 3, 1], &[8, 7, 9, 5], &[6, 7, 9, 8]]);
    let (l, u) = lu_decomposition(&a).unwrap();
    for i in 0..4 {
        assert_eq!(show(l.get(i, i)), "1");
        for j in 0..4 {
            if j > i {
                assert!(l.get(i, j).is_zero());
            }
            if j < i {
                assert!(u.get(i, j).is_zero());
            }
        }
    }
    let diff = l.mul(&u).unwrap().sub(&a).unwrap();
    for k in 0..16 {
        assert!(diff.elems_raw()[k].is_zero());
    }
}

#[test]
fn lu_rejects_zero_pivot_and_non_square() {
    let a = fmat(&[&[0, 1], &[1, 0]]);
    assert!(matches!(lu_decomposition(&a), Err(MatrixError::NotRegular)));
    let b = fmat(&[&[1, 2], &[2, 4]]);
    assert!(matches!(lu_decomposition(&b), Err(MatrixError::NotRegular)));
    let c = fmat(&[&[1, 2, 3], &[4, 5, 6]]);
    assert!(matches!(lu_decomposition(&c), Err(MatrixError::NotSquare)));
}

#[test]
fn lu_solve_satisfies_the_system() {
    let a = fmat(&[&[2, 1, -1], &[-3, -1, 2], &[-2, 1, 2]]);
    let b = fmat(&[&[8], &[-11], &[-3]]);
    let (l, u) = lu_decomposition(&a).unwrap();
    let x = gauss_from_lu(&l, &u, &b).unwrap();
    assert_eq!(table(&x), vec![strs(&["2"]), strs(&["3"]), strs(&["-1"])]);
    let ax = a.mul(&x).unwrap();
    assert_eq!(table(&ax), table(&b));
}

#[test]
fn lu_solve_checks_shapes() {
    let a = fmat(&[&[1, 0], &[0, 1]]);
    let b = fmat(&[&[1], &[2], &[3]]);
    assert!(matches!(gauss_from_lu(&a, &a, &b), Err(MatrixError::SizeMismatch)));
    let z = fmat(&[&[1, 0], &[0, 0]]);
    let b2 = fmat(&[&[1], &[2]]);
    assert!(matches!(gauss_from_lu(&a, &z, &b2), Err(MatrixError::NotRegular)));
}

#[test]
fn qr_solve_with_orthonormal_q() {
    // q is a permutation, hence orthonormal; r is upper triangular.
    let qm = fmat(&[&[0, 1], &[1, 0]]);
    let r = fmat(&[&[2, 1], &[0, 4]]);
    let a = qm.mul(&r).unwrap();
    let b = fmat(&[&[8], &[5]]);
    let x = gauss_from_qr(&qm, &r, &b).unwrap();
    let ax = a.mul(&x).unwrap();
    assert_eq!(table(&ax), table(&b));
    assert_eq!(table(&x), vec![strs(&["3/2"]), strs(&["2"])]);
    let bad = fmat(&[&[1, 2]]);
    assert!(matches!(gauss_from_qr(&qm, &r, &bad), Err(MatrixError::SizeMismatch)));
}

#[test]
fn givens_on_complex_is_unsupported() {
    assert!(matches!(
        qr_method_for(Some(QRMethod::Givens), true),
        Err(MatrixError::UnsopportedOperation)
    ));
    assert_eq!(qr_method_for(Some(QRMethod::Givens), false).unwrap(), QRMethod::Givens);
    assert_eq!(qr_method_for(None, true).unwrap(), QRMethod::GramSchmidt);
    assert_eq!(qr_method_for(Some(QRMethod::Householder), true).unwrap(), QRMethod::Householder);
}

#[test]
fn characteristic_polynomial_of_tridiagonal() {
    let a = imat(&[&[2, 1, 0], &[1, 2, 1], &[0, 1, 2]]);
    let p = characteristic_polynomial(&a).unwrap();
    assert_eq!(coefs(&p), strs(&["4", "-10", "6", "-1"]));
    assert_eq!(p.degree(), 3);
}

#[test]
fn characteristic_polynomial_of_diagonal() {
    let a = imat(&[&[3, 0], &[0, 5]]);
    let p = characteristic_polynomial(&a).unwrap();
    assert_eq!(coefs(&p), strs(&["15", "-8", "1"]));
    let b = imat(&[&[-2, 0], &[0, 7]]);
    assert_eq!(coefs(&characteristic_polynomial(&b).unwrap()), strs(&["-14", "-5", "1"]));
}

#[test]
fn characteristic_polynomial_small_and_invalid() {
    let one = imat(&[&[4]]);
    assert_eq!(coefs(&characteristic_polynomial(&one).unwrap()), strs(&["4", "-1"]));
    let empty: Matrix<LongInt> = Matrix::new(0, 0);
    assert_eq!(coefs(&characteristic_polynomial(&empty).unwrap()), Vec::<String>::new());
    let full = imat(&[&[1, 0, 1], &[0, 1, 0], &[0, 0, 1]]);
    assert!(matches!(characteristic_polynomial(&full), Err(MatrixError::NotTridiagonal)));
    let rect = imat(&[&[1, 0]]);
    assert!(matches!(characteristic_polynomial(&rect), Err(MatrixError::NotSquare)));
}

#[test]
fn characteristic_polynomial_of_a_long_chain() {
    // 1-2-1 tridiagonal matrix of size 5: det(A - x I) at x = 0 is 6.
    let mut a: Matrix<LongInt> = Matrix::new(5, 5);
    for i in 0..5 {
        a.set(i, i, li(2));
        if i > 0 {
            a.set(i, i - 1, li(-1));
            a.set(i - 1, i, li(-1));
        }
    }
    let p = characteristic_polynomial(&a).unwrap();
    let c = coefs(&p);
    assert_eq!(c[0], "6");
    assert_eq!(c[5], "-1");
    assert_eq!(c.len(), 6);
}

#[test]
fn polynomial_operations() {
    let p = Polynome::from_coefs(&[li(1), li(2), li(0)]);
    assert_eq!(p.degree(), 1);
    let r = Polynome::from_coefs(&[li(-1), li(1)]);
    assert_eq!(coefs(&p.mul(&r)), strs(&["-1", "-1", "2"]));
    assert_eq!(coefs(&p.add(&r)), strs(&["0", "3"]));
    assert_eq!(coefs(&p.sub(&p)), Vec::<String>::new());
    assert_eq!(coefs(&p.mul_scalar(&li(-3))), strs(&["-3", "-6"]));
    let s = Polynome::from_coefs(&[li(4), li(-6), li(2)]);
    assert_eq!(coefs(&s.normalize()), strs(&["2", "-3", "1"]));
    assert_eq!(coefs(&s.div_scalar(&li(2))), strs(&["2", "-3", "1"]));
    let mut t = Polynome::new();
    t.set(2, li(0));
    assert_eq!(coefs(&t), Vec::<String>::new());
    t.set(2, li(5));
    assert_eq!(t.degree(), 2);
    assert_eq!(coefs(&t), strs(&["0", "0", "5"]));
    t.set(2, li(0));
    assert_eq!(coefs(&t), Vec::<String>::new());
}

#[test]
fn matrix_construction_and_shape() {
    let id: Matrix<Fraction> = Matrix::identity(3);
    assert_eq!(table(&id)[1], strs(&["0", "1", "0"]));
    let s: Matrix<Fraction> = Matrix::scalar(q(2, 1), 2);
    assert_eq!(table(&s), vec![strs(&["2", "2"]), strs(&["2", "2"])]);
    let a = fmat(&[&[1, 2, 3], &[4, 5, 6]]);
    let t = a.transpose();
    assert_eq!(t.width(), 2);
    assert_eq!(t.height(), 3);
    assert_eq!(table(&t), vec![strs(&["1", "4"]), strs(&["2", "5"]), strs(&["3", "6"])]);
    assert_eq!(table(&a.hermetian_transpose()), table(&t));
    assert_eq!(table(&a.row(1)), vec![strs(&["4", "5", "6"])]);
    assert_eq!(table(&a.column(2)), vec![strs(&["3"]), strs(&["6"])]);
    assert!(matches!(a.mul(&a), Err(MatrixError::SizeMismatch)));
    assert!(matches!(a.add(&t), Err(MatrixError::SizeMismatch)));
    assert_eq!(table(&a.add(&a).unwrap())[0], strs(&["2", "4", "6"]));
    assert_eq!(table(&a.scale(&q(1, 2)))[1], strs(&["2", "5/2", "3"]));
    assert_eq!(table(&a.div_scalar(&q(2, 1)))[0], strs(&["1/2", "1", "3/2"]));
    assert!(matches!(Matrix::from_vec(vec![q(1, 1), q(2, 1), q(3, 1)], 2), Err(MatrixError::SizeMismatch)));
    let mut m = a.duplicate();
    m.set(0, 0, q(-1, 3));
    assert_eq!(show(m.get(0, 0)), "-1/3");
    assert_eq!(show(a.get(0, 0)), "1");
}

#[test]
fn numeric_interface_on_long_int() {
    let a = li(-6);
    let b = li(4);
    assert_eq!(a.plus(&b).to_decimal(), "-2");
    assert_eq!(a.times(&b).to_decimal(), "-24");
    assert_eq!(a.over(&b).to_decimal(), "-1");
    assert_eq!(a.conjugate().to_decimal(), "-6");
    assert!(<LongInt as NumNonRef>::zero().is_zero_num());
    assert_eq!(<Fraction as NumNonRef>::one().numerator().to_decimal(), "1");
}

#[test]
fn method_header() {
    let (m, rest) = read_method("  Method=2 [1 2]");
    assert_eq!(m, Some(QRMethod::Givens));
    assert_eq!(rest, " [1 2]");
    let (m, rest) = read_method("Method=1[1]");
    assert_eq!(m, Some(QRMethod::Householder));
    assert_eq!(rest, "[1]");
    let (m, rest) = read_method("\nMethod=3");
    assert_eq!(m, Some(QRMethod::GramSchmidt));
    assert_eq!(rest, "");
    let (m, rest) = read_method("Method=9 [1]");
    assert_eq!(m, None);
    assert_eq!(rest, "Method=9 [1]");
    let (m, rest) = read_method("[1 2]");
    assert_eq!(m, None);
    assert_eq!(rest, "[1 2]");
}

#[test]
fn either_unwraps() {
    let l: Either<i32, &str> = Either::Left(3);
    let r: Either<i32, &str> = Either::Right("x");
    assert_eq!(*l.unwrap_left(), 3);
    assert_eq!(*r.unwrap_right(), "x");
}

fn cq(re: i64, im: i64) -> ExactComplex {
    ExactComplex::new(q(re, 1), q(im, 1))
}

fn cshow(z: &ExactComplex) -> String {
    format!("{}{}{}i", show(z.re()), if z.im().numerator().compare(&li(0)) == std::cmp::Ordering::Less { "" } else { "+" }, show(z.im()))
}

#[test]
fn complex_arithmetic() {
    let a = cq(1, 2);
    let b = cq(3, -1);
    assert_eq!(cshow(&a.add(&b)), "4+1i");
    assert_eq!(cshow(&a.sub(&b)), "-2+3i");
    assert_eq!(cshow(&a.mul(&b)), "5+5i");
    assert_eq!(cshow(&a.div(&b)), "1/10+7/10i");
    assert_eq!(cshow(&a.conjugate()), "1-2i");
    assert_eq!(show(&a.abs_squared()), "5");
    assert_eq!(cshow(&a.neg()), "-1-2i");
    assert!(<ExactComplex as NumNonRef>::zero().is_zero_num());
}

#[test]
fn complex_lu_and_solve() {
    let a = Matrix::from_vec(vec![cq(2, 1), cq(1, 0), cq(4, 2), cq(3, 1)], 2).unwrap();
    let (l, u) = lu_decomposition(&a).unwrap();
    assert_eq!(cshow(l.get(1, 0)), "2+0i");
    let prod = l.mul(&u).unwrap().sub(&a).unwrap();
    for k in 0..4 {
        assert!(prod.elems_raw()[k].is_zero_num());
    }
    let b = Matrix::from_vec(vec![cq(1, 0), cq(0, 1)], 1).unwrap();
    let x = gauss_from_lu(&l, &u, &b).unwrap();
    let diff = a.mul(&x).unwrap().sub(&b).unwrap();
    assert!(diff.elems_raw()[0].is_zero_num());
    assert!(diff.elems_raw()[1].is_zero_num());
}

#[test]
fn complex_qr_solve_uses_the_conjugate() {
    // q = diag(i, 1) is unitary; q^H = diag(-i, 1).
    let qm = Matrix::from_vec(vec![cq(0, 1), cq(0, 0), cq(0, 0), cq(1, 0)], 2).unwrap();
    let r = Matrix::from_vec(vec![cq(1, 0), cq(1, 0), cq(0, 0), cq(2, 0)], 2).unwrap();
    let b = Matrix::from_vec(vec![cq(0, 3), cq(4, 0)], 1).unwrap();
    let x = gauss_from_qr(&qm, &r, &b).unwrap();
    assert_eq!(cshow(x.get(0, 0)), "1+0i");
    assert_eq!(cshow(x.get(1, 0)), "2+0i");
    let a = qm.mul(&r).unwrap();
    let diff = a.mul(&x).unwrap().sub(&b).unwrap();
    assert!(diff.elems_raw()[0].is_zero_num());
}
