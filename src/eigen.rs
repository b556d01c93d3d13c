use crate::longint::LongInt;
use crate::matrix::{Matrix, MatrixError};
use crate::poly::{canonical, coef, conv, lemma_conv_linear, values, Polynome};
use vstd::prelude::*;

verus! {

/// Coefficient of `x^k` in `det(A_m - x I)`, where `A_m` is the leading `m`-by-`m` block of a
/// tridiagonal `a`: `D_0 = 1`, `D_1 = a00 - x`, and
/// `D_m = (a[m-1][m-1] - x) D_{m-1} - a[m-1][m-2] a[m-2][m-1] D_{m-2}`.
pub open spec fn char_coef(a: &Matrix<LongInt>, m: nat, k: int) -> int
    decreases m,
{
    if k < 0 {
        0
    } else if m == 0 {
        if k == 0 {
            1
        } else {
            0
        }
    } else if m == 1 {
        if k == 0 {
            a.at(0, 0)
        } else if k == 1 {
            -1
        } else {
            0
        }
    } else {
        let i = m - 1;
        a.at(i, i) * char_coef(a, (m - 1) as nat, k) - char_coef(a, (m - 1) as nat, k - 1) - a.at(i, i - 1)
            * a.at(i - 1, i) * char_coef(a, (m - 2) as nat, k)
    }
}

/// Coefficient of `x^k` in the characteristic polynomial of an `n`-by-`n` tridiagonal `a`; the
/// empty matrix has the zero polynomial.
pub open spec fn char_poly(a: &Matrix<LongInt>, k: int) -> int {
    if a.w() == 0 {
        0
    } else {
        char_coef(a, a.w(), k)
    }
}

/// Every entry off the main, sub- and super-diagonal is zero.
pub open spec fn tridiagonal(a: &Matrix<LongInt>) -> bool {
    forall|i: int, j: int|
        0 <= i < a.h() && 0 <= j < a.w() && (i - j > 1 || j - i > 1) ==> #[trigger] a.at(i, j) == 0
}

/// The degree of `D_m` is at most `m`.
pub proof fn lemma_char_degree(a: &Matrix<LongInt>, m: nat, k: int)
    requires
        k > m,
    ensures
        char_coef(a, m, k) == 0,
    decreases m,
{
    if m >= 2 {
        lemma_char_degree(a, (m - 1) as nat, k);
        lemma_char_degree(a, (m - 1) as nat, k - 1);
        lemma_char_degree(a, (m - 2) as nat, k);
    }
}

/// A canonical sequence whose coefficients vanish from `bound` on is at most `bound` long.
proof fn lemma_canonical_len(s: Seq<int>, bound: nat)
    requires
        canonical(s),
        forall|k: int| k >= bound ==> #[trigger] coef(s, k) == 0,
    ensures
        s.len() <= bound,
{
    if s.len() > bound {
        assert(coef(s, s.len() - 1) == 0);
    }
}

/// Whether every entry off the three central diagonals is zero.
fn is_tridiagonal(mat: &Matrix<LongInt>) -> (r: bool)
    requires
        mat.wf(),
    ensures
        r == tridiagonal(mat),
{
    let h = mat.height();
    let w = mat.width();
    let mut i: usize = 0;
    while i < h
        invariant
            mat.wf(),
            h == mat.h(),
            w == mat.w(),
            i <= h,
            forall|ii: int, jj: int|
                0 <= ii < i && 0 <= jj < w && (ii - jj > 1 || jj - ii > 1) ==> #[trigger] mat.at(ii, jj) == 0,
        decreases h - i,
    {
        let mut j: usize = 0;
        while j < w
            invariant
                mat.wf(),
                h == mat.h(),
                w == mat.w(),
                i < h,
                j <= w,
                forall|ii: int, jj: int|
                    0 <= ii < i && 0 <= jj < w && (ii - jj > 1 || jj - ii > 1) ==> #[trigger] mat.at(ii, jj)
                        == 0,
                forall|jj: int|
                    0 <= jj < j && (i - jj > 1 || jj - i > 1) ==> #[trigger] mat.at(i as int, jj) == 0,
            decreases w - j,
        {
            if !(i == j || (j > 0 && j - 1 == i) || (i > 0 && i - 1 == j)) {
                if !mat.get(i, j).is_zero() {
                    return false;
                }
            }
            j = j + 1;
        }
        i = i + 1;
    }
    true
}

/// The polynomial `c - x`.
fn linear(c: &LongInt) -> (r: Polynome)
    requires
        c.wf(),
    ensures
        r.wf(),
        r@.len() <= 2,
        coef(r@, 0) == c@,
        coef(r@, 1) == -1,
        forall|k: int| #[trigger] coef(r@, k) == (if k == 0 {
            c@
        } else if k == 1 {
            -1
        } else {
            0
        }),
{
    let v = vec![c.duplicate(), LongInt::from_i64(-1)];
    let r = Polynome::from_coefs(v.as_slice());
    assert(coef(values(v@), 0) == c@);
    assert(coef(values(v@), 1) == -1);
    proof {
        r.lemma_canonical();
        lemma_canonical_len(r@, 2);
    }
    r
}

/// The characteristic polynomial `det(A - x I)` of a square tridiagonal matrix, by the
/// three-term recurrence over its leading blocks.
pub fn characteristic_polynomial(mat: &Matrix<LongInt>) -> (r: Result<Polynome, MatrixError>)
    requires
        mat.wf(),
    ensures
        mat.w() != mat.h() ==> r is Err && r->Err_0 is NotSquare,
        mat.w() == mat.h() ==> (r is Ok <==> tridiagonal(mat)),
        mat.w() == mat.h() && r is Err ==> r->Err_0 is NotTridiagonal,
        r matches Ok(p) ==> p.wf() && forall|k: int| #[trigger] coef(p@, k) == char_poly(mat, k),
{
    if mat.width() != mat.height() {
        return Err(MatrixError::NotSquare);
    }
    if !is_tridiagonal(mat) {
        return Err(MatrixError::NotTridiagonal);
    }
    let n = mat.width();
    let _size = mat.size();
    if n == 0 {
        return Ok(Polynome::new());
    }
    let a = mat.get(0, 0);
    let mut prev2 = linear(a);
    assert forall|k: int| #[trigger] coef(prev2@, k) == char_coef(mat, 1, k) by {}
    if n == 1 {
        return Ok(prev2);
    }
    let b = mat.get(0, 1);
    let c = mat.get(1, 0);
    let d = mat.get(1, 1);
    let v = vec![a.mul(d).sub(&c.mul(b)), d.add(a).mul(&LongInt::from_i64(-1)), LongInt::from_i64(1)];
    let mut prev = Polynome::from_coefs(v.as_slice());
    proof {
        assert forall|k: int| #[trigger] coef(prev@, k) == char_coef(mat, 2, k) by {
            assert(coef(values(v@), k) == coef(prev@, k));
            assert(char_coef(mat, 0, 0) == 1);
            let (x00, x01, x10, x11) = (a@, b@, c@, d@);
            assert(x11 * x00 == x00 * x11) by (nonlinear_arith);
            assert(x10 * x01 * 1 == x10 * x01) by (nonlinear_arith);
            assert((x11 + x00) * -1 == -x00 - x11) by (nonlinear_arith);
            assert(char_coef(mat, 1, -1) == 0);
            assert(char_coef(mat, 1, 0) == x00);
            assert(char_coef(mat, 1, 1) == -1);
            assert(char_coef(mat, 1, 2) == 0);
            assert(char_coef(mat, 0, 1) == 0);
            assert(char_coef(mat, 0, 2) == 0);
            assert(char_coef(mat, 2, 0) == x11 * x00 - x10 * x01 * 1);
            assert(char_coef(mat, 2, 1) == x11 * -1 - x00 - x10 * x01 * 0);
            assert(x10 * x01 * 0 == 0) by (nonlinear_arith);
            assert(char_coef(mat, 2, 2) == x11 * 0 - (-1) - x10 * x01 * 0);
            if k == 2 {
                assert(char_coef(mat, 1, 1) == -1);
                assert(char_coef(mat, 1, 2) == 0);
            }
            if k > 2 {
                lemma_char_degree(mat, 2, k);
            }
        }
    }
    let mut i: usize = 2;
    while i < n
        invariant
            mat.wf(),
            n == mat.w(),
            n == mat.h(),
            n * n <= usize::MAX,
            2 <= i <= n,
            prev.wf(),
            prev2.wf(),
            forall|k: int| #[trigger] coef(prev@, k) == char_coef(mat, i as nat, k),
            forall|k: int| #[trigger] coef(prev2@, k) == char_coef(mat, (i - 1) as nat, k),
        decreases n - i,
    {
        proof {
            assert forall|k: int| k >= i + 1 implies #[trigger] coef(prev@, k) == 0 by {
                lemma_char_degree(mat, i as nat, k);
            }
            prev.lemma_canonical();
            lemma_canonical_len(prev@, (i + 1) as nat);
            assert(i + 3 <= n * n) by (nonlinear_arith)
                requires
                    2 <= i < n,
            ;
        }
        let lin = linear(mat.get(i, i));
        let s = mat.get(i, i - 1).mul(mat.get(i - 1, i));
        let t1 = prev.mul(&lin);
        let t2 = prev2.mul_scalar(&s);
        let next = t1.sub(&t2);
        proof {
            assert forall|k: int| #[trigger] coef(next@, k) == char_coef(mat, (i + 1) as nat, k) by {
                if k >= 0 {
                    lemma_conv_linear(prev@, lin@, k, (k + 1) as nat);
                    assert(conv(prev@, lin@, k) == coef(prev@, k) * coef(lin@, 0) + (if 0 <= k - 1 {
                        coef(prev@, k - 1) * coef(lin@, 1)
                    } else {
                        0
                    }));
                    let x = mat.at(i as int, i as int);
                    let y = s@;
                    let p = coef(prev@, k);
                    let q = coef(prev2@, k);
                    assert(p * x == x * p) by (nonlinear_arith);
                    assert(q * y == y * q) by (nonlinear_arith);
                    assert(coef(prev@, k - 1) * -1 == -coef(prev@, k - 1));
                } else {
                    assert(coef(next@, k) == 0);
                }
            }
        }
        prev2 = prev;
        prev = next;
        i = i + 1;
    }
    Ok(prev)
}

/// The characteristic polynomial of `diag(a, b)` has coefficients `a*b`, `-(a+b)` and `1`.
pub proof fn law_diagonal_char_poly(m: &Matrix<LongInt>)
    requires
        m.wf(),
        m.w() == 2,
        m.h() == 2,
        m.at(0, 1) == 0,
        m.at(1, 0) == 0,
    ensures
        char_poly(m, 0) == m.at(0, 0) * m.at(1, 1),
        char_poly(m, 1) == -(m.at(0, 0) + m.at(1, 1)),
        char_poly(m, 2) == 1,
        forall|k: int| k > 2 ==> #[trigger] char_poly(m, k) == 0,
{
    assert(char_coef(m, 0, 0) == 1);
    assert(char_coef(m, 0, 1) == 0);
    assert(char_coef(m, 1, 0) == m.at(0, 0));
    assert(char_coef(m, 1, 1) == -1);
    assert(char_coef(m, 1, 2) == 0);
    let (x00, x11) = (m.at(0, 0), m.at(1, 1));
    assert(x11 * x00 == x00 * x11) by (nonlinear_arith);
    assert(m.at(1, 0) * m.at(0, 1) == 0);
    assert(char_coef(m, 2, 0) == x11 * char_coef(m, 1, 0) - char_coef(m, 1, -1) - m.at(1, 0) * m.at(0, 1)
        * char_coef(m, 0, 0));
    assert(m.at(1, 0) * m.at(0, 1) * 1 == 0) by (nonlinear_arith)
        requires
            m.at(1, 0) == 0,
    ;
    assert forall|k: int| k > 2 implies #[trigger] char_poly(m, k) == 0 by {
        lemma_char_degree(m, 2, k);
    }
}

} // verus!
