use crate::lu::{back_sub, check_diagonal, diagonal_nonzero, u_gauss};
use crate::io::QRMethod;
use crate::matrix::{Matrix, MatrixError};
use crate::number::NumNonRef;
use vstd::prelude::*;

verus! {

/// Entry `i` of `q^H * b` after the first `m` terms, added up in order from zero.
pub open spec fn conj_dot<T: NumNonRef>(q: &Matrix<T>, b: &Matrix<T>, i: int, m: nat) -> T::V
    decreases m,
{
    if m == 0 {
        T::zero_v()
    } else {
        T::add_v(conj_dot(q, b, i, (m - 1) as nat), T::mul_v(T::conj_v(q.at(m - 1, i)), b.at(m - 1, 0)))
    }
}

/// `q^H * b` as a sequence of `n` entries.
pub open spec fn conj_col<T: NumNonRef>(q: &Matrix<T>, b: &Matrix<T>, n: nat) -> Seq<T::V> {
    Seq::new(n, |i: int| conj_dot(q, b, i, n))
}

proof fn lemma_conj_dot<T: NumNonRef>(qh: &Matrix<T>, q: &Matrix<T>, b: &Matrix<T>, i: int, m: nat)
    requires
        m <= q.h(),
        0 <= i < q.w(),
        forall|r: int, c: int|
            0 <= r < q.w() && 0 <= c < q.h() ==> #[trigger] qh.at(r, c) == T::conj_v(q.at(c, r)),
    ensures
        qh.dot(b, i, 0, m) == conj_dot(q, b, i, m),
    decreases m,
{
    if m > 0 {
        lemma_conj_dot(qh, q, b, i, (m - 1) as nat);
        assert(qh.at(i, m - 1) == T::conj_v(q.at(m - 1, i)));
    }
}

/// Solves `q * r * x = b` from a QR factorization: `q^H * b`, then back substitution against `r`.
pub fn gauss_from_qr<T: NumNonRef>(q: &Matrix<T>, r: &Matrix<T>, b: &Matrix<T>) -> (res: Result<Matrix<T>, MatrixError>)
    requires
        q.wf(),
        r.wf(),
        b.wf(),
    ensures
        (q.w() != q.h() || r.w() != r.h() || b.w() != 1 || b.h() != q.h() || r.w() != q.w()) ==> res is Err
            && res->Err_0 is SizeMismatch,
        (q.w() == q.h() && r.w() == r.h() && b.w() == 1 && b.h() == q.h() && r.w() == q.w()) ==> (res is Ok
            <==> diagonal_nonzero(r, r.w())),
        (q.w() == q.h() && r.w() == r.h() && b.w() == 1 && b.h() == q.h() && r.w() == q.w()) && res is Err
            ==> res->Err_0 is NotRegular,
        res matches Ok(x) ==> x.wf() && x.w() == 1 && x.h() == r.w() && forall|i: int|
            0 <= i < r.w() ==> #[trigger] x.at(i, 0) == back_sub(r, conj_col(q, b, r.w()), i as nat),
{
    if q.width() != q.height() || r.width() != r.height() || b.width() != 1 || b.height() != q.height()
        || r.width() != q.width() {
        return Err(MatrixError::SizeMismatch);
    }
    if !check_diagonal(r) {
        return Err(MatrixError::NotRegular);
    }
    let qh = q.hermetian_transpose();
    let _size = q.size();
    let v = match qh.mul(b) {
        Ok(v) => v,
        Err(e) => {
            return Err(e);
        },
    };
    let ghost n = r.w();
    proof {
        assert forall|k: int| 0 <= k < n implies #[trigger] v.at(k, 0) == conj_dot(q, b, k, n) by {
            lemma_conj_dot(&qh, q, b, k, n);
        }
        assert(Seq::new(n, |k: int| v.at(k, 0)) =~= conj_col(q, b, n));
    }
    Ok(u_gauss(r, &v))
}

/// The QR algorithm to run for a requested method: Gram-Schmidt when none is named, and
/// `UnsopportedOperation` for Givens rotations on a complex matrix.
pub fn qr_method_for(method: Option<QRMethod>, complex: bool) -> (r: Result<QRMethod, MatrixError>)
    ensures
        method is None ==> r is Ok && r->Ok_0 == QRMethod::GramSchmidt,
        method == Some(QRMethod::Givens) && complex ==> r is Err && r->Err_0 is UnsopportedOperation,
        method is Some && !(method->Some_0 == QRMethod::Givens && complex) ==> r is Ok && r->Ok_0
            == method->Some_0,
{
    match method {
        None => Ok(QRMethod::GramSchmidt),
        Some(QRMethod::Givens) => {
            if complex {
                Err(MatrixError::UnsopportedOperation)
            } else {
                Ok(QRMethod::Givens)
            }
        },
        Some(m) => Ok(m),
    }
}

} // verus!
