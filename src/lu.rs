use crate::matrix::{Matrix, MatrixError};
use crate::number::NumNonRef;
use vstd::prelude::*;

verus! {

/// Entry `(i, j)` of the working matrix of the unpivoted Doolittle elimination after `k` layers:
/// at layer `l`, every entry below and right of the pivot `(l, l)` loses
/// `d[l][j] * d[i][l] / d[l][l]`.
pub open spec fn reduced<T: NumNonRef>(a: &Matrix<T>, k: nat, i: int, j: int) -> T::V
    decreases k,
{
    if k == 0 {
        a.at(i, j)
    } else {
        let l = (k - 1) as nat;
        if i > l && j > l {
            T::sub_v(
                reduced(a, l, i, j),
                T::div_v(T::mul_v(reduced(a, l, l as int, j), reduced(a, l, i, l as int)), reduced(a, l, l as int, l as int)),
            )
        } else {
            reduced(a, l, i, j)
        }
    }
}

/// The pivot of layer `k`.
pub open spec fn pivot<T: NumNonRef>(a: &Matrix<T>, k: nat) -> T::V {
    reduced(a, k, k as int, k as int)
}

/// Whether every pivot of an `n`-by-`n` elimination is non-zero.
pub open spec fn pivots_nonzero<T: NumNonRef>(a: &Matrix<T>, n: nat) -> bool {
    forall|k: nat| k < n ==> #[trigger] pivot(a, k) != T::zero_v()
}

/// Entry `(i, j)` of the unit-lower-triangular factor.
pub open spec fn lu_l<T: NumNonRef>(a: &Matrix<T>, i: int, j: int) -> T::V {
    if i == j {
        T::one_v()
    } else if i > j && j >= 0 {
        T::div_v(reduced(a, j as nat, i, j), pivot(a, j as nat))
    } else {
        T::zero_v()
    }
}

/// Entry `(i, j)` of the upper-triangular factor.
pub open spec fn lu_u<T: NumNonRef>(a: &Matrix<T>, i: int, j: int) -> T::V {
    if 0 <= i <= j {
        reduced(a, i as nat, i, j)
    } else {
        T::zero_v()
    }
}

/// Unpivoted Doolittle factorization of a square matrix into a unit-lower-triangular `L` and
/// an upper-triangular `U`. A zero pivot fails with `NotRegular`; no rows are exchanged.
pub fn lu_decomposition<T: NumNonRef>(mat: &Matrix<T>) -> (r: Result<(Matrix<T>, Matrix<T>), MatrixError>)
    requires
        mat.wf(),
    ensures
        mat.w() != mat.h() ==> r is Err && r->Err_0 is NotSquare,
        mat.w() == mat.h() ==> (r is Ok <==> pivots_nonzero(mat, mat.w())),
        mat.w() == mat.h() && r is Err ==> r->Err_0 is NotRegular,
        r matches Ok((l, u)) ==> {
            &&& l.wf() && u.wf()
            &&& l.w() == mat.w() && l.h() == mat.w() && u.w() == mat.w() && u.h() == mat.w()
            &&& forall|i: int, j: int|
                0 <= i < mat.w() && 0 <= j < mat.w() ==> #[trigger] l.at(i, j) == lu_l(mat, i, j)
            &&& forall|i: int, j: int|
                0 <= i < mat.w() && 0 <= j < mat.w() ==> #[trigger] u.at(i, j) == lu_u(mat, i, j)
        },
{
    if mat.width() != mat.height() {
        return Err(MatrixError::NotSquare);
    }
    let n = mat.width();
    let _size = mat.size();
    let mut l: Matrix<T> = Matrix::new(n, n);
    let mut u: Matrix<T> = Matrix::new(n, n);
    let mut d = mat.duplicate();
    assert forall|i: int, j: int| 0 <= i < n && 0 <= j < n implies #[trigger] l.at(i, j)
        == T::zero_v() by {
        crate::matrix::lemma_idx(i, j, i, n as int, n as int, n as int);
    }
    assert forall|i: int, j: int| 0 <= i < n && 0 <= j < n implies #[trigger] u.at(i, j)
        == T::zero_v() by {
        crate::matrix::lemma_idx(i, j, i, n as int, n as int, n as int);
    }
    let mut k: usize = 0;
    while k < n
        invariant
            mat.wf(),
            n == mat.w(),
            n == mat.h(),
            k <= n,
            l.wf() && u.wf() && d.wf(),
            l.w() == n && l.h() == n && u.w() == n && u.h() == n && d.w() == n && d.h() == n,
            forall|kk: nat| kk < k ==> #[trigger] pivot(mat, kk) != T::zero_v(),
            forall|i: int, j: int|
                0 <= i < n && 0 <= j < n ==> #[trigger] l.at(i, j) == (if j < k {
                    lu_l(mat, i, j)
                } else {
                    T::zero_v()
                }),
            forall|i: int, j: int|
                0 <= i < n && 0 <= j < n ==> #[trigger] u.at(i, j) == (if i < k {
                    lu_u(mat, i, j)
                } else {
                    T::zero_v()
                }),
            forall|i: int, j: int|
                0 <= i < n && 0 <= j < n ==> #[trigger] d.at(i, j) == reduced(mat, k as nat, i, j),
        decreases n - k,
    {
        let a = d.get(k, k).copy_num();
        if a.is_zero_num() {
            assert(pivot(mat, k as nat) == T::zero_v());
            return Err(MatrixError::NotRegular);
        }
        assert(pivot(mat, k as nat) != T::zero_v());
        l.set(k, k, T::one());
        let ghost u_before = u;
        u.set(k, k, a.copy_num());
        let mut i: usize = k + 1;
        while i < n
            invariant
                mat.wf(),
                n == mat.w(),
                n == mat.h(),
                k < n,
                k + 1 <= i <= n,
                a.valid(),
                a@ == pivot(mat, k as nat),
                a@ != T::zero_v(),
                l.wf() && u.wf() && d.wf(),
                l.w() == n && l.h() == n && u.w() == n && u.h() == n && d.w() == n && d.h() == n,
                forall|r: int, c: int|
                    0 <= r < n && 0 <= c < n ==> #[trigger] l.at(r, c) == (if c < k || (c == k && r
                        < i) {
                        lu_l(mat, r, c)
                    } else {
                        T::zero_v()
                    }),
                forall|r: int, c: int|
                    0 <= r < n && 0 <= c < n ==> #[trigger] u.at(r, c) == (if r < k || (r == k && c
                        < i) {
                        lu_u(mat, r, c)
                    } else {
                        T::zero_v()
                    }),
                forall|r: int, c: int|
                    0 <= r < n && 0 <= c < n ==> #[trigger] d.at(r, c) == (if k < r < i {
                        reduced(mat, (k + 1) as nat, r, c)
                    } else {
                        reduced(mat, k as nat, r, c)
                    }),
            decreases n - i,
        {
            let lik = d.get(i, k).over(&a);
            l.set(i, k, lik);
            let uki = d.get(k, i).copy_num();
            u.set(k, i, uki);
            let mut j: usize = k + 1;
            while j < n
                invariant
                    mat.wf(),
                    n == mat.w(),
                    n == mat.h(),
                    k < i < n,
                    k + 1 <= j <= n,
                    a.valid(),
                    a@ == pivot(mat, k as nat),
                    a@ != T::zero_v(),
                    d.wf(),
                    d.w() == n && d.h() == n,
                    forall|r: int, c: int|
                        0 <= r < n && 0 <= c < n ==> #[trigger] d.at(r, c) == (if (k < r < i) || (r
                            == i && k < c < j) {
                            reduced(mat, (k + 1) as nat, r, c)
                        } else {
                            reduced(mat, k as nat, r, c)
                        }),
                decreases n - j,
            {
                let x = d.get(i, j).minus(&d.get(k, j).times(d.get(i, k)).over(&a));
                d.set(i, j, x);
                j = j + 1;
            }
            i = i + 1;
        }
        k = k + 1;
    }
    Ok((l, u))
}

/// Forward substitution against `l`, row `i` after the first `m` terms:
/// `b[i] - l[i][0] * x[0] - ... - l[i][m-1] * x[m-1]`, subtracted in that order.
pub open spec fn fwd<T: NumNonRef>(l: &Matrix<T>, b: &Matrix<T>, i: nat, m: nat) -> T::V
    decreases i, m,
{
    if m == 0 || m > i {
        b.at(i as int, 0)
    } else {
        T::sub_v(
            fwd(l, b, i, (m - 1) as nat),
            T::mul_v(l.at(i as int, m - 1), fwd(l, b, (m - 1) as nat, (m - 1) as nat)),
        )
    }
}

/// Entry `i` of the solution of `l * x = b` by forward substitution.
pub open spec fn forward<T: NumNonRef>(l: &Matrix<T>, b: &Matrix<T>, i: nat) -> T::V {
    fwd(l, b, i, i)
}

/// The forward solution as a sequence of `n` entries.
pub open spec fn forward_col<T: NumNonRef>(l: &Matrix<T>, b: &Matrix<T>, n: nat) -> Seq<T::V> {
    Seq::new(n, |i: int| forward(l, b, i as nat))
}

/// Back substitution against `u` with right-hand side `y`, row `r` after `m` terms taken from
/// the right: `y[r] - u[r][n-1] * x[n-1] - ... - u[r][n-m] * x[n-m]`.
pub open spec fn bwd<T: NumNonRef>(u: &Matrix<T>, y: Seq<T::V>, r: nat, m: nat) -> T::V
    decreases y.len() - r, m,
{
    let n = y.len();
    if m == 0 || r >= n || m > n - 1 - r {
        y[r as int]
    } else {
        let c = (n - m) as nat;
        T::sub_v(
            bwd(u, y, r, (m - 1) as nat),
            T::mul_v(u.at(r as int, c as int), T::div_v(bwd(u, y, c, (n - 1 - c) as nat), u.at(c as int, c as int))),
        )
    }
}

/// Entry `r` of the solution of `u * x = y` by back substitution.
pub open spec fn back_sub<T: NumNonRef>(u: &Matrix<T>, y: Seq<T::V>, r: nat) -> T::V {
    T::div_v(bwd(u, y, r, (y.len() - 1 - r) as nat), u.at(r as int, r as int))
}

/// Whether no diagonal entry of the first `n` is zero.
pub open spec fn diagonal_nonzero<T: NumNonRef>(u: &Matrix<T>, n: nat) -> bool {
    forall|i: int| 0 <= i < n ==> #[trigger] u.at(i, i) != T::zero_v()
}

/// Solves `l * x = b` for a square `l` and a column `b` of its height.
fn l_gauss<T: NumNonRef>(l: &Matrix<T>, b: &Matrix<T>) -> (x: Matrix<T>)
    requires
        l.wf(),
        b.wf(),
        l.w() == l.h(),
        b.w() == 1,
        b.h() == l.h(),
    ensures
        x.wf(),
        x.w() == 1,
        x.h() == l.w(),
        forall|i: int| 0 <= i < l.w() ==> #[trigger] x.at(i, 0) == forward(l, b, i as nat),
{
    let n = l.width();
    let _size = b.size();
    let mut x: Matrix<T> = Matrix::new(1, n);
    let mut i: usize = 0;
    while i < n
        invariant
            l.wf(),
            b.wf(),
            n == l.w(),
            n == l.h(),
            b.w() == 1,
            b.h() == n,
            i <= n,
            x.wf(),
            x.w() == 1,
            x.h() == n,
            forall|r: int| 0 <= r < i ==> #[trigger] x.at(r, 0) == forward(l, b, r as nat),
        decreases n - i,
    {
        let mut xi = b.get(i, 0).copy_num();
        let mut j: usize = 0;
        while j < i
            invariant
                l.wf(),
                b.wf(),
                n == l.w(),
                n == l.h(),
                b.w() == 1,
                b.h() == n,
                i < n,
                j <= i,
                x.wf(),
                x.w() == 1,
                x.h() == n,
                forall|r: int| 0 <= r < i ==> #[trigger] x.at(r, 0) == forward(l, b, r as nat),
                xi.valid(),
                xi@ == fwd(l, b, i as nat, j as nat),
            decreases i - j,
        {
            let p = l.get(i, j).times(x.get(j, 0));
            xi = xi.minus(&p);
            j = j + 1;
        }
        x.set(i, 0, xi);
        i = i + 1;
    }
    x
}

/// Solves `u * x = y` by back substitution, where `y` is the column `b`; the diagonal of `u`
/// has no zero.
pub(crate) fn u_gauss<T: NumNonRef>(u: &Matrix<T>, b: &Matrix<T>) -> (x: Matrix<T>)
    requires
        u.wf(),
        b.wf(),
        u.w() == u.h(),
        b.w() == 1,
        b.h() == u.h(),
        diagonal_nonzero(u, u.w()),
    ensures
        x.wf(),
        x.w() == 1,
        x.h() == u.w(),
        forall|r: int|
            0 <= r < u.w() ==> #[trigger] x.at(r, 0) == back_sub(
                u,
                Seq::new(u.w(), |k: int| b.at(k, 0)),
                r as nat,
            ),
{
    let n = u.width();
    let ghost y = Seq::new(n as nat, |k: int| b.at(k, 0));
    let mut x: Matrix<T> = Matrix::new(1, n);
    let mut i: usize = 0;
    while i < n
        invariant
            u.wf(),
            b.wf(),
            n == u.w(),
            n == u.h(),
            b.w() == 1,
            b.h() == n,
            diagonal_nonzero(u, n as nat),
            y == Seq::new(n as nat, |k: int| b.at(k, 0)),
            i <= n,
            x.wf(),
            x.w() == 1,
            x.h() == n,
            forall|r: int| n - i <= r < n ==> #[trigger] x.at(r, 0) == back_sub(u, y, r as nat),
        decreases n - i,
    {
        let row = n - i - 1;
        let mut xi = b.get(row, 0).copy_num();
        let mut j: usize = 0;
        while j < i
            invariant
                u.wf(),
                b.wf(),
                n == u.w(),
                n == u.h(),
                b.w() == 1,
                b.h() == n,
                diagonal_nonzero(u, n as nat),
                y == Seq::new(n as nat, |k: int| b.at(k, 0)),
                i < n,
                row == n - i - 1,
                j <= i,
                x.wf(),
                x.w() == 1,
                x.h() == n,
                forall|r: int| n - i <= r < n ==> #[trigger] x.at(r, 0) == back_sub(u, y, r as nat),
                xi.valid(),
                xi@ == bwd(u, y, row as nat, j as nat),
            decreases i - j,
        {
            let c = n - j - 1;
            let p = u.get(row, c).times(x.get(c, 0));
            xi = xi.minus(&p);
            j = j + 1;
        }
        let d = u.get(row, row);
        assert(d@ != T::zero_v());
        x.set(row, 0, xi.over(d));
        i = i + 1;
    }
    x
}

/// Solves `l * u * x = b` from an LU factorization: forward substitution against `l`, then back
/// substitution against `u`.
pub fn gauss_from_lu<T: NumNonRef>(l: &Matrix<T>, u: &Matrix<T>, b: &Matrix<T>) -> (r: Result<Matrix<T>, MatrixError>)
    requires
        l.wf(),
        u.wf(),
        b.wf(),
    ensures
        (l.w() != l.h() || u.w() != u.h() || b.w() != 1 || b.h() != l.h() || l.w() != u.w()) ==> r is Err
            && r->Err_0 is SizeMismatch,
        (l.w() == l.h() && u.w() == u.h() && b.w() == 1 && b.h() == l.h() && l.w() == u.w()) ==> (r is Ok
            <==> diagonal_nonzero(u, u.w())),
        (l.w() == l.h() && u.w() == u.h() && b.w() == 1 && b.h() == l.h() && l.w() == u.w()) && r is Err
            ==> r->Err_0 is NotRegular,
        r matches Ok(x) ==> x.wf() && x.w() == 1 && x.h() == u.w() && forall|i: int|
            0 <= i < u.w() ==> #[trigger] x.at(i, 0) == back_sub(u, forward_col(l, b, u.w()), i as nat),
{
    if l.width() != l.height() || u.width() != u.height() || b.width() != 1 || b.height() != l.height()
        || l.width() != u.width() {
        return Err(MatrixError::SizeMismatch);
    }
    if !check_diagonal(u) {
        return Err(MatrixError::NotRegular);
    }
    let v = l_gauss(l, b);
    let x = u_gauss(u, &v);
    assert(Seq::new(u.w(), |k: int| v.at(k, 0)) =~= forward_col(l, b, u.w()));
    Ok(x)
}

/// Whether the diagonal of a square matrix has no zero.
pub(crate) fn check_diagonal<T: NumNonRef>(u: &Matrix<T>) -> (r: bool)
    requires
        u.wf(),
        u.w() == u.h(),
    ensures
        r == diagonal_nonzero(u, u.w()),
{
    let n = u.width();
    let mut i: usize = 0;
    while i < n
        invariant
            u.wf(),
            n == u.w(),
            n == u.h(),
            i <= n,
            diagonal_nonzero(u, i as nat),
        decreases n - i,
    {
        if u.get(i, i).is_zero_num() {
            return false;
        }
        i = i + 1;
    }
    true
}

} // verus!
