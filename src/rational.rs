use crate::fraction::{gcd, lemma_gcd_reduced, lemma_gcd_scale, reduced_den, reduced_num, sign_negative, Fraction};
use crate::lu::{back_sub, bwd, forward, forward_col, fwd, lu_l, lu_u, pivot, pivots_nonzero, reduced};
use crate::matrix::Matrix;
use crate::qr::{conj_col, conj_dot};
use crate::number::NumNonRef;
use crate::longint::abs;
use vstd::arithmetic::div_mod::{lemma_fundamental_div_mod, lemma_mod_multiples_basic};
use vstd::prelude::*;

verus! {

/// Reducing `n / d` keeps its value and gives a positive denominator.
pub proof fn lemma_reduce_value(d: int, n: int)
    requires
        d != 0,
    ensures
        reduced_den(d, n) > 0,
        reduced_num(d, n) * d == n * reduced_den(d, n),
{
    let a = abs(n) as nat;
    let b = abs(d) as nat;
    lemma_gcd_reduced(a, b);
    let g = gcd(a, b);
    let x = a / g;
    let y = b / g;
    assert(y > 0) by (nonlinear_arith)
        requires
            y * g == b,
            b > 0,
            g > 0,
    ;
    if sign_negative(d, n) {
        assert((-x) * d == n * y) by (nonlinear_arith)
            requires
                x * g == a,
                y * g == b,
                g > 0,
                (d >= 0) != (n >= 0),
                a == abs(n),
                b == abs(d),
        ;
    } else {
        assert(x * d == n * y) by (nonlinear_arith)
            requires
                x * g == a,
                y * g == b,
                g > 0,
                (d >= 0) == (n >= 0),
                a == abs(n),
                b == abs(d),
        ;
    }
}

/// Converting an integer product to a real gives the product of the converted factors.
pub proof fn lemma_cast_mul(x: int, y: int)
    ensures
        (x * y) as real == x as real * y as real,
    decreases abs(y),
{
    if y > 0 {
        lemma_cast_mul(x, y - 1);
        assert(x * y == x * (y - 1) + x) by (nonlinear_arith);
        assert(x as real * (y - 1) as real + x as real == x as real * y as real) by (nonlinear_arith);
    } else if y < 0 {
        lemma_cast_mul(x, y + 1);
        assert(x * y == x * (y + 1) - x) by (nonlinear_arith);
        assert(x as real * (y + 1) as real - x as real == x as real * y as real) by (nonlinear_arith);
    } else {
        assert(x * y == 0) by (nonlinear_arith)
            requires
                y == 0,
        ;
        assert(x as real * 0 as real == 0 as real) by (nonlinear_arith);
    }
}

/// The rational number that a numerator and denominator stand for.
pub open spec fn rv(x: (int, int)) -> real {
    x.0 as real / x.1 as real
}

/// A reduced fraction with a positive denominator.
pub open spec fn valid_q(x: (int, int)) -> bool {
    x.1 > 0 && gcd(abs(x.0) as nat, x.1 as nat) == 1
}

/// The reduced form of `n / d` is reduced and has the value `n / d`.
pub proof fn lemma_reduce(d: int, n: int)
    requires
        d != 0,
    ensures
        valid_q((reduced_num(d, n), reduced_den(d, n))),
        rv((reduced_num(d, n), reduced_den(d, n))) == n as real / d as real,
{
    lemma_reduce_value(d, n);
    let a = abs(n) as nat;
    let b = abs(d) as nat;
    lemma_gcd_reduced(a, b);
    let rn = reduced_num(d, n);
    let rd = reduced_den(d, n);
    assert(abs(rn) == a / gcd(a, b));
    lemma_cast_mul(rn, d);
    lemma_cast_mul(n, rd);
    assert(rn as real / rd as real == n as real / d as real) by (nonlinear_arith)
        requires
            rn as real * d as real == n as real * rd as real,
            rd as real > 0 as real,
            d as real != 0 as real,
    ;
}

/// The values of `0 / 1` and `1 / 1`.
proof fn lemma_rv_units()
    ensures
        rv((0int, 1int)) == 0 as real,
        rv((1int, 1int)) == 1 as real,
        valid_q((0int, 1int)),
        valid_q((1int, 1int)),
{
    assert((0int as real) / (1int as real) == 0 as real) by (nonlinear_arith);
    assert((1int as real) / (1int as real) == 1 as real) by (nonlinear_arith);
    assert(gcd(1, 0) == 1);
    assert(gcd(0, 1) == 1);
    assert(gcd(1, 1) == 1);
}

/// A reduced fraction with numerator zero is `0 / 1`.
pub proof fn lemma_valid_zero(x: (int, int))
    requires
        valid_q(x),
    ensures
        (x.0 == 0) == (x == (0int, 1int)),
        (x.0 == 0) == (rv(x) == 0 as real),
{
    if x.0 == 0 {
        assert(gcd(0, x.1 as nat) == gcd(x.1 as nat, 0));
        assert(rv(x) == 0 as real) by (nonlinear_arith)
            requires
                x.0 == 0,
                x.1 > 0,
                rv(x) == x.0 as real / x.1 as real,
        ;
    } else {
        assert(rv(x) != 0 as real) by (nonlinear_arith)
            requires
                x.0 != 0,
                x.1 > 0,
                rv(x) == x.0 as real / x.1 as real,
        ;
    }
}

/// The operations of `Fraction` keep fractions reduced and compute the rational operations.
pub proof fn lemma_ops(a: (int, int), b: (int, int))
    requires
        valid_q(a),
        valid_q(b),
    ensures
        valid_q(Fraction::add_v(a, b)),
        valid_q(Fraction::sub_v(a, b)),
        valid_q(Fraction::mul_v(a, b)),
        rv(Fraction::add_v(a, b)) == rv(a) + rv(b),
        rv(Fraction::sub_v(a, b)) == rv(a) - rv(b),
        rv(Fraction::mul_v(a, b)) == rv(a) * rv(b),
        b.0 != 0 ==> valid_q(Fraction::div_v(a, b)),
        b.0 != 0 ==> rv(Fraction::div_v(a, b)) == rv(a) / rv(b),
{
    let (a0, a1, b0, b1) = (a.0 as real, a.1 as real, b.0 as real, b.1 as real);
    assert(a.1 * b.1 != 0) by (nonlinear_arith)
        requires
            a.1 > 0,
            b.1 > 0,
    ;
    lemma_cast_mul(a.1, b.1);
    lemma_cast_mul(a.0, b.1);
    lemma_cast_mul(b.0, a.1);
    lemma_cast_mul(a.0, b.0);
    lemma_cast_mul(a.1, b.0);
    lemma_reduce(a.1 * b.1, a.0 * b.1 + b.0 * a.1);
    lemma_reduce(a.1 * b.1, a.0 * b.1 - b.0 * a.1);
    lemma_reduce(a.1 * b.1, a.0 * b.0);
    assert((a0 * b1 + b0 * a1) / (a1 * b1) == a0 / a1 + b0 / b1) by (nonlinear_arith)
        requires
            a1 > 0 as real,
            b1 > 0 as real,
    ;
    assert((a0 * b1 - b0 * a1) / (a1 * b1) == a0 / a1 - b0 / b1) by (nonlinear_arith)
        requires
            a1 > 0 as real,
            b1 > 0 as real,
    ;
    assert((a0 * b0) / (a1 * b1) == (a0 / a1) * (b0 / b1)) by (nonlinear_arith)
        requires
            a1 > 0 as real,
            b1 > 0 as real,
    ;
    if b.0 != 0 {
        lemma_div_op(a, b);
    }
}

proof fn lemma_div_op(a: (int, int), b: (int, int))
    requires
        valid_q(a),
        valid_q(b),
        b.0 != 0,
    ensures
        valid_q(Fraction::div_v(a, b)),
        rv(Fraction::div_v(a, b)) == rv(a) / rv(b),
{
    let d = a.1 * b.0;
    let n = a.0 * b.1;
    assert(d != 0) by (nonlinear_arith)
        requires
            a.1 > 0,
            b.0 != 0,
            d == a.1 * b.0,
    ;
    lemma_reduce(d, n);
    lemma_cast_mul(a.1, b.0);
    lemma_cast_mul(a.0, b.1);
    let (a0, a1, b0, b1) = (a.0 as real, a.1 as real, b.0 as real, b.1 as real);
    assert(n as real == a0 * b1);
    assert(d as real == a1 * b0);
    assert((a0 * b1) / (a1 * b0) == (a0 / a1) / (b0 / b1)) by (nonlinear_arith)
        requires
            a1 > 0 as real,
            b1 > 0 as real,
            b0 != 0 as real,
    ;
}

/// Every entry of a matrix of fractions is a reduced fraction.
pub proof fn lemma_entry_valid(a: &Matrix<Fraction>, i: int, j: int)
    requires
        a.wf(),
        0 <= i < a.h(),
        0 <= j < a.w(),
    ensures
        valid_q(a.at(i, j)),
{
    a.lemma_elem(i, j);
    a.elem_at(i, j).lemma_wf();
}

/// While the pivots so far are non-zero, the working matrix of the elimination holds reduced
/// fractions.
pub proof fn lemma_reduced_valid(a: &Matrix<Fraction>, k: nat, i: int, j: int)
    requires
        a.wf(),
        a.w() == a.h(),
        k <= a.w(),
        forall|t: nat| t < k ==> #[trigger] pivot(a, t) != Fraction::zero_v(),
        0 <= i < a.w(),
        0 <= j < a.w(),
    ensures
        valid_q(reduced(a, k, i, j)),
    decreases k,
{
    if k == 0 {
        lemma_entry_valid(a, i, j);
    } else {
        let l = (k - 1) as nat;
        lemma_reduced_valid(a, l, i, j);
        if i > l && j > l {
            lemma_reduced_valid(a, l, l as int, j);
            lemma_reduced_valid(a, l, i, l as int);
            lemma_reduced_valid(a, l, l as int, l as int);
            let p = reduced(a, l, l as int, l as int);
            assert(pivot(a, l) != Fraction::zero_v());
            lemma_valid_zero(p);
            let m = Fraction::mul_v(reduced(a, l, l as int, j), reduced(a, l, i, l as int));
            lemma_ops(reduced(a, l, l as int, j), reduced(a, l, i, l as int));
            lemma_div_op(m, p);
            lemma_ops(reduced(a, l, i, j), Fraction::div_v(m, p));
        }
    }
}

/// The value of one elimination step: entry `(i, j)` loses `l[i][k] * u[k][j]`.
proof fn lemma_step(a: &Matrix<Fraction>, k: nat, i: int, j: int)
    requires
        a.wf(),
        a.w() == a.h(),
        pivots_nonzero(a, a.w()),
        k < i < a.w(),
        k < j < a.w(),
    ensures
        valid_q(Fraction::mul_v(lu_l(a, i, k as int), lu_u(a, k as int, j))),
        rv(reduced(a, k + 1, i, j)) == rv(reduced(a, k, i, j)) - rv(
            Fraction::mul_v(lu_l(a, i, k as int), lu_u(a, k as int, j)),
        ),
{
    let n = a.w();
    assert forall|t: nat| t < k + 1 implies #[trigger] pivot(a, t) != Fraction::zero_v() by {
        assert(t < n);
    }
    lemma_reduced_valid(a, k, i, j);
    lemma_reduced_valid(a, k, k as int, j);
    lemma_reduced_valid(a, k, i, k as int);
    lemma_reduced_valid(a, k, k as int, k as int);
    let x = reduced(a, k, i, k as int);
    let y = reduced(a, k, k as int, j);
    let p = reduced(a, k, k as int, k as int);
    let r = reduced(a, k, i, j);
    assert(pivot(a, k) != Fraction::zero_v());
    lemma_valid_zero(p);
    lemma_ops(y, x);
    let m = Fraction::mul_v(y, x);
    lemma_div_op(m, p);
    lemma_ops(r, Fraction::div_v(m, p));
    lemma_div_op(x, p);
    let li = Fraction::div_v(x, p);
    lemma_ops(li, y);
    assert(lu_l(a, i, k as int) == li);
    assert(lu_u(a, k as int, j) == y);
    assert(rv(li) * rv(y) == (rv(y) * rv(x)) / rv(p)) by (nonlinear_arith)
        requires
            rv(li) == rv(x) / rv(p),
            rv(p) != 0 as real,
    ;
}

/// Entries of the factors are reduced fractions.
proof fn lemma_factors_valid(a: &Matrix<Fraction>, i: int, j: int)
    requires
        a.wf(),
        a.w() == a.h(),
        pivots_nonzero(a, a.w()),
        0 <= i < a.w(),
        0 <= j < a.w(),
    ensures
        valid_q(lu_l(a, i, j)),
        valid_q(lu_u(a, i, j)),
{
    assert(gcd(1, 1) == 1) by {
        assert(gcd(1, 0) == 1);
    }
    assert(gcd(0, 1) == 1) by {
        assert(gcd(1, 0) == 1);
    }
    if i > j && j >= 0 {
        assert forall|t: nat| t < j as nat implies #[trigger] pivot(a, t) != Fraction::zero_v() by {}
        lemma_reduced_valid(a, j as nat, i, j);
        lemma_reduced_valid(a, j as nat, j, j);
        lemma_valid_zero(pivot(a, j as nat));
        lemma_div_op(reduced(a, j as nat, i, j), pivot(a, j as nat));
    }
    if i <= j {
        assert forall|t: nat| t < i as nat implies #[trigger] pivot(a, t) != Fraction::zero_v() by {}
        lemma_reduced_valid(a, i as nat, i, j);
    }
}

/// The factors as `lu_decomposition` returns them for `a`.
pub open spec fn are_lu_factors(a: &Matrix<Fraction>, l: &Matrix<Fraction>, u: &Matrix<Fraction>) -> bool {
    &&& l.w() == a.w() && l.h() == a.w() && u.w() == a.w() && u.h() == a.w()
    &&& forall|r: int, c: int|
        0 <= r < a.w() && 0 <= c < a.w() ==> #[trigger] l.at(r, c) == lu_l(a, r, c)
    &&& forall|r: int, c: int|
        0 <= r < a.w() && 0 <= c < a.w() ==> #[trigger] u.at(r, c) == lu_u(a, r, c)
}

/// Up to the smaller of `i` and `j`, the partial product of the factors and the working entry
/// add up to the entry of `a`.
proof fn lemma_lu_prefix(a: &Matrix<Fraction>, l: &Matrix<Fraction>, u: &Matrix<Fraction>, i: int, j: int, k: nat)
    requires
        a.wf(),
        a.w() == a.h(),
        pivots_nonzero(a, a.w()),
        are_lu_factors(a, l, u),
        0 <= i < a.w(),
        0 <= j < a.w(),
        k <= i,
        k <= j,
    ensures
        valid_q(l.dot(u, i, j, k)),
        rv(l.dot(u, i, j, k)) + rv(reduced(a, k, i, j)) == rv(a.at(i, j)),
    decreases k,
{
    if k == 0 {
        lemma_rv_units();
    } else {
        let t = (k - 1) as nat;
        lemma_lu_prefix(a, l, u, i, j, t);
        lemma_step(a, t, i, j);
        let m = Fraction::mul_v(lu_l(a, i, t as int), lu_u(a, t as int, j));
        assert(l.at(i, t as int) == lu_l(a, i, t as int));
        assert(u.at(t as int, j) == lu_u(a, t as int, j));
        lemma_ops(l.dot(u, i, j, t), m);
    }
}

/// From the smaller of `i` and `j` on, the partial product of the factors is the entry of `a`.
proof fn lemma_lu_rest(a: &Matrix<Fraction>, l: &Matrix<Fraction>, u: &Matrix<Fraction>, i: int, j: int, k: nat)
    requires
        a.wf(),
        a.w() == a.h(),
        pivots_nonzero(a, a.w()),
        are_lu_factors(a, l, u),
        0 <= i < a.w(),
        0 <= j < a.w(),
        k > i || k > j,
        k <= a.w(),
    ensures
        valid_q(l.dot(u, i, j, k)),
        rv(l.dot(u, i, j, k)) == rv(a.at(i, j)),
    decreases k,
{
    let t = (k - 1) as nat;
    let lt = lu_l(a, i, t as int);
    let ut = lu_u(a, t as int, j);
    assert(l.at(i, t as int) == lt);
    assert(u.at(t as int, j) == ut);
    lemma_factors_valid(a, i, t as int);
    lemma_factors_valid(a, t as int, j);
    lemma_ops(lt, ut);
    if t == i && i <= j {
        lemma_lu_prefix(a, l, u, i, j, t);
        lemma_ops(l.dot(u, i, j, t), Fraction::mul_v(lt, ut));
        lemma_rv_units();
        assert(rv(lt) == 1 as real);
    } else if t == j && j < i {
        lemma_lu_prefix(a, l, u, i, j, t);
        lemma_ops(l.dot(u, i, j, t), Fraction::mul_v(lt, ut));
        let p = pivot(a, t);
        assert(p != Fraction::zero_v());
        assert forall|s: nat| s < t implies #[trigger] pivot(a, s) != Fraction::zero_v() by {}
        lemma_reduced_valid(a, t, t as int, t as int);
        lemma_reduced_valid(a, t, i, t as int);
        lemma_valid_zero(p);
        lemma_div_op(reduced(a, t, i, j), p);
        assert(ut == p);
        assert(rv(lt) * rv(ut) == rv(reduced(a, t, i, j))) by (nonlinear_arith)
            requires
                rv(lt) == rv(reduced(a, t, i, j)) / rv(p),
                rv(ut) == rv(p),
                rv(p) != 0 as real,
        ;
    } else {
        lemma_lu_rest(a, l, u, i, j, t);
        assert(lt == Fraction::zero_v() || ut == Fraction::zero_v());
        lemma_rv_units();
        assert(rv(lt) * rv(ut) == 0 as real) by (nonlinear_arith)
            requires
                rv(lt) == 0 as real || rv(ut) == 0 as real,
        ;
        lemma_ops(l.dot(u, i, j, t), Fraction::mul_v(lt, ut));
    }
}

/// For a square matrix of fractions whose pivots are all non-zero, the product of its LU factors
/// equals the matrix, entry by entry.
pub proof fn law_lu_product(a: &Matrix<Fraction>, l: &Matrix<Fraction>, u: &Matrix<Fraction>)
    requires
        a.wf(),
        a.w() == a.h(),
        pivots_nonzero(a, a.w()),
        are_lu_factors(a, l, u),
    ensures
        forall|i: int, j: int|
            0 <= i < a.w() && 0 <= j < a.w() ==> #[trigger] l.dot(u, i, j, a.w()) == a.at(i, j),
{
    assert forall|i: int, j: int| 0 <= i < a.w() && 0 <= j < a.w() implies #[trigger] l.dot(
        u,
        i,
        j,
        a.w(),
    ) == a.at(i, j) by {
        lemma_lu_rest(a, l, u, i, j, a.w());
        lemma_entry_valid(a, i, j);
        lemma_rv_inj(l.dot(u, i, j, a.w()), a.at(i, j));
    }
}

/// `f(lo) + f(lo + 1) + ... + f(hi - 1)`.
pub open spec fn rsum(f: spec_fn(int) -> real, lo: int, hi: int) -> real
    decreases hi - lo,
{
    if hi <= lo {
        0 as real
    } else {
        rsum(f, lo, hi - 1) + f(hi - 1)
    }
}

proof fn lemma_rsum_ext(f: spec_fn(int) -> real, g: spec_fn(int) -> real, lo: int, hi: int)
    requires
        forall|t: int| lo <= t < hi ==> #[trigger] f(t) == g(t),
    ensures
        rsum(f, lo, hi) == rsum(g, lo, hi),
    decreases hi - lo,
{
    if hi > lo {
        lemma_rsum_ext(f, g, lo, hi - 1);
    }
}

proof fn lemma_rsum_one(f: spec_fn(int) -> real, lo: int)
    ensures
        rsum(f, lo, lo + 1) == f(lo),
{
    assert(rsum(f, lo, lo) == 0 as real);
}

proof fn lemma_rsum_split(f: spec_fn(int) -> real, lo: int, mid: int, hi: int)
    requires
        lo <= mid <= hi,
    ensures
        rsum(f, lo, hi) == rsum(f, lo, mid) + rsum(f, mid, hi),
    decreases hi - mid,
{
    if hi > mid {
        lemma_rsum_split(f, lo, mid, hi - 1);
    }
}

proof fn lemma_rsum_zero(f: spec_fn(int) -> real, lo: int, hi: int)
    requires
        forall|t: int| lo <= t < hi ==> #[trigger] f(t) == 0 as real,
    ensures
        rsum(f, lo, hi) == 0 as real,
    decreases hi - lo,
{
    if hi > lo {
        lemma_rsum_zero(f, lo, hi - 1);
    }
}

proof fn lemma_rsum_add(f: spec_fn(int) -> real, g: spec_fn(int) -> real, lo: int, hi: int)
    ensures
        rsum(|t: int| f(t) + g(t), lo, hi) == rsum(f, lo, hi) + rsum(g, lo, hi),
    decreases hi - lo,
{
    if hi > lo {
        lemma_rsum_add(f, g, lo, hi - 1);
    }
}

proof fn lemma_rsum_scale(f: spec_fn(int) -> real, c: real, lo: int, hi: int)
    ensures
        rsum(|t: int| c * f(t), lo, hi) == c * rsum(f, lo, hi),
    decreases hi - lo,
{
    if hi > lo {
        lemma_rsum_scale(f, c, lo, hi - 1);
        let r = rsum(f, lo, hi - 1);
        assert(c * r + c * f(hi - 1) == c * (r + f(hi - 1))) by (nonlinear_arith);
    }
}

/// Finite double sums may be added up in either order.
proof fn lemma_rsum_swap(g: spec_fn(int, int) -> real, n: int, p: int)
    requires
        0 <= p,
        0 <= n,
    ensures
        rsum(|k: int| rsum(|t: int| g(t, k), 0, n), 0, p) == rsum(|t: int| rsum(|k: int| g(t, k), 0, p), 0, n),
    decreases p,
{
    if p > 0 {
        lemma_rsum_swap(g, n, p - 1);
        let outer = |k: int| rsum(|t: int| g(t, k), 0, n);
        let fp = |t: int| rsum(|k: int| g(t, k), 0, p);
        let f = |t: int| rsum(|k: int| g(t, k), 0, p - 1);
        let h = |t: int| g(t, p - 1);
        assert(rsum(outer, 0, p) == rsum(outer, 0, p - 1) + outer(p - 1));
        assert(outer(p - 1) == rsum(h, 0, n)) by {
            lemma_rsum_ext(|t: int| g(t, p - 1), h, 0, n);
        }
        lemma_rsum_add(f, h, 0, n);
        assert forall|t: int| 0 <= t < n implies #[trigger] fp(t) == (|t: int| f(t) + h(t))(t) by {
            assert(rsum(|k: int| g(t, k), 0, p) == rsum(|k: int| g(t, k), 0, p - 1) + g(t, p - 1));
        }
        lemma_rsum_ext(fp, |t: int| f(t) + h(t), 0, n);
        assert(rsum(outer, 0, p - 1) == rsum(f, 0, n));
        assert(rsum(outer, 0, p) == rsum(fp, 0, n));
        assert(outer =~= (|k: int| rsum(|t: int| g(t, k), 0, n)));
        assert(fp =~= (|t: int| rsum(|k: int| g(t, k), 0, p)));
    } else {
        lemma_rsum_zero(|t: int| rsum(|k: int| g(t, k), 0, p), 0, n);
    }
}

/// Over reduced fractions, the dot product of row `i` and column `j` is the real sum of the
/// products.
proof fn lemma_dot_rv(m: &Matrix<Fraction>, x: &Matrix<Fraction>, i: int, j: int, k: nat)
    requires
        forall|t: int| 0 <= t < k ==> valid_q(#[trigger] m.at(i, t)),
        forall|t: int| 0 <= t < k ==> valid_q(#[trigger] x.at(t, j)),
    ensures
        valid_q(m.dot(x, i, j, k)),
        rv(m.dot(x, i, j, k)) == rsum(|t: int| rv(m.at(i, t)) * rv(x.at(t, j)), 0, k as int),
    decreases k,
{
    if k == 0 {
        lemma_rv_units();
    } else {
        let t = (k - 1) as nat;
        lemma_dot_rv(m, x, i, j, t);
        lemma_ops(m.at(i, t as int), x.at(t as int, j));
        lemma_ops(m.dot(x, i, j, t), Fraction::mul_v(m.at(i, t as int), x.at(t as int, j)));
    }
}

/// Forward substitution over reduced fractions computes `b[i]` minus the real sum of the
/// earlier terms.
proof fn lemma_fwd(l: &Matrix<Fraction>, b: &Matrix<Fraction>, n: nat, i: nat, m: nat)
    requires
        forall|r: int, c: int| 0 <= r < n && 0 <= c < n ==> valid_q(#[trigger] l.at(r, c)),
        forall|r: int| 0 <= r < n ==> valid_q(#[trigger] b.at(r, 0)),
        i < n,
        m <= i,
    ensures
        valid_q(fwd(l, b, i, m)),
        rv(fwd(l, b, i, m)) == rv(b.at(i as int, 0)) - rsum(
            |t: int| rv(l.at(i as int, t)) * rv(forward(l, b, t as nat)),
            0,
            m as int,
        ),
    decreases i, m,
{
    if m > 0 {
        let t = (m - 1) as nat;
        lemma_fwd(l, b, n, i, t);
        lemma_fwd(l, b, n, t, t);
        let y = forward(l, b, t);
        lemma_ops(l.at(i as int, t as int), y);
        lemma_ops(fwd(l, b, i, t), Fraction::mul_v(l.at(i as int, t as int), y));
    }
}

/// The forward solution `y` of a unit lower-triangular `l` satisfies `l * y = b` in real terms.
proof fn lemma_forward_solves(l: &Matrix<Fraction>, b: &Matrix<Fraction>, n: nat, i: nat)
    requires
        forall|r: int, c: int| 0 <= r < n && 0 <= c < n ==> valid_q(#[trigger] l.at(r, c)),
        forall|r: int| 0 <= r < n ==> valid_q(#[trigger] b.at(r, 0)),
        forall|r: int| 0 <= r < n ==> #[trigger] l.at(r, r) == (1int, 1int),
        forall|r: int, c: int| 0 <= r < c < n ==> #[trigger] l.at(r, c) == (0int, 1int),
        i < n,
    ensures
        rsum(|t: int| rv(l.at(i as int, t)) * rv(forward(l, b, t as nat)), 0, n as int) == rv(
            b.at(i as int, 0),
        ),
{
    let f = |t: int| rv(l.at(i as int, t)) * rv(forward(l, b, t as nat));
    lemma_fwd(l, b, n, i, i);
    lemma_rsum_split(f, 0, i as int, n as int);
    lemma_rsum_split(f, i as int, i as int + 1, n as int);
    lemma_rv_units();
    lemma_rsum_one(f, i as int);
    assert(f(i as int) == rv(forward(l, b, i))) by {
        assert(l.at(i as int, i as int) == (1int, 1int));
        assert(1 as real * rv(forward(l, b, i)) == rv(forward(l, b, i))) by (nonlinear_arith);
    }
    assert forall|t: int| i + 1 <= t < n implies #[trigger] f(t) == 0 as real by {
        assert(l.at(i as int, t) == (0int, 1int));
        assert(0 as real * rv(forward(l, b, t as nat)) == 0 as real) by (nonlinear_arith);
    }
    lemma_rsum_zero(f, i as int + 1, n as int);
}

/// Back substitution over reduced fractions computes `y[r]` minus the real sum of the later
/// terms.
proof fn lemma_bwd(u: &Matrix<Fraction>, y: Seq<(int, int)>, r: nat, m: nat)
    requires
        forall|p: int, c: int| 0 <= p < y.len() && 0 <= c < y.len() ==> valid_q(#[trigger] u.at(p, c)),
        forall|c: int| 0 <= c < y.len() ==> (#[trigger] u.at(c, c)).0 != 0,
        forall|p: int| 0 <= p < y.len() ==> valid_q(#[trigger] y[p]),
        r < y.len(),
        m <= y.len() - 1 - r,
    ensures
        valid_q(bwd(u, y, r, m)),
        rv(bwd(u, y, r, m)) == rv(y[r as int]) - rsum(
            |c: int| rv(u.at(r as int, c)) * rv(back_sub(u, y, c as nat)),
            y.len() - m,
            y.len() as int,
        ),
    decreases y.len() - r, m,
{
    let n = y.len();
    if m > 0 {
        let c = (n - m) as nat;
        lemma_bwd(u, y, r, (m - 1) as nat);
        lemma_bwd(u, y, c, (n - 1 - c) as nat);
        lemma_div_op(bwd(u, y, c, (n - 1 - c) as nat), u.at(c as int, c as int));
        let x = back_sub(u, y, c);
        lemma_ops(u.at(r as int, c as int), x);
        lemma_ops(bwd(u, y, r, (m - 1) as nat), Fraction::mul_v(u.at(r as int, c as int), x));
        let f = |c: int| rv(u.at(r as int, c)) * rv(back_sub(u, y, c as nat));
        lemma_rsum_split(f, n - m, n - m + 1, n as int);
        lemma_rsum_one(f, n - m);
        assert(f(n - m) == rv(u.at(r as int, c as int)) * rv(x));
    } else {
        lemma_rsum_zero(|c: int| rv(u.at(r as int, c)) * rv(back_sub(u, y, c as nat)), n as int, n as int);
    }
}

/// The back substitution solution `x` of an upper-triangular `u` satisfies `u * x = y` in real
/// terms.
proof fn lemma_back_solves(u: &Matrix<Fraction>, y: Seq<(int, int)>, r: nat)
    requires
        forall|p: int, c: int| 0 <= p < y.len() && 0 <= c < y.len() ==> valid_q(#[trigger] u.at(p, c)),
        forall|c: int| 0 <= c < y.len() ==> (#[trigger] u.at(c, c)).0 != 0,
        forall|p: int, c: int| 0 <= c < p < y.len() ==> #[trigger] u.at(p, c) == (0int, 1int),
        forall|p: int| 0 <= p < y.len() ==> valid_q(#[trigger] y[p]),
        r < y.len(),
    ensures
        rsum(|c: int| rv(u.at(r as int, c)) * rv(back_sub(u, y, c as nat)), 0, y.len() as int) == rv(y[r as int]),
{
    let n = y.len();
    let f = |c: int| rv(u.at(r as int, c)) * rv(back_sub(u, y, c as nat));
    let m = (n - 1 - r) as nat;
    lemma_bwd(u, y, r, m);
    lemma_rsum_split(f, 0, r as int, n as int);
    lemma_rsum_split(f, r as int, r as int + 1, n as int);
    lemma_rv_units();
    assert forall|c: int| 0 <= c < r implies #[trigger] f(c) == 0 as real by {
        assert(u.at(r as int, c) == (0int, 1int));
        assert(0 as real * rv(back_sub(u, y, c as nat)) == 0 as real) by (nonlinear_arith);
    }
    lemma_rsum_zero(f, 0, r as int);
    let d = u.at(r as int, r as int);
    lemma_rsum_one(f, r as int);
    lemma_valid_zero(d);
    lemma_div_op(bwd(u, y, r, m), d);
    assert(f(r as int) == rv(bwd(u, y, r, m))) by {
        assert(rv(d) * (rv(bwd(u, y, r, m)) / rv(d)) == rv(bwd(u, y, r, m))) by (nonlinear_arith)
            requires
                rv(d) != 0 as real,
        ;
    }
}

/// Facts about reduced fractions in LU factors that the solve needs.
proof fn lemma_factor_facts(a: &Matrix<Fraction>, l: &Matrix<Fraction>, u: &Matrix<Fraction>)
    requires
        a.wf(),
        a.w() == a.h(),
        pivots_nonzero(a, a.w()),
        are_lu_factors(a, l, u),
    ensures
        forall|r: int, c: int| 0 <= r < a.w() && 0 <= c < a.w() ==> valid_q(#[trigger] l.at(r, c)),
        forall|r: int, c: int| 0 <= r < a.w() && 0 <= c < a.w() ==> valid_q(#[trigger] u.at(r, c)),
        forall|r: int, c: int| 0 <= r < a.w() && 0 <= c < a.w() ==> valid_q(#[trigger] a.at(r, c)),
        forall|r: int| 0 <= r < a.w() ==> #[trigger] l.at(r, r) == (1int, 1int),
        forall|r: int, c: int| 0 <= r < c < a.w() ==> #[trigger] l.at(r, c) == (0int, 1int),
        forall|r: int, c: int| 0 <= c < r < a.w() ==> #[trigger] u.at(r, c) == (0int, 1int),
        forall|c: int| 0 <= c < a.w() ==> (#[trigger] u.at(c, c)).0 != 0,
{
    assert forall|r: int, c: int| 0 <= r < a.w() && 0 <= c < a.w() implies valid_q(#[trigger] l.at(r, c))
        && valid_q(u.at(r, c)) by {
        lemma_factors_valid(a, r, c);
    }
    assert forall|r: int, c: int| 0 <= r < a.w() && 0 <= c < a.w() implies valid_q(#[trigger] u.at(r, c)) by {
        lemma_factors_valid(a, r, c);
    }
    assert forall|r: int, c: int| 0 <= r < a.w() && 0 <= c < a.w() implies valid_q(#[trigger] a.at(r, c)) by {
        lemma_entry_valid(a, r, c);
    }
    assert forall|c: int| 0 <= c < a.w() implies (#[trigger] u.at(c, c)).0 != 0 by {
        lemma_factors_valid(a, c, c);
        assert(u.at(c, c) == pivot(a, c as nat));
        assert(pivot(a, c as nat) != Fraction::zero_v());
        lemma_valid_zero(u.at(c, c));
    }
}

/// Solving `a * x = b` from the LU factors of `a` gives an exact solution: for a square matrix
/// of fractions whose pivots are all non-zero, `a * x` equals `b`, entry by entry.
pub proof fn law_lu_solve(
    a: &Matrix<Fraction>,
    l: &Matrix<Fraction>,
    u: &Matrix<Fraction>,
    b: &Matrix<Fraction>,
    x: &Matrix<Fraction>,
)
    requires
        a.wf(),
        a.w() == a.h(),
        pivots_nonzero(a, a.w()),
        are_lu_factors(a, l, u),
        b.wf(),
        b.w() == 1,
        b.h() == a.w(),
        forall|r: int|
            0 <= r < a.w() ==> #[trigger] x.at(r, 0) == back_sub(u, forward_col(l, b, a.w()), r as nat),
    ensures
        forall|i: int| 0 <= i < a.w() ==> #[trigger] a.dot(x, i, 0, a.w()) == b.at(i, 0),
{
    let n = a.w();
    lemma_factor_facts(a, l, u);
    law_lu_product(a, l, u);
    assert forall|r: int| 0 <= r < n implies valid_q(#[trigger] b.at(r, 0)) by {
        b.lemma_elem(r, 0);
        b.elem_at(r, 0).lemma_wf();
    }
    let y = forward_col(l, b, n);
    assert forall|p: int| 0 <= p < y.len() implies valid_q(#[trigger] y[p]) by {
        lemma_fwd(l, b, n, p as nat, p as nat);
    }
    assert forall|k: int| 0 <= k < n implies valid_q(#[trigger] x.at(k, 0)) by {
        lemma_bwd(u, y, k as nat, (n - 1 - k) as nat);
        lemma_div_op(bwd(u, y, k as nat, (n - 1 - k) as nat), u.at(k, k));
    }
    assert forall|i: int| 0 <= i < n implies #[trigger] a.dot(x, i, 0, n) == b.at(i, 0) by {
        lemma_dot_rv(a, x, i, 0, n);
        assert(rv(a.dot(x, i, 0, n)) == rv(b.at(i, 0))) by {
            let g = |t: int, k: int| rv(l.at(i, t)) * rv(u.at(t, k)) * rv(x.at(k, 0));
            lemma_dot_rv(a, x, i, 0, n);
            let ax = |k: int| rv(a.at(i, k)) * rv(x.at(k, 0));
            assert forall|k: int| 0 <= k < n implies #[trigger] ax(k) == rsum(|t: int| g(t, k), 0, n as int) by {
                lemma_dot_rv(l, u, i, k, n);
                let lu = |t: int| rv(l.at(i, t)) * rv(u.at(t, k));
                assert(rv(a.at(i, k)) == rsum(lu, 0, n as int));
                let c = rv(x.at(k, 0));
                lemma_rsum_scale(lu, c, 0, n as int);
                let f1 = |t: int| c * lu(t);
                let f2 = |t: int| g(t, k);
                assert forall|t: int| 0 <= t < n implies #[trigger] f1(t) == f2(t) by {
                    let p = rv(l.at(i, t));
                    let q = rv(u.at(t, k));
                    assert(c * (p * q) == p * q * c) by (nonlinear_arith);
                }
                lemma_rsum_ext(f1, f2, 0, n as int);
                assert(ax(k) == rsum(lu, 0, n as int) * c);
                assert(rsum(lu, 0, n as int) * c == c * rsum(lu, 0, n as int)) by (nonlinear_arith);
        }
        lemma_rsum_ext(ax, |k: int| rsum(|t: int| g(t, k), 0, n as int), 0, n as int);
        lemma_rsum_swap(g, n as int, n as int);
        let ly = |t: int| rv(l.at(i, t)) * rv(forward(l, b, t as nat));
        let rows = |t: int| rsum(|k: int| g(t, k), 0, n as int);
        assert forall|t: int| 0 <= t < n implies #[trigger] rows(t) == ly(t) by {
            let ux = |k: int| rv(u.at(t, k)) * rv(back_sub(u, y, k as nat));
            lemma_back_solves(u, y, t as nat);
            let p = rv(l.at(i, t));
            lemma_rsum_scale(ux, p, 0, n as int);
            let h1 = |k: int| g(t, k);
            let h2 = |k: int| p * ux(k);
            assert forall|k: int| 0 <= k < n implies #[trigger] h1(k) == h2(k) by {
                let q = rv(u.at(t, k));
                let z = rv(x.at(k, 0));
                assert(x.at(k, 0) == back_sub(u, y, k as nat));
                assert(p * q * z == p * (q * z)) by (nonlinear_arith);
            }
            lemma_rsum_ext(h1, h2, 0, n as int);
            assert(y[t] == forward(l, b, t as nat));
        }
        lemma_rsum_ext(rows, ly, 0, n as int);
        lemma_forward_solves(l, b, n, i as nat);
        }
        lemma_rv_inj(a.dot(x, i, 0, n), b.at(i, 0));
    }
}

/// Over reduced fractions, entry `t` of `q^T * b` is the real sum of the products.
proof fn lemma_conj_dot_rv(q: &Matrix<Fraction>, b: &Matrix<Fraction>, t: int, m: nat)
    requires
        forall|s: int| 0 <= s < m ==> valid_q(#[trigger] q.at(s, t)),
        forall|s: int| 0 <= s < m ==> valid_q(#[trigger] b.at(s, 0)),
    ensures
        valid_q(conj_dot(q, b, t, m)),
        rv(conj_dot(q, b, t, m)) == rsum(|s: int| rv(q.at(s, t)) * rv(b.at(s, 0)), 0, m as int),
    decreases m,
{
    if m == 0 {
        lemma_rv_units();
    } else {
        let s = (m - 1) as nat;
        lemma_conj_dot_rv(q, b, t, s);
        lemma_ops(q.at(s as int, t), b.at(s as int, 0));
        lemma_ops(conj_dot(q, b, t, s), Fraction::mul_v(q.at(s as int, t), b.at(s as int, 0)));
    }
}

/// The real sum of the products of rows `i` and `s` of `q`: entry `(i, s)` of `q * q^T`.
pub open spec fn row_product(q: &Matrix<Fraction>, i: int, s: int) -> real {
    rsum(|t: int| rv(q.at(i, t)) * rv(q.at(s, t)), 0, q.w() as int)
}

/// Solving `a * x = b` from a QR factorization of `a` gives an exact solution: when `a = q * r`
/// as rational numbers, `q` is orthogonal (`q * q^T = I`) and `r` is upper triangular with a
/// non-zero diagonal, `a * x` equals `b`, entry by entry.
pub proof fn law_qr_solve(
    a: &Matrix<Fraction>,
    q: &Matrix<Fraction>,
    r: &Matrix<Fraction>,
    b: &Matrix<Fraction>,
    x: &Matrix<Fraction>,
)
    requires
        a.wf(),
        q.wf(),
        r.wf(),
        b.wf(),
        a.w() == a.h(),
        q.w() == a.w() && q.h() == a.w() && r.w() == a.w() && r.h() == a.w(),
        b.w() == 1,
        b.h() == a.w(),
        forall|i: int, k: int|
            0 <= i < a.w() && 0 <= k < a.w() ==> #[trigger] rv(a.at(i, k)) == rv(q.dot(r, i, k, a.w())),
        forall|i: int, s: int|
            0 <= i < a.w() && 0 <= s < a.w() ==> #[trigger] row_product(q, i, s) == (if i == s {
                1 as real
            } else {
                0 as real
            }),
        forall|p: int, c: int| 0 <= c < p < a.w() ==> #[trigger] r.at(p, c) == (0int, 1int),
        forall|c: int| 0 <= c < a.w() ==> (#[trigger] r.at(c, c)).0 != 0,
        forall|k: int| 0 <= k < a.w() ==> #[trigger] x.at(k, 0) == back_sub(r, conj_col(q, b, a.w()), k as nat),
    ensures
        forall|i: int| 0 <= i < a.w() ==> #[trigger] a.dot(x, i, 0, a.w()) == b.at(i, 0),
{
    let n = a.w();
    assert forall|p: int, c: int| 0 <= p < n && 0 <= c < n implies valid_q(#[trigger] q.at(p, c)) by {
        lemma_entry_valid(q, p, c);
    }
    assert forall|p: int, c: int| 0 <= p < n && 0 <= c < n implies valid_q(#[trigger] a.at(p, c)) by {
        lemma_entry_valid(a, p, c);
    }
    assert forall|p: int, c: int| 0 <= p < n && 0 <= c < n implies valid_q(#[trigger] r.at(p, c)) by {
        lemma_entry_valid(r, p, c);
    }
    assert forall|p: int| 0 <= p < n implies valid_q(#[trigger] b.at(p, 0)) by {
        b.lemma_elem(p, 0);
        b.elem_at(p, 0).lemma_wf();
    }
    let y = conj_col(q, b, n);
    assert forall|t: int| 0 <= t < y.len() implies valid_q(#[trigger] y[t]) by {
        lemma_conj_dot_rv(q, b, t, n);
    }
    assert forall|k: int| 0 <= k < n implies valid_q(#[trigger] x.at(k, 0)) by {
        lemma_bwd(r, y, k as nat, (n - 1 - k) as nat);
        lemma_div_op(bwd(r, y, k as nat, (n - 1 - k) as nat), r.at(k, k));
    }
    assert forall|i: int| 0 <= i < n implies #[trigger] a.dot(x, i, 0, n) == b.at(i, 0) by {
        lemma_dot_rv(a, x, i, 0, n);
        assert(rv(a.dot(x, i, 0, n)) == rv(b.at(i, 0))) by {
            // a * x = q * (r * x) = q * y
            let g = |t: int, k: int| rv(q.at(i, t)) * rv(r.at(t, k)) * rv(x.at(k, 0));
            lemma_dot_rv(a, x, i, 0, n);
            let ax = |k: int| rv(a.at(i, k)) * rv(x.at(k, 0));
            assert forall|k: int| 0 <= k < n implies #[trigger] ax(k) == rsum(|t: int| g(t, k), 0, n as int) by {
                lemma_dot_rv(q, r, i, k, n);
                let qr = |t: int| rv(q.at(i, t)) * rv(r.at(t, k));
                let c = rv(x.at(k, 0));
                lemma_rsum_scale(qr, c, 0, n as int);
                let f1 = |t: int| c * qr(t);
                let f2 = |t: int| g(t, k);
                assert forall|t: int| 0 <= t < n implies #[trigger] f1(t) == f2(t) by {
                    let p = rv(q.at(i, t));
                    let w = rv(r.at(t, k));
                    assert(c * (p * w) == p * w * c) by (nonlinear_arith);
                }
                lemma_rsum_ext(f1, f2, 0, n as int);
                assert(rsum(qr, 0, n as int) * c == c * rsum(qr, 0, n as int)) by (nonlinear_arith);
        }
        lemma_rsum_ext(ax, |k: int| rsum(|t: int| g(t, k), 0, n as int), 0, n as int);
        lemma_rsum_swap(g, n as int, n as int);
        let qy = |t: int| rv(q.at(i, t)) * rv(y[t]);
        let rows = |t: int| rsum(|k: int| g(t, k), 0, n as int);
        assert forall|t: int| 0 <= t < n implies #[trigger] rows(t) == qy(t) by {
            let rx = |k: int| rv(r.at(t, k)) * rv(back_sub(r, y, k as nat));
            lemma_back_solves(r, y, t as nat);
            let p = rv(q.at(i, t));
            lemma_rsum_scale(rx, p, 0, n as int);
            let h1 = |k: int| g(t, k);
            let h2 = |k: int| p * rx(k);
            assert forall|k: int| 0 <= k < n implies #[trigger] h1(k) == h2(k) by {
                let w = rv(r.at(t, k));
                let z = rv(x.at(k, 0));
                assert(x.at(k, 0) == back_sub(r, y, k as nat));
                assert(p * w * z == p * (w * z)) by (nonlinear_arith);
            }
            lemma_rsum_ext(h1, h2, 0, n as int);
        }
        lemma_rsum_ext(rows, qy, 0, n as int);
        // q * y = q * q^T * b = b
        let e = |t: int, s: int| rv(q.at(i, t)) * rv(q.at(s, t)) * rv(b.at(s, 0));
        assert forall|t: int| 0 <= t < n implies #[trigger] qy(t) == rsum(|s: int| e(t, s), 0, n as int) by {
            lemma_conj_dot_rv(q, b, t, n);
            let qb = |s: int| rv(q.at(s, t)) * rv(b.at(s, 0));
            let p = rv(q.at(i, t));
            lemma_rsum_scale(qb, p, 0, n as int);
            let h1 = |s: int| p * qb(s);
            let h2 = |s: int| e(t, s);
            assert forall|s: int| 0 <= s < n implies #[trigger] h1(s) == h2(s) by {
                let w = rv(q.at(s, t));
                let z = rv(b.at(s, 0));
                assert(p * (w * z) == p * w * z) by (nonlinear_arith);
            }
            lemma_rsum_ext(h1, h2, 0, n as int);
        }
        lemma_rsum_ext(qy, |t: int| rsum(|s: int| e(t, s), 0, n as int), 0, n as int);
        lemma_rsum_swap(e, n as int, n as int);
        let cols = |s: int| rsum(|t: int| e(t, s), 0, n as int);
        let delta = |s: int| (if i == s {
            1 as real
        } else {
            0 as real
        }) * rv(b.at(s, 0));
        assert forall|s: int| 0 <= s < n implies #[trigger] cols(s) == delta(s) by {
            let qq = |t: int| rv(q.at(i, t)) * rv(q.at(s, t));
            let z = rv(b.at(s, 0));
            lemma_rsum_scale(qq, z, 0, n as int);
            let h1 = |t: int| e(t, s);
            let h2 = |t: int| z * qq(t);
            assert forall|t: int| 0 <= t < n implies #[trigger] h1(t) == h2(t) by {
                let p = rv(q.at(i, t));
                let w = rv(q.at(s, t));
                assert(p * w * z == z * (p * w)) by (nonlinear_arith);
            }
            lemma_rsum_ext(h1, h2, 0, n as int);
            assert(rsum(qq, 0, n as int) == row_product(q, i, s));
            assert(z * rsum(qq, 0, n as int) == rsum(qq, 0, n as int) * z) by (nonlinear_arith);
        }
        lemma_rsum_ext(cols, delta, 0, n as int);
        lemma_rsum_split(delta, 0, i, n as int);
        lemma_rsum_split(delta, i, i + 1, n as int);
        lemma_rsum_one(delta, i);
        assert forall|s: int| 0 <= s < i implies #[trigger] delta(s) == 0 as real by {
            assert(0 as real * rv(b.at(s, 0)) == 0 as real) by (nonlinear_arith);
        }
        assert forall|s: int| i + 1 <= s < n implies #[trigger] delta(s) == 0 as real by {
            assert(0 as real * rv(b.at(s, 0)) == 0 as real) by (nonlinear_arith);
        }
        lemma_rsum_zero(delta, 0, i);
        lemma_rsum_zero(delta, i + 1, n as int);
        assert(1 as real * rv(b.at(i, 0)) == rv(b.at(i, 0))) by (nonlinear_arith);
        }
        lemma_rv_inj(a.dot(x, i, 0, n), b.at(i, 0));
    }
}

/// A common divisor of two numbers divides their greatest common divisor.
proof fn lemma_divides_gcd(a: nat, b: nat, x: nat)
    requires
        x > 0,
        a % x == 0,
        b % x == 0,
    ensures
        gcd(a, b) % x == 0,
    decreases b,
{
    if b != 0 {
        let r = a % b;
        lemma_fundamental_div_mod(a as int, b as int);
        lemma_fundamental_div_mod(a as int, x as int);
        lemma_fundamental_div_mod(b as int, x as int);
        let s = a / x;
        let t = b / x;
        let q = a / b;
        assert(r == x * (s - t * q)) by (nonlinear_arith)
            requires
                a == b * q + r,
                a == x * s,
                b == x * t,
        ;
        lemma_mod_multiples_basic(s - t * q, x as int);
        assert((s - t * q) * x == x * (s - t * q)) by (nonlinear_arith);
        lemma_divides_gcd(b, r, x);
    }
}

/// Reduced fractions with the same value are the same fraction.
pub proof fn lemma_rv_inj(p: (int, int), q: (int, int))
    requires
        valid_q(p),
        valid_q(q),
        rv(p) == rv(q),
    ensures
        p == q,
{
    let (p0, p1, q0, q1) = (p.0 as real, p.1 as real, q.0 as real, q.1 as real);
    assert(p0 * q1 == q0 * p1) by (nonlinear_arith)
        requires
            p0 / p1 == q0 / q1,
            p1 > 0 as real,
            q1 > 0 as real,
    ;
    lemma_cast_mul(p.0, q.1);
    lemma_cast_mul(q.0, p.1);
    assert(p.0 * q.1 == q.0 * p.1);
    let a = abs(p.0) as nat;
    let c = abs(q.0) as nat;
    let bb = p.1 as nat;
    let d = q.1 as nat;
    assert(a * d == c * bb) by (nonlinear_arith)
        requires
            p.0 * q.1 == q.0 * p.1,
            a == abs(p.0),
            c == abs(q.0),
            bb == p.1,
            d == q.1,
            p.1 > 0,
            q.1 > 0,
    ;
    lemma_gcd_scale(d, a, bb);
    lemma_gcd_scale(bb, c, d);
    // bb divides d * a (= c * bb) and d * bb, hence their gcd d; symmetrically d divides bb.
    lemma_mod_multiples_basic(c as int, bb as int);
    lemma_mod_multiples_basic(d as int, bb as int);
    assert((d * a) % bb == 0) by {
        assert(d * a == c * bb) by (nonlinear_arith)
            requires
                a * d == c * bb,
        ;
    }
    assert((d * bb) % bb == 0) by {
        assert(d * bb == d * bb);
    }
    lemma_divides_gcd(d * a, d * bb, bb);
    assert(d * gcd(a, bb) == d);
    lemma_mod_multiples_basic(a as int, d as int);
    lemma_mod_multiples_basic(bb as int, d as int);
    assert((bb * c) % d == 0) by {
        assert(bb * c == a * d) by (nonlinear_arith)
            requires
                a * d == c * bb,
        ;
    }
    lemma_divides_gcd(bb * c, bb * d, d);
    assert(bb * gcd(c, d) == bb);
    lemma_fundamental_div_mod(d as int, bb as int);
    lemma_fundamental_div_mod(bb as int, d as int);
    assert(bb == d) by (nonlinear_arith)
        requires
            d == bb * (d / bb),
            bb == d * (bb / d),
            bb > 0,
            d > 0,
    ;
    assert(p.0 == q.0) by (nonlinear_arith)
        requires
            p.0 * q.1 == q.0 * p.1,
            p.1 == q.1,
            p.1 > 0,
    ;
}

} // verus!
