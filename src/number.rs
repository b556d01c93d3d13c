use crate::complex::{c_div, c_mul, q_add, q_sub, Complex, Rational};
use crate::fraction::{reduced_den, reduced_num, Fraction};
use crate::longint::{tdiv, LongInt};
use vstd::prelude::*;

verus! {

/// The scalar interface that the matrix algorithms are written against. Each value has a model
/// (its view), and each operation is stated over the models by the spec functions below.
pub trait NumNonRef: Sized + View {
    /// Whether a value is in canonical form; every operation keeps it.
    spec fn valid(&self) -> bool;

    spec fn zero_v() -> Self::V;

    spec fn one_v() -> Self::V;

    spec fn add_v(a: Self::V, b: Self::V) -> Self::V;

    spec fn sub_v(a: Self::V, b: Self::V) -> Self::V;

    spec fn mul_v(a: Self::V, b: Self::V) -> Self::V;

    spec fn div_v(a: Self::V, b: Self::V) -> Self::V;

    spec fn neg_v(a: Self::V) -> Self::V;

    spec fn conj_v(a: Self::V) -> Self::V;

    fn zero() -> (r: Self)
        ensures
            r.valid(),
            r@ == Self::zero_v(),
    ;

    fn one() -> (r: Self)
        ensures
            r.valid(),
            r@ == Self::one_v(),
    ;

    fn copy_num(&self) -> (r: Self)
        requires
            self.valid(),
        ensures
            r.valid(),
            r@ == self@,
    ;

    fn is_zero_num(&self) -> (r: bool)
        requires
            self.valid(),
        ensures
            r == (self@ == Self::zero_v()),
    ;

    fn plus(&self, o: &Self) -> (r: Self)
        requires
            self.valid(),
            o.valid(),
        ensures
            r.valid(),
            r@ == Self::add_v(self@, o@),
    ;

    fn minus(&self, o: &Self) -> (r: Self)
        requires
            self.valid(),
            o.valid(),
        ensures
            r.valid(),
            r@ == Self::sub_v(self@, o@),
    ;

    fn times(&self, o: &Self) -> (r: Self)
        requires
            self.valid(),
            o.valid(),
        ensures
            r.valid(),
            r@ == Self::mul_v(self@, o@),
    ;

    fn over(&self, o: &Self) -> (r: Self)
        requires
            self.valid(),
            o.valid(),
            o@ != Self::zero_v(),
        ensures
            r.valid(),
            r@ == Self::div_v(self@, o@),
    ;

    fn negate(&self) -> (r: Self)
        requires
            self.valid(),
        ensures
            r.valid(),
            r@ == Self::neg_v(self@),
    ;

    /// The complex conjugate; the value itself for a real-like type.
    fn conjugate(&self) -> (r: Self)
        requires
            self.valid(),
        ensures
            r.valid(),
            r@ == Self::conj_v(self@),
    ;
}

impl NumNonRef for LongInt {
    open spec fn valid(&self) -> bool {
        self.wf()
    }

    open spec fn zero_v() -> int {
        0
    }

    open spec fn one_v() -> int {
        1
    }

    open spec fn add_v(a: int, b: int) -> int {
        a + b
    }

    open spec fn sub_v(a: int, b: int) -> int {
        a - b
    }

    open spec fn mul_v(a: int, b: int) -> int {
        a * b
    }

    open spec fn div_v(a: int, b: int) -> int {
        tdiv(a, b)
    }

    open spec fn neg_v(a: int) -> int {
        -a
    }

    open spec fn conj_v(a: int) -> int {
        a
    }


    fn zero() -> (r: Self) {
        LongInt::new()
    }

    fn one() -> (r: Self) {
        LongInt::from_i64(1)
    }

    fn copy_num(&self) -> (r: Self) {
        self.duplicate()
    }

    fn is_zero_num(&self) -> (r: bool) {
        self.is_zero()
    }

    fn plus(&self, o: &Self) -> (r: Self) {
        self.add(o)
    }

    fn minus(&self, o: &Self) -> (r: Self) {
        self.sub(o)
    }

    fn times(&self, o: &Self) -> (r: Self) {
        self.mul(o)
    }

    fn over(&self, o: &Self) -> (r: Self) {
        self.div(o)
    }

    fn negate(&self) -> (r: Self) {
        self.neg()
    }

    fn conjugate(&self) -> (r: Self) {
        self.duplicate()
    }
}

impl NumNonRef for Fraction {
    open spec fn valid(&self) -> bool {
        self.wf()
    }

    open spec fn zero_v() -> (int, int) {
        (0, 1)
    }

    open spec fn one_v() -> (int, int) {
        (1, 1)
    }

    open spec fn add_v(a: (int, int), b: (int, int)) -> (int, int) {
        (reduced_num(a.1 * b.1, a.0 * b.1 + b.0 * a.1), reduced_den(a.1 * b.1, a.0 * b.1 + b.0 * a.1))
    }

    open spec fn sub_v(a: (int, int), b: (int, int)) -> (int, int) {
        (reduced_num(a.1 * b.1, a.0 * b.1 - b.0 * a.1), reduced_den(a.1 * b.1, a.0 * b.1 - b.0 * a.1))
    }

    open spec fn mul_v(a: (int, int), b: (int, int)) -> (int, int) {
        (reduced_num(a.1 * b.1, a.0 * b.0), reduced_den(a.1 * b.1, a.0 * b.0))
    }

    open spec fn div_v(a: (int, int), b: (int, int)) -> (int, int) {
        (reduced_num(a.1 * b.0, a.0 * b.1), reduced_den(a.1 * b.0, a.0 * b.1))
    }

    open spec fn neg_v(a: (int, int)) -> (int, int) {
        (-a.0, a.1)
    }

    open spec fn conj_v(a: (int, int)) -> (int, int) {
        a
    }

    fn zero() -> (r: Self) {
        Fraction::from_integer(LongInt::new())
    }

    fn one() -> (r: Self) {
        Fraction::from_integer(LongInt::from_i64(1))
    }

    fn copy_num(&self) -> (r: Self) {
        self.duplicate()
    }

    fn is_zero_num(&self) -> (r: bool) {
        proof {
            self.lemma_zero();
        }
        self.is_zero()
    }

    fn plus(&self, o: &Self) -> (r: Self) {
        self.add(o)
    }

    fn minus(&self, o: &Self) -> (r: Self) {
        self.sub(o)
    }

    fn times(&self, o: &Self) -> (r: Self) {
        self.mul(o)
    }

    fn over(&self, o: &Self) -> (r: Self) {
        proof {
            o.lemma_zero();
        }
        self.div(o)
    }

    fn negate(&self) -> (r: Self) {
        self.neg()
    }

    fn conjugate(&self) -> (r: Self) {
        self.duplicate()
    }
}

impl NumNonRef for Complex {
    open spec fn valid(&self) -> bool {
        self.wf()
    }

    open spec fn zero_v() -> (Rational, Rational) {
        ((0, 1), (0, 1))
    }

    open spec fn one_v() -> (Rational, Rational) {
        ((1, 1), (0, 1))
    }

    open spec fn add_v(a: (Rational, Rational), b: (Rational, Rational)) -> (Rational, Rational) {
        (q_add(a.0, b.0), q_add(a.1, b.1))
    }

    open spec fn sub_v(a: (Rational, Rational), b: (Rational, Rational)) -> (Rational, Rational) {
        (q_sub(a.0, b.0), q_sub(a.1, b.1))
    }

    open spec fn mul_v(a: (Rational, Rational), b: (Rational, Rational)) -> (Rational, Rational) {
        c_mul(a, b)
    }

    open spec fn div_v(a: (Rational, Rational), b: (Rational, Rational)) -> (Rational, Rational) {
        c_div(a, b)
    }

    open spec fn neg_v(a: (Rational, Rational)) -> (Rational, Rational) {
        ((-a.0.0, a.0.1), (-a.1.0, a.1.1))
    }

    open spec fn conj_v(a: (Rational, Rational)) -> (Rational, Rational) {
        (a.0, (-a.1.0, a.1.1))
    }

    fn zero() -> (r: Self) {
        Complex::new(<Fraction as NumNonRef>::zero(), <Fraction as NumNonRef>::zero())
    }

    fn one() -> (r: Self) {
        Complex::new(<Fraction as NumNonRef>::one(), <Fraction as NumNonRef>::zero())
    }

    fn copy_num(&self) -> (r: Self) {
        self.duplicate()
    }

    fn is_zero_num(&self) -> (r: bool) {
        proof {
            self.lemma_wf();
        }
        self.re().is_zero() && self.im().is_zero()
    }

    fn plus(&self, o: &Self) -> (r: Self) {
        self.add(o)
    }

    fn minus(&self, o: &Self) -> (r: Self) {
        self.sub(o)
    }

    fn times(&self, o: &Self) -> (r: Self) {
        self.mul(o)
    }

    fn over(&self, o: &Self) -> (r: Self) {
        proof {
            o.lemma_wf();
        }
        self.div(o)
    }

    fn negate(&self) -> (r: Self) {
        self.neg()
    }

    fn conjugate(&self) -> (r: Self) {
        Complex::conjugate(self)
    }
}

} // verus!
