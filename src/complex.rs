use crate::fraction::{gcd, lemma_gcd_reduced, reduced_den, reduced_num, Fraction};
use crate::longint::abs;
use crate::number::NumNonRef;
use vstd::prelude::*;

verus! {

/// A reduced fraction, as numerator and denominator.
pub type Rational = (int, int);

pub open spec fn q_add(a: Rational, b: Rational) -> Rational {
    <Fraction as NumNonRef>::add_v(a, b)
}

pub open spec fn q_sub(a: Rational, b: Rational) -> Rational {
    <Fraction as NumNonRef>::sub_v(a, b)
}

pub open spec fn q_mul(a: Rational, b: Rational) -> Rational {
    <Fraction as NumNonRef>::mul_v(a, b)
}

pub open spec fn q_div(a: Rational, b: Rational) -> Rational {
    <Fraction as NumNonRef>::div_v(a, b)
}

/// `|z|^2 = re^2 + im^2`.
pub open spec fn abs_squared_v(z: (Rational, Rational)) -> Rational {
    q_add(q_mul(z.0, z.0), q_mul(z.1, z.1))
}

/// `(a + ib) * (c + id) = (ac - bd) + i(ad + bc)`.
pub open spec fn c_mul(x: (Rational, Rational), y: (Rational, Rational)) -> (Rational, Rational) {
    (q_sub(q_mul(x.0, y.0), q_mul(x.1, y.1)), q_add(q_mul(x.0, y.1), q_mul(x.1, y.0)))
}

/// `x / y = x * conj(y) / |y|^2`.
pub open spec fn c_div(x: (Rational, Rational), y: (Rational, Rational)) -> (Rational, Rational) {
    let m = c_mul(x, (y.0, (-y.1.0, y.1.1)));
    let s = abs_squared_v(y);
    (q_div(m.0, s), q_div(m.1, s))
}

/// A reduced numerator is zero exactly when the numerator is, and keeps its sign when the
/// denominator is positive.
proof fn lemma_reduced_num(den: int, num: int)
    requires
        den != 0,
    ensures
        (reduced_num(den, num) == 0) == (num == 0),
        den > 0 && num >= 0 ==> reduced_num(den, num) >= 0,
        reduced_den(den, num) > 0,
{
    let a = abs(num) as nat;
    let b = abs(den) as nat;
    lemma_gcd_reduced(a, b);
    let g = gcd(a, b);
    assert(b / g > 0) by (nonlinear_arith)
        requires
            b / g * g == b,
            b > 0,
            g > 0,
    ;
    if num != 0 {
        assert(a / g > 0) by (nonlinear_arith)
            requires
                a / g * g == a,
                a > 0,
                g > 0,
        ;
    }
}

/// The squared magnitude of a complex number is zero only at zero.
proof fn lemma_abs_squared(re: Rational, im: Rational)
    requires
        re.1 > 0,
        im.1 > 0,
    ensures
        (abs_squared_v((re, im)).0 == 0) == (re.0 == 0 && im.0 == 0),
{
    assert(re.1 * re.1 > 0 && im.1 * im.1 > 0) by (nonlinear_arith)
        requires
            re.1 > 0,
            im.1 > 0,
    ;
    assert(re.0 * re.0 >= 0 && im.0 * im.0 >= 0) by (nonlinear_arith);
    assert((re.0 * re.0 == 0) == (re.0 == 0)) by (nonlinear_arith);
    assert((im.0 * im.0 == 0) == (im.0 == 0)) by (nonlinear_arith);
    lemma_reduced_num(re.1 * re.1, re.0 * re.0);
    lemma_reduced_num(im.1 * im.1, im.0 * im.0);
    let x = q_mul(re, re);
    let y = q_mul(im, im);
    assert(x.1 * y.1 > 0) by (nonlinear_arith)
        requires
            x.1 > 0,
            y.1 > 0,
    ;
    let n = x.0 * y.1 + y.0 * x.1;
    assert(x.0 * y.1 >= 0 && ((x.0 * y.1 == 0) == (x.0 == 0))) by (nonlinear_arith)
        requires
            x.0 >= 0,
            y.1 > 0,
    ;
    assert(y.0 * x.1 >= 0 && ((y.0 * x.1 == 0) == (y.0 == 0))) by (nonlinear_arith)
        requires
            y.0 >= 0,
            x.1 > 0,
    ;
    lemma_reduced_num(x.1 * y.1, n);
}

/// A complex number with exact rational parts.
#[derive(Debug)]
pub struct Complex {
    re: Fraction,
    im: Fraction,
}

impl View for Complex {
    type V = (Rational, Rational);

    /// Real and imaginary part.
    closed spec fn view(&self) -> (Rational, Rational) {
        (self.re@, self.im@)
    }
}

impl Complex {
    pub closed spec fn wf(&self) -> bool {
        self.re.wf() && self.im.wf()
    }

    /// Both parts are reduced fractions.
    pub proof fn lemma_wf(&self)
        requires
            self.wf(),
        ensures
            self@.0.1 > 0,
            self@.1.1 > 0,
            self@.0.0 == 0 ==> self@.0.1 == 1,
            self@.1.0 == 0 ==> self@.1.1 == 1,
    {
        self.re.lemma_zero();
        self.im.lemma_zero();
        self.re.lemma_wf();
        self.im.lemma_wf();
    }

    /// `re + i im`.
    pub fn new(re: Fraction, im: Fraction) -> (r: Self)
        requires
            re.wf(),
            im.wf(),
        ensures
            r.wf(),
            r@ == (re@, im@),
    {
        Complex { re, im }
    }

    /// The real part.
    pub fn re(&self) -> (r: &Fraction)
        requires
            self.wf(),
        ensures
            r.wf(),
            r@ == self@.0,
    {
        &self.re
    }

    /// The imaginary part.
    pub fn im(&self) -> (r: &Fraction)
        requires
            self.wf(),
        ensures
            r.wf(),
            r@ == self@.1,
    {
        &self.im
    }

    /// `re - i im`.
    pub fn conjugate(&self) -> (r: Self)
        requires
            self.wf(),
        ensures
            r.wf(),
            r@ == (self@.0, (-self@.1.0, self@.1.1)),
    {
        Complex { re: self.re.duplicate(), im: self.im.neg() }
    }

    /// `re^2 + im^2`.
    pub fn abs_squared(&self) -> (r: Fraction)
        requires
            self.wf(),
        ensures
            r.wf(),
            r@ == abs_squared_v(self@),
    {
        self.re.mul(&self.re).add(&self.im.mul(&self.im))
    }

    /// A copy.
    pub fn duplicate(&self) -> (r: Self)
        requires
            self.wf(),
        ensures
            r.wf(),
            r@ == self@,
    {
        Complex { re: self.re.duplicate(), im: self.im.duplicate() }
    }

    /// Sum of the parts.
    pub fn add(&self, rhs: &Complex) -> (r: Self)
        requires
            self.wf(),
            rhs.wf(),
        ensures
            r.wf(),
            r@ == (q_add(self@.0, rhs@.0), q_add(self@.1, rhs@.1)),
    {
        Complex { re: self.re.add(&rhs.re), im: self.im.add(&rhs.im) }
    }

    /// Difference of the parts.
    pub fn sub(&self, rhs: &Complex) -> (r: Self)
        requires
            self.wf(),
            rhs.wf(),
        ensures
            r.wf(),
            r@ == (q_sub(self@.0, rhs@.0), q_sub(self@.1, rhs@.1)),
    {
        Complex { re: self.re.sub(&rhs.re), im: self.im.sub(&rhs.im) }
    }

    /// Product.
    pub fn mul(&self, rhs: &Complex) -> (r: Self)
        requires
            self.wf(),
            rhs.wf(),
        ensures
            r.wf(),
            r@ == c_mul(self@, rhs@),
    {
        let re = self.re.mul(&rhs.re).sub(&self.im.mul(&rhs.im));
        let im = self.re.mul(&rhs.im).add(&self.im.mul(&rhs.re));
        Complex { re, im }
    }

    /// Quotient: multiplies by the conjugate and divides by the squared magnitude; `rhs` is not
    /// zero.
    pub fn div(&self, rhs: &Complex) -> (r: Self)
        requires
            self.wf(),
            rhs.wf(),
            rhs@.0.0 != 0 || rhs@.1.0 != 0,
        ensures
            r.wf(),
            r@ == c_div(self@, rhs@),
    {
        let m = self.mul(&rhs.conjugate());
        let s = rhs.abs_squared();
        proof {
            rhs.lemma_wf();
            lemma_abs_squared(rhs@.0, rhs@.1);
        }
        Complex { re: m.re.div(&s), im: m.im.div(&s) }
    }

    /// The negated number.
    pub fn neg(&self) -> (r: Self)
        requires
            self.wf(),
        ensures
            r.wf(),
            r@ == ((-self@.0.0, self@.0.1), (-self@.1.0, self@.1.1)),
    {
        Complex { re: self.re.neg(), im: self.im.neg() }
    }
}

} // verus!
