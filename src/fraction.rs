use crate::longint::{abs, tdiv, LongInt};
use vstd::arithmetic::div_mod::{
    lemma_fundamental_div_mod, lemma_fundamental_div_mod_converse, lemma_mod_multiples_basic,
};
use vstd::prelude::*;

verus! {

/// Greatest common divisor, by Euclid's algorithm; `gcd(0, 0) == 0`.
pub open spec fn gcd(a: nat, b: nat) -> nat
    decreases b,
{
    if b == 0 {
        a
    } else {
        gcd(b, a % b)
    }
}

/// The common divisor divides both arguments, and is positive unless both are zero.
pub proof fn lemma_gcd_divides(a: nat, b: nat)
    ensures
        (a != 0 || b != 0) ==> gcd(a, b) > 0,
        gcd(a, b) > 0 ==> a % gcd(a, b) == 0 && b % gcd(a, b) == 0,
    decreases b,
{
    if b != 0 {
        let r = a % b;
        lemma_gcd_divides(b, r);
        let g = gcd(b, r);
        if g > 0 {
            lemma_fundamental_div_mod(b as int, g as int);
            lemma_fundamental_div_mod(r as int, g as int);
            lemma_fundamental_div_mod(a as int, b as int);
            let m = b / g;
            let n = r / g;
            let q = a / b;
            assert(a == g * (m * q + n)) by (nonlinear_arith)
                requires
                    b == g * m,
                    r == g * n,
                    a == b * q + r,
            ;
            lemma_mod_multiples_basic((m * q + n) as int, g as int);
            assert((m * q + n) * g == g * (m * q + n)) by (nonlinear_arith);
        }
    }
}

/// A common factor comes out of the divisor: `gcd(k*x, k*y) == k * gcd(x, y)`.
pub proof fn lemma_gcd_scale(k: nat, x: nat, y: nat)
    requires
        k > 0,
    ensures
        gcd(k * x, k * y) == k * gcd(x, y),
    decreases y,
{
    if y == 0 {
        assert(k * y == 0) by (nonlinear_arith)
            requires
                y == 0,
        ;
    } else {
        assert(k * y > 0) by (nonlinear_arith)
            requires
                k > 0,
                y > 0,
        ;
        lemma_fundamental_div_mod(x as int, y as int);
        let q = x / y;
        let r = x % y;
        assert(k * x == (k * y) * q + k * r) by (nonlinear_arith)
            requires
                x == y * q + r,
        ;
        assert(0 <= k * r < k * y) by (nonlinear_arith)
            requires
                0 <= r < y,
                k > 0,
        ;
        lemma_fundamental_div_mod_converse((k * x) as int, (k * y) as int, q as int, (k * r) as int);
        lemma_gcd_scale(k, y, r);
    }
}

/// Dividing both numbers by their common divisor leaves coprime numbers.
pub proof fn lemma_gcd_reduced(a: nat, b: nat)
    requires
        a != 0 || b != 0,
    ensures
        gcd(a, b) > 0,
        gcd(a / gcd(a, b), b / gcd(a, b)) == 1,
        a / gcd(a, b) * gcd(a, b) == a,
        b / gcd(a, b) * gcd(a, b) == b,
{
    lemma_gcd_divides(a, b);
    let g = gcd(a, b);
    lemma_fundamental_div_mod(a as int, g as int);
    lemma_fundamental_div_mod(b as int, g as int);
    let x = a / g;
    let y = b / g;
    lemma_gcd_scale(g, x, y);
    assert(g * x == a && g * y == b);
    assert(g * gcd(x, y) == g * 1);
    assert(gcd(x, y) == 1) by (nonlinear_arith)
        requires
            g * gcd(x, y) == g * 1,
            g > 0,
    ;
}

/// Whether the sign of `num / den` is negative: exactly one of the two is.
pub open spec fn sign_negative(den: int, num: int) -> bool {
    (den >= 0) != (num >= 0)
}

/// The numerator that `num / den` reduces to: it carries the sign.
pub open spec fn reduced_num(den: int, num: int) -> int {
    let q = abs(num) / (gcd(abs(num) as nat, abs(den) as nat) as int);
    if sign_negative(den, num) {
        -q
    } else {
        q
    }
}

/// The denominator that `num / den` reduces to: never negative.
pub open spec fn reduced_den(den: int, num: int) -> int {
    abs(den) / (gcd(abs(num) as nat, abs(den) as nat) as int)
}

/// A fraction of arbitrary-precision integers, kept reduced with a positive denominator.
#[derive(Debug)]
pub struct Fraction {
    num: LongInt,
    den: LongInt,
}

impl View for Fraction {
    type V = (int, int);

    /// Numerator and denominator.
    closed spec fn view(&self) -> (int, int) {
        (self.num@, self.den@)
    }
}

impl Fraction {
    /// Reduced, with a positive denominator.
    pub closed spec fn wf(&self) -> bool {
        &&& self.num.wf()
        &&& self.den.wf()
        &&& self.den@ > 0
        &&& gcd(abs(self.num@) as nat, self.den@ as nat) == 1
    }

    /// Numerator and denominator of a reduced fraction.
    pub proof fn lemma_wf(&self)
        requires
            self.wf(),
        ensures
            self@.1 > 0,
            gcd(abs(self@.0) as nat, self@.1 as nat) == 1,
    {
    }

    /// The numerator, which carries the sign.
    pub fn numerator(&self) -> (r: &LongInt)
        requires
            self.wf(),
        ensures
            r.wf(),
            r@ == self@.0,
    {
        &self.num
    }

    /// The denominator, always positive.
    pub fn denominator(&self) -> (r: &LongInt)
        requires
            self.wf(),
        ensures
            r.wf(),
            r@ == self@.1,
    {
        &self.den
    }

    /// Builds `num / den`: the sign moves to the numerator, then both are divided by their
    /// greatest common divisor.
    pub fn new(den: LongInt, num: LongInt) -> (r: Self)
        requires
            den.wf(),
            num.wf(),
            den@ != 0,
        ensures
            r.wf(),
            r@ == (reduced_num(den@, num@), reduced_den(den@, num@)),
    {
        let zero = LongInt::new();
        let den_pos = match den.compare(&zero) {
            std::cmp::Ordering::Less => false,
            _ => true,
        };
        let num_pos = match num.compare(&zero) {
            std::cmp::Ordering::Less => false,
            _ => true,
        };
        let sign = den_pos == num_pos;
        let d = den.abs();
        let n = num.abs();
        let n = if sign {
            n
        } else {
            n.neg()
        };
        let ghost a = abs(num@) as nat;
        let ghost b = abs(den@) as nat;
        assert(abs(n@) == a);
        assert(d@ == b);
        assert(sign == !sign_negative(den@, num@));
        proof {
            lemma_gcd_reduced(a, b);
        }
        let mut res = Fraction { num: n, den: d };
        res.simplify();
        assert(res.num@ == reduced_num(den@, num@));
        res
    }

    /// Divides numerator and denominator by their greatest common divisor.
    fn simplify(&mut self)
        requires
            old(self).num.wf(),
            old(self).den.wf(),
            old(self).den@ > 0,
        ensures
            final(self).wf(),
            final(self).num@ == tdiv(old(self).num@, gcd(abs(old(self).num@) as nat, old(self).den@ as nat) as int),
            final(self).den@ == old(self).den@ / gcd(abs(old(self).num@) as nat, old(self).den@ as nat) as int,
    {
        let a = self.num.abs();
        let b = self.den.duplicate();
        let g = Fraction::gcd(a, b);
        let ghost an = abs(self.num@) as nat;
        let ghost bn = self.den@ as nat;
        proof {
            lemma_gcd_reduced(an, bn);
        }
        let n = self.num.div(&g);
        let d = self.den.div(&g);
        proof {
            let gg = g@;
            let x = an / (gg as nat);
            let y = bn / (gg as nat);
            assert(y > 0) by (nonlinear_arith)
                requires
                    y * gg == bn,
                    bn > 0,
                    gg > 0,
            ;
            assert(abs(n@) == x);
            assert(d@ == y);
        }
        self.num = n;
        self.den = d;
    }

    /// `a / 1`.
    pub fn from_integer(a: LongInt) -> (r: Self)
        requires
            a.wf(),
        ensures
            r.wf(),
            r@ == (a@, 1int),
    {
        let one = LongInt::from_i64(1);
        proof {
            lemma_gcd_reduced(abs(a@) as nat, 1);
            assert(gcd(abs(a@) as nat, 1) == 1) by {
                assert(abs(a@) as nat % 1 == 0);
                assert(gcd(1, 0) == 1);
            }
        }
        Fraction::new(one, a)
    }

    /// Sum, by cross-multiplication: `(a.num * b.den + b.num * a.den) / (a.den * b.den)`, reduced.
    pub fn add(&self, rhs: &Fraction) -> (r: Fraction)
        requires
            self.wf(),
            rhs.wf(),
        ensures
            r.wf(),
            r@ == (reduced_num(self@.1 * rhs@.1, self@.0 * rhs@.1 + rhs@.0 * self@.1), reduced_den(
                self@.1 * rhs@.1,
                self@.0 * rhs@.1 + rhs@.0 * self@.1,
            )),
    {
        let den = self.den.mul(&rhs.den);
        let num = self.num.mul(&rhs.den).add(&rhs.num.mul(&self.den));
        assert(self@.1 * rhs@.1 > 0) by (nonlinear_arith)
            requires
                self@.1 > 0,
                rhs@.1 > 0,
        ;
        Fraction::new(den, num)
    }

    /// Difference, by cross-multiplication: `(a.num * b.den - b.num * a.den) / (a.den * b.den)`,
    /// reduced.
    pub fn sub(&self, rhs: &Fraction) -> (r: Fraction)
        requires
            self.wf(),
            rhs.wf(),
        ensures
            r.wf(),
            r@ == (reduced_num(self@.1 * rhs@.1, self@.0 * rhs@.1 - rhs@.0 * self@.1), reduced_den(
                self@.1 * rhs@.1,
                self@.0 * rhs@.1 - rhs@.0 * self@.1,
            )),
    {
        let den = self.den.mul(&rhs.den);
        let num = self.num.mul(&rhs.den).sub(&rhs.num.mul(&self.den));
        assert(self@.1 * rhs@.1 > 0) by (nonlinear_arith)
            requires
                self@.1 > 0,
                rhs@.1 > 0,
        ;
        Fraction::new(den, num)
    }

    /// Product: `(a.num * b.num) / (a.den * b.den)`, reduced.
    pub fn mul(&self, rhs: &Fraction) -> (r: Fraction)
        requires
            self.wf(),
            rhs.wf(),
        ensures
            r.wf(),
            r@ == (reduced_num(self@.1 * rhs@.1, self@.0 * rhs@.0), reduced_den(
                self@.1 * rhs@.1,
                self@.0 * rhs@.0,
            )),
    {
        let den = self.den.mul(&rhs.den);
        let num = self.num.mul(&rhs.num);
        assert(self@.1 * rhs@.1 > 0) by (nonlinear_arith)
            requires
                self@.1 > 0,
                rhs@.1 > 0,
        ;
        Fraction::new(den, num)
    }

    /// Quotient: `(a.num * b.den) / (a.den * b.num)`, reduced; `rhs` is not zero.
    pub fn div(&self, rhs: &Fraction) -> (r: Fraction)
        requires
            self.wf(),
            rhs.wf(),
            rhs@.0 != 0,
        ensures
            r.wf(),
            r@ == (reduced_num(self@.1 * rhs@.0, self@.0 * rhs@.1), reduced_den(
                self@.1 * rhs@.0,
                self@.0 * rhs@.1,
            )),
    {
        let den = self.den.mul(&rhs.num);
        let num = self.num.mul(&rhs.den);
        assert(self@.1 * rhs@.0 != 0) by (nonlinear_arith)
            requires
                self@.1 > 0,
                rhs@.0 != 0,
        ;
        Fraction::new(den, num)
    }

    /// A reduced fraction with numerator zero is `0 / 1`.
    pub proof fn lemma_zero(&self)
        requires
            self.wf(),
        ensures
            self@.0 == 0 ==> self@.1 == 1,
    {
        if self@.0 == 0 {
            assert(gcd(0, self@.1 as nat) == gcd(self@.1 as nat, 0));
        }
    }

    /// A copy of the fraction.
    pub fn duplicate(&self) -> (r: Fraction)
        requires
            self.wf(),
        ensures
            r.wf(),
            r@ == self@,
    {
        Fraction { num: self.num.duplicate(), den: self.den.duplicate() }
    }

    /// The absolute value.
    pub fn abs(&self) -> (r: Fraction)
        requires
            self.wf(),
        ensures
            r.wf(),
            r@ == (abs(self@.0), self@.1),
    {
        Fraction { num: self.num.abs(), den: self.den.duplicate() }
    }

    /// Whether the fraction is zero.
    pub fn is_zero(&self) -> (r: bool)
        requires
            self.wf(),
        ensures
            r == (self@.0 == 0),
    {
        self.num.is_zero()
    }

    /// The negated fraction.
    pub fn neg(&self) -> (r: Fraction)
        requires
            self.wf(),
        ensures
            r.wf(),
            r@ == (-self@.0, self@.1),
    {
        Fraction { num: self.num.neg(), den: self.den.duplicate() }
    }

    /// Euclid's algorithm, by repeated remainder.
    fn gcd(a: LongInt, b: LongInt) -> (r: LongInt)
        requires
            a.wf(),
            b.wf(),
            a@ >= 0,
            b@ >= 0,
        ensures
            r.wf(),
            r@ == gcd(a@ as nat, b@ as nat),
    {
        let ghost g = gcd(a@ as nat, b@ as nat);
        let mut a = a;
        let mut b = b;
        while !b.is_zero()
            invariant
                a.wf(),
                b.wf(),
                a@ >= 0,
                b@ >= 0,
                gcd(a@ as nat, b@ as nat) == g,
            decreases b@,
        {
            let r = a.rem(&b);
            a = b;
            b = r;
        }
        a
    }
}

/// A fraction built from a non-zero numerator and denominator is fully reduced, its denominator
/// is positive, and its numerator is negative exactly when one of the two inputs was.
pub proof fn law_fraction_reduced(den: LongInt, num: LongInt)
    requires
        den.wf(),
        num.wf(),
        den@ != 0,
        num@ != 0,
    ensures
        gcd(abs(reduced_num(den@, num@)) as nat, reduced_den(den@, num@) as nat) == 1,
        reduced_den(den@, num@) > 0,
        (reduced_num(den@, num@) < 0) == sign_negative(den@, num@),
{
    let a = abs(num@) as nat;
    let b = abs(den@) as nat;
    lemma_gcd_reduced(a, b);
    let g = gcd(a, b);
    assert(a / g > 0 && b / g > 0) by (nonlinear_arith)
        requires
            a / g * g == a,
            b / g * g == b,
            a > 0,
            b > 0,
            g > 0,
    ;
}

} // verus!
