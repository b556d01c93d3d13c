use crate::longint::{tdiv, LongInt};
use vstd::prelude::*;

verus! {

/// Coefficient `k` of the ascending coefficient sequence `s`, zero past the end.
pub open spec fn coef(s: Seq<int>, k: int) -> int {
    if 0 <= k < s.len() {
        s[k]
    } else {
        0
    }
}

/// No trailing zero coefficient: the zero polynomial has no coefficients at all.
pub open spec fn canonical(s: Seq<int>) -> bool {
    s.len() > 0 ==> s.last() != 0
}

/// `a[0] * b[k] + a[1] * b[k-1] + ... + a[m-1] * b[k-m+1]`.
pub open spec fn conv_part(a: Seq<int>, b: Seq<int>, k: int, m: nat) -> int
    decreases m,
{
    if m == 0 {
        0
    } else {
        conv_part(a, b, k, (m - 1) as nat) + coef(a, m - 1) * coef(b, k - (m - 1))
    }
}

/// Coefficient `k` of the product of `a` and `b`.
pub open spec fn conv(a: Seq<int>, b: Seq<int>, k: int) -> int {
    if k < 0 {
        0
    } else {
        conv_part(a, b, k, (k + 1) as nat)
    }
}


/// Past the last coefficient of a product, and for an empty factor, every coefficient is zero.
pub proof fn lemma_conv_zero(a: Seq<int>, b: Seq<int>, k: int, m: nat)
    requires
        a.len() == 0 || b.len() == 0 || k >= a.len() + b.len() - 1,
    ensures
        conv_part(a, b, k, m) == 0,
    decreases m,
{
    if m > 0 {
        lemma_conv_zero(a, b, k, (m - 1) as nat);
        if m - 1 < a.len() && b.len() > 0 {
            assert(coef(b, k - (m - 1)) == 0);
        } else {
            assert(coef(a, m - 1) == 0 || coef(b, k - (m - 1)) == 0);
        }
    }
}

/// A product with a polynomial of degree at most one: `(a * (b0 + b1 x))[k] == a[k] * b0 + a[k-1] * b1`.
pub proof fn lemma_conv_linear(a: Seq<int>, b: Seq<int>, k: int, m: nat)
    requires
        b.len() <= 2,
        k >= 0,
    ensures
        conv_part(a, b, k, m) == (if 0 <= k < m {
            coef(a, k) * coef(b, 0)
        } else {
            0
        }) + (if 0 <= k - 1 < m {
            coef(a, k - 1) * coef(b, 1)
        } else {
            0
        }),
    decreases m,
{
    if m > 0 {
        lemma_conv_linear(a, b, k, (m - 1) as nat);
        let i = m - 1;
        if i != k && i != k - 1 {
            assert(coef(b, k - i) == 0);
        }
    }
}

/// A polynomial with arbitrary-precision integer coefficients, lowest degree first.
#[derive(Debug)]
pub struct Polynome {
    coefs: Vec<LongInt>,
}

impl View for Polynome {
    type V = Seq<int>;

    /// The coefficients, lowest degree first.
    closed spec fn view(&self) -> Seq<int> {
        self.coefs@.map_values(|c: LongInt| c@)
    }
}

/// The values of a vector of integers.
pub open spec fn values(v: Seq<LongInt>) -> Seq<int> {
    v.map_values(|c: LongInt| c@)
}

/// Drops trailing zero coefficients; every coefficient keeps its value.
fn trim(v: &mut Vec<LongInt>)
    requires
        forall|k: int| 0 <= k < old(v)@.len() ==> (#[trigger] old(v)@[k]).wf(),
    ensures
        forall|k: int| 0 <= k < final(v)@.len() ==> (#[trigger] final(v)@[k]).wf(),
        canonical(values(final(v)@)),
        forall|k: int| #[trigger] coef(values(final(v)@), k) == coef(values(old(v)@), k),
{
    while v.len() > 0 && v[v.len() - 1].is_zero()
        invariant
            forall|k: int| 0 <= k < v@.len() ==> (#[trigger] v@[k]).wf(),
            forall|k: int| #[trigger] coef(values(v@), k) == coef(values(old(v)@), k),
        decreases v@.len(),
    {
        let ghost before = v@;
        v.pop();
        assert forall|k: int| #[trigger] coef(values(v@), k) == coef(values(old(v)@), k) by {
            assert(coef(values(before), k) == coef(values(old(v)@), k));
            if 0 <= k < v@.len() {
                assert(v@[k] == before[k]);
            }
        }
    }
}

impl Polynome {
    /// Every coefficient is in canonical form and the sequence has no trailing zero.
    pub closed spec fn wf(&self) -> bool {
        &&& forall|k: int| 0 <= k < self.coefs@.len() ==> (#[trigger] self.coefs@[k]).wf()
        &&& canonical(self@)
    }

    /// A well-formed polynomial has no trailing zero coefficient.
    pub proof fn lemma_canonical(&self)
        requires
            self.wf(),
        ensures
            canonical(self@),
    {
    }

    /// The zero polynomial.
    pub fn new() -> (r: Self)
        ensures
            r.wf(),
            r@ == Seq::<int>::empty(),
    {
        let r = Polynome { coefs: Vec::new() };
        assert(r@ =~= Seq::<int>::empty());
        r
    }

    /// The polynomial with the given coefficients, lowest degree first; trailing zeros are
    /// dropped.
    pub fn from_coefs(coefs: &[LongInt]) -> (r: Self)
        requires
            forall|k: int| 0 <= k < coefs@.len() ==> (#[trigger] coefs@[k]).wf(),
        ensures
            r.wf(),
            forall|k: int| #[trigger] coef(r@, k) == coef(values(coefs@), k),
    {
        let mut v: Vec<LongInt> = Vec::new();
        let mut i: usize = 0;
        while i < coefs.len()
            invariant
                i <= coefs@.len(),
                forall|k: int| 0 <= k < coefs@.len() ==> (#[trigger] coefs@[k]).wf(),
                v@.len() == i,
                forall|k: int| 0 <= k < i ==> (#[trigger] v@[k]).wf() && v@[k]@ == coefs@[k]@,
            decreases coefs@.len() - i,
        {
            v.push(coefs[i].duplicate());
            i = i + 1;
        }
        proof {
            assert forall|k: int| #[trigger] coef(values(v@), k) == coef(values(coefs@), k) by {}
        }
        trim(&mut v);
        Polynome { coefs: v }
    }

    /// Coefficientwise sum.
    pub fn add(&self, rhs: &Polynome) -> (r: Polynome)
        requires
            self.wf(),
            rhs.wf(),
        ensures
            r.wf(),
            forall|k: int| #[trigger] coef(r@, k) == coef(self@, k) + coef(rhs@, k),
    {
        self.combine(rhs, true)
    }

    /// Coefficientwise difference.
    pub fn sub(&self, rhs: &Polynome) -> (r: Polynome)
        requires
            self.wf(),
            rhs.wf(),
        ensures
            r.wf(),
            forall|k: int| #[trigger] coef(r@, k) == coef(self@, k) - coef(rhs@, k),
    {
        self.combine(rhs, false)
    }

    /// Coefficientwise sum, or difference, up to the longer operand's length.
    fn combine(&self, rhs: &Polynome, plus: bool) -> (r: Polynome)
        requires
            self.wf(),
            rhs.wf(),
        ensures
            r.wf(),
            forall|k: int| #[trigger] coef(r@, k) == (if plus {
                coef(self@, k) + coef(rhs@, k)
            } else {
                coef(self@, k) - coef(rhs@, k)
            }),
    {
        let len = if self.coefs.len() >= rhs.coefs.len() {
            self.coefs.len()
        } else {
            rhs.coefs.len()
        };
        let mut v: Vec<LongInt> = Vec::new();
        let mut i: usize = 0;
        while i < len
            invariant
                self.wf(),
                rhs.wf(),
                len >= self@.len(),
                len >= rhs@.len(),
                i <= len,
                v@.len() == i,
                forall|k: int|
                    0 <= k < i ==> (#[trigger] v@[k]).wf() && v@[k]@ == (if plus {
                        coef(self@, k) + coef(rhs@, k)
                    } else {
                        coef(self@, k) - coef(rhs@, k)
                    }),
            decreases len - i,
        {
            let x = self.get(i);
            let y = rhs.get(i);
            if plus {
                v.push(x.add(&y));
            } else {
                v.push(x.sub(&y));
            }
            i = i + 1;
        }
        trim(&mut v);
        Polynome { coefs: v }
    }

    /// The product: full convolution of the coefficients.
    pub fn mul(&self, rhs: &Polynome) -> (r: Polynome)
        requires
            self.wf(),
            rhs.wf(),
            self@.len() + rhs@.len() <= usize::MAX,
        ensures
            r.wf(),
            forall|k: int| #[trigger] coef(r@, k) == conv(self@, rhs@, k),
    {
        let la = self.coefs.len();
        let lb = rhs.coefs.len();
        if la == 0 || lb == 0 {
            let r = Polynome::new();
            assert forall|k: int| #[trigger] coef(r@, k) == conv(self@, rhs@, k) by {
                lemma_conv_zero(self@, rhs@, k, (k + 1) as nat);
            }
            return r;
        }
        let n = la + lb - 1;
        let mut v: Vec<LongInt> = Vec::new();
        let mut k: usize = 0;
        while k < n
            invariant
                self.wf(),
                rhs.wf(),
                la == self@.len(),
                lb == rhs@.len(),
                n == la + lb - 1,
                k <= n,
                v@.len() == k,
                forall|q: int| 0 <= q < k ==> (#[trigger] v@[q]).wf() && v@[q]@ == conv(self@, rhs@, q),
            decreases n - k,
        {
            let mut acc = LongInt::new();
            let mut i: usize = 0;
            while i <= k
                invariant
                    self.wf(),
                    rhs.wf(),
                    k < n,
                    i <= k + 1,
                    acc.wf(),
                    acc@ == conv_part(self@, rhs@, k as int, i as nat),
                decreases k + 1 - i,
            {
                let x = self.get(i);
                let y = rhs.get(k - i);
                acc = acc.add(&x.mul(&y));
                i = i + 1;
            }
            v.push(acc);
            k = k + 1;
        }
        let ghost w = v@;
        trim(&mut v);
        let r = Polynome { coefs: v };
        assert forall|q: int| #[trigger] coef(r@, q) == conv(self@, rhs@, q) by {
            assert(coef(values(v@), q) == coef(values(w), q));
            if q >= n {
                lemma_conv_zero(self@, rhs@, q, (q + 1) as nat);
            }
            if 0 <= q < n {
                assert(values(w)[q] == w[q]@);
                assert(w[q]@ == conv(self@, rhs@, q));
                assert(coef(values(w), q) == conv(self@, rhs@, q));
            } else if q < 0 {
                assert(coef(values(w), q) == conv(self@, rhs@, q));
            } else {
                assert(values(w).len() == n);
                assert(coef(values(w), q) == 0);
                lemma_conv_zero(self@, rhs@, q, (q + 1) as nat);
                assert(conv(self@, rhs@, q) == conv_part(self@, rhs@, q, (q + 1) as nat));
            }
            assert(coef(r@, q) == coef(values(v@), q));
        }
        r
    }

    /// Every coefficient multiplied by `c`.
    pub fn mul_scalar(&self, c: &LongInt) -> (r: Polynome)
        requires
            self.wf(),
            c.wf(),
        ensures
            r.wf(),
            forall|k: int| #[trigger] coef(r@, k) == coef(self@, k) * c@,
    {
        let mut v: Vec<LongInt> = Vec::new();
        let mut i: usize = 0;
        while i < self.coefs.len()
            invariant
                self.wf(),
                c.wf(),
                i <= self@.len(),
                v@.len() == i,
                forall|k: int| 0 <= k < i ==> (#[trigger] v@[k]).wf() && v@[k]@ == coef(self@, k) * c@,
            decreases self@.len() - i,
        {
            v.push(self.coefs[i].mul(c));
            i = i + 1;
        }
        trim(&mut v);
        Polynome { coefs: v }
    }

    /// Every coefficient divided by the non-zero `c`, rounding toward zero.
    pub fn div_scalar(&self, c: &LongInt) -> (r: Polynome)
        requires
            self.wf(),
            c.wf(),
            c@ != 0,
        ensures
            r.wf(),
            forall|k: int| #[trigger] coef(r@, k) == tdiv(coef(self@, k), c@),
    {
        let mut v: Vec<LongInt> = Vec::new();
        let mut i: usize = 0;
        while i < self.coefs.len()
            invariant
                self.wf(),
                c.wf(),
                c@ != 0,
                i <= self@.len(),
                v@.len() == i,
                forall|k: int|
                    0 <= k < i ==> (#[trigger] v@[k]).wf() && v@[k]@ == tdiv(coef(self@, k), c@),
            decreases self@.len() - i,
        {
            v.push(self.coefs[i].div(c));
            i = i + 1;
        }
        let ghost w = v@;
        trim(&mut v);
        let r = Polynome { coefs: v };
        assert forall|k: int| #[trigger] coef(r@, k) == tdiv(coef(self@, k), c@) by {
            assert(coef(values(v@), k) == coef(values(w), k));
        }
        r
    }

    /// Every coefficient divided by the leading one, rounding toward zero; monic when the
    /// leading coefficient divides all the others.
    pub fn normalize(&self) -> (r: Polynome)
        requires
            self.wf(),
            self@.len() > 0,
        ensures
            r.wf(),
            forall|k: int| #[trigger] coef(r@, k) == tdiv(coef(self@, k), self@.last()),
    {
        let lead = self.get(self.degree());
        self.div_scalar(&lead)
    }

    /// The number of coefficients: one more than the degree, and zero for the zero polynomial.
    pub fn len(&self) -> (r: usize)
        ensures
            r == self@.len(),
    {
        self.coefs.len()
    }

    /// The degree: the index of the highest coefficient. The zero polynomial has none.
    pub fn degree(&self) -> (r: usize)
        requires
            self.wf(),
            self@.len() > 0,
        ensures
            r == self@.len() - 1,
    {
        self.coefs.len() - 1
    }

    /// Coefficient of `x^power`, zero past the highest.
    pub fn get(&self, power: usize) -> (r: LongInt)
        requires
            self.wf(),
        ensures
            r.wf(),
            r@ == coef(self@, power as int),
    {
        if power < self.coefs.len() {
            self.coefs[power].duplicate()
        } else {
            LongInt::new()
        }
    }

    /// Sets the coefficient of `x^power`; the sequence grows for a non-zero value past its end
    /// and drops the zeros that end up on top.
    pub fn set(&mut self, power: usize, val: LongInt)
        requires
            old(self).wf(),
            val.wf(),
        ensures
            final(self).wf(),
            forall|k: int| #[trigger] coef(final(self)@, k) == (if k == power {
                val@
            } else {
                coef(old(self)@, k)
            }),
    {
        let mut v = Vec::new();
        std::mem::swap(&mut v, &mut self.coefs);
        let ghost old_v = v@;
        assert(values(old_v) == old(self)@);
        let ghost target = |k: int|
            if k == power {
                val@
            } else {
                coef(old(self)@, k)
            };
        if power < v.len() {
            v.set(power, val);
            assert forall|k: int| #[trigger] coef(values(v@), k) == target(k) by {
                if k != power && 0 <= k < old_v.len() {
                    assert(v@[k] == old_v[k]);
                }
            }
        } else if !val.is_zero() {
            while v.len() < power
                invariant
                    v@.len() <= power,
                    forall|k: int| 0 <= k < v@.len() ==> (#[trigger] v@[k]).wf(),
                    forall|k: int| #[trigger] coef(values(v@), k) == coef(values(old_v), k),
                decreases power - v@.len(),
            {
                let ghost before = v@;
                v.push(LongInt::new());
                assert forall|k: int| #[trigger] coef(values(v@), k) == coef(values(old_v), k) by {
                    assert(coef(values(before), k) == coef(values(old_v), k));
                    if 0 <= k < before.len() {
                        assert(v@[k] == before[k]);
                    }
                }
            }
            let ghost padded = v@;
            v.push(val);
            assert forall|k: int| #[trigger] coef(values(v@), k) == target(k) by {
                assert(coef(values(padded), k) == coef(values(old_v), k));
                if 0 <= k < padded.len() {
                    assert(v@[k] == padded[k]);
                }
            }
        } else {
            assert forall|k: int| #[trigger] coef(values(v@), k) == target(k) by {}
        }
        trim(&mut v);
        self.coefs = v;
    }
}

} // verus!
