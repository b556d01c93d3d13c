use std::cmp::Ordering;
use vstd::prelude::*;
use vstd::string::StrSliceExecFns;
use vstd::string::StringExecFns;

verus! {

/// `256^n`.
pub open spec fn pow256(n: nat) -> nat
    decreases n,
{
    if n == 0 {
        1
    } else {
        256 * pow256((n - 1) as nat)
    }
}

/// The value of a little-endian sequence of base-256 digits.
pub open spec fn mag(s: Seq<u8>) -> nat
    decreases s.len(),
{
    if s.len() == 0 {
        0
    } else {
        (s[0] + 256 * mag(s.skip(1))) as nat
    }
}

pub proof fn lemma_pow256_pos(n: nat)
    ensures
        pow256(n) >= 1,
    decreases n,
{
    if n > 0 {
        lemma_pow256_pos((n - 1) as nat);
    }
}

/// Appending a digit adds it at the next power of 256.
pub proof fn lemma_mag_push(s: Seq<u8>, d: u8)
    ensures
        mag(s.push(d)) == mag(s) + d * pow256(s.len()),
    decreases s.len(),
{
    let t = s.push(d);
    if s.len() == 0 {
        assert(t.skip(1) =~= Seq::<u8>::empty());
        assert(mag(t.skip(1)) == 0);
        assert(mag(t) == t[0] + 256 * mag(t.skip(1)));
        assert(pow256(0) == 1);
    } else {
        assert(t.skip(1) =~= s.skip(1).push(d));
        lemma_mag_push(s.skip(1), d);
        assert(mag(t) == t[0] + 256 * mag(t.skip(1)));
        assert(t[0] == s[0]);
        assert(pow256(s.len()) == 256 * pow256(s.skip(1).len()));
        assert(256 * (mag(s.skip(1)) + d * pow256(s.skip(1).len())) == 256 * mag(s.skip(1)) + d * (
        256 * pow256(s.skip(1).len()))) by (nonlinear_arith);
    }
}

/// A sequence of `n` digits is below `256^n`.
pub proof fn lemma_mag_bound(s: Seq<u8>)
    ensures
        mag(s) < pow256(s.len()),
    decreases s.len(),
{
    if s.len() > 0 {
        lemma_mag_bound(s.skip(1));
        assert(s[0] + 256 * mag(s.skip(1)) < 256 * pow256(s.skip(1).len())) by (nonlinear_arith)
            requires
                s[0] < 256,
                mag(s.skip(1)) + 1 <= pow256(s.skip(1).len()),
        ;
    }
}

/// A sequence whose last digit is not zero is at least `256^(n-1)`.
pub proof fn lemma_mag_lower(s: Seq<u8>)
    requires
        s.len() > 0,
        s.last() != 0,
    ensures
        mag(s) >= pow256((s.len() - 1) as nat),
{
    let t = s.drop_last();
    assert(t.push(s.last()) =~= s);
    lemma_mag_push(t, s.last());
    assert(s.last() * pow256(t.len()) >= pow256(t.len())) by (nonlinear_arith)
        requires
            s.last() >= 1,
    ;
}

/// Digit `k` of `s`, zero past the end.
pub open spec fn dg(s: Seq<u8>, k: int) -> u8 {
    if 0 <= k < s.len() {
        s[k]
    } else {
        0
    }
}

/// The value of the lowest `n` digits of `s`, padded with zeros.
pub open spec fn low(s: Seq<u8>, n: nat) -> nat
    decreases n,
{
    if n == 0 {
        0
    } else {
        (low(s, (n - 1) as nat) + dg(s, n - 1) * pow256((n - 1) as nat)) as nat
    }
}

pub proof fn lemma_low_take(s: Seq<u8>, n: nat)
    requires
        n <= s.len(),
    ensures
        low(s, n) == mag(s.take(n as int)),
    decreases n,
{
    if n == 0 {
        assert(s.take(0) =~= Seq::<u8>::empty());
    } else {
        lemma_low_take(s, (n - 1) as nat);
        assert(s.take(n as int) =~= s.take(n - 1).push(s[n - 1]));
        lemma_mag_push(s.take(n - 1), s[n - 1]);
    }
}

/// Past the last digit, `low` is the whole value.
pub proof fn lemma_low_full(s: Seq<u8>, n: nat)
    requires
        n >= s.len(),
    ensures
        low(s, n) == mag(s),
    decreases n,
{
    if n == s.len() {
        lemma_low_take(s, n);
        assert(s.take(n as int) =~= s);
    } else {
        lemma_low_full(s, (n - 1) as nat);
    }
}

/// The value splits at digit `i` into a low and a high part.
pub proof fn lemma_mag_split(s: Seq<u8>, i: nat)
    requires
        i <= s.len(),
    ensures
        mag(s) == mag(s.take(i as int)) + pow256(i) * mag(s.skip(i as int)),
    decreases i,
{
    if i == 0 {
        assert(s.take(0) =~= Seq::<u8>::empty());
        assert(mag(s.take(0)) == 0);
        assert(s.skip(0) =~= s);
        assert(pow256(0) == 1);
    } else {
        let j = (i - 1) as nat;
        lemma_mag_split(s, j);
        let h = s.skip(j as int);
        assert(h.skip(1) =~= s.skip(i as int));
        assert(mag(h) == h[0] + 256 * mag(h.skip(1)));
        assert(s.take(i as int) =~= s.take(j as int).push(s[j as int]));
        lemma_mag_push(s.take(j as int), s[j as int]);
        let p = pow256(j);
        let hh = mag(s.skip(i as int));
        assert(pow256(i) == 256 * p);
        assert(p * (s[j as int] + 256 * hh) == s[j as int] * p + (256 * p) * hh) by (nonlinear_arith);
        assert(mag(s) == mag(s.take(j as int)) + p * mag(h));
        assert(mag(h) == s[j as int] + 256 * hh);
        assert(mag(s.take(i as int)) == mag(s.take(j as int)) + s[j as int] * p);
    }
}

/// Two digit sequences of one length that agree above `i` are ordered by digit `i`.
pub proof fn lemma_mag_order(s: Seq<u8>, t: Seq<u8>, i: nat)
    requires
        s.len() == t.len(),
        i < s.len(),
        s[i as int] < t[i as int],
        forall|k: int| i < k < s.len() ==> s[k] == t[k],
    ensures
        mag(s) < mag(t),
{
    lemma_mag_split(s, i);
    lemma_mag_split(t, i);
    lemma_mag_bound(s.take(i as int));
    assert(s.skip(i as int + 1) =~= t.skip(i as int + 1));
    let hs = s.skip(i as int);
    let ht = t.skip(i as int);
    assert(hs.skip(1) =~= s.skip(i as int + 1));
    assert(ht.skip(1) =~= t.skip(i as int + 1));
    assert(mag(hs) == s[i as int] + 256 * mag(s.skip(i as int + 1)));
    assert(mag(ht) == t[i as int] + 256 * mag(s.skip(i as int + 1)));
    assert(mag(hs) + 1 <= mag(ht));
    let p = pow256(i);
    let a = mag(s.take(i as int));
    let b = mag(t.take(i as int));
    assert(a + p * mag(hs) < b + p * mag(ht)) by (nonlinear_arith)
        requires
            a < p,
            mag(hs) + 1 <= mag(ht),
            b >= 0,
    ;
}

/// Quotient of `a / b` rounded toward zero.
pub open spec fn tdiv(a: int, b: int) -> int {
    let q = abs(a) / abs(b);
    if (a < 0) == (b < 0) {
        q
    } else {
        -q
    }
}

/// Remainder of `a / b` rounded toward zero: it takes the sign of `a`.
pub open spec fn trem(a: int, b: int) -> int {
    let r = abs(a) % abs(b);
    if a < 0 {
        -r
    } else {
        r
    }
}

pub open spec fn abs(a: int) -> int {
    if a < 0 {
        -a
    } else {
        a
    }
}

/// The decimal digit character for `d`.
pub open spec fn digit_char(d: int) -> char {
    if d == 0 {
        '0'
    } else if d == 1 {
        '1'
    } else if d == 2 {
        '2'
    } else if d == 3 {
        '3'
    } else if d == 4 {
        '4'
    } else if d == 5 {
        '5'
    } else if d == 6 {
        '6'
    } else if d == 7 {
        '7'
    } else if d == 8 {
        '8'
    } else {
        '9'
    }
}

/// The hexadecimal digit character for `d`, upper case.
pub open spec fn hex_char(d: int) -> char {
    if d < 10 {
        digit_char(d)
    } else if d == 10 {
        'A'
    } else if d == 11 {
        'B'
    } else if d == 12 {
        'C'
    } else if d == 13 {
        'D'
    } else if d == 14 {
        'E'
    } else {
        'F'
    }
}

/// The decimal digits of `n`, most significant first, without leading zeros.
pub open spec fn dec_digits(n: nat) -> Seq<char>
    decreases n,
{
    if n < 10 {
        seq![digit_char(n as int)]
    } else {
        dec_digits(n / 10).push(digit_char((n % 10) as int))
    }
}

/// The decimal form of `v`: a minus sign for a negative value, then its digits.
pub open spec fn dec_str(v: int) -> Seq<char> {
    if v < 0 {
        seq!['-'] + dec_digits((-v) as nat)
    } else {
        dec_digits(v as nat)
    }
}

/// Two hexadecimal digits and a `|` for each base-256 digit, least significant first.
pub open spec fn hex_body(s: Seq<u8>) -> Seq<char>
    decreases s.len(),
{
    if s.len() == 0 {
        Seq::empty()
    } else {
        hex_body(s.drop_last()) + seq![
            hex_char((s.last() / 16) as int),
            hex_char((s.last() % 16) as int),
            '|',
        ]
    }
}

pub open spec fn is_digit_char(c: char) -> bool {
    '0' <= c && c <= '9'
}

pub open spec fn char_value(c: char) -> int {
    (c as u32) - ('0' as u32)
}

/// A non-empty run of decimal digits.
pub open spec fn is_digit_run(s: Seq<char>) -> bool {
    s.len() > 0 && forall|i: int| 0 <= i < s.len() ==> is_digit_char(#[trigger] s[i])
}

/// The value of a run of decimal digits.
pub open spec fn digit_run_value(s: Seq<char>) -> nat
    decreases s.len(),
{
    if s.len() == 0 {
        0
    } else {
        (digit_run_value(s.drop_last()) * 10 + char_value(s.last())) as nat
    }
}

/// A decimal integer: digits, with a leading minus sign or none.
pub open spec fn is_decimal(s: Seq<char>) -> bool {
    is_digit_run(s) || (s.len() > 0 && s[0] == '-' && is_digit_run(s.skip(1)))
}

pub open spec fn decimal_value(s: Seq<char>) -> int {
    if s.len() > 0 && s[0] == '-' {
        -(digit_run_value(s.skip(1)) as int)
    } else {
        digit_run_value(s) as int
    }
}

proof fn lemma_dec_digits(n: nat)
    ensures
        is_digit_run(dec_digits(n)),
        digit_run_value(dec_digits(n)) == n,
    decreases n,
{
    let d = dec_digits(n);
    if n < 10 {
        assert(d.drop_last() =~= Seq::<char>::empty());
        assert(digit_run_value(d.drop_last()) == 0);
        assert(char_value(digit_char(n as int)) == n);
        assert(digit_run_value(d) == digit_run_value(d.drop_last()) * 10 + char_value(d.last()));
    } else {
        lemma_dec_digits(n / 10);
        assert(d.drop_last() =~= dec_digits(n / 10));
        assert(char_value(digit_char((n % 10) as int)) == n % 10);
        assert(d.last() == digit_char((n % 10) as int));
        assert(digit_run_value(d) == digit_run_value(d.drop_last()) * 10 + char_value(d.last()));
        assert(n == (n / 10) * 10 + n % 10);
        assert forall|i: int| 0 <= i < d.len() implies is_digit_char(#[trigger] d[i]) by {
            if i < d.len() - 1 {
                assert(d[i] == dec_digits(n / 10)[i]);
            }
        }
    }
}

/// Reading back the decimal form of a value gives the value.
pub proof fn lemma_decimal_round_trip(v: int)
    ensures
        is_decimal(dec_str(v)),
        decimal_value(dec_str(v)) == v,
{
    if v < 0 {
        let n = (-v) as nat;
        lemma_dec_digits(n);
        assert(dec_str(v).skip(1) =~= dec_digits(n));
    } else {
        lemma_dec_digits(v as nat);
        assert(is_digit_char(dec_digits(v as nat)[0]));
    }
}

/// `"0"` .. `"9"`.
fn digit_str(d: u8) -> (r: &'static str)
    requires
        d < 10,
    ensures
        r@ == seq![digit_char(d as int)],
{
    proof {
        reveal_strlit("0");
        reveal_strlit("1");
        reveal_strlit("2");
        reveal_strlit("3");
        reveal_strlit("4");
        reveal_strlit("5");
        reveal_strlit("6");
        reveal_strlit("7");
        reveal_strlit("8");
        reveal_strlit("9");
    }
    match d {
        0 => "0",
        1 => "1",
        2 => "2",
        3 => "3",
        4 => "4",
        5 => "5",
        6 => "6",
        7 => "7",
        8 => "8",
        _ => "9",
    }
}

/// Arbitrary-precision signed integer: a sign and little-endian base-256 digits.
#[derive(Debug)]
pub struct LongInt {
    digits: Vec<u8>,
    positive: bool,
}

impl View for LongInt {
    type V = int;

    closed spec fn view(&self) -> int {
        if self.positive {
            mag(self.digits@) as int
        } else {
            -(mag(self.digits@) as int)
        }
    }
}

impl LongInt {
    /// The digits, least significant first.
    pub closed spec fn digit_seq(&self) -> Seq<u8> {
        self.digits@
    }

    pub closed spec fn is_positive(&self) -> bool {
        self.positive
    }

    /// No trailing zero digit, and zero is written with no digit and a positive sign.
    pub closed spec fn wf(&self) -> bool {
        &&& (self.digits@.len() == 0 ==> self.positive)
        &&& (self.digits@.len() > 0 ==> self.digits@.last() != 0)
    }

    /// Digit `i`, zero past the end.
    pub open spec fn digit(&self, i: int) -> u8 {
        if 0 <= i < self.digit_seq().len() {
            self.digit_seq()[i]
        } else {
            0
        }
    }

    /// A negative value is not zero.
    proof fn lemma_sign(&self)
        requires
            self.wf(),
        ensures
            !self.positive ==> mag(self.digits@) > 0,
            self.digits@.len() > 0 ==> mag(self.digits@) > 0,
    {
        if self.digits@.len() > 0 {
            lemma_mag_lower(self.digits@);
            lemma_pow256_pos((self.digits@.len() - 1) as nat);
        }
    }

    /// The zero value.
    pub fn new() -> (r: Self)
        ensures
            r.wf(),
            r@ == 0,
            r.is_positive(),
            r.digit_seq().len() == 0,
    {
        LongInt { digits: Vec::new(), positive: true }
    }


    /// Builds the canonical value of sign `positive` and magnitude `mag(digits@)`.
    fn from_parts(digits: Vec<u8>, positive: bool) -> (r: Self)
        ensures
            r.wf(),
            positive ==> r.positive,
            r@ == (if positive {
                mag(digits@) as int
            } else {
                -(mag(digits@) as int)
            }),
    {
        let mut v = digits;
        v.trim_zeros();
        let pos = positive || v.len() == 0;
        LongInt { digits: v, positive: pos }
    }

    /// A copy of the value.
    pub fn duplicate(&self) -> (r: Self)
        ensures
            r.digit_seq() == self.digit_seq(),
            r.is_positive() == self.is_positive(),
            r@ == self@,
            self.wf() ==> r.wf(),
    {
        LongInt { digits: copy_digits(&self.digits), positive: self.positive }
    }

    /// The absolute value.
    pub fn abs(&self) -> (r: Self)
        requires
            self.wf(),
        ensures
            r.wf(),
            r@ == (if self@ < 0 {
                -self@
            } else {
                self@
            }),
    {
        LongInt { digits: copy_digits(&self.digits), positive: true }
    }

    /// The negated value.
    pub fn neg(&self) -> (r: Self)
        requires
            self.wf(),
        ensures
            r.wf(),
            r@ == -self@,
    {
        let d = copy_digits(&self.digits);
        let pos = !self.positive || d.len() == 0;
        LongInt { digits: d, positive: pos }
    }

    /// The value of a machine integer.
    pub fn from_i64(x: i64) -> (r: Self)
        ensures
            r.wf(),
            r@ == x as int,
    {
        let mut m: u64 = if x < 0 {
            (-(x as i128)) as u64
        } else {
            x as u64
        };
        let ghost mm: int = m as int;
        let mut v: Vec<u8> = Vec::new();
        assert(pow256(0) == 1);
        assert(mag(v@) == 0);
        while m > 0
            invariant
                mag(v@) + pow256(v@.len()) * m == mm,
            decreases m,
        {
            let digit: u8 = (m % 256) as u8;
            proof {
                lemma_mag_push(v@, digit);
                let p = pow256(v@.len());
                assert(p * m == digit * p + (256 * p) * (m / 256)) by (nonlinear_arith)
                    requires
                        m == digit + 256 * (m / 256),
                ;
            }
            v.push(digit);
            m = m / 256;
        }
        LongInt::from_parts(v, x >= 0)
    }

    /// Sum.
    pub fn add(&self, rhs: &LongInt) -> (r: LongInt)
        requires
            self.wf(),
            rhs.wf(),
        ensures
            r.wf(),
            r@ == self@ + rhs@,
    {
        if self.positive && rhs.positive {
            add_ignore_sign(self, rhs)
        } else if self.positive && !rhs.positive {
            sub_ignore_sign(self, rhs)
        } else if !self.positive && rhs.positive {
            sub_ignore_sign(self, rhs).neg()
        } else {
            add_ignore_sign(self, rhs).neg()
        }
    }

    /// Difference.
    pub fn sub(&self, rhs: &LongInt) -> (r: LongInt)
        requires
            self.wf(),
            rhs.wf(),
        ensures
            r.wf(),
            r@ == self@ - rhs@,
    {
        if self.positive && rhs.positive {
            sub_ignore_sign(self, rhs)
        } else if self.positive && !rhs.positive {
            add_ignore_sign(self, rhs)
        } else if !self.positive && rhs.positive {
            add_ignore_sign(self, rhs).neg()
        } else {
            sub_ignore_sign(self, rhs).neg()
        }
    }

    /// Product; its sign is the exclusive or of the operands' signs.
    pub fn mul(&self, rhs: &LongInt) -> (r: LongInt)
        requires
            self.wf(),
            rhs.wf(),
        ensures
            r.wf(),
            r@ == self@ * rhs@,
    {
        let m = mul_ignore_sign(self, rhs);
        proof {
            let a = mag(self.digits@) as int;
            let b = mag(rhs.digits@) as int;
            assert((-a) * b == -(a * b)) by (nonlinear_arith);
            assert(a * (-b) == -(a * b)) by (nonlinear_arith);
            assert((-a) * (-b) == a * b) by (nonlinear_arith);
        }
        if self.positive == rhs.positive {
            m
        } else {
            m.neg()
        }
    }

    /// Quotient rounded toward zero.
    pub fn div(&self, rhs: &LongInt) -> (r: LongInt)
        requires
            self.wf(),
            rhs.wf(),
            rhs@ != 0,
        ensures
            r.wf(),
            r@ == tdiv(self@, rhs@),
    {
        proof {
            self.lemma_sign();
            rhs.lemma_sign();
        }
        let (q, _r) = div_ignore_sign(self, rhs);
        if self.positive == rhs.positive {
            q
        } else {
            q.neg()
        }
    }

    /// Remainder of the division rounded toward zero, with the sign of `self`.
    pub fn rem(&self, rhs: &LongInt) -> (r: LongInt)
        requires
            self.wf(),
            rhs.wf(),
            rhs@ != 0,
        ensures
            r.wf(),
            r@ == trem(self@, rhs@),
    {
        proof {
            self.lemma_sign();
        }
        let (_q, r) = div_ignore_sign(self, rhs);
        if self.positive {
            r
        } else {
            r.neg()
        }
    }

    /// Signed comparison.
    pub fn compare(&self, rhs: &LongInt) -> (r: Ordering)
        requires
            self.wf(),
            rhs.wf(),
        ensures
            (r == Ordering::Less) == (self@ < rhs@),
            (r == Ordering::Equal) == (self@ == rhs@),
            (r == Ordering::Greater) == (self@ > rhs@),
    {
        proof {
            self.lemma_sign();
            rhs.lemma_sign();
        }
        if self.positive && !rhs.positive {
            Ordering::Greater
        } else if !self.positive && rhs.positive {
            Ordering::Less
        } else if self.positive {
            ord_ignore_sign(self, rhs)
        } else {
            ord_ignore_sign(rhs, self)
        }
    }

    /// Whether the two values are equal.
    pub fn equals(&self, rhs: &LongInt) -> (r: bool)
        requires
            self.wf(),
            rhs.wf(),
        ensures
            r == (self@ == rhs@),
    {
        match self.compare(rhs) {
            Ordering::Equal => true,
            _ => false,
        }
    }

    /// Whether the value is zero.
    pub fn is_zero(&self) -> (r: bool)
        requires
            self.wf(),
        ensures
            r == (self@ == 0),
    {
        proof {
            if self.digits@.len() > 0 {
                lemma_mag_lower(self.digits@);
                lemma_pow256_pos((self.digits@.len() - 1) as nat);
            }
        }
        self.digits.len() == 0
    }

    /// The hexadecimal digit of `dec`, as a one-character string.
    fn hex_digit(dec: u8) -> (r: &'static str)
        requires
            dec < 16,
        ensures
            r@ == seq![hex_char(dec as int)],
    {
        proof {
            reveal_strlit("A");
            reveal_strlit("B");
            reveal_strlit("C");
            reveal_strlit("D");
            reveal_strlit("E");
            reveal_strlit("F");
        }
        match dec {
            10 => "A",
            11 => "B",
            12 => "C",
            13 => "D",
            14 => "E",
            15 => "F",
            _ => digit_str(dec),
        }
    }

    /// The decimal form, found by repeated division by ten.
    pub fn to_decimal(&self) -> (r: String)
        requires
            self.wf(),
        ensures
            r@ == dec_str(self@),
    {
        proof {
            reveal_strlit("0");
            reveal_strlit("-");
        }
        if self.is_zero() {
            return String::from_str("0");
        }
        let ghost n: nat = (if self@ < 0 {
            -self@
        } else {
            self@
        }) as nat;
        let ten = LongInt::from_i64(10);
        proof {
            ten.lemma_sign();
            assert(mag(ten.digits@) == 10);
        }
        let mut cur = self.abs();
        let mut ds: Vec<u8> = Vec::new();
        let ghost mut suffix: Seq<char> = Seq::empty();
        assert(dec_digits(n) =~= dec_digits(cur@ as nat) + suffix);
        while !cur.is_zero()
            invariant
                cur.wf(),
                cur.positive,
                ten.wf(),
                mag(ten.digits@) == 10,
                cur@ > 0 ==> dec_digits(n) == dec_digits(cur@ as nat) + suffix,
                cur@ == 0 ==> dec_digits(n) == suffix,
                suffix.len() == ds@.len(),
                forall|i: int| 0 <= i < ds@.len() ==> #[trigger] ds@[i] < 10,
                forall|i: int|
                    0 <= i < ds@.len() ==> #[trigger] suffix[i] == digit_char(
                        ds@[ds@.len() - 1 - i] as int,
                    ),
            decreases cur@,
        {
            let ghost c = cur@ as nat;
            let (q, r) = div_ignore_sign(&cur, &ten);
            proof {
                r.lemma_sign();
                if r.digits@.len() >= 2 {
                    lemma_mag_lower(r.digits@);
                    lemma_pow256_mono(1, (r.digits@.len() - 1) as nat);
                    assert(pow256(0) == 1);
                    assert(pow256(1) == 256);
                }
                if r.digits@.len() == 1 {
                    assert(r.digits@.skip(1) =~= Seq::<u8>::empty());
                    assert(mag(r.digits@) == r.digits@[0] + 256 * mag(r.digits@.skip(1)));
                }
            }
            let d = r.get(0);
            assert(d as int == c % 10);
            let ghost old_suffix = suffix;
            let ghost old_ds = ds@;
            ds.push(d);
            proof {
                suffix = seq![digit_char(d as int)] + suffix;
                if c >= 10 {
                    assert(dec_digits(c) == dec_digits(c / 10).push(digit_char((c % 10) as int)));
                    assert(dec_digits(c) + old_suffix =~= dec_digits(c / 10) + suffix);
                } else {
                    assert(dec_digits(c) + old_suffix =~= suffix);
                }
                assert forall|i: int| 0 <= i < ds@.len() implies #[trigger] ds@[i] < 10 by {
                    if i < ds@.len() - 1 {
                        assert(ds@[i] == old_ds[i]);
                    }
                }
                assert forall|i: int| 0 <= i < ds@.len() implies #[trigger] suffix[i]
                    == digit_char(ds@[ds@.len() - 1 - i] as int) by {
                    if i > 0 {
                        assert(suffix[i] == old_suffix[i - 1]);
                        assert(ds@[ds@.len() - 1 - i] == old_ds[old_ds.len() - 1 - (i - 1)]);
                    }
                }
            }
            cur = q;
        }
        let mut res = if self.positive {
            String::new()
        } else {
            String::from_str("-")
        };
        let ghost prefix = res@;
        let mut i: usize = ds.len();
        while i > 0
            invariant
                i <= ds@.len(),
                suffix.len() == ds@.len(),
                res@ == prefix + suffix.take(ds@.len() - i),
                forall|i: int| 0 <= i < ds@.len() ==> #[trigger] ds@[i] < 10,
                forall|i: int|
                    0 <= i < ds@.len() ==> #[trigger] suffix[i] == digit_char(
                        ds@[ds@.len() - 1 - i] as int,
                    ),
            decreases i,
        {
            let ghost k = ds@.len() - i;
            assert(ds@[i - 1] < 10);
            assert(suffix[k] == digit_char(ds@[i - 1] as int));
            res.append(digit_str(ds[i - 1]));
            i = i - 1;
            assert(suffix.take(ds@.len() - i) =~= suffix.take(k).push(suffix[k]));
            assert(res@ =~= prefix + suffix.take(ds@.len() - i));
        }
        assert(suffix.take(ds@.len() as int) =~= suffix);
        res
    }

    /// Reads a decimal integer: digits, with a leading minus sign or none.
    pub fn from_decimal(s: &str) -> (r: Option<LongInt>)
        ensures
            r is Some <==> is_decimal(s@),
            r matches Some(v) ==> v.wf() && v@ == decimal_value(s@),
    {
        let len = s.unicode_len();
        if len == 0 {
            return None;
        }
        let neg = s.get_char(0) == '-';
        let start: usize = if neg {
            1
        } else {
            0
        };
        if start == len {
            return None;
        }
        let ghost body = s@.skip(start as int);
        let ten = LongInt::from_i64(10);
        let mut acc = LongInt::new();
        let mut i: usize = start;
        while i < len
            invariant
                len == s@.len(),
                len > 0,
                neg == (s@[0] == '-'),
                start == (if neg {
                    1usize
                } else {
                    0usize
                }),
                start <= i <= len,
                body == s@.skip(start as int),
                ten.wf(),
                ten@ == 10,
                acc.wf(),
                acc@ == digit_run_value(body.take(i - start)),
                forall|k: int| 0 <= k < i - start ==> is_digit_char(#[trigger] body[k]),
            decreases len - i,
        {
            let c = s.get_char(i);
            if !('0' <= c && c <= '9') {
                proof {
                    assert(!is_digit_char(body[i - start]));
                    if neg {
                        assert(!is_digit_char(s@[0]));
                    } else {
                        assert(body =~= s@);
                        assert(s@[0] != '-');
                    }
                }
                return None;
            }
            let d = LongInt::from_i64((c as u32 - '0' as u32) as i64);
            acc = acc.mul(&ten).add(&d);
            i = i + 1;
            assert(body.take(i - start).drop_last() =~= body.take(i - 1 - start));
        }
        assert(body.take(len - start) =~= body);
        proof {
            if !neg {
                assert(body =~= s@);
            }
        }
        if neg {
            Some(acc.neg())
        } else {
            Some(acc)
        }
    }

    /// A hexadecimal form: `|`, then two hexadecimal digits and a `|` per base-256 digit, least
    /// significant first; a minus sign in front of a negative value, and `|00|` for zero.
    pub fn to_hex(&self) -> (r: String)
        requires
            self.wf(),
        ensures
            self@ == 0 ==> r@ == seq!['|', '0', '0', '|'],
            self@ > 0 ==> r@ == seq!['|'] + hex_body(self.digit_seq()),
            self@ < 0 ==> r@ == seq!['-', '|'] + hex_body(self.digit_seq()),
    {
        proof {
            reveal_strlit("|00|");
            reveal_strlit("|");
            reveal_strlit("-|");
            self.lemma_sign();
        }
        if self.is_zero() {
            return String::from_str("|00|");
        }
        let mut res = if self.positive {
            String::from_str("|")
        } else {
            String::from_str("-|")
        };
        let ghost prefix = res@;
        let mut i: usize = 0;
        while i < self.digits.len()
            invariant
                i <= self.digits@.len(),
                res@ == prefix + hex_body(self.digits@.take(i as int)),
            decreases self.digits@.len() - i,
        {
            proof {
                reveal_strlit("|");
            }
            let d = self.digits[i];
            let ghost before = res@;
            res.append(LongInt::hex_digit(d / 16));
            res.append(LongInt::hex_digit(d % 16));
            res.append("|");
            i = i + 1;
            let ghost t = self.digits@.take(i as int);
            assert(t.drop_last() =~= self.digits@.take(i - 1));
            assert(t.last() == d);
            assert(hex_body(t) == hex_body(t.drop_last()) + seq![
                hex_char((d / 16) as int),
                hex_char((d % 16) as int),
                '|',
            ]);
            assert(res@ =~= before + seq![
                hex_char((d / 16) as int),
                hex_char((d % 16) as int),
                '|',
            ]);
            assert(res@ =~= prefix + hex_body(t));
        }
        assert(self.digits@.take(i as int) =~= self.digits@);
        res
    }

    /// Replaces digit `ind` of the magnitude by `d`; a value that becomes zero turns positive.
    pub fn set(&mut self, ind: usize, d: u8)
        requires
            old(self).wf(),
            ind < usize::MAX,
        ensures
            final(self).wf(),
            forall|j: int|
                #![trigger final(self).digit(j)]
                final(self).digit(j) == (if j == ind {
                    d
                } else {
                    old(self).digit(j)
                }),
            final(self).digit_seq().len() > 0 ==> final(self).is_positive()
                == old(self).is_positive(),
    {
        let mut v = copy_digits(&self.digits);
        while v.len() <= ind
            invariant
                v@.len() >= old(self).digits@.len(),
                forall|j: int|
                    0 <= j < v@.len() ==> #[trigger] v@[j] == old(self).digit(j),
            decreases ind + 1 - v@.len(),
        {
            v.push(0);
        }
        v.set(ind, d);
        let ghost w = v@;
        v.trim_zeros();
        assert forall|j: int| #![trigger dg(v@, j)]
            dg(v@, j) == (if j == ind {
                d
            } else {
                old(self).digit(j)
            }) by {
            if j >= v@.len() && j < w.len() {
                assert(w[j] == 0);
            }
            if 0 <= j < v@.len() {
                assert(v@[j] == w[j]);
            }
        }
        let pos = self.positive || v.len() == 0;
        self.digits = v;
        self.positive = pos;
        assert forall|j: int| #![trigger self.digit(j)]
            self.digit(j) == (if j == ind {
                d
            } else {
                old(self).digit(j)
            }) by {
            assert(self.digit(j) == dg(self.digits@, j));
        }
    }

    /// Digit `ind` of the magnitude, zero past the end.
    pub fn get(&self, ind: usize) -> (r: u8)
        ensures
            r == self.digit(ind as int),
    {
        if ind >= self.digits.len() {
            0
        } else {
            self.digits[ind]
        }
    }
}


/// A copy of a digit vector.
fn copy_digits(d: &Vec<u8>) -> (r: Vec<u8>)
    ensures
        r@ == d@,
{
    let mut r: Vec<u8> = Vec::new();
    let mut i: usize = 0;
    while i < d.len()
        invariant
            i <= d.len(),
            r@ == d@.take(i as int),
        decreases d.len() - i,
    {
        r.push(d[i]);
        i = i + 1;
        assert(r@ =~= d@.take(i as int));
    }
    assert(d@.take(i as int) =~= d@);
    r
}

trait TrimZeros {
    fn trim_zeros(&mut self);
}

impl TrimZeros for Vec<u8> {
    /// Drops trailing zero digits; the value stays.
    fn trim_zeros(&mut self)
        ensures
            mag(final(self)@) == mag(old(self)@),
            final(self)@.len() > 0 ==> final(self)@.last() != 0,
            final(self)@.len() <= old(self)@.len(),
            final(self)@ == old(self)@.take(final(self)@.len() as int),
            forall|k: int| final(self)@.len() <= k < old(self)@.len() ==> old(self)@[k] == 0,
    {
        while self.len() > 0 && self[self.len() - 1] == 0
            invariant
                mag(self@) == mag(old(self)@),
                self@.len() <= old(self)@.len(),
                self@ == old(self)@.take(self@.len() as int),
                forall|k: int| self@.len() <= k < old(self)@.len() ==> old(self)@[k] == 0,
            decreases self.len(),
        {
            let ghost before = self@;
            self.pop();
            assert(self@.push(0) =~= before);
            assert(self@ =~= old(self)@.take(self@.len() as int));
            proof {
                lemma_mag_push(self@, 0);
            }
        }
    }
}

/// `mag(a) + mag(b)`, as a non-negative value.
fn add_ignore_sign(a: &LongInt, b: &LongInt) -> (r: LongInt)
    ensures
        r.positive,
        r.wf(),
        r@ == mag(a.digit_seq()) + mag(b.digit_seq()),
{
    let len: usize = if a.digits.len() >= b.digits.len() {
        a.digits.len()
    } else {
        b.digits.len()
    };
    let mut v: Vec<u8> = Vec::new();
    let mut carry: u32 = 0;
    let mut i: usize = 0;
    while i < len
        invariant
            i <= len,
            len >= a.digits@.len(),
            len >= b.digits@.len(),
            v@.len() == i,
            carry <= 1,
            mag(v@) + carry * pow256(i as nat) == low(a.digits@, i as nat) + low(b.digits@, i as nat),
        decreases len - i,
    {
        let sum: u32 = a.get(i) as u32 + b.get(i) as u32 + carry;
        let digit: u8 = (sum % 256) as u8;
        let ghost c0 = carry;
        carry = sum / 256;
        proof {
            lemma_mag_push(v@, digit);
            let p = pow256(i as nat);
            assert(digit + 256 * carry == sum);
            assert(digit * p + carry * (256 * p) == (sum as int) * p) by (nonlinear_arith)
                requires
                    digit + 256 * carry == sum,
            ;
            assert((sum as int) * p == dg(a.digits@, i as int) * p + dg(b.digits@, i as int) * p + c0
                * p) by (nonlinear_arith)
                requires
                    sum == dg(a.digits@, i as int) + dg(b.digits@, i as int) + c0,
            ;
        }
        v.push(digit);
        i = i + 1;
    }
    proof {
        lemma_low_full(a.digits@, len as nat);
        lemma_low_full(b.digits@, len as nat);
    }
    if carry != 0 {
        proof {
            lemma_mag_push(v@, carry as u8);
        }
        v.push(carry as u8);
    }
    LongInt::from_parts(v, true)
}

/// `mag(a) - mag(b)`, for `mag(a) >= mag(b)`.
fn sub_mag(a: &LongInt, b: &LongInt) -> (r: LongInt)
    requires
        mag(a.digit_seq()) >= mag(b.digit_seq()),
    ensures
        r.positive,
        r.wf(),
        r@ == mag(a.digit_seq()) - mag(b.digit_seq()),
{
    let len: usize = if a.digits.len() >= b.digits.len() {
        a.digits.len()
    } else {
        b.digits.len()
    };
    let mut v: Vec<u8> = Vec::new();
    let mut borrow: i32 = 0;
    let mut i: usize = 0;
    while i < len
        invariant
            i <= len,
            len >= a.digits@.len(),
            len >= b.digits@.len(),
            v@.len() == i,
            0 <= borrow <= 1,
            mag(v@) - borrow * pow256(i as nat) == low(a.digits@, i as nat) - low(b.digits@, i as nat),
        decreases len - i,
    {
        let x: i32 = a.get(i) as i32 - b.get(i) as i32 - borrow;
        let ghost b0 = borrow;
        let digit: u8;
        if x < 0 {
            digit = (x + 256) as u8;
            borrow = 1;
        } else {
            digit = x as u8;
            borrow = 0;
        }
        proof {
            lemma_mag_push(v@, digit);
            let p = pow256(i as nat);
            assert(digit - 256 * borrow == x);
            assert(digit * p - borrow * (256 * p) == (x as int) * p) by (nonlinear_arith)
                requires
                    digit - 256 * borrow == x,
            ;
            assert((x as int) * p == dg(a.digits@, i as int) * p - dg(b.digits@, i as int) * p - b0
                * p) by (nonlinear_arith)
                requires
                    x == dg(a.digits@, i as int) - dg(b.digits@, i as int) - b0,
            ;
        }
        v.push(digit);
        i = i + 1;
    }
    proof {
        lemma_low_full(a.digits@, len as nat);
        lemma_low_full(b.digits@, len as nat);
        lemma_mag_bound(v@);
        if borrow == 1 {
            assert(mag(v@) - pow256(len as nat) < 0);
        }
    }
    LongInt::from_parts(v, true)
}

/// Compares the magnitudes of two values.
fn ord_ignore_sign(a: &LongInt, b: &LongInt) -> (r: Ordering)
    requires
        a.wf(),
        b.wf(),
    ensures
        (r == Ordering::Less) == (mag(a.digit_seq()) < mag(b.digit_seq())),
        (r == Ordering::Equal) == (mag(a.digit_seq()) == mag(b.digit_seq())),
        (r == Ordering::Greater) == (mag(a.digit_seq()) > mag(b.digit_seq())),
{
    let la = a.digits.len();
    let lb = b.digits.len();
    if la < lb {
        proof {
            lemma_mag_bound(a.digits@);
            lemma_mag_lower(b.digits@);
            lemma_pow256_mono(la as nat, (lb - 1) as nat);
        }
        return Ordering::Less;
    }
    if la > lb {
        proof {
            lemma_mag_bound(b.digits@);
            lemma_mag_lower(a.digits@);
            lemma_pow256_mono(lb as nat, (la - 1) as nat);
        }
        return Ordering::Greater;
    }
    let mut i: usize = la;
    while i > 0
        invariant
            i <= la,
            la == a.digits@.len(),
            lb == b.digits@.len(),
            la == lb,
            forall|k: int| i <= k < la ==> a.digits@[k] == b.digits@[k],
        decreases i,
    {
        let x = a.digits[i - 1];
        let y = b.digits[i - 1];
        if x < y {
            proof {
                lemma_mag_order(a.digits@, b.digits@, (i - 1) as nat);
            }
            return Ordering::Less;
        }
        if x > y {
            proof {
                lemma_mag_order(b.digits@, a.digits@, (i - 1) as nat);
            }
            return Ordering::Greater;
        }
        i = i - 1;
    }
    assert(a.digits@ =~= b.digits@);
    Ordering::Equal
}

/// `mag(a) - mag(b)`, of either sign.
fn sub_ignore_sign(a: &LongInt, b: &LongInt) -> (r: LongInt)
    requires
        a.wf(),
        b.wf(),
    ensures
        r.wf(),
        r@ == mag(a.digit_seq()) - mag(b.digit_seq()),
{
    match ord_ignore_sign(a, b) {
        Ordering::Less => sub_mag(b, a).neg(),
        Ordering::Equal => LongInt::new(),
        Ordering::Greater => sub_mag(a, b),
    }
}

pub proof fn lemma_pow256_mono(m: nat, n: nat)
    requires
        m <= n,
    ensures
        pow256(m) <= pow256(n),
    decreases n,
{
    if m < n {
        lemma_pow256_mono(m, (n - 1) as nat);
    }
}

pub proof fn lemma_pow256_add(m: nat, n: nat)
    ensures
        pow256(m + n) == pow256(m) * pow256(n),
    decreases n,
{
    if n > 0 {
        let n1 = (n - 1) as nat;
        let k = (m + n1) as nat;
        lemma_pow256_add(m, n1);
        let a = pow256(m);
        let b = pow256(n1);
        assert(pow256(k) == a * b);
        assert(pow256((k + 1) as nat) == 256 * pow256(k));
        assert(pow256(n) == 256 * b);
        assert(256 * (a * b) == a * (256 * b)) by (nonlinear_arith);
        assert((k + 1) as nat == m + n);
    } else {
        assert(pow256(0) == 1);
        assert(m + n == m);
    }
}

/// `mag(a) * d * 256^i`, as a digit vector.
fn mul_row(a: &LongInt, d: u8, i: usize) -> (c: Vec<u8>)
    ensures
        mag(c@) == mag(a.digit_seq()) * d * pow256(i as nat),
{
    let mut c: Vec<u8> = Vec::new();
    let mut k: usize = 0;
    while k < i
        invariant
            k <= i,
            c@.len() == k,
            mag(c@) == 0,
        decreases i - k,
    {
        proof {
            lemma_mag_push(c@, 0);
        }
        c.push(0);
        k = k + 1;
    }
    let la = a.digits.len();
    let mut carry: u32 = 0;
    let mut j: usize = 0;
    proof {
        assert(low(a.digits@, 0) == 0);
        let p = pow256(i as nat);
        assert(0 * d * p == 0) by (nonlinear_arith);
        assert(carry * pow256((i + j) as nat) == 0);
    }
    while j < la
        invariant
            j <= la,
            la == a.digits@.len(),
            c@.len() == i + j,
            carry <= 255,
            mag(c@) + carry * pow256((i + j) as nat) == low(a.digits@, j as nat) * d * pow256(
                i as nat,
            ),
        decreases la - j,
    {
        assert(a.digits@[j as int] as u32 * d as u32 <= 255 * 255) by (nonlinear_arith)
            requires
                a.digits@[j as int] <= 255,
                d <= 255,
        ;
        let m: u32 = a.digits[j] as u32 * d as u32 + carry;
        let x: u8 = (m % 256) as u8;
        let ghost c0 = carry;
        carry = m / 256;
        proof {
            lemma_mag_push(c@, x);
            lemma_pow256_add(i as nat, j as nat);
            let pi = pow256(i as nat);
            let pj = pow256(j as nat);
            let pij = pow256((i + j) as nat);
            assert(pow256((i + j + 1) as nat) == 256 * pij);
            let aj = a.digits@[j as int];
            let lj = low(a.digits@, j as nat);
            assert(low(a.digits@, (j + 1) as nat) == lj + aj * pj);
            assert(x * pij + carry * (256 * pij) == (aj * d + c0) * pij) by (nonlinear_arith)
                requires
                    x + 256 * carry == aj * d + c0,
            ;
            assert((aj * d + c0) * pij + lj * d * pi - c0 * pij == (lj + aj * pj) * d * pi)
                by (nonlinear_arith)
                requires
                    pij == pi * pj,
            ;
        }
        c.push(x);
        j = j + 1;
    }
    proof {
        lemma_mag_push(c@, carry as u8);
        lemma_low_full(a.digits@, la as nat);
    }
    c.push(carry as u8);
    c
}

/// `mag(a) * mag(b)`, as a non-negative value: one shifted row per digit of `b`.
fn mul_ignore_sign(a: &LongInt, b: &LongInt) -> (r: LongInt)
    ensures
        r.positive,
        r.wf(),
        r@ == mag(a.digit_seq()) * mag(b.digit_seq()),
{
    let mut res = LongInt::new();
    let lb = b.digits.len();
    let mut i: usize = 0;
    proof {
        assert(low(b.digits@, 0) == 0);
        let ma = mag(a.digits@);
        assert(ma * 0 == 0) by (nonlinear_arith);
    }
    while i < lb
        invariant
            i <= lb,
            lb == b.digits@.len(),
            res.wf(),
            res.positive,
            res@ == mag(a.digits@) * low(b.digits@, i as nat),
        decreases lb - i,
    {
        let row = LongInt { digits: mul_row(a, b.digits[i], i), positive: true };
        proof {
            let ma = mag(a.digits@);
            let bi = b.digits@[i as int];
            let pi = pow256(i as nat);
            let li = low(b.digits@, i as nat);
            assert(ma * (li + bi * pi) == ma * li + ma * bi * pi) by (nonlinear_arith);
            assert(mag(res.digits@) == res@);
        }
        res = add_ignore_sign(&res, &row);
        i = i + 1;
    }
    proof {
        lemma_low_full(b.digits@, lb as nat);
    }
    res
}

/// `2 * mag(a) + bit`, as a non-negative value.
fn shift_in_bit(a: &LongInt, bit: bool) -> (r: LongInt)
    ensures
        r.positive,
        r.wf(),
        r@ == 2 * mag(a.digit_seq()) + (if bit {
            1int
        } else {
            0int
        }),
{
    let la = a.digits.len();
    let mut v: Vec<u8> = Vec::new();
    let mut carry: u32 = if bit {
        1
    } else {
        0
    };
    let ghost b: int = carry as int;
    let mut j: usize = 0;
    while j < la
        invariant
            j <= la,
            la == a.digits@.len(),
            v@.len() == j,
            carry <= 1,
            mag(v@) + carry * pow256(j as nat) == 2 * low(a.digits@, j as nat) + b,
        decreases la - j,
    {
        let x: u32 = a.digits[j] as u32 * 2 + carry;
        let digit: u8 = (x % 256) as u8;
        let ghost c0 = carry;
        carry = x / 256;
        proof {
            lemma_mag_push(v@, digit);
            let p = pow256(j as nat);
            assert(digit * p + carry * (256 * p) == (x as int) * p) by (nonlinear_arith)
                requires
                    digit + 256 * carry == x,
            ;
            assert((x as int) * p == 2 * (a.digits@[j as int] * p) + c0 * p) by (nonlinear_arith)
                requires
                    x == a.digits@[j as int] * 2 + c0,
            ;
        }
        v.push(digit);
        j = j + 1;
    }
    proof {
        lemma_low_full(a.digits@, la as nat);
        lemma_mag_push(v@, carry as u8);
    }
    v.push(carry as u8);
    LongInt::from_parts(v, true)
}

proof fn lemma_next_bit(x: u32, b: u32)
    requires
        x < 256,
        1 <= b <= 8,
    ensures
        (x >> ((b - 1) as u32)) == 2 * (x >> b) + ((x >> ((b - 1) as u32)) & 1),
        (x >> ((b - 1) as u32)) & 1 <= 1,
{
    assert((x >> ((b - 1) as u32)) == 2 * (x >> b) + ((x >> ((b - 1) as u32)) & 1)) by (bit_vector)
        requires
            x < 256,
            1 <= b <= 8,
    ;
    assert((x >> ((b - 1) as u32)) & 1 <= 1) by (bit_vector);
}

/// Binary long division of the magnitudes: `(mag(n) / mag(d), mag(n) % mag(d))`.
fn div_ignore_sign(n: &LongInt, d: &LongInt) -> (r: (LongInt, LongInt))
    requires
        n.wf(),
        d.wf(),
        mag(d.digit_seq()) > 0,
    ensures
        r.0.wf(),
        r.1.wf(),
        r.0.positive,
        r.1.positive,
        r.0@ == mag(n.digit_seq()) as int / mag(d.digit_seq()) as int,
        r.1@ == mag(n.digit_seq()) as int % mag(d.digit_seq()) as int,
{
    let ghost dd = mag(d.digits@) as int;
    let mut q = LongInt::new();
    let mut r = LongInt::new();
    let ghost mut p: int = 0;
    let mut k: usize = n.digits.len();
    assert(n.digits@.skip(k as int) =~= Seq::<u8>::empty());
    while k > 0
        invariant
            k <= n.digits@.len(),
            q.wf(),
            r.wf(),
            q.positive,
            r.positive,
            d.wf(),
            dd == mag(d.digits@),
            dd > 0,
            0 <= r@ < dd,
            p == q@ * dd + r@,
            p == mag(n.digits@.skip(k as int)),
        decreases k,
    {
        let x: u32 = n.digits[k - 1] as u32;
        let ghost h = p;
        let ghost mut m: int = 1;
        let mut b: u32 = 8;
        assert(x >> 8u32 == 0) by (bit_vector)
            requires
                x < 256,
        ;
        while b > 0
            invariant
                b <= 8,
                x < 256,
                q.wf(),
                r.wf(),
                q.positive,
                r.positive,
                d.wf(),
                dd == mag(d.digits@),
                dd > 0,
                0 <= r@ < dd,
                p == q@ * dd + r@,
                p == h * m + (x >> b),
                m >= 1,
                b == 0 ==> m == 256,
                b == 1 ==> m == 128,
                b == 2 ==> m == 64,
                b == 3 ==> m == 32,
                b == 4 ==> m == 16,
                b == 5 ==> m == 8,
                b == 6 ==> m == 4,
                b == 7 ==> m == 2,
                b == 8 ==> m == 1,
            decreases b,
        {
            proof {
                lemma_next_bit(x, b);
            }
            let bit: bool = (x >> (b - 1)) & 1 == 1;
            let ghost bv: int = ((x >> ((b - 1) as u32)) & 1) as int;
            assert(bit == (bv == 1));
            let ghost q0 = q@;
            let ghost r0 = r@;
            r = shift_in_bit(&r, bit);
            assert(r@ == 2 * r0 + bv);
            match ord_ignore_sign(&r, d) {
                Ordering::Less => {
                    q = shift_in_bit(&q, false);
                },
                _ => {
                    r = sub_mag(&r, d);
                    q = shift_in_bit(&q, true);
                },
            }
            proof {
                assert(2 * (q0 * dd) == (2 * q0) * dd) by (nonlinear_arith);
                assert((2 * q0 + 1) * dd == (2 * q0) * dd + dd) by (nonlinear_arith);
                assert(2 * (h * m) == h * (2 * m)) by (nonlinear_arith);
                p = 2 * p + bv;
                m = 2 * m;
            }
            b = b - 1;
        }
        proof {
            assert(x >> 0u32 == x) by (bit_vector);
            let t = n.digits@.skip(k - 1);
            assert(t.skip(1) =~= n.digits@.skip(k as int));
            assert(mag(t) == t[0] + 256 * mag(t.skip(1)));
        }
        k = k - 1;
    }
    proof {
        assert(n.digits@.skip(0) =~= n.digits@);
        vstd::arithmetic::div_mod::lemma_fundamental_div_mod_converse(
            mag(n.digits@) as int,
            dd,
            q@,
            r@,
        );
    }
    (q, r)
}

/// Adding and then subtracting `b` gives back `a`; so does multiplying by `b` and then dividing
/// by it; and reading back the decimal form of `a` gives `a`.
pub proof fn law_long_int_round_trips(a: LongInt, b: LongInt)
    requires
        a.wf(),
        b.wf(),
        a@ != 0,
        b@ != 0,
    ensures
        (a@ + b@) - b@ == a@,
        tdiv(a@ * b@, b@) == a@,
        is_decimal(dec_str(a@)),
        decimal_value(dec_str(a@)) == a@,
{
    lemma_decimal_round_trip(a@);
    let x = a@;
    let y = b@;
    assert(abs(x * y) == abs(x) * abs(y)) by (nonlinear_arith);
    vstd::arithmetic::div_mod::lemma_div_multiples_vanish(abs(x), abs(y));
    assert(abs(y) * abs(x) == abs(x) * abs(y)) by (nonlinear_arith);
    assert((x * y < 0) == ((x < 0) != (y < 0))) by (nonlinear_arith)
        requires
            x != 0,
            y != 0,
    ;
}

} // verus!
