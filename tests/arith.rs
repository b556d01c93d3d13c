use linalg::fraction::Fraction;
use std::cmp::Ordering;
use linalg::longint::LongInt;

fn li(x: i64) -> LongInt {
    LongInt::from_i64(x)
}

fn dec(x: &LongInt) -> String {
    x.to_decimal()
}

fn frac(den: i64, num: i64) -> Fraction {
    Fraction::new(li(den), li(num))
}

fn show(f: &Fraction) -> String {
    format!("{}/{}", dec(f.numerator()), dec(f.denominator()))
}

#[test]
fn long_int_product_formats_in_decimal() {
    assert_eq!(dec(&li(300).mul(&li(300))), "90000");
}

#[test]
fn long_int_decimal_forms() {
    assert_eq!(dec(&LongInt::new()), "0");
    assert_eq!(dec(&li(7)), "7");
    assert_eq!(dec(&li(-1234567)), "-1234567");
    assert_eq!(dec(&li(i64::MIN)), "-9223372036854775808");
    assert_eq!(dec(&li(i64::MAX)), "9223372036854775807");
}

#[test]
fn long_int_large_products() {
    let a = li(i64::MAX);
    let sq = a.mul(&a);
    assert_eq!(dec(&sq), "85070591730234615847396907784232501249");
    let back = sq.div(&a);
    assert_eq!(dec(&back), "9223372036854775807");
    assert!(sq.rem(&a).is_zero());
}

#[test]
fn long_int_add_then_sub_gives_back() {
    let cases = [(5, 3), (-5, 3), (5, -3), (-5, -3), (1, -1), (255, 1), (65535, -65536)];
    for (a, b) in cases {
        let x = li(a);
        let y = li(b);
        let r = x.add(&y).sub(&y);
        assert!(r.equals(&x), "{} {}", a, b);
        assert_eq!(dec(&x.add(&y)), (a + b).to_string());
        assert_eq!(dec(&x.sub(&y)), (a - b).to_string());
    }
}

#[test]
fn long_int_mul_then_div_gives_back() {
    let cases = [(12, 7), (-12, 7), (12, -7), (-12, -7), (1, 256), (123456789, -987654321)];
    for (a, b) in cases {
        let x = li(a);
        let y = li(b);
        let r = x.mul(&y).div(&y);
        assert!(r.equals(&x), "{} {}", a, b);
    }
}

#[test]
fn long_int_division_rounds_toward_zero() {
    assert_eq!(dec(&li(-7).div(&li(2))), "-3");
    assert_eq!(dec(&li(-7).rem(&li(2))), "-1");
    assert_eq!(dec(&li(7).div(&li(-2))), "-3");
    assert_eq!(dec(&li(7).rem(&li(-2))), "1");
    assert_eq!(dec(&li(100).div(&li(10))), "10");
    assert_eq!(dec(&li(3).div(&li(10))), "0");
    assert_eq!(dec(&li(1000).rem(&li(7))), "6");
}

#[test]
fn long_int_decimal_round_trip() {
    for x in [0i64, 1, -1, 10, -10, 99999, -123456789012345, i64::MIN] {
        let v = li(x);
        let s = v.to_decimal();
        let back = LongInt::from_decimal(&s).unwrap();
        assert!(back.equals(&v), "{}", x);
    }
    let big = "-340282366920938463463374607431768211456";
    assert_eq!(dec(&LongInt::from_decimal(big).unwrap()), big);
}

#[test]
fn long_int_rejects_malformed_decimal() {
    assert!(LongInt::from_decimal("").is_none());
    assert!(LongInt::from_decimal("-").is_none());
    assert!(LongInt::from_decimal("12a").is_none());
    assert!(LongInt::from_decimal("+5").is_none());
    assert!(LongInt::from_decimal(" 5").is_none());
}

#[test]
fn long_int_hex_forms() {
    assert_eq!(LongInt::new().to_hex(), "|00|");
    assert_eq!(li(255).to_hex(), "|FF|");
    assert_eq!(li(256).to_hex(), "|00|01|");
    assert_eq!(li(-1).to_hex(), "-|01|");
    assert_eq!(li(0x1A2B).to_hex(), "|2B|1A|");
}

#[test]
fn long_int_compare_and_abs() {

    assert_eq!(li(-3).compare(&li(2)), Ordering::Less);
    assert_eq!(li(3).compare(&li(-2)), Ordering::Greater);
    assert_eq!(li(-3).compare(&li(-2)), Ordering::Less);
    assert_eq!(li(300).compare(&li(256)), Ordering::Greater);
    assert_eq!(li(300).compare(&li(300)), Ordering::Equal);
    assert_eq!(dec(&li(-42).abs()), "42");
    assert_eq!(dec(&li(42).neg()), "-42");
    assert_eq!(dec(&LongInt::new().neg()), "0");
    assert!(LongInt::new().neg().equals(&LongInt::new()));
}

#[test]
fn long_int_digits() {
    let mut x = li(0x0102);
    assert_eq!(x.get(0), 2);
    assert_eq!(x.get(1), 1);
    assert_eq!(x.get(5), 0);
    x.set(3, 1);
    assert_eq!(dec(&x), (0x01000102i64).to_string());
    x.set(3, 0);
    assert_eq!(dec(&x), "258");
    let mut z = li(-5);
    z.set(0, 0);
    assert!(z.is_zero());
    assert_eq!(dec(&z), "0");
}

#[test]
fn fraction_reduces() {
    let f = frac(4, 6);
    assert_eq!(dec(f.numerator()), "3");
    assert_eq!(dec(f.denominator()), "2");
}

#[test]
fn fraction_sign_lives_in_numerator() {
    assert_eq!(show(&frac(-4, 6)), "-3/2");
    assert_eq!(show(&frac(4, -6)), "-3/2");
    assert_eq!(show(&frac(-4, -6)), "3/2");
    assert_eq!(show(&frac(-7, 0)), "0/1");
    assert_eq!(show(&frac(12, 18)), "3/2");
    assert_eq!(show(&frac(35, -14)), "-2/5");
}

#[test]
fn fraction_always_coprime() {
    for d in [-12i64, -7, -1, 1, 3, 9, 100] {
        for n in [-30i64, -9, -1, 1, 2, 15, 64] {
            let f = frac(d, n);
            let num = f.numerator().abs();
            let den = f.denominator().abs();
            let mut a = num.abs();
            let mut b = den.abs();
            while !b.is_zero() {
                let r = a.rem(&b);
                a = b;
                b = r;
            }
            assert_eq!(dec(&a), "1", "{}/{}", n, d);
            assert_eq!(dec(&f.denominator().abs()), dec(f.denominator()));
            assert_eq!(f.numerator().compare(&LongInt::new()) == std::cmp::Ordering::Less, (n < 0) != (d < 0));
        }
    }
}

#[test]
fn fraction_arithmetic() {
    let a = frac(2, 1);
    let b = frac(3, 1);
    assert_eq!(show(&a.add(&b)), "5/6");
    assert_eq!(show(&a.sub(&b)), "1/6");
    assert_eq!(show(&a.mul(&b)), "1/6");
    assert_eq!(show(&a.div(&b)), "3/2");
    assert_eq!(show(&a.neg()), "-1/2");
    assert_eq!(show(&a.neg().abs()), "1/2");
    assert_eq!(show(&a.sub(&a)), "0/1");
    assert!(a.sub(&a).is_zero());
    assert_eq!(show(&Fraction::from_integer(li(-4))), "-4/1");
}
