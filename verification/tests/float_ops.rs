use rigor::fp::{Float, Round};
use rigor::mpn::Limb;
use rigor::testutil::Rng;
use std::cmp::Ordering;

/// Exact value of a finite `f64`.
fn from_f64(v: f64) -> Float {
    assert!(v.is_finite());
    if v == 0.0 {
        return Float::zero();
    }
    let bits = v.to_bits();
    let neg = bits >> 63 == 1;
    let biased = ((bits >> 52) & 0x7FF) as i64;
    let frac = bits & ((1u64 << 52) - 1);
    let (mant, exp2) = if biased == 0 {
        (frac, -1074i64)
    } else {
        (frac | 1 << 52, biased - 1075)
    };
    let m = Float::from_u64(mant).mul_2exp(exp2);
    if neg {
        m.neg()
    } else {
        m
    }
}

/// Nearest-ish `f64` of a float, from its top 64 bits.
fn to_f64(x: &Float) -> f64 {
    match x.exponent() {
        None => 0.0,
        Some(e) => {
            let frac = x.top_bits(64) as f64 * 2f64.powi(-64);
            let v = frac * 2f64.powi(e.clamp(-2000, 2000) as i32);
            if x.is_neg() {
                -v
            } else {
                v
            }
        }
    }
}

/// A random canonical float `±0.L · 2^exp` with up to `max_limbs` limbs.
fn rand_float(rng: &mut Rng, max_limbs: usize, max_exp: i64) -> Float {
    let n = 1 + rng.below(max_limbs as u64) as usize;
    let mut limbs: Vec<Limb> = (0..n).map(|_| rng.next()).collect();
    *limbs.last_mut().unwrap() |= 1 << 63;
    if limbs[0] == 0 {
        limbs[0] = 1;
    }
    let neg = rng.below(2) == 1;
    let exp = rng.range_i64(-max_exp, max_exp);
    let f = Float::from_limbs(&limbs).mul_2exp(exp - 64 * n as i64);
    if neg {
        f.neg()
    } else {
        f
    }
}

#[test]
fn add_exact_small() {
    let two = Float::from_i64(2);
    let three = Float::from_i64(3);
    let (five, inexact) = two.add(&three, 64, Round::Nearest);
    assert!(!inexact);
    assert_eq!(five.cmp(&Float::from_i64(5)), Ordering::Equal);

    let (neg1, inexact) = two.sub(&three, 64, Round::Nearest);
    assert!(!inexact);
    assert_eq!(neg1.cmp(&Float::from_i64(-1)), Ordering::Equal);
}

#[test]
fn cancellation_exact() {
    let big = Float::from_i64(1).mul_2exp(100);
    let (x, in1) = big.add(&Float::from_i64(1), 200, Round::Nearest);
    assert!(!in1);
    let (one, in2) = x.sub(&big, 8, Round::Nearest);
    assert!(!in2);
    assert_eq!(one.cmp(&Float::from_i64(1)), Ordering::Equal);
}

#[test]
fn directed_rounding_brackets_truth() {
    let mut rng = Rng::new(11);
    for _ in 0..500 {
        let a = rand_float(&mut rng, 4, 100);
        let b = rand_float(&mut rng, 4, 100);
        let prec = 2 + rng.below(150) as u32;
        for op in 0..2 {
            let (lo, _) = if op == 0 {
                a.add(&b, prec, Round::Floor)
            } else {
                a.mul(&b, prec, Round::Floor)
            };
            let (hi, _) = if op == 0 {
                a.add(&b, prec, Round::Ceil)
            } else {
                a.mul(&b, prec, Round::Ceil)
            };
            let (mid, _) = if op == 0 {
                a.add(&b, prec, Round::Nearest)
            } else {
                a.mul(&b, prec, Round::Nearest)
            };
            assert!(lo.cmp(&hi) != Ordering::Greater);
            assert!(lo.cmp(&mid) != Ordering::Greater);
            assert!(mid.cmp(&hi) != Ordering::Greater);
            let (exact, ie) = if op == 0 {
                a.add(&b, 64 * 8 + 128, Round::Nearest)
            } else {
                a.mul(&b, 64 * 8 + 128, Round::Nearest)
            };
            assert!(!ie, "high-precision reference should be exact here");
            assert!(lo.cmp(&exact) != Ordering::Greater);
            assert!(exact.cmp(&hi) != Ordering::Greater);
        }
    }
}

#[test]
fn mul_matches_u128() {
    let mut rng = Rng::new(12);
    for _ in 0..1000 {
        let a = rng.next() >> rng.below(32);
        let b = rng.next() >> rng.below(32);
        let fa = Float::from_u64(a);
        let fb = Float::from_u64(b);
        let (p, inexact) = fa.mul(&fb, 128, Round::Nearest);
        assert!(!inexact);
        let expect = a as u128 * b as u128;
        let s = p.to_decimal(40);
        assert_eq!(s, expect.to_string());
    }
}

#[test]
fn div_exact_small() {
    let six = Float::from_i64(6);
    let three = Float::from_i64(3);
    let (two, inexact) = six.div(&three, 64, Round::Nearest);
    assert!(!inexact);
    assert_eq!(two.cmp(&Float::from_i64(2)), Ordering::Equal);
    let (_, inexact) = Float::from_i64(1).div(&three, 64, Round::Nearest);
    assert!(inexact);
}

#[test]
fn sqrt_squares() {
    for v in [1u64, 4, 9, 144, 1 << 40, 10_000_000_000_000_000_002] {
        let f = Float::from_u64(v);
        let (s, inexact) = f.sqrt(200, Round::Nearest);
        let (sq, _) = s.mul(&s, 200, Round::Nearest);
        let (diff, _) = sq.sub(&f, 200, Round::Up);
        if (v as f64).sqrt().fract() == 0.0 && v < 1 << 52 {
            assert!(!inexact, "sqrt({v}) should be exact");
            assert!(diff.is_zero());
        } else if !diff.is_zero() {
            assert!(diff.exponent().unwrap() < f.exponent().unwrap() - 190);
        }
    }
}

#[test]
fn sqrt_directed_brackets() {
    let mut rng = Rng::new(14);
    for _ in 0..200 {
        let a = rand_float(&mut rng, 3, 80).abs();
        if a.is_zero() {
            continue;
        }
        let prec = 2 + rng.below(200) as u32;
        let (lo, _) = a.sqrt(prec, Round::Floor);
        let (hi, _) = a.sqrt(prec, Round::Ceil);
        assert!(lo.cmp(&hi) != Ordering::Greater);
        let (lo2, _) = lo.mul(&lo, 2048, Round::Nearest);
        let (hi2, _) = hi.mul(&hi, 2048, Round::Nearest);
        assert!(lo2.cmp(&a) != Ordering::Greater, "lo^2 > a");
        assert!(hi2.cmp(&a) != Ordering::Less, "hi^2 < a");
    }
}

#[test]
fn decimal_output() {
    assert_eq!(Float::from_i64(0).to_decimal(10), "0");
    assert_eq!(Float::from_i64(42).to_decimal(10), "42");
    assert_eq!(Float::from_i64(-42).to_decimal(10), "-42");
    let (q, _) = Float::from_i64(1).div(&Float::from_i64(4), 64, Round::Nearest);
    assert_eq!(q.to_decimal(6), "0.25");
    let (q, _) = Float::from_i64(1).div(&Float::from_i64(3), 256, Round::Nearest);
    assert_eq!(q.to_decimal(11), "0.33333333333");
}

#[test]
fn decimal_truncates_and_trims() {
    // 2.75 with 2 significant digits: the fraction is cut, not rounded.
    let (x, _) = Float::from_i64(11).div(&Float::from_i64(4), 64, Round::Nearest);
    assert_eq!(x.to_decimal(2), "2.7");
    assert_eq!(x.to_decimal(10), "2.75");
    // Integer part longer than the digit budget is kept whole.
    assert_eq!(Float::from_i64(123456).to_decimal(3), "123456");
    // Fraction digits that are all zero leave no point behind.
    let (tiny, _) = Float::from_i64(1).div(&Float::from_i64(1 << 20), 64, Round::Nearest);
    let (y, _) = Float::from_i64(5).add(&tiny, 128, Round::Nearest);
    assert_eq!(y.to_decimal(4), "5");
    assert_eq!(tiny.neg().to_decimal(3), "-0");
    // Large integer with a zero fraction part.
    assert_eq!(Float::from_i64(1).mul_2exp(70).to_decimal(5), "1180591620717411303424");
}

#[test]
fn rounding_modes_on_exact_tie() {
    // 5 = 0b101 at 2 bits lies halfway between 4 and 6: ties go to even (4).
    let five = Float::from_i64(5);
    let (r, inexact) = five.round(2, Round::Nearest);
    assert!(inexact);
    assert_eq!(r.cmp(&Float::from_i64(4)), Ordering::Equal);
    let (r, _) = Float::from_i64(7).round(2, Round::Nearest);
    assert_eq!(r.cmp(&Float::from_i64(8)), Ordering::Equal);
    let (r, _) = five.round(2, Round::Floor);
    assert_eq!(r.cmp(&Float::from_i64(4)), Ordering::Equal);
    let (r, _) = five.round(2, Round::Ceil);
    assert_eq!(r.cmp(&Float::from_i64(6)), Ordering::Equal);
    let (r, _) = five.neg().round(2, Round::Down);
    assert_eq!(r.cmp(&Float::from_i64(-4)), Ordering::Equal);
    let (r, _) = five.neg().round(2, Round::Up);
    assert_eq!(r.cmp(&Float::from_i64(-6)), Ordering::Equal);
    let (r, inexact) = five.round(3, Round::Nearest);
    assert!(!inexact);
    assert_eq!(r.cmp(&five), Ordering::Equal);
}

#[test]
fn sign_exponent_and_scaling() {
    let x = Float::from_i64(-12);
    assert!(x.is_neg());
    assert_eq!(x.signum(), -1);
    assert_eq!(Float::zero().signum(), 0);
    assert_eq!(x.exponent(), Some(4));
    assert_eq!(Float::zero().exponent(), None);
    assert_eq!(x.bit_len(), 2);
    assert_eq!(x.abs().cmp(&Float::from_i64(12)), Ordering::Equal);
    assert_eq!(x.mul_2exp(-2).cmp(&Float::from_i64(-3)), Ordering::Equal);
    assert_eq!(x.ulp_exp(10), Some(-6));
    assert_eq!(Float::from_u64(0b1011 << 60).top_bits(4), 0b1011);
    let mut y = Float::from_i64(7);
    y.neg_assign();
    assert_eq!(y.cmp(&Float::from_i64(-7)), Ordering::Equal);
    assert_eq!(x.cmp_abs(&Float::from_i64(11)), Ordering::Greater);
    assert_eq!(x.cmp(&Float::from_i64(11)), Ordering::Less);
}

#[test]
fn mul_u64_and_isqrt() {
    let (p, inexact) = Float::from_i64(-3).mul_u64(7, 64, Round::Nearest);
    assert!(!inexact);
    assert_eq!(p.cmp(&Float::from_i64(-21)), Ordering::Equal);
    let (r, exact) = rigor::fp::isqrt(&[0, 0, 1]);
    assert_eq!(r, vec![0, 1]);
    assert!(exact);
    let (r, exact) = rigor::fp::isqrt(&[99]);
    assert_eq!(r, vec![9]);
    assert!(!exact);
}

#[test]
fn div_sqrt_directed() {
    let one = Float::from_i64(1);
    let three = Float::from_i64(3);
    let (lo, _) = one.div(&three, 30, Round::Floor);
    let (hi, _) = one.div(&three, 30, Round::Ceil);
    assert_eq!(lo.cmp(&hi), Ordering::Less);
    let (lo3, _) = lo.mul(&three, 200, Round::Nearest);
    let (hi3, _) = hi.mul(&three, 200, Round::Nearest);
    assert_eq!(lo3.cmp(&one), Ordering::Less);
    assert_eq!(hi3.cmp(&one), Ordering::Greater);
    let (s, inexact) = Float::from_i64(2).sqrt(64, Round::Down);
    assert!(inexact);
    assert_eq!(s.to_decimal(12), "1.41421356237");
}

#[test]
fn from_to_small_ints() {
    for v in [0i64, 1, -1, 2, 7, -1000, i64::MAX, i64::MIN + 1] {
        let f = Float::from_i64(v);
        assert_eq!(to_f64(&f), v as f64, "roundtrip {v}");
    }
}

#[test]
fn add_matches_f64() {
    let mut rng = Rng::new(10);
    for _ in 0..2000 {
        let a = (rng.next() as i32 as f64) * 2f64.powi((rng.below(40) as i32) - 20);
        let b = (rng.next() as i32 as f64) * 2f64.powi((rng.below(40) as i32) - 20);
        let fa = from_f64(a);
        let fb = from_f64(b);
        let (sum, _) = fa.add(&fb, 120, Round::Nearest);
        let expect = a + b;
        if (a + b).is_finite() {
            let diff = (to_f64(&sum) - expect).abs();
            let tol = expect.abs() * 1e-15 + 1e-300;
            assert!(diff <= tol, "a={a} b={b} got={} want={expect}", to_f64(&sum));
        }
    }
}

#[test]
fn div_mul_roundtrip() {
    let mut rng = Rng::new(13);
    for _ in 0..300 {
        let a = rand_float(&mut rng, 3, 60);
        let b = rand_float(&mut rng, 3, 60);
        if b.is_zero() {
            continue;
        }
        let prec = 320;
        let (q, _) = a.div(&b, prec, Round::Nearest);
        let (back, _) = q.mul(&b, prec, Round::Nearest);
        let (diff, _) = back.sub(&a, prec, Round::Up);
        if !diff.is_zero() {
            let tol_exp = a.exponent().unwrap() - prec as i64 + 4;
            assert!(
                diff.exponent().unwrap() <= tol_exp,
                "residual too large: {} vs 2^{tol_exp}",
                to_f64(&diff)
            );
        }
    }
}

#[test]
fn rounding_to_nearest_ties_even() {
    let f = from_f64(2.5);
    let (r, inexact) = f.round(2, Round::Nearest);
    assert!(inexact);
    assert_eq!(r.cmp(&Float::from_i64(2)), Ordering::Equal);
    let f = from_f64(3.5);
    let (r, _) = f.round(2, Round::Nearest);
    assert_eq!(r.cmp(&Float::from_i64(4)), Ordering::Equal);
}
