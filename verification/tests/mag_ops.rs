use rigor::fp::{Float, Round};
use rigor::mag::Mag;
use rigor::testutil::Rng;
use std::cmp::Ordering;

/// Exact value of a finite `f64`.
fn from_f64(v: f64) -> Float {
    assert!(v.is_finite());
    if v == 0.0 {
        return Float::zero();
    }
    let bits = v.to_bits();
    let neg = bits >> 63 == 1;
    let biased = ((bits >> 52) & 0x7FF) as i64;
    let frac = bits & ((1u64 << 52) - 1);
    let (mant, exp2) = if biased == 0 {
        (frac, -1074i64)
    } else {
        (frac | 1 << 52, biased - 1075)
    };
    let m = Float::from_u64(mant).mul_2exp(exp2);
    if neg {
        m.neg()
    } else {
        m
    }
}

/// Nearest-ish `f64` of a float, from its top 64 bits.
fn to_f64(x: &Float) -> f64 {
    match x.exponent() {
        None => 0.0,
        Some(e) => {
            let frac = x.top_bits(64) as f64 * 2f64.powi(-64);
            let v = frac * 2f64.powi(e.clamp(-2000, 2000) as i32);
            if x.is_neg() {
                -v
            } else {
                v
            }
        }
    }
}

#[test]
fn two_exp_value() {
    let m = Mag::two_exp(10);
    assert_eq!(m.to_float().cmp(&Float::from_i64(1024)), Ordering::Equal);
    let m = Mag::two_exp(-3);
    let (eighth, _) = Float::from_i64(1).div(&Float::from_i64(8), 64, Round::Nearest);
    assert_eq!(m.to_float().cmp(&eighth), Ordering::Equal);
}

#[test]
fn mag_bounds_round_up() {
    // 2^31 + 1 needs 32 bits; a 30-bit mantissa must round it up.
    let v: u64 = (1 << 31) + 1;
    let m = Mag::from_u64_upper(v);
    assert_eq!(m.to_float().cmp(&Float::from_u64(v)), Ordering::Greater);
    assert_eq!(m.to_float().cmp(&Float::from_u64(v + 3)), Ordering::Equal);
    assert_eq!(Mag::from_u64_upper(1000).to_float().cmp(&Float::from_i64(1000)), Ordering::Equal);
    let f = Float::from_i64(-5).mul_2exp(-3);
    let mf = Mag::from_float_upper(&f);
    assert_eq!(mf.to_float().cmp(&f.abs()), Ordering::Greater);
    assert!(Mag::zero().is_zero());
    assert_eq!(Mag::two_exp(5).exp(), 6);
}

#[test]
fn mag_arithmetic_upper_bounds() {
    let a = Mag::from_u64_upper(3);
    let b = Mag::two_exp(-2);
    let s = a.add_up(&b);
    let (exact, _) = Float::from_i64(13).div(&Float::from_i64(4), 64, Round::Nearest);
    assert_eq!(s.to_float().cmp(&exact), Ordering::Greater);
    let (slack, _) = exact.add(&Float::from_i64(1).mul_2exp(-27), 64, Round::Nearest);
    assert_eq!(s.to_float().cmp(&slack), Ordering::Less);
    let p = a.mul_up(&Mag::from_u64_upper(5));
    assert_eq!(p.to_float().cmp(&Float::from_i64(15)), Ordering::Equal);
    assert_eq!(a.mul_2exp(4).to_float().cmp(&Float::from_i64(48)), Ordering::Equal);
    assert_eq!(a.max(&b).cmp(&a), Ordering::Equal);
    assert_eq!(b.cmp(&a), Ordering::Less);
    assert_eq!(Mag::zero().cmp(&b), Ordering::Less);
    assert_eq!(Mag::zero().add_up(&b).cmp(&b), Ordering::Equal);
}

#[test]
fn upper_bound_from_float() {
    let mut rng = Rng::new(20);
    for _ in 0..2000 {
        let v = f64::from_bits(rng.next() % (1023u64 << 52));
        if !v.is_finite() || v == 0.0 {
            continue;
        }
        let f = from_f64(v.abs());
        let m = Mag::from_float_upper(&f);
        assert!(
            m.to_float().cmp(&f) != Ordering::Less,
            "Mag {} < float {}",
            to_f64(&m.to_float()),
            v.abs()
        );
    }
}

#[test]
fn add_mul_are_upper_bounds() {
    let mut rng = Rng::new(21);
    for _ in 0..2000 {
        let a = Mag::from_u64_upper(rng.next() >> (rng.next() % 60));
        let b = Mag::from_u64_upper(rng.next() >> (rng.next() % 60));
        let s = a.add_up(&b);
        let p = a.mul_up(&b);
        let (fs, _) = a.to_float().add(&b.to_float(), 128, Round::Nearest);
        let (fp, _) = a.to_float().mul(&b.to_float(), 128, Round::Nearest);
        assert!(s.to_float().cmp(&fs) != Ordering::Less, "add not upper");
        assert!(p.to_float().cmp(&fp) != Ordering::Less, "mul not upper");
        let slack = from_f64(1.0 + 1e-7);
        let (fs_hi, _) = fs.mul(&slack, 64, Round::Up);
        let (fp_hi, _) = fp.mul(&slack, 64, Round::Up);
        assert!(s.to_float().cmp(&fs_hi) != Ordering::Greater, "add too loose");
        assert!(p.to_float().cmp(&fp_hi) != Ordering::Greater, "mul too loose");
    }
}

#[test]
fn mag_exact_below_thirty_bits() {
    let v: u64 = (1 << 30) - 1;
    let m = Mag::from_u64_upper(v);
    assert_eq!(m.to_float().cmp(&Float::from_u64(v)), Ordering::Equal);
    let w: u64 = 1 << 30;
    let m = Mag::from_u64_upper(w);
    assert_eq!(m.to_float().cmp(&Float::from_u64(w)), Ordering::Greater);
}

#[test]
fn mag_add_zero_returns_other() {
    let z = Mag::zero();
    let t = Mag::two_exp(5);
    assert_eq!(z.add_up(&t), t);
    assert_eq!(t.add_up(&z), t);
    assert!(z.add_up(&z).is_zero());
}

#[test]
fn mag_float_upper_is_tight() {
    // 3^25 needs 40 bits; the 30-bit bound exceeds it by under 2^-29 relative.
    let f = Float::from_u64(847_288_609_443);
    let m = Mag::from_float_upper(&f).to_float();
    assert_ne!(m.cmp(&f), Ordering::Less);
    let (slack, _) = f.mul_2exp(-29).add(&f, 256, Round::Nearest);
    assert_ne!(m.cmp(&slack), Ordering::Greater);
}
