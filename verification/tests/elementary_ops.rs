use rigor::ball::Ball;
use rigor::constants;
use rigor::elementary::{atan, exp, arg_in_range, ln, sin_cos, try_ln};
use rigor::mag::Mag;
use rigor::testutil::Rng;
use rigor::Float;

/// Exact value of a finite `f64`.
fn from_f64(v: f64) -> Float {
    assert!(v.is_finite());
    if v == 0.0 {
        return Float::zero();
    }
    let bits = v.to_bits();
    let neg = bits >> 63 == 1;
    let biased = ((bits >> 52) & 0x7FF) as i64;
    let frac = bits & ((1u64 << 52) - 1);
    let (mant, exp2) = if biased == 0 {
        (frac, -1074i64)
    } else {
        (frac | 1 << 52, biased - 1075)
    };
    let m = Float::from_u64(mant).mul_2exp(exp2);
    if neg {
        m.neg()
    } else {
        m
    }
}

fn ball_from_f64(v: f64) -> Ball {
    Ball::exact(from_f64(v))
}

/// f64 reference must land inside the ball, allowing f64's own error.
fn assert_close_f64(b: &Ball, want: f64, what: &str) {
    let widened = b.add_error(&Mag::from_float_upper(&from_f64(want.abs() * 1e-13 + 1e-300)));
    assert!(
        widened.contains(&from_f64(want)),
        "{what}: ball {} vs f64 {want}",
        b.to_string_digits(25)
    );
}

#[test]
fn exp_matches_f64() {
    let mut rng = Rng::new(40);
    for _ in 0..60 {
        let v = (rng.range_i64(-6000, 6000) as f64) / 1000.0;
        let b = exp(&ball_from_f64(v), 64);
        assert_close_f64(&b, v.exp(), &format!("exp({v})"));
    }
}

#[test]
fn exp_known_values() {
    let e = exp(&Ball::from_i64(1), 200);
    let s = e.mid().to_decimal(45);
    assert!(s.starts_with("2.7182818284590452353602874713526624977572"), "e = {s}");
    assert!(e.rel_accuracy_bits() >= 190, "acc {}", e.rel_accuracy_bits());
    let one = exp(&Ball::zero(), 64);
    assert!(one.is_exact());
}

#[test]
fn exp_functional_equation() {
    let mut rng = Rng::new(41);
    for _ in 0..20 {
        let a = ball_from_f64((rng.range_i64(-3000, 3000) as f64) / 1000.0);
        let b = ball_from_f64((rng.range_i64(-3000, 3000) as f64) / 1000.0);
        let prec = 128;
        let lhs = exp(&a, prec).mul(&exp(&b, prec), prec);
        let rhs = exp(&a.add(&b, prec), prec);
        let diff = lhs.sub(&rhs, prec);
        assert!(diff.contains(&Float::zero()), "exp homomorphism violated");
    }
}

#[test]
fn ln_matches_f64() {
    let mut rng = Rng::new(42);
    for _ in 0..60 {
        let v = (rng.below(1_000_000) as f64 + 1.0) / 1000.0;
        let b = ln(&ball_from_f64(v), 64);
        assert_close_f64(&b, v.ln(), &format!("ln({v})"));
    }
}

#[test]
fn ln_exp_roundtrip() {
    let mut rng = Rng::new(43);
    for _ in 0..15 {
        let v = (rng.range_i64(-4000, 4000) as f64) / 1000.0;
        let prec = 192;
        let x = ball_from_f64(v);
        let back = ln(&exp(&x, prec), prec);
        let diff = back.sub(&x, prec);
        assert!(diff.contains(&Float::zero()), "ln(exp({v})) != {v}");
        assert!(diff.rad().exp() < -150, "roundtrip too imprecise: rad 2^{}", diff.rad().exp());
    }
}

#[test]
fn ln_rejects_nonpositive() {
    assert!(try_ln(&Ball::zero(), 64).is_none());
    assert!(try_ln(&Ball::from_i64(-3), 64).is_none());
    assert!(try_ln(&Ball::new(from_f64(0.001), Mag::two_exp(0)), 64).is_none());
}

#[test]
fn atan_matches_f64() {
    let mut rng = Rng::new(44);
    for _ in 0..60 {
        let v = (rng.range_i64(-500_000, 500_000) as f64) / 1000.0;
        let b = atan(&ball_from_f64(v), 64);
        assert_close_f64(&b, v.atan(), &format!("atan({v})"));
    }
}

#[test]
fn atan_one_is_quarter_pi() {
    let prec = 256;
    let q = atan(&Ball::from_i64(1), prec);
    let pi4 = constants::pi(prec).mul_2exp(-2);
    let diff = q.sub(&pi4, prec);
    assert!(diff.contains(&Float::zero()));
    assert!(q.rel_accuracy_bits() >= 240);
}

#[test]
fn sin_cos_match_f64() {
    let mut rng = Rng::new(45);
    for _ in 0..60 {
        let v = (rng.range_i64(-100_000, 100_000) as f64) / 1000.0;
        let (s, c) = sin_cos(&ball_from_f64(v), 64);
        assert_close_f64(&s, v.sin(), &format!("sin({v})"));
        assert_close_f64(&c, v.cos(), &format!("cos({v})"));
    }
}

#[test]
fn sin_cos_pythagorean() {
    let mut rng = Rng::new(46);
    for _ in 0..15 {
        let v = (rng.range_i64(-50_000, 50_000) as f64) / 1000.0;
        let prec = 160;
        let (s, c) = sin_cos(&ball_from_f64(v), prec);
        let one = s.mul(&s, prec).add(&c.mul(&c, prec), prec);
        let diff = one.sub(&Ball::from_i64(1), prec);
        assert!(diff.contains(&Float::zero()), "sin²+cos² ∌ 1 at {v}");
        assert!(diff.rad().exp() < -120, "pythagorean too wide at {v}");
    }
}

#[test]
fn high_precision_self_consistency() {
    let prec = 3500;
    let x = Ball::from_i64(7);
    let y = exp(&ln(&x, prec), prec);
    let diff = y.sub(&x, prec);
    assert!(diff.contains(&Float::zero()));
    assert!(diff.rad().exp() < -(prec as i64) + 60, "rad 2^{}", diff.rad().exp());
}

#[test]
fn elementary_special_cases() {
    let z = ln(&Ball::from_i64(1), 64);
    assert!(z.is_exact());
    assert!(z.contains(&Float::zero()));
    let wide = atan(&Ball::new(Float::zero(), Mag::two_exp(50)), 64);
    assert_eq!(wide.to_string_digits(5), "[0 ± 2^2]");
    let (s, c) = sin_cos(&Ball::new(Float::zero(), Mag::two_exp(5)), 64);
    assert_eq!(s.to_string_digits(5), "[0 ± 2^1]");
    assert_eq!(c.to_string_digits(5), "[0 ± 2^1]");
    let s0 = rigor::elementary::sin(&Ball::zero(), 64);
    assert!(s0.contains(&Float::zero()));
    let c0 = rigor::elementary::cos(&Ball::zero(), 64);
    assert!(c0.contains(&Float::from_i64(1)));
}

#[test]
fn exp_argument_range() {
    assert!(arg_in_range(&Ball::from_i64(1)));
    assert!(arg_in_range(&Ball::from_i64(-1_000_000)));
    let big = Ball::exact(Float::from_i64(1).mul_2exp(45));
    assert!(!arg_in_range(&big));
    let edge = Ball::exact(Float::from_i64(1).mul_2exp(40));
    assert!(!arg_in_range(&edge));
}
