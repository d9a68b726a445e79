use rigor::ball::Ball;
use rigor::constants;
use rigor::elementary;
use rigor::gamma::{gamma, ln_gamma, try_gamma};
use rigor::zeta::{try_zeta, zeta};
use rigor::Float;
use rigor::mag::Mag;

/// Exact value of a finite `f64`.
fn from_f64(v: f64) -> Float {
    assert!(v.is_finite());
    if v == 0.0 {
        return Float::zero();
    }
    let bits = v.to_bits();
    let neg = bits >> 63 == 1;
    let biased = ((bits >> 52) & 0x7FF) as i64;
    let frac = bits & ((1u64 << 52) - 1);
    let (mant, exp2) = if biased == 0 {
        (frac, -1074i64)
    } else {
        (frac | 1 << 52, biased - 1075)
    };
    let m = Float::from_u64(mant).mul_2exp(exp2);
    if neg {
        m.neg()
    } else {
        m
    }
}

fn ball_from_f64(v: f64) -> Ball {
    Ball::exact(from_f64(v))
}

#[test]
fn gamma_integers_are_factorials() {
    let mut fact = 1u64;
    for n in 1..=10u64 {
        if n > 1 {
            fact *= n - 1;
        }
        let g = gamma(&Ball::from_u64(n), 128);
        assert!(g.contains(&Float::from_u64(fact)), "Γ({n}) should be {fact}, got {}", g.to_string_digits(25));
        assert!(g.rel_accuracy_bits() >= 120);
    }
}

#[test]
fn gamma_half_is_sqrt_pi() {
    let prec = 512;
    let g = gamma(&ball_from_f64(0.5), prec);
    let sp = constants::pi(prec + 16).sqrt(prec + 16);
    let d = g.sub(&sp, prec);
    assert!(d.contains(&Float::zero()), "Γ(1/2) ≠ √π");
    assert!(g.rel_accuracy_bits() >= prec as i64 - 8);
}

#[test]
fn functional_equation() {
    for xv in [0.75f64, 1.5, 3.25, 10.125] {
        let prec = 256;
        let x = ball_from_f64(xv);
        let lhs = gamma(&x.add(&Ball::from_i64(1), prec + 32), prec);
        let rhs = x.mul(&gamma(&x, prec), prec);
        let d = lhs.sub(&rhs, prec);
        assert!(d.contains(&Float::zero()), "Γ(x+1) ≠ xΓ(x) at {xv}");
    }
}

#[test]
fn reflection() {
    let prec = 320;
    let third = Ball::from_i64(1).div_u64(3, prec + 32);
    let g13 = gamma(&third, prec);
    let g23 = gamma(&Ball::from_i64(2).div_u64(3, prec + 32), prec);
    let lhs = g13.mul(&g23, prec);
    let pi = constants::pi(prec + 32);
    let rhs = pi.mul_2exp(1).div(&Ball::from_i64(3).sqrt(prec + 32), prec);
    let d = lhs.sub(&rhs, prec);
    assert!(d.contains(&Float::zero()), "reflection identity failed");
}

#[test]
fn negative_argument() {
    let prec = 256;
    let g = gamma(&ball_from_f64(-0.5), prec);
    let want = constants::pi(prec + 16).sqrt(prec + 16).mul_i64(-2, prec + 16);
    let d = g.sub(&want, prec);
    assert!(d.contains(&Float::zero()), "Γ(−1/2) ≠ −2√π");
}

#[test]
fn pole_detection() {
    assert!(try_gamma(&Ball::from_i64(0), 64).is_none());
    assert!(try_gamma(&Ball::from_i64(-3), 64).is_none());
    assert!(try_gamma(&Ball::from_i64(5), 64).is_some());
}

#[test]
fn ln_gamma_consistency() {
    let prec = 256;
    let x = ball_from_f64(7.25);
    let lg = ln_gamma(&x, prec);
    let g = gamma(&x, prec);
    let d = elementary::exp(&lg, prec).sub(&g, prec);
    assert!(d.contains(&Float::zero()), "exp(lnΓ) ≠ Γ");
}

#[test]
fn zeta_two_is_pi2_over_6() {
    let prec = 512;
    let z = zeta(&Ball::from_i64(2), prec);
    let pi = constants::pi(prec + 32);
    let want = pi.mul(&pi, prec + 32).div_u64(6, prec + 32);
    let d = z.sub(&want, prec);
    assert!(d.contains(&Float::zero()), "ζ(2) ≠ π²/6: {}", z.to_string_digits(30));
    assert!(z.rel_accuracy_bits() >= prec as i64 - 8);
}

#[test]
fn zeta_four_is_pi4_over_90() {
    let prec = 320;
    let z = zeta(&Ball::from_i64(4), prec);
    let pi = constants::pi(prec + 32);
    let p2 = pi.mul(&pi, prec + 32);
    let want = p2.mul(&p2, prec + 32).div_u64(90, prec + 32);
    let d = z.sub(&want, prec);
    assert!(d.contains(&Float::zero()), "ζ(4) ≠ π⁴/90");
}

#[test]
fn zeta_three_apery() {
    let z = zeta(&Ball::from_i64(3), 200);
    let s = z.mid().to_decimal(30);
    assert!(s.starts_with("1.2020569031595942853997381615"), "ζ(3) = {s}");
}

#[test]
fn zeta_non_integer() {
    let prec = 128;
    let s = ball_from_f64(1.5);
    let z = zeta(&s, prec);
    let ds = z.mid().to_decimal(20);
    assert!(ds.starts_with("2.61237534868548834"), "ζ(3/2) = {ds}");
    assert!(z.rel_accuracy_bits() >= 120);
}

#[test]
fn rejects_bad_domain() {
    assert!(try_zeta(&Ball::from_i64(1), 64).is_none());
    assert!(try_zeta(&Ball::from_i64(0), 64).is_none());
    assert!(try_zeta(&Ball::from_i64(-2), 64).is_none());
}

#[test]
fn try_zeta_none_exactly_at_domain_edges() {
    assert!(try_zeta(&Ball::new(Float::from_i64(1), Mag::two_exp(-10)), 64).is_none());
    assert!(try_zeta(&Ball::from_i64(0), 64).is_none());
    assert!(try_zeta(&Ball::new(Float::from_i64(3), Mag::two_exp(-1)), 64).is_some());
    assert!(try_zeta(&Ball::new(Float::from_i64(2), Mag::two_exp(-1)), 64).is_some());
}
