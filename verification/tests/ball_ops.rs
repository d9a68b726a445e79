use rigor::ball::Ball;
use rigor::fp::Float;
use rigor::mag::Mag;
use rigor::fp::Round;
use rigor::testutil::Rng;
use std::cmp::Ordering;

/// Exact value of a finite `f64`.
fn from_f64(v: f64) -> Float {
    assert!(v.is_finite());
    if v == 0.0 {
        return Float::zero();
    }
    let bits = v.to_bits();
    let neg = bits >> 63 == 1;
    let biased = ((bits >> 52) & 0x7FF) as i64;
    let frac = bits & ((1u64 << 52) - 1);
    let (mant, exp2) = if biased == 0 {
        (frac, -1074i64)
    } else {
        (frac | 1 << 52, biased - 1075)
    };
    let m = Float::from_u64(mant).mul_2exp(exp2);
    if neg {
        m.neg()
    } else {
        m
    }
}

#[allow(dead_code)]
/// Nearest-ish `f64` of a float, from its top 64 bits.
fn to_f64(x: &Float) -> f64 {
    match x.exponent() {
        None => 0.0,
        Some(e) => {
            let frac = x.top_bits(64) as f64 * 2f64.powi(-64);
            let v = frac * 2f64.powi(e.clamp(-2000, 2000) as i32);
            if x.is_neg() {
                -v
            } else {
                v
            }
        }
    }
}

#[test]
fn contains_and_endpoints() {
    let b = Ball::new(Float::from_i64(10), Mag::two_exp(1));
    assert!(b.contains(&Float::from_i64(8)));
    assert!(b.contains(&Float::from_i64(12)));
    assert!(b.contains(&Float::from_i64(10)));
    assert!(!b.contains(&Float::from_i64(13)));
    assert!(!b.contains(&Float::from_i64(7)));
    let (lo, hi) = b.endpoints();
    assert_eq!(lo.cmp(&Float::from_i64(8)), Ordering::Equal);
    assert_eq!(hi.cmp(&Float::from_i64(12)), Ordering::Equal);
}

#[test]
fn dependency_problem_demo() {
    let x = Ball::new(Float::from_i64(1), Mag::two_exp(-10));
    let d = x.sub(&x, 64);
    assert!(d.contains(&Float::zero()));
    assert!(!d.is_exact());
}

#[test]
fn accuracy_reporting() {
    let b = Ball::new(Float::from_i64(1), Mag::two_exp(-100));
    assert!(b.rel_accuracy_bits() >= 99);
    let e = Ball::from_i64(7);
    assert_eq!(e.rel_accuracy_bits(), i64::MAX);
}

#[test]
fn exact_operations_stay_exact() {
    let a = Ball::from_i64(6);
    let b = Ball::from_u64(4);
    let s = a.add(&b, 64);
    assert!(s.is_exact());
    assert_eq!(s.mid().cmp(&Float::from_i64(10)), Ordering::Equal);
    let p = a.mul(&b, 64);
    assert!(p.is_exact());
    assert_eq!(p.mid().cmp(&Float::from_i64(24)), Ordering::Equal);
    let q = a.div(&b, 64);
    assert!(q.contains(&Float::from_i64(3).mul_2exp(-1)));
    let r = Ball::from_i64(9).sqrt(64);
    assert!(r.contains(&Float::from_i64(3)));
    assert!(a.neg().contains(&Float::from_i64(-6)));
    assert!(a.mul_2exp(3).contains(&Float::from_i64(48)));
    assert!(a.mul_i64(-5, 64).contains(&Float::from_i64(-30)));
    assert!(a.div_u64(3, 64).contains(&Float::from_i64(2)));
    assert!(Ball::zero().contains_zero());
    assert!(!a.contains_zero());
}

#[test]
fn inexact_results_enclose_truth() {
    let third = Ball::from_i64(1).div(&Ball::from_i64(3), 40);
    assert!(!third.is_exact());
    let back = third.mul_i64(3, 80);
    assert!(back.contains(&Float::from_i64(1)));
    let root2 = Ball::from_i64(2).sqrt(50);
    let sq = root2.mul(&root2, 100);
    assert!(sq.contains(&Float::from_i64(2)));
    let r = Ball::exact(Float::from_i64(1)).add_error(&Mag::two_exp(-3));
    assert!(r.contains(&Float::from_i64(7).mul_2exp(-3)));
    assert!(!r.contains(&Float::from_i64(3).mul_2exp(-2)));
    assert_eq!(r.rad().cmp(&Mag::two_exp(-3)), Ordering::Equal);
    let rounded = Ball::exact(Float::from_i64(1000001)).round(8);
    assert!(rounded.contains(&Float::from_i64(1000001)));
}

#[test]
fn division_by_ball_with_zero() {
    let z = Ball::new(Float::from_i64(0), Mag::two_exp(0));
    assert!(Ball::from_i64(1).try_div(&z, 64).is_none());
    assert!(Ball::from_i64(1).try_div(&Ball::from_i64(2), 64).is_some());
}

#[test]
fn ball_text() {
    let b = Ball::new(Float::from_i64(10), Mag::two_exp(1));
    assert_eq!(b.to_string_digits(5), "[10 ± 2^2]");
    let third = Ball::from_i64(-1).div(&Ball::from_i64(3), 64);
    let t = third.to_string_digits(6);
    assert!(t.starts_with("[-0.333333 ± 2^-"), "{t}");
    assert_eq!(Ball::from_i64(0).to_string_digits(3), "[0 ± 0]");
}

fn rand_ball(rng: &mut Rng) -> Ball {
    let mid = from_f64((rng.next() as i64 as f64) * 2f64.powi(rng.range_i64(-40, 40) as i32));
    let rad = if rng.below(4) == 0 {
        Mag::zero()
    } else {
        Mag::from_u64_upper(rng.next() >> 34).mul_2exp(rng.range_i64(-80, 10))
    };
    Ball::new(mid, rad)
}

/// Exact points inside the ball: midpoint and both endpoints.
fn sample_points(b: &Ball) -> Vec<Float> {
    let (lo, hi) = b.endpoints();
    vec![b.mid().clone(), lo, hi]
}

#[test]
fn inclusion_add_sub_mul() {
    let mut rng = Rng::new(30);
    const EXACT: u32 = 4096;
    for i in 0..500 {
        let a = rand_ball(&mut rng);
        let b = rand_ball(&mut rng);
        let prec = 8 + rng.below(120) as u32;
        let sum = a.add(&b, prec);
        let dif = a.sub(&b, prec);
        let prd = a.mul(&b, prec);
        for x in sample_points(&a) {
            for y in sample_points(&b) {
                let (s, e1) = x.add(&y, EXACT, Round::Nearest);
                let (d, e2) = x.sub(&y, EXACT, Round::Nearest);
                let (p, e3) = x.mul(&y, EXACT, Round::Nearest);
                assert!(!e1 && !e2 && !e3, "exact reference rounded");
                assert!(sum.contains(&s), "iter {i}: add violates inclusion");
                assert!(dif.contains(&d), "iter {i}: sub violates inclusion");
                assert!(prd.contains(&p), "iter {i}: mul violates inclusion");
            }
        }
    }
}

#[test]
fn inclusion_div() {
    let mut rng = Rng::new(31);
    const EXACT: u32 = 2048;
    let mut tested = 0;
    for _ in 0..800 {
        let a = rand_ball(&mut rng);
        let b = rand_ball(&mut rng);
        let prec = 8 + rng.below(120) as u32;
        let Some(q) = a.try_div(&b, prec) else { continue };
        tested += 1;
        for x in sample_points(&a) {
            for y in sample_points(&b) {
                let (v, inexact) = x.div(&y, EXACT, Round::Nearest);
                let widened = if inexact {
                    q.add_error(&Mag::two_exp(v.exponent().unwrap_or(i64::MIN / 2) - EXACT as i64 - 1))
                } else {
                    q.clone()
                };
                assert!(widened.contains(&v), "div violates inclusion: x/y ≈ {}", to_f64(&v));
            }
        }
    }
    assert!(tested > 100, "too few div cases exercised: {tested}");
}

#[test]
fn inclusion_sqrt() {
    let mut rng = Rng::new(32);
    const EXACT: u32 = 2048;
    let mut tested = 0;
    for _ in 0..500 {
        let mut a = rand_ball(&mut rng);
        if a.mid().signum() < 0 {
            a = a.neg();
        }
        let ra = a.rad().to_float();
        let (l, _) = a.mid().sub(&ra, 64, Round::Down);
        if l.signum() <= 0 {
            continue;
        }
        tested += 1;
        let prec = 8 + rng.below(120) as u32;
        let s = a.sqrt(prec);
        for x in sample_points(&a) {
            let (v, inexact) = x.sqrt(EXACT, Round::Nearest);
            let widened = if inexact {
                s.add_error(&Mag::two_exp(v.exponent().unwrap_or(i64::MIN / 2) - EXACT as i64 - 1))
            } else {
                s.clone()
            };
            assert!(widened.contains(&v), "sqrt violates inclusion");
        }
    }
    assert!(tested > 50, "too few sqrt cases exercised: {tested}");
}

#[test]
fn sqrt_of_ball_reaching_zero() {
    // [1 ± 1] holds no negative number: its root ball holds √0, √1 and √2.
    let b = Ball::new(Float::from_i64(1), Mag::two_exp(0));
    let s = b.sqrt(64);
    assert!(s.contains(&Float::zero()));
    assert!(s.contains(&Float::from_i64(1)));
    assert!(s.contains(&from_f64(1.4142135)));
    assert!(!s.contains(&Float::from_i64(4)));
}

#[test]
fn exact_sum_of_exact_balls_is_exact() {
    let a = Ball::exact(Float::from_i64(3));
    let b = Ball::exact(Float::from_i64(-7));
    let s = a.add(&b, 64);
    assert!(s.is_exact());
    assert_eq!(s.mid().cmp(&Float::from_i64(-4)), Ordering::Equal);
    let d = a.sub(&b, 64);
    assert!(d.is_exact());
    assert_eq!(d.mid().cmp(&Float::from_i64(10)), Ordering::Equal);
}

#[test]
fn radius_formulas_are_tight() {
    // [2 ± 2^-10]·[3 ± 2^-10]: radius about 2^-10·(3 + 2^-10) + 2·2^-10 ≈ 5·2^-10.
    let a = Ball::new(Float::from_i64(2), Mag::two_exp(-10));
    let b = Ball::new(Float::from_i64(3), Mag::two_exp(-10));
    let p = a.mul(&b, 64);
    let limit = Float::from_i64(5130).mul_2exp(-20);
    assert_eq!(p.rad().to_float().cmp(&limit), Ordering::Less);
    assert_ne!(p.rad().to_float().cmp(&Float::from_i64(5).mul_2exp(-10)), Ordering::Less);
    // [2 ± 2^-10] + [3 ± 2^-10]: radius 2^-9, exceeded by under 2^-24 relative.
    let s = a.add(&b, 64);
    assert_ne!(s.rad().to_float().cmp(&Float::from_i64(1).mul_2exp(-9)), Ordering::Less);
    let limit = Float::from_i64(1025).mul_2exp(-19);
    assert_eq!(s.rad().to_float().cmp(&limit), Ordering::Less);
}

#[test]
fn mul_i64_scales_radius_by_factor() {
    let b = Ball::new(Float::from_i64(5), Mag::two_exp(-10));
    let r = b.mul_i64(-3, 64);
    assert!(r.contains(&Float::from_i64(-15)));
    assert!(r.contains(&Float::from_i64(-15).add(&Float::from_i64(3).mul_2exp(-10), 64, Round::Nearest).0));
    assert_eq!(r.rad().exp(), -8);
}
