use rigor::ball::Ball;
use rigor::fp::{Float, Round};
use rigor::mag::Mag;
use rigor::testutil::Rng;
use std::cmp::Ordering;

#[test]
fn rng_is_deterministic_and_in_range() {
    let mut a = Rng::new(42);
    let mut b = Rng::new(42);
    for _ in 0..100 {
        assert_eq!(a.next(), b.next());
    }
    let mut c = Rng::new(43);
    let mut d = Rng::new(42);
    assert_ne!(c.next(), d.next());
    let mut r = Rng::new(7);
    for _ in 0..1000 {
        assert!(r.below(13) < 13);
        let v = r.range_i64(-5, 5);
        assert!((-5..=5).contains(&v));
    }
    assert_eq!(r.range_i64(3, 3), 3);
}

#[test]
fn negation_and_scaling_undo() {
    let x = Float::from_i64(-1234567);
    assert_eq!(x.neg().neg().cmp(&x), Ordering::Equal);
    assert_eq!(x.mul_2exp(77).mul_2exp(-77).cmp(&x), Ordering::Equal);
    let (y, inexact) = x.round(64, Round::Nearest);
    assert!(!inexact);
    assert_eq!(y.cmp(&x), Ordering::Equal);
    let m = Mag::two_exp(3);
    assert_eq!(m.mul_2exp(5).mul_2exp(-5).cmp(&m), Ordering::Equal);
}

#[test]
fn subtraction_is_negated_addition() {
    let a = Float::from_i64(1000003);
    let b = Float::from_i64(-17);
    for prec in [2u32, 5, 13, 64] {
        for rnd in [Round::Floor, Round::Ceil, Round::Down, Round::Up, Round::Nearest] {
            let (s, i1) = a.sub(&b, prec, rnd);
            let (t, i2) = a.add(&b.neg(), prec, rnd);
            assert_eq!(s.cmp(&t), Ordering::Equal);
            assert_eq!(i1, i2);
        }
    }
}

#[test]
fn rounding_depends_on_value_only() {
    // The same value written two ways rounds the same way.
    let a = Float::from_i64(3).mul_2exp(10);
    let b = Float::from_i64(3072);
    for prec in [1u32, 2, 3, 8] {
        let (ra, _) = a.round(prec, Round::Nearest);
        let (rb, _) = b.round(prec, Round::Nearest);
        assert_eq!(ra.cmp(&rb), Ordering::Equal);
    }
}

#[test]
fn directed_results_order() {
    let x = Float::from_i64(1);
    let y = Float::from_i64(7);
    let (lo, _) = x.div(&y, 20, Round::Floor);
    let (dn, _) = x.div(&y, 20, Round::Down);
    let (up, _) = x.div(&y, 20, Round::Up);
    let (hi, _) = x.div(&y, 20, Round::Ceil);
    assert_eq!(lo.cmp(&dn), Ordering::Equal);
    assert_eq!(up.cmp(&hi), Ordering::Equal);
    assert_eq!(lo.cmp(&hi), Ordering::Less);
    let (nlo, _) = x.neg().div(&y, 20, Round::Floor);
    assert_eq!(nlo.cmp(&hi.neg()), Ordering::Equal);
}

#[test]
fn ball_operations_enclose_sampled_points() {
    let a = Ball::new(Float::from_i64(3), Mag::two_exp(-4));
    let b = Ball::new(Float::from_i64(-5), Mag::two_exp(-6));
    let (alo, ahi) = a.endpoints();
    let (blo, bhi) = b.endpoints();
    for x in [alo, a.mid().clone(), ahi] {
        for y in [blo.clone(), b.mid().clone(), bhi.clone()] {
            let (s, _) = x.add(&y, 256, Round::Nearest);
            let (d, _) = x.sub(&y, 256, Round::Nearest);
            let (p, _) = x.mul(&y, 256, Round::Nearest);
            assert!(a.add(&b, 10).contains(&s));
            assert!(a.sub(&b, 10).contains(&d));
            assert!(a.mul(&b, 10).contains(&p));
        }
    }
}
