use rigor::binsplit::{e_binsplit, ln2_binsplit, pi_chudnovsky};
use rigor::constants::{e, ln2, pi, ConstCache, Constant};
use rigor::Float;

#[test]
fn pi_digits_1000() {
    let prec = 3350;
    let p = pi_chudnovsky(prec);
    let s = p.mid().to_decimal(50);
    assert!(
        s.starts_with("3.141592653589793238462643383279502884197169399375"),
        "pi = {s}"
    );
}

#[test]
fn pi_digits() {
    let p = pi(400);
    let s = p.mid().to_decimal(45);
    assert!(
        s.starts_with("3.14159265358979323846264338327950288419716"),
        "pi = {s}"
    );
    assert!(p.rel_accuracy_bits() >= 390);
}

#[test]
fn ln2_digits() {
    let l = ln2(300);
    let s = l.mid().to_decimal(35);
    assert!(s.starts_with("0.693147180559945309417232121458"), "ln2 = {s}");
    assert!(l.rel_accuracy_bits() >= 290);
}

#[test]
fn cache_serves_lower_precision() {
    let hi = pi(1000);
    let lo = pi(100);
    let d = hi.sub(&lo, 1100);
    assert!(d.contains(&Float::zero()));
    assert!(lo.rel_accuracy_bits() >= 100);
}

#[test]
fn e_digits_and_agreement() {
    let x = e(300);
    let s = x.mid().to_decimal(40);
    assert!(s.starts_with("2.71828182845904523536028747135266249775"), "e = {s}");
    assert!(x.rel_accuracy_bits() >= 290);
    let y = e_binsplit(2000);
    let d = y.sub(&x, 2100);
    assert!(d.contains(&Float::zero()));
}

#[test]
fn binsplit_constants_are_consistent() {
    let a = ln2_binsplit(500);
    let b = ln2(200);
    assert!(a.sub(&b, 600).contains(&Float::zero()));
    let p = pi_chudnovsky(100);
    assert!(p.rel_accuracy_bits() >= 92);
    assert!(!p.is_exact());
}

#[test]
fn pi_matches_machin() {
    let prec = 2000;
    let a = pi_chudnovsky(prec);
    let b = rigor::constants::compute_pi_machin(prec);
    let d = a.sub(&b, prec + 64);
    assert!(d.contains(&Float::zero()), "Chudnovsky vs Machin disagree");
    assert!(a.rel_accuracy_bits() >= prec as i64 - 8);
}

#[test]
fn e_matches_exp_one() {
    let prec = 2000;
    let a = e_binsplit(prec);
    let b = rigor::elementary::exp(&rigor::Ball::from_i64(1), prec);
    let d = a.sub(&b, prec + 64);
    assert!(d.contains(&Float::zero()), "binsplit e vs exp(1) disagree");
    assert!(a.rel_accuracy_bits() >= prec as i64 - 8);
}

#[test]
fn ln2_matches_series() {
    let prec = 2000;
    let a = ln2_binsplit(prec);
    let b = rigor::elementary::ln_core(&rigor::Ball::from_i64(2), prec + 32);
    let d = a.sub(&b, prec + 64);
    assert!(d.contains(&Float::zero()), "binsplit ln2 vs sqrt-reduction ln2 disagree");
    assert!(a.rel_accuracy_bits() >= prec as i64 - 8);
}

#[test]
fn cache_serves_lower_precision_from_higher() {
    let mut c = ConstCache::new(Constant::Pi);
    let hi = c.get(400);
    let lo = c.get(100);
    let s = lo.mid().to_decimal(25);
    assert!(s.starts_with("3.14159265358979323846"), "pi = {s}");
    assert!(hi.rel_accuracy_bits() >= 390);
    assert!(lo.rel_accuracy_bits() >= 90);
    let mut l = ConstCache::new(Constant::Ln2);
    let s = l.get(128).mid().to_decimal(20);
    assert!(s.starts_with("0.69314718055994530"), "ln2 = {s}");
    let mut e = ConstCache::new(Constant::E);
    let s = e.get(128).mid().to_decimal(20);
    assert!(s.starts_with("2.71828182845904523"), "e = {s}");
}

#[test]
fn e_accuracy_meets_precision() {
    for prec in [64u32, 200, 1000] {
        assert!(e(prec).rel_accuracy_bits() >= prec as i64);
        assert!(e_binsplit(prec).rel_accuracy_bits() >= prec as i64);
    }
}
