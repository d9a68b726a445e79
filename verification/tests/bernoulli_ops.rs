use rigor::bernoulli::{bernoulli, tangent_numbers};
use rigor::bigint::Int;
use rigor::mag::Mag;
use rigor::{Float, Round};
use std::cmp::Ordering;

fn assert_is(k: usize, num: i64, den: i64) {
    let b = bernoulli(k, 128);
    let (want, _) = Float::from_i64(num).div(&Float::from_i64(den), 256, Round::Nearest);
    assert!(
        b.contains(&want) || {
            let widened = b.add_error(&Mag::two_exp(want.exponent().unwrap() - 250));
            widened.contains(&want)
        },
        "B_{} should be {num}/{den}, got {}",
        2 * k,
        b.to_string_digits(25)
    );
}

#[test]
fn known_values() {
    assert_is(1, 1, 6);
    assert_is(2, -1, 30);
    assert_is(3, 1, 42);
    assert_is(4, -1, 30);
    assert_is(5, 5, 66);
    assert_is(6, -691, 2730);
}

#[test]
fn tangent_small() {
    let t = tangent_numbers(5);
    let want = [1u64, 2, 16, 272, 7936];
    for (i, w) in want.iter().enumerate() {
        assert_eq!(t[i].cmp(&Int::from_u64(*w)), Ordering::Equal, "T_{}", i + 1);
    }
}

#[test]
fn bernoulli_signs_alternate() {
    for k in 1..12usize {
        let b = bernoulli(k, 64);
        let s = b.mid().signum();
        assert_eq!(s, if k % 2 == 1 { 1 } else { -1 }, "sign of B_{}", 2 * k);
        assert!(!b.contains_zero());
    }
}

#[test]
fn bernoulli_accuracy_meets_precision() {
    for k in 1..=12usize {
        let b = bernoulli(k, 128);
        assert!(b.rel_accuracy_bits() >= 128, "B_{} has {} bits", 2 * k, b.rel_accuracy_bits());
    }
}
