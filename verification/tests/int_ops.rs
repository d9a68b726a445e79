use rigor::bigint::Int;
use rigor::testutil::Rng;
use std::cmp::Ordering;

/// Builds an `Int` from an `i128` through the public operations.
fn from_i128(v: i128) -> Int {
    let m = v.unsigned_abs();
    let hi = Int::from_u64((m >> 64) as u64);
    let lo = Int::from_u64(m as u64);
    let r = hi.mul_u64(1 << 32).mul_u64(1 << 32).add(&lo);
    if v < 0 {
        r.neg()
    } else {
        r
    }
}

/// Reads an `Int` back through its exact decimal text.
fn to_i128(v: &Int) -> i128 {
    assert!(v.bit_len() <= 127);
    v.to_float().to_decimal(60).parse::<i128>().unwrap()
}

#[test]
fn arithmetic_matches_i128() {
    let mut rng = Rng::new(50);
    for _ in 0..3000 {
        let a = rng.next() as i64 as i128;
        let b = rng.next() as i64 as i128;
        let (ia, ib) = (from_i128(a), from_i128(b));
        assert_eq!(to_i128(&ia.add(&ib)), a + b, "add {a} {b}");
        assert_eq!(to_i128(&ia.sub(&ib)), a - b, "sub {a} {b}");
        assert_eq!(to_i128(&ia.mul(&ib)), a * b, "mul {a} {b}");
        if b != 0 {
            let (q, r) = ia.divrem(&ib);
            assert_eq!(to_i128(&q), a / b, "div {a} {b}");
            assert_eq!(to_i128(&r), a % b, "rem {a} {b}");
        }
    }
}

#[test]
fn to_float_exact() {
    let v = from_i128(123456789012345678901234567i128);
    assert_eq!(v.to_float().to_decimal(30), "123456789012345678901234567");
    let v = from_i128(-42);
    assert_eq!(v.to_float().to_decimal(5), "-42");
}

#[test]
fn int_small_operations() {
    let a = Int::from_i64(-7);
    assert!(a.is_neg());
    assert!(!a.is_zero());
    assert!(Int::zero().is_zero());
    assert_eq!(a.bit_len(), 3);
    assert_eq!(to_i128(&a.mul_i64(-6)), 42);
    assert_eq!(to_i128(&a.mul_u64(3)), -21);
    let (q, r) = a.divrem(&Int::from_i64(2));
    assert_eq!((to_i128(&q), to_i128(&r)), (-3, -1));
    assert_eq!(a.cmp(&Int::from_i64(-8)), Ordering::Greater);
    assert_eq!(a.cmp(&Int::from_i64(3)), Ordering::Less);
    assert_eq!(a.neg().cmp(&Int::from_u64(7)), Ordering::Equal);
    assert!(a.sub(&a).is_zero());
    assert!(!a.sub(&a).is_neg());
}
