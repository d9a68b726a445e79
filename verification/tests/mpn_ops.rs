use rigor::mpn::{
    add, add_n, cmp, divrem, divrem_1, lshift, mul, mul_1, mul_basecase, normalized_len, rshift,
    sqr, sub_n, Limb,
};
use rigor::testutil::Rng;
use std::cmp::Ordering;

fn to_u128(a: &[Limb]) -> u128 {
    match a.len() {
        0 => 0,
        1 => a[0] as u128,
        _ => a[0] as u128 | (a[1] as u128) << 64,
    }
}

#[test]
fn add_sub_roundtrip() {
    let mut rng = Rng::new(1);
    for _ in 0..1000 {
        let n = 1 + (rng.next() as usize % 8);
        let a: Vec<Limb> = (0..n).map(|_| rng.next()).collect();
        let b: Vec<Limb> = (0..n).map(|_| rng.next()).collect();
        let mut s = vec![0; n];
        let carry = add_n(&mut s, &a, &b);
        let mut back = vec![0; n];
        let borrow = sub_n(&mut back, &s, &b);
        assert_eq!(back, a);
        assert_eq!(carry, borrow);
    }
}

#[test]
fn mul_1_matches_u128() {
    let mut rng = Rng::new(2);
    for _ in 0..1000 {
        let a = [rng.next()];
        let b = rng.next();
        let mut r = [0];
        let hi = mul_1(&mut r, &a, b);
        let expect = a[0] as u128 * b as u128;
        assert_eq!(to_u128(&[r[0], hi]), expect);
    }
}

#[test]
fn mul_matches_basecase() {
    let mut rng = Rng::new(3);
    for _ in 0..40 {
        let an = 1 + (rng.next() as usize % 90);
        let bn = 1 + (rng.next() as usize % 90);
        let a: Vec<Limb> = (0..an).map(|_| rng.next()).collect();
        let b: Vec<Limb> = (0..bn).map(|_| rng.next()).collect();
        let mut r1 = vec![0; an + bn];
        let mut r2 = vec![0; an + bn];
        mul_basecase(&mut r1, &a, &b);
        mul(&mut r2, &a, &b);
        assert_eq!(r1, r2, "an={an} bn={bn}");
    }
}

#[test]
fn karatsuba_forced() {
    let mut rng = Rng::new(4);
    for &(an, bn) in &[(24, 24), (25, 24), (48, 31), (100, 25), (200, 26), (37, 129)] {
        let a: Vec<Limb> = (0..an).map(|_| rng.next()).collect();
        let b: Vec<Limb> = (0..bn).map(|_| rng.next()).collect();
        let mut r1 = vec![0; an + bn];
        let mut r2 = vec![0; an + bn];
        mul_basecase(&mut r1, &a, &b);
        mul(&mut r2, &a, &b);
        assert_eq!(r1, r2, "an={an} bn={bn}");
    }
}

#[test]
fn divrem_reconstructs() {
    let mut rng = Rng::new(5);
    for _ in 0..300 {
        let an = 1 + (rng.next() as usize % 12);
        let dn = 1 + (rng.next() as usize % an.max(1));
        let mut a: Vec<Limb> = (0..an).map(|_| rng.next()).collect();
        let mut d: Vec<Limb> = (0..dn).map(|_| rng.next()).collect();
        a.truncate(normalized_len(&a));
        d.truncate(normalized_len(&d));
        if d.is_empty() {
            continue;
        }
        let (q, r) = divrem(&a, &d);
        assert!(r.is_empty() || cmp(&r, &d) == Ordering::Less);
        let mut qd = vec![0; q.len() + d.len()];
        mul(&mut qd, &q, &d);
        let mut sum = qd.clone();
        if !r.is_empty() {
            let src = sum.clone();
            let c = add(&mut sum, &src, &r);
            assert_eq!(c, 0);
        }
        sum.truncate(normalized_len(&sum));
        assert_eq!(sum, a);
    }
}

#[test]
fn shifts_roundtrip() {
    let mut rng = Rng::new(6);
    for _ in 0..200 {
        let n = 1 + (rng.next() as usize % 6);
        let a: Vec<Limb> = (0..n).map(|_| rng.next()).collect();
        let cnt = 1 + (rng.next() as u32 % 63);
        let mut l = vec![0; n];
        let hi = lshift(&mut l, &a, cnt);
        let mut back = vec![0; n];
        let lo = rshift(&mut back, &l, cnt);
        let _ = lo;
        let mut expect = a.clone();
        let top = &mut expect[n - 1];
        let kept = *top << cnt >> cnt;
        let lost = *top >> (64 - cnt);
        *top = kept;
        assert_eq!(back, expect);
        assert_eq!(hi, lost);
    }
}

#[test]
fn divrem_1_by_ten() {
    let a: [Limb; 2] = [0x3446_6f5f_97f8_ecb3, 0x29d];
    let v = to_u128(&a);
    let mut q = [0; 2];
    let r = divrem_1(&mut q, &a, 10);
    assert_eq!(to_u128(&q), v / 10);
    assert_eq!(r as u128, v % 10);
}

#[test]
fn sqr_matches_mul() {
    let mut rng = Rng::new(7);
    for n in [1usize, 2, 5, 17, 40] {
        let a: Vec<Limb> = (0..n).map(|_| rng.next()).collect();
        let mut r1 = vec![0; 2 * n];
        let mut r2 = vec![0; 2 * n];
        sqr(&mut r1, &a);
        mul(&mut r2, &a, &a);
        assert_eq!(r1, r2);
    }
}

#[test]
fn normalized_len_strips_high_zeros() {
    assert_eq!(normalized_len(&[1, 2, 0, 0]), 2);
    assert_eq!(normalized_len(&[0, 0]), 0);
    assert_eq!(normalized_len(&[]), 0);
    assert_eq!(cmp(&[1], &[1]), Ordering::Equal);
    assert_eq!(cmp(&[0, 1], &[u64::MAX]), Ordering::Greater);
}
