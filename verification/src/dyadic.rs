//! Dyadic rationals `m · 2^e` and the rounding rule that every floating-point
//! operation of the crate follows.
use crate::limb_spec::{lemma_pow2_64, limb_base, limb_weight};
use vstd::arithmetic::div_mod::*;
use vstd::arithmetic::mul::*;
use vstd::arithmetic::power2::*;
use vstd::prelude::*;

verus! {

/// Number of binary digits of `v` (0 for 0).
pub open spec fn nbits(v: nat) -> nat
    decreases v,
{
    if v == 0 {
        0
    } else {
        1 + nbits(v / 2)
    }
}

/// `2^(nbits(v) − 1) ≤ v < 2^nbits(v)` for positive `v`.
pub proof fn lemma_nbits_bounds(v: nat)
    ensures
        v < pow2(nbits(v)),
        v > 0 ==> nbits(v) >= 1 && pow2((nbits(v) - 1) as nat) <= v,
        v == 0 <==> nbits(v) == 0,
    decreases v,
{
    lemma_pow2_pos(0);
    lemma2_to64();
    if v > 0 {
        lemma_nbits_bounds(v / 2);
        let k = nbits(v / 2);
        lemma_pow2_unfold(k + 1);
        if k > 0 {
            lemma_pow2_unfold(k);
        }
    }
}

/// `nbits` is pinned by its bounds.
pub proof fn lemma_nbits_unique(v: nat, k: nat)
    requires
        k >= 1,
        pow2((k - 1) as nat) <= v < pow2(k),
    ensures
        nbits(v) == k,
{
    lemma_nbits_bounds(v);
    let n = nbits(v);
    if n < k {
        lemma_pow2_increases_le(n, (k - 1) as nat);
    } else if n > k {
        lemma_pow2_increases_le(k, (n - 1) as nat);
    }
}

pub proof fn lemma_pow2_increases_le(a: nat, b: nat)
    requires
        a <= b,
    ensures
        pow2(a) <= pow2(b),
{
    if a < b {
        lemma_pow2_strictly_increases(a, b);
    }
}

/// Doubling adds one digit.
pub proof fn lemma_nbits_scale(v: nat, k: nat)
    requires
        v > 0,
    ensures
        nbits(v * pow2(k)) == nbits(v) + k,
{
    lemma_nbits_bounds(v);
    let n = nbits(v);
    lemma_pow2_adds((n - 1) as nat, k);
    lemma_pow2_adds(n, k);
    lemma_pow2_pos(k);
    assert(pow2((n - 1) as nat) * pow2(k) <= v * pow2(k)) by {
        lemma_mul_inequality(pow2((n - 1) as nat) as int, v as int, pow2(k) as int);
    }
    assert(v * pow2(k) < pow2(n) * pow2(k)) by {
        lemma_mul_strict_inequality(v as int, pow2(n) as int, pow2(k) as int);
    }
    assert((n - 1) as nat + k == (n + k - 1) as nat);
    lemma_nbits_unique(v * pow2(k), n + k);
}

/// Rounding direction once the sign is folded in.
#[derive(Clone, Copy, Debug, PartialEq, Eq, Structural)]
pub enum MagRound {
    Down,
    Up,
    Nearest,
}

/// Digits dropped when `w` is rounded to `prec` bits.
pub open spec fn round_shift(w: nat, prec: nat) -> nat {
    if nbits(w) > prec {
        (nbits(w) - prec) as nat
    } else {
        0
    }
}

/// Whether rounding `w` (plus a positive amount below one unit when
/// `sticky`) to `prec` bits increments the kept digits.
pub open spec fn round_up_needed(w: nat, sticky: bool, prec: nat, mode: MagRound) -> bool {
    let s = round_shift(w, prec);
    if s == 0 {
        false
    } else {
        let q = w / pow2(s);
        let rem = w % pow2(s);
        let half = pow2((s - 1) as nat);
        match mode {
            MagRound::Down => false,
            MagRound::Up => rem > 0 || sticky,
            MagRound::Nearest => rem > half || (rem == half && (sticky || q % 2 == 1)),
        }
    }
}

/// The kept digits after rounding (possibly `2^prec` after a carry).
pub open spec fn round_digits(w: nat, sticky: bool, prec: nat, mode: MagRound) -> nat {
    w / pow2(round_shift(w, prec)) + if round_up_needed(w, sticky, prec, mode) {
        1nat
    } else {
        0nat
    }
}

/// Whether rounding loses information.
pub open spec fn round_inexact(w: nat, sticky: bool, prec: nat) -> bool {
    sticky || w % pow2(round_shift(w, prec)) != 0
}

pub open spec fn min_int(a: int, b: int) -> int {
    if a <= b {
        a
    } else {
        b
    }
}

pub open spec fn max_int(a: int, b: int) -> int {
    if a >= b {
        a
    } else {
        b
    }
}

pub open spec fn abs_int(a: int) -> nat {
    if a < 0 {
        (-a) as nat
    } else {
        a as nat
    }
}

/// `2^e` as a real number, for any integer `e`.
pub open spec fn pow2r(e: int) -> real {
    if e >= 0 {
        pow2(e as nat) as real
    } else {
        1real / (pow2((-e) as nat) as real)
    }
}

pub proof fn lemma_pow2r_pos(e: int)
    ensures
        pow2r(e) > 0real,
{
    if e >= 0 {
        lemma_pow2_pos(e as nat);
        lemma_pos_real(pow2(e as nat) as int);
    } else {
        lemma_pow2_pos((-e) as nat);
        lemma_pos_real(pow2((-e) as nat) as int);
        let x = pow2((-e) as nat) as real;
        assert(1real / x > 0real) by (nonlinear_arith)
            requires x > 0real;
    }
}

pub proof fn lemma_pos_real(x: int)
    requires
        x > 0,
    ensures
        x as real > 0real,
{
    assert(x as real > 0real) by (nonlinear_arith)
        requires x > 0;
}

pub proof fn lemma_nat_mul_real(x: nat, y: nat)
    ensures
        (x * y) as real == (x as real) * (y as real),
{
    assert((x * y) as real == (x as real) * (y as real)) by (nonlinear_arith);
}

pub proof fn lemma_pow2r_add(a: int, b: int)
    ensures
        pow2r(a + b) == pow2r(a) * pow2r(b),
{
    lemma_pow2r_pos(a);
    lemma_pow2r_pos(b);
    if a >= 0 && b >= 0 {
        lemma_pow2_adds(a as nat, b as nat);
        lemma_nat_mul_real(pow2(a as nat), pow2(b as nat));
    } else if a < 0 && b < 0 {
        lemma_pow2_adds((-a) as nat, (-b) as nat);
        lemma_nat_mul_real(pow2((-a) as nat), pow2((-b) as nat));
        lemma_pow2_pos((-a) as nat);
        lemma_pow2_pos((-b) as nat);
        let x = pow2((-a) as nat) as real;
        let y = pow2((-b) as nat) as real;
        assert(1real / (x * y) == (1real / x) * (1real / y)) by (nonlinear_arith)
            requires x > 0real, y > 0real;
    } else if a >= 0 {
        // b < 0
        let nb = (-b) as nat;
        lemma_pow2_pos(nb);
        let y = pow2(nb) as real;
        if a + b >= 0 {
            lemma_pow2_adds((a + b) as nat, nb);
            lemma_nat_mul_real(pow2((a + b) as nat), pow2(nb));
            let z = pow2((a + b) as nat) as real;
            assert(z == (z * y) * (1real / y)) by (nonlinear_arith)
                requires y > 0real;
        } else {
            let nc = (-(a + b)) as nat;
            lemma_pow2_adds(a as nat, nc);
            lemma_nat_mul_real(pow2(a as nat), pow2(nc));
            lemma_pow2_pos(nc);
            let x = pow2(a as nat) as real;
            let z = pow2(nc) as real;
            assert(1real / z == x * (1real / (x * z))) by (nonlinear_arith)
                requires x > 0real, z > 0real;
        }
    } else {
        // a < 0, b >= 0
        let na = (-a) as nat;
        lemma_pow2_pos(na);
        let x = pow2(na) as real;
        if a + b >= 0 {
            lemma_pow2_adds((a + b) as nat, na);
            lemma_nat_mul_real(pow2((a + b) as nat), pow2(na));
            let z = pow2((a + b) as nat) as real;
            assert(z == (1real / x) * (z * x)) by (nonlinear_arith)
                requires x > 0real;
        } else {
            let nc = (-(a + b)) as nat;
            lemma_pow2_adds(b as nat, nc);
            lemma_nat_mul_real(pow2(b as nat), pow2(nc));
            lemma_pow2_pos(nc);
            let y = pow2(b as nat) as real;
            let z = pow2(nc) as real;
            assert(1real / z == (1real / (y * z)) * y) by (nonlinear_arith)
                requires y > 0real, z > 0real;
        }
    }
}

/// `pow2r` agrees with `pow2` on naturals.
pub proof fn lemma_pow2r_nat(e: nat)
    ensures
        pow2r(e as int) == pow2(e) as real,
{
}

/// Moving `k` binary digits from the mantissa into the exponent keeps the value.
pub proof fn lemma_rescale(m1: nat, e1: int, m2: nat, e2: int, k: nat)
    requires
        m1 == m2 * pow2(k),
        e2 == e1 + k,
    ensures
        m1 as real * pow2r(e1) == m2 as real * pow2r(e2),
{
    lemma_pow2r_add(e1, k as int);
    lemma_pow2r_nat(k);
    lemma_nat_mul_real(m2, pow2(k));
    let p = pow2r(e1);
    let q = pow2(k) as real;
    let x = m2 as real;
    assert(x * q * p == x * (p * q)) by (nonlinear_arith);
}

/// Signed version of [`lemma_rescale`].
pub proof fn lemma_rescale_int(m1: int, e1: int, m2: int, e2: int, k: nat)
    requires
        m1 == m2 * pow2(k),
        e2 == e1 + k,
    ensures
        m1 as real * pow2r(e1) == m2 as real * pow2r(e2),
{
    lemma_pow2r_add(e1, k as int);
    lemma_pow2r_nat(k);
    lemma_int_mul_real(m2, pow2(k) as int);
    let p = pow2r(e1);
    let q = pow2(k) as real;
    let x = m2 as real;
    assert(x * q * p == x * (p * q)) by (nonlinear_arith);
}

pub proof fn lemma_int_mul_real(x: int, y: int)
    ensures
        (x * y) as real == (x as real) * (y as real),
{
    assert((x * y) as real == (x as real) * (y as real)) by (nonlinear_arith);
}

/// A number whose digits below `2^k` are nonzero rounds like its digits
/// above `2^k` with the sticky flag set.
pub proof fn lemma_round_sticky(w: nat, k: nat, r: nat, prec: nat, mode: MagRound)
    requires
        nbits(w) > prec,
        0 < r < pow2(k),
    ensures
        nbits(w * pow2(k) + r) == nbits(w) + k,
        round_shift(w * pow2(k) + r, prec) == round_shift(w, prec) + k,
        round_digits(w * pow2(k) + r, false, prec, mode) == round_digits(w, true, prec, mode),
        round_inexact(w * pow2(k) + r, false, prec),
        round_inexact(w, true, prec),
{
    let n = nbits(w);
    let big = w * pow2(k) + r;
    lemma_nbits_bounds(w);
    lemma_pow2_pos(k);
    lemma_pow2_adds((n - 1) as nat, k);
    lemma_pow2_adds(n, k);
    let pk = pow2(k) as int;
    assert(pow2((n - 1) as nat) * pk <= w * pk) by (nonlinear_arith)
        requires
            pow2((n - 1) as nat) <= w,
            pk > 0,
    ;
    assert(w * pk + r < pow2(n) * pk) by (nonlinear_arith)
        requires
            w < pow2(n),
            r < pk,
            pk > 0,
    ;
    assert((n - 1) as nat + k == (n + k - 1) as nat);
    lemma_nbits_unique(big, n + k);
    let s = (n - prec) as nat;
    lemma_pow2_pos(s);
    let q = w / pow2(s);
    let rem = w % pow2(s);
    lemma_fundamental_div_mod(w as int, pow2(s) as int);
    lemma_mod_bound(w as int, pow2(s) as int);
    assert(w == q * pow2(s) + rem) by {
        lemma_mul_is_commutative(q as int, pow2(s) as int);
    }
    crate::window::lemma_split_divmod(r, w, q, rem, k, s);
    assert(big == r + pow2(k) * w) by {
        lemma_mul_is_commutative(w as int, pk);
    }
    assert(k + s == s + k);
    assert(round_shift(big, prec) == s + k);
    let half = pow2((s - 1) as nat);
    lemma_pow2_adds((s - 1) as nat, k);
    assert((s - 1) as nat + k == (s + k - 1) as nat);
    let rem2 = rem * pow2(k) + r;
    assert(rem2 > half * pk <==> rem >= half) by (nonlinear_arith)
        requires
            rem2 == rem * pk + r,
            0 < r < pk,
    ;
    assert(rem2 != half * pk) by (nonlinear_arith)
        requires
            rem2 == rem * pk + r,
            0 < r < pk,
    ;
    assert(rem2 > 0);
}

/// More digits for larger numbers.
pub proof fn lemma_nbits_mono(x: nat, y: nat)
    requires
        x <= y,
    ensures
        nbits(x) <= nbits(y),
{
    lemma_nbits_bounds(x);
    lemma_nbits_bounds(y);
    if nbits(x) > nbits(y) {
        lemma_pow2_increases_le(nbits(y), (nbits(x) - 1) as nat);
    }
}

/// The integer square root `⌊√x⌋`, digit pair by digit pair.
pub open spec fn isqrt_spec(x: nat) -> nat
    decreases x,
{
    if x == 0 {
        0
    } else {
        let r = 2 * isqrt_spec(x / 4);
        if (r + 1) * (r + 1) <= x {
            (r + 1) as nat
        } else {
            r
        }
    }
}

/// `isqrt_spec(x)² <= x < (isqrt_spec(x) + 1)²`.
pub proof fn lemma_isqrt(x: nat)
    ensures
        isqrt_spec(x) * isqrt_spec(x) <= x,
        x < (isqrt_spec(x) + 1) * (isqrt_spec(x) + 1),
    decreases x,
{
    if x > 0 {
        lemma_isqrt(x / 4);
        let t = isqrt_spec(x / 4);
        let r = 2 * t;
        assert(r * r <= x && x < (r + 2) * (r + 2)) by (nonlinear_arith)
            requires
                t * t <= x / 4,
                x / 4 < (t + 1) * (t + 1),
                r == 2 * t,
                x >= 0,
        ;
        let s = isqrt_spec(x);
        if (r + 1) * (r + 1) <= x {
            assert(s == r + 1);
            assert(s * s <= x && x < (s + 1) * (s + 1)) by (nonlinear_arith)
                requires
                    s == r + 1,
                    (r + 1) * (r + 1) <= x,
                    x < (r + 2) * (r + 2),
            ;
        } else {
            assert(s == r);
            assert(s * s <= x && x < (s + 1) * (s + 1)) by (nonlinear_arith)
                requires
                    s == r,
                    r * r <= x,
                    x < (r + 1) * (r + 1),
            ;
        }
    } else {
        assert(isqrt_spec(x) == 0);
        let s = isqrt_spec(x);
        assert((s + 1) * (s + 1) == 1) by (nonlinear_arith)
            requires
                s == 0,
        ;
    }
}

/// The integer square root is the only `y` with `y² <= x < (y + 1)²`.
pub proof fn lemma_isqrt_unique(x: nat, y: nat)
    requires
        y * y <= x < (y + 1) * (y + 1),
    ensures
        y == isqrt_spec(x),
{
    lemma_isqrt(x);
    let s = isqrt_spec(x);
    if y < s {
        assert((y + 1) * (y + 1) <= s * s) by (nonlinear_arith)
            requires
                y + 1 <= s,
        ;
    } else if y > s {
        assert((s + 1) * (s + 1) <= y * y) by (nonlinear_arith)
            requires
                s + 1 <= y,
        ;
    }
}

/// `pow2r` is monotonic.
pub proof fn lemma_pow2r_le(a: int, b: int)
    requires
        a <= b,
    ensures
        pow2r(a) <= pow2r(b),
{
    lemma_pow2r_add(a, b - a);
    lemma_pow2r_pos(a);
    lemma_pow2r_nat((b - a) as nat);
    lemma_pow2_pos((b - a) as nat);
    let p = pow2r(a);
    let q = pow2((b - a) as nat);
    lemma_pos_real(q as int);
    assert(p <= p * (q as real)) by (nonlinear_arith)
        requires
            p > 0real,
            q >= 1,
            (q as real) >= 1real,
    ;
    assert((q as real) >= 1real) by (nonlinear_arith)
        requires
            q >= 1,
    ;
}

} // verus!
