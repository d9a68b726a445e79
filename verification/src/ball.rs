//! Ball arithmetic: `[m ± r]` with rigorously propagated error bounds.
//!
//! For every operation, if the input balls contain real numbers `x, y`, the
//! output ball contains the exact result of the operation on `x, y`.
//! Midpoints are rounded to nearest at the requested precision (an error of
//! at most half a unit, absorbed into the radius); radii are [`Mag`]s, which
//! only ever round up.
use crate::dyadic::{isqrt_spec, lemma_isqrt, lemma_pow2r_add, lemma_pow2r_le, lemma_pow2r_pos, pow2r, round_inexact, round_shift};
use crate::fp::{
    abs_int, lemma_div_value, lemma_sqrt_radicand, lemma_window_down_le,
    lemma_window_pos, sqrt_bot, sqrt_radicand, lemma_lin_exact, lemma_lin_nbits, lemma_window_error, signed,
    window_val, div_quo, div_bot, div_sticky, lemma_mag_nonneg_pub, lemma_rounded_error, lemma_window_exp, lin_low,
    lin_mant, rounded, Float, Round,
};
use crate::mag::{Mag, MAG_EXP_MAX};
use crate::dyadic::{max_int, min_int};
use vstd::prelude::*;
use core::cmp::Ordering;

verus! {

/// Exponent bound for the midpoints and radii of ball arithmetic: 2^56.
pub const BALL_EXP: i64 = 0x0100_0000_0000_0000;

/// `|x|`.
pub open spec fn abs_real(x: real) -> real {
    if x < 0real {
        -x
    } else {
        x
    }
}

/// A real number known to lie in `[mid − rad, mid + rad]`.
#[derive(Clone, Debug)]
pub struct Ball {
    pub(crate) mid: Float,
    pub(crate) rad: Mag,
}

/// Radius contribution of a round-to-nearest midpoint: half a unit in the
/// last place, `2^(e − prec − 1)` for a result with exponent `e`.
fn round_err(mid: &Float, inexact: bool, prec: u32) -> (r: Mag)
    requires
        mid.within(0x1000_0000_0000_0000),
    ensures
        r.wf(),
        r.val() >= 0real,
        !inexact || mid.mant() == 0 ==> r.val() == 0real && r.ex() == 0,
        inexact && mid.mant() > 0 ==> r.val() == pow2r(mid.ex() - prec - 1) && r.ex() == mid.ex()
            - prec,
{
    if !inexact {
        let r = Mag::zero();
        proof {
            r.lemma_val_pos();
        }
        return r;
    }
    match mid.exponent() {
        Some(e) => {
            let r = Mag::two_exp(e - prec as i64 - 1);
            proof {
                lemma_pow2r_pos(e - prec - 1);
            }
            r
        },
        None => {
            let r = Mag::zero();
            proof {
                r.lemma_val_pos();
            }
            r
        },
    }
}

/// The nearest-rounded `mid` of `m · 2^e` is within `err` of it, where `err`
/// is what `round_err` gives for it.
proof fn lemma_nearest_bound(mid: Float, m: int, e: int, prec: nat, inexact: bool, err: Mag)
    requires
        mid.wf(),
        prec >= 2,
        mid.val() == rounded(m, e, prec, Round::Nearest),
        inexact == round_inexact(abs_int(m), false, prec),
        err.val() >= 0real,
        !inexact || mid.mant() == 0 ==> err.val() == 0real,
        inexact && mid.mant() > 0 ==> err.val() == pow2r(mid.ex() - prec - 1),
    ensures
        abs_real(mid.val() - m as real * pow2r(e)) <= err.val(),
{
    lemma_rounded_error(m, e, prec, Round::Nearest);
    if inexact {
        let w = abs_int(m);
        let sh = round_shift(w, prec);
        assert(crate::dyadic::nbits(w) > prec);
        lemma_window_exp(mid, m < 0, w, e, false, prec, Round::Nearest.mag_spec(m < 0));
        lemma_pow2r_le(e + sh - 1, mid.ex() - prec - 1);
        lemma_pow2r_add(e + sh - 1, 1);
        crate::dyadic::lemma_pow2r_nat(1);
        vstd::arithmetic::power2::lemma2_to64();
        let u = pow2r(e + sh);
        assert(u / 2real == pow2r(e + sh - 1)) by (nonlinear_arith)
            requires
                u == pow2r(e + sh - 1) * 2real,
        ;
    }
}

/// `|xy − ab| <= ra·(|b| + rb) + |a|·rb` for `x` within `ra` of `a` and
/// `y` within `rb` of `b`.
pub proof fn lemma_mul_error(x: real, y: real, a: real, b: real, ra: real, rb: real)
    requires
        abs_real(x - a) <= ra,
        abs_real(y - b) <= rb,
    ensures
        abs_real(x * y - a * b) <= ra * (abs_real(b) + rb) + abs_real(a) * rb,
{
    // xy − ab = (x − a)·y + a·(y − b), and |y| <= |b| + rb
    assert(x * y - a * b == (x - a) * y + a * (y - b)) by (nonlinear_arith);
    assert(abs_real((x - a) * y) <= ra * (abs_real(b) + rb)) by (nonlinear_arith)
        requires
            abs_real(x - a) <= ra,
            abs_real(y) <= abs_real(b) + rb,
    ;
    assert(abs_real(y) <= abs_real(b) + rb);
    assert(abs_real(a * (y - b)) <= abs_real(a) * rb) by (nonlinear_arith)
        requires
            abs_real(y - b) <= rb,
    ;
}

/// `x` lies within `rad` of `mid`.
pub open spec fn r_contains(mid: Float, rad: Mag, x: real) -> bool {
    abs_real(x - mid.val()) <= rad.val()
}

/// `|value| = mag`.
proof fn lemma_abs_mag(a: Float)
    requires
        a.wf(),
    ensures
        abs_real(a.val()) == a.mag(),
{
    a.lemma_val_abs();
    lemma_mag_nonneg_pub(&a);
}

/// Digits enough to subtract `b` from `a` exactly.
pub open spec fn sub_span(a: Float, b: Float) -> int {
    (abs_int(a.ex() - b.ex()) + 64 * (a.nlimbs() + b.nlimbs()) + 2) as int
}

/// A working precision at which `a − b` (and `a + b`) is computed exactly.
fn exact_sub_prec(a: &Float, b: &Float) -> (p: u32)
    requires
        a.wf(),
        b.wf(),
        sub_span(*a, *b) <= 0xFFFF_FFFF,
    ensures
        p == sub_span(*a, *b),
{
    let ea = a.exp as i128;
    let eb = b.exp as i128;
    let d = if ea >= eb {
        ea - eb
    } else {
        eb - ea
    };
    (d + 64 * (a.limbs.len() as i128 + b.limbs.len() as i128) + 2) as u32
}

/// Whether `sub_span(a, b)` fits the precision argument of a float
/// operation.
pub(crate) fn span_ok(a: &Float, b: &Float) -> (r: bool)
    requires
        a.wf(),
        b.wf(),
    ensures
        r <==> sub_span(*a, *b) <= 0xFFFF_FFFF,
{
    let ea = a.exp as i128;
    let eb = b.exp as i128;
    let d = if ea >= eb {
        ea - eb
    } else {
        eb - ea
    };
    d + 64 * (a.limbs.len() as i128 + b.limbs.len() as i128) + 2 <= 0xFFFF_FFFF
}

/// The signed sum of two floats at precision `sub_span` loses nothing.
proof fn lemma_exact_sum(a: Float, an: bool, b: Float, bn: bool, p: u32, rnd: Round)
    requires
        a.wf(),
        b.wf(),
        p >= sub_span(a, b),
    ensures
        rounded(
            lin_mant(a.mant(), a.low(), an, b.mant(), b.low(), bn),
            lin_low(a.mant(), a.low(), b.mant(), b.low()),
            p as nat,
            rnd,
        ) == crate::fp::signed(an, a.mag()) + crate::fp::signed(bn, b.mag()),
{
    let p = p as nat;
    lemma_lin_nbits(a, an, b, bn);
    lemma_lin_exact(a, an, b, bn);
    let m = lin_mant(a.mant(), a.low(), an, b.mant(), b.low(), bn);
    let w = abs_int(m);
    assert(round_shift(w, p) == 0);
    vstd::arithmetic::power2::lemma2_to64();
    vstd::arithmetic::div_mod::lemma_small_mod(0, 1);
    assert(w % 1 == 0) by {
        vstd::arithmetic::div_mod::lemma_mod_self_0(1);
        vstd::arithmetic::div_mod::lemma_mod_multiples_basic(w as int, 1);
    }
    lemma_rounded_error(m, lin_low(a.mant(), a.low(), b.mant(), b.low()), p, rnd);
}

/// The nearest-rounded window `mid` is within `err` (as `round_err` gives
/// it) of the true value `±(w + delta) · 2^bot`.
proof fn lemma_nearest_window_bound(
    mid: Float,
    neg: bool,
    w: nat,
    bot: int,
    sticky: bool,
    delta: real,
    prec: nat,
    inexact: bool,
    err: Mag,
)
    requires
        mid.wf(),
        prec >= 2,
        mid.val() == window_val(neg, w, bot, sticky, prec, crate::dyadic::MagRound::Nearest),
        inexact == round_inexact(w, sticky, prec),
        0real <= delta < 1real,
        sticky <==> delta > 0real,
        sticky ==> crate::dyadic::nbits(w) > prec,
        err.val() >= 0real,
        !inexact || mid.mant() == 0 ==> err.val() == 0real,
        inexact && mid.mant() > 0 ==> err.val() == pow2r(mid.ex() - prec - 1),
    ensures
        abs_real(mid.val() - signed(neg, (w as real + delta) * pow2r(bot))) <= err.val(),
{
    let mode = crate::dyadic::MagRound::Nearest;
    lemma_window_error(w, bot, sticky, delta, prec, mode);
    let t = (w as real + delta) * pow2r(bot);
    let r0 = window_val(false, w, bot, sticky, prec, mode);
    assert(mid.val() == signed(neg, r0));
    if inexact {
        let sh = round_shift(w, prec);
        lemma_window_exp(mid, neg, w, bot, sticky, prec, mode);
        lemma_pow2r_le(bot + sh - 1, mid.ex() - prec - 1);
        lemma_pow2r_add(bot + sh - 1, 1);
        crate::dyadic::lemma_pow2r_nat(1);
        vstd::arithmetic::power2::lemma2_to64();
        let u = pow2r(bot + sh);
        assert(u / 2real == pow2r(bot + sh - 1)) by (nonlinear_arith)
            requires
                u == pow2r(bot + sh - 1) * 2real,
        ;
    }
}

/// `|x/y − a/b| <= (ra·|b| + |a|·rb) / (l·|b|)` when `x` is within `ra` of
/// `a`, `y` within `rb` of `b`, and `0 < l <= |b| − rb`; then `y != 0`.
pub proof fn lemma_div_error(x: real, y: real, a: real, b: real, ra: real, rb: real, l: real)
    requires
        abs_real(x - a) <= ra,
        abs_real(y - b) <= rb,
        0real < l <= abs_real(b) - rb,
    ensures
        y != 0real,
        abs_real(x / y - a / b) <= (ra * abs_real(b) + abs_real(a) * rb) / (l * abs_real(b)),
{
    let ab = abs_real(b);
    let ay = abs_real(y);
    assert(ay >= l) by (nonlinear_arith)
        requires
            abs_real(y - b) <= rb,
            l <= abs_real(b) - rb,
            ay == abs_real(y),
    ;
    assert(ab > 0real);
    let num = x * b - a * y;
    assert(x / y - a / b == num / (y * b)) by (nonlinear_arith)
        requires
            y != 0real,
            b != 0real,
            num == x * b - a * y,
    ;
    assert(num == (x - a) * b - a * (y - b)) by (nonlinear_arith)
        requires
            num == x * b - a * y,
    ;
    assert(abs_real(num) <= ra * ab + abs_real(a) * rb) by (nonlinear_arith)
        requires
            num == (x - a) * b - a * (y - b),
            abs_real(x - a) <= ra,
            abs_real(y - b) <= rb,
            ab == abs_real(b),
    ;
    assert(abs_real(y * b) == ay * ab) by (nonlinear_arith)
        requires
            ay == abs_real(y),
            ab == abs_real(b),
    ;
    assert(ay * ab > 0real) by (nonlinear_arith)
        requires
            ay >= l,
            l > 0real,
            ab > 0real,
    ;
    assert(abs_real(num / (y * b)) == abs_real(num) / (ay * ab)) by (nonlinear_arith)
        requires
            abs_real(y * b) == ay * ab,
            ay * ab > 0real,
    ;
    assert(abs_real(num) / (ay * ab) <= (ra * ab + abs_real(a) * rb) / (l * ab)) by (nonlinear_arith)
        requires
            abs_real(num) <= ra * ab + abs_real(a) * rb,
            ay >= l,
            l > 0real,
            ab > 0real,
            abs_real(num) >= 0real,
    ;
}

/// The exact product of two floats as a dyadic.
proof fn lemma_product_val(a: Float, b: Float)
    ensures
        (a.sm() * b.sm()) as real * pow2r(a.low() + b.low()) == a.val() * b.val(),
{
    lemma_pow2r_add(a.low(), b.low());
    crate::dyadic::lemma_int_mul_real(a.sm(), b.sm());
    let x = a.sm() as real;
    let y = b.sm() as real;
    let p = pow2r(a.low());
    let q = pow2r(b.low());
    assert((x * y) * (p * q) == (x * p) * (y * q)) by (nonlinear_arith);
    assert((a.sm() * b.sm()) as real == x * y);
    assert(pow2r(a.low() + b.low()) == p * q);
    assert(a.val() == x * p);
    assert(b.val() == y * q);
}

/// A product of nonnegative floats rounded up bounds their exact product.
proof fn lemma_product_up(a: Float, b: Float)
    requires
        a.wf(),
        b.wf(),
        !a.neg,
        !b.neg,
    ensures
        ({
            let m = a.sm() * b.sm();
            let e = a.low() + b.low();
            &&& m >= 0
            &&& m as real * pow2r(e) == a.val() * b.val()
            &&& a.val() * b.val() <= rounded(m, e, 64, Round::Up)
        }),
{
    let m = a.sm() * b.sm();
    let e = a.low() + b.low();
    assert(m >= 0) by (nonlinear_arith)
        requires
            a.sm() >= 0,
            b.sm() >= 0,
            m == a.sm() * b.sm(),
    ;
    lemma_product_val(a, b);
    lemma_rounded_error(m, e, 64, Round::Up);
}

/// A product of positive floats rounded toward zero is positive and at
/// most the exact product.
proof fn lemma_product_down_pos(a: Float, b: Float)
    requires
        a.wf(),
        b.wf(),
        !a.neg,
        !b.neg,
        a.mant() > 0,
        b.mant() > 0,
    ensures
        ({
            let m = a.sm() * b.sm();
            let e = a.low() + b.low();
            &&& m > 0
            &&& m as real * pow2r(e) == a.val() * b.val()
            &&& 0real < rounded(m, e, 64, Round::Down) <= a.val() * b.val()
        }),
{
    let m = a.sm() * b.sm();
    let e = a.low() + b.low();
    assert(m > 0) by (nonlinear_arith)
        requires
            a.sm() > 0,
            b.sm() > 0,
            m == a.sm() * b.sm(),
    ;
    lemma_product_val(a, b);
    lemma_rounded_error(m, e, 64, Round::Down);
}

/// `a / b` has the sign of the quotient and the magnitude `|a| / |b|`.
proof fn lemma_signed_quotient(a: Float, b: Float)
    requires
        a.wf(),
        b.wf(),
        b.mant() > 0,
        a.val() == signed(a.neg, a.mag()),
        b.val() == signed(b.neg, b.mag()),
    ensures
        a.val() / b.val() == signed(a.neg != b.neg, a.mag() / b.mag()),
{
    lemma_mag_nonneg_pub(&a);
    crate::fp::lemma_mag_zero_pub(b.mant(), b.low());
    let x = a.mag();
    let y = b.mag();
    assert(y > 0real);
    if a.mant() == 0 {
        crate::fp::lemma_mag_zero_pub(a.mant(), a.low());
        assert(x == 0real);
        assert(signed(a.neg, x) / signed(b.neg, y) == 0real) by (nonlinear_arith)
            requires
                x == 0real,
                y > 0real,
        ;
        assert(signed(a.neg != b.neg, x / y) == 0real) by (nonlinear_arith)
            requires
                x == 0real,
                y > 0real,
        ;
    } else {
        assert(signed(a.neg, x) / signed(b.neg, y) == signed(a.neg != b.neg, x / y)) by (nonlinear_arith)
            requires
                y > 0real,
        ;
    }
}

/// Chaining the error terms of ball division.
proof fn lemma_quotient_chain(
    q: real,
    qm: real,
    mid: real,
    ra: real,
    rb: real,
    aa: real,
    ab: real,
    l: real,
    n1: real,
    n2: real,
    num: real,
    den: real,
    bound: real,
    fu: real,
    err: real,
    rad: real,
)
    requires
        abs_real(q - qm) <= (ra * ab + aa * rb) / (l * ab),
        abs_real(mid - qm) <= err,
        0real < l,
        0real < ab,
        0real <= ra,
        0real <= rb,
        0real <= aa,
        ab * ra <= n1,
        aa * rb <= n2,
        n1 + n2 <= num,
        0real < den <= l * ab,
        num / den <= bound,
        bound <= fu,
        fu + err <= rad,
    ensures
        abs_real(q - mid) <= rad,
{
    assert(0real <= ra * ab + aa * rb) by (nonlinear_arith)
        requires
            0real <= ra,
            0real <= rb,
            0real <= aa,
            0real < ab,
    ;
    assert((ra * ab + aa * rb) / (l * ab) <= num / den) by (nonlinear_arith)
        requires
            ab * ra <= n1,
            aa * rb <= n2,
            n1 + n2 <= num,
            0real < den <= l * ab,
            0real <= ra * ab + aa * rb,
    ;
}

/// `s` is a nonnegative square root of `x`.
pub open spec fn is_root(s: real, x: real) -> bool {
    s >= 0real && s * s == x
}

/// `r` exceeds `s` by at most the relative slack `2^k`.
#[verifier::opaque]
pub open spec fn within_slack(r: real, s: real, k: int) -> bool {
    r <= s * (1real + pow2r(k))
}

/// Two upward roundings, each within a factor `1 + 2^−26`, stay within
/// `1 + 2^−24` of the exact sum `s + e` (with `e <= h`).
proof fn lemma_sum_slack(s: real, t: real, e: real, r: real, h: real)
    requires
        0real <= s,
        0real <= e <= h,
        t <= s + s * pow2r(-26),
        r <= (t + e) + (t + e) * pow2r(-26),
    ensures
        r <= (s + h) * (1real + pow2r(-24)),
{
    lemma_pow2r_add(-26, 2);
    crate::dyadic::lemma_pow2r_nat(2);
    vstd::arithmetic::power2::lemma2_to64();
    lemma_pow2r_pos(-26);
    lemma_pow2r_le(-26, 0);
    crate::dyadic::lemma_pow2r_nat(0);
    let d = pow2r(-26);
    assert(pow2r(2) == 4real);
    assert(pow2r(-24) == d * 4real);
    assert((s + h) * (1real + 4real * d) == (s + h) * (1real + pow2r(-24))) by (nonlinear_arith)
        requires
            pow2r(-24) == d * 4real,
    ;
    assert(r <= (s + h) * (1real + 4real * d)) by (nonlinear_arith)
        requires
            0real <= s,
            0real <= e <= h,
            0real < d <= 1real,
            t <= s + s * d,
            r <= (t + e) + (t + e) * d,
    ;
}

/// The upward roundings of the product radius `ra·(|b| + rb) + |a|·rb`
/// (bounds on `|a|`, `|b|` within `1 + 2^−29`, sums within `1 + 2^−26`,
/// products within `1 + 2^−28`) stay within `1 + 2^−20` of it.
proof fn lemma_mul_slack(
    ra: real,
    rb: real,
    aa: real,
    bb: real,
    ma: real,
    mb: real,
    sb: real,
    t1: real,
    t2: real,
    t: real,
    e: real,
    rad: real,
    h: real,
)
    requires
        0real <= ra,
        0real <= rb,
        0real <= aa,
        0real <= bb,
        0real <= e <= h,
        aa <= ma <= aa + aa * pow2r(-29),
        bb <= mb <= bb + bb * pow2r(-29),
        mb + rb <= sb <= (mb + rb) + (mb + rb) * pow2r(-26),
        ra * sb <= t1 <= ra * sb + ra * sb * pow2r(-28),
        ma * rb <= t2 <= ma * rb + ma * rb * pow2r(-28),
        t <= (t1 + t2) + (t1 + t2) * pow2r(-26),
        rad <= (t + e) + (t + e) * pow2r(-26),
    ensures
        rad <= (ra * (bb + rb) + aa * rb + h) * (1real + pow2r(-20)),
{
    vstd::arithmetic::power2::lemma2_to64();
    lemma_pow2r_pos(-29);
    lemma_pow2r_add(-29, 3);
    lemma_pow2r_add(-28, 2);
    lemma_pow2r_add(-26, 6);
    crate::dyadic::lemma_pow2r_nat(3);
    crate::dyadic::lemma_pow2r_nat(2);
    crate::dyadic::lemma_pow2r_nat(6);
    let d = pow2r(-26);
    assert(pow2r(3) == 8real && pow2r(2) == 4real && pow2r(6) == 64real);
    assert(d == pow2r(-29) * 8real);
    assert(d == pow2r(-28) * 4real);
    assert(pow2r(-20) == d * 64real);
    lemma_pow2r_le(-26, -6);
    lemma_pow2r_add(-6, 6);
    crate::dyadic::lemma_pow2r_nat(0);
    assert(pow2r(0) == 1real);
    assert(d * 64real <= 1real);
    let k = 1real + d;
    // each bound within a factor k
    assert(ma <= aa * k) by (nonlinear_arith)
        requires
            ma <= aa + aa * pow2r(-29),
            d == pow2r(-29) * 8real,
            aa >= 0real,
            pow2r(-29) > 0real,
            k == 1real + d,
    ;
    assert(mb <= bb * k) by (nonlinear_arith)
        requires
            mb <= bb + bb * pow2r(-29),
            d == pow2r(-29) * 8real,
            bb >= 0real,
            pow2r(-29) > 0real,
            k == 1real + d,
    ;
    assert(sb <= (bb + rb) * (k * k)) by (nonlinear_arith)
        requires
            sb <= (mb + rb) + (mb + rb) * d,
            mb <= bb * k,
            rb >= 0real,
            d > 0real,
            k == 1real + d,
    ;
    let s1 = ra * (bb + rb);
    let s2 = aa * rb;
    assert(t1 <= s1 * (k * k * k)) by (nonlinear_arith)
        requires
            t1 <= ra * sb + ra * sb * pow2r(-28),
            d == pow2r(-28) * 4real,
            pow2r(-28) > 0real,
            sb <= (bb + rb) * (k * k),
            ra >= 0real,
            sb >= 0real,
            s1 == ra * (bb + rb),
            k == 1real + d,
    ;
    assert(t2 <= s2 * (k * k * k)) by (nonlinear_arith)
        requires
            t2 <= ma * rb + ma * rb * pow2r(-28),
            d == pow2r(-28) * 4real,
            pow2r(-28) > 0real,
            ma <= aa * k,
            rb >= 0real,
            ma >= 0real,
            s2 == aa * rb,
            k == 1real + d,
            d > 0real,
    ;
    assert(s1 >= 0real && s2 >= 0real) by (nonlinear_arith)
        requires
            ra >= 0real,
            bb >= 0real,
            rb >= 0real,
            aa >= 0real,
            s1 == ra * (bb + rb),
            s2 == aa * rb,
    ;
    assert(t1 >= 0real && t2 >= 0real) by (nonlinear_arith)
        requires
            ra >= 0real,
            sb >= 0real,
            ma >= 0real,
            rb >= 0real,
            ra * sb <= t1,
            ma * rb <= t2,
    ;
    let kk = k * k * k;
    assert(kk >= 1real) by (nonlinear_arith)
        requires
            k == 1real + d,
            d > 0real,
            kk == k * k * k,
    ;
    assert(rad <= (s1 + s2 + h) * (kk * k * k)) by (nonlinear_arith)
        requires
            rad <= (t + e) + (t + e) * d,
            t <= (t1 + t2) + (t1 + t2) * d,
            t1 <= s1 * kk,
            t2 <= s2 * kk,
            0real <= e <= h,
            s1 >= 0real,
            s2 >= 0real,
            t1 >= 0real,
            t2 >= 0real,
            kk >= 1real,
            d > 0real,
            k == 1real + d,
    ;
    assert(kk * k * k <= 1real + d * 64real) by (nonlinear_arith)
        requires
            kk == k * k * k,
            k == 1real + d,
            d > 0real,
            d * 64real <= 1real,
    ;
    assert(rad <= (s1 + s2 + h) * (1real + pow2r(-20))) by (nonlinear_arith)
        requires
            rad <= (s1 + s2 + h) * (kk * k * k),
            kk * k * k <= 1real + d * 64real,
            pow2r(-20) == d * 64real,
            s1 + s2 + h >= 0real,
    ;
}

/// `√a` rounded to nearest at `prec` bits, as [`Float::sqrt`] computes it.
pub open spec fn sqrt_nearest(a: Float, prec: nat) -> real {
    window_val(
        false,
        isqrt_spec(sqrt_radicand(a, prec)),
        sqrt_bot(a, prec),
        isqrt_spec(sqrt_radicand(a, prec)) * isqrt_spec(sqrt_radicand(a, prec)) != sqrt_radicand(a, prec),
        prec,
        crate::dyadic::MagRound::Nearest,
    )
}

/// `a / b` rounded to nearest at `prec` bits, as [`Float::div`] computes it.
pub open spec fn div_nearest(a: Float, b: Float, prec: nat) -> real {
    window_val(
        a.sign() != b.sign(),
        div_quo(a, b, prec),
        div_bot(a, b, prec),
        div_sticky(a, b, prec),
        prec,
        crate::dyadic::MagRound::Nearest,
    )
}

/// Both balls are exact points whose digits lie within `2^40` binary
/// places of the unit: their quotient ball is then small, and only the
/// rounding of its midpoint widens it.
pub open spec fn exact_operands(a: Ball, b: Ball) -> bool {
    &&& a.rad_val() == 0real
    &&& b.rad_val() == 0real
    &&& a.mid_f().within(0x100_0000_0000)
    &&& b.mid_f().within(0x100_0000_0000)
}

/// The digits and radius exponents that dividing balls within `±b`
/// produces stay within `±(16b + 2^36)`.
proof fn lemma_div_within(
    a: Float,
    bm: Float,
    ar: Mag,
    br: Mag,
    ra_f: Float,
    rb_f: Float,
    l: Float,
    mid: Float,
    n1: Float,
    n2: Float,
    num: Float,
    den: Float,
    bound: Float,
    fu: Mag,
    err: Mag,
    rad: Mag,
    prec: nat,
    b: int,
)
    requires
        0 <= b <= 0x1_0000_0000_0000,
        prec < 0x1_0000_0000,
        a.within(b),
        bm.within(b),
        ar.within(b),
        br.within(b),
        ra_f.wf() && rb_f.wf() && l.wf() && mid.wf() && n1.wf() && n2.wf() && num.wf() && den.wf() && bound.wf(),
        fu.wf() && err.wf() && rad.wf(),
        ar.mn() != 0 ==> ra_f.ex() == ar.ex() && ra_f.low() >= ar.ex() - 94,
        ar.mn() == 0 ==> ra_f.mant() == 0,
        br.mn() != 0 ==> rb_f.ex() == br.ex() && rb_f.low() >= br.ex() - 94,
        br.mn() == 0 ==> rb_f.mant() == 0,
        l.mant() > 0 ==> l.low() >= min_int(bm.low(), rb_f.low()) - 63 && l.ex() <= max_int(bm.ex(), rb_f.ex())
            + 2,
        mid.mant() > 0 ==> mid.low() >= div_bot(a, bm, prec) - 63 && mid.ex() <= a.ex() - bm.ex() + 2,
        n1.mant() > 0 ==> n1.low() >= bm.low() + ra_f.low() - 63 && n1.ex() <= bm.ex() + ra_f.ex() + 1,
        n2.mant() > 0 ==> n2.low() >= a.low() + rb_f.low() - 63 && n2.ex() <= a.ex() + rb_f.ex() + 1,
        num.mant() > 0 ==> num.low() >= min_int(n1.low(), n2.low()) - 63 && num.ex() <= max_int(n1.ex(), n2.ex())
            + 2,
        den.mant() > 0,
        den.low() >= l.low() + bm.low() - 63 && den.ex() <= l.ex() + bm.ex() + 1,
        num.nlimbs() <= 2,
        den.nlimbs() <= 2,
        bound.mant() > 0 ==> bound.low() >= div_bot(num, den, 64) - 63 && bound.ex() <= num.ex() - den.ex() + 2,
        bound.mant() > 0 ==> bound.ex() - 30 <= fu.ex() <= bound.ex() + 34,
        bound.mant() == 0 ==> fu.ex() == 0,
        err.ex() == 0 || (mid.mant() > 0 && err.ex() == mid.ex() - prec),
        min_int(fu.ex(), err.ex()) - 30 <= rad.ex() <= max_int(fu.ex(), err.ex()) + 2,
    ensures
        mid.within(16 * b + 0x10_0000_0000),
        rad.within(16 * b + 0x10_0000_0000),
{
    a.lemma_mant_bounds();
    bm.lemma_mant_bounds();
    ra_f.lemma_mant_bounds();
    rb_f.lemma_mant_bounds();
    l.lemma_mant_bounds();
    mid.lemma_mant_bounds();
    n1.lemma_mant_bounds();
    n2.lemma_mant_bounds();
    num.lemma_mant_bounds();
    den.lemma_mant_bounds();
    bound.lemma_mant_bounds();
    assert(-b - 94 <= ra_f.low() <= ra_f.ex() <= b);
    assert(-b - 94 <= rb_f.low() <= rb_f.ex() <= b);
    assert(-b - 200 <= l.low() <= l.ex() <= b + 2);
    assert((prec + 63) / 64 <= 0x400_0001) by (nonlinear_arith)
        requires
            prec < 0x1_0000_0000,
    ;
    assert(crate::fp::div_shift(a.nlimbs(), bm.nlimbs(), prec) <= 0x800_0010);
    assert(-2 * b - 0x2_0000_1000 <= mid.low() <= mid.ex() <= 2 * b + 2);
    assert(-2 * b - 160 <= n1.low() <= n1.ex() <= 2 * b + 1);
    assert(-2 * b - 160 <= n2.low() <= n2.ex() <= 2 * b + 1);
    assert(-2 * b - 230 <= num.low() <= num.ex() <= 2 * b + 3);
    assert(-2 * b - 270 <= den.low() <= den.ex() <= 2 * b + 3);
    assert(crate::fp::div_shift(num.nlimbs(), den.nlimbs(), 64) <= 5);
    assert(-4 * b - 700 <= bound.low() <= bound.ex() <= 4 * b + 300);
    assert(-4 * b - 800 <= fu.ex() <= 4 * b + 400);
    assert(-2 * b - 0x3_0000_1000 <= err.ex() <= 2 * b + 2);
}

/// Rounding a nonzero float to nearest keeps it nonzero and lowers its
/// exponent by at most one.
proof fn lemma_round_exp(a: Float, m: Float, prec: nat)
    requires
        a.wf(),
        m.wf(),
        a.mant() > 0,
        prec >= 2,
        m.val() == rounded(a.sm(), a.low(), prec, Round::Nearest),
    ensures
        m.mant() > 0,
        m.ex() >= a.ex() - 1,
{
    a.lemma_nbits_mant();
    a.lemma_exponent_bounds();
    a.lemma_val_abs();
    lemma_abs_mag(a);
    lemma_abs_mag(m);
    lemma_rounded_error(a.sm(), a.low(), prec, Round::Nearest);
    assert(abs_int(a.sm()) == a.mant());
    let sh = round_shift(a.mant(), prec);
    assert(a.low() + sh <= a.ex() - 1);
    lemma_pow2r_le(a.low() + sh, a.ex() - 1);
    lemma_pow2r_add(a.ex() - 2, 1);
    crate::dyadic::lemma_pow2r_nat(1);
    vstd::arithmetic::power2::lemma2_to64();
    let h = pow2r(a.ex() - 2);
    lemma_pow2r_pos(a.ex() - 2);
    assert(a.sm() as real * pow2r(a.low()) == a.val()) by {
        a.lemma_val_abs();
    }
    assert(abs_real(m.val() - a.val()) <= h);
    assert(abs_real(a.val()) >= h * 2real);
    assert(abs_real(m.val()) >= h);
    m.lemma_val_zero();
    assert(m.mant() > 0);
    m.lemma_exponent_bounds();
    if m.ex() < a.ex() - 1 {
        lemma_pow2r_le(m.ex() as int, a.ex() - 2);
    }
}

/// A nonnegative `s` with `s² < p²` lies below `p`.
proof fn lemma_below_square(s: real, p: real)
    requires
        0real <= s,
        0real < p,
    ensures
        s * s < p * p ==> s < p,
{
    if s >= p {
        assert(s * s >= p * p) by (nonlinear_arith)
            requires
                s >= p,
                p > 0real,
        ;
    }
}

/// A ball widened by `w` around the same midpoint holds every point
/// within `w` of a point of the unwidened ball.
pub(crate) proof fn lemma_widen(d: Ball, r: Ball, x: real, w: real)
    requires
        d.contains_real(x),
        r.mid_val() == d.mid_val(),
        d.rad_val() + w <= r.rad_val(),
    ensures
        forall|eps: real| #[trigger] abs_real(eps) <= w ==> r.contains_real(x + eps),
{
}

/// A value at most `sr · p` with `sr² <= x` squares to at most `x · p²`.
proof fn lemma_root_below(v: real, sr: nat, x: nat, p: real, target: real)
    requires
        0real < v <= sr as real * p,
        sr * sr <= x,
        (x as real) * p * p == target,
        p > 0real,
    ensures
        v * v <= target,
{
    crate::dyadic::lemma_nat_mul_real(sr, sr);
    crate::fp::lemma_real_cast_order((sr * sr) as int, x as int);
    let s0 = sr as real;
    assert(v * v <= s0 * s0 * (p * p)) by (nonlinear_arith)
        requires
            0real < v <= s0 * p,
            p > 0real,
    ;
    assert(s0 * s0 * (p * p) <= (x as real) * p * p) by (nonlinear_arith)
        requires
            s0 * s0 <= x as real,
            p > 0real,
    ;
    assert(s0 * s0 <= x as real) by {
        assert((sr * sr) as real == s0 * s0);
    }
}

/// A point within `err` of every point strictly inside `(c, c1)` is within
/// `err` of both ends too.
/// `t` lies within `err` of `mid`.
spec fn within_of(mid: real, t: real, err: real) -> bool {
    abs_real(mid - t) <= err
}

proof fn lemma_window_closure(mid: real, err: real, c: real, c1: real)
    requires
        c < c1,
        forall|t: real| c < t < c1 ==> #[trigger] within_of(mid, t, err),
    ensures
        abs_real(mid - c) <= err,
        abs_real(mid - c1) <= err,
{
    if abs_real(mid - c) > err {
        let g = abs_real(mid - c) - err;
        let h = if g / 2real < (c1 - c) / 2real {
            g / 2real
        } else {
            (c1 - c) / 2real
        };
        let t = c + h;
        assert(0real < h < c1 - c);
        assert(c < t < c1);
        assert(within_of(mid, t, err));
        assert(abs_real(mid - c) <= abs_real(mid - t) + h);
    }
    if abs_real(mid - c1) > err {
        let g = abs_real(mid - c1) - err;
        let h = if g / 2real < (c1 - c) / 2real {
            g / 2real
        } else {
            (c1 - c) / 2real
        };
        let t = c1 - h;
        assert(0real < h < c1 - c);
        assert(c < t < c1);
        assert(within_of(mid, t, err));
        assert(abs_real(mid - c1) <= abs_real(mid - t) + h);
    }
}

/// The window `[sr·p, (sr+1)·p)` of the integer square root `sr` of the
/// radicand `x0 = ma/p²`: its lower end is a root of `ma` exactly when the
/// radicand is a square, and a rounded root within `err` of every point
/// the radicand's stickiness admits is within `err` of the lower end, and
/// of the upper end too when the radicand is no square.
proof fn lemma_window_roots(mid: real, err: real, sr: nat, x0: nat, p: real, ma: real)
    requires
        p > 0real,
        sr * sr <= x0,
        x0 < (sr + 1) * (sr + 1),
        (x0 as real) * p * p == ma,
        forall|t: real|
            sr as real * p <= t < (sr + 1) as real * p && (t > sr as real * p <==> sr * sr != x0)
                ==> #[trigger] within_of(mid, t, err),
    ensures
        0real <= sr as real * p <= (sr + 1) as real * p,
        (sr as real * p) * (sr as real * p) <= ma,
        ma < ((sr + 1) as real * p) * ((sr + 1) as real * p),
        (sr as real * p) * (sr as real * p) == ma <==> sr * sr == x0,
        abs_real(mid - sr as real * p) <= err,
        sr * sr != x0 ==> abs_real(mid - (sr + 1) as real * p) <= err,
        forall|t: real|
            sr as real * p < t < (sr + 1) as real * p && sr * sr != x0 ==> #[trigger] within_of(mid, t, err),
{
    let c = sr as real * p;
    let c1 = (sr + 1) as real * p;
    let s0 = sr as real;
    let x = x0 as real;
    crate::dyadic::lemma_nat_mul_real(sr, sr);
    crate::dyadic::lemma_nat_mul_real(sr + 1, sr + 1);
    crate::fp::lemma_real_cast_order((sr * sr) as int, x0 as int);
    crate::fp::lemma_real_cast_order(x0 as int, ((sr + 1) * (sr + 1)) as int);
    crate::fp::lemma_real_cast_order(0, sr as int);
    assert((sr + 1) as real == s0 + 1real);
    assert(s0 * s0 <= x);
    assert(x < (s0 + 1real) * (s0 + 1real));
    assert(c >= 0real) by (nonlinear_arith)
        requires
            s0 >= 0real,
            p > 0real,
            c == s0 * p,
    ;
    assert(c * c == s0 * s0 * (p * p)) by (nonlinear_arith)
        requires
            c == s0 * p,
    ;
    assert(c1 * c1 == (s0 + 1real) * (s0 + 1real) * (p * p)) by (nonlinear_arith)
        requires
            c1 == (s0 + 1real) * p,
    ;
    assert(ma == x * (p * p)) by (nonlinear_arith)
        requires
            ma == x * p * p,
    ;
    assert(p * p > 0real) by (nonlinear_arith)
        requires
            p > 0real,
    ;
    assert(c * c <= ma) by (nonlinear_arith)
        requires
            c * c == s0 * s0 * (p * p),
            ma == x * (p * p),
            s0 * s0 <= x,
            p * p > 0real,
    ;
    assert(ma < c1 * c1) by (nonlinear_arith)
        requires
            c1 * c1 == (s0 + 1real) * (s0 + 1real) * (p * p),
            ma == x * (p * p),
            x < (s0 + 1real) * (s0 + 1real),
            p * p > 0real,
    ;
    assert(c * c == ma <==> s0 * s0 == x) by (nonlinear_arith)
        requires
            c * c == s0 * s0 * (p * p),
            ma == x * (p * p),
            p * p > 0real,
    ;
    assert(s0 * s0 == x <==> sr * sr == x0) by {
        crate::fp::lemma_real_cast_order((sr * sr) as int, x0 as int);
    }
    assert(c <= c1) by (nonlinear_arith)
        requires
            c == s0 * p,
            c1 == (s0 + 1real) * p,
            p > 0real,
    ;
    if sr * sr == x0 {
        assert(within_of(mid, c, err));
    } else {
        assert forall|t: real| c < t < c1 implies #[trigger] within_of(mid, t, err) by {
            assert(within_of(mid, t, err));
        }
        assert(c < c1) by (nonlinear_arith)
            requires
                c == s0 * p,
                c1 == (s0 + 1real) * p,
                p > 0real,
        ;
        lemma_window_closure(mid, err, c, c1);
    }
}

/// A root of `ma` itself lies within `err` of `mid`.
proof fn lemma_exact_root(s: real, ma: real, c: real, c1: real, mid: real, err: real)
    requires
        is_root(s, ma),
        0real <= c <= c1,
        c * c <= ma < c1 * c1,
        abs_real(mid - c) <= err,
        c * c < ma && c < s < c1 ==> abs_real(mid - s) <= err,
    ensures
        abs_real(s - mid) <= err,
{
    if c * c == ma {
        assert(s == c) by (nonlinear_arith)
            requires
                s >= 0real,
                c >= 0real,
                s * s == c * c,
        ;
    } else {
        assert(c < s) by (nonlinear_arith)
            requires
                s >= 0real,
                c >= 0real,
                c * c < s * s,
        ;
        assert(s < c1) by (nonlinear_arith)
            requires
                s >= 0real,
                c1 >= 0real,
                s * s < c1 * c1,
        ;
    }
}

/// A root `s` of a point within `ra` of `ma` lies within `rad` of `mid`,
/// where `mid` is within `err` of the window ends `c <= c1` around the
/// roots of `ma` (and of every point between them unless `c` is a root of
/// `ma` itself), and `ra / den` bounds the distance from the roots of
/// points at least `l >= sl²` to the window.
proof fn lemma_root_chain(
    x: real,
    s: real,
    ma: real,
    ra: real,
    l: real,
    sl: real,
    den: real,
    bound: real,
    fu: real,
    err: real,
    rad: real,
    mid: real,
    c: real,
    c1: real,
)
    requires
        abs_real(x - ma) <= ra,
        is_root(s, x),
        0real <= c,
        c * c <= ma < c1 * c1,
        0real < l <= ma - ra,
        0real < sl,
        sl * sl <= l,
        0real < den <= sl * 2real,
        ra / den <= bound,
        bound <= fu,
        fu + err <= rad,
        ra >= 0real,
        c <= c1,
        abs_real(mid - c) <= err,
        c * c < ma ==> abs_real(mid - c1) <= err,
        c * c < ma && c < s < c1 ==> abs_real(mid - s) <= err,
    ensures
        abs_real(s - mid) <= rad,
{
    assert(x >= ma - ra) by (nonlinear_arith)
        requires
            abs_real(x - ma) <= ra,
    ;
    assert(x <= ma + ra) by (nonlinear_arith)
        requires
            abs_real(x - ma) <= ra,
    ;
    assert(s >= sl) by (nonlinear_arith)
        requires
            s >= 0real,
            sl > 0real,
            s * s == x,
            x >= l,
            sl * sl <= l,
    ;
    assert(ra / den >= 0real) by (nonlinear_arith)
        requires
            ra >= 0real,
            den > 0real,
    ;
    if c * c == ma {
        // c is a root of ma: |s − c| = |x − ma| / (s + c)
        assert(c >= sl) by (nonlinear_arith)
            requires
                c >= 0real,
                sl > 0real,
                c * c == ma,
                ma >= l,
                sl * sl <= l,
        ;
        assert((s - c) * (s + c) == x - ma) by (nonlinear_arith)
            requires
                s * s == x,
                c * c == ma,
        ;
        assert(abs_real(s - c) <= ra / den) by (nonlinear_arith)
            requires
                s >= sl,
                c >= sl,
                sl > 0real,
                (s - c) * (s + c) == x - ma,
                abs_real(x - ma) <= ra,
                0real < den <= sl * 2real,
                ra >= 0real,
        ;
    } else if s <= c {
        // below the window: c² − s² <= ma − x <= ra
        assert((c - s) * (c + s) <= ra) by (nonlinear_arith)
            requires
                s * s == x,
                c * c <= ma,
                x >= ma - ra,
        ;
        assert(c - s <= ra / den) by (nonlinear_arith)
            requires
                s >= sl,
                c >= s,
                sl > 0real,
                (c - s) * (c + s) <= ra,
                0real < den <= sl * 2real,
                ra >= 0real,
        ;
    } else if s >= c1 {
        // above the window: s² − c1² < x − ma <= ra
        assert(c1 >= sl) by (nonlinear_arith)
            requires
                c1 >= 0real,
                c1 * c1 > ma,
                ma >= l,
                sl * sl <= l,
                sl > 0real,
        ;
        assert((s - c1) * (s + c1) <= ra) by (nonlinear_arith)
            requires
                s * s == x,
                ma < c1 * c1,
                x <= ma + ra,
        ;
        assert(s - c1 <= ra / den) by (nonlinear_arith)
            requires
                s >= c1,
                c1 >= sl,
                sl > 0real,
                (s - c1) * (s + c1) <= ra,
                0real < den <= sl * 2real,
                ra >= 0real,
        ;
    }
}

impl Ball {
    /// The midpoint.
    pub open(crate) spec fn mid_f(&self) -> Float {
        self.mid
    }

    /// The radius.
    pub open(crate) spec fn rad_m(&self) -> Mag {
        self.rad
    }

    /// The midpoint's value.
    pub open(crate) spec fn mid_val(&self) -> real {
        self.mid.val()
    }

    /// The radius's value.
    pub open(crate) spec fn rad_val(&self) -> real {
        self.rad.val()
    }

    /// Both parts well formed.
    pub open(crate) spec fn wf(&self) -> bool {
        self.mid.wf() && self.rad.wf()
    }

    /// Well formed with midpoint digits and radius exponent within
    /// `±BALL_EXP`, the operands of ball arithmetic.
    pub open(crate) spec fn small(&self) -> bool {
        &&& self.mid.within(BALL_EXP as int)
        &&& self.rad.within(BALL_EXP as int)
    }

    /// `x` lies in the ball.
    pub open(crate) spec fn contains_real(&self, x: real) -> bool {
        abs_real(x - self.mid.val()) <= self.rad.val()
    }

    pub fn new(mid: Float, rad: Mag) -> (r: Self)
        ensures
            r.mid_f() == mid,
            r.rad_m() == rad,
    {
        Ball { mid, rad }
    }

    /// Exact ball (radius zero).
    pub fn exact(mid: Float) -> (r: Self)
        ensures
            r.mid_f() == mid,
            r.rad_val() == 0real,
            r.rad_m().within(0),
    {
        Ball { mid, rad: Mag::zero() }
    }

    pub fn zero() -> (r: Self)
        ensures
            r.small(),
            r.mid_val() == 0real,
            r.rad_val() == 0real,
    {
        Ball::exact(Float::zero())
    }

    pub fn from_i64(v: i64) -> (r: Self)
        ensures
            r.small(),
            r.within_exp(64),
            r.mid_val() == v as real,
            r.rad_val() == 0real,
    {
        Ball::exact(Float::from_i64(v))
    }

    pub fn from_u64(v: u64) -> (r: Self)
        ensures
            r.small(),
            r.within_exp(64),
            r.mid_val() == v as real,
            r.rad_val() == 0real,
    {
        Ball::exact(Float::from_u64(v))
    }

    /// Whether both parts lie within the exponent range of ball arithmetic.
    pub(crate) fn is_small(&self) -> (r: bool)
        requires
            self.wf(),
        ensures
            r == self.small(),
    {
        self.mid.is_within(BALL_EXP) && self.rad.is_within(BALL_EXP)
    }

    /// The ball `[0 ± 2^(MAG_EXP_MAX − 1)]`, returned where a computation
    /// leaves the exponent range: it holds every real of smaller magnitude.
    /// Midpoint digits and radius exponent within `±b`.
    pub open(crate) spec fn within_exp(&self, b: int) -> bool {
        self.mid.within(b) && self.rad.within(b)
    }

    /// Certified relative accuracy in bits: unbounded (`i64::MAX`) for an
    /// exact ball, none for a zero midpoint, else the exponent gap between
    /// midpoint and radius.
    pub open(crate) spec fn rel_accuracy(&self) -> int {
        if self.rad_val() == 0real {
            i64::MAX as int
        } else if self.mid_f().mant() == 0 {
            0
        } else {
            max_int(self.mid_f().ex() - self.rad_m().ex(), 0)
        }
    }

    pub open(crate) spec fn is_whole(&self) -> bool {
        self.rad.man == 0x2000_0000 && self.rad.exp == MAG_EXP_MAX
    }

    pub(crate) fn whole() -> (r: Ball)
        ensures
            r.wf(),
            r.is_whole(),
    {
        let r = Ball { mid: Float::zero(), rad: Mag { man: 0x2000_0000, exp: MAG_EXP_MAX } };
        r
    }

    /// A copy holding the same points.
    pub(crate) fn copy(&self) -> (r: Ball)
        ensures
            r.mid_f().model_eq(&self.mid_f()),
            r.rad_m() == self.rad_m(),
            r.mid_val() == self.mid_val(),
            r.rad_val() == self.rad_val(),
            self.wf() ==> r.wf(),
            self.small() ==> r.small(),
            forall|x: real| #[trigger] r.contains_real(x) <==> self.contains_real(x),
    {
        Ball { mid: self.mid.copy(), rad: self.rad }
    }

    /// An upper bound, at 64 bits, of `|x|` over the ball: `|mid| + rad`
    /// rounded up.
    pub(crate) fn abs_upper(&self) -> (r: Float)
        requires
            self.small(),
        ensures
            r.wf(),
            !r.sign(),
            abs_real(self.mid_val()) + self.rad_val() <= r.val(),
            forall|x: real| #[trigger] self.contains_real(x) ==> abs_real(x) <= r.val(),
    {
        let rf = self.rad.to_float();
        let m = self.mid.abs();
        let (u, _) = m.add(&rf, 64, Round::Up);
        proof {
            self.rad.lemma_val_pos();
            m.lemma_val_abs();
            rf.lemma_val_abs();
            self.mid.lemma_val_abs();
            lemma_abs_mag(self.mid);
            crate::fp::lemma_mag_nonneg_pub(&m);
            crate::directed::lemma_lin_directed(m, m.neg, rf, rf.neg, 64, Round::Up);
            crate::directed::lemma_nonneg_unsigned(u);
        }
        u
    }

    /// A lower bound, at 64 bits, of the ball: `mid − rad` rounded down.
    pub(crate) fn lower_bound(&self) -> (r: Float)
        requires
            self.small(),
        ensures
            r.wf(),
            r.val() <= self.mid_val() - self.rad_val(),
            r.val() > 0real <==> self.mid_val() - self.rad_val() > 0real,
            forall|x: real| #[trigger] self.contains_real(x) ==> r.val() <= x,
    {
        let rf = self.rad.to_float();
        let (l, _) = self.mid.sub(&rf, 64, Round::Floor);
        proof {
            rf.lemma_val_abs();
            self.mid.lemma_val_abs();
            crate::directed::lemma_lin_directed(self.mid, self.mid.neg, rf, !rf.neg, 64, Round::Floor);
            let m = crate::fp::lin_mant(self.mid.mant(), self.mid.low(), self.mid.neg, rf.mant(), rf.low(), !rf.neg);
            let e = crate::fp::lin_low(self.mid.mant(), self.mid.low(), rf.mant(), rf.low());
            crate::fp::lemma_lin_exact(self.mid, self.mid.neg, rf, !rf.neg);
            crate::fp::lemma_rounded_error(m, e, 64, Round::Floor);
            lemma_pow2r_pos(e);
            let p = pow2r(e);
            if m > 0 {
                assert((m as real) * p > 0real) by (nonlinear_arith)
                    requires
                        m > 0,
                        p > 0real,
                ;
            } else {
                assert((m as real) * p <= 0real) by (nonlinear_arith)
                    requires
                        m <= 0,
                        p > 0real,
                ;
            }
        }
        l
    }

    pub fn mid(&self) -> (r: &Float)
        ensures
            *r == self.mid_f(),
    {
        &self.mid
    }

    pub fn rad(&self) -> (r: &Mag)
        ensures
            *r == self.rad_m(),
    {
        &self.rad
    }

    pub fn is_exact(&self) -> (r: bool)
        requires
            self.wf(),
        ensures
            r <==> self.rad_val() == 0real,
    {
        self.rad.is_zero()
    }

    /// Widen the radius by `err`.
    pub fn add_error(&self, err: &Mag) -> (r: Ball)
        requires
            self.small(),
            err.within(BALL_EXP as int),
        ensures
            r.wf(),
            r.mid_f().model_eq(&self.mid_f()),
            self.rad_val() + err.val() <= r.rad_val(),
            r.rad_val() <= (self.rad_val() + err.val()) + (self.rad_val() + err.val()) * pow2r(-26),
            forall|x: real| self.contains_real(x) ==> #[trigger] r.contains_real(x),
            forall|b: int| #![trigger self.within_exp(b), err.within(b)]
                0 <= b && self.within_exp(b) && err.within(b) ==> r.within_exp(b + 32),
    {
        let r = Ball { mid: self.mid.copy(), rad: self.rad.add_up(err) };
        proof {
            err.lemma_val_pos();
        }
        r
    }

    pub fn neg(&self) -> (r: Ball)
        requires
            self.wf(),
        ensures
            r.wf(),
            r.mid_val() == -self.mid_val(),
            r.rad_m() == self.rad_m(),
            r.mid_f().mant() == self.mid_f().mant(),
            r.mid_f().low() == self.mid_f().low(),
            r.mid_f().mant() > 0 ==> r.mid_f().sign() == !self.mid_f().sign(),
            r.rel_accuracy() == self.rel_accuracy(),
            self.small() ==> r.small(),
            forall|x: real| self.contains_real(x) ==> #[trigger] r.contains_real(-x),
    {
        Ball { mid: self.mid.neg(), rad: self.rad }
    }
    /// Round the midpoint to `prec` bits, absorbing the change into the radius.
    pub fn round(&self, prec: u32) -> (r: Ball)
        requires
            self.small(),
            prec >= 2,
        ensures
            r.wf(),
            r.mid_val() == rounded(self.mid_f().sm(), self.mid_f().low(), prec as nat, Round::Nearest),
            self.rad_val() + abs_real(r.mid_val() - self.mid_val()) <= r.rad_val(),
            forall|x: real| self.contains_real(x) ==> #[trigger] r.contains_real(x),
            forall|b: int| #[trigger]
                self.within_exp(b) && 0 <= b ==> r.within_exp(b + prec + 128),            self.rel_accuracy() >= prec + 3 ==> r.rel_accuracy() >= prec,
    {
        let (mid, inexact) = self.mid.round(prec, Round::Nearest);
        proof {
            mid.lemma_mant_bounds();
        }
        let err = round_err(&mid, inexact, prec);
        let rad = self.rad.add_up(&err);
        proof {
            lemma_nearest_bound(mid, self.mid.sm(), self.mid.low(), prec as nat, inexact, err);
            self.rad.lemma_val_pos();
            err.lemma_val_pos();
            rad.lemma_val_pos();
            if self.rel_accuracy() >= prec + 3 && self.rad_val() != 0real {
                self.mid.lemma_mant_bounds();
                lemma_round_exp(self.mid, mid, prec as nat);
                let e1 = mid.ex();
                lemma_pow2r_le(self.rad.ex(), e1 - prec - 2);
                lemma_pow2r_pos(e1 - prec - 2);
                lemma_pow2r_pos(-26);
                lemma_pow2r_le(-26, -2);
                crate::dyadic::lemma_pow2r_nat(0);
                vstd::arithmetic::power2::lemma2_to64();
                assert(pow2r(-2) == 1real / 4real);
                lemma_pow2r_add(e1 - prec - 2, 1);
                lemma_pow2r_add(e1 - prec - 2, 2);
                crate::dyadic::lemma_pow2r_nat(1);
                crate::dyadic::lemma_pow2r_nat(2);
                let h = pow2r(e1 - prec - 2);
                let d = pow2r(-26);
                assert(pow2r(0) == 1real);
                assert(err.val() <= h * 2real);
                assert(self.rad.val() < h);
                assert(rad.val() < h * 4real) by (nonlinear_arith)
                    requires
                        rad.val() <= (self.rad.val() + err.val()) + (self.rad.val() + err.val()) * d,
                        0real <= self.rad.val() < h,
                        0real <= err.val() <= h * 2real,
                        0real < d <= 1real / 4real,
                        h > 0real,
                ;
                if rad.ex() > e1 - prec {
                    lemma_pow2r_le(e1 - prec, rad.ex() - 1);
                }
            }
        }
        Ball { mid, rad }
    }

    /// Exact scaling by 2^k.
    pub fn mul_2exp(&self, k: i64) -> (r: Ball)
        requires
            self.small(),
            -BALL_EXP <= k <= BALL_EXP,
        ensures
            r.wf(),
            r.mid_val() == self.mid_val() * pow2r(k as int),
            r.rad_val() == self.rad_val() * pow2r(k as int),
            r.rel_accuracy() == self.rel_accuracy(),
            forall|x: real| self.contains_real(x) ==> #[trigger] r.contains_real(x * pow2r(k as int)),
    {
        let r = Ball { mid: self.mid.mul_2exp(k), rad: self.rad.mul_2exp(k) };
        proof {
            lemma_pow2r_pos(k as int);
            self.rad.lemma_val_pos();
            r.rad.lemma_val_pos();
            let p = pow2r(k as int);
            assert(self.rad_val() * p == 0real <==> self.rad_val() == 0real) by (nonlinear_arith)
                requires
                    p > 0real,
            ;
            assert forall|x: real| self.contains_real(x) implies #[trigger] r.contains_real(
                x * pow2r(k as int),
            ) by {
                let p = pow2r(k as int);
                assert(abs_real(x * p - self.mid_val() * p) <= self.rad_val() * p) by (nonlinear_arith)
                    requires
                        abs_real(x - self.mid_val()) <= self.rad_val(),
                        p > 0real,
                ;
            }
        }
        r
    }

    /// `self + other` at precision `prec`.
    pub fn add(&self, other: &Ball, prec: u32) -> (r: Ball)
        requires
            self.small(),
            other.small(),
            prec >= 2,
        ensures
            r.wf(),
            r.mid_val() == rounded(
                lin_mant(
                    self.mid_f().mant(),
                    self.mid_f().low(),
                    self.mid_f().sign(),
                    other.mid_f().mant(),
                    other.mid_f().low(),
                    other.mid_f().sign(),
                ),
                lin_low(self.mid_f().mant(), self.mid_f().low(), other.mid_f().mant(), other.mid_f().low()),
                prec as nat,
                Round::Nearest,
            ),
            self.rad_val() + other.rad_val() + abs_real(r.mid_val() - (self.mid_val() + other.mid_val()))
                <= r.rad_val(),
            self.rad_val() == 0real && other.rad_val() == 0real && !round_inexact(
                abs_int(
                    lin_mant(
                        self.mid_f().mant(),
                        self.mid_f().low(),
                        self.mid_f().sign(),
                        other.mid_f().mant(),
                        other.mid_f().low(),
                        other.mid_f().sign(),
                    ),
                ),
                false,
                prec as nat,
            ) ==> r.rad_val() == 0real,
            within_slack(r.rad_val(), self.rad_val() + other.rad_val() + pow2r(r.mid_f().ex() - prec - 1), -24),
            forall|x: real, y: real|
                #![trigger self.contains_real(x), other.contains_real(y)]
                self.contains_real(x) && other.contains_real(y) ==> r.contains_real(x + y),
    {
        let (mid, inexact) = self.mid.add(&other.mid, prec, Round::Nearest);
        proof {
            mid.lemma_mant_bounds();
        }
        let err = round_err(&mid, inexact, prec);
        proof {
            self.rad.lemma_val_pos();
            other.rad.lemma_val_pos();
            err.lemma_val_pos();
        }
        let t = self.rad.add_up(&other.rad);
        let rad = t.add_up(&err);
        proof {
            lemma_pow2r_pos(mid.ex() - prec - 1);
            reveal(within_slack);
            lemma_sum_slack(
                self.rad_val() + other.rad_val(),
                t.val(),
                err.val(),
                rad.val(),
                pow2r(mid.ex() - prec - 1),
            );
            let a = self.mid;
            let b = other.mid;
            lemma_lin_exact(a, a.neg, b, b.neg);
            a.lemma_val_abs();
            b.lemma_val_abs();
            lemma_nearest_bound(
                mid,
                lin_mant(a.mant(), a.low(), a.neg, b.mant(), b.low(), b.neg),
                lin_low(a.mant(), a.low(), b.mant(), b.low()),
                prec as nat,
                inexact,
                err,
            );
        }
        Ball { mid, rad }
    }

    pub fn sub(&self, other: &Ball, prec: u32) -> (r: Ball)
        requires
            self.small(),
            other.small(),
            prec >= 2,
        ensures
            r.wf(),
            r.mid_val() == rounded(
                lin_mant(
                    self.mid_f().mant(),
                    self.mid_f().low(),
                    self.mid_f().sign(),
                    other.mid_f().mant(),
                    other.mid_f().low(),
                    !other.mid_f().sign(),
                ),
                lin_low(self.mid_f().mant(), self.mid_f().low(), other.mid_f().mant(), other.mid_f().low()),
                prec as nat,
                Round::Nearest,
            ),
            self.rad_val() + other.rad_val() + abs_real(r.mid_val() - (self.mid_val() - other.mid_val()))
                <= r.rad_val(),
            within_slack(r.rad_val(), self.rad_val() + other.rad_val() + pow2r(r.mid_f().ex() - prec - 1), -24),
            forall|x: real, y: real|
                #![trigger self.contains_real(x), other.contains_real(y)]
                self.contains_real(x) && other.contains_real(y) ==> r.contains_real(x - y),
    {
        let n = other.neg();
        let r = self.add(&n, prec);
        proof {
            let b = other.mid_f();
            if b.mant() == 0 {
                let lo = lin_low(self.mid_f().mant(), self.mid_f().low(), b.mant(), b.low());
                assert(b.mant() * vstd::arithmetic::power2::pow2((b.low() - lo) as nat) == 0);
            }
            assert(lin_mant(self.mid_f().mant(), self.mid_f().low(), self.mid_f().sign(), b.mant(), b.low(), n.mid_f().sign())
                == lin_mant(self.mid_f().mant(), self.mid_f().low(), self.mid_f().sign(), b.mant(), b.low(), !b.sign()));
            assert forall|x: real, y: real|
                #![trigger self.contains_real(x), other.contains_real(y)]
                self.contains_real(x) && other.contains_real(y) implies r.contains_real(x - y) by {
                assert(n.contains_real(-y));
                assert(x + -y == x - y);
            }
        }
        r
    }

    /// `self · other` at precision `prec`.
    #[verifier::spinoff_prover]
    #[verifier::rlimit(60)]
    pub fn mul(&self, other: &Ball, prec: u32) -> (r: Ball)
        requires
            self.small(),
            other.small(),
            prec >= 2,
        ensures
            r.wf(),
            r.mid_val() == rounded(
                self.mid_f().sm() * other.mid_f().sm(),
                self.mid_f().low() + other.mid_f().low(),
                prec as nat,
                Round::Nearest,
            ),
            self.rad_val() * (abs_real(other.mid_val()) + other.rad_val()) + abs_real(self.mid_val())
                * other.rad_val() + abs_real(r.mid_val() - self.mid_val() * other.mid_val())
                <= r.rad_val(),
            within_slack(
                r.rad_val(),
                self.rad_val() * (abs_real(other.mid_val()) + other.rad_val()) + abs_real(self.mid_val())
                    * other.rad_val() + pow2r(r.mid_f().ex() - prec - 1),
                -20,
            ),
            forall|b: int|
                #![trigger self.within_exp(b), other.within_exp(b)]
                0 <= b <= 0x1_0000_0000_0000 && self.within_exp(b) && other.within_exp(b) ==> r.within_exp(
                    2 * b + prec + 1024,
                ),
            forall|x: real, y: real|
                #![trigger self.contains_real(x), other.contains_real(y)]
                self.contains_real(x) && other.contains_real(y) ==> r.contains_real(x * y),
    {
        let (mid, inexact) = self.mid.mul(&other.mid, prec, Round::Nearest);
        proof {
            mid.lemma_mant_bounds();
        }
        let ma = Mag::from_float_upper(&self.mid);
        let mb = Mag::from_float_upper(&other.mid);
        proof {
            self.mid.lemma_mant_bounds();
            other.mid.lemma_mant_bounds();
        }
        let err = round_err(&mid, inexact, prec);
        let sb = mb.add_up(&other.rad);
        let t1 = self.rad.mul_up(&sb);
        let t2 = ma.mul_up(&other.rad);
        let t = t1.add_up(&t2);
        let rad = t.add_up(&err);
        proof {
            lemma_abs_mag(self.mid);
            lemma_abs_mag(other.mid);
            self.rad.lemma_val_pos();
            other.rad.lemma_val_pos();
            err.lemma_val_pos();
            lemma_pow2r_pos(mid.ex() - prec - 1);
            reveal(within_slack);
            lemma_mul_slack(
                self.rad.val(),
                other.rad.val(),
                abs_real(self.mid.val()),
                abs_real(other.mid.val()),
                ma.val(),
                mb.val(),
                sb.val(),
                t1.val(),
                t2.val(),
                t.val(),
                err.val(),
                rad.val(),
                pow2r(mid.ex() - prec - 1),
            );
        }
        proof {
            let a = self.mid;
            let b = other.mid;
            a.lemma_val_abs();
            b.lemma_val_abs();
            crate::directed::lemma_mul_exact(a, b);
            assert(abs_int(a.sm() * b.sm()) == a.mant() * b.mant()) by (nonlinear_arith)
                requires
                    a.sm() == (if a.neg {
                        -(a.mant() as int)
                    } else {
                        a.mant() as int
                    }),
                    b.sm() == (if b.neg {
                        -(b.mant() as int)
                    } else {
                        b.mant() as int
                    }),
            ;
            lemma_nearest_bound(mid, a.sm() * b.sm(), a.low() + b.low(), prec as nat, inexact, err);
            lemma_abs_mag(a);
            lemma_abs_mag(b);
            self.rad.lemma_val_pos();
            other.rad.lemma_val_pos();
            ma.lemma_val_pos();
            mb.lemma_val_pos();
            let ra = self.rad.val();
            let rb = other.rad.val();
            assert(ra * (abs_real(b.val()) + rb) <= t1.val()) by (nonlinear_arith)
                requires
                    ra * sb.val() <= t1.val(),
                    mb.val() + rb <= sb.val(),
                    abs_real(b.val()) <= mb.val(),
                    ra >= 0real,
            ;
            assert(abs_real(a.val()) * rb <= t2.val()) by (nonlinear_arith)
                requires
                    ma.val() * rb <= t2.val(),
                    abs_real(a.val()) <= ma.val(),
                    rb >= 0real,
            ;
            assert forall|x: real, y: real|
                #![trigger self.contains_real(x), other.contains_real(y)]
                self.contains_real(x) && other.contains_real(y) implies r_contains(mid, rad, x * y) by {
                lemma_mul_error(x, y, a.val(), b.val(), ra, rb);
            }
        }
        proof {
            assert forall|b: int|
                #![trigger self.within_exp(b), other.within_exp(b)]
                0 <= b <= 0x1_0000_0000_0000 && self.within_exp(b) && other.within_exp(b) implies (Ball {
                    mid,
                    rad,
                }).within_exp(2 * b + prec + 1024) by {
                mid.lemma_mant_bounds();
                self.mid.lemma_mant_bounds();
                other.mid.lemma_mant_bounds();
                ma.lemma_val_pos();
                mb.lemma_val_pos();
            }
        }
        Ball { mid, rad }
    }

    /// Multiply by an exact small integer.
    pub fn mul_i64(&self, v: i64, prec: u32) -> (r: Ball)
        requires
            self.small(),
            prec >= 2,
        ensures
            r.wf(),
            forall|x: real| #[trigger] self.contains_real(x) ==> r.contains_real(x * v as real),
            self.rad_val() * abs_real(v as real) + abs_real(r.mid_val() - self.mid_val() * v as real)
                <= r.rad_val(),
            within_slack(
                r.rad_val(),
                self.rad_val() * abs_real(v as real) + pow2r(r.mid_f().ex() - prec - 1),
                -20,
            ),
            forall|w: int| #[trigger]
                self.within_exp(w) && 64 <= w <= 0x1_0000_0000_0000 ==> r.within_exp(2 * w + prec + 1024),
    {
        let b = Ball::from_i64(v);
        let r = self.mul(&b, prec);
        proof {
            assert(self.rad_val() * (abs_real(b.mid_val()) + b.rad_val()) == self.rad_val() * abs_real(
                v as real,
            ));
            assert(abs_real(self.mid_val()) * b.rad_val() == 0real);
            assert forall|w: int| #[trigger]
                self.within_exp(w) && 64 <= w <= 0x1_0000_0000_0000 implies r.within_exp(2 * w + prec + 1024) by {
                assert(b.within_exp(w));
            }
            assert forall|x: real| #[trigger] self.contains_real(x) implies r.contains_real(x * v as real) by {
                assert(b.contains_real(v as real));
            }
        }
        r
    }
    /// Does the ball contain zero? True iff `|mid| <= rad`.
    pub fn contains_zero(&self) -> (r: bool)
        requires
            self.small(),
        ensures
            r <==> self.contains_real(0real),
    {
        let rf = self.rad.to_float();
        proof {
            lemma_abs_mag(self.mid);
            lemma_abs_mag(rf);
            rf.lemma_val_abs();
        }
        match self.mid.cmp_abs(&rf) {
            Ordering::Greater => false,
            _ => true,
        }
    }

    /// Certain containment of an exact dyadic point: `|x − mid| <= rad`,
    /// decided exactly.
    pub fn contains(&self, x: &Float) -> (r: bool)
        requires
            self.small(),
            x.within(0x0100_0000_0000_0000),
            sub_span(*x, self.mid_f()) <= 0xFFFF_FFFF,
        ensures
            r <==> self.contains_real(x.val()),
    {
        let span = exact_sub_prec(x, &self.mid);
        let (d, _inexact) = x.sub(&self.mid, span, Round::Nearest);
        let rf = self.rad.to_float();
        proof {
            lemma_exact_sum(*x, x.neg, self.mid, !self.mid.neg, span, Round::Nearest);
            x.lemma_val_abs();
            self.mid.lemma_val_abs();
            lemma_abs_mag(d);
            lemma_abs_mag(rf);
            rf.lemma_val_abs();
        }
        match d.cmp_abs(&rf) {
            Ordering::Greater => false,
            _ => true,
        }
    }

    /// Relative accuracy in bits: how many significant bits of the midpoint
    /// are certified (0 if the ball carries no information).
    pub fn rel_accuracy_bits(&self) -> (r: i64)
        requires
            self.wf(),
        ensures
            r == self.rel_accuracy(),
    {
        if self.rad.is_zero() {
            return i64::MAX;
        }
        match self.mid.exponent() {
            None => 0,
            Some(e) => {
                let d = e - self.rad.exp();
                if d > 0 {
                    d
                } else {
                    0
                }
            },
        }
    }

    /// The interval hull endpoints `[mid − rad, mid + rad]` as exact floats.
    pub fn endpoints(&self) -> (r: (Float, Float))
        requires
            self.small(),
            abs_int(self.mid_f().ex() - self.rad_m().ex()) + 64 * (self.mid_f().nlimbs() + 1) + 2
                <= 0xFFFF_FFFF,
        ensures
            r.0.wf(),
            r.1.wf(),
            r.0.val() == self.mid_val() - self.rad_val(),
            r.1.val() == self.mid_val() + self.rad_val(),
    {
        let rf = self.rad.to_float();
        proof {
            self.rad.lemma_val_pos();
            rf.lemma_mant_bounds();
        }
        let span = exact_sub_prec(&self.mid, &rf);
        let (lo, _) = self.mid.sub(&rf, span, Round::Floor);
        let (hi, _) = self.mid.add(&rf, span, Round::Ceil);
        proof {
            lemma_exact_sum(self.mid, self.mid.neg, rf, !rf.neg, span, Round::Floor);
            lemma_exact_sum(self.mid, self.mid.neg, rf, rf.neg, span, Round::Ceil);
            self.mid.lemma_val_abs();
            rf.lemma_val_abs();
            lemma_abs_mag(rf);
        }
        (lo, hi)
    }
    /// `self / other`, or `None` if the divisor ball contains zero.
    #[verifier::rlimit(100)]
    #[verifier::spinoff_prover]
    pub fn try_div(&self, other: &Ball, prec: u32) -> (r: Option<Ball>)
        requires
            self.small(),
            other.small(),
            prec >= 2,
        ensures
            r is None <==> other.contains_real(0real),
            r is Some ==> r->0.wf(),
            r is Some ==> r->0.mid_val() == div_nearest(self.mid_f(), other.mid_f(), prec as nat),
            r is Some ==> forall|x: real, y: real|
                #![trigger self.contains_real(x), other.contains_real(y)]
                self.contains_real(x) && other.contains_real(y) ==> y != 0real && r->0.contains_real(
                    x / y,
                ),
            r is Some && exact_operands(*self, *other) ==> r->0.small() && r->0.within_exp(0x1000_0000_0000)
                && r->0.rel_accuracy() >= prec,
            r is Some ==> forall|b: int|
                #![trigger self.within_exp(b), other.within_exp(b)]
                0 <= b <= 0x1_0000_0000_0000 && self.within_exp(b) && other.within_exp(b) ==> r->0.within_exp(
                    16 * b + 0x10_0000_0000,
                ),
    {
        let amb = other.mid.abs();
        let rb_f = other.rad.to_float();
        proof {
            other.mid.lemma_mant_bounds();
            self.mid.lemma_mant_bounds();
            other.rad.lemma_val_pos();
            self.rad.lemma_val_pos();
            rb_f.lemma_mant_bounds();
            lemma_abs_mag(other.mid);
            lemma_abs_mag(amb);
            lemma_abs_mag(rb_f);
            amb.lemma_val_abs();
            rb_f.lemma_val_abs();
        }
        let (l, _) = amb.sub(&rb_f, 64, Round::Down);
        let ghost lm = lin_mant(amb.mant(), amb.low(), amb.neg, rb_f.mant(), rb_f.low(), !rb_f.neg);
        let ghost llo = lin_low(amb.mant(), amb.low(), rb_f.mant(), rb_f.low());
        proof {
            lemma_lin_exact(amb, amb.neg, rb_f, !rb_f.neg);
            lemma_rounded_error(lm, llo, 64, Round::Down);
            lemma_pow2r_pos(llo);
            assert(lm as real * pow2r(llo) == other.mid.mag() - other.rad.val());
            assert(lm > 0 <==> other.mid.mag() - other.rad.val() > 0real) by (nonlinear_arith)
                requires
                    lm as real * pow2r(llo) == other.mid.mag() - other.rad.val(),
                    pow2r(llo) > 0real,
            ;
            assert(lm > 0 <==> (lm as real) > 0real) by {
                crate::fp::lemma_real_cast_order(0, lm);
            }
            l.lemma_val_sign();
        }
        if l.signum() <= 0 {
            return None;
        }
        proof {
            crate::fp::lemma_mag_zero_pub(other.mid.mant(), other.mid.low());
        }
        let (mid, inexact) = self.mid.div(&other.mid, prec, Round::Nearest);
        proof {
            mid.lemma_mant_bounds();
        }
        let ama = self.mid.abs();
        let ra_f = self.rad.to_float();
        let (n1, _) = amb.mul(&ra_f, 64, Round::Up);
        let (n2, _) = ama.mul(&rb_f, 64, Round::Up);
        proof {
            ra_f.lemma_mant_bounds();
            lemma_abs_mag(self.mid);
            lemma_abs_mag(ama);
            lemma_abs_mag(ra_f);
            ama.lemma_val_abs();
            ra_f.lemma_val_abs();
            lemma_product_up(amb, ra_f);
            lemma_product_up(ama, rb_f);
            n1.lemma_val_sign();
            n2.lemma_val_sign();
            n1.lemma_mant_bounds();
            n2.lemma_mant_bounds();
        }
        let (num, _) = n1.add(&n2, 64, Round::Up);
        let (den, _) = l.mul(&amb, 64, Round::Down);
        proof {
            lemma_lin_exact(n1, n1.neg, n2, n2.neg);
            n1.lemma_val_abs();
            n2.lemma_val_abs();
            lemma_abs_mag(n1);
            lemma_abs_mag(n2);
            let m3 = lin_mant(n1.mant(), n1.low(), n1.neg, n2.mant(), n2.low(), n2.neg);
            let lo3 = lin_low(n1.mant(), n1.low(), n2.mant(), n2.low());
            lemma_rounded_error(m3, lo3, 64, Round::Up);
            lemma_pow2r_pos(lo3);
            assert(m3 as real * pow2r(lo3) == n1.val() + n2.val());
            assert(amb.val() * ra_f.val() >= 0real) by (nonlinear_arith)
                requires
                    amb.val() >= 0real,
                    ra_f.val() >= 0real,
            ;
            assert(ama.val() * rb_f.val() >= 0real) by (nonlinear_arith)
                requires
                    ama.val() >= 0real,
                    rb_f.val() >= 0real,
            ;
            assert(m3 >= 0) by {
                assert((m3 as real) * pow2r(lo3) >= 0real);
                assert(m3 >= 0 <==> (m3 as real) >= 0real) by {
                    crate::fp::lemma_real_cast_order(0, m3);
                }
                assert((m3 as real) >= 0real) by (nonlinear_arith)
                    requires
                        (m3 as real) * pow2r(lo3) >= 0real,
                        pow2r(lo3) > 0real,
                ;
            }
            lemma_product_down_pos(l, amb);
            num.lemma_mant_bounds();
            den.lemma_mant_bounds();
            num.lemma_val_sign();
            den.lemma_val_sign();
            lemma_abs_mag(num);
            lemma_abs_mag(den);
        }
        let (bound, _) = num.div(&den, 64, Round::Up);
        proof {
            bound.lemma_mant_bounds();
        }
        let err = round_err(&mid, inexact, prec);
        let fu = Mag::from_float_upper(&bound);
        let rad = fu.add_up(&err);
        proof {
            // the midpoint is within err of the exact quotient of midpoints
            lemma_div_value(self.mid, other.mid, prec as nat);
            let s0 = crate::fp::div_shift(self.mid.nlimbs(), other.mid.nlimbs(), prec as nat);
            let n0 = self.mid.mant() * crate::limb_spec::limb_weight(s0);
            let d0 = (n0 % other.mid.mant()) as real / other.mid.mant() as real;
            let negq = self.mid.neg != other.mid.neg;
            lemma_nearest_window_bound(
                mid,
                negq,
                div_quo(self.mid, other.mid, prec as nat),
                div_bot(self.mid, other.mid, prec as nat),
                div_sticky(self.mid, other.mid, prec as nat),
                d0,
                prec as nat,
                inexact,
                err,
            );
            self.mid.lemma_val_abs();
            other.mid.lemma_val_abs();
            lemma_signed_quotient(self.mid, other.mid);
            // the bound dominates num / den
            lemma_div_value(num, den, 64);
            let s1 = crate::fp::div_shift(num.nlimbs(), den.nlimbs(), 64);
            let n1v = num.mant() * crate::limb_spec::limb_weight(s1);
            let d1 = (n1v % den.mant()) as real / den.mant() as real;
            lemma_window_error(
                div_quo(num, den, 64),
                div_bot(num, den, 64),
                div_sticky(num, den, 64),
                d1,
                64,
                crate::dyadic::MagRound::Up,
            );
            assert(bound.val() >= num.mag() / den.mag());
            bound.lemma_val_abs();
            lemma_abs_mag(bound);
            err.lemma_val_pos();
            fu.lemma_val_pos();
            let ra = self.rad.val();
            let rb = other.rad.val();
            let lv = l.val();
            assert forall|x: real, y: real|
                #![trigger self.contains_real(x), other.contains_real(y)]
                self.contains_real(x) && other.contains_real(y) implies y != 0real && r_contains(
                    mid,
                    rad,
                    x / y,
                ) by {
                lemma_div_error(x, y, self.mid.val(), other.mid.val(), ra, rb, lv);
                lemma_quotient_chain(
                    x / y,
                    self.mid.val() / other.mid.val(),
                    mid.val(),
                    ra,
                    rb,
                    abs_real(self.mid.val()),
                    abs_real(other.mid.val()),
                    lv,
                    n1.val(),
                    n2.val(),
                    num.val(),
                    den.val(),
                    bound.val(),
                    fu.val(),
                    err.val(),
                    rad.val(),
                );
            }
            if exact_operands(*self, *other) {
                // exact operands: the radius is the midpoint's rounding alone
                assert(ra_f.mant() == 0 && rb_f.mant() == 0);
                assert(amb.sm() * ra_f.sm() == 0);
                assert(ama.sm() * rb_f.sm() == 0);
                crate::fp::lemma_window_zero(false, 0, amb.low() + ra_f.low(), 64, Round::Up);
                crate::fp::lemma_window_zero(false, 0, ama.low() + rb_f.low(), 64, Round::Up);
                n1.lemma_val_zero();
                n2.lemma_val_zero();
                let lo3 = lin_low(n1.mant(), n1.low(), n2.mant(), n2.low());
                assert(n1.mant() * vstd::arithmetic::power2::pow2((n1.low() - lo3) as nat) == 0);
                assert(n2.mant() * vstd::arithmetic::power2::pow2((n2.low() - lo3) as nat) == 0);
                assert(lin_mant(n1.mant(), n1.low(), n1.neg, n2.mant(), n2.low(), n2.neg) == 0);
                crate::fp::lemma_window_zero(false, 0, lo3, 64, Round::Up);
                assert(num.val() == 0real);
                num.lemma_val_zero();
                assert(num.mant() == 0);
                let lw = crate::limb_spec::limb_weight(crate::fp::div_shift(num.nlimbs(), den.nlimbs(), 64));
                assert(num.mant() * lw == 0) by (nonlinear_arith)
                    requires
                        num.mant() == 0,
                ;
                crate::fp::lemma_window_zero(num.sign() != den.sign(), 0, div_bot(num, den, 64), 64, Round::Up);
                bound.lemma_val_zero();
                assert(fu.mn() == 0);
                assert(rad == err);
                mid.lemma_mant_bounds();
            }
        }
        proof {
            assert forall|b: int|
                #![trigger self.within_exp(b), other.within_exp(b)]
                0 <= b <= 0x1_0000_0000_0000 && self.within_exp(b) && other.within_exp(b) implies (Ball {
                    mid,
                    rad,
                }).within_exp(16 * b + 0x10_0000_0000) by {
                lemma_div_within(
                    self.mid,
                    other.mid,
                    self.rad,
                    other.rad,
                    ra_f,
                    rb_f,
                    l,
                    mid,
                    n1,
                    n2,
                    num,
                    den,
                    bound,
                    fu,
                    err,
                    rad,
                    prec as nat,
                    b,
                );
            }
        }
        Some(Ball { mid, rad })
    }
    /// `self / other`; the divisor ball must exclude zero.
    pub fn div(&self, other: &Ball, prec: u32) -> (r: Ball)
        requires
            self.small(),
            other.small(),
            prec >= 2,
            !other.contains_real(0real),
        ensures
            r.wf(),
            r.mid_val() == div_nearest(self.mid_f(), other.mid_f(), prec as nat),
            forall|x: real, y: real|
                #![trigger self.contains_real(x), other.contains_real(y)]
                self.contains_real(x) && other.contains_real(y) ==> y != 0real && r.contains_real(x / y),
            exact_operands(*self, *other) ==> r.small() && r.within_exp(0x1000_0000_0000) && r.rel_accuracy()
                >= prec,
            forall|b: int|
                #![trigger self.within_exp(b), other.within_exp(b)]
                0 <= b <= 0x1_0000_0000_0000 && self.within_exp(b) && other.within_exp(b) ==> r.within_exp(
                    16 * b + 0x10_0000_0000,
                ),
    {
        let r = self.try_div(other, prec);
        r.unwrap()
    }

    /// Divide by an exact small positive integer.
    pub fn div_u64(&self, v: u64, prec: u32) -> (r: Ball)
        requires
            self.small(),
            prec >= 2,
            v != 0,
        ensures
            r.wf(),
            forall|x: real| #[trigger] self.contains_real(x) ==> r.contains_real(x / v as real),
            forall|b: int| #[trigger]
                self.within_exp(b) && 64 <= b <= 0x1_0000_0000_0000 ==> r.within_exp(16 * b + 0x10_0000_0000),
    {
        let d = Ball::from_u64(v);
        proof {
            crate::fp::lemma_real_cast_order(0, v as int);
        }
        let r = self.div(&d, prec);
        proof {
            assert forall|b: int| #[trigger]
                self.within_exp(b) && 64 <= b <= 0x1_0000_0000_0000 implies r.within_exp(16 * b + 0x10_0000_0000) by {
                assert(d.within_exp(b));
            }
            assert forall|x: real| #[trigger] self.contains_real(x) implies r.contains_real(x / v as real) by {
                assert(d.contains_real(v as real));
            }
        }
        r
    }

    /// `sqrt` of a ball that reaches down to zero, given the rounded root
    /// `mid` of its midpoint within `err` of a true root `c`: every root
    /// lies in `[0, 2^k)` where `2^(2k)` exceeds `|mid| + rad`.
    fn sqrt_reaching_zero(&self, mid: Float, err: Mag, Ghost(c): Ghost<real>) -> (r: Ball)
        requires
            self.small(),
            self.mid_val() - self.rad_val() >= 0real,
            mid.wf(),
            err.within(MAG_EXP_MAX - 128),
            0real <= c,
            c * c <= self.mid_val(),
            abs_real(mid.val() - c) <= err.val(),
        ensures
            r.wf(),
            r.mid_f() == mid,
            forall|x: real, s: real|
                #![trigger self.contains_real(x), is_root(s, x)]
                self.contains_real(x) && is_root(s, x) ==> r.contains_real(s),
    {
        proof {
            self.mid.lemma_mant_bounds();
            self.rad.lemma_val_pos();
            self.mid.lemma_val_abs();
            lemma_abs_mag(self.mid);
            err.lemma_val_pos();
        }
        let mm = Mag::from_float_upper(&self.mid);
        let hm = mm.add_up(&self.rad);
        let e = hm.exp();
        let k: i64 = if e >= 0 {
            ((e as u64 + 1) / 2) as i64
        } else {
            -((((0 - e) as u64) / 2) as i64)
        };
        let p = Mag::two_exp(k);
        let rad = p.add_up(&err);
        proof {
            let pv = pow2r(k as int);
            assert(2 * k >= e);
            lemma_pow2r_le(e as int, 2 * k);
            lemma_pow2r_add(k as int, k as int);
            lemma_pow2r_pos(k as int);
            assert(self.mid_val() + self.rad_val() < pv * pv);
            lemma_below_square(c, pv);
            assert forall|x: real, s: real|
                #![trigger self.contains_real(x), is_root(s, x)]
                self.contains_real(x) && is_root(s, x) implies r_contains(mid, rad, s) by {
                lemma_below_square(s, pv);
            }
        }
        Ball { mid, rad }
    }

    /// `sqrt(self)`; the ball must hold no negative numbers.
    #[verifier::rlimit(20)]
    pub fn sqrt(&self, prec: u32) -> (r: Ball)
        requires
            self.small(),
            prec >= 2,
            self.mid_val() - self.rad_val() >= 0real,
        ensures
            r.wf(),
            r.mid_val() == sqrt_nearest(self.mid_f(), prec as nat),
            self.rad_val() == 0real && self.mid_f().within(0x100_0000_0000) ==> r.within_exp(0x1000_0000_0000),
            forall|x: real, s: real|
                #![trigger self.contains_real(x), is_root(s, x)]
                self.contains_real(x) && is_root(s, x) ==> r.contains_real(s),
    {
        let ra_f = self.rad.to_float();
        proof {
            self.mid.lemma_mant_bounds();
            self.mid.lemma_val_sign();
            self.rad.lemma_val_pos();
            ra_f.lemma_mant_bounds();
            lemma_abs_mag(ra_f);
            ra_f.lemma_val_abs();
            self.mid.lemma_val_abs();
        }
        let (l, _) = self.mid.sub(&ra_f, 64, Round::Down);
        let (mid, inexact) = self.mid.sqrt(prec, Round::Nearest);
        proof {
            mid.lemma_mant_bounds();
        }
        let err = round_err(&mid, inexact, prec);
        let ghost a = self.mid;
        let ghost x0 = sqrt_radicand(a, prec as nat);
        let ghost sr = isqrt_spec(x0);
        let ghost bot = sqrt_bot(a, prec as nat);
        let ghost c = sr as real * pow2r(bot);
        let ghost c1 = (sr + 1) as real * pow2r(bot);
        proof {
            err.lemma_val_pos();
            lemma_sqrt_radicand(a, prec as nat);
            lemma_isqrt(x0);
            lemma_pow2r_pos(bot);
            // the computed root is within err of every point of its window
            // that the radicand's stickiness admits
            assert forall|t: real|
                c <= t < c1 && (t > c <==> sr * sr != x0) implies #[trigger] within_of(
                mid.val(),
                t,
                err.val(),
            ) by {
                let p = pow2r(bot);
                let s0 = sr as real;
                let d = t / p - s0;
                assert((sr + 1) as real == s0 + 1real);
                assert(t == (s0 + d) * p && 0real <= d < 1real && (d > 0real <==> t > c)) by (
                nonlinear_arith)
                    requires
                        p > 0real,
                        d == t / p - s0,
                        c == s0 * p,
                        c1 == (s0 + 1real) * p,
                        c <= t < c1,
                ;
                lemma_nearest_window_bound(mid, false, sr, bot, sr * sr != x0, d, prec as nat, inexact, err);
            }
            lemma_window_roots(mid.val(), err.val(), sr, x0, pow2r(bot), a.val());
        }
        if self.rad.is_zero() {
            let rad = err;
            proof {
                if self.mid_f().within(0x100_0000_0000) {
                    self.mid.lemma_mant_bounds();
                    mid.lemma_mant_bounds();
                    assert((prec + 63) / 64 <= 0x400_0001) by (nonlinear_arith)
                        requires
                            prec < 0x1_0000_0000,
                    ;
                    assert(crate::fp::sqrt_t(self.mid.nlimbs(), prec as nat) <= 0x400_0003);
                    assert(mid.within(0x1000_0000_0000));
                    assert(rad.within(0x1000_0000_0000));
                }
                assert forall|x: real, s: real|
                    #![trigger self.contains_real(x), is_root(s, x)]
                    self.contains_real(x) && is_root(s, x) implies r_contains(mid, rad, s) by {
                    assert(x == self.mid_val());
                    lemma_exact_root(s, a.val(), c, c1, mid.val(), err.val());
                }
            }
            return Ball { mid, rad };
        }
        if l.signum() <= 0 {
            return self.sqrt_reaching_zero(mid, err, Ghost(c));
        }
        let ghost lm = lin_mant(self.mid.mant(), self.mid.low(), self.mid.neg, ra_f.mant(), ra_f.low(), !ra_f.neg);
        let ghost llo = lin_low(self.mid.mant(), self.mid.low(), ra_f.mant(), ra_f.low());
        proof {
            lemma_lin_exact(self.mid, self.mid.neg, ra_f, !ra_f.neg);
            lemma_rounded_error(lm, llo, 64, Round::Down);
            lemma_pow2r_pos(llo);
            assert(lm as real * pow2r(llo) == self.mid_val() - self.rad_val());
            assert(lm > 0) by {
                crate::fp::lemma_real_cast_order(0, lm);
                assert((lm as real) >= 0real) by (nonlinear_arith)
                    requires
                        lm as real * pow2r(llo) >= 0real,
                        pow2r(llo) > 0real,
                ;
                if lm == 0 {
                    assert(lm as real * pow2r(llo) == 0real);
                }
            }
            l.lemma_val_sign();
            l.lemma_mant_bounds();
        }
        let (sl, _) = l.sqrt(64, Round::Down);
        proof {
            sl.lemma_mant_bounds();
            let xl = sqrt_radicand(l, 64);
            let srl = isqrt_spec(xl);
            lemma_sqrt_radicand(l, 64);
            lemma_isqrt(xl);
            assert(srl >= 1) by (nonlinear_arith)
                requires
                    xl < (srl + 1) * (srl + 1),
                    xl >= 1,
            ;
            lemma_window_down_le(srl, sqrt_bot(l, 64), srl * srl != xl, 64);
            lemma_window_pos(srl, sqrt_bot(l, 64), srl * srl != xl, 64, crate::dyadic::MagRound::Down);
            lemma_pow2r_pos(sqrt_bot(l, 64));
            lemma_root_below(sl.val(), srl, xl, pow2r(sqrt_bot(l, 64)), l.val());
            sl.lemma_val_sign();
            lemma_abs_mag(sl);
        }
        let (den, _) = sl.mul_u64(2, 64, Round::Down);
        proof {
            den.lemma_mant_bounds();
            let m = sl.sm() * 2;
            lemma_rounded_error(m, sl.low(), 64, Round::Down);
            crate::dyadic::lemma_int_mul_real(sl.sm(), 2);
            assert(m as real * pow2r(sl.low()) == sl.val() * 2real) by (nonlinear_arith)
                requires
                    m as real == sl.sm() as real * 2real,
                    sl.val() == sl.sm() as real * pow2r(sl.low()),
            ;
            assert(m > 0) by (nonlinear_arith)
                requires
                    m == sl.sm() * 2,
                    sl.sm() > 0,
            ;
            assert(sl.sm() > 0) by {
                sl.lemma_val_abs();
                crate::fp::lemma_mag_zero_pub(sl.mant(), sl.low());
            }
            den.lemma_val_sign();
            lemma_abs_mag(den);
        }
        let (bound, _) = ra_f.div(&den, 64, Round::Up);
        proof {
            bound.lemma_mant_bounds();
            lemma_div_value(ra_f, den, 64);
            let s1 = crate::fp::div_shift(ra_f.nlimbs(), den.nlimbs(), 64);
            let n1v = ra_f.mant() * crate::limb_spec::limb_weight(s1);
            let d1 = (n1v % den.mant()) as real / den.mant() as real;
            lemma_window_error(
                div_quo(ra_f, den, 64),
                div_bot(ra_f, den, 64),
                div_sticky(ra_f, den, 64),
                d1,
                64,
                crate::dyadic::MagRound::Up,
            );
            assert(bound.val() >= ra_f.mag() / den.mag());
            bound.lemma_val_abs();
            lemma_abs_mag(bound);
        }
        let fu = Mag::from_float_upper(&bound);
        let rad = fu.add_up(&err);
        proof {
            fu.lemma_val_pos();
            let ra = self.rad.val();
            let lv = l.val();
            let slv = sl.val();
            assert forall|x: real, s: real|
                #![trigger self.contains_real(x), is_root(s, x)]
                self.contains_real(x) && is_root(s, x) implies r_contains(mid, rad, s) by {
                lemma_root_chain(
                    x,
                    s,
                    self.mid_val(),
                    ra,
                    lv,
                    slv,
                    den.val(),
                    bound.val(),
                    fu.val(),
                    err.val(),
                    rad.val(),
                    mid.val(),
                    c,
                    c1,
                );
            }
        }
        Ball { mid, rad }
    }
}

} // verus!
