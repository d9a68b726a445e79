//! Directed rounding as inequalities: what `Round::Up` and `Round::Down`
//! results of the float operations bound.
use crate::dyadic::{lemma_int_mul_real, lemma_pow2r_add, lemma_pow2r_pos, nbits, pow2r, MagRound};
use crate::fp::{
    div_bot, div_quo, div_shift, div_sticky, lemma_div_value, lemma_lin_exact, lemma_rounded_error,
    lemma_window_error, lin_low, lin_mant, rounded, signed, window_val, Float, Round, EXP_SMALL,
};
use crate::limb_spec::limb_weight;
use vstd::prelude::*;

verus! {

/// A quotient of nonnegative floats rounded up bounds the exact quotient.
pub proof fn lemma_div_up(a: Float, b: Float, prec: nat, r: real)
    requires
        a.wf(),
        b.wf(),
        b.mant() > 0,
        !a.sign(),
        !b.sign(),
        prec >= 2,
        r == window_val(
            false,
            div_quo(a, b, prec),
            div_bot(a, b, prec),
            div_sticky(a, b, prec),
            prec,
            MagRound::Up,
        ),
        div_sticky(a, b, prec) ==> nbits(div_quo(a, b, prec)) > prec,
    ensures
        a.val() / b.val() <= r,
{
    lemma_div_value(a, b, prec);
    let s = div_shift(a.nlimbs(), b.nlimbs(), prec);
    let n = a.mant() * limb_weight(s);
    let delta = (n % b.mant()) as real / b.mant() as real;
    lemma_window_error(div_quo(a, b, prec), div_bot(a, b, prec), div_sticky(a, b, prec), delta, prec, MagRound::Up);
    a.lemma_val_abs();
    b.lemma_val_abs();
}

/// A quotient of nonnegative floats rounded down is below the exact quotient.
pub proof fn lemma_div_down(a: Float, b: Float, prec: nat, r: real)
    requires
        a.wf(),
        b.wf(),
        b.mant() > 0,
        !a.sign(),
        !b.sign(),
        prec >= 2,
        r == window_val(
            false,
            div_quo(a, b, prec),
            div_bot(a, b, prec),
            div_sticky(a, b, prec),
            prec,
            MagRound::Down,
        ),
        div_sticky(a, b, prec) ==> nbits(div_quo(a, b, prec)) > prec,
    ensures
        r <= a.val() / b.val(),
{
    lemma_div_value(a, b, prec);
    let s = div_shift(a.nlimbs(), b.nlimbs(), prec);
    let n = a.mant() * limb_weight(s);
    let delta = (n % b.mant()) as real / b.mant() as real;
    lemma_window_error(div_quo(a, b, prec), div_bot(a, b, prec), div_sticky(a, b, prec), delta, prec, MagRound::Down);
    a.lemma_val_abs();
    b.lemma_val_abs();
}

/// The exact product of two floats as a dyadic.
pub proof fn lemma_mul_exact(a: Float, b: Float)
    ensures
        (a.sm() * b.sm()) as real * pow2r(a.low() + b.low()) == a.val() * b.val(),
{
    lemma_int_mul_real(a.sm(), b.sm());
    lemma_pow2r_add(a.low(), b.low());
    let x = a.sm() as real;
    let y = b.sm() as real;
    let p = pow2r(a.low());
    let q = pow2r(b.low());
    assert((x * y) * (p * q) == (x * p) * (y * q)) by (nonlinear_arith);
}

/// Rounding a product of nonnegative floats up (down) bounds it from above
/// (below).
pub proof fn lemma_mul_directed(a: Float, b: Float, prec: nat, rnd: Round)
    requires
        a.wf(),
        b.wf(),
        !a.sign(),
        !b.sign(),
        prec >= 1,
    ensures
        rnd == Round::Up ==> a.val() * b.val() <= rounded(a.sm() * b.sm(), a.low() + b.low(), prec, rnd),
        rnd == Round::Down ==> rounded(a.sm() * b.sm(), a.low() + b.low(), prec, rnd) <= a.val() * b.val(),
        rounded(a.sm() * b.sm(), a.low() + b.low(), prec, rnd) >= 0real,
{
    lemma_mul_exact(a, b);
    lemma_rounded_error(a.sm() * b.sm(), a.low() + b.low(), prec, rnd);
    assert(a.sm() >= 0 && b.sm() >= 0);
    assert(a.sm() * b.sm() >= 0) by (nonlinear_arith)
        requires
            a.sm() >= 0,
            b.sm() >= 0,
    ;
}

/// Directed rounding of a signed sum `±|a| ± |b|`: `Floor` (and `Down` on
/// a nonnegative sum) stays below it, `Ceil` (and `Up` on a nonnegative sum)
/// above.
pub proof fn lemma_lin_directed(a: Float, an: bool, b: Float, bn: bool, prec: nat, rnd: Round)
    requires
        prec >= 1,
    ensures
        ({
            let v = signed(an, a.mag()) + signed(bn, b.mag());
            let r = rounded(
                lin_mant(a.mant(), a.low(), an, b.mant(), b.low(), bn),
                lin_low(a.mant(), a.low(), b.mant(), b.low()),
                prec,
                rnd,
            );
            &&& (rnd == Round::Ceil || (rnd == Round::Up && v >= 0real)) ==> v <= r
            &&& (rnd == Round::Floor || (rnd == Round::Down && v >= 0real)) ==> r <= v
        }),
{
    let m = lin_mant(a.mant(), a.low(), an, b.mant(), b.low(), bn);
    let e = lin_low(a.mant(), a.low(), b.mant(), b.low());
    lemma_lin_exact(a, an, b, bn);
    lemma_rounded_error(m, e, prec, rnd);
    lemma_pow2r_pos(e);
    let p = pow2r(e);
    if m < 0 {
        assert((m as real) * p < 0real) by (nonlinear_arith)
            requires
                m < 0,
                p > 0real,
        ;
    }
}

/// `x^n` for a natural exponent.
pub open spec fn rpow(x: real, n: nat) -> real
    decreases n,
{
    if n == 0 {
        1real
    } else {
        x * rpow(x, (n - 1) as nat)
    }
}

pub proof fn lemma_rpow_nonneg(x: real, n: nat)
    requires
        x >= 0real,
    ensures
        rpow(x, n) >= 0real,
    decreases n,
{
    if n > 0 {
        lemma_rpow_nonneg(x, (n - 1) as nat);
        let y = rpow(x, (n - 1) as nat);
        assert(x * y >= 0real) by (nonlinear_arith)
            requires
                x >= 0real,
                y >= 0real,
        ;
    }
}

pub proof fn lemma_rpow_add(x: real, a: nat, b: nat)
    ensures
        rpow(x, a + b) == rpow(x, a) * rpow(x, b),
    decreases a,
{
    if a == 0 {
        assert(1real * rpow(x, b) == rpow(x, b));
    } else {
        lemma_rpow_add(x, (a - 1) as nat, b);
        assert((a + b - 1) as nat == (a - 1) as nat + b);
        let u = rpow(x, (a - 1) as nat);
        let v = rpow(x, b);
        assert(x * (u * v) == (x * u) * v) by (nonlinear_arith);
    }
}

pub proof fn lemma_rpow_square(x: real, h: nat)
    ensures
        rpow(x * x, h) == rpow(x, 2 * h),
    decreases h,
{
    if h > 0 {
        lemma_rpow_square(x, (h - 1) as nat);
        assert((2 * h - 1) as nat == 2 * (h - 1) as nat + 1);
        assert(rpow(x, 2 * h) == x * rpow(x, (2 * h - 1) as nat));
        assert(rpow(x, (2 * h - 1) as nat) == x * rpow(x, (2 * (h - 1)) as nat));
        let u = rpow(x, (2 * (h - 1)) as nat);
        assert((x * x) * u == x * (x * u)) by (nonlinear_arith);
    }
}

pub proof fn lemma_rpow_mono(x: real, y: real, n: nat)
    requires
        0real <= x <= y,
    ensures
        rpow(x, n) <= rpow(y, n),
    decreases n,
{
    if n > 0 {
        lemma_rpow_mono(x, y, (n - 1) as nat);
        lemma_rpow_nonneg(x, (n - 1) as nat);
        let u = rpow(x, (n - 1) as nat);
        let v = rpow(y, (n - 1) as nat);
        assert(x * u <= y * v) by (nonlinear_arith)
            requires
                0real <= x <= y,
                0real <= u <= v,
        ;
    }
}

/// A nonnegative float has no sign.
pub proof fn lemma_nonneg_unsigned(f: Float)
    requires
        f.wf(),
        f.val() >= 0real,
    ensures
        !f.sign(),
{
    f.lemma_val_sign();
}

pub proof fn lemma_rpow_pos(x: real, n: nat)
    requires
        x > 0real,
    ensures
        rpow(x, n) > 0real,
    decreases n,
{
    if n > 0 {
        lemma_rpow_pos(x, (n - 1) as nat);
        let y = rpow(x, (n - 1) as nat);
        assert(x * y > 0real) by (nonlinear_arith)
            requires
                x > 0real,
                y > 0real,
        ;
    }
}

/// For a base of at least one, a larger exponent gives a larger power.
pub proof fn lemma_rpow_exp_mono(x: real, a: nat, b: nat)
    requires
        x >= 1real,
        a <= b,
    ensures
        rpow(x, a) <= rpow(x, b),
    decreases b,
{
    if a < b {
        lemma_rpow_exp_mono(x, a, (b - 1) as nat);
        lemma_rpow_pos(x, (b - 1) as nat);
        let y = rpow(x, (b - 1) as nat);
        assert(y <= x * y) by (nonlinear_arith)
            requires
                x >= 1real,
                y > 0real,
        ;
    }
}

/// `1^n = 1`.
pub proof fn lemma_rpow_one(n: nat)
    ensures
        rpow(1real, n) == 1real,
    decreases n,
{
    if n > 0 {
        lemma_rpow_one((n - 1) as nat);
    }
}

/// The largest digit exponent of `x` in magnitude: `x`'s digits lie
/// within `[2^−b, 2^b)`.
pub open spec fn pow_reach(x: Float) -> int {
    if -x.low() > x.ex() {
        -x.low()
    } else {
        x.ex()
    }
}

/// `(b + 64)·(n + 1)` for the digit reach `b` of `x`: a bound on the digit
/// exponents of every intermediate of powering `x` to the `n`-th at 64 bits.
#[verifier::opaque]
pub open spec fn pow_bound(x: Float, n: nat) -> int {
    (pow_reach(x) + 64) * (n + 1)
}

/// `(b + 64)·(n + 1)` stays within the exponent range of arithmetic, `b`
/// the digit reach of `x`: every intermediate of powering `x` to the
/// `n`-th at 64 bits keeps its digits within range.
#[verifier::opaque]
pub open spec fn pow_in_range(x: Float, n: nat) -> bool {
    (pow_reach(x) + 64) * (n + 1) <= EXP_SMALL
}

proof fn lemma_mul_distrib(d: int, a: int, b: int)
    ensures
        d * (a + b) == d * a + d * b,
{
    assert(d * (a + b) == d * a + d * b) by (nonlinear_arith);
}

proof fn lemma_mul_le(d: int, a: int, b: int)
    requires
        d >= 0,
        a <= b,
    ensures
        d * a <= d * b,
{
    assert(d * a <= d * b) by (nonlinear_arith)
        requires
            d >= 0,
            a <= b,
    ;
}

/// Splitting the remaining exponent `e` of binary powering into its low
/// bit and the rest.
proof fn lemma_pow_split(c: int, pw: int, e: int, n: int)
    requires
        c + pw * e == n,
        e >= 0,
        pw >= 1,
    ensures
        c + pw * (e % 2) + (2 * pw) * (e / 2) == n,
        e / 2 >= 1 ==> 2 * pw <= n - c - pw * (e % 2),
        e % 2 == 1 ==> pw <= n - c,
{
    assert(c + pw * (e % 2) + (2 * pw) * (e / 2) == n) by (nonlinear_arith)
        requires
            c + pw * e == n,
            e >= 0,
    ;
    if e / 2 >= 1 {
        assert(2 * pw <= (2 * pw) * (e / 2)) by (nonlinear_arith)
            requires
                e / 2 >= 1,
                pw >= 1,
        ;
    }
    if e % 2 == 1 {
        assert(pw * (e / 2) * 2 >= 0) by (nonlinear_arith)
            requires
                e >= 0,
                pw >= 1,
        ;
    }
}

/// `x^n` rounded up at 64 bits (`x >= 0`), by binary powering; `None`
/// should an intermediate leave the exponent range.
pub fn pow_up(x: &Float, n: u64) -> (r: Option<Float>)
    requires
        x.small(),
        !x.sign(),
    ensures
        pow_in_range(*x, n as nat) ==> r is Some,
        r matches Some(f) ==> f.within(pow_bound(*x, n as nat)),
        r matches Some(f) ==> f.small() && !f.sign() && rpow(x.val(), n as nat) <= f.val(),
{
    let mut base = x.copy();
    let mut acc = Float::from_i64(1);
    let mut e = n;
    let ghost dd: int = pow_reach(*x) + 64;
    let ghost mut c: int = 0;
    let ghost mut pw: int = 1;
    proof {
        reveal(pow_in_range);
        lemma_mul_distrib(dd, 0, 0);
        x.lemma_val_sign();
        lemma_nonneg_unsigned(acc);
        assert(rpow(x.val(), n as nat) <= 1real * rpow(x.val(), n as nat));
    }
    while e > 0
        invariant
            base.small(),
            acc.small(),
            !base.sign(),
            !acc.sign(),
            base.val() >= 0real,
            acc.val() >= 0real,
            rpow(x.val(), n as nat) <= acc.val() * rpow(base.val(), e as nat),
            dd == pow_reach(*x) + 64,
            dd >= 64,
            0 <= c,
            1 <= pw,
            c + pw * e == n,
            acc.low() >= -(dd * c + dd),
            acc.ex() <= dd * c + dd,
            base.low() >= -(dd * pw - 64),
            base.ex() <= dd * pw - 64,
        decreases e,
    {
        let ghost e0: int = e as int;
        let ghost c0: int = c;
        let ghost pw0: int = pw;
        proof {
            reveal(pow_in_range);
            lemma_pow_split(c, pw, e as int, n as int);
            if pow_in_range(*x, n as nat) {
                lemma_mul_le(dd, n as int + 1, n as int + 1);
            }
        }
        let ghost b0 = base.val();
        let ghost a0 = acc.val();
        let ghost h = (e / 2) as nat;
        if e % 2 == 1 {
            let (a2, _) = acc.mul(&base, 64, Round::Up);
            proof {
                lemma_mul_directed(acc, base, 64, Round::Up);
                a2.lemma_mant_bounds();
                lemma_mul_distrib(dd, c, pw);
                if pow_in_range(*x, n as nat) {
                    lemma_mul_le(dd, c + pw, n as int);
                    lemma_mul_distrib(dd, n as int, 1);
                }
            }
            if !a2.is_within(EXP_SMALL) {
                return None;
            }
            proof {
                lemma_nonneg_unsigned(a2);
                lemma_rpow_nonneg(b0, (2 * h) as nat);
                assert(e as nat == 2 * h + 1);
                assert(rpow(b0, e as nat) == b0 * rpow(b0, (2 * h) as nat));
                let u = rpow(b0, (2 * h) as nat);
                assert(a0 * (b0 * u) <= a2.val() * u) by (nonlinear_arith)
                    requires
                        a0 * b0 <= a2.val(),
                        u >= 0real,
                ;
            }
            acc = a2;
            proof {
                c = c + pw;
            }
        }
        proof {
            lemma_rpow_square(b0, h);
            assert(b0 * b0 >= 0real) by (nonlinear_arith)
                requires
                    b0 >= 0real,
            ;
            lemma_rpow_nonneg(b0 * b0, h);
            assert(rpow(x.val(), n as nat) <= acc.val() * rpow(b0 * b0, h));
        }
        if e / 2 > 0 {
            let (b2, _) = base.mul(&base, 64, Round::Up);
            proof {
                lemma_mul_directed(base, base, 64, Round::Up);
                b2.lemma_mant_bounds();
                lemma_mul_distrib(dd, pw, pw);
                if pow_in_range(*x, n as nat) {
                    lemma_mul_le(dd, 2 * pw, n as int);
                    lemma_mul_distrib(dd, n as int, 1);
                }
            }
            if !b2.is_within(EXP_SMALL) {
                return None;
            }
            proof {
                lemma_nonneg_unsigned(b2);
                assert(b0 * b0 >= 0real) by (nonlinear_arith);
                lemma_rpow_mono(b0 * b0, b2.val(), h);
                let u = rpow(b0 * b0, h);
                let v = rpow(b2.val(), h);
                assert(acc.val() * u <= acc.val() * v) by (nonlinear_arith)
                    requires
                        u <= v,
                        acc.val() >= 0real,
                ;
            }
            base = b2;
            proof {
                pw = 2 * pw;
            }
        }
        e = e / 2;
        proof {
            assert(c + pw * e == n) by (nonlinear_arith)
                requires
                    c0 + pw0 * (e0 % 2) + (2 * pw0) * (e0 / 2) == n,
                    e0 % 2 == 1 ==> c == c0 + pw0,
                    e0 % 2 != 1 ==> c == c0,
                    e0 / 2 > 0 ==> pw == 2 * pw0,
                    e0 / 2 == 0 ==> e == 0,
                    e == e0 / 2,
                    e0 >= 0,
            ;
        }
    }
    proof {
        assert(rpow(base.val(), 0) == 1real);
        assert(acc.val() * 1real == acc.val());
        reveal(pow_bound);
        assert(c == n) by (nonlinear_arith)
            requires
                c + pw * e == n,
                e == 0,
        ;
        lemma_mul_distrib(dd, n as int, 1);
        acc.lemma_mant_bounds();
    }
    Some(acc)
}

/// `x^n` rounded down at 64 bits (`x >= 0`), by binary powering; `None`
/// should an intermediate leave the exponent range.
pub fn pow_down(x: &Float, n: u64) -> (r: Option<Float>)
    requires
        x.small(),
        !x.sign(),
    ensures
        pow_in_range(*x, n as nat) ==> r is Some,
        r matches Some(f) ==> f.within(pow_bound(*x, n as nat)),
        r matches Some(f) ==> f.small() && !f.sign() && f.val() <= rpow(x.val(), n as nat),
{
    let mut base = x.copy();
    let mut acc = Float::from_i64(1);
    let mut e = n;
    let ghost dd: int = pow_reach(*x) + 64;
    let ghost mut c: int = 0;
    let ghost mut pw: int = 1;
    proof {
        reveal(pow_in_range);
        lemma_mul_distrib(dd, 0, 0);
        x.lemma_val_sign();
        lemma_nonneg_unsigned(acc);
        assert(1real * rpow(x.val(), n as nat) <= rpow(x.val(), n as nat));
    }
    while e > 0
        invariant
            base.small(),
            acc.small(),
            !base.sign(),
            !acc.sign(),
            base.val() >= 0real,
            acc.val() >= 0real,
            acc.val() * rpow(base.val(), e as nat) <= rpow(x.val(), n as nat),
            dd == pow_reach(*x) + 64,
            dd >= 64,
            0 <= c,
            1 <= pw,
            c + pw * e == n,
            acc.low() >= -(dd * c + dd),
            acc.ex() <= dd * c + dd,
            base.low() >= -(dd * pw - 64),
            base.ex() <= dd * pw - 64,
        decreases e,
    {
        let ghost e0: int = e as int;
        let ghost c0: int = c;
        let ghost pw0: int = pw;
        proof {
            reveal(pow_in_range);
            lemma_pow_split(c, pw, e as int, n as int);
            if pow_in_range(*x, n as nat) {
                lemma_mul_le(dd, n as int + 1, n as int + 1);
            }
        }
        let ghost b0 = base.val();
        let ghost a0 = acc.val();
        let ghost h = (e / 2) as nat;
        if e % 2 == 1 {
            let (a2, _) = acc.mul(&base, 64, Round::Down);
            proof {
                lemma_mul_directed(acc, base, 64, Round::Down);
                a2.lemma_mant_bounds();
                lemma_mul_distrib(dd, c, pw);
                if pow_in_range(*x, n as nat) {
                    lemma_mul_le(dd, c + pw, n as int);
                    lemma_mul_distrib(dd, n as int, 1);
                }
            }
            if !a2.is_within(EXP_SMALL) {
                return None;
            }
            proof {
                lemma_nonneg_unsigned(a2);
                lemma_rpow_nonneg(b0, (2 * h) as nat);
                assert(e as nat == 2 * h + 1);
                assert(rpow(b0, e as nat) == b0 * rpow(b0, (2 * h) as nat));
                let u = rpow(b0, (2 * h) as nat);
                assert(a2.val() * u <= a0 * (b0 * u)) by (nonlinear_arith)
                    requires
                        a2.val() <= a0 * b0,
                        u >= 0real,
                ;
            }
            acc = a2;
            proof {
                c = c + pw;
            }
        }
        proof {
            lemma_rpow_square(b0, h);
            assert(b0 * b0 >= 0real) by (nonlinear_arith)
                requires
                    b0 >= 0real,
            ;
            assert(acc.val() * rpow(b0 * b0, h) <= rpow(x.val(), n as nat));
        }
        if e / 2 > 0 {
            let (b2, _) = base.mul(&base, 64, Round::Down);
            proof {
                lemma_mul_directed(base, base, 64, Round::Down);
                b2.lemma_mant_bounds();
                lemma_mul_distrib(dd, pw, pw);
                if pow_in_range(*x, n as nat) {
                    lemma_mul_le(dd, 2 * pw, n as int);
                    lemma_mul_distrib(dd, n as int, 1);
                }
            }
            if !b2.is_within(EXP_SMALL) {
                return None;
            }
            proof {
                lemma_nonneg_unsigned(b2);
                lemma_rpow_mono(b2.val(), b0 * b0, h);
                let u = rpow(b0 * b0, h);
                let v = rpow(b2.val(), h);
                assert(acc.val() * v <= acc.val() * u) by (nonlinear_arith)
                    requires
                        v <= u,
                        acc.val() >= 0real,
                ;
            }
            base = b2;
            proof {
                pw = 2 * pw;
            }
        }
        e = e / 2;
        proof {
            assert(c + pw * e == n) by (nonlinear_arith)
                requires
                    c0 + pw0 * (e0 % 2) + (2 * pw0) * (e0 / 2) == n,
                    e0 % 2 == 1 ==> c == c0 + pw0,
                    e0 % 2 != 1 ==> c == c0,
                    e0 / 2 > 0 ==> pw == 2 * pw0,
                    e0 / 2 == 0 ==> e == 0,
                    e == e0 / 2,
                    e0 >= 0,
            ;
        }
    }
    proof {
        assert(rpow(base.val(), 0) == 1real);
        assert(acc.val() * 1real == acc.val());
        reveal(pow_bound);
        assert(c == n) by (nonlinear_arith)
            requires
                c + pw * e == n,
                e == 0,
        ;
        lemma_mul_distrib(dd, n as int, 1);
        acc.lemma_mant_bounds();
    }
    Some(acc)
}

} // verus!
