//! Unsigned magnitude bounds — the radius type.
//!
//! A [`Mag`] stores `man · 2^(exp − 30)` with `man = 0` or
//! `man ∈ [2^29, 2^30)`. Every operation rounds **up**: a `Mag` is only ever
//! used as an upper bound, so each result is at least the true value, and
//! exceeds it by at most a couple of units in its last place.
use crate::dyadic::{
    lemma_int_mul_real, lemma_nat_mul_real, lemma_pos_real, lemma_pow2r_add, lemma_pow2r_le,
    lemma_pow2r_nat, lemma_pow2r_pos, pow2r,
};
use crate::dyadic::{max_int, min_int};
use crate::fp::{lemma_real_cast_order, Float};
use vstd::arithmetic::div_mod::*;
use vstd::arithmetic::mul::*;
use vstd::arithmetic::power2::*;
use vstd::prelude::*;
use core::cmp::Ordering;

verus! {

/// Mantissa bits of a magnitude bound.
pub const MAG_BITS: u32 = 30;

/// Largest exponent magnitude a [`Mag`] carries: 2^61.
pub const MAG_EXP_MAX: i64 = 0x2000_0000_0000_0000;

/// A nonnegative upper bound with a 30-bit mantissa: `man · 2^(exp − 30)`.
#[derive(Clone, Copy, Debug, PartialEq, Eq, Structural)]
pub struct Mag {
    pub(crate) man: u32,
    pub(crate) exp: i64,
}

impl Mag {
    /// The bound this magnitude denotes.
    pub open(crate) spec fn val(&self) -> real {
        self.man as real * pow2r(self.exp - 30)
    }

    /// Normalized mantissa, zero as `0 · 2^0`, exponent within range.
    pub open(crate) spec fn wf(&self) -> bool {
        &&& (self.man == 0 ==> self.exp == 0)
        &&& (self.man != 0 ==> 0x2000_0000 <= self.man < 0x4000_0000)
        &&& -MAG_EXP_MAX <= self.exp <= MAG_EXP_MAX
    }

    /// Well formed with the exponent within `±b`.
    pub open(crate) spec fn within(&self, b: int) -> bool {
        self.wf() && -b <= self.exp <= b
    }

    /// The mantissa field.
    pub open(crate) spec fn mn(&self) -> nat {
        self.man as nat
    }

    /// The exponent field.
    pub open(crate) spec fn ex(&self) -> int {
        self.exp as int
    }

    pub fn zero() -> (r: Self)
        ensures
            r.wf(),
            r.within(0),
            r.val() == 0real,
    {
        let r = Mag { man: 0, exp: 0 };
        proof {
            lemma_pow2r_pos(-30);
            assert(0real * pow2r(-30) == 0real) by (nonlinear_arith);
        }
        r
    }

    /// Whether the exponent lies within `±b`.
    pub(crate) fn is_within(&self, b: i64) -> (r: bool)
        requires
            self.wf(),
            b >= 0,
        ensures
            r == self.within(b as int),
    {
        -b <= self.exp && self.exp <= b
    }

    pub fn is_zero(&self) -> (r: bool)
        requires
            self.wf(),
        ensures
            r <==> self.val() == 0real,
    {
        proof {
            self.lemma_val_pos();
        }
        self.man == 0
    }

    /// A nonzero bound is positive, and lies in `[2^(exp−1), 2^exp)`.
    pub(crate) proof fn lemma_val_pos(&self)
        requires
            self.wf(),
        ensures
            self.man == 0 <==> self.val() == 0real,
            self.val() >= 0real,
            self.man != 0 ==> pow2r(self.exp - 1) <= self.val() < pow2r(self.exp as int),
    {
        lemma_pow2r_pos(self.exp - 30);
        let p = pow2r(self.exp - 30);
        let m = self.man as real;
        lemma_real_cast_order(0, self.man as int);
        assert(self.man == 0 <==> m * p == 0real) by (nonlinear_arith)
            requires
                p > 0real,
                m == self.man as real,
        ;
        assert(m * p >= 0real) by (nonlinear_arith)
            requires
                p > 0real,
                m >= 0real,
        ;
        if self.man != 0 {
            lemma_pow2r_add(29, self.exp - 30);
            lemma_pow2r_add(30, self.exp - 30);
            lemma2_to64();
            lemma_pow2r_nat(29);
            lemma_pow2r_nat(30);
            lemma_real_cast_order(0x2000_0000, self.man as int);
            lemma_real_cast_order(self.man as int, 0x4000_0000);
            assert(0x2000_0000 as real * p <= m * p && m * p < 0x4000_0000 as real * p) by (nonlinear_arith)
                requires
                    p > 0real,
                    0x2000_0000 as real <= m,
                    m < 0x4000_0000 as real,
            ;
        }
    }

    /// The bound `2^e`.
    pub fn two_exp(e: i64) -> (r: Self)
        requires
            -MAG_EXP_MAX <= e < MAG_EXP_MAX,
        ensures
            r.wf(),
            r.val() == pow2r(e as int),
            r.ex() == e + 1,
    {
        let r = Mag { man: 1 << (MAG_BITS - 1), exp: e + 1 };
        proof {
            assert(1u32 << 29u32 == 0x2000_0000) by (bit_vector);
            lemma_pow2r_add(29, e - 29);
            lemma_pow2r_nat(29);
            lemma2_to64();
        }
        r
    }

    /// Exponent bound: the value is below `2^exp`.
    pub fn exp(&self) -> (r: i64)
        requires
            self.wf(),
        ensures
            r == self.ex(),
            self.val() < pow2r(r as int),
            self.val() > 0real ==> pow2r(r - 1) <= self.val(),
    {
        proof {
            self.lemma_val_pos();
            lemma_pow2r_pos(self.exp as int);
        }
        self.exp
    }

    /// Upper bound for a `u64`.
    pub fn from_u64_upper(v: u64) -> (r: Mag)
        ensures
            r.wf(),
            r.within(128),
            v as real <= r.val(),
            r.val() < v as real + pow2r(r.ex() - 29),
            v < 0x4000_0000 ==> r.val() == v as real,
            v >= 0x4000_0000 ==> (v as real) < r.val() && r.val() <= v as real + v as real * pow2r(-29),
            v >= 0x4000_0000 ==> r.val() <= v as real + pow2r(crate::dyadic::nbits(v as nat) - 30),
    {
        if v == 0 {
            let r = Mag::zero();
            proof {
                lemma_pow2r_pos(r.ex() - 29);
            }
            return r;
        }
        proof {
            crate::mpn::lemma_leading_zeros(v);
        }
        let bits = 64 - v.leading_zeros();
        if bits <= MAG_BITS {
            proof {
                lemma_pow2_increases_le_nat(bits as nat, 30);
                lemma2_to64();
                lemma_pow2r_pos(0);
            }
            let r = Mag::normalized(v, MAG_BITS as i64);
            proof {
                lemma_pow2r_nat(0);
                assert(pow2r(0) == 1real);
                assert(v as real * pow2r(0) == v as real) by (nonlinear_arith)
                    requires
                        pow2r(0) == 1real,
                ;
                lemma_pow2r_pos(r.ex() - 29);
            }
            r
        } else {
            let shift = bits - MAG_BITS;
            let qs = v >> shift;
            proof {
                vstd::bits::lemma_u64_shr_is_div(v, shift as u64);
                lemma_pow2_pos(shift as nat);
                lemma_pow2_adds(30, shift as nat);
                lemma2_to64();
                assert((v as nat) < pow2(30) * pow2(shift as nat));
                crate::mpn::lemma_div_strictly_bounded(v as int, pow2(shift as nat) as int, pow2(30) as int);
                lemma_pow2_adds(29, shift as nat);
                assert(29 + shift as nat == (bits - 1) as nat);
                lemma_div_is_ordered((pow2(29) * pow2(shift as nat)) as int, v as int, pow2(shift as nat) as int);
                lemma_div_multiples_vanish(pow2(29) as int, pow2(shift as nat) as int);
                lemma_mul_is_commutative(pow2(29) as int, pow2(shift as nat) as int);
                assert(qs >= 0x2000_0000);
                assert(v >= 0x4000_0000) by {
                    lemma_pow2_increases_le_nat(30, (bits - 1) as nat);
                    lemma2_to64();
                }
            }
            let t = qs + 1;
            let r = Mag::normalized(t, (MAG_BITS + shift) as i64);
            proof {
                // v < t · 2^shift <= v + 2^shift
                let p = pow2(shift as nat);
                let q = v as nat / p;
                lemma_fundamental_div_mod(v as int, p as int);
                lemma_mod_bound(v as int, p as int);
                assert(v < (q + 1) * p && (q + 1) * p <= v + p) by (nonlinear_arith)
                    requires
                        v == p * q + v as nat % p,
                        0 <= v as nat % p < p,
                ;
                lemma_pow2r_add(0, shift as int);
                lemma_pow2r_nat(shift as nat);
                lemma_pow2r_nat(0);
                lemma_nat_mul_real((q + 1) as nat, p);
                lemma_real_cast_order(v as int, ((q + 1) * p) as int);
                lemma_real_cast_order(((q + 1) * p) as int, (v + p) as int);
                lemma_pow2r_le(shift as int, r.ex() - 30);
                lemma_pow2r_add(r.ex() - 30, 1);
                lemma_pow2r_nat(1);
                assert((v + p) as real == v as real + p as real) by (nonlinear_arith);
                assert(pow2r(shift as int) == p as real);
                assert(q == qs);
                lemma_nat_mul_real(t as nat, p);
                assert(t as real * pow2r((30 + shift) - 30) == ((q + 1) * p) as real);
                assert(v as real <= r.val());
                assert(r.val() == ((q + 1) * p) as real);
                lemma_real_cast_order(pow2((bits - 1) as nat) as int, v as int);
                lemma_pow2r_nat((bits - 1) as nat);
                lemma_unit_rel(v as real, shift as int, 29);
                assert((v as real) < r.val());
                assert(r.val() <= v as real + v as real * pow2r(-29));
                crate::dyadic::lemma_nbits_unique(v as nat, bits as nat);
                assert(r.val() <= v as real + pow2r(crate::dyadic::nbits(v as nat) - 30));
                let u = pow2r(r.ex() - 30);
                assert(r.val() < v as real + pow2r(r.ex() - 29)) by (nonlinear_arith)
                    requires
                        r.val() < ((q + 1) * p) as real + u,
                        ((q + 1) * p) as real <= (v + p) as real,
                        (v + p) as real == v as real + p as real,
                        p as real <= u,
                        pow2r(r.ex() - 29) == u * 2real,
                ;
            }
            r
        }
    }

    /// Upper bound for `|f|`.
    pub fn from_float_upper(f: &Float) -> (r: Mag)
        requires
            f.small(),
        ensures
            r.wf(),
            r.within(0x1000_0000_0000_0040),
            f.mag() <= r.val(),
            f.mant() > 0 ==> f.ex() - 30 <= r.ex() <= f.ex() + 34,
            f.mant() == 0 ==> r.ex() == 0 && r.val() == 0real,
            r.mn() == 0 <==> f.mant() == 0,
            r.val() <= f.mag() + f.mag() * pow2r(-29),
    {
        proof {
            f.lemma_mant_bounds();
            lemma_mag_nonneg(f);
            lemma_pow2r_pos(-29);
        }
        match f.exponent() {
            None => {
                let r = Mag::zero();
                proof {
                    crate::fp::lemma_mag_zero_pub(f.mant(), f.low());
                    r.lemma_val_pos();
                }
                r
            },
            Some(e) => {
                let top = f.top_bits(MAG_BITS);
                proof {
                    lemma2_to64();
                }
                let r = Mag::normalized(top + 1, e);
                proof {
                    lemma_mag_below_top(f, top);
                    lemma_mag_above_top(f, top);
                    let u = pow2r(e - 30);
                    lemma_pow2r_pos(e - 30);
                    lemma_pow2r_nat(29);
                    lemma_real_cast_order(pow2(29) as int, top as int);
                    lemma_int_mul_real(top as int + 1, 1);
                    lemma_pow2r_add(29, e - 30);
                    assert(pow2r(e - 1) <= f.mag()) by (nonlinear_arith)
                        requires
                            top as real * u <= f.mag(),
                            pow2(29) as real <= top as real,
                            pow2r(e - 1) == pow2r(29) * u,
                            pow2r(29) == pow2(29) as real,
                            u > 0real,
                    ;
                    lemma_unit_rel(f.mag(), e - 30, 29);
                    assert(r.val() <= f.mag() + f.mag() * pow2r(-29)) by (nonlinear_arith)
                        requires
                            r.val() == (top + 1) as real * u,
                            top as real * u <= f.mag(),
                            (top + 1) as real == top as real + 1real,
                            u <= f.mag() * pow2r(-29),
                    ;
                }
                r
            },
        }
    }

    /// Exact conversion to [`Float`] (a `Mag` is a dyadic rational).
    pub fn to_float(&self) -> (r: Float)
        requires
            self.within(0x2000_0000_0000_0000),
        ensures
            r.wf(),
            r.val() == self.val(),
            !r.sign(),
            self.within(0x0fff_ffff_ffff_ff00) ==> r.small(),
            self.mn() != 0 ==> r.ex() == self.ex() && r.mant() > 0 && r.low() >= self.ex() - 94,
            self.mn() == 0 ==> r.mant() == 0,
            r.nlimbs() <= 1,
    {
        proof {
            self.lemma_val_pos();
        }
        if self.man == 0 {
            return Float::zero();
        }
        let f = Float::from_u64(self.man as u64);
        proof {
            lemma2_to64();
            crate::dyadic::lemma_nbits_unique(self.man as nat, 30);
            lemma2_to64();
            f.lemma_mant_bounds();
        }
        let r = f.mul_2exp(self.exp - MAG_BITS as i64);
        proof {
            lemma_pow2r_add(0, self.exp - 30);
            lemma_pow2r_nat(0);
            assert(r.sign() == f.sign());
        }
        r
    }

    /// Upper bound for `a + b`.
    pub fn add_up(&self, other: &Mag) -> (r: Mag)
        requires
            self.within(MAG_EXP_MAX - 128),
            other.within(MAG_EXP_MAX - 128),
        ensures
            r.wf(),
            self.val() + other.val() <= r.val(),
            r.val() <= self.val() + other.val() + pow2r(max_int(self.ex(), other.ex()) - 27),
            r.val() <= (self.val() + other.val()) + (self.val() + other.val()) * pow2r(-26),
            min_int(self.ex(), other.ex()) - 30 <= r.ex() <= max_int(self.ex(), other.ex()) + 2,
            self.mn() == 0 ==> r == *other,
            other.mn() == 0 ==> r == *self,
    {
        proof {
            self.lemma_val_pos();
            other.lemma_val_pos();
            lemma_pow2r_pos(max_int(self.ex(), other.ex()) - 27);
            lemma_pow2r_pos(-26);
            assert((self.val() + other.val()) * pow2r(-26) >= 0real) by (nonlinear_arith)
                requires
                    self.val() >= 0real,
                    other.val() >= 0real,
                    pow2r(-26) > 0real,
            ;
        }
        if self.man == 0 {
            return *other;
        }
        if other.man == 0 {
            return *self;
        }
        let (a, b) = if self.exp >= other.exp {
            (self, other)
        } else {
            (other, self)
        };
        let d = (a.exp - b.exp) as u64;
        let ghost u = pow2r(a.exp - 30);
        proof {
            a.lemma_val_pos();
            lemma_unit_rel(self.val() + other.val(), a.exp - 27, 26);
            lemma_pow2r_pos(a.exp - 30);
            lemma_pow2r_add(a.exp - 30, 3);
            lemma_pow2r_nat(3);
            lemma2_to64();
            lemma_pow2r_add(a.exp - 30, 2);
            lemma_pow2r_nat(2);
        }
        if d >= 34 {
            let r = Mag::normalized(a.man as u64 + 1, a.exp);
            proof {
                lemma_pow2r_le(r.exp - 30, a.exp - 28);
                lemma_pow2r_add(a.exp - 30, 2);
                lemma_pow2r_nat(2);
                b.lemma_val_pos();
                // b < 2^(b.exp) <= 2^(a.exp − 34) < u
                lemma_pow2r_le(b.exp as int, a.exp - 30);
                lemma_int_mul_real(a.man as int + 1, 1);
                assert((a.man as u64 + 1) as real * u == a.val() + u) by (nonlinear_arith)
                    requires
                        a.val() == a.man as real * u,
                ;
                assert(r.val() <= self.val() + other.val() + pow2r(max_int(self.ex(), other.ex()) - 27)) by (nonlinear_arith)
                    requires
                        r.val() < a.val() + u + pow2r(r.exp - 30),
                        pow2r(r.exp - 30) <= u * 4real,
                        pow2r(a.exp - 27) == u * 8real,
                        b.val() >= 0real,
                        u > 0real,
                        max_int(self.ex(), other.ex()) == a.exp,
                        self.val() + other.val() == a.val() + b.val(),
                ;
            }
            r
        } else {
            let bs = (b.man as u64) >> d;
            proof {
                vstd::bits::lemma_u64_shr_is_div(b.man as u64, d);
                lemma_pow2_pos(d as nat);
                assert(bs <= b.man) by {
                    lemma_div_is_ordered_by_denominator(b.man as int, 1, pow2(d as nat) as int);
                    lemma_div_basics(b.man as int);
                }
            }
            let r = Mag::normalized(a.man as u64 + bs + 1, a.exp);
            proof {
                lemma_pow2r_le(r.exp - 30, a.exp - 28);
                lemma_add_tail(b.man as nat, d as nat, b.exp as int, a.exp as int, bs as nat);
                let t = (a.man as u64 + bs + 1) as int;
                lemma_int_mul_real(a.man as int, 1);
                assert(t as real * u == a.val() + (bs + 1) as real * u) by (nonlinear_arith)
                    requires
                        a.val() == a.man as real * u,
                        t == a.man + bs + 1,
                ;
                assert(self.val() + other.val() <= r.val()) by (nonlinear_arith)
                    requires
                        t as real * u <= r.val(),
                        t as real * u == a.val() + (bs + 1) as real * u,
                        b.val() < (bs + 1) as real * u,
                        self.val() + other.val() == a.val() + b.val(),
                ;
                assert(r.val() <= self.val() + other.val() + pow2r(max_int(self.ex(), other.ex()) - 27)) by (nonlinear_arith)
                    requires
                        r.val() < t as real * u + pow2r(r.exp - 30),
                        t as real * u == a.val() + (bs + 1) as real * u,
                        bs as real * u <= b.val(),
                        (bs + 1) as real * u == bs as real * u + u,
                        pow2r(r.exp - 30) <= u * 4real,
                        pow2r(a.exp - 27) == u * 8real,
                        u > 0real,
                        max_int(self.ex(), other.ex()) == a.exp,
                        self.val() + other.val() == a.val() + b.val(),
                ;
            }
            r
        }
    }

    /// Upper bound for `a · b`.
    pub fn mul_up(&self, other: &Mag) -> (r: Mag)
        requires
            self.within(0x0800_0000_0000_0000),
            other.within(0x0800_0000_0000_0000),
        ensures
            r.wf(),
            self.val() * other.val() <= r.val(),
            r.val() <= self.val() * other.val() + pow2r(r.ex() - 30),
            r.val() <= self.val() * other.val() + self.val() * other.val() * pow2r(-28),
            self.mn() != 0 && other.mn() != 0 ==> self.ex() + other.ex() - 60 <= r.ex() <= self.ex()
                + other.ex() + 4,
            self.mn() == 0 || other.mn() == 0 ==> r.ex() == 0 && r.val() == 0real,
    {
        proof {
            self.lemma_val_pos();
            other.lemma_val_pos();
        }
        if self.man == 0 || other.man == 0 {
            let r = Mag::zero();
            proof {
                assert(self.val() * other.val() == 0real) by (nonlinear_arith)
                    requires
                        self.val() == 0real || other.val() == 0real,
                ;
                lemma_pow2r_pos(-30);
                assert(0real * pow2r(-28) == 0real);
            }
            return r;
        }
        proof {
            assert(0x400_0000_0000_0000 <= self.man * other.man < 0x1000_0000_0000_0000) by (nonlinear_arith)
                requires
                    0x2000_0000 <= self.man < 0x4000_0000,
                    0x2000_0000 <= other.man < 0x4000_0000,
            ;
        }
        let p = self.man as u64 * other.man as u64;
        let r = Mag::normalized(p, self.exp + other.exp - MAG_BITS as i64);
        proof {
            lemma_pow2r_add(self.exp - 30, other.exp - 30);
            let pa = pow2r(self.exp - 30);
            let pb = pow2r(other.exp - 30);
            lemma_nat_mul_real(self.man as nat, other.man as nat);
            assert(self.val() * other.val() == p as real * pow2r(self.exp + other.exp - 30 - 30)) by (nonlinear_arith)
                requires
                    self.val() == self.man as real * pa,
                    other.val() == other.man as real * pb,
                    p as real == self.man as real * other.man as real,
                    pow2r(self.exp + other.exp - 30 - 30) == pa * pb,
            ;
            r.lemma_val_pos();
            lemma_pow2r_pos(self.exp - 30);
            lemma_pow2r_pos(other.exp - 30);
            lemma_nat_mul_real(self.man as nat, other.man as nat);
            assert(self.val() * other.val() >= 0real) by (nonlinear_arith)
                requires
                    self.val() >= 0real,
                    other.val() >= 0real,
            ;
            lemma_ulp_rel(r.val(), self.val() * other.val(), r.ex());
        }
        r
    }

    /// Exact scaling by 2^k.
    pub fn mul_2exp(&self, k: i64) -> (r: Mag)
        requires
            self.wf(),
            self.mn() != 0 ==> -MAG_EXP_MAX <= self.ex() + k <= MAG_EXP_MAX,
        ensures
            r.wf(),
            r.val() == self.val() * pow2r(k as int),
            self.mn() != 0 ==> r.ex() == self.ex() + k,
            self.mn() == 0 ==> r.ex() == 0,
    {
        proof {
            self.lemma_val_pos();
        }
        if self.man == 0 {
            proof {
                assert(self.val() * pow2r(k as int) == 0real);
            }
            *self
        } else {
            let r = Mag { man: self.man, exp: self.exp + k };
            proof {
                lemma_pow2r_add(self.exp - 30, k as int);
                let m = self.man as real;
                assert(m * pow2r(self.exp - 30 + k) == m * pow2r(self.exp - 30) * pow2r(k as int)) by (nonlinear_arith)
                    requires
                        pow2r(self.exp - 30 + k) == pow2r(self.exp - 30) * pow2r(k as int),
                ;
            }
            r
        }
    }

    /// Three-way comparison of values: −1, 0 or 1.
    fn compare_mag(&self, other: &Mag) -> (r: i8)
        requires
            self.wf(),
            other.wf(),
        ensures
            r == -1 <==> self.val() < other.val(),
            r == 0 <==> self.val() == other.val(),
            r == 1 <==> self.val() > other.val(),
    {
        proof {
            self.lemma_val_pos();
            other.lemma_val_pos();
        }
        if self.man == 0 && other.man == 0 {
            return 0;
        }
        if self.man == 0 {
            return -1;
        }
        if other.man == 0 {
            return 1;
        }
        if self.exp != other.exp {
            proof {
                if self.exp < other.exp {
                    lemma_pow2r_le(self.exp as int, other.exp - 1);
                } else {
                    lemma_pow2r_le(other.exp as int, self.exp - 1);
                }
            }
            if self.exp < other.exp {
                -1
            } else {
                1
            }
        } else {
            proof {
                lemma_pow2r_pos(self.exp - 30);
                let p = pow2r(self.exp - 30);
                lemma_real_cast_order(self.man as int, other.man as int);
                let x = self.man as real;
                let y = other.man as real;
                assert(x * p < y * p <==> x < y) by (nonlinear_arith)
                    requires
                        p > 0real,
                ;
                assert(x * p == y * p <==> x == y) by (nonlinear_arith)
                    requires
                        p > 0real,
                ;
            }
            if self.man < other.man {
                -1
            } else if self.man == other.man {
                0
            } else {
                1
            }
        }
    }

    /// Order of the bounds.
    pub fn cmp(&self, other: &Mag) -> (ord: Ordering)
        requires
            self.wf(),
            other.wf(),
        ensures
            ord == Ordering::Less <==> self.val() < other.val(),
            ord == Ordering::Equal <==> self.val() == other.val(),
            ord == Ordering::Greater <==> self.val() > other.val(),
    {
        let r = self.compare_mag(other);
        if r < 0 {
            Ordering::Less
        } else if r == 0 {
            Ordering::Equal
        } else {
            Ordering::Greater
        }
    }

    /// max(a, b) — an upper bound for both.
    pub fn max(&self, other: &Mag) -> (r: Mag)
        requires
            self.wf(),
            other.wf(),
        ensures
            r == *self || r == *other,
            r.val() >= self.val(),
            r.val() >= other.val(),
    {
        if self.compare_mag(other) < 0 {
            *other
        } else {
            *self
        }
    }

    /// Brings `man · 2^(exp − 30)` into normal form, rounding up.
    fn normalized(man: u64, exp: i64) -> (r: Mag)
        requires
            0 < man < 0x4000_0000_0000_0000,
            -MAG_EXP_MAX + 64 <= exp <= MAG_EXP_MAX - 64,
        ensures
            r.wf(),
            r.man != 0,
            man as real * pow2r(exp - 30) <= r.val(),
            r.val() < man as real * pow2r(exp - 30) + pow2r(r.exp - 30),
            exp - 30 <= r.exp <= exp + 34,
            man <= 0x4000_0000 ==> r.val() == man as real * pow2r(exp - 30),
            man >= 0x2000_0000 ==> r.exp >= exp,
            man < 0x8000_0000 ==> r.exp <= exp + 2,
    {
        let ghost x = man as real * pow2r(exp - 30);
        let mut m = man;
        let mut e = exp;
        proof {
            lemma_pow2r_pos(exp - 30);
            lemma_pos_real(man as int);
            lemma2_to64();
            assert(man * pow2(0) == man);
            lemma_pow2r_pos(exp - 30);
            if man >= 0x4000_0000 {
                lemma_real_cast_order(0, 1);
                assert((man - 1) as real * pow2r(exp - 30) < x) by (nonlinear_arith)
                    requires
                        x == man as real * pow2r(exp - 30),
                        pow2r(exp - 30) > 0real,
                ;
                assert(x <= man as real * pow2r(exp - 30));
                assert((man - 1) * pow2(0) < man);
            }
        }
        if m >= 0x4000_0000 {
            while m >= 0x4000_0000
                invariant
                    0x2000_0000 <= m < 0x4000_0000_0000_0000,
                    -MAG_EXP_MAX + 64 <= exp <= MAG_EXP_MAX - 64,
                    exp <= e <= exp + 33,
                    ((m - 1) * pow2((e - exp) as nat)) < man,
                    man < 0x4000_0000_0000_0000,
                    x <= m as real * pow2r(e - 30),
                    (m - 1) as real * pow2r(e - 30) < x,
                    x == man as real * pow2r(exp - 30),
                    man == 0x4000_0000 ==> (e == exp && m == man) || (e == exp + 1 && m == 0x2000_0000),
                decreases m,
            {
                let ghost m0 = m;
                let ghost e0 = e;
                let ghost k = (e0 - exp) as nat;
                proof {
                    lemma_pow2_pos(k);
                    if k >= 33 {
                        lemma_pow2_increases_le_nat(33, k);
                        lemma2_to64();
                        lemma2_to64_rest();
                        assert(((m0 - 1) * pow2(k)) >= 0x3fff_ffff * 0x2_0000_0000) by (nonlinear_arith)
                            requires
                                m0 >= 0x4000_0000,
                                pow2(k) >= 0x2_0000_0000,
                        ;
                    }
                }
                m = (m + 1) / 2;
                e = e + 1;
                proof {
                    let u = pow2r(e0 - 30);
                    lemma_pow2r_add(e0 - 30, 1);
                    lemma_pow2r_nat(1);
                    lemma2_to64();
                    lemma_pow2r_pos(e0 - 30);
                    assert(pow2r(e - 30) == u * 2real);
                    lemma_int_mul_real(m as int, 2);
                    lemma_real_cast_order(m0 as int, (m * 2) as int);
                    lemma_real_cast_order(((m - 1) * 2) as int, (m0 - 1) as int);
                    lemma_int_mul_real((m - 1) as int, 2);
                    assert(x <= m as real * (u * 2real) && (m - 1) as real * (u * 2real) < x) by (nonlinear_arith)
                        requires
                            x <= m0 as real * u,
                            (m0 - 1) as real * u < x,
                            m as real * 2real >= m0 as real,
                            (m - 1) as real * 2real <= (m0 - 1) as real,
                            u > 0real,
                    ;
                    lemma_pow2_adds(k, 1);
                    assert(((m - 1) * pow2(k + 1)) < man) by (nonlinear_arith)
                        requires
                            (m0 - 1) * pow2(k) < man,
                            pow2(k + 1) == pow2(k) * pow2(1),
                            pow2(1) == 2,
                            (m - 1) * 2 <= m0 - 1,
                            m >= 1,
                    ;
                }
            }
            proof {
                if man < 0x8000_0000 && e > exp + 2 {
                    lemma_pow2_increases_le_nat(3, (e - exp) as nat);
                    lemma2_to64();
                    assert((m - 1) * pow2((e - exp) as nat) >= 0x8000_0000) by (nonlinear_arith)
                        requires
                            m >= 0x2000_0000,
                            pow2((e - exp) as nat) >= 8,
                    ;
                }
            }
        } else {
            while m < 0x2000_0000
                invariant
                    0 < m < 0x4000_0000,
                    -MAG_EXP_MAX + 64 <= exp <= MAG_EXP_MAX - 64,
                    exp - 29 <= e <= exp,
                    m == man * pow2((exp - e) as nat),
                    m as real * pow2r(e - 30) == x,
                    x == man as real * pow2r(exp - 30),
                decreases 0x4000_0000 - m,
            {
                let ghost m0 = m;
                let ghost e0 = e;
                proof {
                    let k = (exp - e0) as nat;
                    if k >= 29 {
                        lemma_pow2_increases_le_nat(29, k);
                        lemma2_to64();
                        assert(m0 >= 0x2000_0000) by (nonlinear_arith)
                            requires
                                m0 == man * pow2(k),
                                man >= 1,
                                pow2(k) >= 0x2000_0000,
                        ;
                    }
                }
                m = m * 2;
                e = e - 1;
                proof {
                    lemma_pow2r_add(e - 30, 1);
                    lemma_pow2r_nat(1);
                    lemma2_to64();
                    let u = pow2r(e - 30);
                    lemma_int_mul_real(m0 as int, 2);
                    assert(m as real * u == m0 as real * (u * 2real)) by (nonlinear_arith)
                        requires
                            m as real == m0 as real * 2real,
                    ;
                    lemma_pow2_adds((exp - e0) as nat, 1);
                    assert((exp - e0) as nat + 1 == (exp - e) as nat);
                    assert(m == man * pow2((exp - e) as nat)) by (nonlinear_arith)
                        requires
                            m == m0 * 2,
                            m0 == man * pow2((exp - e0) as nat),
                            pow2((exp - e) as nat) == pow2((exp - e0) as nat) * 2,
                    ;
                }
            }
            proof {
                if man >= 0x2000_0000 && e < exp {
                    lemma_pow2_increases_le_nat(1, (exp - e) as nat);
                    lemma2_to64();
                    assert(m >= 0x4000_0000) by (nonlinear_arith)
                        requires
                            m == man * pow2((exp - e) as nat),
                            man >= 0x2000_0000,
                            pow2((exp - e) as nat) >= 2,
                    ;
                }
            }
        }
        let r = Mag { man: m as u32, exp: e };
        proof {
            if man == 0x4000_0000 {
                let p = pow2r(exp - 30);
                lemma_pow2r_add(exp - 30, 1);
                lemma_pow2r_nat(1);
                lemma2_to64();
                assert(0x2000_0000u64 as real * (p * 2real) == 0x4000_0000u64 as real * p) by (nonlinear_arith);
            }
            lemma_pow2r_pos(e - 30);
            let u = pow2r(e - 30);
            assert(r.val() == m as real * u);
            assert(m as real * u < x + u) by (nonlinear_arith)
                requires
                    (m - 1) as real * u < x || m as real * u == x,
                    u > 0real,
            ;
        }
        r
    }
}

/// A bound in `[2^(e−1), 2^e)` that exceeds `x` by at most one unit
/// `2^(e−30)` of its 30-bit mantissa exceeds it by at most `x · 2^−28`.
proof fn lemma_ulp_rel(r: real, x: real, e: int)
    requires
        0real <= x,
        pow2r(e - 1) <= r,
        r <= x + pow2r(e - 30),
    ensures
        r <= x + x * pow2r(-28),
{
    lemma_pow2r_add(e - 1, -29);
    lemma_pow2r_add(-29, 1);
    lemma_pow2r_nat(1);
    lemma2_to64();
    lemma_pow2r_pos(-29);
    lemma_pow2r_le(-29, -1);
    lemma_pow2r_add(-1, 1);
    lemma_pow2r_nat(0);
    let q = pow2r(-29);
    let h = pow2r(e - 1);
    lemma_pow2r_pos(e - 1);
    assert(pow2r(1) == 2real);
    assert(pow2r(0) == 1real);
    assert(pow2r(-1) * 2real == 1real);
    assert(q * 2real <= 1real) by (nonlinear_arith)
        requires
            q <= pow2r(-1),
            pow2r(-1) * 2real == 1real,
    ;
    assert(pow2r(e - 30) <= r * q) by (nonlinear_arith)
        requires
            h <= r,
            q > 0real,
            pow2r(e - 30) == h * q,
    ;
    assert(r <= x + x * (q * 2real)) by (nonlinear_arith)
        requires
            r <= x + r * q,
            0real < q,
            q * 2real <= 1real,
            0real <= x,
            h <= r,
            h > 0real,
    ;
}

/// One unit `2^e` is at most `x · 2^(−k)` when `2^(e + k) <= x`.
proof fn lemma_unit_rel(x: real, e: int, k: int)
    requires
        pow2r(e + k) <= x,
    ensures
        pow2r(e) <= x * pow2r(-k),
{
    lemma_pow2r_add(e + k, -k);
    lemma_pow2r_pos(-k);
    let p = pow2r(-k);
    assert(pow2r(e + k) * p <= x * p) by (nonlinear_arith)
        requires
            pow2r(e + k) <= x,
            p > 0real,
    ;
}

/// A magnitude is nonnegative.
proof fn lemma_mag_nonneg(f: &Float)
    ensures
        f.mag() >= 0real,
{
    lemma_pow2r_pos(f.low());
    lemma_real_cast_order(0, f.mant() as int);
    let p = pow2r(f.low());
    let m = f.mant() as real;
    assert(m * p >= 0real) by (nonlinear_arith)
        requires
            m >= 0real,
            p > 0real,
    ;
}

/// `|f| < (top + 1) · 2^(exp − 30)` for its top 30 bits `top`.
proof fn lemma_mag_below_top(f: &Float, top: u64)
    requires
        f.wf(),
        f.mant() > 0,
        top == f.mant() / pow2((64 * f.nlimbs() - 30) as nat),
    ensures
        f.mag() < (top + 1) as real * pow2r(f.ex() - 30),
{
    f.lemma_mant_bounds();
    let k = (64 * f.nlimbs() - 30) as nat;
    lemma_pow2_pos(k);
    lemma_fundamental_div_mod(f.mant() as int, pow2(k) as int);
    lemma_mod_bound(f.mant() as int, pow2(k) as int);
    assert(f.mant() < (top + 1) * pow2(k)) by (nonlinear_arith)
        requires
            f.mant() == pow2(k) * top + f.mant() % pow2(k),
            f.mant() % pow2(k) < pow2(k),
    ;
    crate::dyadic::lemma_rescale(((top + 1) * pow2(k)) as nat, f.low(), (top + 1) as nat, f.ex() - 30, k);
    lemma_real_cast_order(f.mant() as int, ((top + 1) * pow2(k)) as int);
    lemma_pow2r_pos(f.low());
    let p = pow2r(f.low());
    let a = f.mant() as real;
    let b = ((top + 1) * pow2(k)) as real;
    assert(a * p < b * p) by (nonlinear_arith)
        requires
            a < b,
            p > 0real,
    ;
}

/// `top · 2^(exp − 30) <= |f|` for its top 30 bits `top`.
proof fn lemma_mag_above_top(f: &Float, top: u64)
    requires
        f.wf(),
        f.mant() > 0,
        top == f.mant() / pow2((64 * f.nlimbs() - 30) as nat),
    ensures
        top as real * pow2r(f.ex() - 30) <= f.mag(),
{
    f.lemma_mant_bounds();
    let k = (64 * f.nlimbs() - 30) as nat;
    lemma_pow2_pos(k);
    lemma_fundamental_div_mod(f.mant() as int, pow2(k) as int);
    lemma_mod_bound(f.mant() as int, pow2(k) as int);
    assert(top * pow2(k) <= f.mant()) by (nonlinear_arith)
        requires
            f.mant() == pow2(k) * top + f.mant() % pow2(k),
            f.mant() % pow2(k) >= 0,
    ;
    crate::dyadic::lemma_rescale((top * pow2(k)) as nat, f.low(), top as nat, f.ex() - 30, k);
    lemma_real_cast_order((top * pow2(k)) as int, f.mant() as int);
    lemma_pow2r_pos(f.low());
    let p = pow2r(f.low());
    let a = f.mant() as real;
    let b = (top * pow2(k)) as real;
    assert(b * p <= a * p) by (nonlinear_arith)
        requires
            b <= a,
            p > 0real,
    ;
}

/// `⌊bm / 2^d⌋ · 2^(ae − 30) <= bm · 2^(be − 30) < (⌊bm / 2^d⌋ + 1) · 2^(ae − 30)`
/// when `ae = be + d`.
proof fn lemma_add_tail(bm: nat, d: nat, be: int, ae: int, bs: nat)
    requires
        ae == be + d,
        bs == bm / pow2(d),
    ensures
        bs as real * pow2r(ae - 30) <= bm as real * pow2r(be - 30),
        bm as real * pow2r(be - 30) < (bs + 1) as real * pow2r(ae - 30),
        (bs + 1) as real * pow2r(ae - 30) == bs as real * pow2r(ae - 30) + pow2r(ae - 30),
{
    lemma_pow2_pos(d);
    let p = pow2(d);
    lemma_fundamental_div_mod(bm as int, p as int);
    lemma_mod_bound(bm as int, p as int);
    assert(bs * p <= bm < (bs + 1) * p) by (nonlinear_arith)
        requires
            bm == p * bs + bm % p,
            0 <= bm % p < p,
    ;
    lemma_pow2r_add(be - 30, d as int);
    lemma_pow2r_nat(d);
    lemma_pow2r_pos(be - 30);
    let v = pow2r(be - 30);
    lemma_nat_mul_real(bs, p);
    lemma_nat_mul_real((bs + 1) as nat, p);
    lemma_real_cast_order((bs * p) as int, bm as int);
    lemma_real_cast_order(bm as int, ((bs + 1) * p) as int);
    assert(bs as real * (v * p as real) <= bm as real * v) by (nonlinear_arith)
        requires
            (bs * p) as real <= bm as real,
            (bs * p) as real == bs as real * p as real,
            v > 0real,
    ;
    assert(bm as real * v < (bs + 1) as real * (v * p as real)) by (nonlinear_arith)
        requires
            (bm as real) < ((bs + 1) * p) as real,
            ((bs + 1) * p) as real == (bs + 1) as real * p as real,
            v > 0real,
    ;
    assert((bs + 1) as real == bs as real + 1real) by (nonlinear_arith);
    let w = pow2r(ae - 30);
    assert((bs + 1) as real * w == bs as real * w + w) by (nonlinear_arith)
        requires
            (bs + 1) as real == bs as real + 1real,
    ;
}

proof fn lemma_pow2_increases_le_nat(a: nat, b: nat)
    requires
        a <= b,
    ensures
        pow2(a) <= pow2(b),
{
    if a < b {
        lemma_pow2_strictly_increases(a, b);
    }
}

} // verus!
