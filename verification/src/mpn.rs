//! Low-level limb-vector arithmetic in the style of GMP's `mpn` layer.
//!
//! A number is a little-endian slice of [`Limb`]s (least significant first);
//! its meaning is [`value_of`]. Callers supply output slices of the right
//! size; functions return carries and borrows rather than reallocating.
//! "Normalized" means the most significant limb is nonzero (empty = 0).
use crate::limb_spec::{
    is_normalized, lemma_pow2_64, lemma_value_all_zero, lemma_value_bound, lemma_value_concat,
    lemma_value_empty, lemma_value_ext, lemma_value_len_lt, lemma_value_lower, lemma_value_lt_at,
    lemma_value_pair, lemma_value_push, lemma_value_single, lemma_value_split,
    lemma_value_take_all, lemma_value_take_eq, lemma_value_take_step, lemma_value_update,
    lemma_value_zero_limbs, lemma_value_zeros_above, lemma_weight_add, lemma_weight_mono,
    lemma_weight_pos, lemma_weight_succ, limb_base, limb_weight, value_of,
};
use vstd::arithmetic::div_mod::*;
use vstd::arithmetic::mul::*;
use vstd::arithmetic::power2::*;
use vstd::bits::{lemma_u64_low_bits_mask_is_mod, lemma_u64_shl_is_mul, lemma_u64_shr_is_div, low_bits_mask};
use vstd::std_specs::bits::u64_leading_zeros;
use vstd::arithmetic::power2::lemma2_to64_rest;
use vstd::prelude::*;
use core::cmp::Ordering;

verus! {

pub type Limb = u64;

/// Bits per limb.
pub const LIMB_BITS: u32 = 64;

/// Karatsuba crossover, in limbs.
pub const KARATSUBA_THRESHOLD: usize = 24;

proof fn lemma_split_u128(t: u128)
    ensures
        (t as u64) as nat + ((t >> 64u128) as u64) as nat * limb_base() == t as nat,
        (t >> 64u128) as nat == ((t >> 64u128) as u64) as nat,
{
    assert(t == (t as u64) as u128 + ((t >> 64u128) as u64) as u128 * 0x1_0000_0000_0000_0000u128)
        by (bit_vector);
    assert((t >> 64u128) == ((t >> 64u128) as u64) as u128) by (bit_vector);
}

/// Add with carry: `a + b + carry = s + c·2^64`.
fn adc(a: Limb, b: Limb, carry: Limb) -> (res: (Limb, Limb))
    requires
        carry <= 1,
    ensures
        res.0 as nat + res.1 as nat * limb_base() == a as nat + b as nat + carry as nat,
        res.1 <= 1,
{
    let t: u128 = a as u128 + b as u128 + carry as u128;
    proof {
        lemma_split_u128(t);
    }
    (t as Limb, (t >> 64u128) as Limb)
}

/// Subtract with borrow: `a − b − borrow = d − w·2^64`, `w ∈ {0, 1}`.
fn sbb(a: Limb, b: Limb, borrow: Limb) -> (res: (Limb, Limb))
    requires
        borrow <= 1,
    ensures
        res.0 as int - res.1 as int * limb_base() == a as int - b as int - borrow as int,
        res.1 <= 1,
{
    if (b as u128) + (borrow as u128) <= (a as u128) {
        let d = a - b - borrow;
        (d, 0)
    } else {
        let t: u128 = (a as u128) + 0x1_0000_0000_0000_0000u128 - (b as u128) - (borrow as u128);
        (t as Limb, 1)
    }
}

/// Full 64×64 → 128 multiply, returned as (low, high).
fn umul(a: Limb, b: Limb) -> (res: (Limb, Limb))
    ensures
        res.0 as nat + res.1 as nat * limb_base() == a as nat * b as nat,
        res.1 as nat <= limb_base() - 2,
{
    proof {
        lemma_mul_upper_bound(a as int, u64::MAX as int, b as int, u64::MAX as int);
    }
    let t: u128 = (a as u128) * (b as u128);
    proof {
        lemma_split_u128(t);
        let hi = ((t >> 64u128) as u64) as nat;
        let lo = (t as u64) as nat;
        assert(hi <= limb_base() - 2) by (nonlinear_arith)
            requires
                lo + hi * limb_base() <= (limb_base() - 1) * (limb_base() - 1),
                limb_base() == 0x1_0000_0000_0000_0000nat,
        ;
    }
    (t as Limb, (t >> 64u128) as Limb)
}

/// Strip high zero limbs: `&a[..len]` is the normalized value.
pub fn normalized_len(a: &[Limb]) -> (n: usize)
    ensures
        n <= a@.len(),
        n == 0 || a@[n - 1] != 0,
        forall|i: int| n <= i < a@.len() ==> a@[i] == 0,
        value_of(a@.take(n as int)) == value_of(a@),
        is_normalized(a@.take(n as int)),
{
    let mut n = a.len();
    while n > 0 && a[n - 1] == 0
        invariant
            n <= a@.len(),
            forall|i: int| n <= i < a@.len() ==> a@[i] == 0,
        decreases n,
    {
        n -= 1;
    }
    proof {
        lemma_value_zeros_above(a@, n as int);
    }
    n
}

/// Carry step of a limbwise loop: limb `i` written with digit `s` and
/// carry `c` extends the prefix identity by one limb.
proof fn lemma_carry_step(
    rv: nat,
    av: nat,
    s: nat,
    x: nat,
    y: nat,
    c_in: nat,
    c_out: nat,
    i: nat,
)
    requires
        rv + c_in * limb_weight(i) == av,
        s + c_out * limb_base() == x + y + c_in,
    ensures
        (rv + s * limb_weight(i)) + c_out * limb_weight(i + 1) == av + x * limb_weight(i) + y
            * limb_weight(i),
{
    lemma_weight_succ(i);
    let w = limb_weight(i);
    assert(c_out * (w * limb_base()) == (c_out * limb_base()) * w) by (nonlinear_arith);
    assert((s + c_out * limb_base()) * w == s * w + (c_out * limb_base()) * w) by (nonlinear_arith);
    assert((x + y + c_in) * w == x * w + y * w + c_in * w) by (nonlinear_arith);
}

/// Borrow step of a limbwise loop.
proof fn lemma_borrow_step(
    rv: int,
    av: int,
    d: int,
    x: int,
    y: int,
    b_in: int,
    b_out: int,
    i: nat,
)
    requires
        rv - b_in * limb_weight(i) == av,
        d - b_out * limb_base() == x - y - b_in,
    ensures
        (rv + d * limb_weight(i)) - b_out * limb_weight(i + 1) == av + x * limb_weight(i) - y
            * limb_weight(i),
{
    lemma_weight_succ(i);
    let w = limb_weight(i) as int;
    let b = limb_base() as int;
    assert(b_out * (w * b) == (b_out * b) * w) by (nonlinear_arith);
    assert((d - b_out * b) * w == d * w - (b_out * b) * w) by (nonlinear_arith);
    assert((x - y - b_in) * w == x * w - y * w - b_in * w) by (nonlinear_arith);
}

/// r = a + b for equal-length operands. Returns the carry (0 or 1).
pub fn add_n(r: &mut [Limb], a: &[Limb], b: &[Limb]) -> (carry: Limb)
    requires
        a@.len() == b@.len(),
        old(r)@.len() == a@.len(),
    ensures
        final(r)@.len() == a@.len(),
        carry <= 1,
        value_of(final(r)@) + carry as nat * limb_weight(a@.len()) == value_of(a@) + value_of(b@),
{
    let n = a.len();
    let mut carry: Limb = 0;
    for i in 0..n
        invariant
            n == a@.len(),
            a@.len() == b@.len(),
            r@.len() == n,
            carry <= 1,
            value_of(r@.take(i as int)) + carry as nat * limb_weight(i as nat) == value_of(
                a@.take(i as int),
            ) + value_of(b@.take(i as int)),
    {
        let (s, c) = adc(a[i], b[i], carry);
        proof {
            let r0 = r@;
            lemma_value_take_step(a@, i as int);
            lemma_value_take_step(b@, i as int);
            lemma_carry_step(
                value_of(r0.take(i as int)),
                value_of(a@.take(i as int)) + value_of(b@.take(i as int)),
                s as nat,
                a@[i as int] as nat,
                b@[i as int] as nat,
                carry as nat,
                c as nat,
                i as nat,
            );
        }
        let ghost r0 = r@;
        r[i] = s;
        proof {
            lemma_value_take_step(r@, i as int);
            assert(r@.take(i as int) =~= r0.take(i as int));
        }
        carry = c;
    }
    proof {
        lemma_value_take_all(r@);
        lemma_value_take_all(a@);
        lemma_value_take_all(b@);
    }
    carry
}

/// r = a + b (single limb). Returns carry.
pub fn add_1(r: &mut [Limb], a: &[Limb], b: Limb) -> (carry: Limb)
    requires
        old(r)@.len() == a@.len(),
    ensures
        final(r)@.len() == a@.len(),
        carry as nat <= 1 || (a@.len() == 0 && carry == b),
        value_of(final(r)@) + carry as nat * limb_weight(a@.len()) == value_of(a@) + b as nat,
{
    let n = a.len();
    let mut carry: Limb = b;
    let mut i: usize = 0;
    proof {
        lemma_weight_succ(0);
    }
    while i < n
        invariant
            n == a@.len(),
            r@.len() == n,
            i <= n,
            i > 0 ==> carry <= 1,
            i == 0 ==> carry == b,
            value_of(r@.take(i as int)) + carry as nat * limb_weight(i as nat) == value_of(
                a@.take(i as int),
            ) + b as nat,
        decreases n - i,
    {
        let (s0, c0) = adc(a[i], carry, 0);
        proof {
            lemma_value_take_step(a@, i as int);
            lemma_carry_step(
                value_of(r@.take(i as int)),
                value_of(a@.take(i as int)) + b as nat,
                s0 as nat,
                a@[i as int] as nat,
                0,
                carry as nat,
                c0 as nat,
                i as nat,
            );
        }
        let ghost r0 = r@;
        r[i] = s0;
        proof {
            lemma_value_take_step(r@, i as int);
            assert(r@.take(i as int) =~= r0.take(i as int));
        }
        carry = c0;
        i = i + 1;
        if carry == 0 {
            assert(carry as nat * limb_weight(i as nat) == 0) by (nonlinear_arith)
                requires
                    carry == 0,
            ;
            // Nothing left to propagate: the remaining limbs are copied.
            while i < n
                invariant
                    n == a@.len(),
                    r@.len() == n,
                    i <= n,
                    value_of(r@.take(i as int)) == value_of(a@.take(i as int)) + b as nat,
                decreases n - i,
            {
                let ghost r1 = r@;
                r[i] = a[i];
                proof {
                    lemma_value_take_step(r@, i as int);
                    lemma_value_take_step(a@, i as int);
                    assert(r@.take(i as int) =~= r1.take(i as int));
                }
                i = i + 1;
            }
            proof {
                lemma_value_take_all(r@);
                lemma_value_take_all(a@);
            }
            return 0;
        }
    }
    proof {
        lemma_value_take_all(r@);
        lemma_value_take_all(a@);
    }
    carry
}

/// r = a + b where a.len() >= b.len(); r.len() == a.len(). Returns carry.
pub fn add(r: &mut [Limb], a: &[Limb], b: &[Limb]) -> (carry: Limb)
    requires
        a@.len() >= b@.len(),
        old(r)@.len() == a@.len(),
    ensures
        final(r)@.len() == a@.len(),
        carry <= 1,
        value_of(final(r)@) + carry as nat * limb_weight(a@.len()) == value_of(a@) + value_of(b@),
{
    let n = a.len();
    let bl = b.len();
    let mut carry: Limb = 0;
    proof {
        lemma_weight_succ(0);
    }
    let mut i: usize = 0;
    while i < n
        invariant
            n == a@.len(),
            bl == b@.len(),
            bl <= n,
            r@.len() == n,
            i <= n,
            carry <= 1,
            value_of(r@.take(i as int)) + carry as nat * limb_weight(i as nat) == value_of(
                a@.take(i as int),
            ) + value_of(b@.take(if i < bl { i as int } else { bl as int })),
        decreases n - i,
    {
        let bi: Limb = if i < bl { b[i] } else { 0 };
        let (s, c) = adc(a[i], bi, carry);
        proof {
            lemma_value_take_step(a@, i as int);
            if i < bl {
                lemma_value_take_step(b@, i as int);
            }
            let bt = if i < bl { i as int } else { bl as int };
            lemma_carry_step(
                value_of(r@.take(i as int)),
                value_of(a@.take(i as int)) + value_of(b@.take(bt)),
                s as nat,
                a@[i as int] as nat,
                bi as nat,
                carry as nat,
                c as nat,
                i as nat,
            );
        }
        let ghost r0 = r@;
        r[i] = s;
        proof {
            lemma_value_take_step(r@, i as int);
            assert(r@.take(i as int) =~= r0.take(i as int));
        }
        carry = c;
        i = i + 1;
    }
    proof {
        lemma_value_take_all(r@);
        lemma_value_take_all(a@);
        lemma_value_take_all(b@);
    }
    carry
}

/// r = a - b for equal-length operands. Returns the borrow (0 or 1).
pub fn sub_n(r: &mut [Limb], a: &[Limb], b: &[Limb]) -> (borrow: Limb)
    requires
        a@.len() == b@.len(),
        old(r)@.len() == a@.len(),
    ensures
        final(r)@.len() == a@.len(),
        borrow <= 1,
        value_of(final(r)@) as int - borrow as int * limb_weight(a@.len()) == value_of(a@) as int
            - value_of(b@) as int,
        borrow == 1 <==> value_of(a@) < value_of(b@),
{
    let n = a.len();
    let mut borrow: Limb = 0;
    proof {
        lemma_weight_succ(0);
    }
    for i in 0..n
        invariant
            n == a@.len(),
            a@.len() == b@.len(),
            r@.len() == n,
            borrow <= 1,
            value_of(r@.take(i as int)) as int - borrow as int * limb_weight(i as nat) == value_of(
                a@.take(i as int),
            ) as int - value_of(b@.take(i as int)) as int,
    {
        let (d, w) = sbb(a[i], b[i], borrow);
        proof {
            lemma_value_take_step(a@, i as int);
            lemma_value_take_step(b@, i as int);
            lemma_borrow_step(
                value_of(r@.take(i as int)) as int,
                value_of(a@.take(i as int)) as int - value_of(b@.take(i as int)) as int,
                d as int,
                a@[i as int] as int,
                b@[i as int] as int,
                borrow as int,
                w as int,
                i as nat,
            );
        }
        let ghost r0 = r@;
        r[i] = d;
        proof {
            lemma_value_take_step(r@, i as int);
            assert(r@.take(i as int) =~= r0.take(i as int));
        }
        borrow = w;
    }
    proof {
        lemma_value_take_all(r@);
        lemma_value_take_all(a@);
        lemma_value_take_all(b@);
        lemma_value_bound(r@);
        lemma_mul_basics(limb_weight(n as nat) as int);
    }
    borrow
}

/// r = a - b (single limb). Returns borrow.
pub fn sub_1(r: &mut [Limb], a: &[Limb], b: Limb) -> (borrow: Limb)
    requires
        old(r)@.len() == a@.len(),
    ensures
        final(r)@.len() == a@.len(),
        borrow as nat <= 1 || (a@.len() == 0 && borrow == b),
        value_of(final(r)@) as int - borrow as int * limb_weight(a@.len()) == value_of(a@) as int
            - b as int,
{
    let n = a.len();
    let mut borrow: Limb = b;
    let mut i: usize = 0;
    proof {
        lemma_weight_succ(0);
    }
    while i < n
        invariant
            n == a@.len(),
            r@.len() == n,
            i <= n,
            i > 0 ==> borrow <= 1,
            i == 0 ==> borrow == b,
            value_of(r@.take(i as int)) as int - borrow as int * limb_weight(i as nat) == value_of(
                a@.take(i as int),
            ) as int - b as int,
        decreases n - i,
    {
        let (d, w) = sbb(a[i], borrow, 0);
        proof {
            lemma_value_take_step(a@, i as int);
            lemma_borrow_step(
                value_of(r@.take(i as int)) as int,
                value_of(a@.take(i as int)) as int - b as int,
                d as int,
                a@[i as int] as int,
                0,
                borrow as int,
                w as int,
                i as nat,
            );
        }
        let ghost r0 = r@;
        r[i] = d;
        proof {
            lemma_value_take_step(r@, i as int);
            assert(r@.take(i as int) =~= r0.take(i as int));
        }
        borrow = w;
        i = i + 1;
        if borrow == 0 {
            assert(borrow as int * limb_weight(i as nat) == 0) by (nonlinear_arith)
                requires
                    borrow == 0,
            ;
            while i < n
                invariant
                    n == a@.len(),
                    r@.len() == n,
                    i <= n,
                    value_of(r@.take(i as int)) as int == value_of(a@.take(i as int)) as int
                        - b as int,
                decreases n - i,
            {
                let ghost r1 = r@;
                r[i] = a[i];
                proof {
                    lemma_value_take_step(r@, i as int);
                    lemma_value_take_step(a@, i as int);
                    assert(r@.take(i as int) =~= r1.take(i as int));
                }
                i = i + 1;
            }
            proof {
                lemma_value_take_all(r@);
                lemma_value_take_all(a@);
            }
            return 0;
        }
    }
    proof {
        lemma_value_take_all(r@);
        lemma_value_take_all(a@);
    }
    borrow
}

/// r = a - b where a.len() >= b.len(). Returns borrow.
pub fn sub(r: &mut [Limb], a: &[Limb], b: &[Limb]) -> (borrow: Limb)
    requires
        a@.len() >= b@.len(),
        old(r)@.len() == a@.len(),
    ensures
        final(r)@.len() == a@.len(),
        borrow <= 1,
        value_of(final(r)@) as int - borrow as int * limb_weight(a@.len()) == value_of(a@) as int
            - value_of(b@) as int,
        borrow == 1 <==> value_of(a@) < value_of(b@),
{
    let n = a.len();
    let bl = b.len();
    let mut borrow: Limb = 0;
    proof {
        lemma_weight_succ(0);
    }
    let mut i: usize = 0;
    while i < n
        invariant
            n == a@.len(),
            bl == b@.len(),
            bl <= n,
            r@.len() == n,
            i <= n,
            borrow <= 1,
            value_of(r@.take(i as int)) as int - borrow as int * limb_weight(i as nat) == value_of(
                a@.take(i as int),
            ) as int - value_of(b@.take(if i < bl { i as int } else { bl as int })) as int,
        decreases n - i,
    {
        let bi: Limb = if i < bl { b[i] } else { 0 };
        let (d, w) = sbb(a[i], bi, borrow);
        proof {
            lemma_value_take_step(a@, i as int);
            if i < bl {
                lemma_value_take_step(b@, i as int);
            }
            let bt = if i < bl { i as int } else { bl as int };
            lemma_borrow_step(
                value_of(r@.take(i as int)) as int,
                value_of(a@.take(i as int)) as int - value_of(b@.take(bt)) as int,
                d as int,
                a@[i as int] as int,
                bi as int,
                borrow as int,
                w as int,
                i as nat,
            );
        }
        let ghost r0 = r@;
        r[i] = d;
        proof {
            lemma_value_take_step(r@, i as int);
            assert(r@.take(i as int) =~= r0.take(i as int));
        }
        borrow = w;
        i = i + 1;
    }
    proof {
        lemma_value_take_all(r@);
        lemma_value_take_all(a@);
        lemma_value_take_all(b@);
        lemma_value_bound(r@);
        lemma_mul_basics(limb_weight(n as nat) as int);
    }
    borrow
}

/// One limb of a whole-value update: replacing limb `j` (old value `o`)
/// with `s`, where `s + cout·2^64 = o + x + cin`, adds `x` at weight `j` and
/// moves the carry one limb up.
proof fn lemma_update_carry(v: int, t: int, o: int, s: int, x: int, cin: int, cout: int, j: nat)
    requires
        v + cin * limb_weight(j) == t,
        s + cout * limb_base() == o + x + cin,
    ensures
        (v - o * limb_weight(j) + s * limb_weight(j)) + cout * limb_weight(j + 1) == t + x
            * limb_weight(j),
{
    lemma_weight_succ(j);
    let w = limb_weight(j) as int;
    let b = limb_base() as int;
    assert(cout * (w * b) == (cout * b) * w) by (nonlinear_arith);
    assert((s + cout * b) * w == s * w + (cout * b) * w) by (nonlinear_arith);
    assert((o + x + cin) * w == o * w + x * w + cin * w) by (nonlinear_arith);
}

/// Borrow form of [`lemma_update_carry`]: `s − bout·2^64 = o − x − bin`.
proof fn lemma_update_borrow(v: int, t: int, o: int, s: int, x: int, bin: int, bout: int, j: nat)
    requires
        v - bin * limb_weight(j) == t,
        s - bout * limb_base() == o - x - bin,
    ensures
        (v - o * limb_weight(j) + s * limb_weight(j)) - bout * limb_weight(j + 1) == t - x
            * limb_weight(j),
{
    lemma_weight_succ(j);
    let w = limb_weight(j) as int;
    let b = limb_base() as int;
    assert(bout * (w * b) == (bout * b) * w) by (nonlinear_arith);
    assert((s - bout * b) * w == s * w - (bout * b) * w) by (nonlinear_arith);
    assert((o - x - bin) * w == o * w - x * w - bin * w) by (nonlinear_arith);
}

/// `r[off..] += b`; returns the carry out of the top of `r`.
fn add_in_place_at(r: &mut [Limb], off: usize, b: &[Limb]) -> (carry: Limb)
    requires
        off + b@.len() <= old(r)@.len(),
    ensures
        final(r)@.len() == old(r)@.len(),
        carry <= 1,
        forall|k: int| 0 <= k < off ==> final(r)@[k] == old(r)@[k],
        value_of(final(r)@) + carry as nat * limb_weight(old(r)@.len()) == value_of(old(r)@)
            + limb_weight(off as nat) * value_of(b@),
{
    let ghost r0 = r@;
    let n = r.len();
    let bl = b.len();
    let mut carry: Limb = 0;
    let mut i: usize = 0;
    proof {
        lemma_weight_succ(0);
        lemma_weight_add(off as nat, 0);
        assert(b@.take(0) =~= Seq::<u64>::empty());
        lemma_mul_basics(limb_weight(off as nat) as int);
    }
    while i < bl
        invariant
            n == r@.len(),
            r0.len() == n,
            bl == b@.len(),
            off + bl <= n,
            i <= bl,
            carry <= 1,
            forall|k: int| 0 <= k < off ==> r@[k] == r0[k],
            value_of(r@) as int + carry as int * limb_weight((off + i) as nat) == value_of(r0) as int
                + limb_weight(off as nat) as int * value_of(b@.take(i as int)) as int,
        decreases bl - i,
    {
        let j = off + i;
        let o = r[j];
        let (sm, c) = adc(o, b[i], carry);
        proof {
            lemma_value_update(r@, j as int, sm);
            lemma_update_carry(
                value_of(r@) as int,
                value_of(r0) as int + limb_weight(off as nat) as int * value_of(b@.take(i as int)) as int,
                o as int,
                sm as int,
                b@[i as int] as int,
                carry as int,
                c as int,
                j as nat,
            );
            lemma_value_take_step(b@, i as int);
            lemma_weight_add(off as nat, i as nat);
            let wo = limb_weight(off as nat) as int;
            let vb = value_of(b@.take(i as int)) as int;
            let bi = b@[i as int] as int;
            let wi = limb_weight(i as nat) as int;
            assert(wo * (vb + bi * wi) == wo * vb + bi * (wo * wi)) by (nonlinear_arith);
        }
        r[j] = sm;
        carry = c;
        i = i + 1;
    }
    proof {
        lemma_value_take_all(b@);
    }
    let mut j: usize = off + bl;
    while carry != 0 && j < n
        invariant
            n == r@.len(),
            r0.len() == n,
            off + bl <= j <= n,
            carry <= 1,
            forall|k: int| 0 <= k < off ==> r@[k] == r0[k],
            value_of(r@) as int + carry as int * limb_weight(j as nat) == value_of(r0) as int
                + limb_weight(off as nat) as int * value_of(b@) as int,
        decreases n - j,
    {
        let o = r[j];
        let (sm, c) = adc(o, 0, carry);
        proof {
            lemma_value_update(r@, j as int, sm);
            lemma_update_carry(
                value_of(r@) as int,
                value_of(r0) as int + limb_weight(off as nat) as int * value_of(b@) as int,
                o as int,
                sm as int,
                0,
                carry as int,
                c as int,
                j as nat,
            );
        }
        r[j] = sm;
        carry = c;
        j = j + 1;
    }
    proof {
        if carry == 0 {
            assert(carry as int * limb_weight(j as nat) == 0) by (nonlinear_arith)
                requires
                    carry == 0,
            ;
            assert(carry as int * limb_weight(n as nat) == 0) by (nonlinear_arith)
                requires
                    carry == 0,
            ;
        }
    }
    carry
}

/// `r[off..] -= b`; returns the borrow out of the top of `r`.
fn sub_in_place_at(r: &mut [Limb], off: usize, b: &[Limb]) -> (borrow: Limb)
    requires
        off + b@.len() <= old(r)@.len(),
    ensures
        final(r)@.len() == old(r)@.len(),
        borrow <= 1,
        forall|k: int| 0 <= k < off ==> final(r)@[k] == old(r)@[k],
        value_of(final(r)@) as int - borrow as int * limb_weight(old(r)@.len()) == value_of(
            old(r)@,
        ) as int - limb_weight(off as nat) * value_of(b@),
{
    let ghost r0 = r@;
    let n = r.len();
    let bl = b.len();
    let mut borrow: Limb = 0;
    let mut i: usize = 0;
    proof {
        lemma_weight_succ(0);
        lemma_weight_add(off as nat, 0);
        assert(b@.take(0) =~= Seq::<u64>::empty());
        lemma_mul_basics(limb_weight(off as nat) as int);
    }
    while i < bl
        invariant
            n == r@.len(),
            r0.len() == n,
            bl == b@.len(),
            off + bl <= n,
            i <= bl,
            borrow <= 1,
            forall|k: int| 0 <= k < off ==> r@[k] == r0[k],
            value_of(r@) as int - borrow as int * limb_weight((off + i) as nat) == value_of(r0) as int
                - limb_weight(off as nat) as int * value_of(b@.take(i as int)) as int,
        decreases bl - i,
    {
        let j = off + i;
        let o = r[j];
        let (d, w) = sbb(o, b[i], borrow);
        proof {
            lemma_value_update(r@, j as int, d);
            lemma_update_borrow(
                value_of(r@) as int,
                value_of(r0) as int - limb_weight(off as nat) as int * value_of(b@.take(i as int)) as int,
                o as int,
                d as int,
                b@[i as int] as int,
                borrow as int,
                w as int,
                j as nat,
            );
            lemma_value_take_step(b@, i as int);
            lemma_weight_add(off as nat, i as nat);
            let wo = limb_weight(off as nat) as int;
            let vb = value_of(b@.take(i as int)) as int;
            let bi = b@[i as int] as int;
            let wi = limb_weight(i as nat) as int;
            assert(wo * (vb + bi * wi) == wo * vb + bi * (wo * wi)) by (nonlinear_arith);
        }
        r[j] = d;
        borrow = w;
        i = i + 1;
    }
    proof {
        lemma_value_take_all(b@);
    }
    let mut j: usize = off + bl;
    while borrow != 0 && j < n
        invariant
            n == r@.len(),
            r0.len() == n,
            off + bl <= j <= n,
            borrow <= 1,
            forall|k: int| 0 <= k < off ==> r@[k] == r0[k],
            value_of(r@) as int - borrow as int * limb_weight(j as nat) == value_of(r0) as int
                - limb_weight(off as nat) as int * value_of(b@) as int,
        decreases n - j,
    {
        let o = r[j];
        let (d, w) = sbb(o, 0, borrow);
        proof {
            lemma_value_update(r@, j as int, d);
            lemma_update_borrow(
                value_of(r@) as int,
                value_of(r0) as int - limb_weight(off as nat) as int * value_of(b@) as int,
                o as int,
                d as int,
                0,
                borrow as int,
                w as int,
                j as nat,
            );
        }
        r[j] = d;
        borrow = w;
        j = j + 1;
    }
    proof {
        if borrow == 0 {
            assert(borrow as int * limb_weight(j as nat) == 0) by (nonlinear_arith)
                requires
                    borrow == 0,
            ;
            assert(borrow as int * limb_weight(n as nat) == 0) by (nonlinear_arith)
                requires
                    borrow == 0,
            ;
        }
    }
    borrow
}

/// r += b in place, r.len() >= b.len(). Returns the carry out of the top.
pub fn add_in_place(r: &mut [Limb], b: &[Limb]) -> (carry: Limb)
    requires
        b@.len() <= old(r)@.len(),
    ensures
        final(r)@.len() == old(r)@.len(),
        carry <= 1,
        value_of(final(r)@) + carry as nat * limb_weight(old(r)@.len()) == value_of(old(r)@)
            + value_of(b@),
{
    proof {
        lemma_weight_succ(0);
    }
    add_in_place_at(r, 0, b)
}

/// r -= b in place, r.len() >= b.len(). Returns the borrow out of the top.
pub fn sub_in_place(r: &mut [Limb], b: &[Limb]) -> (borrow: Limb)
    requires
        b@.len() <= old(r)@.len(),
    ensures
        final(r)@.len() == old(r)@.len(),
        borrow <= 1,
        value_of(final(r)@) as int - borrow as int * limb_weight(old(r)@.len()) == value_of(
            old(r)@,
        ) as int - value_of(b@) as int,
        borrow == 1 <==> value_of(old(r)@) < value_of(b@),
{
    proof {
        lemma_weight_succ(0);
    }
    let ghost r0 = r@;
    let w = sub_in_place_at(r, 0, b);
    proof {
        lemma_value_bound(r@);
        lemma_mul_basics(limb_weight(r0.len()) as int);
    }
    w
}

/// Three-way comparison of equal-length vectors: −1, 0 or 1.
fn compare_n(a: &[Limb], b: &[Limb]) -> (r: i8)
    requires
        a@.len() == b@.len(),
    ensures
        r == -1 <==> value_of(a@) < value_of(b@),
        r == 0 <==> value_of(a@) == value_of(b@),
        r == 1 <==> value_of(a@) > value_of(b@),
        -1 <= r <= 1,
{
    let mut i = a.len();
    while i > 0
        invariant
            i <= a@.len(),
            a@.len() == b@.len(),
            forall|j: int| i <= j < a@.len() ==> a@[j] == b@[j],
        decreases i,
    {
        i -= 1;
        if a[i] != b[i] {
            proof {
                if a@[i as int] < b@[i as int] {
                    lemma_value_lt_at(a@, b@, i as int);
                } else {
                    lemma_value_lt_at(b@, a@, i as int);
                }
            }
            if a[i] < b[i] {
                return -1;
            } else {
                return 1;
            }
        }
    }
    proof {
        assert(a@ =~= b@);
    }
    0
}

/// Compare equal-length limb vectors.
pub fn cmp_n(a: &[Limb], b: &[Limb]) -> (ord: Ordering)
    requires
        a@.len() == b@.len(),
    ensures
        ord == Ordering::Less <==> value_of(a@) < value_of(b@),
        ord == Ordering::Equal <==> value_of(a@) == value_of(b@),
        ord == Ordering::Greater <==> value_of(a@) > value_of(b@),
{
    let r = compare_n(a, b);
    if r < 0 {
        Ordering::Less
    } else if r == 0 {
        Ordering::Equal
    } else {
        Ordering::Greater
    }
}

/// Three-way comparison of two normalized vectors: −1, 0 or 1.
pub(crate) fn compare(a: &[Limb], b: &[Limb]) -> (r: i8)
    requires
        is_normalized(a@),
        is_normalized(b@),
    ensures
        r == -1 <==> value_of(a@) < value_of(b@),
        r == 0 <==> value_of(a@) == value_of(b@),
        r == 1 <==> value_of(a@) > value_of(b@),
        -1 <= r <= 1,
{
    if a.len() < b.len() {
        proof {
            lemma_value_len_lt(a@, b@);
        }
        -1
    } else if a.len() > b.len() {
        proof {
            lemma_value_len_lt(b@, a@);
        }
        1
    } else {
        compare_n(a, b)
    }
}

/// Compare two normalized limb vectors of possibly different lengths.
pub fn cmp(a: &[Limb], b: &[Limb]) -> (ord: Ordering)
    requires
        is_normalized(a@),
        is_normalized(b@),
    ensures
        ord == Ordering::Less <==> value_of(a@) < value_of(b@),
        ord == Ordering::Equal <==> value_of(a@) == value_of(b@),
        ord == Ordering::Greater <==> value_of(a@) > value_of(b@),
{
    let r = compare(a, b);
    if r < 0 {
        Ordering::Less
    } else if r == 0 {
        Ordering::Equal
    } else {
        Ordering::Greater
    }
}

/// Distributes a limb multiplier over one more limb of a prefix.
proof fn lemma_scaled_prefix_step(w: int, v: int, x: int, wi: int, m: int)
    ensures
        w * (v + x * wi) * m == w * v * m + (x * m) * (w * wi),
{
    assert(w * (v + x * wi) * m == w * v * m + (x * m) * (w * wi)) by (nonlinear_arith);
}

/// r = a * b (single limb). Returns the high carry limb.
pub fn mul_1(r: &mut [Limb], a: &[Limb], b: Limb) -> (carry: Limb)
    requires
        old(r)@.len() == a@.len(),
    ensures
        final(r)@.len() == a@.len(),
        value_of(final(r)@) + carry as nat * limb_weight(a@.len()) == value_of(a@) * b as nat,
{
    let n = a.len();
    let mut carry: Limb = 0;
    proof {
        lemma_weight_succ(0);
        assert(a@.take(0) =~= Seq::<u64>::empty());
        assert(r@.take(0) =~= Seq::<u64>::empty());
        lemma_mul_basics(b as int);
        lemma_mul_basics(limb_weight(0) as int);
    }
    for i in 0..n
        invariant
            n == a@.len(),
            r@.len() == n,
            value_of(r@.take(i as int)) + carry as nat * limb_weight(i as nat) == value_of(
                a@.take(i as int),
            ) * b as nat,
    {
        let (lo, hi) = umul(a[i], b);
        let (lo2, c) = adc(lo, carry, 0);
        proof {
            let bb = limb_base() as int;
            assert((hi as int + c as int) * bb == hi as int * bb + c as int * bb) by (nonlinear_arith);
            lemma_value_take_step(a@, i as int);
            lemma_carry_step(
                value_of(r@.take(i as int)),
                value_of(a@.take(i as int)) * b as nat,
                lo2 as nat,
                a@[i as int] as nat * b as nat,
                0,
                carry as nat,
                (hi + c) as nat,
                i as nat,
            );
            lemma_scaled_prefix_step(
                1,
                value_of(a@.take(i as int)) as int,
                a@[i as int] as int,
                limb_weight(i as nat) as int,
                b as int,
            );
        }
        let ghost r0 = r@;
        r[i] = lo2;
        proof {
            lemma_value_take_step(r@, i as int);
            assert(r@.take(i as int) =~= r0.take(i as int));
        }
        carry = hi + c;
    }
    proof {
        lemma_value_take_all(r@);
        lemma_value_take_all(a@);
    }
    carry
}

/// `r[off .. off + a.len()] += a * b`; returns the carry limb out of that range.
fn addmul_at(r: &mut [Limb], off: usize, a: &[Limb], b: Limb) -> (carry: Limb)
    requires
        off + a@.len() <= old(r)@.len(),
    ensures
        final(r)@.len() == old(r)@.len(),
        forall|k: int|
            0 <= k < old(r)@.len() && !(off <= k < off + a@.len()) ==> final(r)@[k] == old(r)@[k],
        value_of(final(r)@) + carry as nat * limb_weight((off + a@.len()) as nat) == value_of(
            old(r)@,
        ) + limb_weight(off as nat) * value_of(a@) * b as nat,
{
    let ghost r0 = r@;
    let n = a.len();
    let mut carry: Limb = 0;
    proof {
        lemma_weight_succ(0);
        lemma_weight_add(off as nat, 0);
        assert(a@.take(0) =~= Seq::<u64>::empty());
        lemma_mul_basics(limb_weight(off as nat) as int);
        lemma_mul_basics(b as int);
    }
    let rlen = r.len();
    for i in 0..n
        invariant
            n == a@.len(),
            r@.len() == r0.len(),
            rlen == r0.len(),
            off + n <= rlen,
            forall|k: int| 0 <= k < r0.len() && !(off <= k < off + i) ==> r@[k] == r0[k],
            value_of(r@) + carry as nat * limb_weight((off + i) as nat) == value_of(r0)
                + limb_weight(off as nat) * value_of(a@.take(i as int)) * b as nat,
    {
        let j = off + i;
        let o = r[j];
        let (lo, hi) = umul(a[i], b);
        let (lo1, c1) = adc(lo, o, 0);
        let (lo2, c2) = adc(lo1, carry, 0);
        proof {
            let bb = limb_base();
            lemma_mul_upper_bound(
                a@[i as int] as int,
                u64::MAX as int,
                b as int,
                u64::MAX as int,
            );
            assert(hi as nat + c1 as nat + c2 as nat <= u64::MAX) by (nonlinear_arith)
                requires
                    lo as nat + hi as nat * bb == a@[i as int] as nat * b as nat,
                    lo1 as nat + c1 as nat * bb == lo as nat + o as nat,
                    lo2 as nat + c2 as nat * bb == lo1 as nat + carry as nat,
                    a@[i as int] as nat * b as nat <= u64::MAX * u64::MAX,
                    o as nat <= u64::MAX,
                    carry as nat <= u64::MAX,
                    bb == u64::MAX + 1,
            ;
            assert((hi as int + c1 as int + c2 as int) * bb == hi as int * bb + c1 as int * bb + c2
                as int * bb) by (nonlinear_arith);
        }
        let cout: Limb = hi + c1 + c2;
        proof {
            lemma_value_update(r@, j as int, lo2);
            lemma_update_carry(
                value_of(r@) as int,
                value_of(r0) as int + limb_weight(off as nat) as int * value_of(a@.take(i as int)) as int
                    * b as int,
                o as int,
                lo2 as int,
                a@[i as int] as int * b as int,
                carry as int,
                cout as int,
                j as nat,
            );
            lemma_value_take_step(a@, i as int);
            lemma_weight_add(off as nat, i as nat);
            lemma_scaled_prefix_step(
                limb_weight(off as nat) as int,
                value_of(a@.take(i as int)) as int,
                a@[i as int] as int,
                limb_weight(i as nat) as int,
                b as int,
            );
        }
        r[j] = lo2;
        carry = cout;
    }
    proof {
        lemma_value_take_all(a@);
    }
    carry
}

/// `r[off .. off + a.len()] -= a * b`; returns the borrow limb out of that range.
fn submul_at(r: &mut [Limb], off: usize, a: &[Limb], b: Limb) -> (borrow: Limb)
    requires
        off + a@.len() <= old(r)@.len(),
    ensures
        final(r)@.len() == old(r)@.len(),
        forall|k: int|
            0 <= k < old(r)@.len() && !(off <= k < off + a@.len()) ==> final(r)@[k] == old(r)@[k],
        value_of(final(r)@) as int - borrow as int * limb_weight((off + a@.len()) as nat) == value_of(
            old(r)@,
        ) as int - limb_weight(off as nat) * value_of(a@) * b as nat,
{
    let ghost r0 = r@;
    let n = a.len();
    let mut borrow: Limb = 0;
    proof {
        lemma_weight_succ(0);
        lemma_weight_add(off as nat, 0);
        assert(a@.take(0) =~= Seq::<u64>::empty());
        lemma_mul_basics(limb_weight(off as nat) as int);
        lemma_mul_basics(b as int);
    }
    let rlen = r.len();
    for i in 0..n
        invariant
            n == a@.len(),
            r@.len() == r0.len(),
            rlen == r0.len(),
            off + n <= rlen,
            forall|k: int| 0 <= k < r0.len() && !(off <= k < off + i) ==> r@[k] == r0[k],
            value_of(r@) as int - borrow as int * limb_weight((off + i) as nat) == value_of(r0) as int
                - limb_weight(off as nat) * value_of(a@.take(i as int)) * b as nat,
    {
        let j = off + i;
        let o = r[j];
        let (lo, hi) = umul(a[i], b);
        let (d1, w1) = sbb(o, lo, 0);
        let (d2, w2) = sbb(d1, borrow, 0);
        proof {
            let bb = limb_base() as int;
            lemma_mul_upper_bound(
                a@[i as int] as int,
                u64::MAX as int,
                b as int,
                u64::MAX as int,
            );
            assert(hi as int + w1 as int + w2 as int <= u64::MAX) by (nonlinear_arith)
                requires
                    lo as int + hi as int * bb == a@[i as int] as int * b as int,
                    d1 as int - w1 as int * bb == o as int - lo as int,
                    d2 as int - w2 as int * bb == d1 as int - borrow as int,
                    a@[i as int] as int * b as int <= u64::MAX * u64::MAX,
                    0 <= o as int <= u64::MAX,
                    0 <= d2 as int,
                    d2 as int <= u64::MAX,
                    0 <= borrow as int <= u64::MAX,
                    0 <= lo as int,
                    bb == u64::MAX + 1,
            ;
            assert((hi as int + w1 as int + w2 as int) * bb == hi as int * bb + w1 as int * bb + w2
                as int * bb) by (nonlinear_arith);
        }
        let bout: Limb = hi + w1 + w2;
        proof {
            lemma_value_update(r@, j as int, d2);
            lemma_update_borrow(
                value_of(r@) as int,
                value_of(r0) as int - limb_weight(off as nat) as int * value_of(a@.take(i as int)) as int
                    * b as int,
                o as int,
                d2 as int,
                a@[i as int] as int * b as int,
                borrow as int,
                bout as int,
                j as nat,
            );
            lemma_value_take_step(a@, i as int);
            lemma_weight_add(off as nat, i as nat);
            lemma_scaled_prefix_step(
                limb_weight(off as nat) as int,
                value_of(a@.take(i as int)) as int,
                a@[i as int] as int,
                limb_weight(i as nat) as int,
                b as int,
            );
        }
        r[j] = d2;
        borrow = bout;
    }
    proof {
        lemma_value_take_all(a@);
    }
    borrow
}

/// The first `n` limbs of `s`, as a value.
pub open spec fn low_value(s: Seq<u64>, n: int) -> nat {
    value_of(s.take(n))
}

/// Limbs at or above `n` agree.
pub open spec fn same_above(s: Seq<u64>, t: Seq<u64>, n: int) -> bool {
    s.len() == t.len() && forall|k: int| n <= k < s.len() ==> s[k] == t[k]
}

/// Relates a whole-value identity over the first `n` limbs to their prefix values.
proof fn lemma_prefix_of_whole(s: Seq<u64>, t: Seq<u64>, n: int)
    requires
        0 <= n <= s.len(),
        same_above(s, t, n),
    ensures
        value_of(s) as int - value_of(t) as int == value_of(s.take(n)) as int - value_of(t.take(n)) as int,
{
    lemma_value_split(s, n);
    lemma_value_split(t, n);
    assert(s.skip(n) =~= t.skip(n));
}

/// r += a * b (single limb) over the first a.len() limbs of r. Returns the
/// carry limb out of the top of that range.
pub fn addmul_1(r: &mut [Limb], a: &[Limb], b: Limb) -> (carry: Limb)
    requires
        a@.len() <= old(r)@.len(),
    ensures
        same_above(final(r)@, old(r)@, a@.len() as int),
        low_value(final(r)@, a@.len() as int) + carry as nat * limb_weight(a@.len()) == low_value(
            old(r)@,
            a@.len() as int,
        ) + value_of(a@) * b as nat,
{
    let ghost r0 = r@;
    proof {
        lemma_weight_succ(0);
        lemma_mul_basics(value_of(a@) as int);
    }
    let c = addmul_at(r, 0, a, b);
    proof {
        lemma_prefix_of_whole(r@, r0, a@.len() as int);
        assert(1 * value_of(a@) == value_of(a@));
    }
    c
}

/// r -= a * b (single limb) over the first a.len() limbs of r. Returns the
/// borrow limb out of the top of that range.
pub fn submul_1(r: &mut [Limb], a: &[Limb], b: Limb) -> (borrow: Limb)
    requires
        a@.len() <= old(r)@.len(),
    ensures
        same_above(final(r)@, old(r)@, a@.len() as int),
        low_value(final(r)@, a@.len() as int) as int - borrow as int * limb_weight(a@.len())
            == low_value(old(r)@, a@.len() as int) as int - value_of(a@) * b as nat,
{
    let ghost r0 = r@;
    proof {
        lemma_weight_succ(0);
        lemma_mul_basics(value_of(a@) as int);
    }
    let c = submul_at(r, 0, a, b);
    proof {
        lemma_prefix_of_whole(r@, r0, a@.len() as int);
        assert(1 * value_of(a@) == value_of(a@));
    }
    c
}

/// One limb of a left shift: the kept part, the incoming bits and the bits
/// shifted out recombine to `v · 2^cnt + inb`.
proof fn lemma_shl_limb(v: u64, inb: u64, cnt: u64)
    requires
        0 < cnt < 64,
        inb < pow2(cnt as nat),
    ensures
        ((v << cnt) | inb) as nat + (v >> (64 - cnt) as u64) as nat * limb_base() == v as nat * pow2(
            cnt as nat,
        ) + inb as nat,
        ((v >> (64 - cnt) as u64) as nat) < pow2(cnt as nat),
{
    let k = (64 - cnt) as u64;
    let hi = v >> k;
    lemma_u64_pow2_facts(cnt as nat);
    lemma_u64_pow2_facts(k as nat);
    lemma_u64_shl_is_mul(1u64, cnt);
    lemma_u64_shl_is_mul(1u64, k);
    let mask: u64 = ((1u64 << k) - 1) as u64;
    let lo: u64 = v & mask;
    lemma_u64_low_bits_mask_is_mod(v, k as nat);
    assert(inb < (1u64 << cnt));
    assert(hi < (1u64 << cnt)) by (bit_vector)
        requires
            0 < cnt < 64,
            k == 64 - cnt,
            hi == v >> k,
    ;
    assert(v << cnt == lo << cnt) by (bit_vector)
        requires
            0 < cnt < 64,
            k == 64 - cnt,
            mask == ((1u64 << k) - 1) as u64,
            lo == v & mask,
    ;
    assert(((v << cnt) | inb) == (v << cnt) + inb && (v << cnt) + inb <= u64::MAX) by (bit_vector)
        requires
            0 < cnt < 64,
            inb < (1u64 << cnt),
    ;
    lemma_u64_shr_is_div(v, k);
    lemma_pow2_adds(cnt as nat, k as nat);
    lemma_pow2_64();
    let pk = pow2(k as nat) as int;
    let pc = pow2(cnt as nat) as int;
    lemma_fundamental_div_mod(v as int, pk);
    lemma_mod_bound(v as int, pk);
    assert(lo as int == v as int % pk);
    assert(lo as int * pc < pk * pc) by (nonlinear_arith)
        requires
            0 <= (lo as int) < pk,
            pc > 0,
    ;
    lemma_u64_shl_is_mul(lo, cnt);
    assert(v as int * pc == lo as int * pc + hi as int * (pk * pc)) by (nonlinear_arith)
        requires
            v as int == pk * (hi as int) + lo as int,
    ;
}

/// Powers of two below 64 are positive and fit a limb.
proof fn lemma_u64_pow2_facts(n: nat)
    requires
        n < 64,
    ensures
        0 < pow2(n) <= u64::MAX,
{
    lemma_pow2_pos(n);
    lemma_pow2_strictly_increases(n, 64);
    lemma_pow2_64();
}

/// Left shift by `cnt` bits (0 < cnt < 64): r = a << cnt.
/// Returns the bits shifted out of the top.
pub fn lshift(r: &mut [Limb], a: &[Limb], cnt: u32) -> (out: Limb)
    requires
        0 < cnt < 64,
        old(r)@.len() == a@.len(),
    ensures
        final(r)@.len() == a@.len(),
        (out as nat) < pow2(cnt as nat),
        value_of(final(r)@) + out as nat * limb_weight(a@.len()) == value_of(a@) * pow2(cnt as nat),
{
    let n = a.len();
    let mut out: Limb = 0;
    let c = cnt as u64;
    proof {
        lemma_weight_succ(0);
        assert(a@.take(0) =~= Seq::<u64>::empty());
        assert(r@.take(0) =~= Seq::<u64>::empty());
        lemma_u64_pow2_facts(cnt as nat);
        lemma_mul_basics(pow2(cnt as nat) as int);
        lemma_mul_basics(limb_weight(0) as int);
    }
    for i in 0..n
        invariant
            n == a@.len(),
            r@.len() == n,
            c == cnt,
            0 < cnt < 64,
            (out as nat) < pow2(cnt as nat),
            value_of(r@.take(i as int)) + out as nat * limb_weight(i as nat) == value_of(
                a@.take(i as int),
            ) * pow2(cnt as nat),
    {
        let v = a[i];
        let nv = (v << c) | out;
        let nout = v >> (64 - c);
        proof {
            lemma_shl_limb(v, out, c);
            lemma_value_take_step(a@, i as int);
            lemma_carry_step(
                value_of(r@.take(i as int)),
                value_of(a@.take(i as int)) * pow2(cnt as nat),
                nv as nat,
                v as nat * pow2(cnt as nat),
                0,
                out as nat,
                nout as nat,
                i as nat,
            );
            lemma_scaled_prefix_step(
                1,
                value_of(a@.take(i as int)) as int,
                v as int,
                limb_weight(i as nat) as int,
                pow2(cnt as nat) as int,
            );
        }
        let ghost r0 = r@;
        r[i] = nv;
        proof {
            lemma_value_take_step(r@, i as int);
            assert(r@.take(i as int) =~= r0.take(i as int));
        }
        out = nout;
    }
    proof {
        lemma_value_take_all(r@);
        lemma_value_take_all(a@);
    }
    out
}

/// One limb of a right shift.
proof fn lemma_shr_limb(v: u64, w: u64, cnt: u64)
    requires
        0 < cnt < 64,
    ensures
        ((v >> cnt) | (w << (64 - cnt) as u64)) == (v >> cnt) + (w << (64 - cnt) as u64),
        (v >> cnt) as nat * limb_base() + (v << (64 - cnt) as u64) as nat == v as nat * pow2(
            (64 - cnt) as nat,
        ),
{
    let k = (64 - cnt) as u64;
    assert(((v >> cnt) | (w << k)) == (v >> cnt) + (w << k)) by (bit_vector)
        requires
            0 < cnt < 64,
            k == 64 - cnt,
    ;
    // v = hi·2^cnt + lo with lo < 2^cnt; v << k = lo·2^k.
    let hi = v >> cnt;
    lemma_u64_pow2_facts(cnt as nat);
    lemma_u64_pow2_facts(k as nat);
    lemma_u64_shl_is_mul(1u64, cnt);
    lemma_u64_shl_is_mul(1u64, k);
    let mask: u64 = ((1u64 << cnt) - 1) as u64;
    let lo: u64 = v & mask;
    lemma_u64_low_bits_mask_is_mod(v, cnt as nat);
    assert(v << k == lo << k) by (bit_vector)
        requires
            0 < cnt < 64,
            k == 64 - cnt,
            mask == ((1u64 << cnt) - 1) as u64,
            lo == v & mask,
    ;
    lemma_u64_shr_is_div(v, cnt);
    lemma_pow2_adds(cnt as nat, k as nat);
    lemma_pow2_64();
    let pk = pow2(k as nat) as int;
    let pc = pow2(cnt as nat) as int;
    lemma_fundamental_div_mod(v as int, pc);
    lemma_mod_bound(v as int, pc);
    assert(lo as int == v as int % pc);
    assert(lo as int * pk < pc * pk) by (nonlinear_arith)
        requires
            0 <= (lo as int) < pc,
            pk > 0,
    ;
    lemma_u64_shl_is_mul(lo, k);
    assert(v as int * pk == lo as int * pk + hi as int * (pc * pk)) by (nonlinear_arith)
        requires
            v as int == pc * (hi as int) + lo as int,
    ;
}

/// Right shift by `cnt` bits (0 < cnt < 64): r = a >> cnt.
/// Returns the bits shifted out of the bottom, in the high bits of the limb.
pub fn rshift(r: &mut [Limb], a: &[Limb], cnt: u32) -> (out: Limb)
    requires
        0 < cnt < 64,
        old(r)@.len() == a@.len(),
    ensures
        final(r)@.len() == a@.len(),
        value_of(final(r)@) * limb_base() + out as nat == value_of(a@) * pow2((64 - cnt) as nat),
{
    let n = a.len();
    let mut out: Limb = 0;
    let c = cnt as u64;
    let mut i = n;
    let ghost mut prev: u64 = 0;
    proof {
        assert(a@.skip(n as int) =~= Seq::<u64>::empty());
        assert(r@.skip(n as int) =~= Seq::<u64>::empty());
        lemma_mul_basics(pow2((64 - cnt) as nat) as int);
        lemma_mul_basics(limb_base() as int);
        assert((0u64 << (64 - c) as u64) == 0u64) by (bit_vector);
    }
    while i > 0
        invariant
            n == a@.len(),
            r@.len() == n,
            i <= n,
            c == cnt,
            0 < cnt < 64,
            out == prev << (64 - c) as u64,
            value_of(r@.skip(i as int)) * limb_base() + out as nat == value_of(a@.skip(i as int))
                * pow2((64 - cnt) as nat),
        decreases i,
    {
        i -= 1;
        let v = a[i];
        let nv = (v >> c) | out;
        let nout = v << (64 - c);
        proof {
            lemma_shr_limb(v, prev, c);
        }
        let ghost r0 = r@;
        r[i] = nv;
        proof {
            assert(r@.skip(i as int + 1) =~= r0.skip(i as int + 1));
            lemma_value_split(r@.skip(i as int), 1);
            lemma_value_split(a@.skip(i as int), 1);
            assert(r@.skip(i as int).skip(1) =~= r@.skip(i as int + 1));
            assert(a@.skip(i as int).skip(1) =~= a@.skip(i as int + 1));
            assert(r@.skip(i as int).take(1) =~= seq![nv]);
            assert(a@.skip(i as int).take(1) =~= seq![v]);
            lemma_value_single(nv);
            lemma_value_single(v);
            lemma_weight_succ(0);
            let b = limb_base() as int;
            let p = pow2((64 - cnt) as nat) as int;
            let rs = value_of(r0.skip(i as int + 1)) as int;
            let as_ = value_of(a@.skip(i as int + 1)) as int;
            let hi = (v >> c) as int;
            let o = out as int;
            let no = nout as int;
            assert((hi + o + b * rs) * b + no == (v as int + b * as_) * p) by (nonlinear_arith)
                requires
                    rs * b + o == as_ * p,
                    hi * b + no == v as int * p,
            ;
            prev = v;
        }
        out = nout;
    }
    proof {
        assert(r@.skip(0) =~= r@);
        assert(a@.skip(0) =~= a@);
    }
    out
}

/// q = a / d, returns a % d. Single-limb divisor.
pub fn divrem_1(q: &mut [Limb], a: &[Limb], d: Limb) -> (rem: Limb)
    requires
        d != 0,
        old(q)@.len() == a@.len(),
    ensures
        final(q)@.len() == a@.len(),
        rem < d,
        value_of(final(q)@) * d as nat + rem as nat == value_of(a@),
{
    let n = a.len();
    let mut rem: u128 = 0;
    let mut i = n;
    proof {
        assert(a@.skip(n as int) =~= Seq::<u64>::empty());
        assert(q@.skip(n as int) =~= Seq::<u64>::empty());
        lemma_mul_basics(d as int);
    }
    while i > 0
        invariant
            n == a@.len(),
            q@.len() == n,
            i <= n,
            d != 0,
            rem < d as u128,
            value_of(q@.skip(i as int)) * d as nat + rem as nat == value_of(a@.skip(i as int)),
        decreases i,
    {
        i -= 1;
        let cur: u128 = (rem << 64u128) | (a[i] as u128);
        proof {
            let ai = a@[i as int];
            assert(cur == rem * 0x1_0000_0000_0000_0000u128 + ai as u128) by (bit_vector)
                requires
                    cur == (rem << 64u128) | (ai as u128),
                    rem < 0x1_0000_0000_0000_0000u128,
            ;
        }
        let qd = cur / (d as u128);
        let nr = cur % (d as u128);
        proof {
            let b = limb_base() as int;
            assert(qd < 0x1_0000_0000_0000_0000u128) by (nonlinear_arith)
                requires
                    qd as int == cur as int / d as int,
                    cur as int == rem as int * b + a@[i as int] as int,
                    rem as int + 1 <= d as int,
                    (a@[i as int] as int) < b,
                    b == 0x1_0000_0000_0000_0000int,
                    d as int > 0,
            {
                assert((cur as int) < d as int * b) by (nonlinear_arith)
                    requires
                        cur as int == rem as int * b + a@[i as int] as int,
                        rem as int + 1 <= d as int,
                        (a@[i as int] as int) < b,
                ;
                lemma_div_strictly_bounded(cur as int, d as int, b);
            }
        }
        let ghost q0 = q@;
        q[i] = qd as Limb;
        proof {
            assert(q@.skip(i as int + 1) =~= q0.skip(i as int + 1));
            lemma_value_split(q@.skip(i as int), 1);
            lemma_value_split(a@.skip(i as int), 1);
            assert(q@.skip(i as int).skip(1) =~= q@.skip(i as int + 1));
            assert(a@.skip(i as int).skip(1) =~= a@.skip(i as int + 1));
            assert(q@.skip(i as int).take(1) =~= seq![qd as u64]);
            assert(a@.skip(i as int).take(1) =~= seq![a@[i as int]]);
            lemma_value_single(qd as u64);
            lemma_value_single(a@[i as int]);
            lemma_weight_succ(0);
            lemma_fundamental_div_mod(cur as int, d as int);
            let b = limb_base() as int;
            let qs = value_of(q0.skip(i as int + 1)) as int;
            let as_ = value_of(a@.skip(i as int + 1)) as int;
            assert((qd as int + b * qs) * d as int + nr as int == a@[i as int] as int + b * as_)
                by (nonlinear_arith)
                requires
                    qs * d as int + rem as int == as_,
                    cur as int == rem as int * b + a@[i as int] as int,
                    cur as int == d as int * qd as int + nr as int,
            ;
        }
        rem = nr;
    }
    proof {
        assert(q@.skip(0) =~= q@);
        assert(a@.skip(0) =~= a@);
    }
    rem as Limb
}

/// Strict bound on a quotient.
pub proof fn lemma_div_strictly_bounded(x: int, a: int, b: int)
    requires
        a > 0,
        0 <= x < a * b,
    ensures
        x / a < b,
{
    lemma_fundamental_div_mod(x, a);
    lemma_mod_bound(x, a);
    assert(x / a < b) by (nonlinear_arith)
        requires
            x == a * (x / a) + x % a,
            0 <= x % a,
            x < a * b,
            a > 0,
    ;
}

/// Bounds of a nonzero limb from its leading-zero count.
pub proof fn lemma_leading_zeros(x: u64)
    ensures
        x == 0 ==> u64_leading_zeros(x) == 64,
        x > 0 ==> 0 <= u64_leading_zeros(x) <= 63,
        x > 0 ==> pow2((63 - u64_leading_zeros(x)) as nat) <= x,
        x > 0 ==> (x as nat) < pow2((64 - u64_leading_zeros(x)) as nat),
    decreases x,
{
    reveal(u64_leading_zeros);
    if x == 0 {
    } else if x == 1 {
        assert(u64_leading_zeros(1) == u64_leading_zeros(0) - 1);
        lemma2_to64();
    } else {
        let h = (x / 2) as u64;
        lemma_leading_zeros(h);
        assert(u64_leading_zeros(x) == u64_leading_zeros(h) - 1);
        let k = (63 - u64_leading_zeros(h)) as nat;
        lemma_pow2_unfold(k + 1);
        lemma_pow2_unfold(k + 2);
    }
}

/// Total bit length of a limb vector: `value < 2^r` and, unless zero,
/// `2^(r-1) <= value`.
pub fn bit_len(a: &[Limb]) -> (r: u64)
    requires
        a@.len() <= 0x100_0000_0000_0000,
    ensures
        (value_of(a@) as nat) < pow2(r as nat),
        value_of(a@) == 0 <==> r == 0,
        r > 0 ==> pow2((r - 1) as nat) <= value_of(a@),
{
    let n = normalized_len(a);
    if n == 0 {
        proof {
            lemma_pow2_pos(0);
            lemma_value_all_zero(a@);
        }
        0
    } else {
        let top = a[n - 1];
        let lz = top.leading_zeros();
        proof {
            lemma_leading_zeros(top);
            let t = a@.take(n as int);
            let m = (n - 1) as nat;
            assert(t.last() == top);
            assert(t.drop_last() =~= a@.take(m as int));
            lemma_value_bound(a@.take(m as int));
            let low = value_of(a@.take(m as int));
            let w = limb_weight(m);
            let k = (64 - lz) as nat;
            // value = low + top·2^(64 m), low < 2^(64 m)
            lemma_pow2_adds(64 * m, k);
            lemma_pow2_adds(64 * m, (k - 1) as nat);
            let pk = pow2(k);
            let pk1 = pow2((k - 1) as nat);
            assert(value_of(t) == low + (top as nat) * w);
            assert(low + top as nat * w < w * pk) by (nonlinear_arith)
                requires
                    low < w,
                    (top as nat) < pk,
                    pk1 <= top as nat,
            ;
            assert(w * pk1 <= low + top as nat * w) by (nonlinear_arith)
                requires
                    pk1 <= top as nat,
            ;
            lemma_pow2_pos((k - 1) as nat);
            lemma_weight_pos(m);
            assert(w * pk1 > 0) by (nonlinear_arith)
                requires
                    w > 0,
                    pk1 > 0,
            ;
            assert(64 * m + k == (n as u64 * 64 - lz as u64) as nat);
            assert(64 * m + (k - 1) as nat == (n as u64 * 64 - lz as u64 - 1) as nat);
        }
        n as u64 * 64 - lz as u64
    }
}

/// A vector of `n` zero limbs.
pub(crate) fn zeros(n: usize) -> (v: Vec<Limb>)
    ensures
        v@.len() == n,
        forall|i: int| 0 <= i < n ==> v@[i] == 0,
        value_of(v@) == 0,
{
    let mut v: Vec<Limb> = Vec::with_capacity(n);
    let mut i: usize = 0;
    while i < n
        invariant
            i <= n,
            v@.len() == i,
            forall|k: int| 0 <= k < i ==> v@[k] == 0,
        decreases n - i,
    {
        v.push(0);
        i = i + 1;
    }
    proof {
        lemma_value_all_zero(v@);
    }
    v
}

/// Overwrite every limb of `r` with zero.
fn fill_zero(r: &mut [Limb])
    ensures
        final(r)@.len() == old(r)@.len(),
        forall|i: int| 0 <= i < final(r)@.len() ==> final(r)@[i] == 0,
        value_of(final(r)@) == 0,
{
    let n = r.len();
    let mut i: usize = 0;
    while i < n
        invariant
            i <= n,
            r@.len() == n,
            forall|k: int| 0 <= k < i ==> r@[k] == 0,
        decreases n - i,
    {
        r[i] = 0;
        i = i + 1;
    }
    proof {
        lemma_value_all_zero(r@);
    }
}

/// Schoolbook multiplication: r = a * b, r.len() == a.len() + b.len().
pub fn mul_basecase(r: &mut [Limb], a: &[Limb], b: &[Limb])
    requires
        old(r)@.len() == a@.len() + b@.len(),
    ensures
        final(r)@.len() == old(r)@.len(),
        value_of(final(r)@) == value_of(a@) * value_of(b@),
{
    let n = a.len();
    let m = b.len();
    let rl = r.len();
    fill_zero(r);
    if n == 0 || m == 0 {
        proof {
            if n == 0 {
                assert(a@ =~= Seq::<u64>::empty());
                lemma_mul_basics(value_of(b@) as int);
            } else {
                assert(b@ =~= Seq::<u64>::empty());
                lemma_mul_basics(value_of(a@) as int);
            }
        }
        return;
    }
    proof {
        assert(b@.take(0) =~= Seq::<u64>::empty());
        lemma_mul_basics(value_of(a@) as int);
    }
    for j in 0..m
        invariant
            n == a@.len(),
            m == b@.len(),
            r@.len() == n + m,
            rl == n + m,
            forall|k: int| j + n <= k < n + m ==> r@[k] == 0,
            value_of(r@) == value_of(a@) * value_of(b@.take(j as int)),
    {
        let ghost r0 = r@;
        let c = addmul_at(r, j, a, b[j]);
        proof {
            assert(r@[(j + n) as int] == 0);
            lemma_value_update(r@, (j + n) as int, c);
        }
        r[j + n] = c;
        proof {
            lemma_value_take_step(b@, j as int);
            let va = value_of(a@) as int;
            let vb = value_of(b@.take(j as int)) as int;
            let bj = b@[j as int] as int;
            let wj = limb_weight(j as nat) as int;
            assert(va * vb + wj * va * bj == va * (vb + bj * wj)) by (nonlinear_arith);
        }
    }
    proof {
        lemma_value_take_all(b@);
    }
}

/// Full product r = a * b with r.len() == a.len() + b.len().
/// Uses Karatsuba above [`KARATSUBA_THRESHOLD`].
pub fn mul(r: &mut [Limb], a: &[Limb], b: &[Limb])
    requires
        old(r)@.len() == a@.len() + b@.len(),
    ensures
        final(r)@.len() == old(r)@.len(),
        value_of(final(r)@) == value_of(a@) * value_of(b@),
    decreases a@.len() + b@.len(), 2int,
{
    if a.len() >= b.len() {
        mul_ordered(r, a, b);
    } else {
        mul_ordered(r, b, a);
        proof {
            lemma_mul_is_commutative(value_of(a@) as int, value_of(b@) as int);
        }
    }
}

/// [`mul`] with the longer operand first.
fn mul_ordered(r: &mut [Limb], a: &[Limb], b: &[Limb])
    requires
        old(r)@.len() == a@.len() + b@.len(),
        a@.len() >= b@.len(),
    ensures
        final(r)@.len() == old(r)@.len(),
        value_of(final(r)@) == value_of(a@) * value_of(b@),
    decreases a@.len() + b@.len(), 1int,
{
    let _rl = r.len();
    if b.len() < KARATSUBA_THRESHOLD {
        mul_basecase(r, a, b);
    } else if b.len() * 2 <= a.len() {
        // Unbalanced: chop `a` into b.len()-sized chunks.
        mul_unbalanced(r, a, b);
    } else {
        mul_karatsuba(r, a, b);
    }
}

/// Products of bounded naturals are bounded by the product of the bounds.
pub proof fn lemma_mul_lt_bounds(x: int, xb: int, y: int, yb: int)
    by (nonlinear_arith)
    requires
        0 <= x < xb,
        0 <= y < yb,
    ensures
        x * y < xb * yb,
{
}

/// The Karatsuba recombination identity.
proof fn lemma_karatsuba_identity(a0: int, a1: int, b0: int, b1: int, w: int)
    ensures
        (a0 + w * a1) * (b0 + w * b1) == a0 * b0 + w * (a0 * b1 + a1 * b0) + (w * w) * (a1 * b1),
{
    let x = a0 + w * a1;
    lemma_mul_is_distributive_add(x, b0, w * b1);
    lemma_mul_is_distributive_add_other_way(b0, a0, w * a1);
    lemma_mul_is_distributive_add_other_way(w * b1, a0, w * a1);
    assert((w * a1) * b0 == w * (a1 * b0)) by {
        lemma_mul_is_associative(w, a1, b0);
    }
    assert(a0 * (w * b1) == w * (a0 * b1)) by {
        lemma_mul_is_associative(a0, w, b1);
        lemma_mul_is_commutative(a0, w);
        lemma_mul_is_associative(w, a0, b1);
    }
    assert((w * a1) * (w * b1) == (w * w) * (a1 * b1)) by {
        lemma_mul_is_associative(w * a1, w, b1);
        lemma_mul_is_associative(w, a1, w);
        lemma_mul_is_commutative(a1, w);
        lemma_mul_is_associative(w, w, a1);
        lemma_mul_is_associative(w * w, a1, b1);
    }
    lemma_mul_is_commutative(b0, a0);
    lemma_mul_is_commutative(b0, w * a1);
    lemma_mul_is_commutative(w * b1, a0);
    lemma_mul_is_commutative(w * b1, w * a1);
    lemma_mul_is_distributive_add(w, a0 * b1, a1 * b0);
}

/// Normalized sequences: a smaller-or-equal value has no more limbs.
proof fn lemma_normalized_len_le(a: Seq<u64>, b: Seq<u64>)
    requires
        is_normalized(a),
        value_of(a) <= value_of(b),
    ensures
        a.len() <= b.len(),
{
    if a.len() > b.len() {
        lemma_value_len_lt(b, a);
    }
}

/// Order of weights: a value below `W(j)` that reaches `W(i)` has `i < j`.
proof fn lemma_weight_lt_inv(i: nat, j: nat, v: nat)
    requires
        limb_weight(i) <= v < limb_weight(j),
    ensures
        i < j,
{
    if i >= j {
        lemma_weight_mono(j, i);
    }
}

/// Handle a.len() much larger than b.len() by chunking `a`.
fn mul_unbalanced(r: &mut [Limb], a: &[Limb], b: &[Limb])
    requires
        old(r)@.len() == a@.len() + b@.len(),
        b@.len() >= 1,
        b@.len() * 2 <= a@.len(),
    ensures
        final(r)@.len() == old(r)@.len(),
        value_of(final(r)@) == value_of(a@) * value_of(b@),
    decreases a@.len() + b@.len(), 0int,
{
    let n = b.len();
    let la = a.len();
    fill_zero(r);
    let mut i: usize = 0;
    proof {
        assert(a@.take(0) =~= Seq::<u64>::empty());
        lemma_mul_basics(value_of(b@) as int);
    }
    while i < la
        invariant
            n == b@.len(),
            la == a@.len(),
            n >= 1,
            n * 2 <= la,
            i <= la,
            r@.len() == la + n,
            value_of(r@) == value_of(a@.take(i as int)) * value_of(b@),
        decreases la - i,
    {
        let chunk = if n < la - i { n } else { la - i };
        let mut t = zeros(chunk + n);
        let piece = &a[i..i + chunk];
        self::mul(&mut t, piece, b);
        let ghost r0 = r@;
        let carry = add_in_place_at(r, i, &t);
        proof {
            // a[..i+chunk] = a[..i] + W(i)·piece
            let pre = a@.take((i + chunk) as int);
            lemma_value_split(pre, i as int);
            assert(pre.take(i as int) =~= a@.take(i as int));
            assert(pre.skip(i as int) =~= piece@);
            let va = value_of(a@.take(i as int)) as int;
            let vp = value_of(piece@) as int;
            let vb = value_of(b@) as int;
            let wi = limb_weight(i as nat) as int;
            assert((va + wi * vp) * vb == va * vb + wi * (vp * vb)) by (nonlinear_arith);
            // the exact product fits, so no carry escapes
            lemma_value_bound(pre);
            lemma_value_bound(b@);
            lemma_weight_add((i + chunk) as nat, n as nat);
            lemma_weight_mono((i + chunk + n) as nat, (la + n) as nat);
            lemma_mul_lt_bounds(
                value_of(pre) as int,
                limb_weight((i + chunk) as nat) as int,
                vb,
                limb_weight(n as nat) as int,
            );
            lemma_value_bound(r@);
            if carry != 0 {
                assert(false);
            }
            lemma_mul_basics(limb_weight((la + n) as nat) as int);
        }
        i = i + chunk;
    }
    proof {
        lemma_value_take_all(a@);
    }
}

/// Karatsuba: split at n = ceil(a.len()/2) >= b.len()/2.
#[verifier::rlimit(60)]
fn mul_karatsuba(r: &mut [Limb], a: &[Limb], b: &[Limb])
    requires
        old(r)@.len() == a@.len() + b@.len(),
        a@.len() >= b@.len(),
        b@.len() >= KARATSUBA_THRESHOLD,
        b@.len() * 2 > a@.len(),
    ensures
        final(r)@.len() == old(r)@.len(),
        value_of(final(r)@) == value_of(a@) * value_of(b@),
    decreases a@.len() + b@.len(), 0int,
{
    let la = a.len();
    let lb = b.len();
    let rl = r.len();
    let n = (la + 1) / 2;
    let a0 = &a[0..n];
    let a1 = &a[n..la];
    let b0 = &b[0..n];
    let b1 = &b[n..lb];
    let a0n = normalized_len(a0);
    let b0n = normalized_len(b0);
    let a0t = &a0[0..a0n];
    let b0t = &b0[0..b0n];

    // z0 = a0*b0, z2 = a1*b1
    let mut z0 = zeros(a0n + b0n);
    self::mul(&mut z0, a0t, b0t);
    let mut z2 = zeros((la - n) + (lb - n));
    if la > n && lb > n {
        self::mul(&mut z2, a1, b1);
    }
    proof {
        if !(la > n && lb > n) {
            if lb == n {
                assert(b1@ =~= Seq::<u64>::empty());
                lemma_mul_basics(value_of(a1@) as int);
            } else {
                assert(a1@ =~= Seq::<u64>::empty());
                lemma_mul_basics(value_of(b1@) as int);
            }
        }
    }

    // s_a = a0 + a1, s_b = b0 + b1 (may carry one extra limb each)
    let mut sa = zeros(n + 1);
    let mut lo_a = zeros(n);
    let ca = self::add(&mut lo_a, a0, a1);
    let mut k: usize = 0;
    while k < n
        invariant
            k <= n,
            sa@.len() == n + 1,
            lo_a@.len() == n,
            forall|j: int| 0 <= j < k ==> sa@[j] == lo_a@[j],
            sa@[n as int] == 0,
        decreases n - k,
    {
        sa[k] = lo_a[k];
        k = k + 1;
    }
    sa[n] = ca;
    proof {
        assert(sa@.drop_last() =~= lo_a@);
        assert(sa@.last() == ca);
    }
    let san = normalized_len(&sa);
    let mut sb = zeros(n + 1);
    let mut lo_b = zeros(n);
    let cb = self::add(&mut lo_b, b0, b1);
    let mut k: usize = 0;
    while k < n
        invariant
            k <= n,
            sb@.len() == n + 1,
            lo_b@.len() == n,
            forall|j: int| 0 <= j < k ==> sb@[j] == lo_b@[j],
            sb@[n as int] == 0,
        decreases n - k,
    {
        sb[k] = lo_b[k];
        k = k + 1;
    }
    sb[n] = cb;
    proof {
        assert(sb@.drop_last() =~= lo_b@);
        assert(sb@.last() == cb);
    }
    let sbn = normalized_len(&sb);

    // z1 = s_a * s_b - z0 - z2
    let mut z1 = zeros(san + sbn);
    let sat = &sa[0..san];
    let sbt = &sb[0..sbn];
    proof {
        lemma_normalized_len_le(a0t@, sat@);
        lemma_normalized_len_le(b0t@, sbt@);
    }
    self::mul(&mut z1, sat, sbt);
    let ghost va0 = value_of(a0@);
    let ghost va1 = value_of(a1@);
    let ghost vb0 = value_of(b0@);
    let ghost vb1 = value_of(b1@);
    proof {
        assert(value_of(sat@) == va0 + va1);
        assert(value_of(sbt@) == vb0 + vb1);
        assert(value_of(z0@) == va0 * vb0);
        assert(value_of(z2@) == va1 * vb1);
        assert((va0 + va1) * (vb0 + vb1) == va0 * vb0 + va1 * vb1 + (va0 * vb1 + va1 * vb0))
            by (nonlinear_arith);
        assert(va0 * vb1 + va1 * vb0 >= 0) by (nonlinear_arith);
    }
    let bw1 = sub_in_place(&mut z1, &z0);
    let z2n = normalized_len(&z2);
    let z2t = &z2[0..z2n];
    proof {
        lemma_value_bound(z1@);
        if z2n > 0 {
            lemma_value_lower(z2t@);
            lemma_weight_lt_inv((z2n - 1) as nat, z1@.len(), value_of(z2t@));
        }
    }
    let bw2 = sub_in_place(&mut z1, z2t);
    proof {
        assert(bw1 == 0);
        assert(bw2 == 0);
        lemma_mul_basics(limb_weight(z1@.len()) as int);
        assert(value_of(z1@) == va0 * vb1 + va1 * vb0);
    }

    // r = z0 + z1 << (64 n) + z2 << (128 n)
    fill_zero(r);
    let z0l = z0.len();
    let mut k: usize = 0;
    while k < z0l
        invariant
            k <= z0l,
            z0l == z0@.len(),
            z0l <= 2 * n,
            r@.len() == la + lb,
            2 * n + z2@.len() == la + lb,
            forall|j: int| 0 <= j < k ==> r@[j] == z0@[j],
            forall|j: int| k <= j < la + lb ==> r@[j] == 0,
        decreases z0l - k,
    {
        r[k] = z0[k];
        k = k + 1;
    }
    let z2l = z2.len();
    let mut k: usize = 0;
    while k < z2l
        invariant
            k <= z2l,
            z2l == z2@.len(),
            z0l <= 2 * n,
            r@.len() == la + lb,
            rl == la + lb,
            2 * n + z2l == la + lb,
            forall|j: int| 0 <= j < z0l ==> r@[j] == z0@[j],
            forall|j: int| z0l <= j < 2 * n ==> r@[j] == 0,
            forall|j: int| 0 <= j < k ==> r@[2 * n + j] == z2@[j],
            forall|j: int| 2 * n + k <= j < la + lb ==> r@[j] == 0,
        decreases z2l - k,
    {
        r[2 * n + k] = z2[k];
        k = k + 1;
    }
    proof {
        // value(r) = z0 + W(2n)·z2
        let low = r@.take(2 * n as int);
        assert(r@.skip(2 * n as int) =~= z2@);
        lemma_value_split(r@, 2 * n as int);
        lemma_value_zeros_above(low, z0l as int);
        assert(low.take(z0l as int) =~= z0@);
    }
    let z1n = normalized_len(&z1);
    let z1t = &z1[0..z1n];
    proof {
        // z1 fits in the upper part of r
        lemma_value_bound(a0@);
        lemma_value_bound(a1@);
        lemma_value_bound(b0@);
        lemma_value_bound(b1@);
        lemma_weight_add(n as nat, (la - n) as nat);
        lemma_weight_add(n as nat, (lb - n) as nat);
        let top = (la + lb - n) as nat;
        if z1n > 0 {
            lemma_value_lower(z1t@);
            if lb == n {
                assert(b1@ =~= Seq::<u64>::empty());
                lemma_mul_basics(va0 as int);
                lemma_mul_lt_bounds(
                    va1 as int,
                    limb_weight((la - n) as nat) as int,
                    vb0 as int,
                    limb_weight(n as nat) as int,
                );
                lemma_mul_is_commutative(limb_weight((la - n) as nat) as int, limb_weight(n as nat) as int);
            } else {
                lemma_mul_lt_bounds(
                    va0 as int,
                    limb_weight(n as nat) as int,
                    vb1 as int,
                    limb_weight((lb - n) as nat) as int,
                );
                lemma_mul_lt_bounds(
                    va1 as int,
                    limb_weight((la - n) as nat) as int,
                    vb0 as int,
                    limb_weight(n as nat) as int,
                );
                lemma_mul_is_commutative(limb_weight((la - n) as nat) as int, limb_weight(n as nat) as int);
                lemma_weight_mono(lb as nat, la as nat);
                lemma_weight_succ(la as nat);
                lemma_weight_mono((la + 1) as nat, top);
            }
            lemma_weight_lt_inv((z1n - 1) as nat, top, value_of(z1@));
        }
    }
    let ghost r1 = r@;
    let carry = add_in_place_at(r, n, z1t);
    proof {
        let vr = va0 * vb0 + limb_weight((2 * n) as nat) * (va1 * vb1);
        assert(value_of(r1) == vr);
        lemma_weight_add(n as nat, n as nat);
        // value(a) = a0 + W(n) a1, value(b) = b0 + W(n) b1
        lemma_value_split(a@, n as int);
        lemma_value_split(b@, n as int);
        assert(a@.take(n as int) =~= a0@);
        assert(a@.skip(n as int) =~= a1@);
        assert(b@.take(n as int) =~= b0@);
        assert(b@.skip(n as int) =~= b1@);
        let wn = limb_weight(n as nat) as int;
        lemma_karatsuba_identity(va0 as int, va1 as int, vb0 as int, vb1 as int, wn);
        lemma_value_bound(a@);
        lemma_value_bound(b@);
        lemma_weight_add(la as nat, lb as nat);
        lemma_mul_lt_bounds(
            value_of(a@) as int,
            limb_weight(la as nat) as int,
            value_of(b@) as int,
            limb_weight(lb as nat) as int,
        );
        lemma_value_bound(r@);
        if carry != 0 {
            assert(false);
        }
        lemma_mul_basics(limb_weight((la + lb) as nat) as int);
    }
}

/// Squaring convenience: r = a^2.
pub fn sqr(r: &mut [Limb], a: &[Limb])
    requires
        old(r)@.len() == 2 * a@.len(),
    ensures
        final(r)@.len() == old(r)@.len(),
        value_of(final(r)@) == value_of(a@) * value_of(a@),
{
    self::mul(r, a, a);
}

/// `r[off .. off + b.len()] += b` without carrying past that range.
fn add_n_at(r: &mut [Limb], off: usize, b: &[Limb]) -> (carry: Limb)
    requires
        off + b@.len() <= old(r)@.len(),
    ensures
        final(r)@.len() == old(r)@.len(),
        carry <= 1,
        forall|k: int|
            0 <= k < old(r)@.len() && !(off <= k < off + b@.len()) ==> final(r)@[k] == old(r)@[k],
        value_of(final(r)@) + carry as nat * limb_weight((off + b@.len()) as nat) == value_of(
            old(r)@,
        ) + limb_weight(off as nat) * value_of(b@),
{
    let ghost r0 = r@;
    let rlen = r.len();
    let bl = b.len();
    let mut carry: Limb = 0;
    proof {
        lemma_weight_succ(0);
        lemma_weight_add(off as nat, 0);
        assert(b@.take(0) =~= Seq::<u64>::empty());
        lemma_mul_basics(limb_weight(off as nat) as int);
    }
    for i in 0..bl
        invariant
            rlen == r0.len(),
            r@.len() == r0.len(),
            bl == b@.len(),
            off + bl <= rlen,
            carry <= 1,
            forall|k: int| 0 <= k < r0.len() && !(off <= k < off + i) ==> r@[k] == r0[k],
            value_of(r@) as int + carry as int * limb_weight((off + i) as nat) == value_of(r0) as int
                + limb_weight(off as nat) as int * value_of(b@.take(i as int)) as int,
    {
        let j = off + i;
        let o = r[j];
        let (sm, c) = adc(o, b[i], carry);
        proof {
            lemma_value_update(r@, j as int, sm);
            lemma_update_carry(
                value_of(r@) as int,
                value_of(r0) as int + limb_weight(off as nat) as int * value_of(b@.take(i as int)) as int,
                o as int,
                sm as int,
                b@[i as int] as int,
                carry as int,
                c as int,
                j as nat,
            );
            lemma_value_take_step(b@, i as int);
            lemma_weight_add(off as nat, i as nat);
            let wo = limb_weight(off as nat) as int;
            let vb = value_of(b@.take(i as int)) as int;
            let bi = b@[i as int] as int;
            let wi = limb_weight(i as nat) as int;
            assert(wo * (vb + bi * wi) == wo * vb + bi * (wo * wi)) by (nonlinear_arith);
        }
        r[j] = sm;
        carry = c;
    }
    proof {
        lemma_value_take_all(b@);
    }
    carry
}

/// The value of a segment of a sequence.
pub open spec fn segment(s: Seq<u64>, lo: int, len: int) -> nat {
    value_of(s.subrange(lo, lo + len))
}

/// A sequence that is zero from `j + len` upward is its low part plus its
/// weighted segment `[j, j + len)`.
proof fn lemma_value_window(s: Seq<u64>, j: int, len: int)
    requires
        0 <= j,
        0 <= len,
        j + len <= s.len(),
        forall|k: int| j + len <= k < s.len() ==> s[k] == 0,
    ensures
        value_of(s) == value_of(s.take(j)) + limb_weight(j as nat) * segment(s, j, len),
{
    lemma_value_zeros_above(s, j + len);
    let t = s.take(j + len);
    lemma_value_split(t, j);
    assert(t.take(j) =~= s.take(j));
    assert(t.skip(j) =~= s.subrange(j, j + len));
}

/// The top three limbs of a sequence of length `k + 3` over the rest.
proof fn lemma_value_top3(s: Seq<u64>, k: int)
    requires
        k >= 0,
        s.len() == k + 3,
    ensures
        value_of(s) == value_of(s.take(k)) + limb_weight(k as nat) * (((s[k + 2] as nat)
            * limb_base() + s[k + 1] as nat) * limb_base() + s[k] as nat),
{
    lemma_value_split(s, k);
    let h = s.skip(k);
    assert(h =~= seq![s[k], s[k + 1], s[k + 2]]);
    assert(h.drop_last() =~= seq![s[k], s[k + 1]]);
    lemma_value_pair(s[k], s[k + 1]);
    lemma_weight_succ(1);
    lemma_weight_succ(0);
    let b = limb_base();
    assert((s[k + 2] as nat) * (b * b) == ((s[k + 2] as nat) * b) * b) by (nonlinear_arith);
    assert(((s[k + 2] as nat) * b + s[k + 1] as nat) * b == (s[k + 2] as nat) * b * b + (s[k + 1]
        as nat) * b) by (nonlinear_arith);
}

/// The top two limbs of a sequence of length `k + 2` over the rest.
proof fn lemma_value_top2(s: Seq<u64>, k: int)
    requires
        k >= 0,
        s.len() == k + 2,
    ensures
        value_of(s) == value_of(s.take(k)) + limb_weight(k as nat) * ((s[k + 1] as nat)
            * limb_base() + s[k] as nat),
{
    lemma_value_split(s, k);
    assert(s.skip(k) =~= seq![s[k], s[k + 1]]);
    lemma_value_pair(s[k], s[k + 1]);
}

/// A refinement step of Knuth's estimate only fires when the estimate is
/// too large: `qhat·V > U`.
proof fn lemma_qhat_refine(
    u0: int,
    u1: int,
    u2: int,
    ulow: int,
    v1: int,
    v2: int,
    vlow: int,
    p: int,
    qhat: int,
    rhat: int,
)
    requires
        p > 0,
        0 <= ulow < p,
        0 <= vlow < p,
        0 <= u2,
        0 <= v2,
        0 <= rhat < limb_base(),
        qhat >= 0,
        qhat * v1 + rhat == u0 * limb_base() + u1,
        qhat * v2 > rhat * limb_base() + u2,
    ensures
        qhat * (p * (v1 * limb_base() + v2) + vlow) > p * ((u0 * limb_base() + u1) * limb_base()
            + u2) + ulow,
{
    let b = limb_base() as int;
    assert(qhat * (v1 * b + v2) >= (u0 * b + u1) * b + u2 + 1) by (nonlinear_arith)
        requires
            qhat * v1 + rhat == u0 * b + u1,
            qhat * v2 > rhat * b + u2,
    ;
    assert(p * (qhat * (v1 * b + v2)) >= p * ((u0 * b + u1) * b + u2) + p) by (nonlinear_arith)
        requires
            qhat * (v1 * b + v2) >= (u0 * b + u1) * b + u2 + 1,
            p > 0,
    ;
    assert(qhat * vlow >= 0) by (nonlinear_arith)
        requires
            qhat >= 0,
            vlow >= 0,
    ;
    assert(qhat * (p * (v1 * b + v2) + vlow) == p * (qhat * (v1 * b + v2)) + qhat * vlow)
        by (nonlinear_arith);
}

/// When the refinement loop stops, the estimate exceeds the true digit by at
/// most one: `(qhat − 1)·V ≤ U`.
proof fn lemma_qhat_exit(
    u0: int,
    u1: int,
    u2: int,
    ulow: int,
    v1: int,
    v2: int,
    vlow: int,
    p: int,
    qhat: int,
    rhat: int,
)
    requires
        p > 0,
        0 <= ulow < p,
        0 <= vlow < p,
        0 <= u2,
        0 <= v2 < limb_base(),
        2 * v1 >= limb_base(),
        rhat >= 0,
        1 <= qhat < limb_base(),
        qhat * v1 + rhat == u0 * limb_base() + u1,
        rhat >= limb_base() || qhat * v2 <= rhat * limb_base() + u2,
    ensures
        (qhat - 1) * (p * (v1 * limb_base() + v2) + vlow) <= p * ((u0 * limb_base() + u1)
            * limb_base() + u2) + ulow,
{
    let b = limb_base() as int;
    let vv = p * (v1 * b + v2) + vlow;
    assert(qhat * vv == p * (qhat * (v1 * b + v2)) + qhat * vlow) by (nonlinear_arith)
        requires
            vv == p * (v1 * b + v2) + vlow,
    ;
    assert(qhat * vlow <= b * p) by (nonlinear_arith)
        requires
            0 <= vlow < p,
            1 <= qhat < b,
    ;
    assert(vv >= b * p) by (nonlinear_arith)
        requires
            vv == p * (v1 * b + v2) + vlow,
            2 * v1 >= b,
            b >= 2,
            p > 0,
            v2 >= 0,
            vlow >= 0,
    ;
    assert((qhat - 1) * vv == qhat * vv - vv) by (nonlinear_arith);
    if rhat >= b {
        assert(qhat * v2 < b * b) by (nonlinear_arith)
            requires
                0 <= v2 < b,
                1 <= qhat < b,
        ;
        assert(qhat * (v1 * b + v2) == (qhat * v1) * b + qhat * v2) by (nonlinear_arith);
        assert((qhat * v1) * b <= (u0 * b + u1 - b) * b) by (nonlinear_arith)
            requires
                qhat * v1 <= u0 * b + u1 - b,
                b > 0,
        ;
        assert(p * (qhat * (v1 * b + v2)) <= p * ((u0 * b + u1) * b)) by (nonlinear_arith)
            requires
                qhat * (v1 * b + v2) <= (u0 * b + u1) * b,
                p > 0,
        ;
        assert(p * ((u0 * b + u1) * b) <= p * ((u0 * b + u1) * b + u2)) by (nonlinear_arith)
            requires
                u2 >= 0,
                p > 0,
        ;
    } else {
        assert(qhat * (v1 * b + v2) <= (u0 * b + u1) * b + u2) by (nonlinear_arith)
            requires
                qhat * v1 + rhat == u0 * b + u1,
                qhat * v2 <= rhat * b + u2,
        ;
        assert(p * (qhat * (v1 * b + v2)) <= p * ((u0 * b + u1) * b + u2)) by (nonlinear_arith)
            requires
                qhat * (v1 * b + v2) <= (u0 * b + u1) * b + u2,
                p > 0,
        ;
    }
}

/// The first estimate `min(⌊(u0·B + u1)/v1⌋, B − 1)` is never too small:
/// `U < (qhat + 1)·V`.
proof fn lemma_qhat_initial(
    u0: int,
    u1: int,
    u2: int,
    ulow: int,
    v1: int,
    v2: int,
    vlow: int,
    p: int,
    qhat: int,
)
    requires
        p > 0,
        0 <= ulow < p,
        0 <= vlow < p,
        0 <= u2 < limb_base(),
        0 <= u1 < limb_base(),
        0 <= v2,
        v1 > 0,
        qhat >= 0,
        (qhat + 1) * v1 > u0 * limb_base() + u1,
    ensures
        p * ((u0 * limb_base() + u1) * limb_base() + u2) + ulow < (qhat + 1) * (p * (v1
            * limb_base() + v2) + vlow),
{
    let b = limb_base() as int;
    let n2 = u0 * b + u1;
    assert((qhat + 1) * v1 >= n2 + 1);
    assert((qhat + 1) * (v1 * b) >= (n2 + 1) * b) by (nonlinear_arith)
        requires
            (qhat + 1) * v1 >= n2 + 1,
            b > 0,
    ;
    assert(n2 * b + u2 < (n2 + 1) * b) by (nonlinear_arith)
        requires
            u2 < b,
    ;
    assert((qhat + 1) * (v1 * b + v2) >= (qhat + 1) * (v1 * b)) by (nonlinear_arith)
        requires
            qhat >= 0,
            v2 >= 0,
    ;
    assert(p * (n2 * b + u2) + ulow < p * ((qhat + 1) * (v1 * b + v2))) by (nonlinear_arith)
        requires
            n2 * b + u2 + 1 <= (qhat + 1) * (v1 * b + v2),
            0 <= ulow < p,
    ;
    assert((qhat + 1) * vlow >= 0) by (nonlinear_arith)
        requires
            qhat >= 0,
            vlow >= 0,
    ;
    assert((qhat + 1) * (p * (v1 * b + v2) + vlow) == p * ((qhat + 1) * (v1 * b + v2)) + (qhat
        + 1) * vlow) by (nonlinear_arith);
}

/// Knuth's quotient-digit estimate, refined with the second divisor limb.
/// With `U = p·((u0·B + u1)·B + u2) + ulow` and `V = p·(dh·B + dl) + vlow`,
/// the result satisfies `(q − 1)·V ≤ U < (q + 1)·V`.
fn estimate_digit(
    u0: Limb,
    u1: Limb,
    u2: Limb,
    dh: Limb,
    dl: Limb,
    Ghost(p): Ghost<int>,
    Ghost(ulow): Ghost<int>,
    Ghost(vlow): Ghost<int>,
) -> (q: Limb)
    requires
        p > 0,
        0 <= ulow < p,
        0 <= vlow < p,
        u0 <= dh,
        dh >= 0x8000_0000_0000_0000u64,
        p * ((u0 * limb_base() + u1) * limb_base() + u2) + ulow < limb_base() * (p * (dh
            * limb_base() + dl) + vlow),
    ensures
        (q - 1) * (p * (dh * limb_base() + dl) + vlow) <= p * ((u0 * limb_base() + u1)
            * limb_base() + u2) + ulow,
        p * ((u0 * limb_base() + u1) * limb_base() + u2) + ulow < (q + 1) * (p * (dh
            * limb_base() + dl) + vlow),
{
    let ghost b = limb_base() as int;
    let ghost uu = p * ((u0 * b + u1) * b + u2) + ulow;
    let ghost vv = p * (dh * b + dl) + vlow;
    let n2: u128 = ((u0 as u128) << 64u128) | (u1 as u128);
    proof {
        assert(n2 == u0 as u128 * 0x1_0000_0000_0000_0000u128 + u1 as u128) by (bit_vector)
            requires
                n2 == ((u0 as u128) << 64u128) | (u1 as u128),
        ;
    }
    let mut qhat: u128;
    let mut rhat: u128;
    if u0 == dh {
        qhat = 0xFFFF_FFFF_FFFF_FFFFu128;
        proof {
            assert(qhat * (dh as u128) <= n2) by (nonlinear_arith)
                requires
                    qhat == 0xFFFF_FFFF_FFFF_FFFFu128,
                    u0 == dh,
                    n2 == u0 as u128 * 0x1_0000_0000_0000_0000u128 + u1 as u128,
            ;
        }
        rhat = n2 - qhat * (dh as u128);
        proof {
            // U < B·V = (qhat + 1)·V
            assert(uu < (qhat as int + 1) * vv);
        }
    } else {
        qhat = n2 / (dh as u128);
        rhat = n2 % (dh as u128);
        proof {
            lemma_fundamental_div_mod(n2 as int, dh as int);
            lemma_mod_bound(n2 as int, dh as int);
            assert(qhat as int * dh as int + rhat as int == n2 as int) by (nonlinear_arith)
                requires
                    qhat as int == n2 as int / dh as int,
                    rhat as int == n2 as int % dh as int,
                    n2 as int == dh as int * (n2 as int / dh as int) + n2 as int % dh as int,
            ;
            assert(qhat < 0x1_0000_0000_0000_0000u128) by (nonlinear_arith)
                requires
                    qhat as int * dh as int + rhat as int == n2 as int,
                    rhat >= 0,
                    n2 as int == u0 as int * b + u1 as int,
                    u0 as int + 1 <= dh as int,
                    (u1 as int) < b,
                    b == 0x1_0000_0000_0000_0000int,
            ;
            assert((qhat as int + 1) * dh as int > n2 as int) by (nonlinear_arith)
                requires
                    qhat as int * dh as int + rhat as int == n2 as int,
                    (rhat as int) < dh as int,
            ;
            lemma_qhat_initial(
                u0 as int,
                u1 as int,
                u2 as int,
                ulow,
                dh as int,
                dl as int,
                vlow,
                p,
                qhat as int,
            );
        }
    }
    proof {
        lemma_mul_upper_bound(qhat as int, u64::MAX as int, dl as int, u64::MAX as int);
    }
    // Refine qhat using the second divisor limb.
    while rhat >> 64u128 == 0 && qhat * (dl as u128) > ((rhat << 64u128) | (u2 as u128))
        invariant
            qhat as int * dh as int + rhat as int == n2 as int,
            qhat as int * dl as int <= u64::MAX as int * u64::MAX as int,
            qhat < 0x1_0000_0000_0000_0000u128,
            n2 == u0 as u128 * 0x1_0000_0000_0000_0000u128 + u1 as u128,
            uu < (qhat as int + 1) * vv,
            b == limb_base(),
            uu == p * ((u0 * b + u1) * b + u2) + ulow,
            vv == p * (dh * b + dl) + vlow,
            p > 0,
            0 <= ulow < p,
            0 <= vlow < p,
        decreases qhat,
    {
        proof {
            assert(rhat < 0x1_0000_0000_0000_0000u128) by (bit_vector)
                requires
                    rhat >> 64u128 == 0,
            ;
            assert(((rhat << 64u128) | (u2 as u128)) == rhat * 0x1_0000_0000_0000_0000u128 + u2
                as u128) by (bit_vector)
                requires
                    rhat < 0x1_0000_0000_0000_0000u128,
            ;
            lemma_qhat_refine(
                u0 as int,
                u1 as int,
                u2 as int,
                ulow,
                dh as int,
                dl as int,
                vlow,
                p,
                qhat as int,
                rhat as int,
            );
            assert(qhat >= 1) by (nonlinear_arith)
                requires
                    qhat * (dl as u128) > rhat * 0x1_0000_0000_0000_0000u128 + u2 as u128,
            ;
        }
        qhat = qhat - 1;
        proof {
            assert(qhat as int * dh as int + rhat as int + dh as int == n2 as int) by (nonlinear_arith)
                requires
                    (qhat as int + 1) * dh as int + rhat as int == n2 as int,
            ;
            lemma_mul_upper_bound(qhat as int, u64::MAX as int, dl as int, u64::MAX as int);
            assert(rhat as int + dh as int <= u128::MAX);
        }
        rhat = rhat + (dh as u128);
    }
    proof {
        if rhat >> 64u128 == 0 {
            assert(rhat < 0x1_0000_0000_0000_0000u128) by (bit_vector)
                requires
                    rhat >> 64u128 == 0,
            ;
            assert(((rhat << 64u128) | (u2 as u128)) == rhat * 0x1_0000_0000_0000_0000u128 + u2
                as u128) by (bit_vector)
                requires
                    rhat < 0x1_0000_0000_0000_0000u128,
            ;
        } else {
            assert(rhat >= 0x1_0000_0000_0000_0000u128) by (bit_vector)
                requires
                    rhat >> 64u128 != 0,
            ;
        }
        if qhat >= 1 {
            lemma_qhat_exit(
                u0 as int,
                u1 as int,
                u2 as int,
                ulow,
                dh as int,
                dl as int,
                vlow,
                p,
                qhat as int,
                rhat as int,
            );
        } else {
            assert(vv >= 0) by (nonlinear_arith)
                requires
                    vv == p * (dh * b + dl) + vlow,
                    p > 0,
                    vlow >= 0,
                    b > 0,
            ;
            assert(uu >= 0) by (nonlinear_arith)
                requires
                    uu == p * ((u0 * b + u1) * b + u2) + ulow,
                    p > 0,
                    ulow >= 0,
                    b > 0,
            ;
            assert((qhat as int - 1) * vv == -vv) by (nonlinear_arith)
                requires
                    qhat == 0,
            ;
        }
    }
    qhat as Limb
}

/// Cancel a positive common factor.
proof fn lemma_cancel(w: int, x: int, y: int)
    requires
        w > 0,
        w * x == w * y,
    ensures
        x == y,
{
    lemma_mul_equality_converse(w, x, y);
}

/// A window of `n + 1` limbs below `W(n)` has a zero top limb, and its low
/// `n` limbs carry the whole value.
proof fn lemma_window_top_zero(s: Seq<u64>, j: int, n: int)
    requires
        0 <= j,
        n >= 1,
        j + n + 1 <= s.len(),
        segment(s, j, n + 1) < limb_weight(n as nat),
    ensures
        s[j + n] == 0,
        segment(s, j, n) == segment(s, j, n + 1),
{
    let w = s.subrange(j, j + n + 1);
    lemma_value_split(w, n);
    assert(w.take(n) =~= s.subrange(j, j + n));
    assert(w.skip(n) =~= seq![s[j + n]]);
    lemma_value_single(s[j + n]);
    let t = s[j + n] as int;
    let wn = limb_weight(n as nat) as int;
    if t > 0 {
        assert(wn * t >= wn) by (nonlinear_arith)
            requires
                t >= 1,
                wn > 0,
        ;
        lemma_weight_pos(n as nat);
    }
    lemma_mul_basics(wn);
}

/// One quotient digit of Algorithm D: replaces the window `num[j .. j+n+1]`
/// (whose top `n` limbs are below `den`) by its remainder modulo `den` and
/// returns the digit.
#[verifier::rlimit(60)]
fn divide_step(num: &mut [Limb], den: &[Limb], j: usize) -> (qd: Limb)
    requires
        den@.len() >= 2,
        den@[den@.len() - 1] >= 0x8000_0000_0000_0000u64,
        j + den@.len() < old(num)@.len(),
        forall|k: int| j + den@.len() + 1 <= k < old(num)@.len() ==> old(num)@[k] == 0,
        segment(old(num)@, j + 1, den@.len() as int) < value_of(den@),
    ensures
        final(num)@.len() == old(num)@.len(),
        forall|k: int| 0 <= k < j ==> final(num)@[k] == old(num)@[k],
        forall|k: int| j + den@.len() <= k < final(num)@.len() ==> final(num)@[k] == 0,
        segment(final(num)@, j as int, den@.len() as int) < value_of(den@),
        value_of(final(num)@) + limb_weight(j as nat) * (qd as nat * value_of(den@)) == value_of(
            old(num)@,
        ),
{
    let n = den.len();
    let nlen = num.len();
    let u0 = num[j + n];
    let u1 = num[j + n - 1];
    let u2 = num[j + n - 2];
    let dh = den[n - 1];
    let dl = den[n - 2];
    let ghost num0 = num@;
    let ghost b = limb_base() as int;
    let ghost vv = value_of(den@) as int;
    let ghost p = limb_weight((n - 2) as nat) as int;
    let ghost ulow = segment(num0, j as int, n as int - 2) as int;
    let ghost vlow = value_of(den@.take(n as int - 2)) as int;
    let ghost uu = segment(num0, j as int, n as int + 1) as int;
    let ghost ll = value_of(num0.take(j as int)) as int;
    proof {
        lemma_weight_pos((n - 2) as nat);
        lemma_weight_succ((n - 2) as nat);
        lemma_weight_succ((n - 1) as nat);
        lemma_weight_succ(n as nat);
        let win = num0.subrange(j as int, j + n + 1);
        lemma_value_top3(win, n as int - 2);
        assert(win.take(n as int - 2) =~= num0.subrange(j as int, j + n - 2));
        lemma_value_bound(num0.subrange(j as int, j + n - 2));
        lemma_value_top2(den@, n as int - 2);
        lemma_value_bound(den@.take(n as int - 2));
        assert(uu == p * ((u0 * b + u1) * b + u2) + ulow);
        assert(vv == p * (dh * b + dl) + vlow);
        // U = num[j] + B·R with R < V
        lemma_value_split(win, 1);
        assert(win.take(1) =~= seq![num0[j as int]]);
        assert(win.skip(1) =~= num0.subrange(j + 1, j + 1 + n));
        lemma_value_single(num0[j as int]);
        lemma_weight_succ(0);
        let rr = segment(num0, j + 1, n as int) as int;
        assert(uu == num0[j as int] as int + b * rr);
        assert(uu < b * vv) by (nonlinear_arith)
            requires
                uu == num0[j as int] as int + b * rr,
                (num0[j as int] as int) < b,
                rr + 1 <= vv,
        ;
        // u0 <= dh: the top limb of R cannot exceed the top limb of V
        let rs = num0.subrange(j + 1, j + 1 + n);
        lemma_value_split(rs, n as int - 1);
        assert(rs.skip(n as int - 1) =~= seq![u0]);
        lemma_value_single(u0);
        lemma_value_split(den@, n as int - 1);
        assert(den@.skip(n as int - 1) =~= seq![dh]);
        lemma_value_single(dh);
        lemma_value_bound(den@.take(n as int - 1));
        let w1 = limb_weight((n - 1) as nat) as int;
        assert(u0 <= dh) by (nonlinear_arith)
            requires
                rr >= w1 * u0,
                vv < w1 + w1 * dh,
                rr < vv,
                w1 > 0,
        ;
        // value(num) = low + W(j)·U
        lemma_value_window(num0, j as int, n as int + 1);
        assert(value_of(num0) == ll + limb_weight(j as nat) * uu);
        lemma_weight_pos((n - 1) as nat);
    }
    let qhat = estimate_digit(u0, u1, u2, dh, dl, Ghost(p), Ghost(ulow), Ghost(vlow));

    // num[j .. j+n+1] -= qhat * den
    let borrow = submul_at(num, j, den, qhat);
    let (top, bw) = sbb(num[j + n], borrow, 0);
    let ghost num1 = num@;
    num[j + n] = top;
    let ghost num2 = num@;
    let ghost wj = limb_weight(j as nat) as int;
    let ghost wn1 = limb_weight((n + 1) as nat) as int;
    let ghost u2v = segment(num2, j as int, n as int + 1) as int;
    proof {
        lemma_value_update(num1, (j + n) as int, top);
        lemma_weight_succ((j + n) as nat);
        lemma_weight_add(j as nat, (n + 1) as nat);
        lemma_weight_pos(j as nat);
        // value(num2) − bw·W(j+n+1) = value(num0) − W(j)·V·qhat
        assert(value_of(num2) as int - bw as int * (wj * wn1) == value_of(num0) as int - wj * vv
            * qhat as int) by (nonlinear_arith)
            requires
                value_of(num1) as int - borrow as int * limb_weight((j + n) as nat) == value_of(
                    num0,
                ) as int - wj * vv * qhat as int,
                value_of(num2) as int + u0 as int * limb_weight((j + n) as nat) == value_of(num1) as int
                    + top as int * limb_weight((j + n) as nat),
                top as int - bw as int * b == u0 as int - borrow as int,
                wj * wn1 == limb_weight((j + n) as nat) * b,
        ;
        // the limbs outside the window are untouched
        assert forall|k: int| 0 <= k < j implies num2[k] == num0[k] by {}
        assert forall|k: int| j + n + 1 <= k < nlen implies num2[k] == 0 by {}
        lemma_value_window(num2, j as int, n as int + 1);
        assert(num2.take(j as int) =~= num0.take(j as int));
        let w = num2.subrange(j as int, j + n + 1);
        lemma_value_bound(w);
        assert(wj * u2v - bw as int * (wj * wn1) == wj * (uu - vv * qhat as int)) by (nonlinear_arith)
            requires
                value_of(num2) as int == ll + wj * u2v,
                value_of(num0) as int == ll + wj * uu,
                value_of(num2) as int - bw as int * (wj * wn1) == value_of(num0) as int - wj * vv
                    * qhat as int,
        ;
        assert(wj * (u2v - bw as int * wn1) == wj * (uu - vv * qhat as int)) by (nonlinear_arith)
            requires
                wj * u2v - bw as int * (wj * wn1) == wj * (uu - vv * qhat as int),
        ;
        lemma_cancel(wj, u2v - bw as int * wn1, uu - vv * qhat as int);
        assert(vv * qhat as int == qhat as int * vv) by (nonlinear_arith);
    }
    if bw != 0 {
        // qhat was one too large: add back.
        proof {
            assert(bw == 1);
            lemma_mul_basics(wn1);
            assert(u2v - wn1 == uu - qhat as int * vv);
            assert(qhat >= 1) by (nonlinear_arith)
                requires
                    u2v - wn1 == uu - qhat as int * vv,
                    u2v < wn1,
                    uu >= 0,
                    vv > 0,
            ;
        }
        let qd = qhat - 1;
        let carry = add_n_at(num, j, den);
        let ghost num3 = num@;
        let t3 = num[j + n];
        let t4 = t3.wrapping_add(carry);
        num[j + n] = t4;
        proof {
            let num4 = num@;
            lemma_value_update(num3, (j + n) as int, t4);
            assert(t3 == top);
            let k: int = if t3 as int + carry as int > u64::MAX { 1 } else { 0 };
            assert(t4 as int == t3 as int + carry as int - k * b);
            assert(value_of(num4) as int == value_of(num2) as int + wj * vv - k * (wj * wn1))
                by (nonlinear_arith)
                requires
                    value_of(num3) as int + carry as int * limb_weight((j + n) as nat) == value_of(
                        num2,
                    ) as int + wj * vv,
                    value_of(num4) as int + t3 as int * limb_weight((j + n) as nat) == value_of(num3)
                        as int + t4 as int * limb_weight((j + n) as nat),
                    t4 as int == t3 as int + carry as int - k * b,
                    wj * wn1 == limb_weight((j + n) as nat) * b,
            ;
            assert forall|k2: int| 0 <= k2 < j implies num4[k2] == num0[k2] by {}
            assert forall|k2: int| j + n + 1 <= k2 < nlen implies num4[k2] == 0 by {}
            lemma_value_window(num4, j as int, n as int + 1);
            assert(num4.take(j as int) =~= num0.take(j as int));
            let u4 = segment(num4, j as int, n as int + 1) as int;
            lemma_value_bound(num4.subrange(j as int, j + n + 1));
            assert(wj * u4 == wj * (uu - qd as int * vv + (1 - k) * wn1)) by (nonlinear_arith)
                requires
                    value_of(num4) as int == ll + wj * u4,
                    value_of(num2) as int == ll + wj * u2v,
                    value_of(num4) as int == value_of(num2) as int + wj * vv - k * (wj * wn1),
                    u2v - wn1 == uu - (qd as int + 1) * vv,
            ;
            lemma_cancel(wj, u4, uu - qd as int * vv + (1 - k) * wn1);
            assert((qd as int) * vv <= uu) by (nonlinear_arith)
                requires
                    (qhat as int - 1) * vv <= uu,
                    qd as int == qhat as int - 1,
            ;
            assert(k == 1);
            assert((1 - k) * wn1 == 0);
            lemma_value_bound(den@);
            assert(uu - qd as int * vv < vv) by (nonlinear_arith)
                requires
                    u2v - wn1 == uu - (qd as int + 1) * vv,
                    u2v < wn1,
            ;
            lemma_weight_succ(n as nat);
            lemma_window_top_zero(num4, j as int, n as int);
            assert(value_of(num4) as int + wj * (qd as int * vv) == value_of(num0) as int)
                by (nonlinear_arith)
                requires
                    value_of(num4) as int == ll + wj * u4,
                    value_of(num0) as int == ll + wj * uu,
                    u4 == uu - qd as int * vv,
            ;
        }
        qd
    } else {
        proof {
            assert(bw as int * wn1 == 0);
            lemma_value_bound(den@);
            assert(uu - qhat as int * vv < vv) by (nonlinear_arith)
                requires
                    uu < (qhat as int + 1) * vv,
            ;
            lemma_weight_succ(n as nat);
            lemma_window_top_zero(num2, j as int, n as int);
            assert(value_of(num2) as int + wj * (qhat as int * vv) == value_of(num0) as int)
                by (nonlinear_arith)
                requires
                    value_of(num2) as int == ll + wj * u2v,
                    value_of(num0) as int == ll + wj * uu,
                    u2v == uu - qhat as int * vv,
            ;
        }
        qhat
    }
}

/// Knuth Algorithm D: divide `num` by `den` (den.len() >= 2,
/// num.len() >= den.len(), top bit of `den` set). On return `q` holds the
/// quotient and `num` holds the remainder in its low den.len() limbs.
fn div_schoolbook_normalized(q: &mut [Limb], num: &mut [Limb], den: &[Limb])
    requires
        den@.len() >= 2,
        old(num)@.len() >= den@.len(),
        old(q)@.len() == old(num)@.len() - den@.len() + 1,
        den@[den@.len() - 1] >= 0x8000_0000_0000_0000u64,
    ensures
        final(num)@.len() == old(num)@.len(),
        final(q)@.len() == old(q)@.len(),
        value_of(final(q)@) * value_of(den@) + value_of(final(num)@) == value_of(old(num)@),
        value_of(final(num)@) < value_of(den@),
        forall|k: int| den@.len() <= k < final(num)@.len() ==> final(num)@[k] == 0,
{
    let n = den.len();
    let nlen = num.len();
    let m = nlen - n;
    let ghost a0 = value_of(num@);
    let ghost vd = value_of(den@);
    let ghost num0 = num@;
    proof {
        // V >= 2^63·W(n−1), so any n-limb number is below 2V
        lemma_value_split(den@, n as int - 1);
        assert(den@.skip(n as int - 1) =~= seq![den@[n - 1]]);
        lemma_value_single(den@[n - 1]);
        lemma_weight_succ((n - 1) as nat);
        lemma_value_window(num0, m as int, n as int);
    }

    // q[m]: top quotient limb (0 or 1 after normalization).
    let top_seg = &num[m..nlen];
    let c = compare_n(top_seg, den);
    proof {
        assert(top_seg@ =~= num0.subrange(m as int, m + n));
        lemma_value_bound(top_seg@);
        let w = limb_weight((n - 1) as nat) as int;
        assert(value_of(top_seg@) < 2 * vd) by (nonlinear_arith)
            requires
                vd >= w * den@[n - 1],
                den@[n - 1] >= 0x8000_0000_0000_0000int,
                value_of(top_seg@) < w * 0x1_0000_0000_0000_0000int,
        ;
    }
    if c >= 0 {
        let bw = sub_in_place_at(num, m, den);
        proof {
            let num1 = num@;
            lemma_value_window(num1, m as int, n as int);
            assert(num1.take(m as int) =~= num0.take(m as int));
            lemma_value_bound(num1.subrange(m as int, m + n));
            lemma_weight_add(m as nat, n as nat);
            let wm = limb_weight(m as nat) as int;
            let t1 = segment(num1, m as int, n as int) as int;
            let t0 = value_of(top_seg@) as int;
            let wn = limb_weight(n as nat) as int;
            lemma_weight_pos(m as nat);
            assert(wm * (t1 - bw as int * wn) == wm * (t0 - vd)) by (nonlinear_arith)
                requires
                    value_of(num1) as int - bw as int * (wm * wn) == a0 - wm * vd,
                    value_of(num1) as int == value_of(num0.take(m as int)) as int + wm * t1,
                    a0 == value_of(num0.take(m as int)) as int + wm * t0,
            ;
            lemma_cancel(wm, t1 - bw as int * wn, t0 - vd);
            if bw != 0 {
                assert(bw == 1);
                assert(t1 - wn == t0 - vd);
                assert(false);
            }
            assert(t1 == t0 - vd);
        }
        q[m] = 1;
    } else {
        q[m] = 0;
    }
    proof {
        assert(q@.skip(m as int) =~= seq![q@[m as int]]);
        lemma_value_single(q@[m as int]);
        let wm = limb_weight(m as nat) as int;
        let t0 = value_of(top_seg@) as int;
        if c >= 0 {
            assert(value_of(num@) + wm * (q@[m as int] as int) * vd == a0) by (nonlinear_arith)
                requires
                    value_of(num@) as int == value_of(num0.take(m as int)) as int + wm * (t0 - vd),
                    a0 == value_of(num0.take(m as int)) as int + wm * t0,
                    q@[m as int] == 1,
            ;
        } else {
            assert(value_of(num@) + wm * (q@[m as int] as int) * vd == a0) by (nonlinear_arith)
                requires
                    value_of(num@) == a0,
                    q@[m as int] == 0,
            ;
        }
    }
    let mut jj = m;
    while jj > 0
        invariant
            n == den@.len(),
            nlen == num@.len(),
            nlen == n + m,
            q@.len() == m + 1,
            n >= 2,
            jj <= m,
            den@[n - 1] >= 0x8000_0000_0000_0000u64,
            vd == value_of(den@),
            forall|k: int| jj + n <= k < nlen ==> num@[k] == 0,
            segment(num@, jj as int, n as int) < vd,
            value_of(num@) + limb_weight(jj as nat) * value_of(q@.skip(jj as int)) * vd == a0,
        decreases jj,
    {
        let j = jj - 1;
        let ghost numb = num@;
        let qd = divide_step(num, den, j);
        let ghost qb = q@;
        q[j] = qd;
        proof {
            assert(q@.skip(jj as int) =~= qb.skip(jj as int));
            lemma_value_split(q@.skip(j as int), 1);
            assert(q@.skip(j as int).take(1) =~= seq![qd]);
            assert(q@.skip(j as int).skip(1) =~= q@.skip(jj as int));
            lemma_value_single(qd);
            lemma_weight_succ(j as nat);
            lemma_weight_succ(0);
            let wj = limb_weight(j as nat) as int;
            let qs = value_of(qb.skip(jj as int)) as int;
            assert(value_of(num@) + wj * (qd as int + limb_base() * qs) * vd == a0) by (nonlinear_arith)
                requires
                    value_of(num@) + wj * (qd as int * vd) == value_of(numb),
                    value_of(numb) + (wj * limb_base()) * qs * vd == a0,
            ;
        }
        jj = j;
    }
    proof {
        assert(q@.skip(0) =~= q@);
        lemma_weight_succ(0);
        lemma_value_window(num@, 0, n as int);
        assert(num@.take(0) =~= Seq::<u64>::empty());
        lemma_mul_basics(value_of(q@) as int);
    }
}

/// A fresh copy of a limb slice.
pub(crate) fn copy_limbs(a: &[Limb]) -> (v: Vec<Limb>)
    ensures
        v@ == a@,
{
    let mut v: Vec<Limb> = Vec::with_capacity(a.len());
    let mut i: usize = 0;
    while i < a.len()
        invariant
            i <= a@.len(),
            v@ =~= a@.take(i as int),
        decreases a@.len() - i,
    {
        v.push(a[i]);
        i = i + 1;
    }
    proof {
        assert(a@.take(a@.len() as int) =~= a@);
    }
    v
}

/// Truncate a vector to its normalized length.
pub(crate) fn normalize_vec(v: &mut Vec<Limb>)
    ensures
        value_of(final(v)@) == value_of(old(v)@),
        is_normalized(final(v)@),
        final(v)@.len() <= old(v)@.len(),
{
    let n = normalized_len(v.as_slice());
    v.truncate(n);
    proof {
        assert(v@ =~= old(v)@.take(n as int));
    }
}

/// Divide normalized `a` by nonzero `d`. Returns (quotient, remainder),
/// both normalized.
pub fn divrem(a: &[Limb], d: &[Limb]) -> (res: (Vec<Limb>, Vec<Limb>))
    requires
        value_of(d@) > 0,
        a@.len() < usize::MAX,
    ensures
        value_of(res.0@) * value_of(d@) + value_of(res.1@) == value_of(a@),
        value_of(res.1@) < value_of(d@),
        is_normalized(res.0@),
        is_normalized(res.1@),
{
    let an0 = normalized_len(a);
    let dn0 = normalized_len(d);
    let a = &a[0..an0];
    let d = &d[0..dn0];
    let an = an0;
    let dn = dn0;
    if dn == 0 {
        proof {
            assert(d@ =~= Seq::<u64>::empty());
        }
    }
    if an < dn {
        proof {
            lemma_value_len_lt(a@, d@);
            lemma_mul_basics(value_of(d@) as int);
        }
        return (Vec::new(), copy_limbs(a));
    }
    if dn == 1 {
        let mut q = zeros(an);
        let r = divrem_1(&mut q, a, d[0]);
        normalize_vec(&mut q);
        let mut rv: Vec<Limb> = Vec::new();
        if r != 0 {
            rv.push(r);
        }
        proof {
            lemma_value_single(d@[0]);
            assert(d@ =~= seq![d@[0]]);
            if r != 0 {
                assert(rv@ =~= seq![r]);
                lemma_value_single(r);
            }
        }
        return (q, rv);
    }
    // Normalize: shift so the divisor's top bit is set.
    let top = d[dn - 1];
    let shift = top.leading_zeros();
    proof {
        lemma_leading_zeros(top);
    }
    let mut den = copy_limbs(d);
    let mut num = zeros(an + 1);
    let ghost sc: nat = pow2(shift as nat);
    if shift > 0 {
        let dout = lshift(&mut den, d, shift);
        let mut lo = zeros(an);
        let aout = lshift(&mut lo, a, shift);
        let mut k: usize = 0;
        while k < an
            invariant
                k <= an,
                num@.len() == an + 1,
                lo@.len() == an,
                forall|i: int| 0 <= i < k ==> num@[i] == lo@[i],
            decreases an - k,
        {
            num[k] = lo[k];
            k = k + 1;
        }
        num[an] = aout;
        proof {
            assert(num@.drop_last() =~= lo@);
            lemma_shifted_divisor(d@, den@, dout, shift as nat);
        }
    } else {
        let mut k: usize = 0;
        while k < an
            invariant
                k <= an,
                num@.len() == an + 1,
                an == a@.len(),
                forall|i: int| 0 <= i < k ==> num@[i] == a@[i],
                num@[an as int] == 0,
            decreases an - k,
        {
            num[k] = a[k];
            k = k + 1;
        }
        proof {
            assert(num@.drop_last() =~= a@);
            assert(den@ == d@);
            lemma2_to64();
            lemma2_to64_rest();
            lemma_mul_basics(value_of(d@) as int);
            assert(den@[dn - 1] == top);
        }
    }
    proof {
        // value(num) = A·2^shift and value(den) = D·2^shift
        assert(value_of(num@) == value_of(a@) * sc) by {
            lemma_value_push(num@.drop_last(), num@.last());
            assert(num@.drop_last().push(num@.last()) =~= num@);
            if shift == 0 {
                lemma_mul_basics(value_of(a@) as int);
            }
        }
        assert(value_of(den@) == value_of(d@) * sc);
        assert(den@.len() == dn);
    }
    let mut q = zeros(an - dn + 2);
    div_schoolbook_normalized(&mut q, &mut num, &den);
    let mut rem = copy_limbs(&num[0..dn]);
    proof {
        lemma_value_zeros_above(num@, dn as int);
        assert(rem@ =~= num@.take(dn as int));
    }
    let ghost rr = value_of(rem@);
    if shift > 0 {
        let src = copy_limbs(&rem);
        let out = rshift(&mut rem, &src, shift);
        proof {
            lemma_unshift_remainder(
                value_of(a@),
                value_of(d@),
                value_of(q@),
                rr,
                value_of(rem@),
                out as nat,
                shift as nat,
            );
        }
    } else {
        proof {
            lemma2_to64();
            lemma_mul_basics(value_of(a@) as int);
            lemma_mul_basics(value_of(d@) as int);
            lemma_mul_basics(rr as int);
        }
    }
    normalize_vec(&mut q);
    normalize_vec(&mut rem);
    (q, rem)
}

/// Shifting a normalized divisor by its leading-zero count sets its top bit
/// and loses nothing.
proof fn lemma_shifted_divisor(d: Seq<u64>, den: Seq<u64>, out: u64, shift: nat)
    requires
        d.len() >= 2,
        d.last() != 0,
        den.len() == d.len(),
        0 < shift < 64,
        shift == u64_leading_zeros(d.last()),
        value_of(den) + out as nat * limb_weight(d.len()) == value_of(d) * pow2(shift),
    ensures
        out == 0,
        value_of(den) == value_of(d) * pow2(shift),
        den[den.len() - 1] >= 0x8000_0000_0000_0000u64,
{
    let n = d.len();
    let top = d.last();
    lemma_leading_zeros(top);
    let k = (64 - shift) as nat;
    // D < 2^k·W(n−1) and D ≥ 2^(k−1)·W(n−1)
    lemma_value_split(d, n as int - 1);
    assert(d.skip(n as int - 1) =~= seq![top]);
    lemma_value_single(top);
    lemma_value_bound(d.take(n as int - 1));
    let w = limb_weight((n - 1) as nat) as int;
    let lowd = value_of(d.take(n as int - 1)) as int;
    let pk = pow2(k) as int;
    let ps = pow2(shift) as int;
    lemma_pow2_adds(k, shift);
    lemma_pow2_64();
    lemma_weight_succ((n - 1) as nat);
    lemma_pow2_pos(shift);
    lemma_pow2_pos(k);
    lemma_pow2_unfold(k);
    let dd = value_of(d) as int;
    assert(dd * ps < w * 0x1_0000_0000_0000_0000int) by (nonlinear_arith)
        requires
            dd == lowd + w * top as int,
            0 <= lowd < w,
            top as int + 1 <= pk,
            pk * ps == 0x1_0000_0000_0000_0000int,
            ps > 0,
    ;
    if out != 0 {
        assert(false) by (nonlinear_arith)
            requires
                value_of(den) as int + out as int * (w * 0x1_0000_0000_0000_0000int) == dd * ps,
                dd * ps < w * 0x1_0000_0000_0000_0000int,
                out >= 1,
                value_of(den) >= 0,
                w > 0,
        ;
    }
    lemma_mul_basics(w * 0x1_0000_0000_0000_0000int);
    // top limb of den is at least 2^63
    let p1 = pow2((k - 1) as nat) as int;
    lemma_pow2_adds((k - 1) as nat, shift);
    lemma2_to64_rest();
    assert(dd * ps >= w * 0x8000_0000_0000_0000int) by (nonlinear_arith)
        requires
            dd == lowd + w * top as int,
            lowd >= 0,
            top as int >= p1,
            p1 * ps == 0x8000_0000_0000_0000int,
            w > 0,
            ps > 0,
    ;
    lemma_value_split(den, n as int - 1);
    assert(den.skip(n as int - 1) =~= seq![den[n - 1]]);
    lemma_value_single(den[n - 1]);
    lemma_value_bound(den.take(n as int - 1));
    let lowr = value_of(den.take(n as int - 1)) as int;
    let tr = den[n - 1] as int;
    if tr < 0x8000_0000_0000_0000int {
        assert(false) by (nonlinear_arith)
            requires
                value_of(den) as int == lowr + w * tr,
                0 <= lowr < w,
                tr + 1 <= 0x8000_0000_0000_0000int,
                value_of(den) as int >= w * 0x8000_0000_0000_0000int,
        ;
    }
}

/// Undoing the normalization shift: the shifted remainder is an exact
/// multiple of `2^s`, and shifting it back gives the true remainder.
proof fn lemma_unshift_remainder(a: nat, d: nat, q: nat, r: nat, r2: nat, out: nat, s: nat)
    requires
        0 < s < 64,
        q * (d * pow2(s)) + r == a * pow2(s),
        r < d * pow2(s),
        r2 * limb_base() + out == r * pow2((64 - s) as nat),
        out < limb_base(),
    ensures
        q * d + r2 == a,
        r2 < d,
{
    let ps = pow2(s) as int;
    let pk = pow2((64 - s) as nat) as int;
    lemma_pow2_adds(s, (64 - s) as nat);
    lemma_pow2_64();
    lemma_pow2_pos(s);
    lemma_pow2_pos((64 - s) as nat);
    let b = limb_base() as int;
    // r = (a − q d)·2^s, so r·2^(64−s) = (a − q d)·B
    let e = a as int - q as int * d as int;
    assert(r as int == e * ps) by (nonlinear_arith)
        requires
            q as int * (d as int * ps) + r as int == a as int * ps,
            e == a as int - q as int * d as int,
    ;
    assert(r as int * pk == e * b) by (nonlinear_arith)
        requires
            r as int == e * ps,
            ps * pk == b,
    ;
    // r2·B + out = e·B with out < B ⇒ out = 0, r2 = e
    assert(e >= 0) by (nonlinear_arith)
        requires
            r as int == e * ps,
            ps > 0,
            r >= 0,
    ;
    assert(r2 as int == e && out == 0) by (nonlinear_arith)
        requires
            r2 as int * b + out as int == e * b,
            0 <= (out as int) < b,
            r2 >= 0,
            e >= 0,
            b > 0,
    ;
    assert(e < d as int) by (nonlinear_arith)
        requires
            r as int == e * ps,
            (r as int) < d as int * ps,
            ps > 0,
    ;
}

} // verus!