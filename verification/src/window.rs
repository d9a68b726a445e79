//! Bit-granular shifts of limb vectors, the building blocks of rounding.
use crate::limb_spec::{
    lemma_pow2_64, lemma_value_all_zero, lemma_value_bound, lemma_value_concat, lemma_value_push,
    lemma_value_split, lemma_value_zero_limbs, lemma_weight_pos, limb_base, limb_weight, value_of,
};
use crate::mpn::{self, Limb};
use vstd::arithmetic::div_mod::*;
use vstd::arithmetic::mul::*;
use vstd::arithmetic::power2::*;
use vstd::prelude::*;

verus! {

/// Splitting a number at bit `a` and then its high part at bit `b`.
pub proof fn lemma_split_divmod(lo: nat, hi: nat, q: nat, r: nat, a: nat, b: nat)
    requires
        lo < pow2(a),
        r < pow2(b),
        hi == q * pow2(b) + r,
    ensures
        (lo + pow2(a) * hi) / pow2(a + b) == q,
        (lo + pow2(a) * hi) % pow2(a + b) == r * pow2(a) + lo,
{
    lemma_pow2_adds(a, b);
    lemma_pow2_pos(a);
    lemma_pow2_pos(b);
    let pa = pow2(a) as int;
    let pb = pow2(b) as int;
    assert(lo + pa * hi == q * (pa * pb) + (r * pa + lo)) by (nonlinear_arith)
        requires
            hi == q * pb + r,
    ;
    assert(r * pa + lo < pa * pb) by (nonlinear_arith)
        requires
            lo < pa,
            r < pb,
            0 <= r,
    ;
    lemma_fundamental_div_mod_converse(
        (lo + pa * hi) as int,
        pa * pb,
        q as int,
        r * pa + lo,
    );
}

/// Reading a right shift result: `value(r)·2^64 + out = v·2^(64−c)`.
pub proof fn lemma_rshift_divmod(v: nat, rv: nat, out: nat, c: nat)
    requires
        0 < c < 64,
        out < pow2(64),
        rv * pow2(64) + out == v * pow2((64 - c) as nat),
    ensures
        rv == v / pow2(c),
        out == (v % pow2(c)) * pow2((64 - c) as nat),
{
    lemma_pow2_pos(c);
    lemma_pow2_pos((64 - c) as nat);
    lemma_pow2_adds(c, (64 - c) as nat);
    let pc = pow2(c) as int;
    let pr = pow2((64 - c) as nat) as int;
    let q = v as int / pc;
    let r = v as int % pc;
    lemma_fundamental_div_mod(v as int, pc);
    lemma_mod_bound(v as int, pc);
    assert(v * pr == q * (pc * pr) + r * pr) by (nonlinear_arith)
        requires
            v == pc * q + r,
    ;
    assert(r * pr < pc * pr) by (nonlinear_arith)
        requires
            0 <= r < pc,
            pr > 0,
    ;
    assert(0 <= r * pr) by (nonlinear_arith)
        requires
            0 <= r,
            pr > 0,
    ;
    lemma_fundamental_div_mod_converse((v * pr) as int, pc * pr, q, r * pr);
    lemma_fundamental_div_mod_converse((v * pr) as int, pc * pr, rv as int, out as int);
}

/// `value(a) / 2^s`, and whether any of the bits shifted out is set.
pub fn shr_bits(a: &[Limb], s: u64) -> (res: (Vec<Limb>, bool))
    ensures
        value_of(res.0@) == value_of(a@) / pow2(s as nat),
        res.1 == (value_of(a@) % pow2(s as nat) != 0),
        res.0@.len() <= a@.len(),
{
    let n = a.len();
    let ls64 = s / 64;
    let bs = (s % 64) as u32;
    proof {
        lemma_value_bound(a@);
        lemma_pow2_pos(s as nat);
    }
    if ls64 >= n as u64 {
        proof {
            // value < 2^(64 n) <= 2^s
            if ((64 * n) as nat) < (s as nat) {
                lemma_pow2_strictly_increases((64 * n) as nat, s as nat);
            }
            lemma_basic_div_specific_divisor(pow2(s as nat) as int);
            lemma_small_mod(value_of(a@), pow2(s as nat));
        }
        return (Vec::new(), nz_of(a));
    }
    let ls = ls64 as usize;
    let lo = &a[0..ls];
    let hi = &a[ls..n];
    let nz_low = nz_of(lo);
    proof {
        assert(lo@ =~= a@.take(ls as int));
        assert(hi@ =~= a@.skip(ls as int));
        lemma_value_split(a@, ls as int);
        lemma_value_bound(lo@);
    }
    if bs == 0 {
        let q = mpn::copy_limbs(hi);
        proof {
            assert(s == 64 * ls);
            lemma2_to64();
            lemma_split_divmod(value_of(lo@), value_of(hi@), value_of(hi@), 0, (64 * ls) as nat, 0);
            lemma_nz_value(lo@);
            assert(pow2(0) == 1);
            lemma_mul_basics(pow2((64 * ls) as nat) as int);
        }
        (q, nz_low)
    } else {
        let mut q = mpn::zeros(n - ls);
        let out = mpn::rshift(&mut q, hi, bs);
        proof {
            lemma_pow2_64();
            lemma_rshift_divmod(value_of(hi@), value_of(q@), out as nat, bs as nat);
            let hv = value_of(hi@);
            lemma_pow2_pos(bs as nat);
            let r = hv % pow2(bs as nat);
            lemma_fundamental_div_mod(hv as int, pow2(bs as nat) as int);
            lemma_mod_bound(hv as int, pow2(bs as nat) as int);
            lemma_split_divmod(value_of(lo@), hv, hv / pow2(bs as nat), r, (64 * ls) as nat, bs as nat);
            assert((64 * ls) as nat + bs as nat == s as nat);
            lemma_nz_value(lo@);
            lemma_pow2_pos((64 - bs) as nat);
            lemma_pow2_pos((64 * ls) as nat);
            if r == 0 {
                assert(out == 0) by (nonlinear_arith)
                    requires
                        out as nat == r * pow2((64 - bs) as nat),
                        r == 0,
                ;
            } else {
                assert(out != 0) by (nonlinear_arith)
                    requires
                        out as nat == r * pow2((64 - bs) as nat),
                        r > 0,
                        pow2((64 - bs) as nat) > 0,
                ;
            }
            assert((r * pow2((64 * ls) as nat) + value_of(lo@) != 0) == (r != 0 || value_of(lo@)
                != 0)) by (nonlinear_arith)
                requires
                    pow2((64 * ls) as nat) > 0,
            ;
        }
        (q, nz_low || out != 0)
    }
}

/// Whether any limb is nonzero.
fn nz_of(a: &[Limb]) -> (r: bool)
    ensures
        r == (value_of(a@) != 0),
{
    let k = mpn::normalized_len(a);
    proof {
        lemma_nz_value(a@);
    }
    k != 0
}

/// A limb sequence is zero exactly when all its limbs are.
pub proof fn lemma_nz_value(s: Seq<u64>)
    ensures
        (value_of(s) != 0) == (exists|i: int| 0 <= i < s.len() && s[i] != 0),
{
    if value_of(s) == 0 {
        lemma_value_zero_limbs(s);
    } else {
        if forall|i: int| 0 <= i < s.len() ==> s[i] == 0 {
            lemma_value_all_zero(s);
        }
    }
}

/// `value(a) · 2^s`, in `a.len() + s/64 + 1` limbs.
pub fn shl_bits(a: &[Limb], s: u64) -> (r: Vec<Limb>)
    requires
        a@.len() + s / 64 + 1 <= usize::MAX,
    ensures
        value_of(r@) == value_of(a@) * pow2(s as nat),
        r@.len() == a@.len() + s / 64 + 1,
{
    let n = a.len();
    let ls = (s / 64) as usize;
    let bs = (s % 64) as u32;
    let mut r = mpn::zeros(ls);
    let mut t = mpn::zeros(n);
    let out: Limb;
    if bs == 0 {
        t = mpn::copy_limbs(a);
        out = 0;
        proof {
            lemma2_to64();
        }
    } else {
        out = mpn::lshift(&mut t, a, bs);
    }
    proof {
        lemma_pow2_64();
    }
    assert(value_of(t@) + out as nat * limb_weight(n as nat) == value_of(a@) * pow2(bs as nat));
    let ghost z = r@;
    let mut i: usize = 0;
    while i < n
        invariant
            i <= n,
            n == t@.len(),
            z.len() == ls,
            r@ =~= z + t@.take(i as int),
        decreases n - i,
    {
        r.push(t[i]);
        i = i + 1;
        proof {
            assert(t@.take(i as int) =~= t@.take(i - 1).push(t@[i - 1]));
        }
    }
    r.push(out);
    proof {
        assert(t@.take(n as int) =~= t@);
        assert(r@ =~= z + t@.push(out));
        lemma_value_concat(z, t@.push(out));
        lemma_value_push(t@, out);
        lemma_value_all_zero(z);
        lemma_pow2_adds((64 * ls) as nat, bs as nat);
        assert((64 * ls) as nat + bs as nat == s as nat);
        assert(limb_weight(ls as nat) * (value_of(a@) * pow2(bs as nat)) == value_of(a@) * (pow2(
            (64 * ls) as nat) * pow2(bs as nat))) by (nonlinear_arith);
    }
    r
}

} // verus!
