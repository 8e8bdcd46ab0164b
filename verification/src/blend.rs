use vstd::prelude::*;

use crate::fraction::binary_exponent;
use crate::fraction::exponent_field;
use crate::fraction::in_unit_interval;
use crate::fraction::mantissa_field;
use crate::fraction::sign_field;
use crate::fraction::significand;
use crate::fraction::Fraction;
use crate::fraction::NEG_ZERO_BITS;
use crate::fraction::ONE_BITS;
use crate::fraction::POS_ZERO_BITS;
use vstd::arithmetic::div_mod::lemma_basic_div;
use vstd::arithmetic::div_mod::lemma_div_by_multiple;
use vstd::arithmetic::div_mod::lemma_fundamental_div_mod;
use vstd::arithmetic::div_mod::lemma_multiply_divide_le;
use vstd::arithmetic::div_mod::lemma_mod_division_less_than_divisor;
use vstd::arithmetic::mul::lemma_mul_strict_inequality;
use vstd::arithmetic::power2::lemma2_to64;
use vstd::arithmetic::power2::lemma2_to64_rest;
use vstd::arithmetic::power2::lemma_pow2_adds;
use vstd::arithmetic::power2::lemma_pow2_pos;
use vstd::arithmetic::power2::lemma_pow2_strictly_increases;
use vstd::arithmetic::div_mod::lemma_multiply_divide_lt;
use vstd::arithmetic::power2::pow2;
use vstd::math::abs;

verus! {

/// Number of binary digits of `n`; zero for zero.
pub open spec fn bit_len(n: nat) -> nat
    decreases n,
{
    if n == 0 {
        0
    } else {
        1 + bit_len(n / 2)
    }
}

/// Concrete values of the large powers of two the proofs lean on.
proof fn lemma_pow2_large()
    ensures
        pow2(106) == 0x400000000000000000000000000,
        pow2(110) == 0x4000000000000000000000000000,
        pow2(111) == 0x8000000000000000000000000000,
        pow2(120) == 0x1000000000000000000000000000000,
        pow2(121) == 0x2000000000000000000000000000000,
        pow2(127) == 0x80000000000000000000000000000000,
        pow2(128) == 0x100000000000000000000000000000000,
{
    lemma2_to64();
    lemma2_to64_rest();
    lemma_pow2_adds(64, 42);
    lemma_pow2_adds(64, 46);
    lemma_pow2_adds(64, 47);
    lemma_pow2_adds(64, 56);
    lemma_pow2_adds(64, 57);
    lemma_pow2_adds(64, 63);
    lemma_pow2_adds(64, 64);
}

/// A positive number lies between the two powers of two its bit length
/// names.
proof fn lemma_bit_len_bounds(n: nat)
    requires
        n > 0,
    ensures
        pow2((bit_len(n) - 1) as nat) <= n < pow2(bit_len(n)),
    decreases n,
{
    lemma2_to64();
    if n == 1 {
        assert(bit_len(0) == 0);
        assert(bit_len(1) == 1 + bit_len(0));
    } else {
        lemma_bit_len_bounds(n / 2);
        let bl2 = bit_len(n / 2);
        assert(bit_len(n) == bl2 + 1);
        lemma_fundamental_div_mod(n as int, 2);
        assert(n == 2 * (n / 2) + n % 2);
        assert(n % 2 < 2) by {
            lemma_mod_division_less_than_divisor(n as int, 2);
        }
        vstd::arithmetic::power2::lemma_pow2_unfold((bl2 + 1) as nat);
        vstd::arithmetic::power2::lemma_pow2_unfold(bl2);
        assert(pow2(bl2) == 2 * pow2((bl2 - 1) as nat));
        assert(pow2(bl2) <= 2 * (n / 2));
        assert(n / 2 + 1 <= pow2(bl2));
        assert(n < pow2((bl2 + 1) as nat));
    }
}

/// A bound on a number bounds its bit length.
proof fn lemma_bit_len_le(n: nat, k: nat)
    requires
        n < pow2(k),
    ensures
        bit_len(n) <= k,
{
    if n > 0 {
        lemma_bit_len_bounds(n);
        if bit_len(n) > k {
            lemma_pow2_strictly_increases(k, (bit_len(n) - 1) as nat);
            if k < bit_len(n) - 1 {
            } else {
            }
            assert(pow2(k) <= pow2((bit_len(n) - 1) as nat) || k == bit_len(n) - 1);
        }
    }
}

/// Rounds `v / pow2(k)` to the nearest integer, ties to the even
/// neighbour: the rounding rule of IEEE 754 arithmetic.
pub open spec fn round_half_even(v: nat, k: nat) -> nat {
    let q = v / pow2(k);
    let r = v % pow2(k);
    if 2 * r > pow2(k) || (2 * r == pow2(k) && q % 2 == 1) {
        q + 1
    } else {
        q
    }
}

/// `pow2` as an executable value.
fn pow2_u128(k: u64) -> (r: u128)
    requires
        k <= 120,
    ensures
        r as nat == pow2(k as nat),
{
    let mut i: u64 = 0;
    let mut r: u128 = 1;
    proof {
        lemma2_to64();
    }
    while i < k
        invariant
            i <= k,
            k <= 120,
            r as nat == pow2(i as nat),
        decreases k - i,
    {
        proof {
            lemma_pow2_large();
            if (i as nat) < 120 {
                lemma_pow2_strictly_increases(i as nat, 120);
            }
            assert(pow2((i + 1) as nat) == 2 * pow2(i as nat)) by {
                vstd::arithmetic::power2::lemma_pow2_unfold((i + 1) as nat);
            }
        }
        r = r * 2;
        i = i + 1;
    }
    r
}

/// Executable bit length.
fn bit_len_u128(n: u128) -> (l: u64)
    ensures
        l as nat == bit_len(n as nat),
{
    let mut x: u128 = n;
    let mut l: u64 = 0;
    proof {
        lemma_pow2_large();
        lemma_pow2_adds(127, 1);
        lemma_bit_len_le(n as nat, 128);
    }
    while x > 0
        invariant
            l as nat + bit_len(x as nat) == bit_len(n as nat),
            bit_len(n as nat) <= 128,
        decreases x,
    {
        proof {
            assert(bit_len(x as nat) == 1 + bit_len((x / 2) as nat));
            assert(bit_len((x / 2) as nat) <= bit_len(x as nat));
        }
        x = x / 2;
        l = l + 1;
    }
    proof {
        assert(bit_len(0) == 0);
    }
    l
}

/// Executable round-half-even of `v / pow2(k)`.
fn round_half_even_u128(v: u128, k: u64) -> (r: u128)
    requires
        k <= 120,
        v < 0x80000000000000000000000000000000u128,
    ensures
        r as nat == round_half_even(v as nat, k as nat),
{
    let p = pow2_u128(k);
    proof {
        lemma_pow2_pos(k as nat);
        lemma_pow2_large();
        if (k as nat) < 120 {
            lemma_pow2_strictly_increases(k as nat, 120);
        }
        lemma_mod_division_less_than_divisor(v as int, p as int);
    }
    let q = v / p;
    let rem = v % p;
    if 2 * rem > p || (2 * rem == p && q % 2 == 1) {
        q + 1
    } else {
        q
    }
}

/// Largest channel magnitude the scaler accepts: `2^52`. Every channel of
/// a fixed-width integer color type that converts losslessly to binary64
/// lies within it.
pub const CHANNEL_LIMIT: i64 = 0x10_0000_0000_0000;

/// The binary64 sum of the integer `start` and the magnitude
/// `pm * 2^(-shift)` (negated when `negative`), rounded to nearest-even
/// and then truncated toward zero. When every bit of the second summand
/// lies far below the rounding position of the sum, the sum rounds back
/// to `start`, which the last branch writes out directly.
pub open spec fn sum_trunc(start: int, negative: bool, pm: nat, shift: nat) -> int {
    if bit_len(abs(start)) + shift <= 110 {
        let sum = start * pow2(shift) + (if negative {
            -(pm as int)
        } else {
            pm as int
        });
        if sum == 0 {
            0
        } else {
            let u = abs(sum);
            let drop = if bit_len(u) > 53 {
                (bit_len(u) - 53) as nat
            } else {
                0
            };
            let sm = round_half_even(u, drop);
            let mag = if drop >= shift {
                sm * pow2((drop - shift) as nat)
            } else {
                sm / pow2((shift - drop) as nat)
            };
            if sum > 0 {
                mag as int
            } else {
                -(mag as int)
            }
        }
    } else {
        start
    }
}

/// One channel blended toward another at the encoded fraction, computed
/// as binary64 arithmetic computes it: the difference of the promoted
/// endpoints is multiplied by the fraction with one round-to-nearest-even
/// step, the start channel is added with a second, and the result is
/// truncated toward zero. The leading branches write out the cases that
/// binary64 arithmetic resolves exactly: equal endpoints, a zero
/// fraction, and a fraction of one.
pub open spec fn blend_spec(start: int, end: int, bits: u64) -> int {
    if start == end {
        start
    } else if bits == POS_ZERO_BITS || bits == NEG_ZERO_BITS {
        start
    } else if bits == ONE_BITS {
        end
    } else {
        let p = abs(end - start) * significand(bits);
        let drop = if bit_len(p) > 53 {
            (bit_len(p) - 53) as nat
        } else {
            0
        };
        let pm = round_half_even(p, drop);
        let shift = (0 - (binary_exponent(bits) + drop)) as nat;
        sum_trunc(start, end < start, pm, shift)
    }
}

/// A value below `pow2(k + 53)` rounds at `k` to at most `pow2(53)`.
proof fn lemma_rhe_small(v: nat, k: nat, l: nat)
    requires
        v < pow2(l),
        l <= k + 53,
    ensures
        round_half_even(v, k) <= pow2(53),
{
    lemma_pow2_pos(k);
    lemma_pow2_adds(k, 53);
    if l < k + 53 {
        lemma_pow2_strictly_increases(l, k + 53);
    }
    lemma_multiply_divide_lt(v as int, pow2(k) as int, pow2(53) as int);
    assert(v / pow2(k) < pow2(53));
}

/// Scaled back to its place, a rounded value is at most double the value
/// it rounds.
proof fn lemma_rhe_scaled_bound(v: nat, k: nat)
    requires
        pow2(k) <= v || k == 0,
    ensures
        round_half_even(v, k) * pow2(k) <= 2 * v,
{
    lemma2_to64();
    lemma_pow2_pos(k);
    lemma_fundamental_div_mod(v as int, pow2(k) as int);
    lemma_mod_division_less_than_divisor(v as int, pow2(k) as int);
    if k == 0 {
        assert(round_half_even(v, 0) == v / 1);
    } else {
        let q = v / pow2(k);
        assert(round_half_even(v, k) <= q + 1);
        assert((q + 1) * pow2(k) == q * pow2(k) + pow2(k)) by (nonlinear_arith);
        assert(q * pow2(k) <= v) by (nonlinear_arith)
            requires
                v as int == pow2(k) * q + v % pow2(k),
                v % pow2(k) >= 0,
        ;
        assert(round_half_even(v, k) * pow2(k) <= (q + 1) * pow2(k)) by (nonlinear_arith)
            requires
                round_half_even(v, k) <= q + 1,
                pow2(k) > 0,
        ;
    }
}

/// The truncated magnitude of the rounded sum stays below `pow2(55)`.
proof fn lemma_mag_bound(sm: nat, drop2: nat, shift: nat, su: nat, smag: nat, pm: nat)
    requires
        drop2 >= shift,
        1 <= su,
        sm * pow2(drop2) <= 2 * su,
        su <= smag * pow2(shift) + pm,
        smag <= pow2(52),
        pm <= pow2(53),
    ensures
        sm * pow2((drop2 - shift) as nat) <= pow2(55),
{
    lemma2_to64();
    lemma2_to64_rest();
    let gg = (drop2 - shift) as nat;
    lemma_pow2_adds(gg, shift);
    lemma_pow2_pos(shift);
    lemma_pow2_pos(gg);
    let ps = pow2(shift) as int;
    assert((sm * pow2(gg)) * ps <= 2 * (smag * ps) + 2 * pm) by (nonlinear_arith)
        requires
            sm * pow2(drop2) <= 2 * su,
            pow2(drop2) == pow2(gg) * ps,
            su <= smag * ps + pm,
    ;
    assert(smag * ps <= pow2(52) * ps) by (nonlinear_arith)
        requires
            smag <= pow2(52),
            ps > 0,
    ;
    if shift == 0 {
        assert((sm * pow2(gg)) * 1 <= 2 * pow2(52) + 2 * pow2(53));
    } else {
        lemma_pow2_strictly_increases(0, shift);
        assert(ps >= 2) by {
            if shift >= 2 {
                lemma_pow2_strictly_increases(1, shift);
            }
        }
        assert(2 * pm <= pow2(53) * ps) by (nonlinear_arith)
            requires
                pm <= pow2(53),
                ps >= 2,
        ;
        assert((sm * pow2(gg)) * ps <= pow2(55) * ps) by (nonlinear_arith)
            requires
                (sm * pow2(gg)) * ps <= 2 * (smag * ps) + 2 * pm,
                smag * ps <= pow2(52) * ps,
                2 * pm <= pow2(53) * ps,
                pow2(53) == 2 * pow2(52),
                pow2(55) == 8 * pow2(52),
                ps >= 2,
        ;
        assert(sm * pow2(gg) <= pow2(55)) by (nonlinear_arith)
            requires
                (sm * pow2(gg)) * ps <= pow2(55) * ps,
                ps > 0,
        ;
    }
}

/// Rounding cannot climb above a multiple of the rounding step.
proof fn lemma_rhe_le_multiple(v: nat, k: nat, m: int)
    requires
        0 <= m,
        v <= m * pow2(k),
    ensures
        round_half_even(v, k) <= m,
{
    lemma_pow2_pos(k);
    assert(v <= pow2(k) * m) by (nonlinear_arith)
        requires
            v <= m * pow2(k),
    ;
    lemma_multiply_divide_le(v as int, pow2(k) as int, m);
    let q = v / pow2(k);
    if q == m {
        lemma_fundamental_div_mod(v as int, pow2(k) as int);
        lemma_mod_division_less_than_divisor(v as int, pow2(k) as int);
        assert(v % pow2(k) == 0) by (nonlinear_arith)
            requires
                v as int == pow2(k) * q + v % pow2(k),
                v <= m * pow2(k),
                q == m,
                v % pow2(k) >= 0,
        ;
    }
}

/// Rounding cannot fall below a multiple of the rounding step.
proof fn lemma_rhe_ge_multiple(v: nat, k: nat, m: int)
    requires
        0 <= m,
        m * pow2(k) <= v,
    ensures
        m <= round_half_even(v, k),
{
    lemma_pow2_pos(k);
    lemma_div_by_multiple(m, pow2(k) as int);
    vstd::arithmetic::div_mod::lemma_div_is_ordered(
        m * pow2(k) as int,
        v as int,
        pow2(k) as int,
    );
}

/// The rounded, truncated sum lies between any integer bounds whose
/// scaled values enclose the exact sum.
proof fn lemma_sum_trunc_between(
    start: int,
    negative: bool,
    pm: nat,
    shift: nat,
    lo: int,
    hi: int,
)
    requires
        lo <= start && start <= hi,
        -pow2(52) <= lo && hi <= pow2(52),
        lo * pow2(shift) <= start * pow2(shift) + (if negative {
            -(pm as int)
        } else {
            pm as int
        }),
        start * pow2(shift) + (if negative {
            -(pm as int)
        } else {
            pm as int
        }) <= hi * pow2(shift),
    ensures
        lo <= sum_trunc(start, negative, pm, shift),
        sum_trunc(start, negative, pm, shift) <= hi,
{
    lemma2_to64();
    lemma_pow2_pos(shift);
    let ps = pow2(shift) as int;
    if bit_len(abs(start)) + shift <= 110 {
        let sum = start * ps + (if negative {
            -(pm as int)
        } else {
            pm as int
        });
        if sum == 0 {
            assert(lo <= 0 && 0 <= hi) by (nonlinear_arith)
                requires
                    lo * ps <= 0,
                    0 <= hi * ps,
                    ps > 0,
            ;
        } else {
            let u = abs(sum);
            assert(u <= pow2(52) * ps) by (nonlinear_arith)
                requires
                    lo * ps <= sum && sum <= hi * ps,
                    -pow2(52) <= lo && hi <= pow2(52),
                    ps > 0,
                    u == abs(sum),
            ;
            lemma_pow2_adds(52, shift);
            lemma_pow2_strictly_increases(52 + shift, 53 + shift);
            lemma_bit_len_le(u, 53 + shift);
            let drop = if bit_len(u) > 53 {
                (bit_len(u) - 53) as nat
            } else {
                0
            };
            assert(drop <= shift);
            let sm = round_half_even(u, drop);
            let t = (shift - drop) as nat;
            lemma_pow2_adds(t, drop);
            lemma_pow2_pos(t);
            lemma_pow2_pos(drop);
            if sum > 0 {
                assert(1 <= hi) by (nonlinear_arith)
                    requires
                        sum <= hi * ps,
                        1 <= sum,
                        ps > 0,
                ;
                assert(u <= (hi * pow2(t)) * pow2(drop)) by (nonlinear_arith)
                    requires
                        u == sum,
                        sum <= hi * ps,
                        ps == pow2(t) * pow2(drop),
                ;
                lemma_rhe_le_multiple(u, drop, hi * pow2(t));
                if drop >= shift {
                    assert(sm * pow2(0) <= hi * pow2(0)) by (nonlinear_arith)
                        requires
                            sm <= hi * pow2(t),
                            t == 0,
                            pow2(0) == 1,
                    ;
                } else {
                    assert(sm as int <= pow2(t) * hi) by (nonlinear_arith)
                        requires
                            sm <= hi * pow2(t),
                    ;
                    lemma_multiply_divide_le(sm as int, pow2(t) as int, hi);
                }
                if lo >= 1 {
                    assert((lo * pow2(t)) * pow2(drop) <= u) by (nonlinear_arith)
                        requires
                            u == sum,
                            lo * ps <= sum,
                            ps == pow2(t) * pow2(drop),
                    ;
                    lemma_rhe_ge_multiple(u, drop, lo * pow2(t));
                    if drop >= shift {
                        assert(lo * pow2(t) == lo) by (nonlinear_arith)
                            requires
                                t == 0,
                                pow2(0) == 1,
                        ;
                    } else {
                        lemma_div_by_multiple(lo, pow2(t) as int);
                        vstd::arithmetic::div_mod::lemma_div_is_ordered(
                            lo * pow2(t) as int,
                            sm as int,
                            pow2(t) as int,
                        );
                    }
                } else {
                    assert(lo <= 0);
                    if drop < shift {
                        vstd::arithmetic::div_mod::lemma_div_pos_is_pos(
                            sm as int,
                            pow2(t) as int,
                        );
                    }
                }
            } else {
                assert(lo <= -1) by (nonlinear_arith)
                    requires
                        lo * ps <= sum,
                        sum <= -1,
                        ps > 0,
                ;
                assert(u <= ((-lo) * pow2(t)) * pow2(drop)) by (nonlinear_arith)
                    requires
                        u == -sum,
                        lo * ps <= sum,
                        ps == pow2(t) * pow2(drop),
                ;
                lemma_rhe_le_multiple(u, drop, (-lo) * pow2(t));
                if drop >= shift {
                    assert(sm <= -lo) by (nonlinear_arith)
                        requires
                            sm <= (-lo) * pow2(t),
                            t == 0,
                            pow2(0) == 1,
                    ;
                } else {
                    assert(sm as int <= pow2(t) * (-lo)) by (nonlinear_arith)
                        requires
                            sm <= (-lo) * pow2(t),
                    ;
                    lemma_multiply_divide_le(sm as int, pow2(t) as int, -lo);
                }
                if hi <= -1 {
                    assert(((-hi) * pow2(t)) * pow2(drop) <= u) by (nonlinear_arith)
                        requires
                            u == -sum,
                            sum <= hi * ps,
                            ps == pow2(t) * pow2(drop),
                    ;
                    lemma_rhe_ge_multiple(u, drop, (-hi) * pow2(t));
                    if drop >= shift {
                        assert((-hi) * pow2(t) == -hi) by (nonlinear_arith)
                            requires
                                t == 0,
                                pow2(0) == 1,
                        ;
                    } else {
                        lemma_div_by_multiple(-hi, pow2(t) as int);
                        vstd::arithmetic::div_mod::lemma_div_is_ordered(
                            (-hi) * pow2(t) as int,
                            sm as int,
                            pow2(t) as int,
                        );
                    }
                } else {
                    assert(0 <= hi);
                    if drop < shift {
                        vstd::arithmetic::div_mod::lemma_div_pos_is_pos(
                            sm as int,
                            pow2(t) as int,
                        );
                    }
                }
            }
        }
    }
}

/// A blended channel lies between its two endpoints: the scaled
/// difference never overshoots, so a result always fits wherever both
/// endpoints fit.
#[verifier::rlimit(100)]
pub proof fn lemma_blend_between(start: int, end: int, bits: u64)
    requires
        in_unit_interval(bits),
        -CHANNEL_LIMIT <= start && start <= CHANNEL_LIMIT,
        -CHANNEL_LIMIT <= end && end <= CHANNEL_LIMIT,
    ensures
        start <= end ==> start <= blend_spec(start, end, bits) && blend_spec(start, end, bits)
            <= end,
        end <= start ==> end <= blend_spec(start, end, bits) && blend_spec(start, end, bits)
            <= start,
{
    lemma2_to64();
    lemma2_to64_rest();
    if start == end {
        return ;
    }
    let b = bits;
    if b == POS_ZERO_BITS || b == NEG_ZERO_BITS {
        return ;
    }
    if b == ONE_BITS {
        return ;
    }
    let ef = exponent_field(b);
    let mf = mantissa_field(b);
    assert((b >> 52) & 0x7ff <= 0x7ffu64 && b & 0xf_ffff_ffff_ffff < 0x10_0000_0000_0000u64)
        by (bit_vector);
    assert((b >> 52) & 0x7ff != 0u64 || b & 0xf_ffff_ffff_ffff != 0u64) by (bit_vector)
        requires
            b != 0u64,
            b != 0x8000_0000_0000_0000u64,
    ;
    assert(sign_field(b) == 0);
    if ef == 0x3ff && mf == 0 {
        assert(b == 0x3FF0_0000_0000_0000u64) by (bit_vector)
            requires
                b >> 63 == 0u64,
                (b >> 52) & 0x7ff == 0x3ffu64,
                b & 0xf_ffff_ffff_ffff == 0u64,
        ;
    }
    assert(ef < 0x3ff);
    let negexp = (0 - binary_exponent(b)) as nat;
    assert(53 <= negexp && negexp <= 1074);
    let sg = significand(b);
    assert(1 <= sg && sg < pow2(53));
    assert(sg <= pow2(negexp)) by {
        if negexp > 53 {
            lemma_pow2_strictly_increases(53, negexp);
        }
    }
    let d = end - start;
    let dm = abs(d);
    assert(1 <= dm && dm <= pow2(53));
    let p = dm * sg;
    assert(pow2(106) == pow2(53) * pow2(53)) by {
        lemma_pow2_adds(53, 53);
    }
    assert(1 <= p && p < pow2(106)) by (nonlinear_arith)
        requires
            p == dm * sg,
            1 <= dm && dm <= pow2(53),
            1 <= sg && sg < pow2(53),
            pow2(106) == pow2(53) * pow2(53),
    ;
    lemma_bit_len_le(p, 106);
    let drop = if bit_len(p) > 53 {
        (bit_len(p) - 53) as nat
    } else {
        0
    };
    assert(drop <= 53);
    let shift = (negexp - drop) as nat;
    let pm = round_half_even(p, drop);
    assert(pow2(negexp) == pow2(shift) * pow2(drop)) by {
        lemma_pow2_adds(shift, drop);
    }
    assert(p <= (dm * pow2(shift)) * pow2(drop)) by (nonlinear_arith)
        requires
            p == dm * sg,
            sg <= pow2(negexp),
            pow2(negexp) == pow2(shift) * pow2(drop),
            dm >= 0,
    ;
    lemma_pow2_pos(shift);
    assert(dm * pow2(shift) >= 0) by (nonlinear_arith)
        requires
            dm >= 0,
            pow2(shift) > 0,
    ;
    lemma_pow2_pos(shift);
    lemma_rhe_le_multiple(p, drop, (dm * pow2(shift)) as int);
    let ps = pow2(shift) as int;
    let negative = end < start;
    let lo = if start <= end {
        start
    } else {
        end
    };
    let hi = if start <= end {
        end
    } else {
        start
    };
    assert(lo * ps <= start * ps + (if negative {
        -(pm as int)
    } else {
        pm as int
    }) <= hi * ps) by (nonlinear_arith)
        requires
            0 <= pm && pm <= dm * ps,
            dm == abs(end - start),
            negative == (end < start),
            lo == (if start <= end {
                start
            } else {
                end
            }),
            hi == (if start <= end {
                end
            } else {
                start
            }),
            ps > 0,
    ;
    assert(blend_spec(start, end, bits) == sum_trunc(start, negative, pm, shift));
    lemma_sum_trunc_between(start, negative, pm, shift, lo, hi);
}

/// The executable half of [`sum_trunc`]: adds the rounded product to the
/// start channel with one more rounding step and truncates toward zero.
#[verifier::rlimit(100)]
fn sum_round_trunc(start: i64, neg: bool, pm: u64, shift: u64) -> (r: i64)
    requires
        -CHANNEL_LIMIT <= start && start <= CHANNEL_LIMIT,
        pm <= 0x20_0000_0000_0000u64,
    ensures
        r as int == sum_trunc(start as int, neg, pm as nat, shift as nat),
{
    let smag: u64 = if start < 0 {
        (-(start as i128)) as u64
    } else {
        start as u64
    };
    let bls: u64 = bit_len_u128(smag as u128);
    proof {
        lemma2_to64();
        lemma2_to64_rest();
        assert(smag as nat == abs(start as int));
        lemma_pow2_strictly_increases(52, 53);
        lemma_bit_len_le(smag as nat, 53);
    }
    if shift <= 110 && bls + shift <= 110 {
        let pw: u128 = pow2_u128(shift);
        proof {
            lemma_pow2_large();
            lemma_pow2_pos(shift as nat);
            if shift < 110 {
                lemma_pow2_strictly_increases(shift as nat, 110);
            }
            assert(pw as nat <= pow2(110));
            if smag > 0 {
                lemma_bit_len_bounds(smag as nat);
                lemma_mul_strict_inequality(smag as int, pow2(bls as nat) as int, pw as int);
                lemma_pow2_adds(bls as nat, shift as nat);
                if (bls + shift) < 110 {
                    lemma_pow2_strictly_increases((bls + shift) as nat, 110);
                }
            } else {
                assert((smag as int) * (pw as int) == 0) by (nonlinear_arith)
                    requires
                        smag == 0u64,
                ;
            }
            assert((smag as int) * (pw as int) <= pow2(110));
            assert(-(pow2(110) as int) <= (start as int) * (pw as int) && (start as int) * (pw
                as int) <= pow2(110) as int) by (nonlinear_arith)
                requires
                    (smag as int) * (pw as int) <= pow2(110) as int,
                    -(smag as int) <= start as int && start as int <= smag as int,
                    pw as int >= 0,
            ;
        }
        let ss: i128 = (start as i128) * (pw as i128);
        let sum: i128 = if neg {
            ss - pm as i128
        } else {
            ss + pm as i128
        };
        proof {
            assert(ss as int == (start as int) * (pow2(shift as nat) as int));
            assert(sum as int == (start as int) * pow2(shift as nat) + (if neg {
                -(pm as int)
            } else {
                pm as int
            }));
        }
        if sum == 0 {
            return 0;
        }
        let su: u128 = if sum < 0 {
            (-sum) as u128
        } else {
            sum as u128
        };
        proof {
            assert(su as nat == abs(sum as int));
            assert(su < 0x8000000000000000000000000000u128);
            lemma_pow2_large();
            lemma_bit_len_le(su as nat, 111);
            lemma_bit_len_bounds(su as nat);
        }
        let l2: u64 = bit_len_u128(su);
        let drop2: u64 = if l2 > 53 {
            l2 - 53
        } else {
            0
        };
        let sm128: u128 = round_half_even_u128(su, drop2);
        proof {
            lemma2_to64_rest();
            lemma_rhe_small(su as nat, drop2 as nat, l2 as nat);
            assert(sm128 <= 0x20_0000_0000_0000u128);
            if drop2 > 0 {
                assert(pow2(drop2 as nat) <= pow2((l2 - 1) as nat)) by {
                    if drop2 < l2 - 1 {
                        lemma_pow2_strictly_increases(drop2 as nat, (l2 - 1) as nat);
                    }
                }
                assert(pow2((l2 - 1) as nat) <= su as nat);
            }
            lemma_rhe_scaled_bound(su as nat, drop2 as nat);
            assert((sm128 as nat) * pow2(drop2 as nat) <= 2 * (su as nat));
            assert(su as int <= (smag as int) * (pw as int) + pm as int) by (nonlinear_arith)
                requires
                    su as int == abs(sum as int),
                    sum as int == (start as int) * (pw as int) + (if neg {
                        -(pm as int)
                    } else {
                        pm as int
                    }),
                    -(smag as int) <= start as int && start as int <= smag as int,
                    pw as int >= 0,
                    pm >= 0,
            ;
        }
        let mag: u128 = if drop2 >= shift {
            let gg: u64 = drop2 - shift;
            proof {
                lemma2_to64_rest();
                assert((smag as nat) <= pow2(52));
                lemma_mag_bound(
                    sm128 as nat,
                    drop2 as nat,
                    shift as nat,
                    su as nat,
                    smag as nat,
                    pm as nat,
                );
                assert((sm128 as nat) * pow2(gg as nat) <= pow2(55));
            }
            sm128 * pow2_u128(gg)
        } else {
            let gneg: u64 = shift - drop2;
            if gneg >= 54 {
                proof {
                    lemma2_to64_rest();
                    if 54 < gneg {
                        lemma_pow2_strictly_increases(54, gneg as nat);
                    }
                    lemma_pow2_strictly_increases(53, 54);
                    lemma_basic_div(sm128 as int, pow2(gneg as nat) as int);
                    assert((sm128 as nat) / pow2(gneg as nat) == 0);
                }
                0
            } else {
                proof {
                    lemma_pow2_pos(gneg as nat);
                    vstd::arithmetic::div_mod::lemma_div_nonincreasing(
                        sm128 as int,
                        pow2(gneg as nat) as int,
                    );
                }
                sm128 / pow2_u128(gneg)
            }
        };
        proof {
            lemma2_to64_rest();
            assert(mag <= 0x80_0000_0000_0000u128);
        }
        let magi: i64 = mag as i64;
        if sum > 0 {
            magi
        } else {
            -magi
        }
    } else {
        start
    }
}

/// Blends one channel toward another at the fraction, with exact integer
/// arithmetic on the binary64 fields.
#[verifier::rlimit(100)]
pub fn scale_channel(start: i64, end: i64, fraction: Fraction) -> (r: i64)
    requires
        in_unit_interval(fraction.bits),
        -CHANNEL_LIMIT <= start && start <= CHANNEL_LIMIT,
        -CHANNEL_LIMIT <= end && end <= CHANNEL_LIMIT,
    ensures
        r as int == blend_spec(start as int, end as int, fraction.bits),
        start <= end ==> start <= r && r <= end,
        end <= start ==> end <= r && r <= start,
{
    proof {
        lemma_blend_between(start as int, end as int, fraction.bits);
    }
    if start == end {
        return start;
    }
    let b: u64 = fraction.bits;
    if b == POS_ZERO_BITS || b == NEG_ZERO_BITS {
        return start;
    }
    if b == ONE_BITS {
        return end;
    }
    let ef: u64 = (b >> 52) & 0x7ff;
    let mf: u64 = b & 0xf_ffff_ffff_ffff;
    proof {
        lemma2_to64();
        lemma2_to64_rest();
        assert(ef <= 0x7ffu64 && mf <= 0xf_ffff_ffff_ffffu64) by (bit_vector)
            requires
                ef == (b >> 52) & 0x7ff,
                mf == b & 0xf_ffff_ffff_ffff,
        ;
        assert(ef != 0u64 || mf != 0u64) by (bit_vector)
            requires
                ef == (b >> 52) & 0x7ff,
                mf == b & 0xf_ffff_ffff_ffff,
                b != 0u64,
                b != 0x8000_0000_0000_0000u64,
        ;
        assert(sign_field(b) == 0);
        if ef == 0x3ff && mf == 0 {
            assert(b == 0x3FF0_0000_0000_0000u64) by (bit_vector)
                requires
                    b >> 63 == 0u64,
                    (b >> 52) & 0x7ff == 0x3ffu64,
                    b & 0xf_ffff_ffff_ffff == 0u64,
            ;
        }
        assert(ef < 0x3ff);
    }
    let sig: u64 = if ef == 0 {
        mf
    } else {
        mf + 0x10_0000_0000_0000
    };
    let negexp: u64 = if ef == 0 {
        1074
    } else {
        1075 - ef
    };
    proof {
        assert(sig as nat == significand(b));
        assert(1 <= sig && sig < 0x20_0000_0000_0000u64);
        assert(53 <= negexp && negexp <= 1074);
        assert(binary_exponent(b) == -(negexp as int));
    }
    let d_wide: i128 = end as i128 - start as i128;
    let neg: bool = d_wide < 0;
    let dmag: u64 = if neg {
        (-d_wide) as u64
    } else {
        d_wide as u64
    };
    proof {
        assert(dmag as nat == abs(end as int - start as int));
        assert(1 <= dmag && dmag <= 0x20_0000_0000_0000u64);
        assert((dmag as int) * (sig as int) < 0x400000000000000000000000000) by (nonlinear_arith)
            requires
                dmag <= 0x20_0000_0000_0000u64,
                sig < 0x20_0000_0000_0000u64,
        ;
        assert((dmag as int) * (sig as int) >= 1) by (nonlinear_arith)
            requires
                dmag >= 1u64,
                sig >= 1u64,
        ;
        lemma_pow2_large();
    }
    let p: u128 = (dmag as u128) * (sig as u128);
    let lp: u64 = bit_len_u128(p);
    proof {
        lemma_bit_len_le(p as nat, 106);
        lemma_bit_len_bounds(p as nat);
    }
    let drop: u64 = if lp > 53 {
        lp - 53
    } else {
        0
    };
    let pm128: u128 = round_half_even_u128(p, drop);
    proof {
        lemma2_to64_rest();
        lemma_rhe_small(p as nat, drop as nat, lp as nat);
        assert(pm128 <= 0x20_0000_0000_0000u128);
    }
    let pm: u64 = pm128 as u64;
    let shift: u64 = negexp - drop;
    proof {
        assert(shift as nat == (0 - (binary_exponent(b) + drop as int)) as nat);
        assert(blend_spec(start as int, end as int, b) == sum_trunc(
            start as int,
            (end as int) < (start as int),
            pm as nat,
            shift as nat,
        ));
        assert(neg == ((end as int) < (start as int)));
    }
    sum_round_trunc(start, neg, pm, shift)
}

} // verus!
