//! Natural logarithm over the positive integers in fixed-point arithmetic.
//!
//! Scores are kept in micro-units (millionths). `ln_micro(x)` approximates
//! `ln(x) * 1_000_000` by first computing the base-2 logarithm of `x` with 32
//! fractional bits — integer part by repeated halving, fractional part by the
//! classic squaring method — and then rescaling by `ln(2) * 1_000_000`.

use vstd::prelude::*;
use vstd::arithmetic::power2::{pow2, lemma_pow2_adds, lemma_pow2_pos, lemma_pow2_strictly_increases, lemma_pow2_unfold, lemma2_to64};
use vstd::arithmetic::div_mod::{lemma_div_denominator, lemma_div_multiples_vanish, lemma_div_is_ordered, lemma_multiply_divide_lt, lemma_div_by_multiple_is_strongly_ordered, lemma_div_is_ordered_by_denominator};
use vstd::arithmetic::mul::{lemma_mul_inequality, lemma_mul_is_distributive_add_other_way, lemma_mul_strict_inequality, lemma_mul_is_associative};

verus! {

/// One unit of score, in micro-units.
pub const SCALE: u64 = 1_000_000;

/// ln(2) in micro-units, rounded down.
pub const LN2_MICRO: u64 = 693147;

/// Largest value `ln_micro` can take on a 128-bit argument (below 128 ln 2).
pub const LN_MICRO_MAX: u64 = 88722816;

/// floor(log2(x)) for x >= 1 (and 0 for x == 0).
pub open spec fn floor_log2(x: nat) -> nat
    decreases x,
{
    if x < 2 {
        0
    } else {
        1 + floor_log2((x / 2) as nat)
    }
}

/// The first `n` fractional bits of log2(y / 2^32), as an `n`-bit integer,
/// for `y` in [2^32, 2^33): square, compare against 2^33, shift.
pub open spec fn log2_frac_bits(y: nat, n: nat) -> nat
    decreases n,
{
    if n == 0 {
        0
    } else {
        let sq = (y * y) / 0x1_0000_0000;
        if sq >= 0x2_0000_0000 {
            pow2((n - 1) as nat) + log2_frac_bits(sq / 2, (n - 1) as nat)
        } else {
            log2_frac_bits(sq, (n - 1) as nat)
        }
    }
}

/// log2(x) in 2^32 fixed point, for x >= 1.
pub open spec fn log2_fixed(x: nat) -> nat {
    let k = floor_log2(x);
    let y = (x * 0x1_0000_0000) / pow2(k);
    k * 0x1_0000_0000 + log2_frac_bits(y, 32)
}

/// ln(x) in micro-units, for x >= 1; ln_micro(1) == 0.
pub open spec fn ln_micro(x: nat) -> nat {
    (log2_fixed(x) * (LN2_MICRO as nat)) / 0x1_0000_0000
}

/// 2^(floor log2 x) <= x < 2^(floor log2 x + 1) for x >= 1.
pub proof fn lemma_floor_log2_bounds(x: nat)
    requires
        x >= 1,
    ensures
        pow2(floor_log2(x)) <= x,
        x < pow2(floor_log2(x) + 1),
    decreases x,
{
    if x < 2 {
        lemma2_to64();
    } else {
        let h = (x / 2) as nat;
        lemma_floor_log2_bounds(h);
        let k = floor_log2(h);
        lemma_pow2_unfold(k + 1);
        lemma_pow2_unfold(k + 2);
        assert(pow2(k + 1) == 2 * pow2(k));
        assert(pow2(k + 2) == 2 * pow2(k + 1));
        assert(x >= 2 * h);
        assert(x <= 2 * h + 1);
        assert(2 * pow2(k) <= 2 * h);
        assert(x < 2 * pow2(k + 1));
    }
}

/// floor_log2 never exceeds 127 on 128-bit values.
pub proof fn lemma_floor_log2_u128(x: nat)
    requires
        1 <= x < 0x1_0000_0000_0000_0000_0000_0000_0000_0000,
    ensures
        floor_log2(x) <= 127,
{
    lemma_floor_log2_bounds(x);
    if floor_log2(x) > 127 {
        lemma2_to64();
        assert(pow2(128) == 0x1_0000_0000_0000_0000_0000_0000_0000_0000) by {
            lemma_pow2_adds(32, 32);
            lemma_pow2_adds(64, 64);
            lemma2_to64();
        }
        lemma_pow2_strictly_increases(128, floor_log2(x));
        assert(false);
    }
}

/// The fractional part fits in n bits.
pub proof fn lemma_frac_bits_bound(y: nat, n: nat)
    ensures
        log2_frac_bits(y, n) < pow2(n),
    decreases n,
{
    if n == 0 {
        lemma2_to64();
    } else {
        let sq = (y * y) / 0x1_0000_0000;
        lemma_pow2_unfold(n);
        if sq >= 0x2_0000_0000 {
            lemma_frac_bits_bound((sq / 2) as nat, (n - 1) as nat);
        } else {
            lemma_frac_bits_bound(sq, (n - 1) as nat);
            lemma_pow2_pos((n - 1) as nat);
        }
    }
}

/// 2^e as a machine word.
pub fn pow2_u128(e: u32) -> (r: u128)
    requires
        e <= 127,
    ensures
        r as nat == pow2(e as nat),
        r >= 1,
{
    let mut r: u128 = 1;
    let mut i: u32 = 0;
    proof {
        lemma2_to64();
    }
    while i < e
        invariant
            i <= e <= 127,
            r as nat == pow2(i as nat),
        decreases e - i,
    {
        proof {
            lemma_pow2_unfold(i as nat + 1);
            if i as nat + 1 < 127 {
                lemma_pow2_strictly_increases(i as nat + 1, 127);
            }
            assert(pow2(127) == 0x8000_0000_0000_0000_0000_0000_0000_0000) by {
                lemma_pow2_adds(32, 32);
                lemma_pow2_adds(64, 63);
                lemma_pow2_adds(32, 31);
                lemma2_to64();
            }
        }
        r = r * 2;
        i += 1;
    }
    proof {
        lemma_pow2_pos(e as nat);
    }
    r
}

/// floor(log2(x)) as a machine word.
pub fn floor_log2_u128(x: u128) -> (r: u32)
    requires
        x >= 1,
    ensures
        r as nat == floor_log2(x as nat),
        r <= 127,
{
    let mut v: u128 = x;
    let mut k: u32 = 0;
    while v >= 2
        invariant
            v >= 1,
            floor_log2(x as nat) == k + floor_log2(v as nat),
            k <= 128,
        decreases v,
    {
        v = v / 2;
        k += 1;
        proof {
            lemma_floor_log2_u128(x as nat);
        }
    }
    proof {
        lemma_floor_log2_u128(x as nat);
    }
    k
}


/// ln(x) in micro-units.
pub fn ln_micro_u128(x: u128) -> (r: u64)
    requires
        x >= 1,
    ensures
        r as nat == ln_micro(x as nat),
        r <= LN_MICRO_MAX,
{
    let k = floor_log2_u128(x);
    proof {
        lemma_floor_log2_bounds(x as nat);
        lemma_pow2_pos(k as nat);
        lemma2_to64();
        assert(pow2(33) == 0x2_0000_0000) by {
            lemma_pow2_adds(32, 1);
            lemma2_to64();
        }
    }
    let y0: u128 = if k <= 32 {
        let p = pow2_u128(32 - k);
        proof {
            lemma_pow2_adds(k as nat, (32 - k) as nat);
            lemma_pow2_adds(k as nat + 1, (32 - k) as nat);
            // upper bound: x * p < pow2(k+1) * p == pow2(33)
            lemma_mul_strict_inequality(x as int, pow2(k as nat + 1) as int, p as int);
            // lower bound: pow2(k) * p <= x * p, and pow2(k) * p == pow2(32)
            lemma_mul_inequality(pow2(k as nat) as int, x as int, p as int);
            // equality with the spec: (x * 2^32) / 2^k == x * p
            assert((x as int) * 0x1_0000_0000 == pow2(k as nat) * ((x as int) * (p as int))) by {
                lemma_mul_is_associative(x as int, p as int, pow2(k as nat) as int);
                lemma_mul_is_associative(pow2(k as nat) as int, x as int, p as int);
                vstd::arithmetic::mul::lemma_mul_is_commutative(p as int, pow2(k as nat) as int);
                vstd::arithmetic::mul::lemma_mul_is_commutative(pow2(k as nat) as int, (x as int) * (p as int));
            }
            lemma_div_multiples_vanish((x as int) * (p as int), pow2(k as nat) as int);
        }
        x * p
    } else {
        let p = pow2_u128(k - 32);
        proof {
            lemma_pow2_adds((k - 32) as nat, 32);
            // pow2(k) == p * 2^32
            assert(pow2(k as nat) == (p as int) * 0x1_0000_0000);
            // equality with the spec: (x * 2^32) / pow2(k) == x / p
            lemma_div_denominator((x as int) * 0x1_0000_0000, 0x1_0000_0000, p as int);
            assert((x as int) * 0x1_0000_0000 == 0x1_0000_0000 * (x as int)) by {
                vstd::arithmetic::mul::lemma_mul_is_commutative(x as int, 0x1_0000_0000);
            }
            lemma_div_multiples_vanish(x as int, 0x1_0000_0000);
            assert(((x as int) * 0x1_0000_0000) / (0x1_0000_0000 * (p as int)) == (x as int) / (p as int));
            assert(0x1_0000_0000 * (p as int) == pow2(k as nat)) by {
                vstd::arithmetic::mul::lemma_mul_is_commutative(p as int, 0x1_0000_0000);
            }
            // lower bound: x >= pow2(k) ==> x / p >= 2^32
            lemma_div_is_ordered(pow2(k as nat) as int, x as int, p as int);
            lemma_div_multiples_vanish(0x1_0000_0000, p as int);
            assert(pow2(k as nat) as int / (p as int) == 0x1_0000_0000);
            // upper bound: x < pow2(k+1) == p * 2^33 ==> x / p < 2^33
            assert(pow2(k as nat + 1) == (p as int) * 0x2_0000_0000) by {
                lemma_pow2_adds((k - 32) as nat, 33);
                lemma_pow2_adds(32, 1);
                lemma2_to64();
            }
            lemma_multiply_divide_lt(x as int, p as int, 0x2_0000_0000);
        }
        x / p
    };
    assert(y0 as nat == (x as nat * 0x1_0000_0000) / pow2(floor_log2(x as nat)));
    assert(0x1_0000_0000 <= y0 < 0x2_0000_0000);

    let mut y: u64 = y0 as u64;
    let mut acc: u64 = 0;
    let mut i: u64 = 0;
    while i < 32
        invariant
            i <= 32,
            0x1_0000_0000 <= y < 0x2_0000_0000,
            acc < pow2(i as nat),
            log2_frac_bits(y0 as nat, 32) == acc * pow2((32 - i) as nat) + log2_frac_bits(
                y as nat,
                (32 - i) as nat,
            ),
            y0 < 0x2_0000_0000,
        decreases 32 - i,
    {
        proof {
            // no overflow in y * y, and the square stays in range
            lemma_mul_strict_inequality(y as int, 0x2_0000_0000, y as int);
            lemma_mul_strict_inequality(y as int, 0x2_0000_0000, 0x2_0000_0000);
            vstd::arithmetic::mul::lemma_mul_is_commutative(y as int, 0x2_0000_0000);
            assert((y as int) * (y as int) < 0x2_0000_0000 * 0x2_0000_0000);
            lemma_mul_inequality(0x1_0000_0000, y as int, 0x1_0000_0000);
            lemma_mul_inequality(0x1_0000_0000, y as int, y as int);
            vstd::arithmetic::mul::lemma_mul_is_commutative(y as int, 0x1_0000_0000);
            assert(0x1_0000_0000 * 0x1_0000_0000 <= (y as int) * (y as int));
        }
        let sq: u128 = ((y as u128) * (y as u128)) / 0x1_0000_0000;
        proof {
            lemma_div_is_ordered((0x1_0000_0000 * 0x1_0000_0000) as int, (y as int) * (y as int), 0x1_0000_0000);
            lemma_multiply_divide_lt((y as int) * (y as int), 0x1_0000_0000, 0x4_0000_0000);
        }
        assert(0x1_0000_0000 <= sq < 0x4_0000_0000);
        let ghost n = (32 - i) as nat;
        let ghost rest = log2_frac_bits(y as nat, n);
        proof {
            lemma_frac_bits_bound(y as nat, n);
            lemma_pow2_unfold(n);
            lemma_pow2_unfold(i as nat + 1);
            if (i as nat) < 32 {
                lemma_pow2_strictly_increases(i as nat, 32);
            }
            lemma2_to64();
            assert(acc < 0x1_0000_0000);
        }
        if sq >= 0x2_0000_0000 {
            proof {
                assert(rest == pow2((n - 1) as nat) + log2_frac_bits(
                    ((y as nat * y as nat) / 0x1_0000_0000) / 2,
                    (n - 1) as nat,
                ));
                assert(acc * pow2(n) == (acc * 2) * pow2((n - 1) as nat)) by {
                    lemma_mul_is_associative(acc as int, 2, pow2((n - 1) as nat) as int);
                }
                assert((acc * 2) * pow2((n - 1) as nat) + pow2((n - 1) as nat) == (acc * 2 + 1) * pow2((n - 1) as nat)) by {
                    lemma_mul_is_distributive_add_other_way(pow2((n - 1) as nat) as int, (acc * 2) as int, 1);
                }
            }
            y = (sq / 2) as u64;
            acc = acc * 2 + 1;
        } else {
            proof {
                assert(rest == log2_frac_bits((y as nat * y as nat) / 0x1_0000_0000, (n - 1) as nat));
                assert(acc * pow2(n) == (acc * 2) * pow2((n - 1) as nat)) by {
                    lemma_mul_is_associative(acc as int, 2, pow2((n - 1) as nat) as int);
                }
            }
            y = sq as u64;
            acc = acc * 2;
        }
        i += 1;
    }
    proof {
        lemma2_to64();
        assert(log2_frac_bits(y0 as nat, 32) == acc * pow2(0) + log2_frac_bits(y as nat, 0));
        assert(log2_frac_bits(y0 as nat, 32) == acc);
        lemma_frac_bits_bound(y0 as nat, 32);
        assert(pow2(32) == 0x1_0000_0000);
    }
    let lg: u64 = (k as u64) * 0x1_0000_0000 + acc;
    assert(lg as nat == log2_fixed(x as nat));
    proof {
        assert(lg as nat <= 127 * 0x1_0000_0000 + 0xffff_ffff);
        lemma_mul_inequality(lg as int, (127 * 0x1_0000_0000 + 0xffff_ffff) as int, LN2_MICRO as int);
    }
    let r: u64 = (lg * LN2_MICRO) / 0x1_0000_0000;
    proof {
        lemma_div_is_ordered((lg as int) * (LN2_MICRO as int), ((127 * 0x1_0000_0000 + 0xffff_ffff) as int) * (LN2_MICRO as int), 0x1_0000_0000);
    }
    r
}

/// floor_log2 is monotone.
proof fn lemma_floor_log2_mono(a: nat, b: nat)
    requires
        a <= b,
    ensures
        floor_log2(a) <= floor_log2(b),
    decreases a,
{
    if a < 2 {
    } else {
        lemma_div_is_ordered(a as int, b as int, 2);
        lemma_floor_log2_mono((a / 2) as nat, (b / 2) as nat);
    }
}

/// The fractional bits are monotone in the normalized mantissa.
proof fn lemma_frac_bits_mono(y1: nat, y2: nat, n: nat)
    requires
        y1 <= y2,
    ensures
        log2_frac_bits(y1, n) <= log2_frac_bits(y2, n),
    decreases n,
{
    if n == 0 {
    } else {
        let sq1 = (y1 * y1) / 0x1_0000_0000;
        let sq2 = (y2 * y2) / 0x1_0000_0000;
        assert(y1 * y1 <= y2 * y2) by {
            lemma_mul_inequality(y1 as int, y2 as int, y1 as int);
            lemma_mul_inequality(y1 as int, y2 as int, y2 as int);
            vstd::arithmetic::mul::lemma_mul_is_commutative(y1 as int, y2 as int);
        }
        lemma_div_is_ordered((y1 * y1) as int, (y2 * y2) as int, 0x1_0000_0000);
        if sq1 >= 0x2_0000_0000 {
            lemma_div_is_ordered(sq1 as int, sq2 as int, 2);
            lemma_frac_bits_mono((sq1 / 2) as nat, (sq2 / 2) as nat, (n - 1) as nat);
        } else if sq2 >= 0x2_0000_0000 {
            lemma_frac_bits_bound(sq1, (n - 1) as nat);
        } else {
            lemma_frac_bits_mono(sq1, sq2, (n - 1) as nat);
        }
    }
}

/// The fixed-point logarithm is monotone: a larger argument never gets a
/// smaller value.
pub proof fn lemma_ln_micro_mono(a: nat, b: nat)
    requires
        1 <= a <= b,
    ensures
        ln_micro(a) <= ln_micro(b),
{
    let ka = floor_log2(a);
    let kb = floor_log2(b);
    lemma_floor_log2_mono(a, b);
    lemma_pow2_pos(ka);
    lemma_pow2_pos(kb);
    let ya = (a * 0x1_0000_0000) / pow2(ka);
    let yb = (b * 0x1_0000_0000) / pow2(kb);
    if ka == kb {
        assert(a * 0x1_0000_0000 <= b * 0x1_0000_0000) by {
            lemma_mul_inequality(a as int, b as int, 0x1_0000_0000);
        }
        lemma_div_is_ordered((a * 0x1_0000_0000) as int, (b * 0x1_0000_0000) as int, pow2(ka) as int);
        lemma_frac_bits_mono(ya, yb, 32);
    } else {
        lemma_frac_bits_bound(ya, 32);
        lemma2_to64();
        assert(pow2(32) == 0x1_0000_0000);
        assert(ka * 0x1_0000_0000 + log2_frac_bits(ya, 32) < (ka + 1) * 0x1_0000_0000) by {
            lemma_mul_is_distributive_add_other_way(0x1_0000_0000, ka as int, 1);
        }
        assert((ka + 1) * 0x1_0000_0000 <= kb * 0x1_0000_0000) by {
            lemma_mul_inequality((ka + 1) as int, kb as int, 0x1_0000_0000);
        }
    }
    assert(log2_fixed(a) <= log2_fixed(b));
    lemma_mul_inequality(log2_fixed(a) as int, log2_fixed(b) as int, LN2_MICRO as int);
    lemma_div_is_ordered((log2_fixed(a) * (LN2_MICRO as nat)) as int, (log2_fixed(b) * (LN2_MICRO as nat)) as int, 0x1_0000_0000);
}

} // verus!
