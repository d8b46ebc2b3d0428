//! Fixed-point arithmetic for the engine.
//!
//! Amplitudes (gains, envelopes, decoded samples) are Q24: the integer
//! `1 << 24` stands for full scale 1.0.  Playback positions and pitch
//! ratios are Q32: `1 << 32` stands for one source frame.

use vstd::prelude::*;
use vstd::arithmetic::power2::pow2;

verus! {

/// Full scale (1.0) in Q24 amplitude fixed point.
pub const Q24_ONE: u32 = 0x0100_0000;

/// One frame (1.0) in Q32 position fixed point.
pub const Q32_ONE: u64 = 0x1_0000_0000;

/// Largest playback increment the engine accepts, in Q32:
/// 65536 source frames per output frame.
pub const INC_MAX: u64 = 0x1_0000_0000_0000;

/// Millicents in one octave.
pub const OCTAVE_MC: i64 = 1_200_000;

/// Euclidean division of `x` by a positive divisor: the floor of the
/// real quotient, as the specification-level `/` computes it.
pub fn floor_div(x: i128, d: i128) -> (r: i128)
    requires
        d > 0,
    ensures
        r == x as int / d as int,
{
    proof {
        lemma_floor_div_in_range(x as int, d as int);
    }
    match x.checked_div_euclid(d) {
        Some(q) => q,
        None => {
            proof {
                assert(false);
            }
            0
        },
    }
}

proof fn lemma_floor_div_in_range(x: int, d: int)
    requires
        i128::MIN <= x <= i128::MAX,
        d > 0,
    ensures
        i128::MIN <= x / d <= i128::MAX,
        x <= 0 ==> x <= x / d <= 0,
        x >= 0 ==> 0 <= x / d <= x,
{
    if x >= 0 {
        vstd::arithmetic::div_mod::lemma_div_is_ordered(0, x, d);
        vstd::arithmetic::div_mod::lemma_div_nonincreasing(x, d);
    } else {
        vstd::arithmetic::div_mod::lemma_div_is_ordered(x, 0, d);
        // The floor of x/d cannot lie below x itself when d >= 1.
        let q = x / d;
        let r = x % d;
        vstd::arithmetic::div_mod::lemma_fundamental_div_mod(x, d);
        vstd::arithmetic::div_mod::lemma_mod_bound(x, d);
        assert(q >= x) by (nonlinear_arith)
            requires
                x <= 0,
                d >= 1,
                x == d * q + r,
                0 <= r < d,
        ;
    }
}

/// The Q32 image of `2^(1 / 2^(i+1))`, rounded to nearest, for `i` in
/// `0 .. 32`.  These drive the binary-exponentiation step that turns a
/// fractional octave into a pitch ratio.
pub open spec fn pow2_frac_const(i: int) -> u64 {
    if i == 0 { 6074001000u64 }
    else if i == 1 { 5107605667u64 }
    else if i == 2 { 4683695048u64 }
    else if i == 3 { 4485121744u64 }
    else if i == 4 { 4389014833u64 }
    else if i == 5 { 4341736423u64 }
    else if i == 6 { 4318288544u64 }
    else if i == 7 { 4306612134u64 }
    else if i == 8 { 4300785774u64 }
    else if i == 9 { 4297875550u64 }
    else if i == 10 { 4296421177u64 }
    else if i == 11 { 4295694175u64 }
    else if i == 12 { 4295330720u64 }
    else if i == 13 { 4295149004u64 }
    else if i == 14 { 4295058149u64 }
    else if i == 15 { 4295012722u64 }
    else if i == 16 { 4294990009u64 }
    else if i == 17 { 4294978653u64 }
    else if i == 18 { 4294972974u64 }
    else if i == 19 { 4294970135u64 }
    else if i == 20 { 4294968716u64 }
    else if i == 21 { 4294968006u64 }
    else if i == 22 { 4294967651u64 }
    else if i == 23 { 4294967473u64 }
    else if i == 24 { 4294967385u64 }
    else if i == 25 { 4294967340u64 }
    else if i == 26 { 4294967318u64 }
    else if i == 27 { 4294967307u64 }
    else if i == 28 { 4294967302u64 }
    else if i == 29 { 4294967299u64 }
    else if i == 30 { 4294967297u64 }
    else { 4294967297u64 }
}

/// Executable table lookup matching `pow2_frac_const`.
fn pow2_frac_const_at(i: usize) -> (c: u64)
    requires
        i < 32,
    ensures
        c == pow2_frac_const(i as int),
{
    if i == 0 { 6074001000u64 }
    else if i == 1 { 5107605667u64 }
    else if i == 2 { 4683695048u64 }
    else if i == 3 { 4485121744u64 }
    else if i == 4 { 4389014833u64 }
    else if i == 5 { 4341736423u64 }
    else if i == 6 { 4318288544u64 }
    else if i == 7 { 4306612134u64 }
    else if i == 8 { 4300785774u64 }
    else if i == 9 { 4297875550u64 }
    else if i == 10 { 4296421177u64 }
    else if i == 11 { 4295694175u64 }
    else if i == 12 { 4295330720u64 }
    else if i == 13 { 4295149004u64 }
    else if i == 14 { 4295058149u64 }
    else if i == 15 { 4295012722u64 }
    else if i == 16 { 4294990009u64 }
    else if i == 17 { 4294978653u64 }
    else if i == 18 { 4294972974u64 }
    else if i == 19 { 4294970135u64 }
    else if i == 20 { 4294968716u64 }
    else if i == 21 { 4294968006u64 }
    else if i == 22 { 4294967651u64 }
    else if i == 23 { 4294967473u64 }
    else if i == 24 { 4294967385u64 }
    else if i == 25 { 4294967340u64 }
    else if i == 26 { 4294967318u64 }
    else if i == 27 { 4294967307u64 }
    else if i == 28 { 4294967302u64 }
    else if i == 29 { 4294967299u64 }
    else if i == 30 { 4294967297u64 }
    else { 4294967297u64 }
}

/// One step of the fractional-power product: multiply in the `i`-th
/// constant when bit `31 - i` of the Q32 fraction is set.  The product
/// is clamped at just under `2^33`; mathematically the product never
/// reaches that bound, so the clamp only closes the argument.
pub open spec fn pow2_frac_step(f: u64, i: int, res: int) -> int {
    if (f >> ((31 - i) as u64)) & 1u64 == 1u64 {
        let m = (res * pow2_frac_const(i)) / 0x1_0000_0000;
        if m > 0x1_FFFF_FFFF { 0x1_FFFF_FFFF as int } else { m }
    } else {
        res
    }
}

/// Fold of `pow2_frac_step` over bits `i .. 32`.
pub open spec fn pow2_frac_rec(f: u64, i: int, res: int) -> int
    decreases 32 - i,
{
    if i < 0 || i >= 32 {
        res
    } else {
        pow2_frac_rec(f, i + 1, pow2_frac_step(f, i, res))
    }
}

/// `2^(f / 2^32)` in Q32, for a fraction `f` read from its top 32 bits.
pub open spec fn spec_pow2_frac(f: u64) -> int {
    pow2_frac_rec(f, 0, 0x1_0000_0000)
}

proof fn lemma_pow2_frac_step_bounds(f: u64, i: int, res: int)
    requires
        0x1_0000_0000 <= res <= 0x1_FFFF_FFFF,
        0 <= i < 32,
    ensures
        0x1_0000_0000 <= pow2_frac_step(f, i, res) <= 0x1_FFFF_FFFF,
{
    let c = pow2_frac_const(i) as int;
    assert(c > 0x1_0000_0000);
    assert(res * c >= res * 0x1_0000_0000) by (nonlinear_arith)
        requires
            res >= 0,
            c >= 0x1_0000_0000,
    ;
    assert(res * 0x1_0000_0000 / 0x1_0000_0000 == res) by (nonlinear_arith);
    vstd::arithmetic::div_mod::lemma_div_is_ordered(
        res * 0x1_0000_0000,
        res * c,
        0x1_0000_0000,
    );
}

/// Raise 2 to the fraction `f / 2^32` (for `f < 2^32`), in Q32.
pub fn pow2_frac_q32(f: u64) -> (r: u64)
    ensures
        r == spec_pow2_frac(f),
        0x1_0000_0000 <= r <= 0x1_FFFF_FFFF,
{
    let mut res: u64 = 0x1_0000_0000;
    let mut i: usize = 0;
    while i < 32
        invariant
            0 <= i <= 32,
            0x1_0000_0000 <= res <= 0x1_FFFF_FFFF,
            pow2_frac_rec(f, i as int, res as int) == spec_pow2_frac(f),
        decreases 32 - i,
    {
        proof {
            lemma_pow2_frac_step_bounds(f, i as int, res as int);
        }
        if ((f >> ((31 - i) as u64)) & 1u64) == 1u64 {
            let c = pow2_frac_const_at(i);
            proof {
                assert(c <= 6074001000u64);
                assert((res as int) * (c as int) <= 0x1_FFFF_FFFF * 6074001000) by (nonlinear_arith)
                    requires
                        0 <= res <= 0x1_FFFF_FFFF,
                        0 <= c <= 6074001000,
                ;
            }
            let m: u128 = ((res as u128) * (c as u128)) / 0x1_0000_0000u128;
            res = if m > 0x1_FFFF_FFFFu128 { 0x1_FFFF_FFFFu64 } else { m as u64 };
        }
        i += 1;
    }
    res
}


/// Pitch ratio `2^(mc / 1_200_000)` in Q32 for a tuning offset given in
/// millicents.  Saturates to `u64::MAX` beyond 30 octaves up and to 0
/// below 33 octaves down.
pub open spec fn spec_cents_ratio(mc: int) -> int {
    let k = mc / (OCTAVE_MC as int);
    let r = mc % (OCTAVE_MC as int);
    let f = (r * 0x1_0000_0000) / (OCTAVE_MC as int);
    let p = spec_pow2_frac(f as u64);
    if k >= 30 {
        u64::MAX as int
    } else if k >= 0 {
        p * pow2(k as nat)
    } else if k <= -34 {
        0
    } else {
        p / pow2((-k) as nat) as int
    }
}

/// Compute the Q32 pitch ratio for a millicent offset.
pub fn cents_ratio_q32(mc: i64) -> (r: u64)
    ensures
        r == spec_cents_ratio(mc as int),
{
    proof {
        lemma_floor_div_in_range(mc as int, OCTAVE_MC as int);
    }
    let k: i64 = match mc.checked_div_euclid(OCTAVE_MC) {
        Some(q) => q,
        None => {
            proof {
                assert(false);
            }
            0
        },
    };
    let rem: i64 = match mc.checked_rem_euclid(OCTAVE_MC) {
        Some(r0) => r0,
        None => {
            proof {
                assert(false);
            }
            0
        },
    };
    proof {
        vstd::arithmetic::div_mod::lemma_mod_bound(mc as int, OCTAVE_MC as int);
        assert((rem as int) * 0x1_0000_0000 < 0x20_0000_0000_0000) by (nonlinear_arith)
            requires
                0 <= rem < 1_200_000,
        ;
    }
    let f: u64 = ((rem as u64) * 0x1_0000_0000u64) / (OCTAVE_MC as u64);
    let p: u64 = pow2_frac_q32(f);
    if k >= 30 {
        u64::MAX
    } else if k >= 0 {
        // Multiply by 2^k without overflow: p < 2^33 and k <= 29.
        let mut out: u64 = p;
        let mut j: u64 = 0;
        proof {
            vstd::arithmetic::power2::lemma2_to64();
        }
        while j < k as u64
            invariant
                0 <= j <= k <= 29,
                0x1_0000_0000 <= p <= 0x1_FFFF_FFFF,
                out == p * pow2(j as nat),
            decreases k - j,
        {
            proof {
                vstd::arithmetic::power2::lemma2_to64();
                if (j as nat) < 28 {
                    vstd::arithmetic::power2::lemma_pow2_strictly_increases(j as nat, 28);
                }
                assert(p * pow2(j as nat) * 2 == p * (pow2(j as nat) * 2)) by (nonlinear_arith);
                assert(pow2(j as nat) * 2 == pow2((j + 1) as nat)) by {
                    vstd::arithmetic::power2::lemma_pow2_adds(j as nat, 1);
                    vstd::arithmetic::power2::lemma2_to64();
                }
                assert(p * pow2((j + 1) as nat) <= 0x1_FFFF_FFFF * pow2(29nat)) by (nonlinear_arith)
                    requires
                        0 <= p <= 0x1_FFFF_FFFF,
                        1 <= pow2((j + 1) as nat) <= pow2(29nat),
                ;
                if ((j + 1) as nat) < 29 {
                    vstd::arithmetic::power2::lemma_pow2_strictly_increases((j + 1) as nat, 29);
                }
            }
            out = out * 2;
            j = j + 1;
        }
        out
    } else if k <= -34 {
        0u64
    } else {
        let s: u64 = (-k) as u64;
        proof {
            vstd::bits::lemma_u64_shr_is_div(p, s);
        }
        p >> s
    }
}

/// Playback increment in Q32: `(sample_rate / out_rate) * ratio`,
/// clamped to `INC_MAX`.
pub open spec fn spec_increment(sample_rate: u32, ratio: u64, out_rate: u32) -> int {
    let inc = (sample_rate * ratio) / (out_rate as int);
    if inc > INC_MAX as int {
        INC_MAX as int
    } else {
        inc
    }
}

/// Compute the Q32 playback increment for a source rate, pitch ratio
/// and output rate.
pub fn increment_q32(sample_rate: u32, ratio: u64, out_rate: u32) -> (r: u64)
    requires
        out_rate > 0,
    ensures
        r == spec_increment(sample_rate, ratio, out_rate),
        r <= INC_MAX,
{
    proof {
        assert((sample_rate as int) * (ratio as int) <= 0xFFFF_FFFF * 0xFFFF_FFFF_FFFF_FFFF)
            by (nonlinear_arith)
            requires
                0 <= sample_rate <= 0xFFFF_FFFFu64,
                0 <= ratio <= 0xFFFF_FFFF_FFFF_FFFFu64,
        ;
    }
    let prod: u128 = (sample_rate as u128) * (ratio as u128);
    let inc: u128 = prod / (out_rate as u128);
    if inc > INC_MAX as u128 {
        INC_MAX
    } else {
        inc as u64
    }
}

/// Largest magnitude a decoded source sample can have (Q24 with
/// headroom; a nominal full-scale sample is `1 << 24`).
pub const SAMPLE_MAX: i64 = 0x8000_0000;

/// Largest magnitude `spec_cubic` can produce from samples bounded by
/// `SAMPLE_MAX`.
pub const CUBIC_MAX: i64 = 0x6_0000_0001;

/// Largest magnitude of one voice's contribution to one output slot.
pub const CONTRIB_MAX: i64 = 0x800_0000_0000;

/// Most voices the engine will sound at once.
pub const MAX_VOICES: usize = 4096;

/// Largest magnitude of a mixed (pre-master-gain) output slot:
/// `MAX_VOICES * CONTRIB_MAX`.
pub const MIX_MAX: i64 = 0x80_0000_0000_0000;

/// Cubic (Catmull-Rom) interpolation between `y1` and `y2` with
/// fractional position `f` in Q32, carried out in integer arithmetic
/// with doubled coefficients and a final halving.  At `f == 0` the
/// result is exactly `y1`.
pub open spec fn spec_cubic(y0: int, y1: int, y2: int, y3: int, f: int) -> int {
    let a2 = -y0 + 3 * y1 - 3 * y2 + y3;
    let b2 = 2 * y0 - 5 * y1 + 4 * y2 - y3;
    let c2 = y2 - y0;
    let d2 = 2 * y1;
    let f2 = (f * f) / 0x1_0000_0000;
    let f3 = (f2 * f) / 0x1_0000_0000;
    let num = a2 * f3 + b2 * f2 + c2 * f;
    (num / 0x1_0000_0000 + d2) / 2
}

/// Interpolate one output sample from four neighbouring source samples.
pub fn cubic_q24(y0: i64, y1: i64, y2: i64, y3: i64, f: u64) -> (r: i64)
    requires
        -SAMPLE_MAX <= y0 <= SAMPLE_MAX,
        -SAMPLE_MAX <= y1 <= SAMPLE_MAX,
        -SAMPLE_MAX <= y2 <= SAMPLE_MAX,
        -SAMPLE_MAX <= y3 <= SAMPLE_MAX,
        f < Q32_ONE,
    ensures
        r == spec_cubic(y0 as int, y1 as int, y2 as int, y3 as int, f as int),
        -CUBIC_MAX <= r <= CUBIC_MAX,
{
    let a2: i64 = -y0 + 3 * y1 - 3 * y2 + y3;
    let b2: i64 = 2 * y0 - 5 * y1 + 4 * y2 - y3;
    let c2: i64 = y2 - y0;
    let d2: i64 = 2 * y1;
    proof {
        assert((f as int) * (f as int) <= 0xFFFF_FFFF * 0xFFFF_FFFF) by (nonlinear_arith)
            requires
                0 <= f <= 0xFFFF_FFFFu64,
        ;
    }
    let ff: i128 = (f as i128) * (f as i128);
    let f2: i128 = floor_div(ff, 0x1_0000_0000i128);
    proof {
        vstd::arithmetic::div_mod::lemma_div_is_ordered(
            ff as int,
            0xFFFF_FFFFint * 0x1_0000_0000int,
            0x1_0000_0000,
        );
        vstd::arithmetic::div_mod::lemma_div_by_multiple(0xFFFF_FFFF, 0x1_0000_0000);
        vstd::arithmetic::div_mod::lemma_div_pos_is_pos(ff as int, 0x1_0000_0000);
        assert(0 <= f2 <= 0xFFFF_FFFF);
        assert((f2 as int) * (f as int) <= 0xFFFF_FFFF * 0xFFFF_FFFF) by (nonlinear_arith)
            requires
                0 <= f2 <= 0xFFFF_FFFFi128,
                0 <= f <= 0xFFFF_FFFFu64,
        ;
    }
    let f2f: i128 = f2 * (f as i128);
    let f3: i128 = floor_div(f2f, 0x1_0000_0000i128);
    proof {
        vstd::arithmetic::div_mod::lemma_div_is_ordered(
            f2f as int,
            0xFFFF_FFFFint * 0x1_0000_0000int,
            0x1_0000_0000,
        );
        vstd::arithmetic::div_mod::lemma_div_by_multiple(0xFFFF_FFFF, 0x1_0000_0000);
        vstd::arithmetic::div_mod::lemma_div_pos_is_pos(f2f as int, 0x1_0000_0000);
        assert(0 <= f3 <= 0xFFFF_FFFF);
    }
    // |a2| <= 8 * SAMPLE_MAX, |b2| <= 12 * SAMPLE_MAX, |c2| <= 2 * SAMPLE_MAX.
    proof {
        lemma_abs_mul_bound(a2 as int, f3 as int, 8 * SAMPLE_MAX as int, 0xFFFF_FFFF);
        lemma_abs_mul_bound(b2 as int, f2 as int, 12 * SAMPLE_MAX as int, 0xFFFF_FFFF);
        lemma_abs_mul_bound(c2 as int, f as int, 2 * SAMPLE_MAX as int, 0xFFFF_FFFF);
    }
    let num: i128 = (a2 as i128) * f3 + (b2 as i128) * f2 + (c2 as i128) * (f as i128);
    let shifted: i128 = floor_div(num, 0x1_0000_0000i128);
    proof {
        // num is bounded by 22 * SAMPLE_MAX * 2^32 in magnitude.
        vstd::arithmetic::div_mod::lemma_div_is_ordered(
            num as int,
            22 * (SAMPLE_MAX as int) * 0x1_0000_0000,
            0x1_0000_0000,
        );
        vstd::arithmetic::div_mod::lemma_div_is_ordered(
            -22 * (SAMPLE_MAX as int) * 0x1_0000_0000,
            num as int,
            0x1_0000_0000,
        );
        lemma_mul_div_exact(22 * (SAMPLE_MAX as int), 0x1_0000_0000);
        lemma_mul_div_exact(-22 * (SAMPLE_MAX as int), 0x1_0000_0000);
    }
    let out2: i128 = shifted + (d2 as i128);
    let half: i128 = floor_div(out2, 2i128);
    proof {
        vstd::arithmetic::div_mod::lemma_div_is_ordered(out2 as int, 24 * (SAMPLE_MAX as int), 2);
        vstd::arithmetic::div_mod::lemma_div_is_ordered(-24 * (SAMPLE_MAX as int), out2 as int, 2);
        assert(24 * (SAMPLE_MAX as int) / 2 == 12 * (SAMPLE_MAX as int)) by (nonlinear_arith);
        assert(-24 * (SAMPLE_MAX as int) / 2 == -12 * (SAMPLE_MAX as int)) by (nonlinear_arith);
    }
    half as i64
}

/// If `x < a * d` then `x / d < a`, for positive `d`.
proof fn lemma_div_upper(x: int, a: int, d: int)
    requires
        d > 0,
        a > 0,
        x < a * d,
    ensures
        x / d < a,
{
    vstd::arithmetic::div_mod::lemma_div_is_ordered(x, a * d - 1, d);
    assert((a - 1) * d + (d - 1) == a * d - 1) by (nonlinear_arith);
    vstd::arithmetic::div_mod::lemma_fundamental_div_mod_converse(a * d - 1, d, a - 1, d - 1);
}

/// If `x >= -(a * d)` then `x / d >= -a`, for positive `d`.
proof fn lemma_div_lower(x: int, a: int, d: int)
    requires
        d > 0,
        a > 0,
        x >= -(a * d),
    ensures
        x / d >= -a,
{
    vstd::arithmetic::div_mod::lemma_div_is_ordered(-(a * d), x, d);
    assert((-a) * d + 0 == -(a * d)) by (nonlinear_arith);
    vstd::arithmetic::div_mod::lemma_fundamental_div_mod_converse(-(a * d), d, -a, 0);
}

/// `(x * d) / d == x` for positive `d`.
proof fn lemma_mul_div_exact(x: int, d: int)
    requires
        d > 0,
    ensures
        (x * d) / d == x,
{
    vstd::arithmetic::div_mod::lemma_fundamental_div_mod_converse(x * d, d, x, 0);
}

/// If `|a| <= abound` and `0 <= b <= bbound` then `|a * b| <= abound * bbound`.
proof fn lemma_abs_mul_bound(a: int, b: int, abound: int, bbound: int)
    requires
        -abound <= a <= abound,
        0 <= b <= bbound,
        0 <= abound,
    ensures
        -(abound * bbound) <= a * b <= abound * bbound,
{
    assert(-(abound * bbound) <= a * b <= abound * bbound) by (nonlinear_arith)
        requires
            -abound <= a <= abound,
            0 <= b <= bbound,
            0 <= abound,
    ;
}

/// Combined amplitude of a voice: `gain * envelope` in Q24.
pub open spec fn spec_amp(gain: u32, env: u32) -> int {
    (gain * env) / (Q24_ONE as int)
}

/// Multiply a gain and an envelope, both Q24.
pub fn amp_q24(gain: u32, env: u32) -> (r: u64)
    requires
        env <= Q24_ONE,
    ensures
        r == spec_amp(gain, env),
        r <= 0xFFFF_FFFF,
{
    proof {
        assert((gain as int) * (env as int) <= 0xFFFF_FFFF * 0x0100_0000) by (nonlinear_arith)
            requires
                0 <= gain <= 0xFFFF_FFFFu32,
                0 <= env <= 0x0100_0000u32,
        ;
    }
    let prod: u64 = (gain as u64) * (env as u64);
    proof {
        assert((gain as int) * (env as int) <= (gain as int) * (Q24_ONE as int)) by (nonlinear_arith)
            requires
                0 <= gain,
                0 <= env <= Q24_ONE,
        ;
        lemma_mul_div_exact(gain as int, Q24_ONE as int);
        vstd::arithmetic::div_mod::lemma_div_is_ordered(
            prod as int,
            (gain as int) * (Q24_ONE as int),
            Q24_ONE as int,
        );
        vstd::arithmetic::div_mod::lemma_div_pos_is_pos(prod as int, Q24_ONE as int);
    }
    prod / (Q24_ONE as u64)
}

/// Scale an interpolated sample by a Q24 amplitude.
pub open spec fn spec_apply_amp(v: int, amp: int) -> int {
    (v * amp) / (Q24_ONE as int)
}

/// Apply a Q24 amplitude to an interpolated sample.
pub fn apply_amp_q24(v: i64, amp: u64) -> (r: i64)
    requires
        -CUBIC_MAX <= v <= CUBIC_MAX,
        amp <= 0xFFFF_FFFF,
    ensures
        r == spec_apply_amp(v as int, amp as int),
        -CONTRIB_MAX <= r <= CONTRIB_MAX,
{
    proof {
        lemma_abs_mul_bound(v as int, amp as int, CUBIC_MAX as int, 0xFFFF_FFFF);
    }
    let prod: i128 = (v as i128) * (amp as i128);
    let r: i128 = floor_div(prod, Q24_ONE as i128);
    proof {
        assert((CUBIC_MAX as int) * 0xFFFF_FFFF < (CONTRIB_MAX as int) * (Q24_ONE as int))
            by (nonlinear_arith);
        lemma_div_upper(prod as int, CONTRIB_MAX as int, Q24_ONE as int);
        lemma_div_lower(prod as int, CONTRIB_MAX as int, Q24_ONE as int);
    }
    r as i64
}

/// Scale a mixed output slot by the Q24 master gain.
pub open spec fn spec_scale_master(v: int, g: u32) -> int {
    (v * g) / (Q24_ONE as int)
}

/// Apply the Q24 master gain to a mixed output slot.
pub fn scale_master_q24(v: i64, g: u32) -> (r: i64)
    requires
        -MIX_MAX <= v <= MIX_MAX,
    ensures
        r == spec_scale_master(v as int, g),
        i64::MIN <= r <= i64::MAX,
{
    proof {
        lemma_abs_mul_bound(v as int, g as int, MIX_MAX as int, 0xFFFF_FFFF);
    }
    let prod: i128 = (v as i128) * (g as i128);
    let r: i128 = floor_div(prod, Q24_ONE as i128);
    proof {
        assert((MIX_MAX as int) * 0xFFFF_FFFF < 0x8000_0000_0000_0000 * (Q24_ONE as int))
            by (nonlinear_arith);
        lemma_div_upper(prod as int, 0x8000_0000_0000_0000, Q24_ONE as int);
        lemma_div_lower(prod as int, 0x8000_0000_0000_0000, Q24_ONE as int);
    }
    r as i64
}


/// A u64 divided by `2^32` fits a u32's range.
pub proof fn lemma_div_fits_u32(x: u64)
    ensures
        0 <= x as int / (Q32_ONE as int) <= 0xFFFF_FFFF,
{
    vstd::arithmetic::div_mod::lemma_div_pos_is_pos(x as int, Q32_ONE as int);
    lemma_div_upper(x as int, 0x1_0000_0000, Q32_ONE as int);
}

/// If `x < a * d` and `x >= 0` then `x / d < a` (public face of the
/// bound used throughout the fixed-point helpers).
pub proof fn lemma_div_below(x: int, a: int, d: int)
    requires
        d > 0,
        a > 0,
        x < a * d,
    ensures
        x / d < a,
{
    lemma_div_upper(x, a, d);
}

} // verus!
