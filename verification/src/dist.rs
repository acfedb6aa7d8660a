//! Process-time distributions over milli-hour durations.
//!
//! A deterministic descriptor samples to its configured value without
//! touching the random source.  The stochastic descriptors map uniform
//! draws through fixed-point inverse transforms; every sampled duration
//! is a nonnegative integer count of milli-hours, and a triangular
//! sample stays inside its support.

use vstd::arithmetic::power2::{lemma2_to64, lemma_pow2_strictly_increases, pow2};
use vstd::prelude::*;

use crate::MilliHours;
use crate::rng::SimRng;
use crate::util::isqrt128;

verus! {

/// A duration distribution.  Rates and log-space parameters are scaled
/// by one thousand, like the milli-hour durations themselves.
#[derive(Clone, Debug)]
pub enum Distribution {
    /// Always the configured value.
    Deterministic { value: MilliHours },
    /// Inter-arrival law with the given rate per hour, times 1000.
    Exponential { rate_milli: u64 },
    /// Inverse-transform sampling over `[a, b]` with mode `m`.
    Triangular { a: MilliHours, m: MilliHours, b: MilliHours },
    /// `exp(mu + sigma * z)` hours for an approximately standard
    /// normal `z`, built as a centered sum of twelve uniform 16-bit
    /// draws rather than a trigonometric transform, which integer
    /// arithmetic cannot express; `mu` and `sigma` are scaled by 1000.
    Lognormal { mu_milli: i64, sigma_milli: u64 },
}

/// Whether a descriptor samples without randomness.
pub open spec fn is_deterministic(d: Distribution) -> bool {
    d is Deterministic
}

/// The value a deterministic descriptor always yields.
pub open spec fn det_value(d: Distribution) -> u64 {
    match d {
        Distribution::Deterministic { value } => value,
        _ => 0,
    }
}

/// The ceiling on any lognormal sample, in milli-hours.
pub const LOGNORMAL_CAP: u64 = 0x4_0000_0000_0000;

/// A square root bounded by a square is bounded by its root.
proof fn lemma_sqrt_le(s: int, x: int, c: int)
    requires
        0 <= s,
        0 <= c,
        s * s <= x,
        x <= c * c,
    ensures
        s <= c,
{
    if s > c {
        assert(s * s > c * c) by (nonlinear_arith)
            requires s > c, c >= 0;
    }
}

/// The normalization of a draw residue into `[2^31, 2^32)`, counting
/// doublings.
pub open spec fn exp_norm(m: u64, e: u64) -> (u64, u64)
    decreases 0x1_0000_0000 - m when 1 <= m < 0x1_0000_0000 && e < 0x40
{
    if m < 0x8000_0000 {
        exp_norm((m * 2) as u64, (e + 1) as u64)
    } else {
        (m, e)
    }
}

/// Sixteen fractional log2 bits by repeated squaring.
pub open spec fn exp_frac(m: u64, frac: u64, i: int) -> (u64, u64)
    decreases 16 - i,
{
    if i >= 16 {
        (m, frac)
    } else {
        let sq = (m as int * m as int) / 0x8000_0000;
        if sq >= 0x1_0000_0000 {
            exp_frac((sq / 2) as u64, (frac % 0x8000_0000 * 2 + 1) as u64, i + 1)
        } else {
            exp_frac(sq as u64, (frac % 0x8000_0000 * 2) as u64, i + 1)
        }
    }
}

/// The exact value of an exponential sample: the fixed-point
/// `-ln(1 - u/2^32) / rate` the implementation computes.
pub open spec fn exp_sample_spec(rate_milli: u64, u: u64) -> u64 {
    if rate_milli == 0 {
        0
    } else {
        let uv = u % 0x1_0000_0000;
        if uv == 0 {
            0
        } else {
            let w = (0x1_0000_0000 - uv) as u64;
            let ne = exp_norm(w, 0);
            let fr = exp_frac(ne.0, 0, 0);
            let fr16 = fr.1 % 0x1_0000;
            let l2_q16 = (1 + ne.1) * 0x1_0000 - fr16;
            let ln_q16 = l2_q16 * 45426 / 0x1_0000;
            (ln_q16 * 1_000_000 / (rate_milli as int * 0x1_0000)) as u64
        }
    }
}

/// `-ln(1 - u / 2^32) / rate` hours in milli-hours, computed in fixed
/// point; zero when the rate is zero or the draw reduces to zero.
pub fn sample_exponential_mh(rate_milli: u64, u: u64) -> (r: u64)
    ensures
        r == exp_sample_spec(rate_milli, u),
        rate_milli == 0 ==> r == 0,
        u % 0x1_0000_0000 == 0 ==> r == 0,
{
    if rate_milli == 0 {
        return 0;
    }
    let uv: u64 = u % 0x1_0000_0000;
    if uv == 0 {
        return 0;
    }
    let w: u64 = 0x1_0000_0000 - uv;  // in [1, 2^32)
    // normalize w into [2^31, 2^32) while counting the doublings
    let mut m: u64 = w;
    let mut e: u64 = 0;
    proof {
        lemma2_to64();
    }
    while m < 0x8000_0000
        invariant
            1 <= m < 0x1_0000_0000,
            pow2(e as nat) <= m,
            e <= 31,
            exp_norm(w, 0) == exp_norm(m, e),
        decreases 0x1_0000_0000u64 - m,
    {
        proof {
            lemma2_to64();
            assert(pow2((e + 1) as nat) == 2 * pow2(e as nat)) by {
                vstd::arithmetic::power2::lemma_pow2_adds(e as nat, 1);
            }
            if e + 1 > 31 {
                lemma_pow2_strictly_increases(31, (e + 1) as nat);
            }
        }
        m = m * 2;
        e = e + 1;
    }
    let ghost mnorm = m;
    let ghost enorm = e;
    proof {
        assert(exp_norm(w, 0) == (mnorm, enorm));
    }
    // sixteen fractional bits of log2(m / 2^31) by repeated squaring
    let mut frac: u64 = 0;
    let mut i: u64 = 0;
    while i < 16
        invariant
            0x8000_0000 <= m < 0x1_0000_0000,
            frac < 0x1_0000_0000,
            i <= 16,
            exp_frac(mnorm, 0, 0) == exp_frac(m, frac, i as int),
        decreases 16 - i,
    {
        proof {
            assert(0x4000_0000_0000_0000 <= (m as int) * (m as int) < 0x1_0000_0000_0000_0000)
                by (nonlinear_arith)
                requires 0x8000_0000 <= m < 0x1_0000_0000;
            vstd::arithmetic::div_mod::lemma_div_is_ordered(
                0x4000_0000_0000_0000,
                (m as int) * (m as int),
                0x8000_0000,
            );
            vstd::arithmetic::div_mod::lemma_multiply_divide_lt(
                (m as int) * (m as int),
                0x8000_0000,
                0x2_0000_0000,
            );
        }
        let sq: u128 = (m as u128) * (m as u128) / 0x8000_0000;
        if sq >= 0x1_0000_0000 {
            m = (sq / 2) as u64;
            frac = frac % 0x8000_0000 * 2 + 1;
        } else {
            m = sq as u64;
            frac = frac % 0x8000_0000 * 2;
        }
        i = i + 1;
    }
    let fr16: u64 = frac % 0x1_0000;
    // -log2(w / 2^32) = 1 + e - log2-fraction, in sixteen-bit fixed point
    let l2_q16: u64 = (1 + e) * 0x1_0000 - fr16;
    // times ln(2), then scaled from a rate to a mean in milli-hours
    proof {
        vstd::arithmetic::div_mod::lemma_div_is_ordered(
            (l2_q16 * 45426) as int,
            32int * 0x1_0000 * 45426,
            0x1_0000,
        );
    }
    let ln_q16: u64 = l2_q16 * 45426 / 0x1_0000;
    let num: u128 = (ln_q16 as u128) * 1_000_000;
    let den: u128 = (rate_milli as u128) * 0x1_0000;
    proof {
        vstd::arithmetic::div_mod::lemma_div_nonincreasing(num as int, den as int);
        vstd::arithmetic::div_mod::lemma_div_pos_is_pos(num as int, den as int);
    }
    let q: u128 = num / den;
    q as u64
}

/// An inverse-CDF triangular sample: inside `[a, b]` whenever the
/// parameters are ordered, zero otherwise.
pub fn sample_triangular_mh(a: u64, m: u64, b: u64, u: u64) -> (r: u64)
    ensures
        a <= m <= b ==> a <= r <= b,
        !(a <= m <= b) ==> r == 0,
{
    if !(a <= m && m <= b) {
        return 0;
    }
    if a == b {
        return a;
    }
    let uv: u128 = (u % 0x1_0000_0000) as u128;
    let width: u128 = (b - a) as u128;
    let rise: u128 = (m - a) as u128;
    let fall: u128 = (b - m) as u128;
    proof {
        assert(uv * width < 0x1_0000_0000_0000_0000_0000_0000int) by (nonlinear_arith)
            requires uv < 0x1_0000_0000, width < 0x1_0000_0000_0000_0000;
        assert(rise * 0x1_0000_0000 < 0x1_0000_0000_0000_0000int * 0x1_0000_0000)
            by (nonlinear_arith)
            requires rise < 0x1_0000_0000_0000_0000;
        assert(width * rise < 0x1_0000_0000_0000_0000int * 0x1_0000_0000_0000_0000)
            by (nonlinear_arith)
            requires width < 0x1_0000_0000_0000_0000, rise < 0x1_0000_0000_0000_0000;
        assert(width * fall < 0x1_0000_0000_0000_0000int * 0x1_0000_0000_0000_0000)
            by (nonlinear_arith)
            requires width < 0x1_0000_0000_0000_0000, fall < 0x1_0000_0000_0000_0000;
    }
    // u < (m - a) / (b - a), compared without division
    if uv * width < rise * 0x1_0000_0000 {
        // a + sqrt(u * (b - a) * (m - a))
        let s = isqrt128(width * rise);
        let su = isqrt128(uv * 0x1_0000_0000);
        proof {
            assert(width * rise <= width * width) by (nonlinear_arith)
                requires rise <= width, width >= 0;
            lemma_sqrt_le(s as int, (width * rise) as int, width as int);
            assert(uv * 0x1_0000_0000 <= 0x1_0000_0000 * 0x1_0000_0000) by (nonlinear_arith)
                requires uv <= 0x1_0000_0000;
            lemma_sqrt_le(su as int, (uv * 0x1_0000_0000) as int, 0x1_0000_0000);
            assert(s * su <= width * 0x1_0000_0000) by (nonlinear_arith)
                requires s <= width, su <= 0x1_0000_0000;
            vstd::arithmetic::div_mod::lemma_multiply_divide_le(
                (s * su) as int,
                0x1_0000_0000,
                width as int,
            );
            vstd::arithmetic::div_mod::lemma_div_pos_is_pos((s * su) as int, 0x1_0000_0000);
        }
        let add: u128 = s * su / 0x1_0000_0000;
        a + (add as u64)
    } else {
        // b - sqrt((1 - u) * (b - a) * (b - m))
        let vv: u128 = 0x1_0000_0000 - uv;
        let s = isqrt128(width * fall);
        let sv = isqrt128(vv * 0x1_0000_0000);
        proof {
            assert(width * fall <= width * width) by (nonlinear_arith)
                requires fall <= width, width >= 0;
            lemma_sqrt_le(s as int, (width * fall) as int, width as int);
            assert(vv * 0x1_0000_0000 <= 0x1_0000_0000 * 0x1_0000_0000) by (nonlinear_arith)
                requires vv <= 0x1_0000_0000;
            lemma_sqrt_le(sv as int, (vv * 0x1_0000_0000) as int, 0x1_0000_0000);
            assert(s * sv <= width * 0x1_0000_0000) by (nonlinear_arith)
                requires s <= width, sv <= 0x1_0000_0000;
            vstd::arithmetic::div_mod::lemma_multiply_divide_le(
                (s * sv) as int,
                0x1_0000_0000,
                width as int,
            );
            vstd::arithmetic::div_mod::lemma_div_pos_is_pos((s * sv) as int, 0x1_0000_0000);
        }
        let sub: u128 = s * sv / 0x1_0000_0000;
        b - (sub as u64)
    }
}

/// The four 16-bit limbs of a word, summed.
pub open spec fn limbs16(v: u64) -> u64 {
    (v % 0x1_0000 + (v / 0x1_0000) % 0x1_0000 + (v / 0x1_0000_0000) % 0x1_0000 + (v
        / 0x1_0000_0000_0000) % 0x1_0000) as u64
}

/// Doubling `k` times, clamped at the lognormal ceiling.
pub open spec fn dbl_capped(r: u64, k: int) -> u64
    decreases k,
{
    if k <= 0 {
        r
    } else {
        dbl_capped(
            if r <= LOGNORMAL_CAP / 2 {
                (r * 2) as u64
            } else {
                LOGNORMAL_CAP
            },
            k - 1,
        )
    }
}

/// Halving `k` times.
pub open spec fn halve(r: u64, k: int) -> u64
    decreases k,
{
    if k <= 0 {
        r
    } else {
        halve(r / 2, k - 1)
    }
}

/// The log-space value a lognormal sample is taken at:
/// `mu + sigma * z` in thousandths, from the three draws; the scaling
/// division truncates toward zero, as the machine's does.
pub open spec fn lognormal_log_space(mu_milli: i64, sigma_milli: u64, d1: u64, d2: u64, d3: u64) -> int {
    let s = limbs16(d1) + limbs16(d2) + limbs16(d3);
    let z_q16 = s - 6 * 0x1_0000;
    let prod = sigma_milli * z_q16;
    mu_milli + (if prod >= 0 {
        prod / 0x1_0000
    } else {
        -((-prod) / 0x1_0000)
    })
}

/// The four 16-bit limbs of a draw, summed.
fn sum_limbs16(v: u64) -> (s: u64)
    ensures
        s == limbs16(v),
        s <= 4 * 0xFFFF,
{
    v % 0x1_0000 + (v / 0x1_0000) % 0x1_0000 + (v / 0x1_0000_0000) % 0x1_0000 + (v
        / 0x1_0000_0000_0000) % 0x1_0000
}

/// `exp(mu + sigma * z)` hours in milli-hours for `z` built from three
/// uniform draws; capped so the result stays a representable duration.
#[verifier::rlimit(100)]
pub fn sample_lognormal_mh(mu_milli: i64, sigma_milli: u64, d1: u64, d2: u64, d3: u64) -> (r: u64)
    ensures
        lognormal_log_space(mu_milli, sigma_milli, d1, d2, d3) >= 0x1_0000_0000 ==> r
            == LOGNORMAL_CAP,
        lognormal_log_space(mu_milli, sigma_milli, d1, d2, d3) <= -0x1_0000_0000 ==> r == 0,
        r <= LOGNORMAL_CAP,
{
    // an approximately standard normal z from twelve 16-bit uniforms
    let s: u64 = sum_limbs16(d1) + sum_limbs16(d2) + sum_limbs16(d3);
    // z in sixteen-bit fixed point, centered
    let z_q16: i64 = (s as i64) - 6 * 0x1_0000;
    // mu + sigma * z, in thousandths of log space
    proof {
        assert(-0x8_0000_0000_0000_0000_0000int <= (sigma_milli as int) * (z_q16 as int)
            <= 0x8_0000_0000_0000_0000_0000int) by (nonlinear_arith)
            requires sigma_milli <= 0xFFFF_FFFF_FFFF_FFFF, -0x6_0000 <= z_q16 <= 0x6_0000;
    }
    let prod: i128 = (sigma_milli as i128) * (z_q16 as i128);
    let shift: i128 = prod / 0x1_0000;
    proof {
        vstd::arithmetic::div_mod::lemma_div_is_ordered(
            prod as int,
            0x8_0000_0000_0000_0000_0000int,
            0x1_0000,
        );
        vstd::arithmetic::div_mod::lemma_div_is_ordered(
            -0x8_0000_0000_0000_0000_0000int,
            prod as int,
            0x1_0000,
        );
    }
    let x_milli: i128 = (mu_milli as i128) + shift;
    if x_milli >= 0x1_0000_0000 {
        return LOGNORMAL_CAP;
    }
    if x_milli <= -0x1_0000_0000 {
        return 0;
    }
    lognormal_tail(x_milli)
}

/// The exponent split and cubic fit of a lognormal sample.
#[verifier::rlimit(50)]
fn lognormal_tail(x_milli: i128) -> (r: u64)
    requires
        -0x1_0000_0000 < x_milli < 0x1_0000_0000,
    ensures
        r <= LOGNORMAL_CAP,
{
    // base-two exponent in sixteen-bit fixed point: x * log2(e)
    let e2_q16: i128 = x_milli * 94548 / 1000;
    proof {
        vstd::arithmetic::div_mod::lemma_div_is_ordered(
            (x_milli * 94548) as int,
            0x1_0000_0000int * 94548,
            1000,
        );
        vstd::arithmetic::div_mod::lemma_div_is_ordered(
            -0x1_0000_0000int * 94548,
            (x_milli * 94548) as int,
            1000,
        );
    }
    // split into a whole exponent and a fraction in [0, 2^16)
    let negative: bool = e2_q16 < 0;
    let kmag: i128 = if negative {
        (-e2_q16 + 0xFFFF) / 0x1_0000
    } else {
        e2_q16 / 0x1_0000
    };
    proof {
        if negative {
            vstd::arithmetic::div_mod::lemma_fundamental_div_mod((-e2_q16 + 0xFFFF) as int, 0x1_0000);
            vstd::arithmetic::div_mod::lemma_mod_division_less_than_divisor(
                (-e2_q16 + 0xFFFF) as int,
                0x1_0000,
            );
        } else {
            vstd::arithmetic::div_mod::lemma_fundamental_div_mod(e2_q16 as int, 0x1_0000);
            vstd::arithmetic::div_mod::lemma_mod_division_less_than_divisor(e2_q16 as int, 0x1_0000);
            vstd::arithmetic::div_mod::lemma_div_pos_is_pos(e2_q16 as int, 0x1_0000);
        }
    }
    let fraw: i128 = if negative {
        kmag * 0x1_0000 + e2_q16
    } else {
        e2_q16 - kmag * 0x1_0000
    };
    let f: u64 = (if fraw >= 0 { fraw % 0x1_0000 } else { 0 }) as u64;
    proof {
        if fraw >= 0 {
            vstd::arithmetic::div_mod::lemma_mod_division_less_than_divisor(fraw as int, 0x1_0000);
            vstd::arithmetic::div_mod::lemma_mod_bound(fraw as int, 0x1_0000);
        }
    }
    // 2^(f / 2^16) by a cubic fit, in sixteen-bit fixed point
    proof {
        lemma_poly_term_bounds(f);
    }
    let t1: u64 = f * 45426 / 0x1_0000;
    let t2: u64 = (f * f / 0x1_0000) * 15743 / 0x1_0000;
    let t3: u64 = ((f * f / 0x1_0000) * f / 0x1_0000) * 3640 / 0x1_0000;
    let m_q16: u64 = 0x1_0000 + t1 + t2 + t3;
    // milli-hours: 1000 * 2^k * m
    let mut r: u64 = 1000 * m_q16 / 0x1_0000;
    proof {
        vstd::arithmetic::div_mod::lemma_div_nonincreasing((1000 * m_q16) as int, 0x1_0000);
    }
    if !negative {
        let mut k: i128 = kmag;
        while k > 0
            invariant
                r <= LOGNORMAL_CAP,
            decreases k,
        {
            r = if r <= LOGNORMAL_CAP / 2 {
                r * 2
            } else {
                LOGNORMAL_CAP
            };
            k = k - 1;
        }
        r
    } else {
        let mut k: i128 = kmag;
        while k > 0
            invariant
                r <= LOGNORMAL_CAP,
            decreases k,
        {
            r = r / 2;
            k = k - 1;
        }
        r
    }
}

/// Bounds on the cubic-fit terms for a fraction below `2^16`.
proof fn lemma_poly_term_bounds(f: u64)
    requires
        f < 0x1_0000,
    ensures
        f * 45426 / 0x1_0000 <= 45426,
        (f * f / 0x1_0000) * 15743 / 0x1_0000 <= 15743,
        ((f * f / 0x1_0000) * f / 0x1_0000) * 3640 / 0x1_0000 <= 3640,
        f * 45426 <= 0x1_0000 * 45426,
        f * f <= 0x1_0000 * 0x1_0000,
        (f * f / 0x1_0000) <= 0x1_0000,
        (f * f / 0x1_0000) * 15743 <= 0x1_0000 * 15743,
        (f * f / 0x1_0000) * f <= 0x1_0000 * 0x1_0000,
        ((f * f / 0x1_0000) * f / 0x1_0000) <= 0x1_0000,
        ((f * f / 0x1_0000) * f / 0x1_0000) * 3640 <= 0x1_0000 * 3640,
{
    assert(f * f <= 0x1_0000 * 0x1_0000) by (nonlinear_arith)
        requires f < 0x1_0000;
    vstd::arithmetic::div_mod::lemma_div_is_ordered(
        (f * f) as int,
        0x1_0000int * 0x1_0000,
        0x1_0000,
    );
    let g = f * f / 0x1_0000;
    vstd::arithmetic::div_mod::lemma_div_pos_is_pos((f * f) as int, 0x1_0000);
    assert(g * f <= 0x1_0000 * 0x1_0000) by (nonlinear_arith)
        requires g <= 0x1_0000, f <= 0x1_0000, g >= 0;
    vstd::arithmetic::div_mod::lemma_div_is_ordered(
        (g * f) as int,
        0x1_0000int * 0x1_0000,
        0x1_0000,
    );
    vstd::arithmetic::div_mod::lemma_div_pos_is_pos((g * f) as int, 0x1_0000);
    vstd::arithmetic::div_mod::lemma_div_is_ordered(
        (f * 45426) as int,
        0x1_0000int * 45426,
        0x1_0000,
    );
    vstd::arithmetic::div_mod::lemma_div_is_ordered(
        (g * 15743) as int,
        0x1_0000int * 15743,
        0x1_0000,
    );
    let h = g * f / 0x1_0000;
    vstd::arithmetic::div_mod::lemma_div_is_ordered(
        (h * 3640) as int,
        0x1_0000int * 3640,
        0x1_0000,
    );
}

/// One sampled duration.  A deterministic descriptor yields its value
/// and leaves the random source untouched; the stochastic ones consume
/// exactly their draws from the library's own generator, so each
/// result is pinned to the generator's state: the exponential sample
/// exactly, the triangular sample within its support, the lognormal
/// sample under its cap with its overflow and underflow cases exact.
pub fn sample(dist: &Distribution, rng: &mut SimRng) -> (r: MilliHours)
    ensures
        is_deterministic(*dist) ==> r == det_value(*dist) && *final(rng) == *old(rng),
        *dist matches Distribution::Exponential { rate_milli } ==> final(rng).state
            == crate::rng::rng_advance(old(rng).state) && r == exp_sample_spec(
            rate_milli,
            crate::rng::rng_mix(final(rng).state),
        ),
        *dist matches Distribution::Triangular { a, m, b } ==> final(rng).state
            == crate::rng::rng_advance(old(rng).state) && ((a <= m && m <= b) ==> a <= r
            <= b),
        *dist matches Distribution::Lognormal { mu_milli, sigma_milli } ==> ({
            let s1 = crate::rng::rng_advance(old(rng).state);
            let s2 = crate::rng::rng_advance(s1);
            let s3 = crate::rng::rng_advance(s2);
            let ls = lognormal_log_space(
                mu_milli,
                sigma_milli,
                crate::rng::rng_mix(s1),
                crate::rng::rng_mix(s2),
                crate::rng::rng_mix(s3),
            );
            &&& final(rng).state == s3
            &&& r <= LOGNORMAL_CAP
            &&& ls >= 0x1_0000_0000 ==> r == LOGNORMAL_CAP
            &&& ls <= -0x1_0000_0000 ==> r == 0
        }),
{
    match dist {
        Distribution::Deterministic { value } => *value,
        Distribution::Exponential { rate_milli } => {
            let u = rng.next_u64();
            sample_exponential_mh(*rate_milli, u)
        },
        Distribution::Triangular { a, m, b } => {
            let u = rng.next_u64();
            sample_triangular_mh(*a, *m, *b, u)
        },
        Distribution::Lognormal { mu_milli, sigma_milli } => {
            let d1 = rng.next_u64();
            let d2 = rng.next_u64();
            let d3 = rng.next_u64();
            sample_lognormal_mh(*mu_milli, *sigma_milli, d1, d2, d3)
        },
    }
}

} // verus!
