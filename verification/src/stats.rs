//! Streaming statistics: an exact online accumulator for mean,
//! variance, minimum and maximum, and a fixed-capacity reservoir for
//! approximate percentiles.
//!
//! The accumulator keeps integer sums, so mean and variance are exact
//! where floating-point accumulation would drift.  Percentiles come
//! from a uniformly sampled reservoir, sorted; they are always ordered,
//! and bracketed by the observed minimum and maximum.

use vstd::pervasive::VecAdditionalExecFns;
use vstd::prelude::*;

use crate::rng::SimRng;
use crate::util::{isqrt128, sat_add, sat_add128, sat_add64};

verus! {

/// How many values the percentile reservoir retains.
pub const RESERVOIR_CAPACITY: usize = 1000;

/// The floor of the square root.
pub open spec fn sqrt_floor(x: int) -> int
    decreases x when x >= 0
{
    if x <= 0 {
        0
    } else {
        let p = sqrt_floor(x - 1);
        if (p + 1) * (p + 1) <= x {
            p + 1
        } else {
            p
        }
    }
}

/// The floor square root brackets its argument.
pub proof fn lemma_sqrt_floor_bracket(x: int)
    requires
        x >= 0,
    ensures
        sqrt_floor(x) >= 0,
        sqrt_floor(x) * sqrt_floor(x) <= x,
        x < (sqrt_floor(x) + 1) * (sqrt_floor(x) + 1),
    decreases x,
{
    if x > 0 {
        lemma_sqrt_floor_bracket(x - 1);
        let p = sqrt_floor(x - 1);
        if (p + 1) * (p + 1) <= x {
            assert((p + 1 + 1) * (p + 1 + 1) > x) by (nonlinear_arith)
                requires x - 1 < (p + 1) * (p + 1), p >= 0, (p + 1) * (p + 1) <= x;
        }
    }
}

/// Any value bracketing `x` is its floor square root.
pub proof fn lemma_sqrt_floor_unique(x: int, r: int)
    requires
        x >= 0,
        r >= 0,
        r * r <= x,
        x < (r + 1) * (r + 1),
    ensures
        r == sqrt_floor(x),
{
    lemma_sqrt_floor_bracket(x);
    let s = sqrt_floor(x);
    if r < s {
        assert((r + 1) * (r + 1) <= s * s) by (nonlinear_arith)
            requires r + 1 <= s, r >= 0;
    }
    if s < r {
        assert((s + 1) * (s + 1) <= r * r) by (nonlinear_arith)
            requires s + 1 <= r, s >= 0;
    }
}

/// An online accumulator over a stream of integers: count, sum, sum of
/// squares, minimum and maximum, all exact up to saturation.
#[derive(Clone, Copy, Debug)]
pub struct StatsAccumulator {
    pub count: u64,
    pub sum: u128,
    pub sumsq: u128,
    pub min: u64,
    pub max: u64,
}

/// The accumulator of an empty stream.
pub open spec fn fresh_acc() -> StatsAccumulator {
    StatsAccumulator { count: 0, sum: 0, sumsq: 0, min: 0, max: 0 }
}

/// The exact state of an accumulator after one more observation.
pub open spec fn acc_after(a: StatsAccumulator, x: u64) -> StatsAccumulator {
    StatsAccumulator {
        count: sat_add(a.count as int, 1, u64::MAX as int) as u64,
        sum: sat_add(a.sum as int, x as int, u128::MAX as int) as u128,
        sumsq: sat_add(a.sumsq as int, x as int * x as int, u128::MAX as int) as u128,
        min: if a.count == 0 || x < a.min {
            x
        } else {
            a.min
        },
        max: if a.count == 0 || x > a.max {
            x
        } else {
            a.max
        },
    }
}

/// The accumulator after the same value observed `n` times.
pub open spec fn acc_repeat(x: u64, n: int) -> StatsAccumulator
    decreases n,
{
    if n <= 0 {
        fresh_acc()
    } else {
        acc_after(acc_repeat(x, n - 1), x)
    }
}

/// A constant stream's extremes sit at the value, whatever its size.
pub proof fn lemma_acc_repeat_extremes(x: u64, n: int)
    requires
        n >= 1,
    ensures
        acc_repeat(x, n).min == x,
        acc_repeat(x, n).max == x,
    decreases n,
{
    if n == 1 {
        assert(acc_repeat(x, 0) == fresh_acc());
    } else {
        lemma_acc_repeat_extremes(x, n - 1);
    }
}

/// A constant stream's accumulator: extremes at the value, the mean at
/// one hundred times it, and no deviation at all.
pub proof fn lemma_acc_repeat_stats(x: u64, n: int)
    requires
        1 <= n <= 0xFFFF_FFFF,
        x <= 0xFFFF_FFFF,
    ensures
        acc_repeat(x, n).min == x,
        acc_repeat(x, n).max == x,
        mean_centi_of(acc_repeat(x, n)) == 100 * x,
        stddev_centi_of(acc_repeat(x, n)) == 0,
{
    lemma_acc_repeat_fields(x, n);
    let a = acc_repeat(x, n);
    assert(a.sum == n * x && a.sumsq == n * (x as int * x as int) && a.count == n);
    // the mean: n * (200 x + 1) divided by 2 n is exactly 100 x
    assert(a.sum <= (u128::MAX - a.count as u128) / 200) by {
        assert(200 * (n * x as int) + n <= u128::MAX) by (nonlinear_arith)
            requires 1 <= n <= 0x1_0000_0000, x <= 0x1_0000_0000;
        vstd::arithmetic::div_mod::lemma_fundamental_div_mod(
            (u128::MAX - a.count as u128) as int,
            200,
        );
        vstd::arithmetic::div_mod::lemma_mod_division_less_than_divisor(
            (u128::MAX - a.count as u128) as int,
            200,
        );
        if a.sum as int > ((u128::MAX - a.count as u128) as int) / 200 {
            assert(200 * (a.sum as int) >= 200 * (((u128::MAX - a.count as u128) as int) / 200 + 1))
                by (nonlinear_arith)
                requires a.sum as int >= ((u128::MAX - a.count as u128) as int) / 200 + 1;
        }
    }
    assert((200 * a.sum + a.count) / (2 * a.count as int) == 100 * x) by {
        assert(200 * (n * x as int) + n == (2 * n) * (100 * x as int) + n) by (nonlinear_arith);
        vstd::arithmetic::div_mod::lemma_fundamental_div_mod_converse(
            200 * (n * x as int) + n,
            2 * n,
            100 * x as int,
            n,
        );
    }
    assert(100 * x <= u64::MAX);
    // the deviation: n * sumsq equals sum squared exactly
    assert((a.count as int * a.sumsq as int) == (a.sum as int * a.sum as int)) by (nonlinear_arith)
        requires
            a.count == n,
            a.sum == n * x,
            a.sumsq as int == n * (x as int * x as int);
    assert(a.sum < 0x1_0000_0000_0000_0000) by (nonlinear_arith)
        requires a.sum == n * x, 1 <= n <= 0xFFFF_FFFF, x <= 0xFFFF_FFFF;
    assert((a.sum as int * a.sum as int) <= u128::MAX) by (nonlinear_arith)
        requires a.sum < 0x1_0000_0000_0000_0000;
    if a.count >= 2 {
        assert(stddev_centi_of(a) == 0) by {
            assert(((a.count as int * a.sumsq as int) - (a.sum as int * a.sum as int)) * 10000
                == 0);
            assert(a.count as int * (a.count - 1) as int > 0) by (nonlinear_arith)
                requires a.count >= 2;
            assert(0int / (a.count as int * (a.count - 1) as int) == 0) by {
                vstd::arithmetic::div_mod::lemma_div_of0(a.count as int * (a.count - 1) as int);
            }
            assert(sqrt_floor(0) == 0);
        }
    }
}

/// The fields of a constant stream's accumulator, without saturation
/// under the given bounds.
proof fn lemma_acc_repeat_fields(x: u64, n: int)
    requires
        1 <= n <= 0xFFFF_FFFF,
        x <= 0xFFFF_FFFF,
    ensures
        acc_repeat(x, n).count == n,
        acc_repeat(x, n).sum == n * x,
        acc_repeat(x, n).sumsq as int == n * (x as int * x as int),
        acc_repeat(x, n).min == x,
        acc_repeat(x, n).max == x,
    decreases n,
{
    if n == 1 {
        assert(acc_repeat(x, 0) == fresh_acc());
        assert(acc_repeat(x, 1) == acc_after(fresh_acc(), x));
        assert((x as int) * (x as int) <= 0x1_0000_0000int * 0x1_0000_0000) by (nonlinear_arith)
            requires x <= 0x1_0000_0000;
    } else {
        lemma_acc_repeat_fields(x, n - 1);
        let prev = acc_repeat(x, n - 1);
        assert((n - 1) * (x as int) + x == n * x) by (nonlinear_arith);
        assert((n - 1) * (x as int * x as int) + x as int * x as int == n * (x as int
            * x as int)) by (nonlinear_arith);
        assert(n * (x as int) <= 0x1_0000_0000int * 0x1_0000_0000_0000_0000) by (nonlinear_arith)
            requires n <= 0x1_0000_0000, x <= 0x1_0000_0000_0000_0000;
        assert(n * (x as int * x as int) <= 0x1_0000_0000int * (0x1_0000_0000int * 0x1_0000_0000))
            by (nonlinear_arith)
            requires n <= 0x1_0000_0000, x <= 0x1_0000_0000;
    }
}

/// What `mean_centi` returns: the mean in hundredths, rounded half-up,
/// saturating where the scaled sum cannot be represented.
pub open spec fn mean_centi_of(a: StatsAccumulator) -> u64 {
    if a.count == 0 {
        0
    } else if a.sum > (u128::MAX - a.count as u128) / 200 {
        u64::MAX
    } else {
        let q = (200 * a.sum + a.count) / (2 * a.count as int);
        if q > u64::MAX {
            u64::MAX
        } else {
            q as u64
        }
    }
}

/// What `stddev_centi` returns: `100 * sqrt(sample variance)` rounded
/// half-up, via the floor square root of four times the scaled
/// variance `10000 * (n * sumsq - sum^2) / (n * (n - 1))`; zero below
/// two observations, saturating where an internal product cannot be
/// represented.
pub open spec fn stddev_centi_of(a: StatsAccumulator) -> u64 {
    if a.count < 2 {
        0
    } else if (a.count as int * a.sumsq as int) > u128::MAX {
        u64::MAX
    } else if (a.sum as int * a.sum as int) > u128::MAX {
        u64::MAX
    } else if (a.count as int * a.sumsq as int) < (a.sum as int * a.sum as int) {
        0
    } else if ((a.count as int * a.sumsq as int) - (a.sum as int * a.sum as int)) * 10000
        > u128::MAX {
        u64::MAX
    } else {
        let v = ((a.count as int * a.sumsq as int) - (a.sum as int * a.sum as int)) * 10000 / (
        a.count as int * (a.count - 1) as int);
        if v > u128::MAX / 4 {
            u64::MAX
        } else {
            let s = (sqrt_floor(4 * v) + 1) / 2;
            if s > u64::MAX {
                u64::MAX
            } else {
                s as u64
            }
        }
    }
}

impl StatsAccumulator {
    /// An empty accumulator.
    pub fn new() -> (r: StatsAccumulator)
        ensures
            r == fresh_acc(),
    {
        StatsAccumulator { count: 0, sum: 0, sumsq: 0, min: 0, max: 0 }
    }

    /// One more observation folded in.
    pub fn update(&mut self, x: u64)
        ensures
            *final(self) == acc_after(*old(self), x),
            old(self).min <= final(self).min || final(self).min == x,
            final(self).min <= final(self).max || old(self).count == 0 && final(self).min == x,
    {
        if self.count == 0 {
            self.min = x;
            self.max = x;
        } else {
            if x < self.min {
                self.min = x;
            }
            if x > self.max {
                self.max = x;
            }
        }
        proof {
            assert((x as int) * (x as int) < 0x1_0000_0000_0000_0000_0000_0000_0000_0000int)
                by (nonlinear_arith)
                requires x < 0x1_0000_0000_0000_0000;
        }
        let xsq: u128 = (x as u128) * (x as u128);
        self.count = sat_add64(self.count, 1);
        self.sum = sat_add128(self.sum, x as u128);
        self.sumsq = sat_add128(self.sumsq, xsq);
    }

    /// The mean scaled by one hundred, rounded half-up; zero for an
    /// empty stream.
    pub fn mean_centi(&self) -> (r: u64)
        ensures
            r == mean_centi_of(*self),
    {
        if self.count == 0 {
            return 0;
        }
        if self.sum > (u128::MAX - (self.count as u128)) / 200 {
            return u64::MAX;
        }
        proof {
            vstd::arithmetic::div_mod::lemma_mul_hoist_inequality(
                200,
                (u128::MAX - (self.count as u128)) as int,
                200,
            );
            assert(200 * self.sum <= u128::MAX - self.count) by {
                vstd::arithmetic::div_mod::lemma_fundamental_div_mod(
                    (u128::MAX - (self.count as u128)) as int,
                    200,
                );
                assert(200 * (self.sum as int) <= 200 * (((u128::MAX - (self.count as u128)) as int)
                    / 200)) by (nonlinear_arith)
                    requires self.sum <= ((u128::MAX - (self.count as u128)) as int) / 200;
                vstd::arithmetic::div_mod::lemma_mod_division_less_than_divisor(
                    (u128::MAX - (self.count as u128)) as int,
                    200,
                );
            }
        }
        let num: u128 = 200 * self.sum + (self.count as u128);
        let den: u128 = 2 * (self.count as u128);
        let q: u128 = num / den;
        proof {
            vstd::arithmetic::div_mod::lemma_div_pos_is_pos(num as int, den as int);
        }
        if q > (u64::MAX as u128) {
            u64::MAX
        } else {
            q as u64
        }
    }

    /// The sample standard deviation scaled by one hundred: the integer
    /// square root of `10000 * (n * sumsq - sum^2) / (n * (n - 1))`.
    /// Zero below two observations; the largest value if the internal
    /// products cannot be represented.
    pub fn stddev_centi(&self) -> (r: u64)
        ensures
            r == stddev_centi_of(*self),
    {
        if self.count < 2 {
            return 0;
        }
        let nsq = match (self.count as u128).checked_mul(self.sumsq) {
            Option::Some(v) => v,
            Option::None => {
                return u64::MAX;
            },
        };
        let ssq = match self.sum.checked_mul(self.sum) {
            Option::Some(v) => v,
            Option::None => {
                return u64::MAX;
            },
        };
        if nsq < ssq {
            return 0;
        }
        let numer = match (nsq - ssq).checked_mul(10000) {
            Option::Some(v) => v,
            Option::None => {
                return u64::MAX;
            },
        };
        proof {
            assert((self.count as int) * ((self.count - 1) as int) > 0) by (nonlinear_arith)
                requires self.count >= 2;
            assert((self.count as int) * ((self.count - 1) as int)
                < 0x1_0000_0000_0000_0000_0000_0000_0000_0000int) by (nonlinear_arith)
                requires self.count < 0x1_0000_0000_0000_0000;
        }
        let den: u128 = (self.count as u128) * ((self.count - 1) as u128);
        let var_scaled: u128 = numer / den;
        if var_scaled > u128::MAX / 4 {
            return u64::MAX;
        }
        // round to the nearest hundredth: floor((sqrt(4v) + 1) / 2)
        let s4 = isqrt128(4 * var_scaled);
        proof {
            lemma_sqrt_floor_unique((4 * var_scaled) as int, s4 as int);
        }
        let s = (s4 + 1) / 2;
        if s > (u64::MAX as u128) {
            u64::MAX
        } else {
            s as u64
        }
    }
}

/// Ascending order over sampled values.
pub open spec fn values_sorted(s: Seq<u64>) -> bool {
    forall|i: int, j: int| 0 <= i < j < s.len() ==> s[i] <= s[j]
}

/// A fixed-capacity uniform sample of a stream.
#[derive(Clone, Debug)]
pub struct Reservoir {
    pub sample: Vec<u64>,
    pub count: u64,
}

impl Reservoir {
    /// An empty reservoir.
    pub fn new() -> (r: Reservoir)
        ensures
            r.sample@.len() == 0,
            r.count == 0,
    {
        Reservoir { sample: Vec::new(), count: 0 }
    }

    /// One more observation: kept while the reservoir fills, then
    /// replacing a random slot with probability capacity over count.
    /// Whatever the draws, every retained value is either the new one
    /// or one already present, and the size never passes the capacity.
    pub fn update(&mut self, x: u64, rng: &mut SimRng)
        requires
            old(self).sample@.len() <= RESERVOIR_CAPACITY,
        ensures
            final(self).count == sat_add(old(self).count as int, 1, u64::MAX as int),
            final(self).sample@.len() == if old(self).sample@.len() < RESERVOIR_CAPACITY {
                old(self).sample@.len() + 1
            } else {
                old(self).sample@.len()
            },
            final(self).sample@.len() <= RESERVOIR_CAPACITY,
            forall|k: int|
                0 <= k < final(self).sample@.len() ==> (#[trigger] final(self).sample@[k]) == x
                    || (k < old(self).sample@.len() && final(self).sample@[k] == old(
                    self,
                ).sample@[k]),
            old(self).sample@.len() < RESERVOIR_CAPACITY ==> final(self).sample@ == old(
                self,
            ).sample@.push(x),
            old(self).sample@.len() > 0 || final(self).sample@.len() > 0,
    {
        self.count = sat_add64(self.count, 1);
        if self.sample.len() < RESERVOIR_CAPACITY {
            self.sample.push(x);
        } else {
            let j = rng.next_below(self.count);
            if j < (RESERVOIR_CAPACITY as u64) {
                let idx64 = rng.next_below(RESERVOIR_CAPACITY as u64);
                let idx: usize = idx64 as usize;
                self.sample.set(idx, x);
            }
        }
    }
}

/// The position a percentile reads in a sorted sample: the ceiling of
/// `p * len / 100`, one-based, clamped into the sample.
pub open spec fn pct_index(p: int, len: int) -> int {
    let raw = (p * len + 99) / 100 - 1;
    if raw < 0 {
        0
    } else if raw >= len {
        len - 1
    } else {
        raw
    }
}

/// The percentile value of a sorted sample.
fn pct_value(sorted: &Vec<u64>, p: u64) -> (r: u64)
    requires
        0 < sorted@.len() <= RESERVOIR_CAPACITY,
        1 <= p <= 99,
    ensures
        r == sorted@[pct_index(p as int, sorted@.len() as int)],
{
    let len = sorted.len();
    proof {
        assert(p as int * len as int <= 99 * len) by (nonlinear_arith)
            requires p <= 99, len >= 0;
        vstd::arithmetic::div_mod::lemma_div_pos_is_pos((p as int) * (len as int) + 99, 100);
        vstd::arithmetic::div_mod::lemma_div_is_ordered(
            (p as int) * (len as int) + 99,
            99 * (len as int) + 99,
            100,
        );
    }
    let raw: usize = ((p as usize) * len + 99) / 100;
    let idx: usize = if raw == 0 {
        0
    } else {
        raw - 1
    };
    let idx: usize = if idx >= len {
        len - 1
    } else {
        idx
    };
    proof {
        assert(idx as int == pct_index(p as int, len as int));
    }
    sorted[idx]
}

/// Larger percentiles read at or past smaller ones.
proof fn lemma_pct_index_mono(p: int, q: int, len: int)
    requires
        1 <= p <= q <= 99,
        len > 0,
    ensures
        0 <= pct_index(p, len) <= pct_index(q, len) < len,
{
    assert(p * len <= q * len) by (nonlinear_arith)
        requires p <= q, len >= 0;
    vstd::arithmetic::div_mod::lemma_div_is_ordered(p * len + 99, q * len + 99, 100);
    vstd::arithmetic::div_mod::lemma_div_pos_is_pos(p * len + 99, 100);
}

/// A stable insertion by value: the new value goes after every value
/// that does not exceed it.
pub open spec fn insert_sorted_val(s: Seq<u64>, x: u64) -> Seq<u64>
    decreases s.len(),
{
    if s.len() == 0 {
        seq![x]
    } else if x < s.last() {
        insert_sorted_val(s.drop_last(), x).push(s.last())
    } else {
        s.push(x)
    }
}

/// The sorted copy of a value sequence, by insertion.
pub open spec fn sorted_of(s: Seq<u64>) -> Seq<u64>
    decreases s.len(),
{
    if s.len() == 0 {
        Seq::<u64>::empty()
    } else {
        insert_sorted_val(sorted_of(s.drop_last()), s.last())
    }
}

/// An insertion position splitting the values within `x` from those
/// past it pins the insertion exactly.
proof fn lemma_insert_val_at(s: Seq<u64>, x: u64, p: int)
    requires
        0 <= p <= s.len(),
        forall|i: int| p <= i < s.len() ==> (#[trigger] s[i]) > x,
        p == 0 || s[p - 1] <= x,
    ensures
        insert_sorted_val(s, x) == s.insert(p, x),
    decreases s.len(),
{
    if s.len() == 0 {
        assert(insert_sorted_val(s, x) =~= s.insert(0, x));
    } else if x < s.last() {
        assert(p < s.len()) by {
            if p == s.len() {
                assert(s[s.len() - 1] == s.last());
            }
        }
        let s0 = s.drop_last();
        assert forall|i: int| p <= i < s0.len() implies (#[trigger] s0[i]) > x by {
            assert(s0[i] == s[i]);
        }
        if p > 0 {
            assert(s0[p - 1] == s[p - 1]);
        }
        lemma_insert_val_at(s0, x, p);
        assert(insert_sorted_val(s0, x).push(s.last()) =~= s.insert(p, x)) by {
            assert(insert_sorted_val(s0, x) == s0.insert(p, x));
        }
    } else {
        assert(p == s.len()) by {
            if p < s.len() {
                assert(s[s.len() - 1] == s.last());
            }
        }
        assert(s.push(x) =~= s.insert(s.len() as int, x));
    }
}

/// A sorted copy of a value vector, by insertion; the result is
/// exactly the specification's sort and holds values of the input.
fn sort_values(v: &Vec<u64>) -> (out: Vec<u64>)
    ensures
        out@ == sorted_of(v@),
        values_sorted(out@),
        out@.len() == v@.len(),
        forall|k: int| 0 <= k < out@.len() ==> v@.contains(#[trigger] out@[k]),
{
    let n = v.len();
    let mut out: Vec<u64> = Vec::new();
    let mut i: usize = 0;
    while i < n
        invariant
            i <= n,
            n == v@.len(),
            out@.len() == i,
            values_sorted(out@),
            out@ == sorted_of(v@.take(i as int)),
            forall|k: int| 0 <= k < out@.len() ==> v@.contains(#[trigger] out@[k]),
        decreases n - i,
    {
        let x = v[i];
        proof {
            assert(v@.take(i as int + 1).drop_last() =~= v@.take(i as int));
            assert(v@.take(i as int + 1).last() == v@[i as int]);
        }
        let mut p: usize = out.len();
        while p > 0
            invariant
                p <= out@.len(),
                forall|k: int| p <= k < out@.len() ==> (#[trigger] out@[k]) > x,
            ensures
                p <= out@.len(),
                forall|k: int| p <= k < out@.len() ==> (#[trigger] out@[k]) > x,
                p == 0 || out@[p - 1] <= x,
            decreases p,
        {
            if out[p - 1] <= x {
                break;
            }
            p = p - 1;
        }
        let ghost before = out@;
        proof {
            lemma_insert_val_at(before, x, p as int);
        }
        out.insert(p, x);
        proof {
            assert forall|a: int, b: int| 0 <= a < b < out@.len() implies out@[a] <= out@[b] by {
                let pi = p as int;
                if b < pi {
                    assert(out@[a] == before[a] && out@[b] == before[b]);
                } else if a > pi {
                    assert(out@[a] == before[a - 1] && out@[b] == before[b - 1]);
                } else if a < pi && b == pi {
                    assert(out@[a] == before[a] && out@[b] == x);
                    assert(before[pi - 1] <= x);
                } else if a == pi && b > pi {
                    assert(out@[a] == x && out@[b] == before[b - 1]);
                } else if a < pi && b > pi {
                    assert(out@[a] == before[a] && out@[b] == before[b - 1]);
                }
            }
            assert forall|k: int| 0 <= k < out@.len() implies v@.contains(#[trigger] out@[k]) by {
                let pi = p as int;
                if k < pi {
                    assert(out@[k] == before[k]);
                } else if k > pi {
                    assert(out@[k] == before[k - 1]);
                } else {
                    assert(out@[k] == x);
                    assert(v@[i as int] == x);
                }
            }
        }
        i = i + 1;
    }
    proof {
        assert(v@.take(n as int) =~= v@);
    }
    out
}

/// Aggregated statistics of one tracked metric: mean and standard
/// deviation scaled by one hundred, percentiles, minimum and maximum.
#[derive(Clone, Copy, Debug, PartialEq, Eq)]
pub struct AggregatedStatistics {
    pub mean_centi: u64,
    pub p10: u64,
    pub p25: u64,
    pub p50: u64,
    pub p75: u64,
    pub p90: u64,
    pub p95: u64,
    pub p99: u64,
    pub min: u64,
    pub max: u64,
    pub stddev_centi: u64,
}

/// The percentile ordering every aggregate satisfies: percentiles
/// ascend, and the observed extremes bracket them.
pub open spec fn percentiles_ordered(a: AggregatedStatistics) -> bool {
    &&& a.min <= a.p10 <= a.p25 <= a.p50 <= a.p75 <= a.p90 <= a.p95 <= a.p99 <= a.max
}

/// One metric's streaming state: the exact accumulator plus the
/// percentile reservoir.
#[derive(Clone, Debug)]
pub struct StreamingStatistics {
    pub acc: StatsAccumulator,
    pub reservoir: Reservoir,
}

/// The exact aggregate a nonempty stream finalizes to: the accumulator
/// read out, and the percentiles of the sorted reservoir sample.
pub open spec fn aggregate_of(st: StreamingStatistics) -> AggregatedStatistics {
    let sorted = sorted_of(st.reservoir.sample@);
    AggregatedStatistics {
        mean_centi: mean_centi_of(st.acc),
        p10: sorted[pct_index(10, sorted.len() as int)],
        p25: sorted[pct_index(25, sorted.len() as int)],
        p50: sorted[pct_index(50, sorted.len() as int)],
        p75: sorted[pct_index(75, sorted.len() as int)],
        p90: sorted[pct_index(90, sorted.len() as int)],
        p95: sorted[pct_index(95, sorted.len() as int)],
        p99: sorted[pct_index(99, sorted.len() as int)],
        min: st.acc.min,
        max: st.acc.max,
        stddev_centi: stddev_centi_of(st.acc),
    }
}

impl StreamingStatistics {
    /// Everything the reservoir retains lies between the observed
    /// extremes, and it is nonempty exactly when the stream is.
    pub open spec fn wf(self) -> bool {
        &&& self.reservoir.sample@.len() <= RESERVOIR_CAPACITY
        &&& (self.acc.count == 0 <==> self.reservoir.sample@.len() == 0)
        &&& forall|k: int|
            0 <= k < self.reservoir.sample@.len() ==> self.acc.min <= (
            #[trigger] self.reservoir.sample@[k]) <= self.acc.max
    }

    /// An empty stream.
    pub fn new() -> (r: StreamingStatistics)
        ensures
            r.wf(),
            r.acc == fresh_acc(),
            r.reservoir.sample@.len() == 0,
    {
        StreamingStatistics { acc: StatsAccumulator::new(), reservoir: Reservoir::new() }
    }

    /// One more observation: the accumulator steps exactly; while the
    /// reservoir fills it keeps every value in order, and afterwards
    /// every retained value is the new one or one already present.
    pub fn update(&mut self, x: u64, rng: &mut SimRng)
        requires
            old(self).wf(),
        ensures
            final(self).wf(),
            final(self).acc.count > 0,
            final(self).acc == acc_after(old(self).acc, x),
            final(self).reservoir.count == sat_add(
                old(self).reservoir.count as int,
                1,
                u64::MAX as int,
            ),
            old(self).reservoir.sample@.len() < RESERVOIR_CAPACITY ==> final(self).reservoir.sample@
                == old(self).reservoir.sample@.push(x),
            final(self).reservoir.sample@.len() == if old(self).reservoir.sample@.len()
                < RESERVOIR_CAPACITY {
                old(self).reservoir.sample@.len() + 1
            } else {
                old(self).reservoir.sample@.len()
            },
            forall|k: int|
                0 <= k < final(self).reservoir.sample@.len()
                    ==> (#[trigger] final(self).reservoir.sample@[k]) == x || (k < old(
                    self,
                ).reservoir.sample@.len() && final(self).reservoir.sample@[k] == old(
                    self,
                ).reservoir.sample@[k]),
    {
        self.acc.update(x);
        self.reservoir.update(x, rng);
    }

    /// The aggregate of the stream: none when empty, else ordered
    /// percentiles bracketed by the exact minimum and maximum.
    pub fn finalize(&self) -> (r: Option<AggregatedStatistics>)
        requires
            self.wf(),
        ensures
            r is Some <==> self.acc.count > 0,
            r matches Option::Some(a) ==> a == aggregate_of(*self) && percentiles_ordered(a)
                && a.min == self.acc.min && a.max == self.acc.max,
    {
        if self.acc.count == 0 {
            return Option::None;
        }
        let sorted = sort_values(&self.reservoir.sample);
        proof {
            assert forall|k: int| 0 <= k < sorted@.len() implies self.acc.min <= (
                #[trigger] sorted@[k]) <= self.acc.max by {
                assert(self.reservoir.sample@.contains(sorted@[k]));
                let j = choose|j: int|
                    0 <= j < self.reservoir.sample@.len() && self.reservoir.sample@[j] == sorted@[k];
            }
            lemma_pct_index_mono(10, 25, sorted@.len() as int);
            lemma_pct_index_mono(25, 50, sorted@.len() as int);
            lemma_pct_index_mono(50, 75, sorted@.len() as int);
            lemma_pct_index_mono(75, 90, sorted@.len() as int);
            lemma_pct_index_mono(90, 95, sorted@.len() as int);
            lemma_pct_index_mono(95, 99, sorted@.len() as int);
        }
        let p10 = pct_value(&sorted, 10);
        let p25 = pct_value(&sorted, 25);
        let p50 = pct_value(&sorted, 50);
        let p75 = pct_value(&sorted, 75);
        let p90 = pct_value(&sorted, 90);
        let p95 = pct_value(&sorted, 95);
        let p99 = pct_value(&sorted, 99);
        Option::Some(
            AggregatedStatistics {
                mean_centi: self.acc.mean_centi(),
                p10,
                p25,
                p50,
                p75,
                p90,
                p95,
                p99,
                min: self.acc.min,
                max: self.acc.max,
                stddev_centi: self.acc.stddev_centi(),
            },
        )
    }
}

} // verus!
