//! A counted resource capacity with an ordered multiset of release times.
//!
//! The pool supports an availability query at a time `t` (dropping holds
//! whose release time has passed) and a timed acquisition that books `k`
//! holds until `t + d`.  All operations have exact functional contracts
//! over the pool's view.

use vstd::prelude::*;

use crate::util::{sat_add, sat_add128, sat_add64};

verus! {

/// Ascending order over a sequence of times.
pub open spec fn time_sorted(s: Seq<u64>) -> bool {
    forall|i: int, j: int| 0 <= i < j < s.len() ==> s[i] <= s[j]
}

/// The length of the leading prefix of values at most `t`.
pub open spec fn lead_le(s: Seq<u64>, t: u64) -> int
    decreases s.len(),
{
    if s.len() == 0 {
        0
    } else if s[0] <= t {
        1 + lead_le(s.drop_first(), t)
    } else {
        0
    }
}

/// The sequence with its leading prefix of values at most `t` removed.
pub open spec fn drop_released(s: Seq<u64>, t: u64) -> Seq<u64> {
    s.skip(lead_le(s, t))
}

/// `k` copies of `v` inserted at position `pos`.
pub open spec fn insert_copies(s: Seq<u64>, pos: int, v: u64, k: nat) -> Seq<u64>
    decreases k,
{
    if k == 0 {
        s
    } else {
        insert_copies(s.insert(pos, v), pos, v, (k - 1) as nat)
    }
}

pub proof fn lemma_lead_le_bounds(s: Seq<u64>, t: u64)
    ensures
        0 <= lead_le(s, t) <= s.len(),
        forall|i: int| 0 <= i < lead_le(s, t) ==> s[i] <= t,
    decreases s.len(),
{
    if s.len() != 0 && s[0] <= t {
        lemma_lead_le_bounds(s.drop_first(), t);
        assert forall|i: int| 0 <= i < lead_le(s, t) implies s[i] <= t by {
            if i > 0 {
                assert(s.drop_first()[i - 1] == s[i]);
            }
        }
    }
}

/// A position is the leading prefix length exactly when everything before
/// it is at most `t` and the element at it (if any) is past `t`.
pub proof fn lemma_lead_le_char(s: Seq<u64>, t: u64, c: int)
    requires
        0 <= c <= s.len(),
        forall|i: int| 0 <= i < c ==> s[i] <= t,
        c == s.len() || s[c] > t,
        time_sorted(s),
    ensures
        c == lead_le(s, t),
    decreases s.len(),
{
    if s.len() == 0 {
    } else if s[0] <= t {
        assert(c >= 1) by {
            if c == 0 {
                assert(s[0] > t);
            }
        }
        let s1 = s.drop_first();
        assert forall|i: int| 0 <= i < c - 1 implies s1[i] <= t by {
            assert(s1[i] == s[i + 1]);
        }
        assert(c - 1 == s1.len() || s1[c - 1] > t);
        lemma_lead_le_char(s1, t, c - 1);
    } else {
        assert(c == 0) by {
            if c > 0 {
                assert(s[0] <= t);
            }
        }
    }
}

/// In a sorted sequence, an element at most `t` pulls the whole prefix
/// before it under `t`, so the leading prefix extends past it.
pub proof fn lemma_lead_le_ge(s: Seq<u64>, t: u64, m: int)
    requires
        time_sorted(s),
        0 <= m < s.len(),
        s[m] <= t,
    ensures
        lead_le(s, t) >= m + 1,
    decreases s.len(),
{
    assert(s[0] <= t);
    let s1 = s.drop_first();
    lemma_lead_le_bounds(s1, t);
    assert(lead_le(s, t) == 1 + lead_le(s1, t));
    if m > 0 {
        assert(s1[m - 1] == s[m]);
        assert(time_sorted(s1)) by {
            assert forall|i: int, j: int| 0 <= i < j < s1.len() implies s1[i] <= s1[j] by {
                assert(s1[i] == s[i + 1] && s1[j] == s[j + 1]);
            }
        }
        lemma_lead_le_ge(s1, t, m - 1);
    }
}

/// After dropping the released prefix of a sorted sequence, what remains
/// is sorted and strictly past `t`.
pub proof fn lemma_drop_released(s: Seq<u64>, t: u64)
    requires
        time_sorted(s),
    ensures
        time_sorted(drop_released(s, t)),
        forall|i: int| 0 <= i < drop_released(s, t).len() ==> drop_released(s, t)[i] > t,
        drop_released(s, t).len() == s.len() - lead_le(s, t),
{
    lemma_lead_le_bounds(s, t);
    let c = lead_le(s, t);
    let r = drop_released(s, t);
    assert forall|i: int| 0 <= i < r.len() implies r[i] > t by {
        assert(r[i] == s[c + i]);
        if s[c + i] <= t {
            lemma_lead_le_ge(s, t, c + i);
        }
    }
}

/// Inserting copies of `v` at the boundary of the prefix at most `v`
/// keeps a sorted sequence sorted and grows it by `k`.
pub proof fn lemma_insert_copies_sorted(s: Seq<u64>, v: u64, k: nat)
    requires
        time_sorted(s),
    ensures
        time_sorted(insert_copies(s, lead_le(s, v), v, k)),
        insert_copies(s, lead_le(s, v), v, k).len() == s.len() + k,
    decreases k,
{
    lemma_lead_le_bounds(s, v);
    if k > 0 {
        let pos = lead_le(s, v);
        let s1 = s.insert(pos, v);
        lemma_drop_released(s, v);
        assert forall|i: int, j: int| 0 <= i < j < s1.len() implies s1[i] <= s1[j] by {
            if j < pos {
                assert(s1[i] == s[i] && s1[j] == s[j]);
            } else if i > pos {
                assert(s1[i] == s[i - 1] && s1[j] == s[j - 1]);
            } else if i < pos && j == pos {
                assert(s1[i] == s[i] && s1[j] == v);
            } else if i < pos && j > pos {
                assert(s1[i] == s[i] && s1[j] == s[j - 1]);
                if j - 1 >= pos {
                    assert(drop_released(s, v)[j - 1 - pos] == s[j - 1]);
                }
            } else if i == pos && j > pos {
                assert(s1[i] == v && s1[j] == s[j - 1]);
                assert(drop_released(s, v)[j - 1 - pos] == s[j - 1]);
            }
        }
        assert forall|i: int| 0 <= i < pos implies s1[i] <= v by {
            assert(s1[i] == s[i]);
        }
        assert(s1[pos] == v);
        lemma_lead_le_char(s1, v, pos + 1);
        assert(lead_le(s1, v) == pos + 1);
        lemma_insert_copies_sorted_at(s1, pos, v, (k - 1) as nat);
    }
}

/// Helper: inserting further copies at a fixed in-prefix position keeps
/// the sequence sorted.
proof fn lemma_insert_copies_sorted_at(s: Seq<u64>, pos: int, v: u64, k: nat)
    requires
        time_sorted(s),
        0 <= pos < s.len(),
        s[pos] == v,
        forall|i: int| 0 <= i < pos ==> s[i] <= v,
    ensures
        time_sorted(insert_copies(s, pos, v, k)),
        insert_copies(s, pos, v, k).len() == s.len() + k,
    decreases k,
{
    if k > 0 {
        let s1 = s.insert(pos, v);
        assert forall|i: int, j: int| 0 <= i < j < s1.len() implies s1[i] <= s1[j] by {
            if j < pos {
                assert(s1[i] == s[i] && s1[j] == s[j]);
            } else if i > pos {
                assert(s1[i] == s[i - 1] && s1[j] == s[j - 1]);
            } else if i < pos && j == pos {
                assert(s1[i] == s[i] && s1[j] == v);
            } else if i < pos && j > pos {
                assert(s1[i] == s[i] && s1[j] == s[j - 1]);
                assert(s[i] <= v);
                assert(v == s[pos] <= s[j - 1] || j - 1 == pos);
            } else if i == pos && j > pos {
                assert(s1[i] == v && s1[j] == s[j - 1]);
                assert(v == s[pos] <= s[j - 1] || j - 1 == pos);
            }
        }
        assert forall|i: int| 0 <= i < pos implies s1[i] <= v by {
            assert(s1[i] == s[i]);
        }
        lemma_insert_copies_sorted_at(s1, pos, v, (k - 1) as nat);
    }
}

/// The mathematical state of a pool.
pub ghost struct PoolView {
    pub total: u32,
    pub held: Seq<u64>,
    pub busy: u128,
    pub allocations: u64,
    pub denials: u64,
    pub last_cleanup: u64,
}

impl PoolView {
    /// Well-formedness: holds sorted by release time, never more holds
    /// than the capacity.
    pub open spec fn wf(self) -> bool {
        &&& time_sorted(self.held)
        &&& self.held.len() <= self.total
    }
}

/// The pool state after an availability query at `t`: holds released by
/// `t` are dropped, unless `t` was already processed.
pub open spec fn query_model(p: PoolView, t: u64) -> PoolView {
    if t > p.last_cleanup {
        PoolView { held: drop_released(p.held, t), last_cleanup: t, ..p }
    } else {
        p
    }
}

/// The number of free units after a query at `t`.
pub open spec fn avail_model(p: PoolView, t: u64) -> int {
    p.total - query_model(p, t).held.len()
}

/// Whether an acquisition of `k` units at `t` succeeds.
pub open spec fn acquire_ok(p: PoolView, t: u64, k: u32) -> bool {
    avail_model(p, t) >= k
}

/// The pool state after `try_acquire(t, d, k)`.
pub open spec fn acquire_model(p: PoolView, t: u64, d: u64, k: u32) -> PoolView {
    let q = query_model(p, t);
    if acquire_ok(p, t, k) {
        let release = sat_add(t as int, d as int, u64::MAX as int) as u64;
        PoolView {
            held: insert_copies(q.held, lead_le(q.held, release), release, k as nat),
            busy: sat_add(q.busy as int, d as int * k as int, u128::MAX as int) as u128,
            allocations: sat_add(q.allocations as int, k as int, u64::MAX as int) as u64,
            ..q
        }
    } else {
        PoolView { denials: sat_add(q.denials as int, k as int, u64::MAX as int) as u64, ..q }
    }
}

/// The utilization of a capacity over a horizon, in thousandths, clamped
/// to one: `min(1, busy / (total * horizon))` rounded to three places.
pub open spec fn util_permille_of(total: u32, busy: u128, horizon: u64) -> u32 {
    let denom = total as int * horizon as int;
    if total == 0 || horizon == 0 {
        0
    } else if busy >= denom {
        1000
    } else {
        ((2000 * busy + denom) / (2 * denom)) as u32
    }
}

/// Utilization never exceeds one.
pub proof fn lemma_util_permille_bounded(total: u32, busy: u128, horizon: u64)
    ensures
        util_permille_of(total, busy, horizon) <= 1000,
{
    if total != 0 && horizon != 0 && busy < total as int * horizon as int {
        let denom = total as int * horizon as int;
        assert(denom > 0) by (nonlinear_arith)
            requires total >= 1, horizon >= 1, denom == total as int * horizon as int;
        let num = 2000 * busy as int + denom;
        assert(num < (2 * denom) * 1001) by (nonlinear_arith)
            requires busy < denom, denom > 0, num == 2000 * busy + denom;
        vstd::arithmetic::div_mod::lemma_multiply_divide_lt(num, 2 * denom, 1001);
        vstd::arithmetic::div_mod::lemma_div_pos_is_pos(num, 2 * denom);
        assert(0 <= num / (2 * denom) <= 1000);
    }
}

/// A counted capacity with an ordered list of release times for the
/// holds currently booked.
pub struct ResourcePool {
    pub total: u32,
    pub held: Vec<u64>,
    pub busy: u128,
    pub allocations: u64,
    pub denials: u64,
    pub last_cleanup: u64,
}

impl View for ResourcePool {
    type V = PoolView;

    open spec fn view(&self) -> PoolView {
        PoolView {
            total: self.total,
            held: self.held@,
            busy: self.busy,
            allocations: self.allocations,
            denials: self.denials,
            last_cleanup: self.last_cleanup,
        }
    }
}

/// The index splitting a sorted list into the prefix at most `t` and the
/// rest, by binary search.
fn cut_index(v: &Vec<u64>, t: u64) -> (c: usize)
    requires
        time_sorted(v@),
    ensures
        c == lead_le(v@, t),
{
    let mut lo: usize = 0;
    let mut hi: usize = v.len();
    while lo < hi
        invariant
            0 <= lo <= hi <= v@.len(),
            time_sorted(v@),
            forall|i: int| 0 <= i < lo ==> v@[i] <= t,
            forall|i: int| hi <= i < v@.len() ==> v@[i] > t,
        decreases hi - lo,
    {
        let mid: usize = lo + (hi - lo) / 2;
        if v[mid] <= t {
            assert forall|i: int| 0 <= i < mid + 1 implies v@[i] <= t by {
                if i < mid {
                    assert(v@[i] <= v@[mid as int]);
                }
            }
            lo = mid + 1;
        } else {
            assert forall|i: int| mid <= i < v@.len() implies v@[i] > t by {
                if i > mid {
                    assert(v@[mid as int] <= v@[i]);
                }
            }
            hi = mid;
        }
    }
    proof {
        lemma_lead_le_char(v@, t, lo as int);
    }
    lo
}

impl ResourcePool {
    /// An empty pool of the given capacity.
    pub fn new(total: u32) -> (p: ResourcePool)
        ensures
            p@.wf(),
            p@ == (PoolView {
                total,
                held: Seq::<u64>::empty(),
                busy: 0,
                allocations: 0,
                denials: 0,
                last_cleanup: 0,
            }),
    {
        let p = ResourcePool {
            total,
            held: Vec::new(),
            busy: 0,
            allocations: 0,
            denials: 0,
            last_cleanup: 0,
        };
        proof {
            assert(p@.held =~= Seq::<u64>::empty());
        }
        p
    }

    /// Free units at time `t`, after dropping holds already released.
    pub fn available_at(&mut self, t: u64) -> (avail: u32)
        requires
            old(self)@.wf(),
        ensures
            final(self)@.wf(),
            final(self)@ == query_model(old(self)@, t),
            avail == avail_model(old(self)@, t),
    {
        proof {
            lemma_drop_released(self@.held, t);
        }
        if t > self.last_cleanup {
            let c = cut_index(&self.held, t);
            let tail = self.held.split_off(c);
            self.held = tail;
            self.last_cleanup = t;
            proof {
                assert(self@.held =~= drop_released(old(self)@.held, t));
            }
        }
        self.total - (self.held.len() as u32)
    }

    /// Books `k` holds until `t + d` when `k` units are free at `t`;
    /// otherwise counts a denial and leaves the holds unchanged.
    pub fn try_acquire(&mut self, t: u64, d: u64, k: u32) -> (ok: bool)
        requires
            old(self)@.wf(),
        ensures
            final(self)@.wf(),
            final(self)@ == acquire_model(old(self)@, t, d, k),
            ok == acquire_ok(old(self)@, t, k),
    {
        let avail = self.available_at(t);
        if avail >= k {
            let release = sat_add64(t, d);
            let pos = cut_index(&self.held, release);
            let ghost q = self@;
            let ghost cleaned = q.held;
            proof {
                lemma_lead_le_bounds(cleaned, release);
            }
            let mut j: u32 = 0;
            while j < k
                invariant
                    j <= k,
                    time_sorted(cleaned),
                    pos == lead_le(cleaned, release),
                    pos <= cleaned.len(),
                    cleaned.len() + k <= q.total,
                    self@ == (PoolView {
                        held: insert_copies(cleaned, pos as int, release, j as nat),
                        ..q
                    }),
                    self.held@.len() == cleaned.len() + j,
                decreases k - j,
            {
                proof {
                    lemma_insert_copies_prefix(cleaned, pos as int, release, j as nat);
                }
                self.held.insert(pos, release);
                proof {
                    lemma_insert_copies_step(cleaned, pos as int, release, j as nat);
                }
                j = j + 1;
            }
            proof {
                lemma_insert_copies_sorted(cleaned, release, k as nat);
                assert((d as int) * (k as int) <= 0xFFFF_FFFF_FFFF_FFFF * 0xFFFF_FFFF)
                    by (nonlinear_arith)
                    requires d <= 0xFFFF_FFFF_FFFF_FFFF, k <= 0xFFFF_FFFF;
            }
            self.busy = sat_add128(self.busy, (d as u128) * (k as u128));
            self.allocations = sat_add64(self.allocations, k as u64);
            true
        } else {
            self.denials = sat_add64(self.denials, k as u64);
            false
        }
    }

    /// Utilization of this pool over the horizon, in thousandths.
    pub fn utilization(&self, horizon: u64) -> (p: u32)
        ensures
            p == util_permille_of(self.total, self.busy, horizon),
            p <= 1000,
    {
        proof {
            lemma_util_permille_bounded(self.total, self.busy, horizon);
        }
        if self.total == 0 || horizon == 0 {
            return 0;
        }
        proof {
            assert(0 < (self.total as int) * (horizon as int) < 0x1_0000_0000_0000_0000_0000_0000)
                by (nonlinear_arith)
                requires 1 <= self.total <= 0x1_0000_0000, 1 <= horizon <= 0x1_0000_0000_0000_0000;
        }
        let denom: u128 = (self.total as u128) * (horizon as u128);
        if self.busy >= denom {
            1000
        } else {
            proof {
                assert(2000 * (self.busy as int) + (denom as int) < (2 * denom as int) * 1001)
                    by (nonlinear_arith)
                    requires self.busy < denom, denom > 0;
            }
            let num: u128 = 2000 * self.busy + denom;
            proof {
                vstd::arithmetic::div_mod::lemma_multiply_divide_lt(num as int, 2 * denom as int, 1001);
                vstd::arithmetic::div_mod::lemma_div_pos_is_pos(num as int, 2 * denom as int);
                assert(0 <= (num as int) / (2 * denom as int) <= 1000);
            }
            let q: u128 = num / (2 * denom);
            q as u32
        }
    }
}

/// The first `pos` entries are untouched by the inserts at `pos`.
proof fn lemma_insert_copies_prefix(s: Seq<u64>, pos: int, v: u64, k: nat)
    requires
        0 <= pos <= s.len(),
    ensures
        insert_copies(s, pos, v, k).len() == s.len() + k,
        forall|i: int| 0 <= i < pos ==> insert_copies(s, pos, v, k)[i] == s[i],
    decreases k,
{
    if k > 0 {
        let s1 = s.insert(pos, v);
        lemma_insert_copies_prefix(s1, pos, v, (k - 1) as nat);
        assert(insert_copies(s, pos, v, k) == insert_copies(s1, pos, v, (k - 1) as nat));
        assert forall|i: int| 0 <= i < pos implies insert_copies(s, pos, v, k)[i] == s[i] by {
            assert(insert_copies(s1, pos, v, (k - 1) as nat)[i] == s1[i]);
            assert(s1[i] == s[i]);
        }
    }
}

/// One more insert extends the copy count by one.
proof fn lemma_insert_copies_step(s: Seq<u64>, pos: int, v: u64, k: nat)
    requires
        0 <= pos <= s.len(),
    ensures
        insert_copies(s, pos, v, k).insert(pos, v) == insert_copies(s, pos, v, (k + 1) as nat),
    decreases k,
{
    let s1 = s.insert(pos, v);
    if k == 0 {
        assert(insert_copies(s, pos, v, 1nat) == insert_copies(s1, pos, v, 0nat));
    } else {
        lemma_insert_copies_step(s1, pos, v, (k - 1) as nat);
        assert(insert_copies(s, pos, v, k) == insert_copies(s1, pos, v, (k - 1) as nat));
        assert(insert_copies(s, pos, v, (k + 1) as nat) == insert_copies(s1, pos, v, k));
    }
}

} // verus!
