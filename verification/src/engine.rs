//! The discrete-event engine: demand events consumed in time order,
//! one unit selected per mission, durations sampled, resources acquired
//! atomically per dimension, counters and a timeline recorded.
//!
//! The run's counters balance exactly: every request is started,
//! rejected, or skipped for an unknown mission type; rejection reasons
//! sum to the rejections; completions never exceed starts; utilization
//! never exceeds one; mission timeline segments run forward and cover
//! the mission's span.

use vstd::pervasive::VecAdditionalExecFns;
use vstd::prelude::*;

use crate::MilliHours;
use crate::demand::{all_demand_settled, det_demand_events, generate_demand, DemandEvent};
use crate::dist::{sample, Distribution};
use crate::pool::{acquire_model, acquire_ok, avail_model, query_model, PoolView, ResourcePool, util_permille_of};
use crate::rng::SimRng;
use crate::state::{apply_overrides, derive_initial_from_state, spec_initial, spec_with_overrides, InitialView};
use crate::types::{
    Aircrew, CrewCounts, InitialResources, MissionStats, MissionType, Options, ProcessTimes,
    Rejections, RejectReason, Results, Scenario, SimError, TimelineEvent, Utilization,
    timeline_event_wf,
};
use crate::util::{sat_add, sat_add64};

verus! {

/// The pools and bookkeeping of one unit.
pub struct UnitPools {
    pub aircraft: ResourcePool,
    pub pilot: ResourcePool,
    pub so: ResourcePool,
    pub payloads: Vec<(String, ResourcePool)>,
    pub finishes: Vec<MilliHours>,
}

/// The mathematical state of one unit's pools.
pub ghost struct UnitView {
    pub aircraft: PoolView,
    pub pilot: PoolView,
    pub so: PoolView,
    pub payloads: Seq<(Seq<char>, PoolView)>,
    pub finishes: Seq<u64>,
}

impl View for UnitPools {
    type V = UnitView;

    open spec fn view(&self) -> UnitView {
        UnitView {
            aircraft: self.aircraft@,
            pilot: self.pilot@,
            so: self.so@,
            payloads: self.payloads@.map_values(|p: (String, ResourcePool)| (p.0@, p.1@)),
            finishes: self.finishes@,
        }
    }
}

/// Every pool of a unit is well-formed.
pub open spec fn unit_wf(u: UnitView) -> bool {
    &&& u.aircraft.wf()
    &&& u.pilot.wf()
    &&& u.so.wf()
    &&& forall|i: int| 0 <= i < u.payloads.len() ==> (#[trigger] u.payloads[i]).1.wf()
}

/// Every pool of every unit is well-formed.
pub open spec fn pools_wf(ps: Seq<UnitView>) -> bool {
    forall|i: int| 0 <= i < ps.len() ==> unit_wf(#[trigger] ps[i])
}

/// The total number of booked mission finishes across the first `n`
/// units.
pub open spec fn total_finishes(ps: Seq<UnitView>, n: int) -> int
    decreases n,
{
    if n <= 0 {
        0
    } else {
        total_finishes(ps, n - 1) + ps[n - 1].finishes.len()
    }
}

/// Updating one unit shifts the total by its finish-count change.
proof fn lemma_total_finishes_update(ps: Seq<UnitView>, n: int, u: int, nv: UnitView)
    requires
        0 <= u < ps.len(),
        n <= ps.len(),
    ensures
        total_finishes(ps.update(u, nv), n) == if u < n {
            total_finishes(ps, n) - ps[u].finishes.len() + nv.finishes.len()
        } else {
            total_finishes(ps, n)
        },
    decreases n,
{
    if n > 0 {
        lemma_total_finishes_update(ps, n - 1, u, nv);
    }
}

/// An empty pool, used to swap a unit out of the vector while it is
/// being worked on.
fn placeholder_unit() -> UnitPools {
    UnitPools {
        aircraft: ResourcePool::new(0),
        pilot: ResourcePool::new(0),
        so: ResourcePool::new(0),
        payloads: Vec::new(),
        finishes: Vec::new(),
    }
}

/// A fresh pool view of a capacity.
pub open spec fn fresh_pool(total: u32) -> PoolView {
    PoolView {
        total,
        held: Seq::<u64>::empty(),
        busy: 0,
        allocations: 0,
        denials: 0,
        last_cleanup: 0,
    }
}

/// The pools a unit starts with, given its inventory entry.
pub open spec fn fresh_unit(aircraft: u32, crew: CrewCounts, payload: Seq<(Seq<char>, u32)>) -> UnitView {
    UnitView {
        aircraft: fresh_pool(aircraft),
        pilot: fresh_pool(crew.pilot),
        so: fresh_pool(crew.so),
        payloads: payload.map_values(|p: (Seq<char>, u32)| (p.0, fresh_pool(p.1))),
        finishes: Seq::<u64>::empty(),
    }
}

/// The pool vector an inventory yields.
pub open spec fn fresh_pools(init: InitialView) -> Seq<UnitView> {
    Seq::new(init.units.len(), |i: int| fresh_unit(init.aircraft[i], init.crew[i], init.payload[i]))
}

/// The first mission type of the given name, or the count when none
/// matches.
pub open spec fn find_type_from(mts: Seq<MissionType>, name: Seq<char>, i: int) -> int
    decreases mts.len() - i,
{
    if i < 0 || i >= mts.len() {
        mts.len() as int
    } else if mts[i].name@ == name {
        i
    } else {
        find_type_from(mts, name, i + 1)
    }
}

/// The index of the mission type with the given name.
pub open spec fn find_type(mts: Seq<MissionType>, name: Seq<char>) -> int {
    find_type_from(mts, name, 0)
}

/// The first mission type of a name.
fn find_mission_type(mts: &Vec<MissionType>, name: &String) -> (res: Option<usize>)
    ensures
        match res {
            Option::Some(i) => i < mts@.len() && find_type(mts@, name@) == i,
            Option::None => find_type(mts@, name@) == mts@.len(),
        },
{
    let n = mts.len();
    let mut i: usize = 0;
    while i < n
        invariant
            i <= n,
            n == mts@.len(),
            find_type_from(mts@, name@, 0) == find_type_from(mts@, name@, i as int),
        decreases n - i,
    {
        if mts[i].name == *name {
            return Option::Some(i);
        }
        i = i + 1;
    }
    Option::None
}

/// The position of the first mount-time entry of a payload type, or
/// the list length when none matches.
pub open spec fn mount_idx_from(mounts: Seq<(String, Distribution)>, name: Seq<char>, i: int) -> int
    decreases mounts.len() - i,
{
    if i < 0 || i >= mounts.len() {
        mounts.len() as int
    } else if mounts[i].0@ == name {
        i
    } else {
        mount_idx_from(mounts, name, i + 1)
    }
}

/// The first mount-time entry of a payload type.
pub open spec fn mount_idx(mounts: Seq<(String, Distribution)>, name: Seq<char>) -> int {
    mount_idx_from(mounts, name, 0)
}

/// The first distribution of a payload type in the mount-time list.
fn find_mount<'a>(mount_times: &'a Vec<(String, Distribution)>, name: &String) -> (res: Option<
    &'a Distribution,
>)
    ensures
        match res {
            Option::Some(d) => mount_idx(mount_times@, name@) < mount_times@.len() && *d
                == mount_times@[mount_idx(mount_times@, name@)].1,
            Option::None => mount_idx(mount_times@, name@) == mount_times@.len(),
        },
{
    let n = mount_times.len();
    let mut i: usize = 0;
    while i < n
        invariant
            i <= n,
            n == mount_times@.len(),
            mount_idx_from(mount_times@, name@, 0) == mount_idx_from(mount_times@, name@, i as int),
        decreases n - i,
    {
        if mount_times[i].0 == *name {
            return Option::Some(&mount_times[i].1);
        }
        i = i + 1;
    }
    Option::None
}

/// The position of the first pool of a payload type, or the pool-list
/// length when none matches.
pub open spec fn payload_idx_from(payloads: Seq<(Seq<char>, PoolView)>, name: Seq<char>, i: int) -> int
    decreases payloads.len() - i,
{
    if i < 0 || i >= payloads.len() {
        payloads.len() as int
    } else if payloads[i].0 == name {
        i
    } else {
        payload_idx_from(payloads, name, i + 1)
    }
}

/// The first pool of a payload type.
pub open spec fn payload_idx(payloads: Seq<(Seq<char>, PoolView)>, name: Seq<char>) -> int {
    payload_idx_from(payloads, name, 0)
}

/// A position holding the first match characterizes the index.
pub proof fn lemma_payload_idx_char(pv: Seq<(Seq<char>, PoolView)>, name: Seq<char>, j: int)
    requires
        0 <= j <= pv.len(),
        forall|k: int| 0 <= k < j ==> (#[trigger] pv[k]).0 != name,
        j == pv.len() || pv[j].0 == name,
    ensures
        payload_idx(pv, name) == j,
    decreases pv.len(),
{
    lemma_payload_idx_char_from(pv, name, j, 0);
}

proof fn lemma_payload_idx_char_from(pv: Seq<(Seq<char>, PoolView)>, name: Seq<char>, j: int, i: int)
    requires
        0 <= i <= j <= pv.len(),
        forall|k: int| 0 <= k < j ==> (#[trigger] pv[k]).0 != name,
        j == pv.len() || pv[j].0 == name,
    ensures
        payload_idx_from(pv, name, i) == j,
    decreases pv.len() - i,
{
    if i < j {
        lemma_payload_idx_char_from(pv, name, j, i + 1);
    }
}

/// The first position of a payload type among a unit's pools.
fn find_payload_pool(payloads: &Vec<(String, ResourcePool)>, name: &String) -> (res: Option<usize>)
    ensures
        match res {
            Option::Some(i) => i < payloads@.len() && payloads@[i as int].0@ == name@ && (forall|
                k: int,
            | 0 <= k < i ==> (#[trigger] payloads@[k]).0@ != name@),
            Option::None => forall|k: int|
                0 <= k < payloads@.len() ==> (#[trigger] payloads@[k]).0@ != name@,
        },
{
    let n = payloads.len();
    let mut i: usize = 0;
    while i < n
        invariant
            i <= n,
            n == payloads@.len(),
            forall|k: int| 0 <= k < i ==> (#[trigger] payloads@[k]).0@ != name@,
        decreases n - i,
    {
        if payloads[i].0 == *name {
            return Option::Some(i);
        }
        i = i + 1;
    }
    Option::None
}

/// One payload admission: the type's pool, created empty when absent,
/// queried at `t`; short when no instance is free.
pub open spec fn admit_step_model(u: UnitView, name: Seq<char>, t: u64) -> (UnitView, bool) {
    let i = payload_idx(u.payloads, name);
    let u1 = if i == u.payloads.len() {
        UnitView { payloads: u.payloads.push((name, fresh_pool(0))), ..u }
    } else {
        u
    };
    let p = u1.payloads[i].1;
    (
        UnitView { payloads: u1.payloads.update(i, (u1.payloads[i].0, query_model(p, t))), ..u1 },
        avail_model(p, t) < 1,
    )
}

/// The first `k` payload admissions, stopping at the first shortage.
pub open spec fn admit_payloads_model(u: UnitView, reqs: Seq<String>, k: int, t: u64) -> (
    UnitView,
    bool,
)
    decreases k,
{
    if k <= 0 {
        (u, false)
    } else {
        let prev = admit_payloads_model(u, reqs, k - 1, t);
        if prev.1 {
            prev
        } else {
            admit_step_model(prev.0, reqs[k - 1]@, t)
        }
    }
}

/// A shortage found early persists through the remaining admissions.
proof fn lemma_admit_sticky(u: UnitView, reqs: Seq<String>, k1: int, k2: int, t: u64)
    requires
        0 <= k1 <= k2,
        admit_payloads_model(u, reqs, k1, t).1,
    ensures
        admit_payloads_model(u, reqs, k2, t) == admit_payloads_model(u, reqs, k1, t),
    decreases k2 - k1,
{
    if k2 > k1 {
        lemma_admit_sticky(u, reqs, k1, k2 - 1, t);
    }
}

/// One payload acquisition of a single instance.
pub open spec fn acquire_step_model(u: UnitView, name: Seq<char>, t: u64, d: u64) -> (
    UnitView,
    bool,
) {
    let i = payload_idx(u.payloads, name);
    if i == u.payloads.len() {
        (u, false)
    } else {
        let p = u.payloads[i].1;
        (
            UnitView {
                payloads: u.payloads.update(i, (u.payloads[i].0, acquire_model(p, t, d, 1))),
                ..u
            },
            acquire_ok(p, t, 1),
        )
    }
}

/// The first `k` payload acquisitions, stopping at the first refusal.
pub open spec fn acquire_payloads_model(u: UnitView, reqs: Seq<String>, k: int, t: u64, d: u64) -> (
    UnitView,
    bool,
)
    decreases k,
{
    if k <= 0 {
        (u, true)
    } else {
        let prev = acquire_payloads_model(u, reqs, k - 1, t, d);
        if !prev.1 {
            prev
        } else {
            acquire_step_model(prev.0, reqs[k - 1]@, t, d)
        }
    }
}

/// A refusal found early persists through the remaining acquisitions.
proof fn lemma_acquire_sticky(u: UnitView, reqs: Seq<String>, k1: int, k2: int, t: u64, d: u64)
    requires
        0 <= k1 <= k2,
        !acquire_payloads_model(u, reqs, k1, t, d).1,
    ensures
        acquire_payloads_model(u, reqs, k2, t, d) == acquire_payloads_model(u, reqs, k1, t, d),
    decreases k2 - k1,
{
    if k2 > k1 {
        lemma_acquire_sticky(u, reqs, k1, k2 - 1, t, d);
    }
}

/// The whole attempt on one unit: admission in fixed order with
/// short-circuit, then acquisition in the same order.
#[verifier::opaque]
pub open spec fn attempt_model(
    u: UnitView,
    reqs: Seq<String>,
    need_pilot: u32,
    need_so: u32,
    t: u64,
    d: u64,
) -> (UnitView, Attempt) {
    let ap = admit_payloads_model(u, reqs, reqs.len() as int, t);
    if ap.1 {
        (ap.0, Attempt::Rejected(RejectReason::Payload))
    } else {
        let u1 = ap.0;
        let u2 = UnitView { aircraft: query_model(u1.aircraft, t), ..u1 };
        if avail_model(u1.aircraft, t) < 1 {
            (u2, Attempt::Rejected(RejectReason::Aircraft))
        } else {
            let u3 = if need_pilot > 0 {
                UnitView { pilot: query_model(u2.pilot, t), ..u2 }
            } else {
                u2
            };
            if need_pilot > 0 && avail_model(u2.pilot, t) < need_pilot {
                (u3, Attempt::Rejected(RejectReason::Pilot))
            } else {
                let u4 = if need_so > 0 {
                    UnitView { so: query_model(u3.so, t), ..u3 }
                } else {
                    u3
                };
                if need_so > 0 && avail_model(u3.so, t) < need_so {
                    (u4, Attempt::Rejected(RejectReason::So))
                } else {
                    let aq = acquire_payloads_model(u4, reqs, reqs.len() as int, t, d);
                    if !aq.1 {
                        (aq.0, Attempt::Refused(RejectReason::Payload))
                    } else {
                        let u5 = aq.0;
                        let u6 = UnitView { aircraft: acquire_model(u5.aircraft, t, d, 1), ..u5 };
                        if !acquire_ok(u5.aircraft, t, 1) {
                            (u6, Attempt::Refused(RejectReason::Aircraft))
                        } else {
                            let u7 = if need_pilot > 0 {
                                UnitView { pilot: acquire_model(u6.pilot, t, d, need_pilot), ..u6 }
                            } else {
                                u6
                            };
                            if need_pilot > 0 && !acquire_ok(u6.pilot, t, need_pilot) {
                                (u7, Attempt::Refused(RejectReason::Pilot))
                            } else {
                                let u8v = if need_so > 0 {
                                    UnitView { so: acquire_model(u7.so, t, d, need_so), ..u7 }
                                } else {
                                    u7
                                };
                                if need_so > 0 && !acquire_ok(u7.so, t, need_so) {
                                    (u8v, Attempt::Refused(RejectReason::So))
                                } else {
                                    (u8v, Attempt::Started)
                                }
                            }
                        }
                    }
                }
            }
        }
    }
}

/// What an admission-and-acquisition attempt produced.
pub enum Attempt {
    /// All dimensions acquired; the mission may start.
    Started,
    /// The admission check found the dimension short.
    Rejected(RejectReason),
    /// The admission check passed but an acquisition was refused; the
    /// request is counted as a rejection of the same dimension without
    /// a timeline record.
    Refused(RejectReason),
}

/// Admission in fixed order (payloads, aircraft, pilots, sensor
/// operators) with short-circuit, then acquisition in the same order.
/// The unit's pools stay well-formed, and its finish list untouched.
fn admit_and_acquire(
    unit: &mut UnitPools,
    req_payloads: &Vec<String>,
    need_pilot: u32,
    need_so: u32,
    t: MilliHours,
    d: MilliHours,
) -> (out: Attempt)
    requires
        unit_wf(old(unit)@),
    ensures
        unit_wf(final(unit)@),
        final(unit)@.finishes == old(unit)@.finishes,
        final(unit)@ == attempt_model(old(unit)@, req_payloads@, need_pilot, need_so, t, d).0,
        out == attempt_model(old(unit)@, req_payloads@, need_pilot, need_so, t, d).1,
{
    proof {
        reveal(attempt_model);
    }
    // admission: every required payload type needs one free instance;
    // a type with no pool gets an empty pool, which then falls short
    let np = req_payloads.len();
    let mut pi: usize = 0;
    let mut short: bool = false;
    while pi < np && !short
        invariant
            pi <= np,
            np == req_payloads@.len(),
            unit_wf(unit@),
            unit@.finishes == old(unit)@.finishes,
            unit@ == admit_payloads_model(old(unit)@, req_payloads@, pi as int, t).0,
            short == admit_payloads_model(old(unit)@, req_payloads@, pi as int, t).1,
        decreases np - pi,
    {
        let name = &req_payloads[pi];
        let ghost prev = unit@;
        let idx: usize = match find_payload_pool(&unit.payloads, name) {
            Option::Some(j) => {
                proof {
                    assert forall|k: int|
                        0 <= k < j implies (#[trigger] prev.payloads[k]).0 != name@ by {
                        assert(prev.payloads[k] == (unit.payloads@[k].0@, unit.payloads@[k].1@));
                    }
                    assert(prev.payloads[j as int].0 == unit.payloads@[j as int].0@);
                    lemma_payload_idx_char(prev.payloads, name@, j as int);
                }
                j
            },
            Option::None => {
                let j = unit.payloads.len();
                proof {
                    assert forall|k: int|
                        0 <= k < prev.payloads.len() implies (#[trigger] prev.payloads[k]).0
                        != name@ by {
                        assert(prev.payloads[k] == (unit.payloads@[k].0@, unit.payloads@[k].1@));
                    }
                    lemma_payload_idx_char(prev.payloads, name@, j as int);
                }
                unit.payloads.push((name.clone(), ResourcePool::new(0)));
                proof {
                    assert(unit@.payloads =~= prev.payloads.push((name@, fresh_pool(0))));
                    assert forall|k: int|
                        0 <= k < unit@.payloads.len() implies (#[trigger] unit@.payloads[k]).1.wf() by {
                        if k < prev.payloads.len() {
                            assert(unit@.payloads[k] == prev.payloads[k]);
                        }
                    }
                }
                j
            },
        };
        let ghost mid = unit@;
        proof {
            assert(idx as int == payload_idx(prev.payloads, name@));
            assert(mid == (UnitView {
                payloads: if payload_idx(prev.payloads, name@) == prev.payloads.len() {
                    prev.payloads.push((name@, fresh_pool(0)))
                } else {
                    prev.payloads
                },
                ..prev
            }));
            assert(unit@.payloads[idx as int].1 == unit.payloads@[idx as int].1@);
            assert(unit@.payloads[idx as int].1.wf());
        }
        let avail = pool_in_list_available(&mut unit.payloads, idx, t);
        proof {
            assert forall|k: int|
                0 <= k < unit@.payloads.len() implies (#[trigger] unit@.payloads[k]).1.wf() by {
                if k != idx {
                    assert(unit@.payloads[k] == (unit.payloads@[k].0@, unit.payloads@[k].1@));
                    assert(mid.payloads[k] == unit@.payloads[k]);
                } else {
                    assert(unit@.payloads[k].1 == unit.payloads@[k].1@);
                }
            }
            assert(unit@.payloads =~= mid.payloads.update(
                idx as int,
                (mid.payloads[idx as int].0, query_model(mid.payloads[idx as int].1, t)),
            ));
            assert((unit@, avail < 1) == admit_step_model(prev, name@, t));
        }
        if avail < 1 {
            short = true;
        }
        pi = pi + 1;
        proof {
            assert(name@ == req_payloads@[pi - 1]@);
            assert(unit@ == admit_payloads_model(old(unit)@, req_payloads@, pi as int, t).0);
            assert(short == admit_payloads_model(old(unit)@, req_payloads@, pi as int, t).1);
        }
    }
    let ghost ap = admit_payloads_model(old(unit)@, req_payloads@, np as int, t);
    proof {
        if short {
            lemma_admit_sticky(old(unit)@, req_payloads@, pi as int, np as int, t);
        }
        assert(unit@ == ap.0 && short == ap.1);
    }
    if short {
        return Attempt::Rejected(RejectReason::Payload);
    }
    let ghost u1 = unit@;
    let avail_ac = unit.aircraft.available_at(t);
    proof {
        assert(unit@.payloads == u1.payloads);
        assert(unit_wf(unit@));
        assert(unit@ == (UnitView { aircraft: query_model(u1.aircraft, t), ..u1 }));
    }
    let ghost u2 = unit@;
    if avail_ac < 1 {
        proof {
            assert(avail_model(u1.aircraft, t) < 1);
        }
        return Attempt::Rejected(RejectReason::Aircraft);
    }
    if need_pilot > 0 {
        let avail_p = unit.pilot.available_at(t);
        proof {
            assert(unit@.payloads == u2.payloads);
            assert(unit_wf(unit@));
            assert(unit@ == (UnitView { pilot: query_model(u2.pilot, t), ..u2 }));
        }
        if avail_p < need_pilot {
            return Attempt::Rejected(RejectReason::Pilot);
        }
    }
    let ghost u3 = unit@;
    if need_so > 0 {
        let avail_s = unit.so.available_at(t);
        proof {
            assert(unit@.payloads == u3.payloads);
            assert(unit_wf(unit@));
            assert(unit@ == (UnitView { so: query_model(u3.so, t), ..u3 }));
        }
        if avail_s < need_so {
            return Attempt::Rejected(RejectReason::So);
        }
    }
    let ghost u4 = unit@;
    // acquisition, in the same order
    let mut pi: usize = 0;
    while pi < np
        invariant
            pi <= np,
            np == req_payloads@.len(),
            unit_wf(unit@),
            unit@.finishes == old(unit)@.finishes,
            unit@ == acquire_payloads_model(u4, req_payloads@, pi as int, t, d).0,
            acquire_payloads_model(u4, req_payloads@, pi as int, t, d).1,
            ({
                let ap = admit_payloads_model(old(unit)@, req_payloads@, np as int, t);
                let u1x = ap.0;
                let u2x = UnitView { aircraft: query_model(u1x.aircraft, t), ..u1x };
                let u3x = if need_pilot > 0 {
                    UnitView { pilot: query_model(u2x.pilot, t), ..u2x }
                } else {
                    u2x
                };
                let u4x = if need_so > 0 {
                    UnitView { so: query_model(u3x.so, t), ..u3x }
                } else {
                    u3x
                };
                &&& !ap.1
                &&& avail_model(u1x.aircraft, t) >= 1
                &&& !(need_pilot > 0 && avail_model(u2x.pilot, t) < need_pilot)
                &&& !(need_so > 0 && avail_model(u3x.so, t) < need_so)
                &&& u4 == u4x
            }),
        decreases np - pi,
    {
        let name = &req_payloads[pi];
        let ghost mid = unit@;
        match find_payload_pool(&unit.payloads, name) {
            Option::Some(j) => {
                proof {
                    assert forall|k: int|
                        0 <= k < j implies (#[trigger] mid.payloads[k]).0 != name@ by {
                        assert(mid.payloads[k] == (unit.payloads@[k].0@, unit.payloads@[k].1@));
                    }
                    assert(mid.payloads[j as int].0 == unit.payloads@[j as int].0@);
                    lemma_payload_idx_char(mid.payloads, name@, j as int);
                    assert(unit@.payloads[j as int].1 == unit.payloads@[j as int].1@);
                    assert(unit@.payloads[j as int].1.wf());
                }
                let ok = pool_in_list_acquire(&mut unit.payloads, j, t, d, 1);
                proof {
                    assert forall|k: int|
                        0 <= k < unit@.payloads.len() implies (#[trigger] unit@.payloads[k]).1.wf() by {
                        if k != j {
                            assert(unit@.payloads[k] == (unit.payloads@[k].0@, unit.payloads@[k].1@));
                            assert(mid.payloads[k] == unit@.payloads[k]);
                        } else {
                            assert(unit@.payloads[k].1 == unit.payloads@[k].1@);
                        }
                    }
                    assert(unit@.payloads =~= mid.payloads.update(
                        j as int,
                        (mid.payloads[j as int].0, acquire_model(mid.payloads[j as int].1, t, d, 1)),
                    ));
                    assert((unit@, ok) == acquire_step_model(mid, name@, t, d));
                    assert(name@ == req_payloads@[pi as int]@);
                }
                if !ok {
                    proof {
                        reveal(attempt_model);
                        lemma_acquire_sticky(u4, req_payloads@, pi as int + 1, np as int, t, d);
                    }
                    return Attempt::Refused(RejectReason::Payload);
                }
            },
            Option::None => {
                // the admission pass creates a pool for every required
                // type, so nothing is found missing here; a miss is a
                // refusal of the payload dimension
                proof {
                    assert forall|k: int|
                        0 <= k < mid.payloads.len() implies (#[trigger] mid.payloads[k]).0
                        != name@ by {
                        assert(mid.payloads[k] == (unit.payloads@[k].0@, unit.payloads@[k].1@));
                    }
                    reveal(attempt_model);
                    lemma_payload_idx_char(mid.payloads, name@, mid.payloads.len() as int);
                    assert((unit@, false) == acquire_step_model(mid, name@, t, d));
                    assert(name@ == req_payloads@[pi as int]@);
                    lemma_acquire_sticky(u4, req_payloads@, pi as int + 1, np as int, t, d);
                }
                return Attempt::Refused(RejectReason::Payload);
            },
        }
        pi = pi + 1;
    }
    let ghost u5 = unit@;
    proof {
        assert(acquire_payloads_model(u4, req_payloads@, np as int, t, d) == (u5, true));
    }
    let ok_ac = unit.aircraft.try_acquire(t, d, 1);
    proof {
        assert(unit@.payloads == u5.payloads);
        assert(unit_wf(unit@));
        assert(unit@ == (UnitView { aircraft: acquire_model(u5.aircraft, t, d, 1), ..u5 }));
    }
    let ghost u6 = unit@;
    if !ok_ac {
        return Attempt::Refused(RejectReason::Aircraft);
    }
    if need_pilot > 0 {
        let ok_p = unit.pilot.try_acquire(t, d, need_pilot);
        proof {
            assert(unit@.payloads == u6.payloads);
            assert(unit_wf(unit@));
            assert(unit@ == (UnitView { pilot: acquire_model(u6.pilot, t, d, need_pilot), ..u6 }));
        }
        if !ok_p {
            return Attempt::Refused(RejectReason::Pilot);
        }
    }
    let ghost u7 = unit@;
    if need_so > 0 {
        let ok_s = unit.so.try_acquire(t, d, need_so);
        proof {
            assert(unit@.payloads == u7.payloads);
            assert(unit_wf(unit@));
            assert(unit@ == (UnitView { so: acquire_model(u7.so, t, d, need_so), ..u7 }));
        }
        if !ok_s {
            return Attempt::Refused(RejectReason::So);
        }
    }
    Attempt::Started
}

/// The view of a pool vector.
pub open spec fn pools_view(ps: Seq<UnitPools>) -> Seq<UnitView> {
    ps.map_values(|u: UnitPools| u@)
}

/// The requested counts of the first `n` per-type records, summed.
pub open spec fn sum_bt_requested(bt: Seq<MissionStats>, n: int) -> int
    decreases n,
{
    if n <= 0 {
        0
    } else {
        sum_bt_requested(bt, n - 1) + bt[n - 1].requested
    }
}

/// Updating one record shifts the sum by its change.
proof fn lemma_sum_bt_update(bt: Seq<MissionStats>, n: int, t: int, nv: MissionStats)
    requires
        0 <= t < bt.len(),
        n <= bt.len(),
    ensures
        sum_bt_requested(bt.update(t, nv), n) == if t < n {
            sum_bt_requested(bt, n) - bt[t].requested + nv.requested
        } else {
            sum_bt_requested(bt, n)
        },
    decreases n,
{
    if n > 0 {
        lemma_sum_bt_update(bt, n - 1, t, nv);
    }
}

/// Each record contributes at least zero and at most itself.
proof fn lemma_sum_bt_bounds(bt: Seq<MissionStats>, n: int)
    requires
        n <= bt.len(),
    ensures
        sum_bt_requested(bt, n) >= 0,
    decreases n,
{
    if n > 0 {
        lemma_sum_bt_bounds(bt, n - 1);
    }
}

/// Finish totals are nonnegative.
proof fn lemma_total_finishes_nonneg(ps: Seq<UnitView>, n: int)
    requires
        n <= ps.len(),
    ensures
        total_finishes(ps, n) >= 0,
    decreases n,
{
    if n > 0 {
        lemma_total_finishes_nonneg(ps, n - 1);
    }
}

/// Prefix totals never exceed the whole.
proof fn lemma_total_finishes_mono(ps: Seq<UnitView>, m: int, n: int)
    requires
        0 <= m <= n <= ps.len(),
    ensures
        total_finishes(ps, m) <= total_finishes(ps, n),
    decreases n,
{
    if n > m {
        lemma_total_finishes_mono(ps, m, n - 1);
    }
}

/// Finishes at or before the horizon among the first `n` of a list.
pub open spec fn spec_count_le(s: Seq<u64>, n: int, h: u64) -> int
    decreases n,
{
    if n <= 0 {
        0
    } else {
        spec_count_le(s, n - 1, h) + if s[n - 1] <= h {
            1int
        } else {
            0int
        }
    }
}

proof fn lemma_count_le_bounds(s: Seq<u64>, n: int, h: u64)
    requires
        0 <= n <= s.len(),
    ensures
        0 <= spec_count_le(s, n, h) <= n,
    decreases n,
{
    if n > 0 {
        lemma_count_le_bounds(s, n - 1, h);
    }
}

/// How many of a unit's finish times fall within the horizon.
fn count_finishes_le(v: &Vec<u64>, h: u64) -> (c: u64)
    ensures
        c == spec_count_le(v@, v@.len() as int, h),
        c <= v@.len(),
{
    proof {
        lemma_count_le_bounds(v@, v@.len() as int, h);
    }
    let n = v.len();
    let mut c: u64 = 0;
    let mut i: usize = 0;
    while i < n
        invariant
            i <= n,
            n == v@.len(),
            c == spec_count_le(v@, i as int, h),
            c <= i,
        decreases n - i,
    {
        if v[i] <= h {
            c = c + 1;
        }
        i = i + 1;
    }
    c
}

/// Utilization of an idle pool is zero.
proof fn lemma_util_zero(total: u32, h: u64)
    ensures
        util_permille_of(total, 0, h) == 0,
{
    if total != 0 && h != 0 {
        let denom = total as int * h as int;
        assert(denom > 0) by (nonlinear_arith)
            requires total >= 1, h >= 1, denom == total as int * h as int;
        assert(0 <= denom < 2 * denom);
        assert(denom / (2 * denom) == 0) by {
            vstd::arithmetic::div_mod::lemma_basic_div(denom, 2 * denom);
        }
    }
}

/// The inventory a run works from, given its options.
pub open spec fn spec_run_initial(s: Scenario, o: Options) -> InitialView {
    match (o.state, o.overrides) {
        (Option::Some(st), Option::Some(ov)) => spec_with_overrides(
            spec_initial(st),
            ov,
            s.mission_types@,
        ),
        (Option::Some(st), Option::None) => spec_initial(st),
        _ => spec_initial(o.state.unwrap()),
    }
}

/// Zero activity: nothing requested, nothing anywhere else either.
pub open spec fn results_zero(r: Results) -> bool {
    &&& r.missions.started == 0
    &&& r.missions.completed == 0
    &&& r.missions.rejected == 0
    &&& r.skipped_unknown == 0
    &&& r.timeline@.len() == 0
    &&& forall|i: int|
        0 <= i < r.utilization@.len() ==> (#[trigger] r.utilization@[i]).1 == (Utilization {
            aircraft: 0,
            pilot: 0,
            so: 0,
        })
}

/// The requested counts of the first `n` named per-type records.
pub open spec fn sum_named_requested(bt: Seq<(String, MissionStats)>, n: int) -> int
    decreases n,
{
    if n <= 0 {
        0
    } else {
        sum_named_requested(bt, n - 1) + bt[n - 1].1.requested
    }
}

/// The balance and bounds every run's results satisfy: requests split
/// exactly into starts, rejections, and unknown-type skips; rejection
/// reasons sum to the rejections; completions never exceed starts;
/// per-type requests balance and never outnumber the total; utilization
/// stays within one; timeline records are well-formed; an empty demand
/// stream leaves everything at zero.
pub open spec fn results_consistent(r: Results, s: Scenario) -> bool {
    &&& r.horizon == s.horizon
    &&& r.missions.requested == r.missions.started + r.missions.rejected + r.skipped_unknown
    &&& r.missions.completed <= r.missions.started
    &&& r.rejections.aircraft + r.rejections.pilot + r.rejections.so + r.rejections.payload
        == r.missions.rejected
    &&& forall|i: int|
        0 <= i < r.utilization@.len() ==> (#[trigger] r.utilization@[i]).1.aircraft <= 1000
            && r.utilization@[i].1.pilot <= 1000 && r.utilization@[i].1.so <= 1000
    &&& forall|i: int| 0 <= i < r.timeline@.len() ==> timeline_event_wf(#[trigger] r.timeline@[i])
    &&& r.by_type@.len() == s.mission_types@.len()
    &&& forall|t: int|
        0 <= t < r.by_type@.len() ==> (#[trigger] r.by_type@[t]).0@ == s.mission_types@[t].name@
    &&& forall|t: int|
        0 <= t < r.by_type@.len() ==> (#[trigger] r.by_type@[t]).1.requested == r.by_type@[t].1.started
            + r.by_type@[t].1.rejected
    &&& sum_named_requested(r.by_type@, r.by_type@.len() as int) + r.skipped_unknown
        <= r.missions.requested
    &&& sum_named_requested(r.by_type@, r.by_type@.len() as int) == r.timeline@.len()
    &&& s.horizon == 0 ==> r.missions.requested == 0
    &&& s.demand@.len() == 0 ==> r.missions.requested == 0
    &&& r.missions.requested == 0 ==> results_zero(r)
    &&& r.missions.requested >= det_demand_events(s).len()
    &&& all_demand_settled(s) ==> r.missions.requested == det_demand_events(s).len()
    &&& r.utilization@.len() == r.initial_resources@.units.len()
    &&& forall|i: int|
        0 <= i < r.utilization@.len() ==> (#[trigger] r.utilization@[i]).0@
            == r.initial_resources@.units[i]
}

/// Whether a scenario is free of randomness: deterministic demand and
/// distributions throughout, and no weighted unit split.
pub open spec fn scenario_deterministic(s: Scenario) -> bool {
    &&& all_demand_settled(s)
    &&& forall|t: int|
        0 <= t < s.mission_types@.len() ==> crate::dist::is_deterministic(
            (#[trigger] s.mission_types@[t]).flight_time,
        )
    &&& (match s.process_times {
        Option::Some(pt) => {
            &&& (match pt.preflight {
                Option::Some(dd) => crate::dist::is_deterministic(dd),
                Option::None => true,
            })
            &&& (match pt.postflight {
                Option::Some(dd) => crate::dist::is_deterministic(dd),
                Option::None => true,
            })
            &&& (match pt.turnaround {
                Option::Some(dd) => crate::dist::is_deterministic(dd),
                Option::None => true,
            })
            &&& forall|k: int|
                0 <= k < pt.mount_times@.len() ==> crate::dist::is_deterministic(
                    (#[trigger] pt.mount_times@[k]).1,
                )
        },
        Option::None => true,
    })
    &&& (match s.unit_policy {
        Option::Some(up) => match up.mission_split {
            Option::Some(l) => l@.len() == 0,
            Option::None => true,
        },
        Option::None => true,
    })
}

/// Saturating addition within the time type.
pub open spec fn sat64m(a: int, b: int) -> u64 {
    sat_add(a, b, u64::MAX as int) as u64
}

/// The preflight descriptor of a scenario, when any.
pub open spec fn pre_of(s: Scenario) -> Option<Distribution> {
    match s.process_times {
        Option::Some(pt) => pt.preflight,
        Option::None => Option::None,
    }
}

/// The postflight descriptor of a scenario, when any.
pub open spec fn post_of(s: Scenario) -> Option<Distribution> {
    match s.process_times {
        Option::Some(pt) => pt.postflight,
        Option::None => Option::None,
    }
}

/// The turnaround descriptor of a scenario, when any.
pub open spec fn turn_of(s: Scenario) -> Option<Distribution> {
    match s.process_times {
        Option::Some(pt) => pt.turnaround,
        Option::None => Option::None,
    }
}

/// The mount-time list of a scenario.
pub open spec fn mounts_of(s: Scenario) -> Seq<(String, Distribution)> {
    match s.process_times {
        Option::Some(pt) => pt.mount_times@,
        Option::None => Seq::<(String, Distribution)>::empty(),
    }
}

/// The value a deterministic optional descriptor yields; zero when
/// absent.
pub open spec fn opt_det_value(o: Option<Distribution>) -> u64 {
    match o {
        Option::Some(dd) => crate::dist::det_value(dd),
        Option::None => 0,
    }
}

/// The payload requirement list of a mission type.
pub open spec fn reqs_of(mt: MissionType) -> Seq<String> {
    match mt.required_payload_types {
        Option::Some(l) => l@,
        Option::None => Seq::<String>::empty(),
    }
}

/// The pilots a mission type demands.
pub open spec fn crew_pilot(mt: MissionType) -> u32 {
    match mt.required_aircrew {
        Option::Some(a) => match a.pilot {
            Option::Some(p) => p,
            Option::None => 0,
        },
        Option::None => 0,
    }
}

/// The sensor operators a mission type demands.
pub open spec fn crew_so(mt: MissionType) -> u32 {
    match mt.required_aircrew {
        Option::Some(a) => match a.so {
            Option::Some(p) => p,
            Option::None => 0,
        },
        Option::None => 0,
    }
}

/// The total deterministic mount time over the first `k` required
/// payload types, saturating.
pub open spec fn mount_model(reqs: Seq<String>, mounts: Seq<(String, Distribution)>, k: int) -> u64
    decreases k,
{
    if k <= 0 {
        0
    } else {
        let prev = mount_model(reqs, mounts, k - 1);
        let mi = mount_idx(mounts, reqs[k - 1]@);
        if mi < mounts.len() {
            sat64m(prev as int, crate::dist::det_value(mounts[mi].1) as int)
        } else {
            prev
        }
    }
}

/// The first-match position lies within the list, one past at most.
proof fn lemma_mount_idx_bounds(mounts: Seq<(String, Distribution)>, name: Seq<char>)
    ensures
        0 <= mount_idx(mounts, name) <= mounts.len(),
{
    lemma_mount_idx_bounds_from(mounts, name, 0);
}

proof fn lemma_mount_idx_bounds_from(mounts: Seq<(String, Distribution)>, name: Seq<char>, i: int)
    requires
        0 <= i,
    ensures
        0 <= mount_idx_from(mounts, name, i) <= mounts.len(),
    decreases mounts.len() - i,
{
    if i < mounts.len() && mounts[i].0@ != name {
        lemma_mount_idx_bounds_from(mounts, name, i + 1);
    }
}

/// In a deterministic scenario every mount-time entry is
/// deterministic.
proof fn lemma_mount_entry_det(s: Scenario, k: int)
    requires
        scenario_deterministic(s),
        0 <= k < mounts_of(s).len(),
    ensures
        crate::dist::is_deterministic(mounts_of(s)[k].1),
{
    match s.process_times {
        Option::Some(pt) => {
            assert(mounts_of(s) == pt.mount_times@);
            assert(crate::dist::is_deterministic(pt.mount_times@[k].1));
        },
        Option::None => {},
    }
}

/// With no mount-time entries the total mount time vanishes.
proof fn lemma_mount_model_empty(reqs: Seq<String>, mounts: Seq<(String, Distribution)>, k: int)
    requires
        mounts.len() == 0,
    ensures
        mount_model(reqs, mounts, k) == 0,
    decreases k,
{
    if k > 0 {
        lemma_mount_model_empty(reqs, mounts, k - 1);
    }
}

/// One timeline record at the view level: a mission with its segment
/// boundaries, or a rejection at a time with a reason.
pub ghost struct EventRecord {
    pub mission: bool,
    pub unit: Seq<char>,
    pub mission_type: Seq<char>,
    pub t0: u64,
    pub t1: u64,
    pub t2: u64,
    pub t3: u64,
    pub t4: u64,
    pub t5: u64,
    pub reason: RejectReason,
}

/// The view of one timeline event.
pub open spec fn ev_record(e: TimelineEvent) -> EventRecord {
    match e {
        TimelineEvent::Mission {
            unit,
            mission_type,
            demand_time,
            pre_end,
            mount_end,
            flight_end,
            post_end,
            finish_time,
        } => EventRecord {
            mission: true,
            unit: unit@,
            mission_type: mission_type@,
            t0: demand_time,
            t1: pre_end,
            t2: mount_end,
            t3: flight_end,
            t4: post_end,
            t5: finish_time,
            reason: RejectReason::Aircraft,
        },
        TimelineEvent::Rejection { time, unit, mission_type, reason } => EventRecord {
            mission: false,
            unit: unit@,
            mission_type: mission_type@,
            t0: time,
            t1: 0,
            t2: 0,
            t3: 0,
            t4: 0,
            t5: 0,
            reason,
        },
    }
}

/// The view of a whole timeline.
pub open spec fn timeline_views(tl: Seq<TimelineEvent>) -> Seq<EventRecord> {
    tl.map_values(|e: TimelineEvent| ev_record(e))
}

/// The state a deterministic run model carries between events.
pub ghost struct RunModel {
    pub pools: Seq<UnitView>,
    pub requested: u64,
    pub started: u64,
    pub rejected: u64,
    pub skipped: u64,
    pub rej_aircraft: u64,
    pub rej_pilot: u64,
    pub rej_so: u64,
    pub rej_payload: u64,
    pub by_type: Seq<MissionStats>,
    pub timeline: Seq<EventRecord>,
}

/// The model a run starts from.
pub open spec fn init_model(s: Scenario, init: InitialView) -> RunModel {
    RunModel {
        pools: fresh_pools(init),
        requested: 0,
        started: 0,
        rejected: 0,
        skipped: 0,
        rej_aircraft: 0,
        rej_pilot: 0,
        rej_so: 0,
        rej_payload: 0,
        by_type: Seq::new(
            s.mission_types@.len(),
            |i: int| MissionStats { requested: 0, started: 0, completed: 0, rejected: 0 },
        ),
        timeline: Seq::<EventRecord>::empty(),
    }
}

/// One rejection reason counted.
pub open spec fn add_reason(m: RunModel, reason: RejectReason) -> RunModel {
    match reason {
        RejectReason::Aircraft => RunModel { rej_aircraft: (m.rej_aircraft + 1) as u64, ..m },
        RejectReason::Pilot => RunModel { rej_pilot: (m.rej_pilot + 1) as u64, ..m },
        RejectReason::So => RunModel { rej_so: (m.rej_so + 1) as u64, ..m },
        RejectReason::Payload => RunModel { rej_payload: (m.rej_payload + 1) as u64, ..m },
    }
}

/// One demand event consumed by the deterministic model: resolve the
/// type, pick the unit round-robin, take the deterministic durations,
/// attempt the unit, and record the outcome.
#[verifier::opaque]
pub open spec fn step_model(m: RunModel, s: Scenario, init: InitialView, ev: DemandEvent, idx: int) -> RunModel {
    let m1 = RunModel { requested: (m.requested + 1) as u64, ..m };
    let ti = find_type(s.mission_types@, ev.mission_type@);
    if ti == s.mission_types@.len() {
        RunModel { skipped: (m1.skipped + 1) as u64, ..m1 }
    } else {
        let mt = s.mission_types@[ti];
        let u = idx % (m.pools.len() as int);
        let reqs = reqs_of(mt);
        let mount = mount_model(reqs, mounts_of(s), reqs.len() as int);
        let pre = opt_det_value(pre_of(s));
        let flight = crate::dist::det_value(mt.flight_time);
        let post = opt_det_value(post_of(s));
        let turn = opt_det_value(turn_of(s));
        let d1 = sat64m(pre as int, mount as int);
        let d2 = sat64m(d1 as int, flight as int);
        let d3 = sat64m(d2 as int, post as int);
        let dd = sat64m(d3 as int, turn as int);
        let t1 = sat64m(ev.time as int, pre as int);
        let t2 = sat64m(t1 as int, mount as int);
        let t3 = sat64m(t2 as int, flight as int);
        let t4 = sat64m(t3 as int, post as int);
        let t5 = sat64m(t4 as int, turn as int);
        let att = attempt_model(m.pools[u], reqs, crew_pilot(mt), crew_so(mt), ev.time, dd);
        match att.1 {
            Attempt::Started => RunModel {
                pools: m1.pools.update(u, UnitView { finishes: att.0.finishes.push(t5), ..att.0 }),
                started: (m1.started + 1) as u64,
                by_type: m1.by_type.update(
                    ti,
                    MissionStats {
                        requested: (m1.by_type[ti].requested + 1) as u64,
                        started: (m1.by_type[ti].started + 1) as u64,
                        completed: m1.by_type[ti].completed,
                        rejected: m1.by_type[ti].rejected,
                    },
                ),
                timeline: m1.timeline.push(
                    EventRecord {
                        mission: true,
                        unit: init.units[u],
                        mission_type: mt.name@,
                        t0: ev.time,
                        t1,
                        t2,
                        t3,
                        t4,
                        t5,
                        reason: RejectReason::Aircraft,
                    },
                ),
                ..m1
            },
            Attempt::Rejected(reason) => {
                let m2 = add_reason(
                    RunModel {
                        pools: m1.pools.update(u, att.0),
                        rejected: (m1.rejected + 1) as u64,
                        by_type: m1.by_type.update(
                            ti,
                            MissionStats {
                                requested: (m1.by_type[ti].requested + 1) as u64,
                                started: m1.by_type[ti].started,
                                completed: m1.by_type[ti].completed,
                                rejected: (m1.by_type[ti].rejected + 1) as u64,
                            },
                        ),
                        timeline: m1.timeline.push(
                            EventRecord {
                                mission: false,
                                unit: init.units[u],
                                mission_type: mt.name@,
                                t0: ev.time,
                                t1: 0,
                                t2: 0,
                                t3: 0,
                                t4: 0,
                                t5: 0,
                                reason,
                            },
                        ),
                        ..m1
                    },
                    reason,
                );
                m2
            },
            Attempt::Refused(reason) => add_reason(
                RunModel {
                    pools: m1.pools.update(u, att.0),
                    rejected: (m1.rejected + 1) as u64,
                    ..m1
                },
                reason,
            ),
        }
    }
}

/// The model after the first `n` demand events of a deterministic
/// scenario.
pub open spec fn run_model(s: Scenario, init: InitialView, n: int) -> RunModel
    decreases n,
{
    if n <= 0 {
        init_model(s, init)
    } else {
        step_model(run_model(s, init, n - 1), s, init, det_demand_events(s)[n - 1], n - 1)
    }
}

/// Finishes within the horizon, totalled over the first `n` units.
pub open spec fn completed_model(ps: Seq<UnitView>, n: int, h: u64) -> int
    decreases n,
{
    if n <= 0 {
        0
    } else {
        completed_model(ps, n - 1, h) + spec_count_le(
            ps[n - 1].finishes,
            ps[n - 1].finishes.len() as int,
            h,
        )
    }
}

/// Per-type completion counts filled from the first `k` timeline
/// records: one for each mission record finishing within the horizon.
pub open spec fn bt_fill_model(
    bt: Seq<MissionStats>,
    tl: Seq<EventRecord>,
    k: int,
    h: u64,
    mts: Seq<MissionType>,
) -> Seq<MissionStats>
    decreases k,
{
    if k <= 0 {
        bt
    } else {
        let prev = bt_fill_model(bt, tl, k - 1, h, mts);
        let r = tl[k - 1];
        if r.mission && r.t5 <= h {
            let ti = find_type(mts, r.mission_type);
            if ti < mts.len() && ti < prev.len() {
                prev.update(
                    ti,
                    MissionStats {
                        requested: prev[ti].requested,
                        started: prev[ti].started,
                        completed: sat64m(prev[ti].completed as int, 1),
                        rejected: prev[ti].rejected,
                    },
                )
            } else {
                prev
            }
        } else {
            prev
        }
    }
}

/// The view of the per-unit utilization list.
pub open spec fn util_views(u: Seq<(String, Utilization)>) -> Seq<(Seq<char>, Utilization)> {
    u.map_values(|p: (String, Utilization)| (p.0@, p.1))
}

/// The utilization records of the first `n` units.
pub open spec fn util_model(init: InitialView, ps: Seq<UnitView>, n: int, h: u64) -> Seq<
    (Seq<char>, Utilization),
>
    decreases n,
{
    if n <= 0 {
        Seq::<(Seq<char>, Utilization)>::empty()
    } else {
        util_model(init, ps, n - 1, h).push(
            (
                init.units[n - 1],
                Utilization {
                    aircraft: util_permille_of(ps[n - 1].aircraft.total, ps[n - 1].aircraft.busy, h),
                    pilot: util_permille_of(ps[n - 1].pilot.total, ps[n - 1].pilot.busy, h),
                    so: util_permille_of(ps[n - 1].so.total, ps[n - 1].so.busy, h),
                },
            ),
        )
    }
}

/// The utilization model names the units positionally.
proof fn lemma_util_model_names(init: InitialView, ps: Seq<UnitView>, n: int, h: u64)
    ensures
        util_model(init, ps, n, h).len() == if n <= 0 {
            0int
        } else {
            n
        },
        forall|k: int|
            0 <= k < util_model(init, ps, n, h).len() ==> (#[trigger] util_model(
                init,
                ps,
                n,
                h,
            )[k]).0 == init.units[k],
    decreases n,
{
    if n > 0 {
        lemma_util_model_names(init, ps, n - 1, h);
    }
}

/// The view of the named per-type counter list.
pub open spec fn named_views(v: Seq<(String, MissionStats)>) -> Seq<(Seq<char>, MissionStats)> {
    v.map_values(|p: (String, MissionStats)| (p.0@, p.1))
}

/// A run over a scenario free of randomness lands on the outcome the
/// model computes from the inventory alone: the determinism law.
pub open spec fn deterministic_outcome(res: Results, s: Scenario) -> bool {
    let init = res.initial_resources@;
    let n = det_demand_events(s).len() as int;
    let m = run_model(s, init, n);
    let btf = bt_fill_model(
        m.by_type,
        m.timeline,
        m.timeline.len() as int,
        s.horizon,
        s.mission_types@,
    );
    &&& res.missions.requested == m.requested
    &&& res.missions.started == m.started
    &&& res.missions.rejected == m.rejected
    &&& res.skipped_unknown == m.skipped
    &&& res.missions.completed == completed_model(m.pools, m.pools.len() as int, s.horizon)
    &&& res.rejections == (Rejections {
        aircraft: m.rej_aircraft,
        pilot: m.rej_pilot,
        so: m.rej_so,
        payload: m.rej_payload,
    })
    &&& timeline_views(res.timeline@) == m.timeline
    &&& named_views(res.by_type@) == Seq::new(
        s.mission_types@.len(),
        |t: int| (s.mission_types@[t].name@, btf[t]),
    )
    &&& util_views(res.utilization@) == util_model(init, m.pools, m.pools.len() as int, s.horizon)
}

/// Determinism of deterministic scenarios: two runs over the same
/// randomness-free scenario and the same derived inventory agree on
/// every counter, every timeline record, and every utilization figure.
pub proof fn lemma_deterministic_runs_agree(r1: Results, r2: Results, s: Scenario)
    requires
        scenario_deterministic(s),
        deterministic_outcome(r1, s),
        deterministic_outcome(r2, s),
        r1.initial_resources@ == r2.initial_resources@,
    ensures
        r1.missions.requested == r2.missions.requested,
        r1.missions.started == r2.missions.started,
        r1.missions.completed == r2.missions.completed,
        r1.missions.rejected == r2.missions.rejected,
        r1.skipped_unknown == r2.skipped_unknown,
        r1.rejections == r2.rejections,
        timeline_views(r1.timeline@) == timeline_views(r2.timeline@),
        named_views(r1.by_type@) == named_views(r2.by_type@),
        util_views(r1.utilization@) == util_views(r2.utilization@),
{
}

/// An availability query on one pool of an association list.
fn pool_in_list_available(payloads: &mut Vec<(String, ResourcePool)>, idx: usize, t: u64) -> (avail:
    u32)
    requires
        idx < old(payloads)@.len(),
        old(payloads)@[idx as int].1@.wf(),
    ensures
        final(payloads)@.len() == old(payloads)@.len(),
        forall|k: int|
            0 <= k < old(payloads)@.len() && k != idx ==> final(payloads)@[k] == old(payloads)@[k],
        final(payloads)@[idx as int].0 == old(payloads)@[idx as int].0,
        final(payloads)@[idx as int].1@ == query_model(old(payloads)@[idx as int].1@, t),
        final(payloads)@[idx as int].1@.wf(),
        avail == avail_model(old(payloads)@[idx as int].1@, t),
{
    let mut entry = (String::new(), ResourcePool::new(0));
    payloads.set_and_swap(idx, &mut entry);
    let avail = entry.1.available_at(t);
    payloads.set_and_swap(idx, &mut entry);
    avail
}

/// An acquisition on one pool of an association list.
fn pool_in_list_acquire(
    payloads: &mut Vec<(String, ResourcePool)>,
    idx: usize,
    t: u64,
    d: u64,
    k: u32,
) -> (ok: bool)
    requires
        idx < old(payloads)@.len(),
        old(payloads)@[idx as int].1@.wf(),
    ensures
        final(payloads)@.len() == old(payloads)@.len(),
        forall|j: int|
            0 <= j < old(payloads)@.len() && j != idx ==> final(payloads)@[j] == old(payloads)@[j],
        final(payloads)@[idx as int].0 == old(payloads)@[idx as int].0,
        final(payloads)@[idx as int].1@ == acquire_model(old(payloads)@[idx as int].1@, t, d, k),
        final(payloads)@[idx as int].1@.wf(),
        ok == acquire_ok(old(payloads)@[idx as int].1@, t, k),
{
    let mut entry = (String::new(), ResourcePool::new(0));
    payloads.set_and_swap(idx, &mut entry);
    let ok = entry.1.try_acquire(t, d, k);
    payloads.set_and_swap(idx, &mut entry);
    ok
}

/// The per-unit weights of a mission split, in unit order; a unit
/// absent from the split weighs nothing.
fn split_weights(units: &Vec<String>, split: &Vec<(String, u64)>) -> (w: Vec<u64>)
    ensures
        w@.len() == units@.len(),
{
    let n = units.len();
    let mut w: Vec<u64> = Vec::new();
    let mut i: usize = 0;
    while i < n
        invariant
            i <= n,
            n == units@.len(),
            w@.len() == i,
        decreases n - i,
    {
        let name = &units[i];
        let m = split.len();
        let mut found: u64 = 0;
        let mut j: usize = 0;
        while j < m
            invariant
                j <= m,
                m == split@.len(),
            decreases m - j,
        {
            if split[j].0 == *name {
                found = split[j].1;
                j = m;
            } else {
                j = j + 1;
            }
        }
        w.push(found);
        i = i + 1;
    }
    w
}

/// The saturating sum of the first `n` weights.
pub open spec fn sat_wsum(ws: Seq<u64>, n: int) -> u128
    decreases n,
{
    if n <= 0 {
        0
    } else {
        sat_add(sat_wsum(ws, n - 1) as int, ws[n - 1] as int, u128::MAX as int) as u128
    }
}

/// A unit drawn with probability proportional to its weight: the first
/// position whose cumulative weight exceeds the reduced draw, so a
/// weightless unit is never drawn; the first unit when all weights
/// vanish.
fn pick_weighted(weights: &Vec<u64>, rng: &mut SimRng) -> (u: usize)
    requires
        weights@.len() >= 1,
    ensures
        u < weights@.len(),
        (forall|k: int| 0 <= k < weights@.len() ==> (#[trigger] weights@[k]) == 0) ==> u == 0,
        weights@[u as int] > 0 || (forall|k: int|
            0 <= k < weights@.len() ==> (#[trigger] weights@[k]) == 0),
{
    let n = weights.len();
    let mut total: u128 = 0;
    let mut i: usize = 0;
    while i < n
        invariant
            i <= n,
            n == weights@.len(),
            total == sat_wsum(weights@, i as int),
            total == 0 ==> forall|k: int| 0 <= k < i ==> (#[trigger] weights@[k]) == 0,
        decreases n - i,
    {
        total = crate::util::sat_add128(total, weights[i] as u128);
        i = i + 1;
    }
    if total == 0 {
        return 0;
    }
    let draw = rng.next_u64();
    let r: u128 = (draw as u128) % total;
    let mut cum: u128 = 0;
    let mut i: usize = 0;
    while i < n
        invariant
            i <= n,
            n == weights@.len(),
            cum == sat_wsum(weights@, i as int),
            r < total,
            total == sat_wsum(weights@, n as int),
            r >= cum,
        decreases n - i,
    {
        let ghost cum0 = cum;
        cum = crate::util::sat_add128(cum, weights[i] as u128);
        if r < cum {
            proof {
                assert(weights@[i as int] > 0);
            }
            return i;
        }
        i = i + 1;
    }
    proof {
        assert(false);
    }
    n - 1
}

/// One full simulation run over borrowed inputs.  Success needs a
/// state snapshot that yields at least one unit; the result satisfies
/// `results_consistent`, and its inventory is exactly the derived and
/// overridden one.
#[verifier::rlimit(100)]
pub fn run_simulation_internal_ref(scenario: &Scenario, options: &Options) -> (r: Result<
    Results,
    SimError,
>)
    ensures
        match r {
            Result::Ok(res) => {
                &&& options.state is Some
                &&& spec_initial(options.state.unwrap()).units.len() > 0
                &&& results_consistent(res, *scenario)
                &&& res.initial_resources@ == spec_run_initial(*scenario, *options)
                &&& res.initial_resources@.wf()
                &&& scenario_deterministic(*scenario) ==> deterministic_outcome(res, *scenario)
            },
            Result::Err(e) => {
                &&& (e == SimError::MissingState <==> options.state is None)
                &&& (e == SimError::NoUnits <==> options.state is Some && spec_initial(
                    options.state.unwrap(),
                ).units.len() == 0)
                &&& (e == SimError::MissingState || e == SimError::NoUnits)
            },
        },
{
    let state = match &options.state {
        Option::Some(s) => s,
        Option::None => {
            return Result::Err(SimError::MissingState);
        },
    };
    let mut initial = derive_initial_from_state(state);
    if initial.units.len() == 0 {
        return Result::Err(SimError::NoUnits);
    }
    if let Option::Some(ov) = &options.overrides {
        proof {
            crate::state::lemma_overrides_keep_units(initial@, *ov, scenario.mission_types@);
        }
        apply_overrides(&mut initial, ov, &scenario.mission_types);
    }
    let horizon = scenario.horizon;
    let nu = initial.units.len();

    // one fresh pool set per unit
    let mut pools: Vec<UnitPools> = Vec::new();
    let mut ui: usize = 0;
    while ui < nu
        invariant
            ui <= nu,
            nu == initial.units@.len(),
            initial@.wf(),
            pools@.len() == ui,
            forall|k: int|
                0 <= k < ui ==> (#[trigger] pools@[k])@ == fresh_unit(
                    initial@.aircraft[k],
                    initial@.crew[k],
                    initial@.payload[k],
                ),
        decreases nu - ui,
    {
        let upl = &initial.payload_by_unit[ui];
        let np = upl.len();
        let mut pls: Vec<(String, ResourcePool)> = Vec::new();
        let mut pj: usize = 0;
        while pj < np
            invariant
                pj <= np,
                np == upl@.len(),
                pls@.len() == pj,
                forall|k: int|
                    0 <= k < pj ==> (#[trigger] pls@[k]).0@ == upl@[k].0@ && pls@[k].1@
                        == fresh_pool(upl@[k].1),
            decreases np - pj,
        {
            pls.push((upl[pj].0.clone(), ResourcePool::new(upl[pj].1)));
            pj = pj + 1;
        }
        let crew = &initial.crew_by_unit[ui];
        let up = UnitPools {
            aircraft: ResourcePool::new(initial.aircraft_by_unit[ui]),
            pilot: ResourcePool::new(crew.pilot),
            so: ResourcePool::new(crew.so),
            payloads: pls,
            finishes: Vec::new(),
        };
        proof {
            assert(initial@.payload[ui as int] == crate::state::payload_view(upl@));
            assert(up@.payloads =~= fresh_unit(
                initial@.aircraft[ui as int],
                initial@.crew[ui as int],
                initial@.payload[ui as int],
            ).payloads);
            assert(up@ =~= fresh_unit(
                initial@.aircraft[ui as int],
                initial@.crew[ui as int],
                initial@.payload[ui as int],
            ));
        }
        pools.push(up);
        ui = ui + 1;
    }
    proof {
        assert(pools_view(pools@) =~= fresh_pools(initial@));
        assert forall|k: int|
            0 <= k < pools_view(pools@).len() implies (#[trigger] pools_view(
            pools@,
        )[k]).finishes.len() == 0 by {
            assert(pools_view(pools@)[k] == fresh_pools(initial@)[k]);
        }
        lemma_total_finishes_zero(pools_view(pools@), nu as int);
    }

    // per-type counters, parallel to the mission-type list
    let nt = scenario.mission_types.len();
    let mut by_type: Vec<MissionStats> = Vec::new();
    let mut tj: usize = 0;
    while tj < nt
        invariant
            tj <= nt,
            by_type@.len() == tj,
            forall|k: int|
                0 <= k < tj ==> (#[trigger] by_type@[k]) == (MissionStats {
                    requested: 0,
                    started: 0,
                    completed: 0,
                    rejected: 0,
                }),
        decreases nt - tj,
    {
        by_type.push(MissionStats { requested: 0, started: 0, completed: 0, rejected: 0 });
        tj = tj + 1;
    }
    proof {
        lemma_sum_bt_zero(by_type@, by_type@.len() as int);
    }

    let mut rng = SimRng::from_entropy();
    let events = generate_demand(scenario, &mut rng);

    // unit-selection policy
    let mut has_split: bool = false;
    let mut weights: Vec<u64> = Vec::new();
    if let Option::Some(up) = &scenario.unit_policy {
        if let Option::Some(list) = &up.mission_split {
            if list.len() > 0 {
                has_split = true;
                weights = split_weights(&initial.units, list);
            }
        }
    }

    let mut requested: u64 = 0;
    let mut started: u64 = 0;
    let mut rejected: u64 = 0;
    let mut skipped: u64 = 0;
    let mut rej_aircraft: u64 = 0;
    let mut rej_pilot: u64 = 0;
    let mut rej_so: u64 = 0;
    let mut rej_payload: u64 = 0;
    let mut timeline: Vec<TimelineEvent> = Vec::new();
    let empty_payloads: Vec<String> = Vec::new();

    let ne = events.len();
    let mut i: usize = 0;
    while i < ne
        invariant
            i <= ne,
            ne == events@.len(),
            nu == pools@.len(),
            nu >= 1,
            nu == initial.units@.len(),
            initial@.wf(),
            has_split ==> weights@.len() == nu,
            by_type@.len() == scenario.mission_types@.len(),
            pools_wf(pools_view(pools@)),
            requested == i,
            requested == started + rejected + skipped,
            rejected == rej_aircraft + rej_pilot + rej_so + rej_payload,
            total_finishes(pools_view(pools@), nu as int) == started,
            forall|k: int| 0 <= k < timeline@.len() ==> timeline_event_wf(#[trigger] timeline@[k]),
            timeline@.len() <= i,
            i == 0 ==> pools_view(pools@) == fresh_pools(initial@),
            forall|t: int|
                0 <= t < by_type@.len() ==> (#[trigger] by_type@[t]).requested == by_type@[t].started
                    + by_type@[t].rejected,
            forall|t: int| 0 <= t < by_type@.len() ==> (#[trigger] by_type@[t]).completed == 0,
            forall|t: int| 0 <= t < by_type@.len() ==> (#[trigger] by_type@[t]).requested <= requested,
            sum_bt_requested(by_type@, by_type@.len() as int) + skipped <= requested,
            sum_bt_requested(by_type@, by_type@.len() as int) == timeline@.len(),
            empty_payloads@.len() == 0,
            scenario_deterministic(*scenario) ==> !has_split,
            scenario_deterministic(*scenario) ==> events@ == det_demand_events(*scenario),
            scenario_deterministic(*scenario) ==> ({
                let m = run_model(*scenario, initial@, i as int);
                &&& pools_view(pools@) == m.pools
                &&& requested == m.requested
                &&& started == m.started
                &&& rejected == m.rejected
                &&& skipped == m.skipped
                &&& rej_aircraft == m.rej_aircraft
                &&& rej_pilot == m.rej_pilot
                &&& rej_so == m.rej_so
                &&& rej_payload == m.rej_payload
                &&& by_type@ == m.by_type
                &&& timeline_views(timeline@) == m.timeline
            }),
        decreases ne - i,
    {
        let ghost m_pre = run_model(*scenario, initial@, i as int);
        let ev = &events[i];
        let t = ev.time;
        proof {
            lemma_sum_bt_bounds(by_type@, by_type@.len() as int);
        }
        requested = requested + 1;
        match find_mission_type(&scenario.mission_types, &ev.mission_type) {
            Option::None => {
                skipped = skipped + 1;
                proof {
                    if scenario_deterministic(*scenario) {
                        reveal(step_model);
                        assert(run_model(*scenario, initial@, i as int + 1) == step_model(
                            m_pre,
                            *scenario,
                            initial@,
                            det_demand_events(*scenario)[i as int],
                            i as int,
                        ));
                        assert(det_demand_events(*scenario)[i as int] == events@[i as int]);
                    }
                }
            },
            Option::Some(ti) => {
                let mt = &scenario.mission_types[ti];
                let u: usize = if has_split {
                    pick_weighted(&weights, &mut rng)
                } else {
                    i % nu
                };
                // sample the process durations, in a fixed order
                let mut mount: u64 = 0;
                if let Option::Some(req_list) = &mt.required_payload_types {
                    if let Option::Some(pt) = &scenario.process_times {
                        let m = req_list.len();
                        let mut pk: usize = 0;
                        while pk < m
                            invariant
                                pk <= m,
                                m == req_list@.len(),
                                mounts_of(*scenario) == pt.mount_times@,
                                scenario_deterministic(*scenario) ==> forall|k: int|
                                    0 <= k < pt.mount_times@.len()
                                        ==> crate::dist::is_deterministic(
                                        (#[trigger] pt.mount_times@[k]).1,
                                    ),
                                scenario_deterministic(*scenario) ==> mount == mount_model(
                                    req_list@,
                                    pt.mount_times@,
                                    pk as int,
                                ),
                            decreases m - pk,
                        {
                            let fm = find_mount(&pt.mount_times, &req_list[pk]);
                            let ghost mi = mount_idx(pt.mount_times@, req_list@[pk as int]@);
                            if let Option::Some(dist) = fm {
                                let sm = sample(dist, &mut rng);
                                proof {
                                    if scenario_deterministic(*scenario) {
                                        lemma_mount_idx_bounds(
                                            pt.mount_times@,
                                            req_list@[pk as int]@,
                                        );
                                        assert(0 <= mi < pt.mount_times@.len());
                                        assert(*dist == pt.mount_times@[mi].1);
                                        lemma_mount_entry_det(*scenario, mi);
                                        assert(crate::dist::is_deterministic(*dist));
                                        assert(sm == crate::dist::det_value(pt.mount_times@[mi].1));
                                    }
                                }
                                mount = sat_add64(mount, sm);
                                proof {
                                    if scenario_deterministic(*scenario) {
                                        assert(mount == mount_model(
                                            req_list@,
                                            pt.mount_times@,
                                            pk as int + 1,
                                        ));
                                    }
                                }
                            } else {
                                proof {
                                    if scenario_deterministic(*scenario) {
                                        assert(mi == pt.mount_times@.len());
                                        assert(mount == mount_model(
                                            req_list@,
                                            pt.mount_times@,
                                            pk as int + 1,
                                        ));
                                    }
                                }
                            }
                            pk = pk + 1;
                        }
                    } else {
                        proof {
                            if scenario_deterministic(*scenario) {
                                lemma_mount_model_empty(
                                    req_list@,
                                    mounts_of(*scenario),
                                    req_list@.len() as int,
                                );
                            }
                        }
                    }
                }
                let pre: u64 = match &scenario.process_times {
                    Option::Some(pt) => match &pt.preflight {
                        Option::Some(dd) => sample(dd, &mut rng),
                        Option::None => 0,
                    },
                    Option::None => 0,
                };
                let flight = sample(&mt.flight_time, &mut rng);
                let post: u64 = match &scenario.process_times {
                    Option::Some(pt) => match &pt.postflight {
                        Option::Some(dd) => sample(dd, &mut rng),
                        Option::None => 0,
                    },
                    Option::None => 0,
                };
                let turn: u64 = match &scenario.process_times {
                    Option::Some(pt) => match &pt.turnaround {
                        Option::Some(dd) => sample(dd, &mut rng),
                        Option::None => 0,
                    },
                    Option::None => 0,
                };
                let d1 = sat_add64(pre, mount);
                let d2 = sat_add64(d1, flight);
                let d3 = sat_add64(d2, post);
                let d = sat_add64(d3, turn);
                let t1 = sat_add64(t, pre);
                let t2 = sat_add64(t1, mount);
                let t3 = sat_add64(t2, flight);
                let t4 = sat_add64(t3, post);
                let t5 = sat_add64(t4, turn);
                let need_pilot: u32 = match &mt.required_aircrew {
                    Option::Some(a) => match a.pilot {
                        Option::Some(p) => p,
                        Option::None => 0,
                    },
                    Option::None => 0,
                };
                let need_so: u32 = match &mt.required_aircrew {
                    Option::Some(a) => match a.so {
                        Option::Some(p) => p,
                        Option::None => 0,
                    },
                    Option::None => 0,
                };
                let req_payloads: &Vec<String> = match &mt.required_payload_types {
                    Option::Some(l) => l,
                    Option::None => &empty_payloads,
                };
                let ghost mtg = scenario.mission_types@[ti as int];
                let ghost rq = reqs_of(mtg);
                proof {
                    if scenario_deterministic(*scenario) {
                        if mt.required_payload_types is None {
                            assert(req_payloads@ =~= Seq::<String>::empty());
                        }
                        assert(req_payloads@ == rq);
                        assert(mount == mount_model(rq, mounts_of(*scenario), rq.len() as int));
                        assert(pre == opt_det_value(pre_of(*scenario)));
                        assert(flight == crate::dist::det_value(mtg.flight_time));
                        assert(post == opt_det_value(post_of(*scenario)));
                        assert(turn == opt_det_value(turn_of(*scenario)));
                        assert(need_pilot == crew_pilot(mtg));
                        assert(need_so == crew_so(mtg));
                        assert(u as int == i as int % (m_pre.pools.len() as int));
                    }
                }
                let ghost pv0 = pools_view(pools@);
                let mut unit = placeholder_unit();
                pools.set_and_swap(u, &mut unit);
                proof {
                    assert(unit@ == pv0[u as int]);
                    assert(unit_wf(unit@));
                }
                let out = admit_and_acquire(&mut unit, req_payloads, need_pilot, need_so, t, d);
                let ghost att = attempt_model(pv0[u as int], rq, need_pilot, need_so, t, d);
                proof {
                    if scenario_deterministic(*scenario) {
                        assert(unit@ == att.0 && out == att.1);
                    }
                }
                match out {
                    Attempt::Started => {
                        let ghost ubefore = unit@;
                        unit.finishes.push(t5);
                        proof {
                            assert(unit@.payloads == ubefore.payloads);
                            assert(unit_wf(unit@));
                            assert(unit@.finishes.len() == pv0[u as int].finishes.len() + 1);
                        }
                        let ghost unew = unit@;
                        pools.set_and_swap(u, &mut unit);
                        proof {
                            assert(pools_view(pools@) =~= pv0.update(u as int, unew));
                            lemma_total_finishes_update(pv0, nu as int, u as int, unew);
                            assert(pools_wf(pools_view(pools@)));
                        }
                        started = started + 1;
                        let bt = by_type[ti];
                        let ghost bt0 = by_type@;
                        by_type.set(
                            ti,
                            MissionStats {
                                requested: bt.requested + 1,
                                started: bt.started + 1,
                                completed: bt.completed,
                                rejected: bt.rejected,
                            },
                        );
                        proof {
                            lemma_sum_bt_update(bt0, bt0.len() as int, ti as int, by_type@[ti as int]);
                        }
                        let ghost tl0 = timeline@;
                        timeline.push(
                            TimelineEvent::Mission {
                                unit: initial.units[u].clone(),
                                mission_type: mt.name.clone(),
                                demand_time: t,
                                pre_end: t1,
                                mount_end: t2,
                                flight_end: t3,
                                post_end: t4,
                                finish_time: t5,
                            },
                        );
                        proof {
                            if scenario_deterministic(*scenario) {
                                reveal(step_model);
                                let mnext = run_model(*scenario, initial@, i as int + 1);
                                assert(mnext == step_model(
                                    m_pre,
                                    *scenario,
                                    initial@,
                                    det_demand_events(*scenario)[i as int],
                                    i as int,
                                ));
                                assert(det_demand_events(*scenario)[i as int] == events@[i as int]);
                                assert(unew == (UnitView {
                                    finishes: att.0.finishes.push(t5),
                                    ..att.0
                                }));
                                assert(pools_view(pools@) == mnext.pools);
                                assert(by_type@ =~= mnext.by_type);
                                assert(initial.units@[u as int]@ == initial@.units[u as int]);
                                assert(timeline_views(timeline@) =~= timeline_views(tl0).push(
                                    ev_record(timeline@[timeline@.len() - 1]),
                                ));
                                assert(ev_record(timeline@[timeline@.len() - 1]) == (EventRecord {
                                    mission: true,
                                    unit: initial@.units[u as int],
                                    mission_type: mtg.name@,
                                    t0: t,
                                    t1,
                                    t2,
                                    t3,
                                    t4,
                                    t5,
                                    reason: RejectReason::Aircraft,
                                }));
                                assert(timeline_views(timeline@) == mnext.timeline);
                            }
                        }
                    },
                    Attempt::Rejected(reason) => {
                        let ghost unew = unit@;
                        pools.set_and_swap(u, &mut unit);
                        proof {
                            assert(pools_view(pools@) =~= pv0.update(u as int, unew));
                            lemma_total_finishes_update(pv0, nu as int, u as int, unew);
                            assert(pools_wf(pools_view(pools@)));
                        }
                        rejected = rejected + 1;
                        match reason {
                            RejectReason::Aircraft => {
                                rej_aircraft = rej_aircraft + 1;
                            },
                            RejectReason::Pilot => {
                                rej_pilot = rej_pilot + 1;
                            },
                            RejectReason::So => {
                                rej_so = rej_so + 1;
                            },
                            RejectReason::Payload => {
                                rej_payload = rej_payload + 1;
                            },
                        }
                        let bt = by_type[ti];
                        let ghost bt0 = by_type@;
                        by_type.set(
                            ti,
                            MissionStats {
                                requested: bt.requested + 1,
                                started: bt.started,
                                completed: bt.completed,
                                rejected: bt.rejected + 1,
                            },
                        );
                        proof {
                            lemma_sum_bt_update(bt0, bt0.len() as int, ti as int, by_type@[ti as int]);
                        }
                        let ghost tl0 = timeline@;
                        timeline.push(
                            TimelineEvent::Rejection {
                                time: t,
                                unit: initial.units[u].clone(),
                                mission_type: mt.name.clone(),
                                reason,
                            },
                        );
                        proof {
                            if scenario_deterministic(*scenario) {
                                reveal(step_model);
                                let mnext = run_model(*scenario, initial@, i as int + 1);
                                assert(mnext == step_model(
                                    m_pre,
                                    *scenario,
                                    initial@,
                                    det_demand_events(*scenario)[i as int],
                                    i as int,
                                ));
                                assert(det_demand_events(*scenario)[i as int] == events@[i as int]);
                                assert(pools_view(pools@) == mnext.pools);
                                assert(by_type@ =~= mnext.by_type);
                                assert(initial.units@[u as int]@ == initial@.units[u as int]);
                                assert(timeline_views(timeline@) =~= timeline_views(tl0).push(
                                    ev_record(timeline@[timeline@.len() - 1]),
                                ));
                                assert(ev_record(timeline@[timeline@.len() - 1]) == (EventRecord {
                                    mission: false,
                                    unit: initial@.units[u as int],
                                    mission_type: mtg.name@,
                                    t0: t,
                                    t1: 0,
                                    t2: 0,
                                    t3: 0,
                                    t4: 0,
                                    t5: 0,
                                    reason,
                                }));
                                assert(timeline_views(timeline@) == mnext.timeline);
                            }
                        }
                    },
                    Attempt::Refused(reason) => {
                        let ghost unew = unit@;
                        pools.set_and_swap(u, &mut unit);
                        proof {
                            assert(pools_view(pools@) =~= pv0.update(u as int, unew));
                            lemma_total_finishes_update(pv0, nu as int, u as int, unew);
                            assert(pools_wf(pools_view(pools@)));
                        }
                        rejected = rejected + 1;
                        match reason {
                            RejectReason::Aircraft => {
                                rej_aircraft = rej_aircraft + 1;
                            },
                            RejectReason::Pilot => {
                                rej_pilot = rej_pilot + 1;
                            },
                            RejectReason::So => {
                                rej_so = rej_so + 1;
                            },
                            RejectReason::Payload => {
                                rej_payload = rej_payload + 1;
                            },
                        }
                        proof {
                            if scenario_deterministic(*scenario) {
                                reveal(step_model);
                                let mnext = run_model(*scenario, initial@, i as int + 1);
                                assert(mnext == step_model(
                                    m_pre,
                                    *scenario,
                                    initial@,
                                    det_demand_events(*scenario)[i as int],
                                    i as int,
                                ));
                                assert(det_demand_events(*scenario)[i as int] == events@[i as int]);
                                assert(pools_view(pools@) == mnext.pools);
                            }
                        }
                    },
                }
            },
        }
        i = i + 1;
    }

    // completions: finishes within the horizon
    let mut completed: u64 = 0;
    let mut cu: usize = 0;
    while cu < nu
        invariant
            cu <= nu,
            nu == pools@.len(),
            total_finishes(pools_view(pools@), nu as int) == started,
            completed <= total_finishes(pools_view(pools@), cu as int),
            completed == completed_model(pools_view(pools@), cu as int, horizon),
        decreases nu - cu,
    {
        proof {
            lemma_total_finishes_nonneg(pools_view(pools@), cu as int);
            lemma_total_finishes_mono(pools_view(pools@), cu as int + 1, nu as int);
            lemma_total_finishes_nonneg(pools_view(pools@), nu as int);
            lemma_count_le_bounds(
                pools_view(pools@)[cu as int].finishes,
                pools_view(pools@)[cu as int].finishes.len() as int,
                horizon,
            );
        }
        let c = count_finishes_le(&pools[cu].finishes, horizon);
        proof {
            assert(pools_view(pools@)[cu as int].finishes == pools@[cu as int]@.finishes);
        }
        completed = completed + c;
        cu = cu + 1;
    }
    proof {
        assert(completed <= started);
    }

    // per-type completions from the mission timeline
    let ghost bt_mid = by_type@;
    let ntl = timeline.len();
    let mut lj: usize = 0;
    while lj < ntl
        invariant
            lj <= ntl,
            ntl == timeline@.len(),
            by_type@.len() == bt_mid.len(),
            forall|k: int|
                0 <= k < by_type@.len() ==> (#[trigger] by_type@[k]).requested == bt_mid[k].requested
                    && by_type@[k].started == bt_mid[k].started && by_type@[k].rejected
                    == bt_mid[k].rejected,
            sum_bt_requested(by_type@, by_type@.len() as int) == sum_bt_requested(
                bt_mid,
                bt_mid.len() as int,
            ),
            by_type@ == bt_fill_model(
                bt_mid,
                timeline_views(timeline@),
                lj as int,
                horizon,
                scenario.mission_types@,
            ),
        decreases ntl - lj,
    {
        let entry = &timeline[lj];
        proof {
            assert(timeline_views(timeline@)[lj as int] == ev_record(timeline@[lj as int]));
        }
        if let TimelineEvent::Mission { mission_type, finish_time, .. } = entry {
            if *finish_time <= horizon {
                if let Option::Some(ti) = find_mission_type(&scenario.mission_types, mission_type) {
                    if ti < by_type.len() {
                        let bt = by_type[ti];
                        let ghost bt0 = by_type@;
                        by_type.set(
                            ti,
                            MissionStats {
                                requested: bt.requested,
                                started: bt.started,
                                completed: sat_add64(bt.completed, 1),
                                rejected: bt.rejected,
                            },
                        );
                        proof {
                            lemma_sum_bt_update(bt0, bt0.len() as int, ti as int, by_type@[ti as int]);
                            assert(by_type@ =~= bt_fill_model(
                                bt_mid,
                                timeline_views(timeline@),
                                lj as int + 1,
                                horizon,
                                scenario.mission_types@,
                            ));
                        }
                    }
                }
            }
        }
        lj = lj + 1;
    }

    // utilization per unit, in thousandths
    let mut utilization: Vec<(String, Utilization)> = Vec::new();
    let mut uu: usize = 0;
    while uu < nu
        invariant
            uu <= nu,
            nu == pools@.len(),
            nu == initial.units@.len(),
            utilization@.len() == uu,
            forall|k: int|
                0 <= k < uu ==> (#[trigger] utilization@[k]).1.aircraft <= 1000
                    && utilization@[k].1.pilot <= 1000 && utilization@[k].1.so <= 1000,
            requested == 0 ==> pools_view(pools@) == fresh_pools(initial@),
            requested == 0 ==> forall|k: int|
                0 <= k < uu ==> (#[trigger] utilization@[k]).1 == (Utilization {
                    aircraft: 0,
                    pilot: 0,
                    so: 0,
                }),
            util_views(utilization@) == util_model(initial@, pools_view(pools@), uu as int, horizon),
        decreases nu - uu,
    {
        let up = &pools[uu];
        let ua = up.aircraft.utilization(horizon);
        let upi = up.pilot.utilization(horizon);
        let us = up.so.utilization(horizon);
        proof {
            if requested == 0 {
                assert(pools_view(pools@)[uu as int] == fresh_pools(initial@)[uu as int]);
                assert(pools@[uu as int]@.aircraft.busy == 0);
                lemma_util_zero(pools@[uu as int]@.aircraft.total, horizon);
                lemma_util_zero(pools@[uu as int]@.pilot.total, horizon);
                lemma_util_zero(pools@[uu as int]@.so.total, horizon);
            }
            assert(pools_view(pools@)[uu as int] == pools@[uu as int]@);
        }
        utilization.push((initial.units[uu].clone(), Utilization { aircraft: ua, pilot: upi, so: us }));
        proof {
            assert(initial.units@[uu as int]@ == initial@.units[uu as int]);
            assert(util_views(utilization@) =~= util_model(
                initial@,
                pools_view(pools@),
                uu as int + 1,
                horizon,
            ));
        }
        uu = uu + 1;
    }

    // per-type counters under their names
    let mut bt_named: Vec<(String, MissionStats)> = Vec::new();
    let mut bj: usize = 0;
    while bj < nt
        invariant
            bj <= nt,
            nt == scenario.mission_types@.len(),
            by_type@.len() == nt,
            bt_named@.len() == bj,
            forall|k: int|
                0 <= k < bj ==> (#[trigger] bt_named@[k]).0@ == scenario.mission_types@[k].name@
                    && bt_named@[k].1 == by_type@[k],
        decreases nt - bj,
    {
        bt_named.push((scenario.mission_types[bj].name.clone(), by_type[bj]));
        bj = bj + 1;
    }
    proof {
        lemma_sum_named_matches(bt_named@, by_type@, nt as int);
    }

    let res = Results {
        horizon,
        missions: MissionStats { requested, started, completed, rejected },
        rejections: Rejections {
            aircraft: rej_aircraft,
            pilot: rej_pilot,
            so: rej_so,
            payload: rej_payload,
        },
        skipped_unknown: skipped,
        utilization,
        by_type: bt_named,
        timeline,
        initial_resources: initial,
    };
    proof {
        lemma_util_model_names(initial@, pools_view(pools@), nu as int, horizon);
        assert forall|i: int|
            0 <= i < res.utilization@.len() implies (#[trigger] res.utilization@[i]).0@
            == res.initial_resources@.units[i] by {
            assert(util_views(res.utilization@)[i] == (res.utilization@[i].0@, res.utilization@[i].1));
        }
        if scenario_deterministic(*scenario) {
            let m = run_model(*scenario, res.initial_resources@, det_demand_events(*scenario).len() as int);
            assert(ne as int == det_demand_events(*scenario).len());
            assert(m == run_model(*scenario, res.initial_resources@, ne as int));
            assert(pools_view(pools@) == m.pools);
            assert(nu as int == m.pools.len());
            assert(res.missions.completed == completed_model(m.pools, m.pools.len() as int, horizon));
            assert(timeline_views(res.timeline@) == m.timeline);
            assert(by_type@ == bt_fill_model(
                m.by_type,
                m.timeline,
                m.timeline.len() as int,
                horizon,
                scenario.mission_types@,
            ));
            let btf = bt_fill_model(
                m.by_type,
                m.timeline,
                m.timeline.len() as int,
                horizon,
                scenario.mission_types@,
            );
            assert(named_views(res.by_type@) =~= Seq::new(
                scenario.mission_types@.len(),
                |t: int| (scenario.mission_types@[t].name@, btf[t]),
            ));
            assert(util_views(res.utilization@) == util_model(
                res.initial_resources@,
                m.pools,
                m.pools.len() as int,
                horizon,
            ));
            assert(deterministic_outcome(res, *scenario));
        }
    }
    Result::Ok(res)
}

/// No unit has finishes yet, so the total is zero.
proof fn lemma_total_finishes_zero(ps: Seq<UnitView>, n: int)
    requires
        n <= ps.len(),
        forall|k: int| 0 <= k < ps.len() ==> (#[trigger] ps[k]).finishes.len() == 0,
    ensures
        total_finishes(ps, n) == 0,
    decreases n,
{
    if n > 0 {
        lemma_total_finishes_zero(ps, n - 1);
    }
}

/// A zero-filled counter vector sums to zero.
proof fn lemma_sum_bt_zero(bt: Seq<MissionStats>, n: int)
    requires
        n <= bt.len(),
        forall|k: int|
            0 <= k < bt.len() ==> (#[trigger] bt[k]) == (MissionStats {
                requested: 0,
                started: 0,
                completed: 0,
                rejected: 0,
            }),
    ensures
        sum_bt_requested(bt, n) == 0,
    decreases n,
{
    if n > 0 {
        lemma_sum_bt_zero(bt, n - 1);
    }
}

/// Named records matching the bare ones sum alike.
proof fn lemma_sum_named_matches(named: Seq<(String, MissionStats)>, bt: Seq<MissionStats>, n: int)
    requires
        n <= named.len(),
        n <= bt.len(),
        forall|k: int| 0 <= k < n ==> (#[trigger] named[k]).1 == bt[k],
    ensures
        sum_named_requested(named, n) == sum_bt_requested(bt, n),
    decreases n,
{
    if n > 0 {
        lemma_sum_named_matches(named, bt, n - 1);
    }
}

/// One full simulation run over owned inputs.
pub fn run_simulation_internal(scenario: Scenario, options: Options) -> (r: Result<
    Results,
    SimError,
>)
    ensures
        match r {
            Result::Ok(res) => {
                &&& options.state is Some
                &&& spec_initial(options.state.unwrap()).units.len() > 0
                &&& results_consistent(res, scenario)
                &&& res.initial_resources@ == spec_run_initial(scenario, options)
                &&& res.initial_resources@.wf()
                &&& scenario_deterministic(scenario) ==> deterministic_outcome(res, scenario)
            },
            Result::Err(e) => {
                &&& (e == SimError::MissingState <==> options.state is None)
                &&& (e == SimError::NoUnits <==> options.state is Some && spec_initial(
                    options.state.unwrap(),
                ).units.len() == 0)
                &&& (e == SimError::MissingState || e == SimError::NoUnits)
            },
        },
{
    run_simulation_internal_ref(&scenario, &options)
}

} // verus!
