//! Demand generation: one time-ordered stream of mission requests.
//!
//! Deterministic demand has an exact specification; Poisson demand is
//! random, but every outcome is within the horizon and the final stream
//! is stably sorted by time.  A zero horizon is an empty simulation
//! window and produces no demand at all.

use vstd::prelude::*;

use crate::MilliHours;
use crate::dist::sample_exponential_mh;
use crate::rng::SimRng;
use crate::types::{Demand, DemandMode, Scenario};

verus! {

/// One mission request at a point in simulated time.
#[derive(Clone, Debug)]
pub struct DemandEvent {
    pub time: MilliHours,
    pub mission_type: String,
}

/// Weak ascending order by event time.
pub open spec fn events_sorted(s: Seq<DemandEvent>) -> bool {
    forall|i: int, j: int| 0 <= i < j < s.len() ==> s[i].time <= s[j].time
}

/// The deterministic arrival stream from `t` on: events every `every`
/// milli-hours up to and including the horizon.
pub open spec fn det_stream(name: String, t: int, every: int, horizon: int) -> Seq<DemandEvent>
    decreases (if t <= horizon { horizon + 1 - t } else { 0int }) when every >= 1
{
    if horizon <= 0 || t > horizon || t < 0 {
        Seq::<DemandEvent>::empty()
    } else {
        seq![DemandEvent { time: t as u64, mission_type: name }] + det_stream(
            name,
            t + every,
            every,
            horizon,
        )
    }
}

/// Whether a demand entry is a deterministic process.
pub open spec fn demand_is_deterministic(d: Demand) -> bool {
    d.mode is Deterministic
}

/// Whether a demand entry is settled: deterministic, or a Poisson
/// process with a zero rate, which produces no events at all.
pub open spec fn demand_is_settled(d: Demand) -> bool {
    match d.mode {
        DemandMode::Deterministic { .. } => true,
        DemandMode::Poisson { rate_milli } => rate_milli == 0,
    }
}

/// Whether an event names the mission type of some demand entry.
pub open spec fn event_named_in(s: Scenario, e: DemandEvent) -> bool {
    exists|j: int|
        0 <= j < s.demand@.len() && e.mission_type@ == (#[trigger] s.demand@[j]).mission_type@
}

/// The exact stream of one demand entry, defined for deterministic
/// entries; a zero interval yields nothing.
pub open spec fn demand_stream(d: Demand, horizon: u64) -> Seq<DemandEvent> {
    match d.mode {
        DemandMode::Deterministic { every, start } => if every == 0 {
            Seq::<DemandEvent>::empty()
        } else {
            det_stream(d.mission_type, start as int, every as int, horizon as int)
        },
        DemandMode::Poisson { .. } => Seq::<DemandEvent>::empty(),
    }
}

/// The concatenated streams of the first `n` demand entries.
pub open spec fn demand_streams(ds: Seq<Demand>, n: int, horizon: u64) -> Seq<DemandEvent>
    decreases n,
{
    if n <= 0 {
        Seq::<DemandEvent>::empty()
    } else {
        demand_streams(ds, n - 1, horizon) + demand_stream(ds[n - 1], horizon)
    }
}

/// Whether every demand entry of a scenario is deterministic.
pub open spec fn all_demand_deterministic(s: Scenario) -> bool {
    forall|i: int| 0 <= i < s.demand@.len() ==> demand_is_deterministic(#[trigger] s.demand@[i])
}

/// Whether every demand entry of a scenario is settled, so the whole
/// stream is the deterministic one.
pub open spec fn all_demand_settled(s: Scenario) -> bool {
    forall|i: int| 0 <= i < s.demand@.len() ==> demand_is_settled(#[trigger] s.demand@[i])
}

/// A stable insertion by time: the new event goes after every event
/// that does not exceed it.
pub open spec fn insert_by_time(s: Seq<DemandEvent>, e: DemandEvent) -> Seq<DemandEvent>
    decreases s.len(),
{
    if s.len() == 0 {
        seq![e]
    } else if e.time < s.last().time {
        insert_by_time(s.drop_last(), e).push(s.last())
    } else {
        s.push(e)
    }
}

/// Stable insertion sort by time.
pub open spec fn sort_by_time(s: Seq<DemandEvent>) -> Seq<DemandEvent>
    decreases s.len(),
{
    if s.len() == 0 {
        Seq::<DemandEvent>::empty()
    } else {
        insert_by_time(sort_by_time(s.drop_last()), s.last())
    }
}

/// The full, time-sorted demand of a scenario whose entries are all
/// deterministic.
pub open spec fn det_demand_events(s: Scenario) -> Seq<DemandEvent> {
    sort_by_time(demand_streams(s.demand@, s.demand@.len() as int, s.horizon))
}

/// Inserting into a sorted stream keeps it sorted; no time exceeds
/// the larger of the new event's time and the old last time.
proof fn lemma_insert_by_time_sorted(s: Seq<DemandEvent>, e: DemandEvent)
    requires
        events_sorted(s),
    ensures
        events_sorted(insert_by_time(s, e)),
        insert_by_time(s, e).len() == s.len() + 1,
        forall|i: int|
            0 <= i < insert_by_time(s, e).len() ==> (#[trigger] insert_by_time(s, e)[i].time)
                <= insert_bound(s, e),
    decreases s.len(),
{
    let r = insert_by_time(s, e);
    if s.len() == 0 {
    } else if e.time < s.last().time {
        assert(events_sorted(s.drop_last())) by {
            assert forall|i: int, j: int|
                0 <= i < j < s.drop_last().len() implies s.drop_last()[i].time
                <= s.drop_last()[j].time by {
                assert(s.drop_last()[i] == s[i] && s.drop_last()[j] == s[j]);
            }
        }
        lemma_insert_by_time_sorted(s.drop_last(), e);
        let r0 = insert_by_time(s.drop_last(), e);
        assert(r == r0.push(s.last()));
        assert(insert_bound(s.drop_last(), e) <= s.last().time) by {
            if s.drop_last().len() > 0 {
                assert(s.drop_last().last() == s[s.len() - 2]);
                assert(s[s.len() - 2].time <= s[s.len() - 1].time);
                assert(s.last() == s[s.len() - 1]);
            }
        }
        assert forall|i: int, j: int| 0 <= i < j < r.len() implies r[i].time <= r[j].time by {
            if j < r.len() - 1 {
                assert(r[i] == r0[i] && r[j] == r0[j]);
            } else {
                assert(r[j] == s.last());
                assert(r[i] == r0[i]);
                assert(r0[i].time <= insert_bound(s.drop_last(), e));
            }
        }
        assert forall|i: int| 0 <= i < r.len() implies r[i].time <= insert_bound(s, e) by {
            if i < r.len() - 1 {
                assert(r[i] == r0[i]);
                assert(r0[i].time <= insert_bound(s.drop_last(), e));
            } else {
                assert(r[i] == s.last());
            }
        }
    } else {
        assert forall|i: int, j: int| 0 <= i < j < r.len() implies r[i].time <= r[j].time by {
            if j < r.len() - 1 {
                assert(r[i] == s[i] && r[j] == s[j]);
            } else {
                assert(r[j] == e);
                if i < s.len() - 1 {
                    assert(r[i] == s[i]);
                    assert(s[i].time <= s.last().time);
                } else {
                    assert(r[i] == s[i] && s[i] == s.last());
                }
            }
        }
        assert forall|i: int| 0 <= i < r.len() implies r[i].time <= insert_bound(s, e) by {
            if i < r.len() - 1 {
                assert(r[i] == s[i]);
                if i < s.len() - 1 {
                    assert(s[i].time <= s.last().time);
                } else {
                    assert(s[i] == s.last());
                }
            } else {
                assert(r[i] == e);
            }
        }
    }
}

/// The ceiling used while proving sortedness of an insertion.
pub open spec fn insert_bound(s: Seq<DemandEvent>, e: DemandEvent) -> u64 {
    if s.len() == 0 {
        e.time
    } else if e.time >= s.last().time {
        e.time
    } else {
        s.last().time
    }
}

/// Sorting yields a sorted stream.
proof fn lemma_sort_by_time_sorted(s: Seq<DemandEvent>)
    ensures
        events_sorted(sort_by_time(s)),
        sort_by_time(s).len() == s.len(),
    decreases s.len(),
{
    if s.len() > 0 {
        lemma_sort_by_time_sorted(s.drop_last());
        lemma_insert_by_time_sorted(sort_by_time(s.drop_last()), s.last());
    }
}

/// Every event of the sorted stream is an event of the input.
proof fn lemma_insert_by_time_membership(s: Seq<DemandEvent>, e: DemandEvent)
    ensures
        forall|i: int|
            0 <= i < insert_by_time(s, e).len() ==> (#[trigger] insert_by_time(s, e)[i]) == e
                || s.contains(insert_by_time(s, e)[i]),
    decreases s.len(),
{
    let r = insert_by_time(s, e);
    if s.len() == 0 {
    } else if e.time < s.last().time {
        lemma_insert_by_time_membership(s.drop_last(), e);
        let r0 = insert_by_time(s.drop_last(), e);
        assert forall|i: int| 0 <= i < r.len() implies r[i] == e || s.contains(r[i]) by {
            if i < r.len() - 1 {
                assert(r[i] == r0[i]);
                if r0[i] != e {
                    let j = choose|j: int| 0 <= j < s.drop_last().len() && s.drop_last()[j] == r0[i];
                    assert(s[j] == r0[i]);
                }
            } else {
                assert(r[i] == s.last());
                assert(s[s.len() - 1] == s.last());
            }
        }
    } else {
        assert forall|i: int| 0 <= i < r.len() implies r[i] == e || s.contains(r[i]) by {
            if i < r.len() - 1 {
                assert(r[i] == s[i]);
            }
        }
    }
}

/// Sorting preserves membership.
proof fn lemma_sort_by_time_membership(s: Seq<DemandEvent>)
    ensures
        forall|i: int|
            0 <= i < sort_by_time(s).len() ==> s.contains(#[trigger] sort_by_time(s)[i]),
    decreases s.len(),
{
    if s.len() > 0 {
        let s0 = s.drop_last();
        lemma_sort_by_time_membership(s0);
        lemma_insert_by_time_membership(sort_by_time(s0), s.last());
        assert forall|i: int|
            0 <= i < sort_by_time(s).len() implies s.contains(#[trigger] sort_by_time(s)[i]) by {
            let x = sort_by_time(s)[i];
            if x == s.last() {
                assert(s[s.len() - 1] == x);
            } else {
                assert(sort_by_time(s0).contains(x) || x == s.last());
                if sort_by_time(s0).contains(x) {
                    let j = choose|j: int| 0 <= j < sort_by_time(s0).len() && sort_by_time(s0)[j] == x;
                    assert(s0.contains(x));
                    let k = choose|k: int| 0 <= k < s0.len() && s0[k] == x;
                    assert(s[k] == x);
                }
            }
        }
    }
}

/// An insertion position: everything before it is within the new
/// event's time, everything from it on is past it.
proof fn lemma_insert_at_position(s: Seq<DemandEvent>, e: DemandEvent, p: int)
    requires
        0 <= p <= s.len(),
        forall|i: int| p <= i < s.len() ==> (#[trigger] s[i].time) > e.time,
        p == 0 || s[p - 1].time <= e.time,
    ensures
        insert_by_time(s, e) == s.insert(p, e),
    decreases s.len(),
{
    if s.len() == 0 {
        assert(insert_by_time(s, e) =~= s.insert(0, e));
    } else if e.time < s.last().time {
        assert(p < s.len()) by {
            if p == s.len() {
                assert(s[p - 1].time <= e.time);
                assert(s[s.len() - 1] == s.last());
            }
        }
        let s0 = s.drop_last();
        assert forall|i: int| p <= i < s0.len() implies (#[trigger] s0[i].time) > e.time by {
            assert(s0[i] == s[i]);
        }
        if p > 0 {
            assert(s0[p - 1] == s[p - 1]);
        }
        lemma_insert_at_position(s0, e, p);
        assert(insert_by_time(s, e) == insert_by_time(s0, e).push(s.last()));
        assert(insert_by_time(s0, e).push(s.last()) =~= s.insert(p, e)) by {
            assert(insert_by_time(s0, e) == s0.insert(p, e));
        }
    } else {
        assert(p == s.len()) by {
            if p < s.len() {
                assert(s[s.len() - 1].time > e.time);
                assert(s[s.len() - 1] == s.last());
            }
        }
        assert(s.push(e) =~= s.insert(s.len() as int, e));
    }
}

/// A stable insertion sort over the raw event stream, with the exact
/// specification `sort_by_time`.
fn sort_events(mut raw: Vec<DemandEvent>) -> (out: Vec<DemandEvent>)
    ensures
        out@ == sort_by_time(raw@),
        events_sorted(out@),
{
    proof {
        lemma_sort_by_time_sorted(raw@);
    }
    let ghost input = raw@;
    let mut out: Vec<DemandEvent> = Vec::new();
    // consume from the back so each step matches one unfolding of the
    // sort's recursion over ever-shorter prefixes, rebuilt in order
    let n = raw.len();
    let mut i: usize = 0;
    while i < n
        invariant
            n == input.len(),
            i <= n,
            raw@ == input,
            out@ == sort_by_time(input.take(i as int)),
            events_sorted(out@),
        decreases n - i,
    {
        let e = clone_event(&raw[i]);
        proof {
            assert(input.take(i as int + 1).drop_last() =~= input.take(i as int));
            assert(input.take(i as int + 1).last() == input[i as int]);
        }
        // find the stable position from the back
        let mut p: usize = out.len();
        while p > 0
            invariant
                p <= out@.len(),
                forall|k: int| p <= k < out@.len() ==> (#[trigger] out@[k].time) > e.time,
            ensures
                p <= out@.len(),
                forall|k: int| p <= k < out@.len() ==> (#[trigger] out@[k].time) > e.time,
                p == 0 || out@[p - 1].time <= e.time,
            decreases p,
        {
            if out[p - 1].time <= e.time {
                break;
            }
            p = p - 1;
        }
        proof {
            lemma_insert_at_position(out@, e, p as int);
            lemma_insert_by_time_sorted(out@, e);
        }
        out.insert(p, e);
        i = i + 1;
        proof {
            assert(input.take(i as int) =~= input.take(i as int - 1).push(input[i as int - 1]));
        }
    }
    proof {
        assert(input.take(n as int) =~= input);
    }
    out
}

/// An exact copy of one event.
fn clone_event(e: &DemandEvent) -> (r: DemandEvent)
    ensures
        r == *e,
{
    DemandEvent { time: e.time, mission_type: e.mission_type.clone() }
}

/// The time-ordered demand stream of a scenario.  Every event lies
/// within the horizon; a zero horizon yields no events; when all demand
/// is deterministic the stream is exactly `det_demand_events`.
pub fn generate_demand(scenario: &Scenario, rng: &mut SimRng) -> (events: Vec<DemandEvent>)
    ensures
        events_sorted(events@),
        forall|i: int| 0 <= i < events@.len() ==> (#[trigger] events@[i].time) <= scenario.horizon,
        forall|i: int| 0 <= i < events@.len() ==> event_named_in(*scenario, #[trigger] events@[i]),
        events@.len() >= det_demand_events(*scenario).len(),
        scenario.horizon == 0 ==> events@.len() == 0,
        scenario.demand@.len() == 0 ==> events@.len() == 0,
        all_demand_settled(*scenario) ==> events@ == det_demand_events(*scenario),
{
    let horizon = scenario.horizon;
    let mut raw: Vec<DemandEvent> = Vec::new();
    let nd = scenario.demand.len();
    let mut di: usize = 0;
    while di < nd
        invariant
            nd == scenario.demand@.len(),
            di <= nd,
            horizon == scenario.horizon,
            forall|i: int| 0 <= i < raw@.len() ==> (#[trigger] raw@[i].time) <= horizon,
            forall|i: int| 0 <= i < raw@.len() ==> event_named_in(*scenario, #[trigger] raw@[i]),
            raw@.len() >= demand_streams(scenario.demand@, di as int, horizon).len(),
            horizon == 0 ==> raw@.len() == 0,
            (forall|i: int|
                0 <= i < di ==> demand_is_settled(#[trigger] scenario.demand@[i])) ==> raw@
                == demand_streams(scenario.demand@, di as int, horizon),
        decreases nd - di,
    {
        let d = &scenario.demand[di];
        let ghost raw0 = raw@;
        match &d.mode {
            DemandMode::Deterministic { every, start } => {
                if *every > 0 && horizon > 0 && *start <= horizon {
                    let every = *every;
                    let mut t: u64 = *start;
                    let mut more: bool = true;
                    while more
                        invariant
                            every >= 1,
                            horizon >= 1,
                            horizon == scenario.horizon,
                            more ==> t <= horizon,
                            forall|i: int|
                                0 <= i < raw@.len() ==> (#[trigger] raw@[i].time) <= horizon,
                            forall|i: int|
                                0 <= i < raw@.len() ==> event_named_in(
                                    *scenario,
                                    #[trigger] raw@[i],
                                ),
                            0 <= di < scenario.demand@.len(),
                            *d == scenario.demand@[di as int],
                            raw0 + det_stream(d.mission_type, *start as int, every as int, horizon as int)
                                == raw@ + (if more {
                                det_stream(d.mission_type, t as int, every as int, horizon as int)
                            } else {
                                Seq::<DemandEvent>::empty()
                            }),
                        decreases (if more { 1int } else { 0int }), horizon - t,
                    {
                        raw.push(DemandEvent { time: t, mission_type: d.mission_type.clone() });
                        proof {
                            assert(event_named_in(*scenario, raw@[raw@.len() - 1])) by {
                                assert(raw@[raw@.len() - 1].mission_type@
                                    == scenario.demand@[di as int].mission_type@);
                            }
                            assert(det_stream(d.mission_type, t as int, every as int, horizon as int)
                                =~= seq![DemandEvent { time: t, mission_type: d.mission_type }]
                                + det_stream(
                                d.mission_type,
                                t as int + every as int,
                                every as int,
                                horizon as int,
                            ));
                            assert(raw0 + det_stream(
                                d.mission_type,
                                *start as int,
                                every as int,
                                horizon as int,
                            ) =~= raw@ + det_stream(
                                d.mission_type,
                                t as int + every as int,
                                every as int,
                                horizon as int,
                            ));
                        }
                        match t.checked_add(every) {
                            Some(t2) => {
                                if t2 <= horizon {
                                    t = t2;
                                } else {
                                    more = false;
                                    proof {
                                        assert(det_stream(
                                            d.mission_type,
                                            t as int + every as int,
                                            every as int,
                                            horizon as int,
                                        ) =~= Seq::<DemandEvent>::empty());
                                        assert(raw0 + det_stream(
                                            d.mission_type,
                                            *start as int,
                                            every as int,
                                            horizon as int,
                                        ) =~= raw@);
                                    }
                                }
                            },
                            None => {
                                more = false;
                                proof {
                                    assert(det_stream(
                                        d.mission_type,
                                        t as int + every as int,
                                        every as int,
                                        horizon as int,
                                    ) =~= Seq::<DemandEvent>::empty());
                                    assert(raw0 + det_stream(
                                        d.mission_type,
                                        *start as int,
                                        every as int,
                                        horizon as int,
                                    ) =~= raw@);
                                }
                            },
                        }
                    }
                } else {
                    proof {
                        if *every > 0 && horizon > 0 {
                            assert(det_stream(
                                d.mission_type,
                                *start as int,
                                *every as int,
                                horizon as int,
                            ) =~= Seq::<DemandEvent>::empty());
                        }
                        assert(raw@ =~= raw0 + demand_stream(*d, horizon));
                    }
                }
            },
            DemandMode::Poisson { rate_milli } => {
                if *rate_milli > 0 && horizon > 0 {
                    let rate = *rate_milli;
                    let mut t: u64 = 0;
                    while t < horizon
                        invariant
                            horizon == scenario.horizon,
                            forall|i: int|
                                0 <= i < raw@.len() ==> (#[trigger] raw@[i].time) <= horizon,
                            forall|i: int|
                                0 <= i < raw@.len() ==> event_named_in(
                                    *scenario,
                                    #[trigger] raw@[i],
                                ),
                            raw@.len() >= raw0.len(),
                            0 <= di < scenario.demand@.len(),
                            *d == scenario.demand@[di as int],
                        decreases horizon - t,
                    {
                        let u = rng.next_u64();
                        let dt0 = sample_exponential_mh(rate, u);
                        // arrivals advance at least one milli-hour, so
                        // the stream always terminates
                        let dt = if dt0 == 0 { 1 } else { dt0 };
                        match t.checked_add(dt) {
                            Some(t2) => {
                                if t2 <= horizon {
                                    t = t2;
                                    raw.push(
                                        DemandEvent { time: t, mission_type: d.mission_type.clone() },
                                    );
                                    proof {
                                        assert(event_named_in(*scenario, raw@[raw@.len() - 1])) by {
                                            assert(raw@[raw@.len() - 1].mission_type@
                                                == scenario.demand@[di as int].mission_type@);
                                        }
                                    }
                                } else {
                                    t = horizon;
                                }
                            },
                            None => {
                                t = horizon;
                            },
                        }
                    }
                }
            },
        }
        di = di + 1;
        proof {
            assert(demand_streams(scenario.demand@, di as int, horizon).len() == demand_streams(
                scenario.demand@,
                di as int - 1,
                horizon,
            ).len() + demand_stream(scenario.demand@[di as int - 1], horizon).len());
            if forall|i: int|
                0 <= i < di ==> demand_is_settled(#[trigger] scenario.demand@[i]) {
                assert(demand_streams(scenario.demand@, di as int, horizon) =~= demand_streams(
                    scenario.demand@,
                    di as int - 1,
                    horizon,
                ) + demand_stream(scenario.demand@[di as int - 1], horizon));
            }
        }
    }
    proof {
        lemma_sort_by_time_sorted(raw@);
        lemma_sort_by_time_sorted(
            demand_streams(scenario.demand@, scenario.demand@.len() as int, scenario.horizon),
        );
        lemma_sort_by_time_membership(raw@);
        assert forall|i: int|
            0 <= i < sort_by_time(raw@).len() implies (#[trigger] sort_by_time(raw@)[i].time)
            <= scenario.horizon by {
            assert(raw@.contains(sort_by_time(raw@)[i]));
            let j = choose|j: int| 0 <= j < raw@.len() && raw@[j] == sort_by_time(raw@)[i];
        }
        assert forall|i: int|
            0 <= i < sort_by_time(raw@).len() implies event_named_in(
            *scenario,
            #[trigger] sort_by_time(raw@)[i],
        ) by {
            assert(raw@.contains(sort_by_time(raw@)[i]));
            let j = choose|j: int| 0 <= j < raw@.len() && raw@[j] == sort_by_time(raw@)[i];
            assert(event_named_in(*scenario, raw@[j]));
        }
        if scenario.horizon == 0 || scenario.demand@.len() == 0 {
            assert(sort_by_time(raw@) =~= Seq::<DemandEvent>::empty());
        }
    }
    sort_events(raw)
}

} // verus!
