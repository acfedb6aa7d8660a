//! The Monte Carlo driver: many independent simulation runs folded
//! into streaming statistics, without retaining every iteration.
//!
//! Folding is commutative over iterations, so the driver here runs them
//! in order; a caller that spreads iterations over threads folds each
//! completed result with `StreamingAggregator::process_iteration` under
//! its own lock and finalizes once.  The reservoir's random source is
//! separate from every simulation's own.

use vstd::pervasive::VecAdditionalExecFns;
use vstd::prelude::*;

use crate::MilliHours;
use crate::engine::{
    deterministic_outcome, results_consistent, run_simulation_internal_ref, scenario_deterministic,
    spec_run_initial,
};
use crate::demand::det_demand_events;
use crate::rng::SimRng;
use crate::state::spec_initial;
use crate::stats::{
    acc_after, aggregate_of, fresh_acc, percentiles_ordered, AggregatedStatistics,
    StatsAccumulator, StreamingStatistics,
};
use crate::types::{
    InitialResources, MissionStats, Options, Overrides, Results, Scenario, SimError, State,
    Utilization,
};

verus! {

/// Options of a Monte Carlo run.
#[derive(Clone, Debug)]
pub struct MonteCarloOptions {
    pub iterations: Option<u32>,
    pub keep_iterations: Option<bool>,
    pub state: Option<State>,
    pub overrides: Option<Overrides>,
}

/// Aggregates over the four mission counters.
#[derive(Clone, Copy, Debug)]
pub struct MissionAggregates {
    pub requested: AggregatedStatistics,
    pub started: AggregatedStatistics,
    pub completed: AggregatedStatistics,
    pub rejected: AggregatedStatistics,
}

/// Aggregates over the four rejection reasons.
#[derive(Clone, Copy, Debug)]
pub struct RejectionAggregates {
    pub aircraft: AggregatedStatistics,
    pub pilot: AggregatedStatistics,
    pub so: AggregatedStatistics,
    pub payload: AggregatedStatistics,
}

/// Aggregates over one unit's utilization, in thousandths.
#[derive(Clone, Copy, Debug)]
pub struct UtilizationAggregates {
    pub aircraft: AggregatedStatistics,
    pub pilot: AggregatedStatistics,
    pub so: AggregatedStatistics,
}

/// The aggregated outcome of a Monte Carlo run.
#[derive(Clone, Debug)]
pub struct MonteCarloResults {
    pub iterations: u32,
    pub horizon: MilliHours,
    pub missions: MissionAggregates,
    pub rejections: RejectionAggregates,
    pub utilization: Vec<(String, UtilizationAggregates)>,
    pub by_type: Vec<(String, MissionAggregates)>,
    pub iterations_data: Option<Vec<Results>>,
    pub initial_resources: InitialResources,
}

/// Every percentile record of the output is ordered and bracketed by
/// its extremes.
pub open spec fn mc_percentiles_ordered(r: MonteCarloResults) -> bool {
    &&& percentiles_ordered(r.missions.requested)
    &&& percentiles_ordered(r.missions.started)
    &&& percentiles_ordered(r.missions.completed)
    &&& percentiles_ordered(r.missions.rejected)
    &&& percentiles_ordered(r.rejections.aircraft)
    &&& percentiles_ordered(r.rejections.pilot)
    &&& percentiles_ordered(r.rejections.so)
    &&& percentiles_ordered(r.rejections.payload)
    &&& forall|i: int|
        0 <= i < r.utilization@.len() ==> percentiles_ordered(
            (#[trigger] r.utilization@[i]).1.aircraft,
        ) && percentiles_ordered(r.utilization@[i].1.pilot) && percentiles_ordered(
            r.utilization@[i].1.so,
        )
    &&& forall|i: int|
        0 <= i < r.by_type@.len() ==> percentiles_ordered((#[trigger] r.by_type@[i]).1.requested)
            && percentiles_ordered(r.by_type@[i].1.started) && percentiles_ordered(
            r.by_type@[i].1.completed,
        ) && percentiles_ordered(r.by_type@[i].1.rejected)
}

/// The first position of a name among the unit streams, or the length
/// when none matches.
pub open spec fn util_key_from(s: Seq<(String, UtilStreams)>, name: Seq<char>, i: int) -> int
    decreases s.len() - i,
{
    if i < 0 || i >= s.len() {
        s.len() as int
    } else if s[i].0@ == name {
        i
    } else {
        util_key_from(s, name, i + 1)
    }
}

/// The first position of a name among the unit streams.
pub open spec fn util_key_at(s: Seq<(String, UtilStreams)>, name: Seq<char>) -> int {
    util_key_from(s, name, 0)
}

/// The first position of a name among the type streams, or the length
/// when none matches.
pub open spec fn type_key_from(s: Seq<(String, TypeStreams)>, name: Seq<char>, i: int) -> int
    decreases s.len() - i,
{
    if i < 0 || i >= s.len() {
        s.len() as int
    } else if s[i].0@ == name {
        i
    } else {
        type_key_from(s, name, i + 1)
    }
}

/// The first position of a name among the type streams.
pub open spec fn type_key_at(s: Seq<(String, TypeStreams)>, name: Seq<char>) -> int {
    type_key_from(s, name, 0)
}

/// Pairwise-distinct names in a result's utilization list.
pub open spec fn util_names_distinct(s: Seq<(String, Utilization)>) -> bool {
    forall|i: int, j: int| 0 <= i < j < s.len() ==> (#[trigger] s[i]).0@ != (#[trigger] s[j]).0@
}

/// Pairwise-distinct names in a result's per-type list.
pub open spec fn type_names_distinct(s: Seq<(String, MissionStats)>) -> bool {
    forall|i: int, j: int| 0 <= i < j < s.len() ==> (#[trigger] s[i]).0@ != (#[trigger] s[j]).0@
}

/// The accumulator a unit's aircraft stream holds before a fold step:
/// the stream's own when the name is present, a fresh one otherwise.
pub open spec fn prior_util_air(s: Seq<(String, UtilStreams)>, name: Seq<char>) -> StatsAccumulator {
    let j = util_key_at(s, name);
    if j < s.len() {
        s[j].1.aircraft.acc
    } else {
        fresh_acc()
    }
}

/// The pilot counterpart of `prior_util_air`.
pub open spec fn prior_util_pilot(s: Seq<(String, UtilStreams)>, name: Seq<char>) -> StatsAccumulator {
    let j = util_key_at(s, name);
    if j < s.len() {
        s[j].1.pilot.acc
    } else {
        fresh_acc()
    }
}

/// The sensor-operator counterpart of `prior_util_air`.
pub open spec fn prior_util_so(s: Seq<(String, UtilStreams)>, name: Seq<char>) -> StatsAccumulator {
    let j = util_key_at(s, name);
    if j < s.len() {
        s[j].1.so.acc
    } else {
        fresh_acc()
    }
}

/// The accumulator a type's counter stream holds before a fold step.
pub open spec fn prior_type_acc(s: Seq<(String, TypeStreams)>, name: Seq<char>, which: int) -> StatsAccumulator {
    let j = type_key_at(s, name);
    if j < s.len() {
        if which == 0 {
            s[j].1.requested.acc
        } else if which == 1 {
            s[j].1.started.acc
        } else if which == 2 {
            s[j].1.completed.acc
        } else {
            s[j].1.rejected.acc
        }
    } else {
        fresh_acc()
    }
}

/// A first-match position pins the key index.
proof fn lemma_util_key_char(s: Seq<(String, UtilStreams)>, name: Seq<char>, j: int)
    requires
        0 <= j <= s.len(),
        forall|k: int| 0 <= k < j ==> (#[trigger] s[k]).0@ != name,
        j == s.len() || s[j].0@ == name,
    ensures
        util_key_at(s, name) == j,
{
    lemma_util_key_char_from(s, name, j, 0);
}

proof fn lemma_util_key_char_from(s: Seq<(String, UtilStreams)>, name: Seq<char>, j: int, i: int)
    requires
        0 <= i <= j <= s.len(),
        forall|k: int| 0 <= k < j ==> (#[trigger] s[k]).0@ != name,
        j == s.len() || s[j].0@ == name,
    ensures
        util_key_from(s, name, i) == j,
    decreases s.len() - i,
{
    if i < j {
        lemma_util_key_char_from(s, name, j, i + 1);
    }
}

/// A first-match position pins the key index.
proof fn lemma_type_key_char(s: Seq<(String, TypeStreams)>, name: Seq<char>, j: int)
    requires
        0 <= j <= s.len(),
        forall|k: int| 0 <= k < j ==> (#[trigger] s[k]).0@ != name,
        j == s.len() || s[j].0@ == name,
    ensures
        type_key_at(s, name) == j,
{
    lemma_type_key_char_from(s, name, j, 0);
}

proof fn lemma_type_key_char_from(s: Seq<(String, TypeStreams)>, name: Seq<char>, j: int, i: int)
    requires
        0 <= i <= j <= s.len(),
        forall|k: int| 0 <= k < j ==> (#[trigger] s[k]).0@ != name,
        j == s.len() || s[j].0@ == name,
    ensures
        type_key_from(s, name, i) == j,
    decreases s.len() - i,
{
    if i < j {
        lemma_type_key_char_from(s, name, j, i + 1);
    }
}

/// The first-match index is within bounds, names before it differ,
/// and the entry there carries the name.
proof fn lemma_util_key_props(s: Seq<(String, UtilStreams)>, nm: Seq<char>)
    ensures
        0 <= util_key_at(s, nm) <= s.len(),
        util_key_at(s, nm) < s.len() ==> s[util_key_at(s, nm)].0@ == nm,
        forall|k: int| 0 <= k < util_key_at(s, nm) ==> (#[trigger] s[k]).0@ != nm,
{
    lemma_util_key_props_from(s, nm, 0);
}

proof fn lemma_util_key_props_from(s: Seq<(String, UtilStreams)>, nm: Seq<char>, i: int)
    requires
        0 <= i,
    ensures
        i <= util_key_from(s, nm, i) <= s.len() || util_key_from(s, nm, i) == s.len(),
        0 <= util_key_from(s, nm, i) <= s.len(),
        util_key_from(s, nm, i) < s.len() ==> s[util_key_from(s, nm, i)].0@ == nm,
        forall|k: int| i <= k < util_key_from(s, nm, i) ==> (#[trigger] s[k]).0@ != nm,
    decreases s.len() - i,
{
    if i < s.len() && s[i].0@ != nm {
        lemma_util_key_props_from(s, nm, i + 1);
    }
}

/// Sequences with the same names match keys alike.
proof fn lemma_util_key_same_names(
    s1: Seq<(String, UtilStreams)>,
    s2: Seq<(String, UtilStreams)>,
    nm: Seq<char>,
)
    requires
        s1.len() == s2.len(),
        forall|j: int| 0 <= j < s1.len() ==> (#[trigger] s1[j]).0@ == s2[j].0@,
    ensures
        util_key_at(s1, nm) == util_key_at(s2, nm),
{
    lemma_util_key_props(s1, nm);
    let j = util_key_at(s1, nm);
    assert forall|k: int| 0 <= k < j implies (#[trigger] s2[k]).0@ != nm by {
        assert(s1[k].0@ == s2[k].0@);
    }
    lemma_util_key_char(s2, nm, j);
}

/// One fold step over the unit streams preserves the bookkeeping: the
/// names of known entries, entries whose unit this result does not
/// carry, the region where unprocessed names can be found, and the
/// exact stepping of every processed name's streams.
#[verifier::rlimit(50)]
proof fn lemma_util_step(
    u0: Seq<(String, UtilStreams)>,
    pre: Seq<(String, UtilStreams)>,
    mid: Seq<(String, UtilStreams)>,
    post: Seq<(String, UtilStreams)>,
    resu: Seq<(String, crate::types::Utilization)>,
    ui: int,
    idx: int,
    found: bool,
    taken: UtilStreams,
    put: UtilStreams,
)
    requires
        0 <= ui < resu.len(),
        pre.len() >= u0.len(),
        forall|j: int| 0 <= j < u0.len() ==> (#[trigger] pre[j]).0 == u0[j].0,
        forall|j: int|
            0 <= j < u0.len() && (forall|k: int|
                0 <= k < ui ==> (#[trigger] resu[k]).0@ != u0[j].0@) ==> (#[trigger] pre[j])
                == u0[j],
        util_names_distinct(resu) ==> forall|k: int|
            #![trigger resu[k]]
            ui <= k < resu.len() ==> util_key_at(pre, resu[k].0@) < u0.len() || util_key_at(
                pre,
                resu[k].0@,
            ) == pre.len(),
        util_names_distinct(resu) ==> forall|k: int|
            #![trigger resu[k]]
            0 <= k < ui ==> ({
                let nm = resu[k].0@;
                let j = util_key_at(pre, nm);
                &&& j < pre.len()
                &&& pre[j].1.aircraft.acc == acc_after(
                    prior_util_air(u0, nm),
                    resu[k].1.aircraft as u64,
                )
                &&& pre[j].1.pilot.acc == acc_after(prior_util_pilot(u0, nm), resu[k].1.pilot as u64)
                &&& pre[j].1.so.acc == acc_after(prior_util_so(u0, nm), resu[k].1.so as u64)
            }),
        found ==> 0 <= idx < pre.len() && pre[idx as int].0@ == resu[ui].0@ && (forall|k: int|
            0 <= k < idx ==> (#[trigger] pre[k]).0@ != resu[ui].0@) && mid == pre,
        !found ==> idx == pre.len() && (forall|k: int|
            0 <= k < pre.len() ==> (#[trigger] pre[k]).0@ != resu[ui].0@) && mid.len() == pre.len()
            + 1 && (forall|j: int| 0 <= j < pre.len() ==> (#[trigger] mid[j]) == pre[j])
            && mid[idx as int].0@ == resu[ui].0@ && mid[idx as int].1.aircraft.acc == fresh_acc()
            && mid[idx as int].1.pilot.acc == fresh_acc() && mid[idx as int].1.so.acc
            == fresh_acc(),
        taken == mid[idx as int].1,
        post == mid.update(idx, (mid[idx as int].0, put)),
        put.aircraft.acc == acc_after(taken.aircraft.acc, resu[ui].1.aircraft as u64),
        put.pilot.acc == acc_after(taken.pilot.acc, resu[ui].1.pilot as u64),
        put.so.acc == acc_after(taken.so.acc, resu[ui].1.so as u64),
    ensures
        post.len() >= u0.len(),
        forall|j: int| 0 <= j < u0.len() ==> (#[trigger] post[j]).0 == u0[j].0,
        forall|j: int|
            0 <= j < u0.len() && (forall|k: int|
                0 <= k < ui + 1 ==> (#[trigger] resu[k]).0@ != u0[j].0@) ==> (#[trigger] post[j])
                == u0[j],
        util_names_distinct(resu) ==> forall|k: int|
            #![trigger resu[k]]
            ui + 1 <= k < resu.len() ==> util_key_at(post, resu[k].0@) < u0.len() || util_key_at(
                post,
                resu[k].0@,
            ) == post.len(),
        util_names_distinct(resu) ==> forall|k: int|
            #![trigger resu[k]]
            0 <= k < ui + 1 ==> ({
                let nm = resu[k].0@;
                let j = util_key_at(post, nm);
                &&& j < post.len()
                &&& post[j].1.aircraft.acc == acc_after(
                    prior_util_air(u0, nm),
                    resu[k].1.aircraft as u64,
                )
                &&& post[j].1.pilot.acc == acc_after(
                    prior_util_pilot(u0, nm),
                    resu[k].1.pilot as u64,
                )
                &&& post[j].1.so.acc == acc_after(prior_util_so(u0, nm), resu[k].1.so as u64)
            }),
{
    let nmu = resu[ui].0@;
    assert(post.len() == mid.len());
    assert forall|j: int| 0 <= j < mid.len() implies (#[trigger] post[j]).0@ == mid[j].0@ by {
        if j != idx {
            assert(post[j] == mid[j]);
        }
    }
    assert forall|j: int| 0 <= j < u0.len() implies (#[trigger] post[j]).0 == u0[j].0 by {
        if j != idx {
            assert(post[j] == mid[j]);
        }
    }
    // the key of the processed name is exactly idx, in mid and in post
    lemma_util_key_char(mid, nmu, idx);
    lemma_util_key_same_names(post, mid, nmu);
    if util_names_distinct(resu) {
        // untouched entries stay untouched
        assert forall|j: int|
            0 <= j < u0.len() && (forall|k: int|
                0 <= k < ui + 1 ==> (#[trigger] resu[k]).0@ != u0[j].0@) implies (#[trigger] post[j])
            == u0[j] by {
            assert(pre[j] == u0[j]);
            if found {
                assert(pre[idx as int].0@ == nmu);
                assert(resu[ui].0@ != u0[j].0@);
                assert(j != idx);
            }
            assert(post[j] == mid[j]);
        }
        // unprocessed names stay in the original region or absent
        assert forall|k: int|
            ui + 1 <= k < resu.len() implies util_key_at(post, #[trigger] resu[k].0@) < u0.len()
            || util_key_at(post, resu[k].0@) == post.len() by {
            let nmk = resu[k].0@;
            lemma_util_key_same_names(post, mid, nmk);
            lemma_util_key_props(pre, nmk);
            if found {
                assert(util_key_at(mid, nmk) == util_key_at(pre, nmk));
            } else {
                if util_key_at(pre, nmk) < pre.len() {
                    lemma_util_key_char(mid, nmk, util_key_at(pre, nmk));
                } else {
                    assert(nmk != nmu);
                    assert forall|j: int| 0 <= j < mid.len() implies (#[trigger] mid[j]).0@
                        != nmk by {
                        if j < pre.len() {
                            assert(mid[j] == pre[j]);
                        }
                    }
                    lemma_util_key_char(mid, nmk, mid.len() as int);
                }
            }
        }
        // every processed name's streams are exactly stepped
        assert forall|k: int| 0 <= k < ui + 1 implies ({
            let nm = (#[trigger] resu[k]).0@;
            let j = util_key_at(post, nm);
            &&& j < post.len()
            &&& post[j].1.aircraft.acc == acc_after(prior_util_air(u0, nm), resu[k].1.aircraft as u64)
            &&& post[j].1.pilot.acc == acc_after(prior_util_pilot(u0, nm), resu[k].1.pilot as u64)
            &&& post[j].1.so.acc == acc_after(prior_util_so(u0, nm), resu[k].1.so as u64)
        }) by {
            let nm = resu[k].0@;
            lemma_util_key_same_names(post, mid, nm);
            lemma_util_key_props(pre, nm);
            if k == ui {
                assert(util_key_at(post, nm) == idx);
                assert(post[idx as int].1 == put);
                if found {
                    // the prior of this name is the original entry
                    assert(util_key_at(pre, nm) < u0.len() || util_key_at(pre, nm) == pre.len());
                    assert(util_key_at(pre, nm) == idx) by {
                        lemma_util_key_char(pre, nm, idx);
                    }
                    assert(idx < u0.len());
                    assert forall|kk: int| 0 <= kk < ui implies (#[trigger] resu[kk]).0@
                        != u0[idx as int].0@ by {
                        assert(u0[idx as int].0 == pre[idx as int].0);
                    }
                    assert(pre[idx as int] == u0[idx as int]);
                    assert forall|kk: int| 0 <= kk < idx implies (#[trigger] u0[kk]).0@ != nm by {
                        assert(pre[kk].0 == u0[kk].0);
                    }
                    lemma_util_key_char(u0, nm, idx);
                    assert(taken == u0[idx as int].1);
                } else {
                    assert forall|kk: int| 0 <= kk < u0.len() implies (#[trigger] u0[kk]).0@
                        != nm by {
                        assert(pre[kk].0 == u0[kk].0);
                    }
                    lemma_util_key_char(u0, nm, u0.len() as int);
                    assert(taken.aircraft.acc == fresh_acc());
                }
            } else {
                let j = util_key_at(pre, nm);
                assert(j < pre.len());
                assert(pre[j].0@ == nm);
                assert(nm != nmu);
                if found {
                    assert(util_key_at(mid, nm) == j);
                    assert(j != idx) by {
                        assert(pre[idx as int].0@ == nmu);
                    }
                } else {
                    lemma_util_key_char(mid, nm, j);
                    assert(j != idx);
                }
                assert(post[j] == mid[j]);
                assert(mid[j] == pre[j]);
            }
        }
    }
}

/// The first-match index over type streams, characterized.
proof fn lemma_type_key_props(s: Seq<(String, TypeStreams)>, nm: Seq<char>)
    ensures
        0 <= type_key_at(s, nm) <= s.len(),
        type_key_at(s, nm) < s.len() ==> s[type_key_at(s, nm)].0@ == nm,
        forall|k: int| 0 <= k < type_key_at(s, nm) ==> (#[trigger] s[k]).0@ != nm,
{
    lemma_type_key_props_from(s, nm, 0);
}

proof fn lemma_type_key_props_from(s: Seq<(String, TypeStreams)>, nm: Seq<char>, i: int)
    requires
        0 <= i,
    ensures
        0 <= type_key_from(s, nm, i) <= s.len(),
        type_key_from(s, nm, i) < s.len() ==> s[type_key_from(s, nm, i)].0@ == nm,
        forall|k: int| i <= k < type_key_from(s, nm, i) ==> (#[trigger] s[k]).0@ != nm,
    decreases s.len() - i,
{
    if i < s.len() && s[i].0@ != nm {
        lemma_type_key_props_from(s, nm, i + 1);
    }
}

/// Sequences with the same names match keys alike.
proof fn lemma_type_key_same_names(
    s1: Seq<(String, TypeStreams)>,
    s2: Seq<(String, TypeStreams)>,
    nm: Seq<char>,
)
    requires
        s1.len() == s2.len(),
        forall|j: int| 0 <= j < s1.len() ==> (#[trigger] s1[j]).0@ == s2[j].0@,
    ensures
        type_key_at(s1, nm) == type_key_at(s2, nm),
{
    lemma_type_key_props(s1, nm);
    let j = type_key_at(s1, nm);
    assert forall|k: int| 0 <= k < j implies (#[trigger] s2[k]).0@ != nm by {
        assert(s1[k].0@ == s2[k].0@);
    }
    lemma_type_key_char(s2, nm, j);
}

/// One fold step over the type streams: the mirror of the unit-stream
/// step.
#[verifier::rlimit(50)]
proof fn lemma_type_step(
    b0: Seq<(String, TypeStreams)>,
    pre: Seq<(String, TypeStreams)>,
    mid: Seq<(String, TypeStreams)>,
    post: Seq<(String, TypeStreams)>,
    resb: Seq<(String, MissionStats)>,
    ti: int,
    idx: int,
    found: bool,
    taken: TypeStreams,
    put: TypeStreams,
)
    requires
        0 <= ti < resb.len(),
        pre.len() >= b0.len(),
        forall|j: int| 0 <= j < b0.len() ==> (#[trigger] pre[j]).0 == b0[j].0,
        forall|j: int|
            0 <= j < b0.len() && (forall|k: int|
                0 <= k < ti ==> (#[trigger] resb[k]).0@ != b0[j].0@) ==> (#[trigger] pre[j])
                == b0[j],
        type_names_distinct(resb) ==> forall|k: int|
            #![trigger resb[k]]
            ti <= k < resb.len() ==> type_key_at(pre, resb[k].0@) < b0.len() || type_key_at(
                pre,
                resb[k].0@,
            ) == pre.len(),
        type_names_distinct(resb) ==> forall|k: int|
            #![trigger resb[k]]
            0 <= k < ti ==> ({
                let nm = resb[k].0@;
                let j = type_key_at(pre, nm);
                &&& j < pre.len()
                &&& pre[j].1.requested.acc == acc_after(
                    prior_type_acc(b0, nm, 0),
                    resb[k].1.requested,
                )
                &&& pre[j].1.started.acc == acc_after(prior_type_acc(b0, nm, 1), resb[k].1.started)
                &&& pre[j].1.completed.acc == acc_after(
                    prior_type_acc(b0, nm, 2),
                    resb[k].1.completed,
                )
                &&& pre[j].1.rejected.acc == acc_after(prior_type_acc(b0, nm, 3), resb[k].1.rejected)
            }),
        found ==> 0 <= idx < pre.len() && pre[idx as int].0@ == resb[ti].0@ && (forall|k: int|
            0 <= k < idx ==> (#[trigger] pre[k]).0@ != resb[ti].0@) && mid == pre,
        !found ==> idx == pre.len() && (forall|k: int|
            0 <= k < pre.len() ==> (#[trigger] pre[k]).0@ != resb[ti].0@) && mid.len() == pre.len()
            + 1 && (forall|j: int| 0 <= j < pre.len() ==> (#[trigger] mid[j]) == pre[j])
            && mid[idx as int].0@ == resb[ti].0@ && mid[idx as int].1.requested.acc == fresh_acc()
            && mid[idx as int].1.started.acc == fresh_acc() && mid[idx as int].1.completed.acc
            == fresh_acc() && mid[idx as int].1.rejected.acc == fresh_acc(),
        taken == mid[idx as int].1,
        post == mid.update(idx, (mid[idx as int].0, put)),
        put.requested.acc == acc_after(taken.requested.acc, resb[ti].1.requested),
        put.started.acc == acc_after(taken.started.acc, resb[ti].1.started),
        put.completed.acc == acc_after(taken.completed.acc, resb[ti].1.completed),
        put.rejected.acc == acc_after(taken.rejected.acc, resb[ti].1.rejected),
    ensures
        post.len() >= b0.len(),
        forall|j: int| 0 <= j < b0.len() ==> (#[trigger] post[j]).0 == b0[j].0,
        forall|j: int|
            0 <= j < b0.len() && (forall|k: int|
                0 <= k < ti + 1 ==> (#[trigger] resb[k]).0@ != b0[j].0@) ==> (#[trigger] post[j])
                == b0[j],
        type_names_distinct(resb) ==> forall|k: int|
            #![trigger resb[k]]
            ti + 1 <= k < resb.len() ==> type_key_at(post, resb[k].0@) < b0.len() || type_key_at(
                post,
                resb[k].0@,
            ) == post.len(),
        type_names_distinct(resb) ==> forall|k: int|
            #![trigger resb[k]]
            0 <= k < ti + 1 ==> ({
                let nm = resb[k].0@;
                let j = type_key_at(post, nm);
                &&& j < post.len()
                &&& post[j].1.requested.acc == acc_after(
                    prior_type_acc(b0, nm, 0),
                    resb[k].1.requested,
                )
                &&& post[j].1.started.acc == acc_after(prior_type_acc(b0, nm, 1), resb[k].1.started)
                &&& post[j].1.completed.acc == acc_after(
                    prior_type_acc(b0, nm, 2),
                    resb[k].1.completed,
                )
                &&& post[j].1.rejected.acc == acc_after(
                    prior_type_acc(b0, nm, 3),
                    resb[k].1.rejected,
                )
            }),
{
    let nmu = resb[ti].0@;
    assert(post.len() == mid.len());
    assert forall|j: int| 0 <= j < mid.len() implies (#[trigger] post[j]).0@ == mid[j].0@ by {
        if j != idx {
            assert(post[j] == mid[j]);
        }
    }
    assert forall|j: int| 0 <= j < b0.len() implies (#[trigger] post[j]).0 == b0[j].0 by {
        if j != idx {
            assert(post[j] == mid[j]);
        }
    }
    lemma_type_key_char(mid, nmu, idx);
    lemma_type_key_same_names(post, mid, nmu);
    if type_names_distinct(resb) {
        assert forall|j: int|
            0 <= j < b0.len() && (forall|k: int|
                0 <= k < ti + 1 ==> (#[trigger] resb[k]).0@ != b0[j].0@) implies (#[trigger] post[j])
            == b0[j] by {
            assert(pre[j] == b0[j]);
            if found {
                assert(pre[idx as int].0@ == nmu);
                assert(resb[ti].0@ != b0[j].0@);
                assert(j != idx);
            }
            assert(post[j] == mid[j]);
        }
        assert forall|k: int|
            ti + 1 <= k < resb.len() implies type_key_at(post, #[trigger] resb[k].0@) < b0.len()
            || type_key_at(post, resb[k].0@) == post.len() by {
            let nmk = resb[k].0@;
            lemma_type_key_same_names(post, mid, nmk);
            lemma_type_key_props(pre, nmk);
            if found {
                assert(type_key_at(mid, nmk) == type_key_at(pre, nmk));
            } else {
                if type_key_at(pre, nmk) < pre.len() {
                    lemma_type_key_char(mid, nmk, type_key_at(pre, nmk));
                } else {
                    assert(nmk != nmu);
                    assert forall|j: int| 0 <= j < mid.len() implies (#[trigger] mid[j]).0@
                        != nmk by {
                        if j < pre.len() {
                            assert(mid[j] == pre[j]);
                        }
                    }
                    lemma_type_key_char(mid, nmk, mid.len() as int);
                }
            }
        }
        assert forall|k: int| 0 <= k < ti + 1 implies ({
            let nm = (#[trigger] resb[k]).0@;
            let j = type_key_at(post, nm);
            &&& j < post.len()
            &&& post[j].1.requested.acc == acc_after(prior_type_acc(b0, nm, 0), resb[k].1.requested)
            &&& post[j].1.started.acc == acc_after(prior_type_acc(b0, nm, 1), resb[k].1.started)
            &&& post[j].1.completed.acc == acc_after(prior_type_acc(b0, nm, 2), resb[k].1.completed)
            &&& post[j].1.rejected.acc == acc_after(prior_type_acc(b0, nm, 3), resb[k].1.rejected)
        }) by {
            let nm = resb[k].0@;
            lemma_type_key_same_names(post, mid, nm);
            lemma_type_key_props(pre, nm);
            if k == ti {
                assert(type_key_at(post, nm) == idx);
                assert(post[idx as int].1 == put);
                if found {
                    assert(type_key_at(pre, nm) < b0.len() || type_key_at(pre, nm) == pre.len());
                    assert(type_key_at(pre, nm) == idx) by {
                        lemma_type_key_char(pre, nm, idx);
                    }
                    assert(idx < b0.len());
                    assert forall|kk: int| 0 <= kk < ti implies (#[trigger] resb[kk]).0@
                        != b0[idx as int].0@ by {
                        assert(b0[idx as int].0 == pre[idx as int].0);
                    }
                    assert(pre[idx as int] == b0[idx as int]);
                    assert forall|kk: int| 0 <= kk < idx implies (#[trigger] b0[kk]).0@ != nm by {
                        assert(pre[kk].0 == b0[kk].0);
                    }
                    lemma_type_key_char(b0, nm, idx);
                    assert(taken == b0[idx as int].1);
                } else {
                    assert forall|kk: int| 0 <= kk < b0.len() implies (#[trigger] b0[kk]).0@
                        != nm by {
                        assert(pre[kk].0 == b0[kk].0);
                    }
                    lemma_type_key_char(b0, nm, b0.len() as int);
                    assert(taken.requested.acc == fresh_acc());
                }
            } else {
                let j = type_key_at(pre, nm);
                assert(j < pre.len());
                assert(pre[j].0@ == nm);
                assert(nm != nmu);
                if found {
                    assert(type_key_at(mid, nm) == j);
                    assert(j != idx) by {
                        assert(pre[idx as int].0@ == nmu);
                    }
                } else {
                    lemma_type_key_char(mid, nm, j);
                    assert(j != idx);
                }
                assert(post[j] == mid[j]);
                assert(mid[j] == pre[j]);
            }
        }
    }
}

/// One unit's utilization streams.
pub struct UtilStreams {
    pub aircraft: StreamingStatistics,
    pub pilot: StreamingStatistics,
    pub so: StreamingStatistics,
}

/// One mission type's counter streams.
pub struct TypeStreams {
    pub requested: StreamingStatistics,
    pub started: StreamingStatistics,
    pub completed: StreamingStatistics,
    pub rejected: StreamingStatistics,
}

/// The streaming fold of many iteration results.  The reservoir
/// randomness lives here, independent of any simulation's source.
pub struct StreamingAggregator {
    pub requested: StreamingStatistics,
    pub started: StreamingStatistics,
    pub completed: StreamingStatistics,
    pub rejected: StreamingStatistics,
    pub rej_aircraft: StreamingStatistics,
    pub rej_pilot: StreamingStatistics,
    pub rej_so: StreamingStatistics,
    pub rej_payload: StreamingStatistics,
    pub utilization: Vec<(String, UtilStreams)>,
    pub by_type: Vec<(String, TypeStreams)>,
    pub rng: SimRng,
}

impl StreamingAggregator {
    /// All streams well-formed; keyed streams nonempty.
    pub open spec fn wf(self) -> bool {
        &&& self.requested.wf()
        &&& self.started.wf()
        &&& self.completed.wf()
        &&& self.rejected.wf()
        &&& self.rej_aircraft.wf()
        &&& self.rej_pilot.wf()
        &&& self.rej_so.wf()
        &&& self.rej_payload.wf()
        &&& forall|i: int|
            0 <= i < self.utilization@.len() ==> (#[trigger] self.utilization@[i]).1.aircraft.wf()
                && self.utilization@[i].1.aircraft.acc.count > 0
                && self.utilization@[i].1.pilot.wf() && self.utilization@[i].1.pilot.acc.count > 0
                && self.utilization@[i].1.so.wf() && self.utilization@[i].1.so.acc.count > 0
        &&& forall|i: int|
            0 <= i < self.by_type@.len() ==> (#[trigger] self.by_type@[i]).1.requested.wf()
                && self.by_type@[i].1.requested.acc.count > 0 && self.by_type@[i].1.started.wf()
                && self.by_type@[i].1.started.acc.count > 0 && self.by_type@[i].1.completed.wf()
                && self.by_type@[i].1.completed.acc.count > 0 && self.by_type@[i].1.rejected.wf()
                && self.by_type@[i].1.rejected.acc.count > 0
    }

    /// An empty aggregator seeded for reservoir sampling.
    pub fn new() -> (r: StreamingAggregator)
        ensures
            r.wf(),
            r.requested.acc == fresh_acc(),
            r.started.acc == fresh_acc(),
            r.completed.acc == fresh_acc(),
            r.rejected.acc == fresh_acc(),
            r.rej_aircraft.acc == fresh_acc(),
            r.rej_pilot.acc == fresh_acc(),
            r.rej_so.acc == fresh_acc(),
            r.rej_payload.acc == fresh_acc(),
            r.utilization@.len() == 0,
            r.by_type@.len() == 0,
    {
        StreamingAggregator {
            requested: StreamingStatistics::new(),
            started: StreamingStatistics::new(),
            completed: StreamingStatistics::new(),
            rejected: StreamingStatistics::new(),
            rej_aircraft: StreamingStatistics::new(),
            rej_pilot: StreamingStatistics::new(),
            rej_so: StreamingStatistics::new(),
            rej_payload: StreamingStatistics::new(),
            utilization: Vec::new(),
            by_type: Vec::new(),
            rng: SimRng::from_entropy(),
        }
    }

    /// One iteration's results folded into every tracked metric.
    pub fn process_iteration(&mut self, res: &Results)
        requires
            old(self).wf(),
        ensures
            final(self).wf(),
            final(self).requested.acc == acc_after(old(self).requested.acc, res.missions.requested),
            final(self).started.acc == acc_after(old(self).started.acc, res.missions.started),
            final(self).completed.acc == acc_after(old(self).completed.acc, res.missions.completed),
            final(self).rejected.acc == acc_after(old(self).rejected.acc, res.missions.rejected),
            final(self).rej_aircraft.acc == acc_after(
                old(self).rej_aircraft.acc,
                res.rejections.aircraft,
            ),
            final(self).rej_pilot.acc == acc_after(old(self).rej_pilot.acc, res.rejections.pilot),
            final(self).rej_so.acc == acc_after(old(self).rej_so.acc, res.rejections.so),
            final(self).rej_payload.acc == acc_after(
                old(self).rej_payload.acc,
                res.rejections.payload,
            ),
            final(self).requested.acc.count > 0,
            final(self).started.acc.count > 0,
            final(self).completed.acc.count > 0,
            final(self).rejected.acc.count > 0,
            final(self).rej_aircraft.acc.count > 0,
            final(self).rej_pilot.acc.count > 0,
            final(self).rej_so.acc.count > 0,
            final(self).rej_payload.acc.count > 0,
            final(self).utilization@.len() >= old(self).utilization@.len(),
            forall|j: int|
                0 <= j < old(self).utilization@.len() ==> (#[trigger] final(self).utilization@[j]).0 == old(self).utilization@[j].0,
            forall|j: int|
                0 <= j < old(self).utilization@.len() && (forall|k: int|
                    0 <= k < res.utilization@.len() ==> (#[trigger] res.utilization@[k]).0@ != old(self).utilization@[j].0@) ==> (#[trigger] final(self).utilization@[j]) == old(self).utilization@[j],
            util_names_distinct(res.utilization@) ==> forall|k: int|
                #![trigger res.utilization@[k]]
                0 <= k < res.utilization@.len() ==> ({
                    let nm = res.utilization@[k].0@;
                    let j = util_key_at(final(self).utilization@, nm);
                    &&& j < final(self).utilization@.len()
                    &&& final(self).utilization@[j].1.aircraft.acc == acc_after(
                        prior_util_air(old(self).utilization@, nm),
                        res.utilization@[k].1.aircraft as u64,
                    )
                    &&& final(self).utilization@[j].1.pilot.acc == acc_after(
                        prior_util_pilot(old(self).utilization@, nm),
                        res.utilization@[k].1.pilot as u64,
                    )
                    &&& final(self).utilization@[j].1.so.acc == acc_after(
                        prior_util_so(old(self).utilization@, nm),
                        res.utilization@[k].1.so as u64,
                    )
                }),
            final(self).by_type@.len() >= old(self).by_type@.len(),
            forall|j: int|
                0 <= j < old(self).by_type@.len() ==> (#[trigger] final(self).by_type@[j]).0 == old(self).by_type@[j].0,
            forall|j: int|
                0 <= j < old(self).by_type@.len() && (forall|k: int|
                    0 <= k < res.by_type@.len() ==> (#[trigger] res.by_type@[k]).0@ != old(self).by_type@[j].0@) ==> (#[trigger] final(self).by_type@[j]) == old(self).by_type@[j],
            type_names_distinct(res.by_type@) ==> forall|k: int|
                #![trigger res.by_type@[k]]
                0 <= k < res.by_type@.len() ==> ({
                    let nm = res.by_type@[k].0@;
                    let j = type_key_at(final(self).by_type@, nm);
                    &&& j < final(self).by_type@.len()
                    &&& final(self).by_type@[j].1.requested.acc == acc_after(
                        prior_type_acc(old(self).by_type@, nm, 0),
                        res.by_type@[k].1.requested,
                    )
                    &&& final(self).by_type@[j].1.started.acc == acc_after(
                        prior_type_acc(old(self).by_type@, nm, 1),
                        res.by_type@[k].1.started,
                    )
                    &&& final(self).by_type@[j].1.completed.acc == acc_after(
                        prior_type_acc(old(self).by_type@, nm, 2),
                        res.by_type@[k].1.completed,
                    )
                    &&& final(self).by_type@[j].1.rejected.acc == acc_after(
                        prior_type_acc(old(self).by_type@, nm, 3),
                        res.by_type@[k].1.rejected,
                    )
                }),
    {
        self.requested.update(res.missions.requested, &mut self.rng);
        self.started.update(res.missions.started, &mut self.rng);
        self.completed.update(res.missions.completed, &mut self.rng);
        self.rejected.update(res.missions.rejected, &mut self.rng);
        self.rej_aircraft.update(res.rejections.aircraft, &mut self.rng);
        self.rej_pilot.update(res.rejections.pilot, &mut self.rng);
        self.rej_so.update(res.rejections.so, &mut self.rng);
        self.rej_payload.update(res.rejections.payload, &mut self.rng);

        let ghost u0 = self.utilization@;
        let ghost b0 = self.by_type@;
        proof {
            assert(u0 == old(self).utilization@);
            assert(b0 == old(self).by_type@);
        }
        proof {
            assert forall|k: int|
                0 <= k < res.utilization@.len() implies util_key_at(
                self.utilization@,
                (#[trigger] res.utilization@[k]).0@,
            ) < u0.len() || util_key_at(self.utilization@, res.utilization@[k].0@)
                == self.utilization@.len() by {
                lemma_util_key_props(u0, res.utilization@[k].0@);
            }
            assert forall|k: int|
                0 <= k < res.by_type@.len() implies type_key_at(
                self.by_type@,
                (#[trigger] res.by_type@[k]).0@,
            ) < b0.len() || type_key_at(self.by_type@, res.by_type@[k].0@)
                == self.by_type@.len() by {
                lemma_type_key_props(b0, res.by_type@[k].0@);
            }
        }
        let nun = res.utilization.len();
        let mut ui: usize = 0;
        while ui < nun
            invariant
                ui <= nun,
                nun == res.utilization@.len(),
                self.requested.wf(),
                self.started.wf(),
                self.completed.wf(),
                self.rejected.wf(),
                self.rej_aircraft.wf(),
                self.rej_pilot.wf(),
                self.rej_so.wf(),
                self.rej_payload.wf(),
                self.requested.acc == acc_after(old(self).requested.acc, res.missions.requested),
                self.started.acc == acc_after(old(self).started.acc, res.missions.started),
                self.completed.acc == acc_after(old(self).completed.acc, res.missions.completed),
                self.rejected.acc == acc_after(old(self).rejected.acc, res.missions.rejected),
                self.rej_aircraft.acc == acc_after(
                    old(self).rej_aircraft.acc,
                    res.rejections.aircraft,
                ),
                self.rej_pilot.acc == acc_after(old(self).rej_pilot.acc, res.rejections.pilot),
                self.rej_so.acc == acc_after(old(self).rej_so.acc, res.rejections.so),
                self.rej_payload.acc == acc_after(old(self).rej_payload.acc, res.rejections.payload),
                self.by_type@ == b0,
                u0 == old(self).utilization@,
                self.utilization@.len() >= u0.len(),
                forall|j: int|
                    0 <= j < u0.len() ==> (#[trigger] self.utilization@[j]).0 == u0[j].0,
                forall|j: int|
                    0 <= j < u0.len() && (forall|k: int|
                        0 <= k < ui ==> (#[trigger] res.utilization@[k]).0@ != u0[j].0@) ==> (
                    #[trigger] self.utilization@[j]) == u0[j],
                forall|i: int|
                    0 <= i < self.utilization@.len() ==> (#[trigger] self.utilization@[i]).1.aircraft.wf()
                        && self.utilization@[i].1.aircraft.acc.count > 0
                        && self.utilization@[i].1.pilot.wf() && self.utilization@[i].1.pilot.acc.count
                        > 0 && self.utilization@[i].1.so.wf()
                        && self.utilization@[i].1.so.acc.count > 0,
                util_names_distinct(res.utilization@) ==> forall|k: int|
                    #![trigger res.utilization@[k]]
                    ui <= k < res.utilization@.len() ==> util_key_at(
                        self.utilization@,
                        res.utilization@[k].0@,
                    ) < u0.len() || util_key_at(self.utilization@, res.utilization@[k].0@)
                        == self.utilization@.len(),
                util_names_distinct(res.utilization@) ==> forall|k: int|
                    #![trigger res.utilization@[k]]
                    0 <= k < ui ==> ({
                        let nm = res.utilization@[k].0@;
                        let j = util_key_at(self.utilization@, nm);
                        &&& j < self.utilization@.len()
                        &&& self.utilization@[j].1.aircraft.acc == acc_after(
                            prior_util_air(u0, nm),
                            res.utilization@[k].1.aircraft as u64,
                        )
                        &&& self.utilization@[j].1.pilot.acc == acc_after(
                            prior_util_pilot(u0, nm),
                            res.utilization@[k].1.pilot as u64,
                        )
                        &&& self.utilization@[j].1.so.acc == acc_after(
                            prior_util_so(u0, nm),
                            res.utilization@[k].1.so as u64,
                        )
                    }),
            decreases nun - ui,
        {
            let entry = &res.utilization[ui];
            let ghost pre = self.utilization@;
            let found = find_by_name_util(&self.utilization, &entry.0);
            let idx: usize = match found {
                Option::Some(j) => j,
                Option::None => {
                    let j = self.utilization.len();
                    self.utilization.push(
                        (
                            entry.0.clone(),
                            UtilStreams {
                                aircraft: StreamingStatistics::new(),
                                pilot: StreamingStatistics::new(),
                                so: StreamingStatistics::new(),
                            },
                        ),
                    );
                    j
                },
            };
            let ghost mid = self.utilization@;
            let mut slot = (
                String::new(),
                UtilStreams {
                    aircraft: StreamingStatistics::new(),
                    pilot: StreamingStatistics::new(),
                    so: StreamingStatistics::new(),
                },
            );
            self.utilization.set_and_swap(idx, &mut slot);
            let ghost taken = slot;
            let mut st = slot.1;
            st.aircraft.update(entry.1.aircraft as u64, &mut self.rng);
            st.pilot.update(entry.1.pilot as u64, &mut self.rng);
            st.so.update(entry.1.so as u64, &mut self.rng);
            let mut slot2 = (slot.0, st);
            self.utilization.set_and_swap(idx, &mut slot2);
            proof {
                assert(self.utilization@ =~= mid.update(idx as int, (mid[idx as int].0, st)));
                if found is None {
                    assert(mid.len() == pre.len() + 1);
                    assert forall|j: int| 0 <= j < pre.len() implies (#[trigger] mid[j])
                        == pre[j] by {}
                    assert(mid[idx as int].0@ == res.utilization@[ui as int].0@);
                    assert(mid[idx as int].1.aircraft.acc == fresh_acc());
                }
                lemma_util_step(
                    u0,
                    pre,
                    mid,
                    self.utilization@,
                    res.utilization@,
                    ui as int,
                    idx as int,
                    found is Some,
                    taken.1,
                    st,
                );
            }
            ui = ui + 1;
        }

        let ghost u_done = self.utilization@;
        let nty = res.by_type.len();
        let mut ti: usize = 0;
        while ti < nty
            invariant
                ti <= nty,
                nty == res.by_type@.len(),
                self.requested.wf(),
                self.started.wf(),
                self.completed.wf(),
                self.rejected.wf(),
                self.rej_aircraft.wf(),
                self.rej_pilot.wf(),
                self.rej_so.wf(),
                self.rej_payload.wf(),
                self.requested.acc == acc_after(old(self).requested.acc, res.missions.requested),
                self.started.acc == acc_after(old(self).started.acc, res.missions.started),
                self.completed.acc == acc_after(old(self).completed.acc, res.missions.completed),
                self.rejected.acc == acc_after(old(self).rejected.acc, res.missions.rejected),
                self.rej_aircraft.acc == acc_after(
                    old(self).rej_aircraft.acc,
                    res.rejections.aircraft,
                ),
                self.rej_pilot.acc == acc_after(old(self).rej_pilot.acc, res.rejections.pilot),
                self.rej_so.acc == acc_after(old(self).rej_so.acc, res.rejections.so),
                self.rej_payload.acc == acc_after(old(self).rej_payload.acc, res.rejections.payload),
                self.utilization@ == u_done,
                u0 == old(self).utilization@,
                b0 == old(self).by_type@,
                self.utilization@.len() >= u0.len(),
                forall|j: int|
                    0 <= j < u0.len() ==> (#[trigger] self.utilization@[j]).0 == u0[j].0,
                forall|j: int|
                    0 <= j < u0.len() && (forall|k: int|
                        0 <= k < res.utilization@.len() ==> (#[trigger] res.utilization@[k]).0@
                            != u0[j].0@) ==> (#[trigger] self.utilization@[j]) == u0[j],
                util_names_distinct(res.utilization@) ==> forall|k: int|
                    #![trigger res.utilization@[k]]
                    0 <= k < res.utilization@.len() ==> ({
                        let nm = res.utilization@[k].0@;
                        let j = util_key_at(self.utilization@, nm);
                        &&& j < self.utilization@.len()
                        &&& self.utilization@[j].1.aircraft.acc == acc_after(
                            prior_util_air(u0, nm),
                            res.utilization@[k].1.aircraft as u64,
                        )
                        &&& self.utilization@[j].1.pilot.acc == acc_after(
                            prior_util_pilot(u0, nm),
                            res.utilization@[k].1.pilot as u64,
                        )
                        &&& self.utilization@[j].1.so.acc == acc_after(
                            prior_util_so(u0, nm),
                            res.utilization@[k].1.so as u64,
                        )
                    }),
                self.by_type@.len() >= b0.len(),
                forall|j: int| 0 <= j < b0.len() ==> (#[trigger] self.by_type@[j]).0 == b0[j].0,
                forall|j: int|
                    0 <= j < b0.len() && (forall|k: int|
                        0 <= k < ti ==> (#[trigger] res.by_type@[k]).0@ != b0[j].0@) ==> (
                    #[trigger] self.by_type@[j]) == b0[j],
                forall|i: int|
                    0 <= i < self.by_type@.len() ==> (#[trigger] self.by_type@[i]).1.requested.wf()
                        && self.by_type@[i].1.requested.acc.count > 0
                        && self.by_type@[i].1.started.wf() && self.by_type@[i].1.started.acc.count
                        > 0 && self.by_type@[i].1.completed.wf()
                        && self.by_type@[i].1.completed.acc.count > 0
                        && self.by_type@[i].1.rejected.wf() && self.by_type@[i].1.rejected.acc.count
                        > 0,
                forall|i: int|
                    0 <= i < self.utilization@.len() ==> (#[trigger] self.utilization@[i]).1.aircraft.wf()
                        && self.utilization@[i].1.aircraft.acc.count > 0
                        && self.utilization@[i].1.pilot.wf() && self.utilization@[i].1.pilot.acc.count
                        > 0 && self.utilization@[i].1.so.wf()
                        && self.utilization@[i].1.so.acc.count > 0,
                type_names_distinct(res.by_type@) ==> forall|k: int|
                    #![trigger res.by_type@[k]]
                    ti <= k < res.by_type@.len() ==> type_key_at(
                        self.by_type@,
                        res.by_type@[k].0@,
                    ) < b0.len() || type_key_at(self.by_type@, res.by_type@[k].0@)
                        == self.by_type@.len(),
                type_names_distinct(res.by_type@) ==> forall|k: int|
                    #![trigger res.by_type@[k]]
                    0 <= k < ti ==> ({
                        let nm = res.by_type@[k].0@;
                        let j = type_key_at(self.by_type@, nm);
                        &&& j < self.by_type@.len()
                        &&& self.by_type@[j].1.requested.acc == acc_after(
                            prior_type_acc(b0, nm, 0),
                            res.by_type@[k].1.requested,
                        )
                        &&& self.by_type@[j].1.started.acc == acc_after(
                            prior_type_acc(b0, nm, 1),
                            res.by_type@[k].1.started,
                        )
                        &&& self.by_type@[j].1.completed.acc == acc_after(
                            prior_type_acc(b0, nm, 2),
                            res.by_type@[k].1.completed,
                        )
                        &&& self.by_type@[j].1.rejected.acc == acc_after(
                            prior_type_acc(b0, nm, 3),
                            res.by_type@[k].1.rejected,
                        )
                    }),
            decreases nty - ti,
        {
            let entry = &res.by_type[ti];
            let ghost pre = self.by_type@;
            let found = find_by_name_type(&self.by_type, &entry.0);
            let idx: usize = match found {
                Option::Some(j) => j,
                Option::None => {
                    let j = self.by_type.len();
                    self.by_type.push(
                        (
                            entry.0.clone(),
                            TypeStreams {
                                requested: StreamingStatistics::new(),
                                started: StreamingStatistics::new(),
                                completed: StreamingStatistics::new(),
                                rejected: StreamingStatistics::new(),
                            },
                        ),
                    );
                    j
                },
            };
            let ghost mid = self.by_type@;
            let mut slot = (
                String::new(),
                TypeStreams {
                    requested: StreamingStatistics::new(),
                    started: StreamingStatistics::new(),
                    completed: StreamingStatistics::new(),
                    rejected: StreamingStatistics::new(),
                },
            );
            self.by_type.set_and_swap(idx, &mut slot);
            let ghost taken = slot;
            let mut st = slot.1;
            st.requested.update(entry.1.requested, &mut self.rng);
            st.started.update(entry.1.started, &mut self.rng);
            st.completed.update(entry.1.completed, &mut self.rng);
            st.rejected.update(entry.1.rejected, &mut self.rng);
            let mut slot2 = (slot.0, st);
            self.by_type.set_and_swap(idx, &mut slot2);
            proof {
                assert(self.by_type@ =~= mid.update(idx as int, (mid[idx as int].0, st)));
                if found is None {
                    assert(mid.len() == pre.len() + 1);
                    assert forall|j: int| 0 <= j < pre.len() implies (#[trigger] mid[j])
                        == pre[j] by {}
                    assert(mid[idx as int].0@ == res.by_type@[ti as int].0@);
                    assert(mid[idx as int].1.requested.acc == fresh_acc());
                }
                lemma_type_step(
                    b0,
                    pre,
                    mid,
                    self.by_type@,
                    res.by_type@,
                    ti as int,
                    idx as int,
                    found is Some,
                    taken.1,
                    st,
                );
            }
            ti = ti + 1;
        }
    }

    /// The final aggregates of everything folded so far.
    pub fn finalize(&self) -> (r: (MissionAggregates, RejectionAggregates, Vec<(String, UtilizationAggregates)>, Vec<(String, MissionAggregates)>))
        requires
            self.wf(),
            self.requested.acc.count > 0,
            self.started.acc.count > 0,
            self.completed.acc.count > 0,
            self.rejected.acc.count > 0,
            self.rej_aircraft.acc.count > 0,
            self.rej_pilot.acc.count > 0,
            self.rej_so.acc.count > 0,
            self.rej_payload.acc.count > 0,
        ensures
            r.0.requested == aggregate_of(self.requested),
            r.0.started == aggregate_of(self.started),
            r.0.completed == aggregate_of(self.completed),
            r.0.rejected == aggregate_of(self.rejected),
            r.1.aircraft == aggregate_of(self.rej_aircraft),
            r.1.pilot == aggregate_of(self.rej_pilot),
            r.1.so == aggregate_of(self.rej_so),
            r.1.payload == aggregate_of(self.rej_payload),
            r.2@.len() == self.utilization@.len(),
            forall|i: int|
                0 <= i < r.2@.len() ==> (#[trigger] r.2@[i]).0@ == self.utilization@[i].0@
                    && r.2@[i].1.aircraft == aggregate_of(self.utilization@[i].1.aircraft)
                    && r.2@[i].1.pilot == aggregate_of(self.utilization@[i].1.pilot)
                    && r.2@[i].1.so == aggregate_of(self.utilization@[i].1.so),
            r.3@.len() == self.by_type@.len(),
            forall|i: int|
                0 <= i < r.3@.len() ==> (#[trigger] r.3@[i]).0@ == self.by_type@[i].0@
                    && r.3@[i].1.requested == aggregate_of(self.by_type@[i].1.requested)
                    && r.3@[i].1.started == aggregate_of(self.by_type@[i].1.started)
                    && r.3@[i].1.completed == aggregate_of(self.by_type@[i].1.completed)
                    && r.3@[i].1.rejected == aggregate_of(self.by_type@[i].1.rejected),
            percentiles_ordered(r.0.requested),
            percentiles_ordered(r.0.started),
            percentiles_ordered(r.0.completed),
            percentiles_ordered(r.0.rejected),
            percentiles_ordered(r.1.aircraft),
            percentiles_ordered(r.1.pilot),
            percentiles_ordered(r.1.so),
            percentiles_ordered(r.1.payload),
            forall|i: int|
                0 <= i < r.2@.len() ==> percentiles_ordered((#[trigger] r.2@[i]).1.aircraft)
                    && percentiles_ordered(r.2@[i].1.pilot) && percentiles_ordered(r.2@[i].1.so),
            forall|i: int|
                0 <= i < r.3@.len() ==> percentiles_ordered((#[trigger] r.3@[i]).1.requested)
                    && percentiles_ordered(r.3@[i].1.started) && percentiles_ordered(
                    r.3@[i].1.completed,
                ) && percentiles_ordered(r.3@[i].1.rejected),
    {
        let missions = MissionAggregates {
            requested: finalize_stream(&self.requested),
            started: finalize_stream(&self.started),
            completed: finalize_stream(&self.completed),
            rejected: finalize_stream(&self.rejected),
        };
        let rejections = RejectionAggregates {
            aircraft: finalize_stream(&self.rej_aircraft),
            pilot: finalize_stream(&self.rej_pilot),
            so: finalize_stream(&self.rej_so),
            payload: finalize_stream(&self.rej_payload),
        };
        let mut util_out: Vec<(String, UtilizationAggregates)> = Vec::new();
        let nun = self.utilization.len();
        let mut ui: usize = 0;
        while ui < nun
            invariant
                ui <= nun,
                nun == self.utilization@.len(),
                self.wf(),
                util_out@.len() == ui,
                forall|i: int|
                    0 <= i < util_out@.len() ==> (#[trigger] util_out@[i]).0@
                        == self.utilization@[i].0@ && util_out@[i].1.aircraft == aggregate_of(
                        self.utilization@[i].1.aircraft,
                    ) && util_out@[i].1.pilot == aggregate_of(self.utilization@[i].1.pilot)
                        && util_out@[i].1.so == aggregate_of(self.utilization@[i].1.so),
                forall|i: int|
                    0 <= i < util_out@.len() ==> percentiles_ordered(
                        (#[trigger] util_out@[i]).1.aircraft,
                    ) && percentiles_ordered(util_out@[i].1.pilot) && percentiles_ordered(
                        util_out@[i].1.so,
                    ),
            decreases nun - ui,
        {
            let entry = &self.utilization[ui];
            util_out.push(
                (
                    entry.0.clone(),
                    UtilizationAggregates {
                        aircraft: finalize_stream(&entry.1.aircraft),
                        pilot: finalize_stream(&entry.1.pilot),
                        so: finalize_stream(&entry.1.so),
                    },
                ),
            );
            ui = ui + 1;
        }
        let mut type_out: Vec<(String, MissionAggregates)> = Vec::new();
        let nty = self.by_type.len();
        let mut ti: usize = 0;
        while ti < nty
            invariant
                ti <= nty,
                nty == self.by_type@.len(),
                self.wf(),
                type_out@.len() == ti,
                forall|i: int|
                    0 <= i < type_out@.len() ==> (#[trigger] type_out@[i]).0@
                        == self.by_type@[i].0@ && type_out@[i].1.requested == aggregate_of(
                        self.by_type@[i].1.requested,
                    ) && type_out@[i].1.started == aggregate_of(self.by_type@[i].1.started)
                        && type_out@[i].1.completed == aggregate_of(self.by_type@[i].1.completed)
                        && type_out@[i].1.rejected == aggregate_of(self.by_type@[i].1.rejected),
                forall|i: int|
                    0 <= i < type_out@.len() ==> percentiles_ordered(
                        (#[trigger] type_out@[i]).1.requested,
                    ) && percentiles_ordered(type_out@[i].1.started) && percentiles_ordered(
                        type_out@[i].1.completed,
                    ) && percentiles_ordered(type_out@[i].1.rejected),
            decreases nty - ti,
        {
            let entry = &self.by_type[ti];
            type_out.push(
                (
                    entry.0.clone(),
                    MissionAggregates {
                        requested: finalize_stream(&entry.1.requested),
                        started: finalize_stream(&entry.1.started),
                        completed: finalize_stream(&entry.1.completed),
                        rejected: finalize_stream(&entry.1.rejected),
                    },
                ),
            );
            ti = ti + 1;
        }
        (missions, rejections, util_out, type_out)
    }
}

/// A nonempty stream's aggregate.
fn finalize_stream(s: &StreamingStatistics) -> (r: AggregatedStatistics)
    requires
        s.wf(),
        s.acc.count > 0,
    ensures
        r == aggregate_of(*s),
        percentiles_ordered(r),
        r.min == s.acc.min,
        r.max == s.acc.max,
{
    match s.finalize() {
        Option::Some(a) => a,
        Option::None => {
            proof {
                assert(false);
            }
            AggregatedStatistics {
                mean_centi: 0,
                p10: 0,
                p25: 0,
                p50: 0,
                p75: 0,
                p90: 0,
                p95: 0,
                p99: 0,
                min: 0,
                max: 0,
                stddev_centi: 0,
            }
        },
    }
}

/// The first unit entry with a name.
fn find_by_name_util(v: &Vec<(String, UtilStreams)>, name: &String) -> (res: Option<usize>)
    ensures
        match res {
            Option::Some(i) => i < v@.len() && v@[i as int].0@ == name@ && (forall|k: int|
                0 <= k < i ==> (#[trigger] v@[k]).0@ != name@),
            Option::None => forall|k: int| 0 <= k < v@.len() ==> (#[trigger] v@[k]).0@ != name@,
        },
{
    let n = v.len();
    let mut i: usize = 0;
    while i < n
        invariant
            i <= n,
            n == v@.len(),
            forall|k: int| 0 <= k < i ==> (#[trigger] v@[k]).0@ != name@,
        decreases n - i,
    {
        if v[i].0 == *name {
            return Option::Some(i);
        }
        i = i + 1;
    }
    Option::None
}

/// The first type entry with a name.
fn find_by_name_type(v: &Vec<(String, TypeStreams)>, name: &String) -> (res: Option<usize>)
    ensures
        match res {
            Option::Some(i) => i < v@.len() && v@[i as int].0@ == name@ && (forall|k: int|
                0 <= k < i ==> (#[trigger] v@[k]).0@ != name@),
            Option::None => forall|k: int| 0 <= k < v@.len() ==> (#[trigger] v@[k]).0@ != name@,
        },
{
    let n = v.len();
    let mut i: usize = 0;
    while i < n
        invariant
            i <= n,
            n == v@.len(),
            forall|k: int| 0 <= k < i ==> (#[trigger] v@[k]).0@ != name@,
        decreases n - i,
    {
        if v[i].0 == *name {
            return Option::Some(i);
        }
        i = i + 1;
    }
    Option::None
}

/// The accumulator over the requested counters of the first `n` runs.
pub open spec fn fold_requested(rs: Seq<Results>, n: int) -> StatsAccumulator
    decreases n,
{
    if n <= 0 {
        fresh_acc()
    } else {
        acc_after(fold_requested(rs, n - 1), rs[n - 1].missions.requested)
    }
}

/// The accumulator over the started counters of the first `n` runs.
pub open spec fn fold_started(rs: Seq<Results>, n: int) -> StatsAccumulator
    decreases n,
{
    if n <= 0 {
        fresh_acc()
    } else {
        acc_after(fold_started(rs, n - 1), rs[n - 1].missions.started)
    }
}

/// The accumulator over the completed counters of the first `n` runs.
pub open spec fn fold_completed(rs: Seq<Results>, n: int) -> StatsAccumulator
    decreases n,
{
    if n <= 0 {
        fresh_acc()
    } else {
        acc_after(fold_completed(rs, n - 1), rs[n - 1].missions.completed)
    }
}

/// The accumulator over the rejected counters of the first `n` runs.
pub open spec fn fold_rejected(rs: Seq<Results>, n: int) -> StatsAccumulator
    decreases n,
{
    if n <= 0 {
        fresh_acc()
    } else {
        acc_after(fold_rejected(rs, n - 1), rs[n - 1].missions.rejected)
    }
}

/// The accumulator over one rejection reason of the first `n` runs:
/// aircraft, pilot, sensor operator, or payload by `which`.
pub open spec fn fold_reason(rs: Seq<Results>, n: int, which: int) -> StatsAccumulator
    decreases n,
{
    if n <= 0 {
        fresh_acc()
    } else {
        acc_after(
            fold_reason(rs, n - 1, which),
            if which == 0 {
                rs[n - 1].rejections.aircraft
            } else if which == 1 {
                rs[n - 1].rejections.pilot
            } else if which == 2 {
                rs[n - 1].rejections.so
            } else {
                rs[n - 1].rejections.payload
            },
        )
    }
}

/// An aggregate that reads out exactly the given accumulator.
pub open spec fn matches_acc(a: AggregatedStatistics, acc: StatsAccumulator) -> bool {
    &&& a.min == acc.min
    &&& a.max == acc.max
    &&& a.mean_centi == crate::stats::mean_centi_of(acc)
    &&& a.stddev_centi == crate::stats::stddev_centi_of(acc)
}

/// A batch of run results folded and aggregated in one call: none for
/// an empty batch, else ordered percentile records throughout.  This is
/// the entry point for callers that gathered results elsewhere, such as
/// a worker pool.
pub fn aggregate_results(results: &Vec<Results>) -> (r: Option<
    (MissionAggregates, RejectionAggregates, Vec<(String, UtilizationAggregates)>, Vec<(String, MissionAggregates)>),
>)
    ensures
        r is Some <==> results@.len() > 0,
        r matches Option::Some(a) ==> {
            &&& matches_acc(a.0.requested, fold_requested(results@, results@.len() as int))
            &&& matches_acc(a.0.started, fold_started(results@, results@.len() as int))
            &&& matches_acc(a.0.completed, fold_completed(results@, results@.len() as int))
            &&& matches_acc(a.0.rejected, fold_rejected(results@, results@.len() as int))
            &&& matches_acc(a.1.aircraft, fold_reason(results@, results@.len() as int, 0))
            &&& matches_acc(a.1.pilot, fold_reason(results@, results@.len() as int, 1))
            &&& matches_acc(a.1.so, fold_reason(results@, results@.len() as int, 2))
            &&& matches_acc(a.1.payload, fold_reason(results@, results@.len() as int, 3))
            &&& percentiles_ordered(a.0.requested)
            &&& percentiles_ordered(a.0.started)
            &&& percentiles_ordered(a.0.completed)
            &&& percentiles_ordered(a.0.rejected)
            &&& percentiles_ordered(a.1.aircraft)
            &&& percentiles_ordered(a.1.pilot)
            &&& percentiles_ordered(a.1.so)
            &&& percentiles_ordered(a.1.payload)
        },
{
    let n = results.len();
    if n == 0 {
        return Option::None;
    }
    let mut agg = StreamingAggregator::new();
    let mut i: usize = 0;
    while i < n
        invariant
            i <= n,
            n == results@.len(),
            agg.wf(),
            agg.requested.acc == fold_requested(results@, i as int),
            agg.started.acc == fold_started(results@, i as int),
            agg.completed.acc == fold_completed(results@, i as int),
            agg.rejected.acc == fold_rejected(results@, i as int),
            agg.rej_aircraft.acc == fold_reason(results@, i as int, 0),
            agg.rej_pilot.acc == fold_reason(results@, i as int, 1),
            agg.rej_so.acc == fold_reason(results@, i as int, 2),
            agg.rej_payload.acc == fold_reason(results@, i as int, 3),
            i > 0 ==> agg.requested.acc.count > 0 && agg.started.acc.count > 0
                && agg.completed.acc.count > 0 && agg.rejected.acc.count > 0
                && agg.rej_aircraft.acc.count > 0 && agg.rej_pilot.acc.count > 0
                && agg.rej_so.acc.count > 0 && agg.rej_payload.acc.count > 0,
        decreases n - i,
    {
        agg.process_iteration(&results[i]);
        i = i + 1;
    }
    Option::Some(agg.finalize())
}

/// An aggregate collapsed onto one point: extremes and every
/// percentile at the value; for representable values the mean is one
/// hundred times it and the deviation vanishes.
pub open spec fn point_aggregate(a: AggregatedStatistics, v: int) -> bool {
    &&& a.min == v
    &&& a.max == v
    &&& a.p10 == v
    &&& a.p25 == v
    &&& a.p50 == v
    &&& a.p75 == v
    &&& a.p90 == v
    &&& a.p95 == v
    &&& a.p99 == v
    &&& v <= u32::MAX ==> a.mean_centi == 100 * v && a.stddev_centi == 0
}

/// The five result folds read only the first `n` runs.
proof fn lemma_folds_prefix(rs1: Seq<Results>, rs2: Seq<Results>, n: int)
    requires
        n <= rs1.len(),
        n <= rs2.len(),
        forall|k: int| 0 <= k < n ==> rs1[k] == rs2[k],
    ensures
        fold_requested(rs1, n) == fold_requested(rs2, n),
        fold_started(rs1, n) == fold_started(rs2, n),
        fold_completed(rs1, n) == fold_completed(rs2, n),
        fold_rejected(rs1, n) == fold_rejected(rs2, n),
        forall|w: int| 0 <= w < 4 ==> fold_reason(rs1, n, w) == fold_reason(rs2, n, w),
    decreases n,
{
    if n > 0 {
        lemma_folds_prefix(rs1, rs2, n - 1);
        assert forall|w: int| 0 <= w < 4 implies fold_reason(rs1, n, w) == fold_reason(
            rs2,
            n,
            w,
        ) by {
            assert(fold_reason(rs1, n - 1, w) == fold_reason(rs2, n - 1, w));
        }
    }
}

/// An exact copy of an inventory, field by field, so its mathematical
/// view is the same.
fn clone_initial(r: &InitialResources) -> (c: InitialResources)
    ensures
        c@ == r@,
{
    let n = r.units.len();
    let mut units: Vec<String> = Vec::new();
    let mut aircraft: Vec<u32> = Vec::new();
    let mut crew: Vec<crate::types::CrewCounts> = Vec::new();
    let mut i: usize = 0;
    while i < n
        invariant
            i <= n,
            n == r.units@.len(),
            units@.len() == i,
            forall|k: int| 0 <= k < i ==> (#[trigger] units@[k]) == r.units@[k],
        decreases n - i,
    {
        units.push(r.units[i].clone());
        i = i + 1;
    }
    let na = r.aircraft_by_unit.len();
    let mut i: usize = 0;
    while i < na
        invariant
            i <= na,
            na == r.aircraft_by_unit@.len(),
            aircraft@.len() == i,
            forall|k: int| 0 <= k < i ==> (#[trigger] aircraft@[k]) == r.aircraft_by_unit@[k],
        decreases na - i,
    {
        aircraft.push(r.aircraft_by_unit[i]);
        i = i + 1;
    }
    let nc = r.crew_by_unit.len();
    let mut i: usize = 0;
    while i < nc
        invariant
            i <= nc,
            nc == r.crew_by_unit@.len(),
            crew@.len() == i,
            forall|k: int| 0 <= k < i ==> (#[trigger] crew@[k]) == r.crew_by_unit@[k],
        decreases nc - i,
    {
        crew.push(r.crew_by_unit[i]);
        i = i + 1;
    }
    let np = r.payload_by_unit.len();
    let mut payload: Vec<Vec<(String, u32)>> = Vec::new();
    let mut i: usize = 0;
    while i < np
        invariant
            i <= np,
            np == r.payload_by_unit@.len(),
            payload@.len() == i,
            forall|k: int|
                0 <= k < i ==> crate::state::payload_view(#[trigger] payload@[k]@)
                    == crate::state::payload_view(r.payload_by_unit@[k]@),
        decreases np - i,
    {
        let inner = &r.payload_by_unit[i];
        let m = inner.len();
        let mut pv: Vec<(String, u32)> = Vec::new();
        let mut j: usize = 0;
        while j < m
            invariant
                j <= m,
                m == inner@.len(),
                pv@.len() == j,
                forall|k: int|
                    0 <= k < j ==> (#[trigger] pv@[k]).0@ == inner@[k].0@ && pv@[k].1
                        == inner@[k].1,
            decreases m - j,
        {
            pv.push((inner[j].0.clone(), inner[j].1));
            j = j + 1;
        }
        proof {
            assert(crate::state::payload_view(pv@) =~= crate::state::payload_view(inner@));
        }
        payload.push(pv);
        i = i + 1;
    }
    let c = InitialResources {
        units,
        aircraft_by_unit: aircraft,
        crew_by_unit: crew,
        payload_by_unit: payload,
        overrides_applied: r.overrides_applied,
    };
    proof {
        assert(c@.units =~= r@.units);
        assert(c@.aircraft =~= r@.aircraft);
        assert(c@.crew =~= r@.crew);
        assert(c@.payload =~~= r@.payload);
        assert(c@ == r@);
    }
    c
}

/// An aggregate read from a constant stream's accumulator collapses
/// onto the point.
proof fn lemma_point_from_repeat(a: AggregatedStatistics, st: StreamingStatistics, v: u64, n: int)
    requires
        1 <= n <= 0xFFFF_FFFF,
        st.acc == crate::stats::acc_repeat(v, n),
        a == aggregate_of(st),
        percentiles_ordered(a),
    ensures
        point_aggregate(a, v as int),
{
    crate::stats::lemma_acc_repeat_extremes(v, n);
    if v <= u32::MAX {
        crate::stats::lemma_acc_repeat_stats(v, n);
    }
}

/// An aggregate read from a known accumulator matches it.
proof fn lemma_matches_from_fold(a: AggregatedStatistics, st: StreamingStatistics, acc: StatsAccumulator)
    requires
        st.acc == acc,
        a == aggregate_of(st),
    ensures
        matches_acc(a, acc),
{
}

/// The Monte Carlo output's scalar aggregates read exactly the folds
/// over a batch of runs.
#[verifier::opaque]
pub open spec fn mc_fold_ties(mc: MonteCarloResults, data: Seq<Results>) -> bool {
    &&& matches_acc(mc.missions.requested, fold_requested(data, data.len() as int))
    &&& matches_acc(mc.missions.started, fold_started(data, data.len() as int))
    &&& matches_acc(mc.missions.completed, fold_completed(data, data.len() as int))
    &&& matches_acc(mc.missions.rejected, fold_rejected(data, data.len() as int))
    &&& matches_acc(mc.rejections.aircraft, fold_reason(data, data.len() as int, 0))
    &&& matches_acc(mc.rejections.pilot, fold_reason(data, data.len() as int, 1))
    &&& matches_acc(mc.rejections.so, fold_reason(data, data.len() as int, 2))
    &&& matches_acc(mc.rejections.payload, fold_reason(data, data.len() as int, 3))
}

/// For a randomness-free scenario every scalar aggregate collapses
/// onto the deterministic model's value.
#[verifier::opaque]
pub open spec fn mc_point_outcome(mc: MonteCarloResults, s: Scenario, o: Options) -> bool {
    let m = crate::engine::run_model(
        s,
        spec_run_initial(s, o),
        det_demand_events(s).len() as int,
    );
    &&& point_aggregate(mc.missions.requested, m.requested as int)
    &&& point_aggregate(mc.missions.started, m.started as int)
    &&& point_aggregate(
        mc.missions.completed,
        crate::engine::completed_model(m.pools, m.pools.len() as int, s.horizon),
    )
    &&& point_aggregate(mc.missions.rejected, m.rejected as int)
    &&& point_aggregate(mc.rejections.aircraft, m.rej_aircraft as int)
    &&& point_aggregate(mc.rejections.pilot, m.rej_pilot as int)
    &&& point_aggregate(mc.rejections.so, m.rej_so as int)
    &&& point_aggregate(mc.rejections.payload, m.rej_payload as int)
}

/// Many independent runs folded into summary statistics.  Fails on
/// zero iterations, or exactly as the first failing run does; on
/// success every percentile record is ordered.
#[verifier::rlimit(100)]
pub fn run_monte_carlo_internal(scenario: Scenario, options: MonteCarloOptions) -> (r: Result<
    MonteCarloResults,
    SimError,
>)
    ensures
        match r {
            Result::Ok(mc) => {
                &&& (match options.iterations {
                    Option::Some(n) => n > 0 && mc.iterations == n,
                    Option::None => mc.iterations == 1000,
                })
                &&& mc.horizon == scenario.horizon
                &&& options.state is Some
                &&& spec_initial(options.state.unwrap()).units.len() > 0
                &&& mc_percentiles_ordered(mc)
                &&& (mc.iterations_data is Some <==> options.keep_iterations == Option::Some(true))
                &&& mc.initial_resources@ == spec_run_initial(
                    scenario,
                    Options { state: options.state, overrides: options.overrides },
                )
                &&& mc.initial_resources@.wf()
                &&& (match mc.iterations_data {
                    Option::Some(data) => {
                        &&& data@.len() == mc.iterations
                        &&& forall|i: int|
                            0 <= i < data@.len() ==> results_consistent(
                                #[trigger] data@[i],
                                scenario,
                            )
                        &&& mc_fold_ties(mc, data@)
                    },
                    Option::None => true,
                })
                &&& (scenario_deterministic(scenario) ==> (match mc.iterations_data {
                    Option::Some(data) => forall|i: int|
                        0 <= i < data@.len() ==> deterministic_outcome(#[trigger] data@[i], scenario)
                            && data@[i].initial_resources@ == spec_run_initial(
                            scenario,
                            Options { state: options.state, overrides: options.overrides },
                        ),
                    Option::None => true,
                }))
                &&& (scenario_deterministic(scenario) ==> mc_point_outcome(
                    mc,
                    scenario,
                    Options { state: options.state, overrides: options.overrides },
                ))
            },
            Result::Err(e) => {
                &&& (e == SimError::ZeroIterations <==> options.iterations == Option::Some(0u32))
                &&& (e == SimError::MissingState <==> options.iterations != Option::Some(0u32)
                    && options.state is None)
                &&& (e == SimError::NoUnits <==> options.iterations != Option::Some(0u32)
                    && options.state is Some && spec_initial(options.state.unwrap()).units.len()
                    == 0)
            },
        },
{
    let iterations: u32 = match options.iterations {
        Option::Some(n) => n,
        Option::None => 1000,
    };
    if iterations == 0 {
        return Result::Err(SimError::ZeroIterations);
    }
    let keep = match options.keep_iterations {
        Option::Some(b) => b,
        Option::None => false,
    };
    let des_options = Options { state: options.state, overrides: options.overrides };
    let ghost sri = spec_run_initial(scenario, des_options);
    let ghost dm = crate::engine::run_model(
        scenario,
        sri,
        det_demand_events(scenario).len() as int,
    );
    let ghost vcomp = crate::engine::completed_model(
        dm.pools,
        dm.pools.len() as int,
        scenario.horizon,
    );
    let mut agg = StreamingAggregator::new();
    let mut first_initial: Option<InitialResources> = Option::None;
    let mut stored: Vec<Results> = Vec::new();
    let mut it: u32 = 0;
    while it < iterations
        invariant
            it <= iterations,
            iterations > 0,
            (match options.iterations {
                Option::Some(n) => n == iterations,
                Option::None => iterations == 1000,
            }),
            sri == spec_run_initial(scenario, des_options),
            dm == crate::engine::run_model(
                scenario,
                sri,
                det_demand_events(scenario).len() as int,
            ),
            vcomp == crate::engine::completed_model(
                dm.pools,
                dm.pools.len() as int,
                scenario.horizon,
            ),
            agg.wf(),
            it > 0 ==> agg.requested.acc.count > 0 && agg.started.acc.count > 0
                && agg.completed.acc.count > 0 && agg.rejected.acc.count > 0
                && agg.rej_aircraft.acc.count > 0 && agg.rej_pilot.acc.count > 0
                && agg.rej_so.acc.count > 0 && agg.rej_payload.acc.count > 0,
            it == 0 ==> first_initial is None,
            it > 0 ==> first_initial is Some && first_initial.unwrap()@ == sri
                && first_initial.unwrap()@.wf() && des_options.state is Some && spec_initial(
                des_options.state.unwrap(),
            ).units.len() > 0,
            keep ==> stored@.len() == it,
            !keep ==> stored@.len() == 0,
            forall|k: int|
                0 <= k < stored@.len() ==> results_consistent(#[trigger] stored@[k], scenario),
            keep ==> agg.requested.acc == fold_requested(stored@, it as int)
                && agg.started.acc == fold_started(stored@, it as int) && agg.completed.acc
                == fold_completed(stored@, it as int) && agg.rejected.acc == fold_rejected(
                stored@,
                it as int,
            ) && agg.rej_aircraft.acc == fold_reason(stored@, it as int, 0) && agg.rej_pilot.acc
                == fold_reason(stored@, it as int, 1) && agg.rej_so.acc == fold_reason(
                stored@,
                it as int,
                2,
            ) && agg.rej_payload.acc == fold_reason(stored@, it as int, 3),
            scenario_deterministic(scenario) && it > 0 ==> 0 <= vcomp <= u64::MAX,
            scenario_deterministic(scenario) ==> agg.requested.acc == crate::stats::acc_repeat(
                dm.requested,
                it as int,
            ) && agg.started.acc == crate::stats::acc_repeat(dm.started, it as int)
                && agg.completed.acc == crate::stats::acc_repeat(vcomp as u64, it as int)
                && agg.rejected.acc == crate::stats::acc_repeat(dm.rejected, it as int)
                && agg.rej_aircraft.acc == crate::stats::acc_repeat(dm.rej_aircraft, it as int)
                && agg.rej_pilot.acc == crate::stats::acc_repeat(dm.rej_pilot, it as int)
                && agg.rej_so.acc == crate::stats::acc_repeat(dm.rej_so, it as int)
                && agg.rej_payload.acc == crate::stats::acc_repeat(dm.rej_payload, it as int),
            scenario_deterministic(scenario) ==> forall|k: int|
                0 <= k < stored@.len() ==> deterministic_outcome(#[trigger] stored@[k], scenario)
                    && stored@[k].initial_resources@ == spec_run_initial(scenario, des_options),
            des_options.state == options.state,
            des_options.overrides == options.overrides,
        decreases iterations - it,
    {
        let res = match run_simulation_internal_ref(&scenario, &des_options) {
            Result::Ok(res) => res,
            Result::Err(e) => {
                return Result::Err(e);
            },
        };
        proof {
            if scenario_deterministic(scenario) {
                assert(res.initial_resources@ == sri);
                assert(res.missions.requested == dm.requested);
                assert(res.missions.completed == vcomp);
            }
        }
        let ghost stored0 = stored@;
        agg.process_iteration(&res);
        if first_initial.is_none() {
            let ir = clone_initial(&res.initial_resources);
            proof {
                assert(ir@ == res.initial_resources@);
                assert(res.initial_resources@ == spec_run_initial(scenario, des_options));
                assert(ir@ == sri && ir@.wf());
            }
            first_initial = Option::Some(ir);
        }
        if keep {
            stored.push(res);
            proof {
                if keep {
                    lemma_folds_prefix(stored@, stored0, it as int);
                    assert(fold_requested(stored@, it as int + 1) == crate::stats::acc_after(
                        fold_requested(stored@, it as int),
                        stored@[it as int].missions.requested,
                    ));
                }
            }
        }
        it = it + 1;
    }
    assemble_mc(&scenario, agg, first_initial, stored, iterations, keep, Ghost(des_options))
}

/// The final assembly of a Monte Carlo result from a finished fold:
/// separated out so each half carries its own proof.
#[verifier::rlimit(100)]
fn assemble_mc(
    scenario: &Scenario,
    agg: StreamingAggregator,
    first_initial: Option<InitialResources>,
    stored: Vec<Results>,
    iterations: u32,
    keep: bool,
    Ghost(des_options): Ghost<Options>,
) -> (r: Result<MonteCarloResults, SimError>)
    requires
        iterations >= 1,
        agg.wf(),
        agg.requested.acc.count > 0,
        agg.started.acc.count > 0,
        agg.completed.acc.count > 0,
        agg.rejected.acc.count > 0,
        agg.rej_aircraft.acc.count > 0,
        agg.rej_pilot.acc.count > 0,
        agg.rej_so.acc.count > 0,
        agg.rej_payload.acc.count > 0,
        first_initial is Some,
        first_initial.unwrap()@ == spec_run_initial(*scenario, des_options),
        first_initial.unwrap()@.wf(),
        keep ==> stored@.len() == iterations,
        !keep ==> stored@.len() == 0,
        forall|k: int|
            0 <= k < stored@.len() ==> results_consistent(#[trigger] stored@[k], *scenario),
        keep ==> agg.requested.acc == fold_requested(stored@, iterations as int)
            && agg.started.acc == fold_started(stored@, iterations as int) && agg.completed.acc
            == fold_completed(stored@, iterations as int) && agg.rejected.acc == fold_rejected(
            stored@,
            iterations as int,
        ) && agg.rej_aircraft.acc == fold_reason(stored@, iterations as int, 0)
            && agg.rej_pilot.acc == fold_reason(stored@, iterations as int, 1) && agg.rej_so.acc
            == fold_reason(stored@, iterations as int, 2) && agg.rej_payload.acc == fold_reason(
            stored@,
            iterations as int,
            3,
        ),
        scenario_deterministic(*scenario) ==> ({
            let m = crate::engine::run_model(
                *scenario,
                spec_run_initial(*scenario, des_options),
                det_demand_events(*scenario).len() as int,
            );
            &&& agg.requested.acc == crate::stats::acc_repeat(m.requested, iterations as int)
            &&& agg.started.acc == crate::stats::acc_repeat(m.started, iterations as int)
            &&& agg.completed.acc == crate::stats::acc_repeat(
                crate::engine::completed_model(
                    m.pools,
                    m.pools.len() as int,
                    scenario.horizon,
                ) as u64,
                iterations as int,
            )
            &&& 0 <= crate::engine::completed_model(m.pools, m.pools.len() as int, scenario.horizon)
                <= u64::MAX
            &&& agg.rejected.acc == crate::stats::acc_repeat(m.rejected, iterations as int)
            &&& agg.rej_aircraft.acc == crate::stats::acc_repeat(m.rej_aircraft, iterations as int)
            &&& agg.rej_pilot.acc == crate::stats::acc_repeat(m.rej_pilot, iterations as int)
            &&& agg.rej_so.acc == crate::stats::acc_repeat(m.rej_so, iterations as int)
            &&& agg.rej_payload.acc == crate::stats::acc_repeat(m.rej_payload, iterations as int)
        }),
        scenario_deterministic(*scenario) ==> forall|k: int|
            0 <= k < stored@.len() ==> deterministic_outcome(#[trigger] stored@[k], *scenario)
                && stored@[k].initial_resources@ == spec_run_initial(*scenario, des_options),
        iterations <= 0xFFFF_FFFF,
    ensures
        r matches Result::Ok(mc) && ({
            let mc = r.unwrap();
            &&& mc.iterations == iterations
            &&& mc.horizon == scenario.horizon
            &&& mc_percentiles_ordered(mc)
            &&& (mc.iterations_data is Some <==> keep)
            &&& mc.initial_resources@ == spec_run_initial(*scenario, des_options)
            &&& mc.initial_resources@.wf()
            &&& (match mc.iterations_data {
                Option::Some(data) => {
                    &&& data@.len() == iterations
                    &&& forall|i: int|
                        0 <= i < data@.len() ==> results_consistent(#[trigger] data@[i], *scenario)
                    &&& mc_fold_ties(mc, data@)
                },
                Option::None => true,
            })
            &&& (scenario_deterministic(*scenario) ==> (match mc.iterations_data {
                Option::Some(data) => forall|i: int|
                    0 <= i < data@.len() ==> deterministic_outcome(#[trigger] data@[i], *scenario)
                        && data@[i].initial_resources@ == spec_run_initial(*scenario, des_options),
                Option::None => true,
            }))
            &&& (scenario_deterministic(*scenario) ==> mc_point_outcome(mc, *scenario, des_options))
        }),
{
    let ghost dm = crate::engine::run_model(
        *scenario,
        spec_run_initial(*scenario, des_options),
        det_demand_events(*scenario).len() as int,
    );
    let ghost vcomp = crate::engine::completed_model(
        dm.pools,
        dm.pools.len() as int,
        scenario.horizon,
    );
    let (missions, rejections, utilization, by_type) = agg.finalize();
    proof {
        reveal(mc_fold_ties);
        reveal(mc_point_outcome);
        if keep {
            lemma_matches_from_fold(missions.requested, agg.requested, fold_requested(stored@, iterations as int));
            lemma_matches_from_fold(missions.started, agg.started, fold_started(stored@, iterations as int));
            lemma_matches_from_fold(missions.completed, agg.completed, fold_completed(stored@, iterations as int));
            lemma_matches_from_fold(missions.rejected, agg.rejected, fold_rejected(stored@, iterations as int));
            lemma_matches_from_fold(rejections.aircraft, agg.rej_aircraft, fold_reason(stored@, iterations as int, 0));
            lemma_matches_from_fold(rejections.pilot, agg.rej_pilot, fold_reason(stored@, iterations as int, 1));
            lemma_matches_from_fold(rejections.so, agg.rej_so, fold_reason(stored@, iterations as int, 2));
            lemma_matches_from_fold(rejections.payload, agg.rej_payload, fold_reason(stored@, iterations as int, 3));
        }
        if scenario_deterministic(*scenario) {
            lemma_point_from_repeat(missions.requested, agg.requested, dm.requested, iterations as int);
            lemma_point_from_repeat(missions.started, agg.started, dm.started, iterations as int);
            lemma_point_from_repeat(missions.completed, agg.completed, vcomp as u64, iterations as int);
            lemma_point_from_repeat(missions.rejected, agg.rejected, dm.rejected, iterations as int);
            lemma_point_from_repeat(rejections.aircraft, agg.rej_aircraft, dm.rej_aircraft, iterations as int);
            lemma_point_from_repeat(rejections.pilot, agg.rej_pilot, dm.rej_pilot, iterations as int);
            lemma_point_from_repeat(rejections.so, agg.rej_so, dm.rej_so, iterations as int);
            lemma_point_from_repeat(rejections.payload, agg.rej_payload, dm.rej_payload, iterations as int);
        }
    }
    let initial_resources = match first_initial {
        Option::Some(ir) => ir,
        Option::None => {
            proof {
                assert(false);
            }
            return Result::Err(SimError::ZeroIterations);
        },
    };
    let iterations_data: Option<Vec<Results>> = if keep {
        Option::Some(stored)
    } else {
        Option::None
    };
    Result::Ok(
        MonteCarloResults {
            iterations,
            horizon: scenario.horizon,
            missions,
            rejections,
            utilization,
            by_type,
            iterations_data,
            initial_resources,
        },
    )
}

} // verus!
