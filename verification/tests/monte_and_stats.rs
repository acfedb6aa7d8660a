//! Monte Carlo aggregation and the streaming statistics underneath it.

use sim_native::rng::SimRng;
use sim_native::stats::{StatsAccumulator, StreamingStatistics};
use sim_native::{
    run_monte_carlo_internal, Aircrew, Demand, DemandMode, Distribution, MissionType,
    MonteCarloOptions, Scenario, SimError, State, StateRow, StateTable, TimelineEvent, UnitPolicy,
};

fn row(fields: &[(&str, &str)]) -> StateRow {
    StateRow {
        fields: fields.iter().map(|(k, v)| (k.to_string(), v.to_string())).collect(),
    }
}

fn state_of(units: &[(&str, u32, u32, u32)]) -> State {
    let unit_rows: Vec<StateRow> = units.iter().map(|(u, _, _, _)| row(&[("Unit", u)])).collect();
    let mut aircraft_rows = Vec::new();
    let mut staffing_rows = Vec::new();
    for (u, ac, pilots, sos) in units {
        for _ in 0..*ac {
            aircraft_rows.push(row(&[("Unit", u), ("Status", "FMC")]));
        }
        for _ in 0..*pilots {
            staffing_rows.push(row(&[("Unit Name", u), ("MOS Number", "7318")]));
        }
        for _ in 0..*sos {
            staffing_rows.push(row(&[("Unit Name", u), ("MOS Number", "7314")]));
        }
    }
    State {
        tables: vec![
            ("v_unit".to_string(), StateTable { rows: unit_rows }),
            ("v_aircraft".to_string(), StateTable { rows: aircraft_rows }),
            ("v_staffing".to_string(), StateTable { rows: staffing_rows }),
        ],
    }
}

fn single_unit_scenario() -> Scenario {
    Scenario {
        name: None,
        horizon: 10_000,
        demand: vec![Demand {
            mission_type: "strike".to_string(),
            mode: DemandMode::Deterministic { every: 5_000, start: 0 },
        }],
        mission_types: vec![MissionType {
            name: "strike".to_string(),
            priority: None,
            required_payload_types: None,
            required_aircrew: Some(Aircrew { pilot: Some(1), so: None }),
            flight_time: Distribution::Deterministic { value: 2_000 },
        }],
        process_times: None,
        unit_policy: None,
    }
}

#[test]
fn monte_carlo_aggregation_of_deterministic_runs() {
    let mc = run_monte_carlo_internal(
        single_unit_scenario(),
        MonteCarloOptions {
            iterations: Some(50),
            keep_iterations: Some(false),
            state: Some(state_of(&[("A", 1, 1, 0)])),
            overrides: None,
        },
    )
    .unwrap();
    assert_eq!(mc.iterations, 50);
    assert_eq!(mc.horizon, 10_000);
    // every iteration is identical: three started, two finished inside
    // the horizon; the statistics collapse onto that point
    let started = &mc.missions.started;
    assert_eq!(started.mean_centi, 300);
    assert_eq!(started.stddev_centi, 0);
    assert_eq!(started.min, 3);
    assert_eq!(started.max, 3);
    let completed = &mc.missions.completed;
    assert_eq!(completed.mean_centi, 200);
    assert_eq!(completed.stddev_centi, 0);
    assert_eq!(completed.min, 2);
    assert_eq!(completed.max, 2);
    assert_eq!(completed.p10, 2);
    assert_eq!(completed.p25, 2);
    assert_eq!(completed.p50, 2);
    assert_eq!(completed.p75, 2);
    assert_eq!(completed.p90, 2);
    assert_eq!(completed.p95, 2);
    assert_eq!(completed.p99, 2);
    assert!(mc.iterations_data.is_none());
    // per-unit aggregated utilization is exact as well
    assert_eq!(mc.utilization.len(), 1);
    assert_eq!(mc.utilization[0].1.aircraft.mean_centi, 60_000);
}

#[test]
fn keep_iterations_retains_every_run() {
    let mc = run_monte_carlo_internal(
        single_unit_scenario(),
        MonteCarloOptions {
            iterations: Some(7),
            keep_iterations: Some(true),
            state: Some(state_of(&[("A", 1, 1, 0)])),
            overrides: None,
        },
    )
    .unwrap();
    let data = mc.iterations_data.unwrap();
    assert_eq!(data.len(), 7);
    for res in &data {
        assert_eq!(res.missions.started, 3);
        assert_eq!(res.missions.completed, 2);
    }
}

#[test]
fn zero_iterations_is_an_error() {
    let err = run_monte_carlo_internal(
        single_unit_scenario(),
        MonteCarloOptions {
            iterations: Some(0),
            keep_iterations: None,
            state: Some(state_of(&[("A", 1, 1, 0)])),
            overrides: None,
        },
    )
    .unwrap_err();
    assert_eq!(err, SimError::ZeroIterations);
}

#[test]
fn monte_carlo_surfaces_run_errors() {
    let err = run_monte_carlo_internal(
        single_unit_scenario(),
        MonteCarloOptions {
            iterations: Some(3),
            keep_iterations: None,
            state: None,
            overrides: None,
        },
    )
    .unwrap_err();
    assert_eq!(err, SimError::MissingState);
}

#[test]
fn weighted_split_trends_to_the_weights() {
    // a large Poisson stream split one to three between two roomy units
    let scenario = Scenario {
        name: None,
        horizon: 1_000_000,
        demand: vec![Demand {
            mission_type: "recon".to_string(),
            mode: DemandMode::Poisson { rate_milli: 5_000 },
        }],
        mission_types: vec![MissionType {
            name: "recon".to_string(),
            priority: None,
            required_payload_types: None,
            required_aircrew: None,
            flight_time: Distribution::Deterministic { value: 0 },
        }],
        process_times: None,
        unit_policy: Some(UnitPolicy {
            mission_split: Some(vec![("A".to_string(), 250), ("B".to_string(), 750)]),
        }),
    };
    let res = sim_native::run_simulation_internal(
        scenario,
        sim_native::Options {
            state: Some(state_of(&[("A", 50, 0, 0), ("B", 50, 0, 0)])),
            overrides: None,
        },
    )
    .unwrap();
    assert!(res.missions.requested > 2_000, "expected a large stream");
    let mut to_b: u64 = 0;
    let mut total: u64 = 0;
    for ev in &res.timeline {
        if let TimelineEvent::Mission { unit, .. } = ev {
            total += 1;
            if unit == "B" {
                to_b += 1;
            }
        }
    }
    assert!(total > 2_000);
    let permille = 1000 * to_b / total;
    assert!(
        (700..=800).contains(&permille),
        "B received {permille} per mille of assignments",
    );
}

#[test]
fn accumulator_mean_and_extremes_are_exact() {
    let mut acc = StatsAccumulator::new();
    for x in [1u64, 2, 3, 4] {
        acc.update(x);
    }
    assert_eq!(acc.count, 4);
    assert_eq!(acc.sum, 10);
    assert_eq!(acc.sumsq, 30);
    assert_eq!(acc.min, 1);
    assert_eq!(acc.max, 4);
    // mean 2.5 in hundredths
    assert_eq!(acc.mean_centi(), 250);
}

#[test]
fn accumulator_stddev_matches_the_sample_formula() {
    let mut acc = StatsAccumulator::new();
    for x in [2u64, 4, 4, 4, 5, 5, 7, 9] {
        acc.update(x);
    }
    // n*sumsq - sum^2 = 8*232 - 1600 = 256; variance 256/56; stddev
    // sqrt(45714.28...) = 213.8, rounded to 214 hundredths
    assert_eq!(acc.stddev_centi(), 214);
    // fewer than two observations: zero
    let mut one = StatsAccumulator::new();
    one.update(42);
    assert_eq!(one.stddev_centi(), 0);
}

#[test]
fn percentiles_of_a_small_stream() {
    let mut st = StreamingStatistics::new();
    let mut rng = SimRng::new(7);
    for x in [3u64, 1, 2] {
        st.update(x, &mut rng);
    }
    let agg = st.finalize().unwrap();
    assert_eq!(agg.min, 1);
    assert_eq!(agg.max, 3);
    assert_eq!(agg.p10, 1);
    assert_eq!(agg.p50, 2);
    assert_eq!(agg.p99, 3);
    assert_eq!(agg.mean_centi, 200);
}

#[test]
fn percentiles_are_ordered_on_a_skewed_stream() {
    let mut st = StreamingStatistics::new();
    let mut rng = SimRng::new(99);
    for i in 0..2_000u64 {
        st.update(i * i % 1_237, &mut rng);
    }
    let a = st.finalize().unwrap();
    assert!(a.min <= a.p10);
    assert!(a.p10 <= a.p25);
    assert!(a.p25 <= a.p50);
    assert!(a.p50 <= a.p75);
    assert!(a.p75 <= a.p90);
    assert!(a.p90 <= a.p95);
    assert!(a.p95 <= a.p99);
    assert!(a.p99 <= a.max);
}

#[test]
fn empty_stream_has_no_aggregate() {
    let st = StreamingStatistics::new();
    assert!(st.finalize().is_none());
}
