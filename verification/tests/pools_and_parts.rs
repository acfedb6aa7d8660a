//! The resource pool, distribution sampling, demand generation, and
//! inventory derivation, exercised directly.

use sim_native::demand::generate_demand;
use sim_native::dist::{sample_exponential_mh, sample_triangular_mh};
use sim_native::pool::ResourcePool;
use sim_native::rng::SimRng;
use sim_native::state::{apply_overrides, derive_initial_from_state};
use sim_native::{
    Demand, DemandMode, Distribution, MissionType, Overrides, Scenario, State, StateRow,
    StateTable, UnitOverrides,
};

fn row(fields: &[(&str, &str)]) -> StateRow {
    StateRow {
        fields: fields.iter().map(|(k, v)| (k.to_string(), v.to_string())).collect(),
    }
}

#[test]
fn pool_acquisition_and_release() {
    let mut p = ResourcePool::new(2);
    assert!(p.try_acquire(0, 1_000, 1));
    assert_eq!(p.available_at(500), 1);
    // two units are not free while one is held
    assert!(!p.try_acquire(500, 1_000, 2));
    assert_eq!(p.denials, 2);
    assert_eq!(p.available_at(999), 1);
    // the hold releases at exactly its release time
    assert_eq!(p.available_at(1_000), 2);
    assert_eq!(p.allocations, 1);
}

#[test]
fn pool_never_overbooks() {
    let mut p = ResourcePool::new(3);
    assert!(p.try_acquire(0, 10_000, 2));
    assert!(p.try_acquire(1, 10_000, 1));
    assert!(!p.try_acquire(2, 10_000, 1));
    assert_eq!(p.held.len(), 3);
    assert!(p.held.len() <= p.total as usize);
}

#[test]
fn pool_utilization_rounds_to_thousandths() {
    let mut p = ResourcePool::new(2);
    assert!(p.try_acquire(0, 1_000, 1));
    // busy one aircraft-hour of twenty possible: 0.050
    assert_eq!(p.utilization(10_000), 50);
    // empty pool or empty horizon: zero
    assert_eq!(p.utilization(0), 0);
    assert_eq!(ResourcePool::new(0).utilization(10_000), 0);
    // saturation clamps at one
    let mut q = ResourcePool::new(1);
    assert!(q.try_acquire(0, 50_000, 1));
    assert_eq!(q.utilization(10_000), 1000);
}

#[test]
fn exponential_sample_has_the_inverse_cdf_value() {
    // a draw of one half: -ln(0.5) hours at rate one per hour is 693
    // thousandths of an hour
    let mh = sample_exponential_mh(1_000, 0x8000_0000);
    assert_eq!(mh, 693);
    // zero rate and zero draw both sample to zero
    assert_eq!(sample_exponential_mh(0, 0x8000_0000), 0);
    assert_eq!(sample_exponential_mh(1_000, 0), 0);
    // doubling the rate halves the duration
    let half = sample_exponential_mh(2_000, 0x8000_0000);
    assert!((345..=347).contains(&half));
}

#[test]
fn triangular_sample_stays_in_support() {
    let mut u: u64 = 12345;
    for _ in 0..200 {
        u = u.wrapping_mul(6364136223846793005).wrapping_add(1442695040888963407);
        let v = sample_triangular_mh(1_000, 2_000, 4_000, u);
        assert!((1_000..=4_000).contains(&v));
    }
    // the mode-at-left draw below the threshold starts at the left edge
    assert_eq!(sample_triangular_mh(5, 5, 5, 77), 5);
    // unordered parameters sample to zero
    assert_eq!(sample_triangular_mh(10, 5, 20, 77), 0);
}

#[test]
fn deterministic_demand_emits_up_to_the_horizon() {
    let scenario = Scenario {
        name: None,
        horizon: 10_000,
        demand: vec![Demand {
            mission_type: "strike".to_string(),
            mode: DemandMode::Deterministic { every: 5_000, start: 0 },
        }],
        mission_types: Vec::new(),
        process_times: None,
        unit_policy: None,
    };
    let mut rng = SimRng::new(1);
    let events = generate_demand(&scenario, &mut rng);
    let times: Vec<u64> = events.iter().map(|e| e.time).collect();
    assert_eq!(times, vec![0, 5_000, 10_000]);
    assert!(events.iter().all(|e| e.mission_type == "strike"));
}

#[test]
fn demand_streams_merge_sorted_and_stable() {
    let scenario = Scenario {
        name: None,
        horizon: 4_000,
        demand: vec![
            Demand {
                mission_type: "a".to_string(),
                mode: DemandMode::Deterministic { every: 2_000, start: 0 },
            },
            Demand {
                mission_type: "b".to_string(),
                mode: DemandMode::Deterministic { every: 2_000, start: 0 },
            },
        ],
        mission_types: Vec::new(),
        process_times: None,
        unit_policy: None,
    };
    let mut rng = SimRng::new(1);
    let events = generate_demand(&scenario, &mut rng);
    let keys: Vec<(u64, &str)> = events.iter().map(|e| (e.time, e.mission_type.as_str())).collect();
    // ties keep the order the demand list declared
    assert_eq!(
        keys,
        vec![(0, "a"), (0, "b"), (2_000, "a"), (2_000, "b"), (4_000, "a"), (4_000, "b")],
    );
}

#[test]
fn poisson_demand_stays_inside_the_horizon() {
    let scenario = Scenario {
        name: None,
        horizon: 50_000,
        demand: vec![Demand {
            mission_type: "a".to_string(),
            mode: DemandMode::Poisson { rate_milli: 2_000 },
        }],
        mission_types: Vec::new(),
        process_times: None,
        unit_policy: None,
    };
    let mut rng = SimRng::new(42);
    let events = generate_demand(&scenario, &mut rng);
    assert!(!events.is_empty());
    let mut last: u64 = 0;
    for e in &events {
        assert!(e.time <= 50_000);
        assert!(e.time >= last);
        last = e.time;
    }
    // a zero rate produces nothing
    let none = Scenario {
        demand: vec![Demand {
            mission_type: "a".to_string(),
            mode: DemandMode::Poisson { rate_milli: 0 },
        }],
        ..scenario
    };
    assert!(generate_demand(&none, &mut rng).is_empty());
}

#[test]
fn snapshot_derivation_counts_rows() {
    let state = State {
        tables: vec![
            (
                "v_unit".to_string(),
                StateTable { rows: vec![row(&[("Unit", "A")]), row(&[("Unit", "B")])] },
            ),
            (
                "v_aircraft".to_string(),
                StateTable {
                    rows: vec![
                        row(&[("Unit", "A"), ("Status", "FMC")]),
                        row(&[("Unit", "A"), ("Status", "FMC")]),
                        row(&[("Unit", "A"), ("Status", "NMC")]),
                        row(&[("Unit", "C"), ("Status", "FMC")]),
                    ],
                },
            ),
            (
                "v_payload".to_string(),
                StateTable {
                    rows: vec![
                        row(&[("Unit", "A"), ("Type", "P")]),
                        row(&[("Unit", "A"), ("Type", "P")]),
                        row(&[("Unit", "A"), ("Type", "Q")]),
                        row(&[("Type", "R")]),
                    ],
                },
            ),
            (
                "v_staffing".to_string(),
                StateTable {
                    rows: vec![
                        row(&[("Unit Name", "B"), ("MOS Number", "7318")]),
                        row(&[("Unit Name", "B"), ("MOS Number", "7314")]),
                        row(&[("Unit Name", "B"), ("MOS Number", "9999")]),
                    ],
                },
            ),
        ],
    };
    let initial = derive_initial_from_state(&state);
    // units in first-appearance order, rows without a payload unit
    // falling back to the unknown bucket
    assert_eq!(initial.units, vec!["A", "B", "C", "UNKNOWN"]);
    assert_eq!(initial.aircraft_by_unit, vec![2, 0, 1, 0]);
    assert_eq!(initial.crew_by_unit[1].pilot, 1);
    assert_eq!(initial.crew_by_unit[1].so, 1);
    assert_eq!(
        initial.payload_by_unit[0],
        vec![("P".to_string(), 2), ("Q".to_string(), 1)],
    );
    assert_eq!(initial.payload_by_unit[3], vec![("R".to_string(), 1)]);
    assert!(!initial.overrides_applied);
}

#[test]
fn overrides_create_units_and_payload_types() {
    let state = State {
        tables: vec![(
            "v_unit".to_string(),
            StateTable { rows: vec![row(&[("Unit", "A")])] },
        )],
    };
    let mut initial = derive_initial_from_state(&state);
    let mission_types = vec![MissionType {
        name: "m".to_string(),
        priority: None,
        required_payload_types: Some(vec!["P".to_string()]),
        required_aircrew: None,
        flight_time: Distribution::Deterministic { value: 0 },
    }];
    let overrides = Overrides {
        units: Some(vec![(
            "Z".to_string(),
            UnitOverrides {
                aircraft: Some(4),
                pilot: Some(2),
                so: Some(1),
                payload_per_type: Some(3),
                payload_by_type: Some(vec![("Q".to_string(), 9)]),
            },
        )]),
    };
    apply_overrides(&mut initial, &overrides, &mission_types);
    assert_eq!(initial.units, vec!["A", "Z"]);
    assert_eq!(initial.aircraft_by_unit, vec![0, 4]);
    assert_eq!(initial.crew_by_unit[1].pilot, 2);
    assert_eq!(initial.crew_by_unit[1].so, 1);
    // the by-type override lands first, then the per-type value covers
    // existing and required types alike
    assert_eq!(
        initial.payload_by_unit[1],
        vec![("Q".to_string(), 3), ("P".to_string(), 3)],
    );
    assert!(initial.overrides_applied);
}
