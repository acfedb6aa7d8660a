//! End-to-end scenarios for the discrete-event engine.

use sim_native::{
    run_simulation_internal, Aircrew, Demand, DemandMode, Distribution, MissionType, Options,
    Overrides, RejectReason, Scenario, SimError, State, StateRow, StateTable, TimelineEvent,
    UnitOverrides,
};

fn row(fields: &[(&str, &str)]) -> StateRow {
    StateRow {
        fields: fields.iter().map(|(k, v)| (k.to_string(), v.to_string())).collect(),
    }
}

/// A snapshot with the given units, each with so many FMC aircraft,
/// pilots, and sensor operators.
fn state_of(units: &[(&str, u32, u32, u32)]) -> State {
    let unit_rows: Vec<StateRow> = units.iter().map(|(u, _, _, _)| row(&[("Unit", u)])).collect();
    let mut aircraft_rows = Vec::new();
    let mut staffing_rows = Vec::new();
    for (u, ac, pilots, sos) in units {
        for _ in 0..*ac {
            aircraft_rows.push(row(&[("Unit", u), ("Status", "FMC")]));
        }
        for _ in 0..*pilots {
            staffing_rows.push(row(&[("Unit Name", u), ("MOS Number", "7318")]));
        }
        for _ in 0..*sos {
            staffing_rows.push(row(&[("Unit Name", u), ("MOS Number", "7314")]));
        }
    }
    State {
        tables: vec![
            ("v_unit".to_string(), StateTable { rows: unit_rows }),
            ("v_aircraft".to_string(), StateTable { rows: aircraft_rows }),
            ("v_staffing".to_string(), StateTable { rows: staffing_rows }),
        ],
    }
}

/// Horizon ten hours, one deterministic demand every five hours from
/// zero, deterministic two-hour flights needing one pilot.
fn single_unit_scenario() -> Scenario {
    Scenario {
        name: None,
        horizon: 10_000,
        demand: vec![Demand {
            mission_type: "strike".to_string(),
            mode: DemandMode::Deterministic { every: 5_000, start: 0 },
        }],
        mission_types: vec![MissionType {
            name: "strike".to_string(),
            priority: None,
            required_payload_types: None,
            required_aircrew: Some(Aircrew { pilot: Some(1), so: None }),
            flight_time: Distribution::Deterministic { value: 2_000 },
        }],
        process_times: None,
        unit_policy: None,
    }
}

#[test]
fn single_unit_deterministic() {
    let res = run_simulation_internal(
        single_unit_scenario(),
        Options { state: Some(state_of(&[("A", 1, 1, 0)])), overrides: None },
    )
    .unwrap();
    assert_eq!(res.missions.requested, 3);
    assert_eq!(res.missions.started, 3);
    // the mission admitted at the horizon finishes beyond it, so only
    // the first two count as completed
    assert_eq!(res.missions.completed, 2);
    assert_eq!(res.missions.rejected, 0);
    assert_eq!(res.skipped_unknown, 0);
    // three two-hour flights over ten hours: utilization 0.600
    assert_eq!(res.utilization.len(), 1);
    assert_eq!(res.utilization[0].0, "A");
    assert_eq!(res.utilization[0].1.aircraft, 600);
    assert_eq!(res.utilization[0].1.pilot, 600);
    assert_eq!(res.utilization[0].1.so, 0);
    // per-type counters
    assert_eq!(res.by_type.len(), 1);
    assert_eq!(res.by_type[0].0, "strike");
    assert_eq!(res.by_type[0].1.requested, 3);
    assert_eq!(res.by_type[0].1.started, 3);
    assert_eq!(res.by_type[0].1.completed, 2);
}

#[test]
fn mission_timeline_segments_are_contiguous() {
    let mut scenario = single_unit_scenario();
    scenario.process_times = Some(sim_native::ProcessTimes {
        preflight: Some(Distribution::Deterministic { value: 100 }),
        postflight: Some(Distribution::Deterministic { value: 200 }),
        turnaround: Some(Distribution::Deterministic { value: 300 }),
        mount_times: Vec::new(),
    });
    let res = run_simulation_internal(
        scenario,
        Options { state: Some(state_of(&[("A", 1, 1, 0)])), overrides: None },
    )
    .unwrap();
    assert_eq!(res.missions.started, 3);
    match &res.timeline[0] {
        TimelineEvent::Mission {
            demand_time,
            pre_end,
            mount_end,
            flight_end,
            post_end,
            finish_time,
            ..
        } => {
            assert_eq!(*demand_time, 0);
            assert_eq!(*pre_end, 100);
            assert_eq!(*mount_end, 100);
            assert_eq!(*flight_end, 2_100);
            assert_eq!(*post_end, 2_300);
            assert_eq!(*finish_time, 2_600);
        }
        _ => panic!("expected a mission entry"),
    }
}

#[test]
fn aircraft_starvation() {
    let overrides = Overrides {
        units: Some(vec![(
            "A".to_string(),
            UnitOverrides {
                aircraft: Some(0),
                pilot: None,
                so: None,
                payload_per_type: None,
                payload_by_type: None,
            },
        )]),
    };
    let res = run_simulation_internal(
        single_unit_scenario(),
        Options { state: Some(state_of(&[("A", 1, 1, 0)])), overrides: Some(overrides) },
    )
    .unwrap();
    assert_eq!(res.missions.requested, 3);
    assert_eq!(res.missions.started, 0);
    assert_eq!(res.missions.rejected, 3);
    assert_eq!(res.rejections.aircraft, 3);
    assert_eq!(res.utilization[0].1.aircraft, 0);
    assert_eq!(res.utilization[0].1.pilot, 0);
    assert!(res.initial_resources.overrides_applied);
}

#[test]
fn payload_rejection() {
    let mut scenario = single_unit_scenario();
    scenario.mission_types[0].required_payload_types = Some(vec!["P".to_string()]);
    let res = run_simulation_internal(
        scenario,
        Options { state: Some(state_of(&[("A", 1, 1, 0)])), overrides: None },
    )
    .unwrap();
    assert_eq!(res.missions.requested, 3);
    assert_eq!(res.missions.started, 0);
    assert_eq!(res.missions.rejected, 3);
    assert_eq!(res.rejections.payload, 3);
    for ev in &res.timeline {
        match ev {
            TimelineEvent::Rejection { reason, .. } => assert_eq!(*reason, RejectReason::Payload),
            _ => panic!("expected only rejections"),
        }
    }
}

#[test]
fn payload_override_supplies_required_type() {
    let mut scenario = single_unit_scenario();
    scenario.mission_types[0].required_payload_types = Some(vec!["P".to_string()]);
    let overrides = Overrides {
        units: Some(vec![(
            "A".to_string(),
            UnitOverrides {
                aircraft: None,
                pilot: None,
                so: None,
                payload_per_type: Some(2),
                payload_by_type: None,
            },
        )]),
    };
    let res = run_simulation_internal(
        scenario,
        Options { state: Some(state_of(&[("A", 1, 1, 0)])), overrides: Some(overrides) },
    )
    .unwrap();
    // the per-type override creates the required payload pool
    assert_eq!(res.missions.started, 3);
    assert_eq!(res.missions.rejected, 0);
}

#[test]
fn round_robin_two_units() {
    let scenario = Scenario {
        name: None,
        horizon: 4_000,
        demand: vec![Demand {
            mission_type: "recon".to_string(),
            mode: DemandMode::Deterministic { every: 1_000, start: 0 },
        }],
        mission_types: vec![MissionType {
            name: "recon".to_string(),
            priority: None,
            required_payload_types: None,
            required_aircrew: Some(Aircrew { pilot: Some(1), so: None }),
            flight_time: Distribution::Deterministic { value: 500 },
        }],
        process_times: None,
        unit_policy: None,
    };
    let res = run_simulation_internal(
        scenario,
        Options { state: Some(state_of(&[("A", 1, 1, 0), ("B", 1, 1, 0)])), overrides: None },
    )
    .unwrap();
    assert_eq!(res.missions.requested, 5);
    assert_eq!(res.missions.started, 5);
    // event index modulo the unit count: A, B, A, B, A
    let units: Vec<&str> = res
        .timeline
        .iter()
        .map(|ev| match ev {
            TimelineEvent::Mission { unit, .. } => unit.as_str(),
            TimelineEvent::Rejection { unit, .. } => unit.as_str(),
        })
        .collect();
    assert_eq!(units, vec!["A", "B", "A", "B", "A"]);
}

#[test]
fn zero_horizon_yields_nothing() {
    let mut scenario = single_unit_scenario();
    scenario.horizon = 0;
    let res = run_simulation_internal(
        scenario,
        Options { state: Some(state_of(&[("A", 1, 1, 0)])), overrides: None },
    )
    .unwrap();
    assert_eq!(res.missions.requested, 0);
    assert_eq!(res.missions.started, 0);
    assert_eq!(res.missions.completed, 0);
    assert_eq!(res.missions.rejected, 0);
    assert!(res.timeline.is_empty());
    assert_eq!(res.utilization[0].1.aircraft, 0);
}

#[test]
fn empty_demand_yields_nothing() {
    let mut scenario = single_unit_scenario();
    scenario.demand = Vec::new();
    let res = run_simulation_internal(
        scenario,
        Options { state: Some(state_of(&[("A", 1, 1, 0)])), overrides: None },
    )
    .unwrap();
    assert_eq!(res.missions.requested, 0);
    assert!(res.timeline.is_empty());
    assert_eq!(res.utilization[0].1.aircraft, 0);
}

#[test]
fn unknown_mission_type_is_skipped() {
    let mut scenario = single_unit_scenario();
    scenario.demand[0].mission_type = "nope".to_string();
    let res = run_simulation_internal(
        scenario,
        Options { state: Some(state_of(&[("A", 1, 1, 0)])), overrides: None },
    )
    .unwrap();
    assert_eq!(res.missions.requested, 3);
    assert_eq!(res.skipped_unknown, 3);
    assert_eq!(res.missions.started, 0);
    assert_eq!(res.missions.rejected, 0);
    assert!(res.timeline.is_empty());
}

#[test]
fn missing_state_is_an_error() {
    let err = run_simulation_internal(
        single_unit_scenario(),
        Options { state: None, overrides: None },
    )
    .unwrap_err();
    assert_eq!(err, SimError::MissingState);
    assert_eq!(err.message(), "Simulation requires a valid state snapshot");
}

#[test]
fn empty_snapshot_is_an_error() {
    let err = run_simulation_internal(
        single_unit_scenario(),
        Options { state: Some(State { tables: Vec::new() }), overrides: None },
    )
    .unwrap_err();
    assert_eq!(err, SimError::NoUnits);
}

#[test]
fn reducing_aircraft_does_not_increase_starts() {
    // the concrete monotonicity instance: one aircraft starts three
    // missions, none starts none
    let with_one = run_simulation_internal(
        single_unit_scenario(),
        Options { state: Some(state_of(&[("A", 1, 1, 0)])), overrides: None },
    )
    .unwrap();
    let with_zero = run_simulation_internal(
        single_unit_scenario(),
        Options { state: Some(state_of(&[("A", 0, 1, 0)])), overrides: None },
    )
    .unwrap();
    assert!(with_zero.missions.started <= with_one.missions.started);
    assert_eq!(with_one.missions.started, 3);
    assert_eq!(with_zero.missions.started, 0);
}

#[test]
fn deterministic_runs_agree() {
    // only deterministic demand and distributions: repeated runs give
    // identical counters
    let mk = || {
        run_simulation_internal(
            single_unit_scenario(),
            Options { state: Some(state_of(&[("A", 1, 1, 0)])), overrides: None },
        )
        .unwrap()
    };
    let a = mk();
    let b = mk();
    assert_eq!(a.missions, b.missions);
    assert_eq!(a.rejections, b.rejections);
    assert_eq!(a.by_type, b.by_type);
    assert_eq!(a.utilization, b.utilization);
}

#[test]
fn contended_unit_rejects_overlapping_missions() {
    // every hour, but each flight lasts ninety minutes: every other
    // request finds the single aircraft busy
    let scenario = Scenario {
        name: None,
        horizon: 4_000,
        demand: vec![Demand {
            mission_type: "recon".to_string(),
            mode: DemandMode::Deterministic { every: 1_000, start: 0 },
        }],
        mission_types: vec![MissionType {
            name: "recon".to_string(),
            priority: None,
            required_payload_types: None,
            required_aircrew: None,
            flight_time: Distribution::Deterministic { value: 1_500 },
        }],
        process_times: None,
        unit_policy: None,
    };
    let res = run_simulation_internal(
        scenario,
        Options { state: Some(state_of(&[("A", 1, 0, 0)])), overrides: None },
    )
    .unwrap();
    // t=0 starts (busy to 1500), t=1000 rejected, t=2000 starts (to
    // 3500), t=3000 rejected, t=4000 starts
    assert_eq!(res.missions.requested, 5);
    assert_eq!(res.missions.started, 3);
    assert_eq!(res.missions.rejected, 2);
    assert_eq!(res.rejections.aircraft, 2);
    // completions count only finishes inside the horizon
    assert_eq!(res.missions.completed, 2);
}
