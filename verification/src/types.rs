//! The scenario, inventory, and result types of the simulation.
//!
//! All quantities are plain integers: times and durations in
//! milli-hours, rates and weights scaled by one thousand, utilization
//! in thousandths.  Collections keyed by name are association lists in
//! stable order, so every lookup has an exact specification.

use vstd::prelude::*;

use crate::MilliHours;
use crate::dist::Distribution;

verus! {

/// Crew demanded by a mission type.
#[derive(Clone, Debug)]
pub struct Aircrew {
    pub pilot: Option<u32>,
    pub so: Option<u32>,
}

/// A mission profile: what it needs and how long it flies.
#[derive(Clone, Debug)]
pub struct MissionType {
    pub name: String,
    pub priority: Option<u32>,
    pub required_payload_types: Option<Vec<String>>,
    pub required_aircrew: Option<Aircrew>,
    pub flight_time: Distribution,
}

/// How mission requests for one mission type arrive over time.
#[derive(Clone, Debug)]
pub enum DemandMode {
    /// Arrivals at `start`, `start + every`, ... up to the horizon;
    /// a zero interval produces no events.
    Deterministic { every: MilliHours, start: MilliHours },
    /// A Poisson process with the given rate per hour, times 1000;
    /// a zero rate produces no events.
    Poisson { rate_milli: u64 },
}

/// One demand process.
#[derive(Clone, Debug)]
pub struct Demand {
    pub mission_type: String,
    pub mode: DemandMode,
}

/// Optional ground-process durations; a missing entry means zero.
#[derive(Clone, Debug)]
pub struct ProcessTimes {
    pub preflight: Option<Distribution>,
    pub postflight: Option<Distribution>,
    pub turnaround: Option<Distribution>,
    pub mount_times: Vec<(String, Distribution)>,
}

/// How missions are split across units; an absent or empty split means
/// round-robin in unit order.
#[derive(Clone, Debug)]
pub struct UnitPolicy {
    pub mission_split: Option<Vec<(String, u64)>>,
}

/// A full simulation scenario.
#[derive(Clone, Debug)]
pub struct Scenario {
    pub name: Option<String>,
    pub horizon: MilliHours,
    pub demand: Vec<Demand>,
    pub mission_types: Vec<MissionType>,
    pub process_times: Option<ProcessTimes>,
    pub unit_policy: Option<UnitPolicy>,
}

/// One row of a state table: named fields with string values.
#[derive(Clone, Debug)]
pub struct StateRow {
    pub fields: Vec<(String, String)>,
}

/// A named table of rows.
#[derive(Clone, Debug)]
pub struct StateTable {
    pub rows: Vec<StateRow>,
}

/// A snapshot of tabular state from which the inventory is derived.
#[derive(Clone, Debug)]
pub struct State {
    pub tables: Vec<(String, StateTable)>,
}

/// Absolute per-unit resource replacements.
#[derive(Clone, Debug)]
pub struct UnitOverrides {
    pub aircraft: Option<u32>,
    pub pilot: Option<u32>,
    pub so: Option<u32>,
    pub payload_per_type: Option<u32>,
    pub payload_by_type: Option<Vec<(String, u32)>>,
}

/// Overrides for several units.
#[derive(Clone, Debug)]
pub struct Overrides {
    pub units: Option<Vec<(String, UnitOverrides)>>,
}

/// Options of a single simulation run.
#[derive(Clone, Debug)]
pub struct Options {
    pub state: Option<State>,
    pub overrides: Option<Overrides>,
}

/// Pilot and sensor-operator counts of one unit.
#[derive(Clone, Copy, Debug)]
pub struct CrewCounts {
    pub pilot: u32,
    pub so: u32,
}

/// The derived starting inventory: parallel vectors indexed by unit.
#[derive(Clone, Debug)]
pub struct InitialResources {
    pub units: Vec<String>,
    pub aircraft_by_unit: Vec<u32>,
    pub crew_by_unit: Vec<CrewCounts>,
    pub payload_by_unit: Vec<Vec<(String, u32)>>,
    pub overrides_applied: bool,
}

impl InitialResources {
    /// The parallel vectors describe the same units.
    pub open spec fn wf(self) -> bool {
        &&& self.aircraft_by_unit@.len() == self.units@.len()
        &&& self.crew_by_unit@.len() == self.units@.len()
        &&& self.payload_by_unit@.len() == self.units@.len()
    }
}

/// Counters over missions.
#[derive(Clone, Copy, Debug, PartialEq, Eq)]
pub struct MissionStats {
    pub requested: u64,
    pub started: u64,
    pub completed: u64,
    pub rejected: u64,
}

/// Rejection counts by the resource that was short.
#[derive(Clone, Copy, Debug, PartialEq, Eq)]
pub struct Rejections {
    pub aircraft: u64,
    pub pilot: u64,
    pub so: u64,
    pub payload: u64,
}

/// Utilization of one unit's pools, in thousandths.
#[derive(Clone, Copy, Debug, PartialEq, Eq)]
pub struct Utilization {
    pub aircraft: u32,
    pub pilot: u32,
    pub so: u32,
}

/// Why a mission was turned away.
#[derive(Clone, Copy, Debug, PartialEq, Eq, Structural)]
pub enum RejectReason {
    Aircraft,
    Pilot,
    So,
    Payload,
}

/// One timeline record: a started mission with its five contiguous
/// segment boundaries, or a rejection.
#[derive(Clone, Debug)]
pub enum TimelineEvent {
    /// Segments run demand_time..pre_end (preflight), pre_end..mount_end
    /// (mount), mount_end..flight_end (flight), flight_end..post_end
    /// (postflight), post_end..finish_time (turnaround).
    Mission {
        unit: String,
        mission_type: String,
        demand_time: MilliHours,
        pre_end: MilliHours,
        mount_end: MilliHours,
        flight_end: MilliHours,
        post_end: MilliHours,
        finish_time: MilliHours,
    },
    Rejection {
        time: MilliHours,
        unit: String,
        mission_type: String,
        reason: RejectReason,
    },
}

/// A mission entry's segments are contiguous by construction; they also
/// run forward and cover `[demand_time, finish_time]`.
pub open spec fn timeline_event_wf(ev: TimelineEvent) -> bool {
    match ev {
        TimelineEvent::Mission {
            demand_time,
            pre_end,
            mount_end,
            flight_end,
            post_end,
            finish_time,
            ..
        } => demand_time <= pre_end <= mount_end <= flight_end <= post_end <= finish_time,
        TimelineEvent::Rejection { .. } => true,
    }
}

/// The outcome of one simulation run.
#[derive(Clone, Debug)]
pub struct Results {
    pub horizon: MilliHours,
    pub missions: MissionStats,
    pub rejections: Rejections,
    /// Demand events whose mission type was unknown: requested but
    /// neither started nor rejected.
    pub skipped_unknown: u64,
    pub utilization: Vec<(String, Utilization)>,
    pub by_type: Vec<(String, MissionStats)>,
    pub timeline: Vec<TimelineEvent>,
    pub initial_resources: InitialResources,
}

/// What can go wrong before or while a run executes.
#[derive(Clone, Copy, Debug, PartialEq, Eq, Structural)]
pub enum SimError {
    /// No state snapshot was supplied.
    MissingState,
    /// The snapshot yields no units.
    NoUnits,
    /// A Monte Carlo run of zero iterations was requested.
    ZeroIterations,
}

impl SimError {
    /// A human-readable description.
    pub fn message(&self) -> String {
        match self {
            SimError::MissingState => String::from_str("Simulation requires a valid state snapshot"),
            SimError::NoUnits => String::from_str("No units found in state snapshot"),
            SimError::ZeroIterations => String::from_str("Monte Carlo requires at least one iteration"),
        }
    }
}

} // verus!
