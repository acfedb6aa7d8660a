//! A discrete-event simulation engine for aircraft mission operations,
//! with a Monte Carlo driver that aggregates many independent runs.
//!
//! Times and durations are integers counting thousandths of an hour
//! (milli-hours), so every quantity the engine tracks is exact.

use vstd::prelude::*;

pub mod pool;
pub mod types;
pub mod demand;
pub mod state;
pub mod engine;
pub mod stats;
pub mod monte;
pub mod dist;
pub mod rng;
mod util;

pub use dist::Distribution;
pub use engine::{run_simulation_internal, run_simulation_internal_ref};
pub use monte::{
    run_monte_carlo_internal, MissionAggregates, MonteCarloOptions, MonteCarloResults,
    RejectionAggregates, UtilizationAggregates,
};
pub use stats::AggregatedStatistics;
pub use types::{
    Aircrew, CrewCounts, Demand, DemandMode, InitialResources, MissionStats, MissionType, Options,
    Overrides, ProcessTimes, Rejections, RejectReason, Results, Scenario, SimError, State,
    StateRow, StateTable, TimelineEvent, UnitOverrides, UnitPolicy, Utilization,
};

verus! {

/// A time or duration in thousandths of an hour.
pub type MilliHours = u64;

} // verus!
