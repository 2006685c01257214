//! Home-battery dispatch simulation kernel.
//!
//! Given a multi-day timeline of hourly household net load and spot prices,
//! the library computes the grid cost of operating a battery under three
//! dispatch strategies (a daily percentile arbitrage heuristic, a
//! self-consumption heuristic, and a dynamic-programming optimum over a
//! discretized state space) plus a no-battery baseline, returning per-hour
//! state-of-charge traces and total costs.
//!
//! All quantities are integers: energies in watt-hours, prices in the
//! caller's price unit per kilowatt-hour, the export-revenue coefficient in
//! permille, and costs in the fixed-point unit described in [`cost`].

pub mod cost;
pub mod heuristic;
pub mod optimal;
pub mod percentile;
pub mod self_consumption;
pub mod simulate;
pub mod strategy;

pub use cost::{hour_cost, no_battery_cost};
pub use heuristic::run_heuristic;
pub use optimal::run_optimal;
pub use percentile::daily_percentiles;
pub use self_consumption::run_self_consumption;
pub use simulate::{simulate, BatteryParams, DayRecord, SimResult};
pub use strategy::StrategyResult;
