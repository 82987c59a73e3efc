//! Glacier velocities from two terrestrial LiDAR scans.
//!
//! The library holds the integer logic of the processing engine: the regular
//! grid of sample probes, the culling of probes by the number of points in
//! their circle, the grid of cells with adaptive growth, and the time between
//! two scans as read from their file names. Point coordinates, the spatial
//! index and the rigid registration are handled by the caller, who hands the
//! library counts, cell coordinates and point indices.

pub mod config;
pub mod las;
pub mod sample;
pub mod scan_time;
pub mod velocities;

pub use config::{Config, Probe};
pub use sample::{LowDensitySample, Plan, ProbeCounts, ProbeVerdict};
pub use scan_time::{MissingFileStem, ScanInterval, TimestampError};
pub use velocities::{Builder, Cell, CellMeasurement, DidNotConverge, Grid, RunError, RunSummary};
