//! Core of a game-server uptime monitor: the shared data model, the
//! scheduler's tick alignment and probe-outcome classification, the history
//! query's range and window resolution, and the adaptive downsampler that
//! compresses an observation log into a chart-ready series while preserving
//! online/offline transitions.

pub mod downsample;
pub mod model;
pub mod query;
pub mod schedule;
pub mod timeparse;
