//! Verified core logic of the Starglyph star-field toolkit: seed derivation,
//! dataset planning, calendar and timestamp handling, text parsing and
//! formatting helpers, and the integer raster and labelling routines.

pub mod seeds;
pub mod text;
pub mod calendar;
pub mod dataset;
pub mod desktop;
pub mod contracts;
pub mod solve;
pub mod eval;
pub mod files;
pub mod catalog;
pub mod detect;
pub mod telemetry;
pub mod serve;
pub mod star_catalog;
pub mod raster;
pub mod peaks;
pub mod solver;
pub mod ephem;
pub mod data_paths;
pub mod pool;
