//! Geospatial analysis of an air-quality monitoring network.
//!
//! Stations are bucketed into coarse grid cells, linked to their neighbors
//! within a cutoff radius by great-circle distance, and scored with an
//! isolation metric (average distance to the k nearest neighbors). The
//! isolation scores are then correlated against per-station pollution values,
//! and stations that are simultaneously isolated and polluted are reported as
//! monitoring gaps.
//!
//! All quantities are fixed-point integers: coordinates in microdegrees,
//! distances in meters, pollution values in milli-units, and correlation
//! coefficients in millionths.

pub mod fp;
pub mod sorting;
pub mod stats;
pub mod spatial;
pub mod station;
pub mod pollution;
pub mod network;
pub mod geo;
pub mod trig;
