//! Timing core of a rhythm-game chart player.
//!
//! A chart places notes at musical coordinates (measure index plus a
//! fractional position within the measure) under a tempo that may change
//! arbitrarily often mid-chart.  This crate converts those coordinates into
//! real elapsed time and back, and computes the scroll displacement of a
//! note between two instants, using exact rational arithmetic throughout.

pub mod chart;
pub mod laws;
pub mod measure;
pub mod rat;
pub mod timeline;
