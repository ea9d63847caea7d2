//! Block-wise differential copy between two byte regions.
//!
//! An input region and an output region are walked in lockstep, one
//! fixed-size chunk pair at a time. A pair is written to the output only when
//! its bytes differ from the input, and two running totals record how many
//! bytes were observed and how many were actually written.

pub mod engine;
pub mod error;
pub mod laws;
pub mod model;

pub use engine::{copy_diff, copy_diff_reporting, whole_mebibytes, Counters, DiffCopy};
pub use error::Error;
