//! Verified core of the scanr change-point detector.
//!
//! The integer and combinatorial parts of the scan (input checks, the
//! window-scan state machine, vote counting, segment merging, leader
//! selection, bootstrap seeding and block sampling plans) live here with
//! their contracts. Floating-point statistics live in the application crate.

pub mod aggregate;
pub mod arguments;
pub mod bootstrap;
pub mod detect;
pub mod sampler;
pub mod types;
pub mod validation;
