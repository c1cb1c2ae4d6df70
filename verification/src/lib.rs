//! Decision logic of a sailing autopilot: its planner, its follower, its helm,
//! its links and its reports.
//!
//! Quantities that were measured or computed travel as [`scalar::Scalar`]s.
//! Floating-point arithmetic is the caller's: where a rule needs a distance, an
//! angle or an interpolated value, it takes it as an argument or asks a function
//! that the caller hands in, and its contract says what is asked and what
//! becomes of the answer.

pub mod scalar;
pub mod number;
pub mod frame;
pub mod proto;
pub mod link;
pub mod simplify;
pub mod coast;
pub mod polar;
pub mod planner;
pub mod passage;
pub mod route;
pub mod route_file;
pub mod helm;
pub mod autopilot;
pub mod conditions;
pub mod state;
pub mod sim;
pub mod report;
pub mod figure;
pub mod cli;
