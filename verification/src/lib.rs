//! The rules of the QUIC transport QA programs: what they are set to, what they
//! measure, what they decide next, and when a run passes.
//!
//! A program outside of this library opens the sockets, keeps the clock and
//! prints; it hands plain values in and takes decisions and verdicts out.

pub mod addr;
pub mod binary64;
pub mod contracts;
pub mod env;
pub mod identity;
pub mod probe;
pub mod programs;
pub mod relay;
pub mod resources;
pub mod rng;
pub mod rounding;
pub mod session;
pub mod stats;
pub mod text;
pub mod time;
pub mod wire;
pub mod workload;
