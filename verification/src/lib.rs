//! Airport gate allocation engine.
//!
//! Assigns gates to flights so that every booking is aircraft-size-compatible
//! and time-exclusive per gate, and repairs assignments when flights are
//! delayed, cancelled, diverted, or a gate is taken out of service.

pub mod domain;
pub mod engine;
