//! Integer core of a Monte Carlo path tracer: per-pixel job scheduling,
//! deterministic reassembly of out-of-order results, the bounce control of the
//! light-transport estimator, the scene container and output buffer sizing.
pub mod schedule;
pub mod estimator;
pub mod hittable_list;
pub mod image_buffer;
