//! Rendering options that the index's callers share.

pub mod config;
pub mod ray_tracer;
