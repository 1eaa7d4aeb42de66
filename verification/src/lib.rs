//! A tiered JIT execution engine model: value serialization, profiling,
//! compilation tiers, dependency invalidation and clock-based eviction.
pub mod text;
pub mod value;
pub mod collections;
pub mod cache;
pub mod model;
pub mod engine;
pub mod invoke;
pub mod laws;
pub mod serialization_laws;
pub mod accounting;
pub mod guarantees;
