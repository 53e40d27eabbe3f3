//! Integer core of a Monte-Carlo path tracer: the per-invocation random
//! number generator, the bounce-loop state machine of the path integrator,
//! pixel seeding and addressing, validated buffer lookups, and a bit-matrix
//! rank routine used to test the generator's statistical quality.
pub mod arith;
pub mod gf2;
pub mod integrator;
pub mod mesh;
pub mod rng;
