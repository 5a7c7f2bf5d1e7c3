//! Modular arithmetic, Miller-Rabin primality testing, trial division, a
//! sieve and a wheel-based prime generator over the fixed-width integer
//! types, with an all-pairs shortest-path routine beside them.

pub mod generator;
pub mod graph;
pub mod miller_rabin;
pub mod modular;
pub mod sieve;
pub mod trial;
