//! Core of a vehicle-routing metaheuristic: a growing self-organising map
//! used as a diversity-preserving population, the incremental capacity-state
//! machinery of the insertion heuristic, route scheduling, and the evolution
//! driver over the population.
//!
//! All quantities are kept as fixed-point integers (per-mille scaling where a
//! fraction is needed), so every rule of the library is stated and proved
//! over plain integer arithmetic.

pub mod capacity;
pub mod constraints;
pub mod index;
pub mod network;
pub mod node;
pub mod rng;
pub mod route;
pub mod solver;
