//! Core of a tower-defense simulation: procedural maze generation with a
//! floor-cell adjacency graph, shortest-path routing through that graph, and
//! the per-tick systems that govern spawning, targeting, combat, movement,
//! enemy lifecycle and the nexus-driven game-over transition.

pub mod graph;
pub mod maze;
pub mod path;
pub mod sim;
pub mod rng;
