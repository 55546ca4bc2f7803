//! Graph coloring as minimisation of a quadratic penalty, searched with a
//! discrete simulated bifurcation update and repeated random restarts.

pub mod energy;
pub mod grid;
pub mod field;
pub mod config;
pub mod integrator;
pub mod spins;
pub mod search;
