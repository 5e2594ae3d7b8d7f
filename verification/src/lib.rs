//! Simulation and greedy scheduling of a square container yard that is
//! served by one crane.
//!
//! Containers arrive at the inbound frontier (column 0) of an `n` by `n`
//! board, lane by lane in a fixed order, and have to leave through the
//! outbound frontier (column `n - 1`), each through the lane and at the rank
//! that its id stands for. [`Monitor`] is the yard with its rules,
//! [`Solver`] the schedule that empties it, and [`Crane`] records the
//! commands that the schedule gives.

pub mod container;
pub mod crane;
pub mod grid;
pub mod input;
pub mod invariants;
pub mod monitor;
pub mod schedule;
pub mod solver;
pub mod yard;

pub use crate::container::Container;
pub use crate::crane::Crane;
pub use crate::input::Input;
pub use crate::monitor::Monitor;
pub use crate::solver::NoFreeStorage;
pub use crate::solver::Solver;
