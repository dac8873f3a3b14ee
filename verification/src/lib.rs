//! Engine-free simulation logic for dinochrome: the maze grid, maze
//! generation, connectivity, pathfinding, drone and factory decisions, hit
//! points and the screen state machine, each with a proved contract.
//!
//! Everything here works on integer cells. The continuous, floating-point half
//! of the game (collision geometry, line of sight, hull and turret kinematics)
//! lives outside this crate.

pub mod grid;
pub mod walk;
pub mod random;
pub mod maze;
pub mod path;
pub mod drone;
pub mod factory;
pub mod health;
pub mod screen;

use vstd::prelude::*;

verus! {

} // verus!
