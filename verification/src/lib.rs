//! Simulation core of a fixed-camera shooting-gallery arcade game.
//!
//! A player ship exchanges fire with descending waves of formation enemies.
//! The library holds the per-tick game logic: axis-aligned collision
//! detection, the projectile lifecycle, the enemy formation (movement,
//! fire-permission ladder, wave spawning), the player ship, and the round
//! lifecycle. Coordinates are integers: one unit is one pixel of the play
//! field, time is measured in milliseconds, and velocities in units per
//! second.

use vstd::prelude::*;

pub mod bullets;
pub mod collisions;
pub mod enemies;
pub mod player;
pub mod world;

verus! {

/// Session state: the game is either at the menu or in active play.
#[derive(Clone, Copy, Debug, PartialEq, Eq, Structural)]
pub enum AppState {
    Menu,
    Game,
}

} // verus!
