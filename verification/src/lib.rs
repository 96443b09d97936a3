//! The entity lifecycle of a small arcade shooter: a store of entities and
//! their components, and the stages that spawn, move, collide and retire
//! them once per tick.
//!
//! Every quantity is an integer: lengths in world units, times in
//! microseconds, fractions in thousandths.

pub mod collision;
pub mod components;
pub mod config;
pub mod despawned;
pub mod enemy;
pub mod explosion;
pub mod fixed;
pub mod game;
pub mod invariants;
pub mod movement;
pub mod player;
pub mod rows;
pub mod world;
