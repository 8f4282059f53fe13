//! Behaviour and navigation engine for the non-player entities of a game
//! world: a tick-driven simulation over an entity/component world, and a
//! navigation mesh with path search.

pub mod clock;
pub mod commands;
pub mod components;
pub mod ressources;
pub mod world;
pub mod systems;
pub mod chunck_schemas;
pub mod navmesh;
pub mod pathfinding;
pub mod manager;

pub use manager::{AiManager, EntityType, Stats, Tick};
