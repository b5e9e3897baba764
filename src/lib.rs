//! Procedural dungeon generation, grid pathfinding and field of view over a
//! tile grid, with their behaviour stated as contracts and proved.
pub mod bsp;
pub mod builder;
pub mod dice;
pub mod drunkards;
pub mod generators;
pub mod geometry;
pub mod grid;
pub mod pathfinding;
pub mod rng;
pub mod tile;
pub mod viewshed;
