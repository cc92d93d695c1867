//! Side-view terrain navigation for crawling agents.
//!
//! The world is a two-dimensional grid of destructible cells. Passable cells
//! form a weighted undirected graph; agents request routes through it, walk
//! them at a per-agent speed, and erode the dirt they cross, which in turn
//! lowers the cost of the corridor for later traffic.

pub mod dirt;
pub mod food_types;
pub mod map;
pub mod movement;
pub mod pathfinding;
pub mod positions;
pub mod simulation;
pub mod rng;
pub mod skill;
