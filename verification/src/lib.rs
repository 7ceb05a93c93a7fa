//! Tile-grid navigation for one pursuer chasing one target: a solidity grid,
//! shortest-path search over it, line-of-sight between cells, and the
//! bookkeeping a chaser needs to follow a path.

pub mod cell_table;
pub mod game;
pub mod map;
pub mod open_set;
pub mod pathfinding;
pub mod physics;
pub mod registry;
pub mod route;
mod search;
pub mod tiled;
pub mod visibility;
