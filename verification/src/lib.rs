//! Planning for a digital microfluidic device: an electrode grid that moves
//! discrete droplets. Each planning tick picks the commands to run, assigns
//! them regions of the grid, and routes every droplet that has to move.

pub mod command;
pub mod geometry;
pub mod graph;
pub mod grid;
pub mod horizon;
pub mod place;
pub mod plan;
pub mod route;
pub mod route_map;
pub mod sched;
