//! Any-angle path planning on a partially known occupancy grid.
//!
//! An agent moves through a world of which it learns as it goes. `world`
//! holds the map and merges what the agent sees into it, with every
//! obstacle widened by half a step of the planner's lattice. `path` follows
//! a route to a target waypoint by waypoint; its planner, `theta_star`,
//! searches the lattice and lets a route cut across cells wherever the line
//! of sight of `bresenham` is free. `priority` and `pos_map` are the
//! containers of the search, and `metric` is what the search asks of the
//! continuous plane, which the caller brings.

pub mod grid;
pub mod metric;
pub mod path;
pub mod pos;
pub mod pos_map;
pub mod priority;
pub mod world;
