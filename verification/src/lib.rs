//! Route planning around obstacles: an A* search over a graph of vertices
//! placed around obstacle nodes, the checks made on flight zones, and the
//! settings of a path finder.
//!
//! - `graph`: vertices, tangent connections, and the steps a search can take.
//! - `queue`: the open set of a search.
//! - `search`: the A* search and the walk back that yields a route.
//! - `flyzone`: the checks on flight zones.
//! - `pathfinder`: the path finder's settings and the joining of legs.
pub mod graph;
pub mod queue;
pub mod search;
pub mod flyzone;
pub mod pathfinder;
