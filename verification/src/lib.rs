//! A* shortest-path search on a 2D occupancy grid with 8-directional movement
//! and corner-cutting prevention.
//!
//! The grid maps each cell `(x, y)` to a `blocked` flag. A search takes the
//! grid together with start and goal coordinates and returns an ordered path
//! of cells plus a found/not-found flag. Step costs are 1 for cardinal moves
//! and sqrt(2) for diagonal moves; costs are represented exactly as pairs of
//! step counters (see [`cost`]), so all comparisons are decided in integer
//! arithmetic.

pub mod cost;
pub mod grid;
pub mod node;
pub mod path;
pub mod search;

pub use cost::Cost;
pub use grid::is_diagonal_blocked;
pub use node::AStarNode;
pub use node::calculate_heuristic;
pub use node::get_directions;
pub use path::AStarResult;
pub use path::PathPoint;
pub use search::find_path_astar;
