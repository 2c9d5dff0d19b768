//! A* route search on a rectangular grid of cells with walls.
//!
//! A [`Grid`] is built once from its dimensions and the indices of its walls.
//! [`Grid::a_star`] then searches a route between two of its cells, moving to
//! any of the eight surrounding cells, and hands back the cells of the route in
//! order, each with the costs the search gave it. A route is found whenever
//! there is one; the result is empty where the goal cannot be walked to.
//!
//! - [`node`]: a cell and its costs.
//! - [`grid`]: the grid, its cells and their neighbors.
//! - [`open_list`]: lookup by cell index, and ordering by cost.
//! - [`search`]: the rounds of the search and the reading of the route.
//! - [`soundness`]: what holds of the lists of a search in every round, and
//!   what follows for the route.
//! - [`reach`]: why a search finds a route wherever the goal can be walked to.

pub mod node;
pub mod grid;
pub mod open_list;
pub mod search;
pub mod soundness;
pub mod reach;

pub use crate::grid::Grid;
pub use crate::grid::GridError;
pub use crate::grid::GridView;
pub use crate::node::Node;
pub use crate::node::MOVE_DIAGONAL_COST;
pub use crate::node::MOVE_NORMAL_COST;
