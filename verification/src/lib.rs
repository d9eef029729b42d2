//! Shortest paths on a rectangular grid by a layered breadth-first search
//! whose expansion work can be shared among several workers.
//!
//! The search is built from a small number of atomic operations on one
//! [`SearchState`]. Every operation keeps the state's invariant, whatever the
//! order in which workers apply them, so a path that any worker reports is a
//! shortest one.

pub mod model;
pub mod table;
pub mod grid;
pub mod machine;
pub mod state;
pub mod worker;
pub mod search;

pub use crate::grid::Grid;
pub use crate::machine::CellState;
pub use crate::model::Coordinate;
pub use crate::search::{find_path, InvalidInput};
pub use crate::state::SearchState;
pub use crate::table::Table;
pub use crate::worker::{Phase, Worker};
