//! A maze on a rectangular grid of walled cells.
//!
//! The crate offers two algorithms over one shared data structure:
//!
//! * [`maze::Maze::cut_up_maze`] carves passages into a maze until every cell
//!   can be reached from every other one, and
//! * [`maze::Maze::is_connected`] decides whether two cells are joined by a
//!   route that runs over a chosen set of cells only.
//!
//! Every executable function carries a contract over the mathematical model
//! of the maze, [`grid::Grid`], and is proved against it.

pub mod position;
pub mod cell;
pub mod grid;
pub mod maze;
pub mod flags;
pub mod carve;
pub mod connect;
pub mod game;
