//! The simulation core of a snake game on a square board whose edges wrap
//! around: the board arithmetic, the snake's movement, rewards, scoring and
//! the win and loss rules.

pub mod board;
pub mod world;

pub use board::{next_cell_index, Direction};
pub use world::{GameStatus, SnakeCell, World};
