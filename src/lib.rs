mod base;
mod carving;
mod direction;
mod growing_tree;
mod maze;
mod random;

pub use base::{MazeGenerator, SizeError};
pub use direction::{get_dx, get_dy, get_opposite, E, N, S, W};
pub use growing_tree::{GrowingTree, IndexCommand, IndexMode, PolicyError};
pub use maze::Maze;
