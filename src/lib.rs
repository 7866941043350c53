//! Finds the largest square of free cells in a rectangular character grid.

pub mod grid;
pub mod render;
pub mod search;
pub mod square;
pub mod text;

pub use grid::{World, WorldError};
pub use render::{pick_marker, render_world, FIRST_MARKER_CODE, MARKER};
pub use search::find_biggest_square;
pub use square::{get_max_size_from_coords, is_square_enlargment_valid, is_square_valid, Square};
