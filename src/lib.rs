//! Orthogonal mazes: a grid of passage flags, generation algorithms that carve
//! it, a connectivity validator, text and raster formatters, and shortest paths
//! through the carved passages.

pub mod algorithms;
pub mod builder;
pub mod cell;
pub mod errors;
pub mod formatters;
pub mod game_map;
pub mod grid;
pub mod maze;
pub mod parse;
pub mod pathfind;
pub mod raster;
pub mod rng;
pub mod validate;

pub use algorithms::aldous_broder::{aldous_broder_step, all_visited};
pub use algorithms::{Algorithm, Bias, Method};
pub use builder::OrthogonalMazeBuilder;
pub use cell::{Cell, Direction};
pub use errors::{BuildError, MazeSaveError};
pub use formatters::{AsciiBroad, AsciiNarrow, Formatter, StringWrapper};
pub use game_map::GameMap;
pub use grid::{Coords, Grid, TransitError};
pub use maze::{OrthogonalMaze, OrthogonalMazeIntoIterator, OrthogonalMazeIterator};
pub use parse::parse_coords;
pub use pathfind::{find_maze_ends_paths, find_path, MazeEndsPaths};
pub use raster::{hex_to_rgb, Color, Image, ParseHexError, Raster};
