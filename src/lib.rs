//! Cutting a square image into a pyramid of square map tiles: the partition of
//! the tiles of a zoom span into per-level index ranges, and the Z-order walk
//! over the tiles of one level.
pub mod config;
pub mod error;
pub mod morton;
pub mod range_arg;
pub mod tiles;

pub use config::Config;
pub use error::TileError;
pub use tiles::{Tile, TileImage};
