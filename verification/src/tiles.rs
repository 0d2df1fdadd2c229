//! Tiles, the catalog that owns them, and the coordinate helpers they share.

pub mod prepare;
pub mod tile;
pub mod tileset;
pub mod utils;

pub use tile::Tile;
pub use tileset::TileSet;
pub use utils::flipped_coords;
