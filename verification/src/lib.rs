//! Photomosaic tile matching and placement.
//!
//! A photomosaic shows a source image as a grid of small tile images, each
//! chosen because its colours match the part of the source image it stands
//! for. This crate is the engine that chooses and lays out the tiles:
//!
//! - [`analysis`] reduces an image, or a block of one, to its colour
//!   signature: the average colours of a square grid of cells.
//! - [`tiles`] holds the tiles and the catalog that owns them, and prepares
//!   pictures as tile images.
//! - [`index`] is the spatial index over the signatures of a catalog. Every
//!   tile stands in it twice, as it is and mirrored left to right, and is
//!   found by Manhattan distance.
//! - [`matching`] chooses a tile for each cell on its own: the nearest, or
//!   one picked at random among the nearest. [`greedy`] chooses so that no
//!   tile is used twice.
//! - [`layout`] cuts the source image into cells, and [`rendering`] lays the
//!   chosen tiles out as the mosaic.
//! - [`stats`] records which tile went where and how well it matched.
//!
//! A signature has `N` colours, where `N` is a square, and stands in colour
//! space at a point of `K` coordinates, three to a colour. The functions
//! that build or search the index take both numbers, and fail where `K` is
//! not three times `N`.
//!
//! The engine reads and writes no files. The catalog is given the images of
//! its tiles before a render, and a render fails where a tile it has chosen
//! has none.

pub mod algorithms;
pub mod analysis;
pub mod color;
pub mod error;
pub mod greedy;
pub mod index;
pub mod layout;
pub mod matching;
pub mod random;
pub mod rendering;
pub mod stats;
pub mod tiles;

pub use analysis::analyse;
pub use rendering::render_nto1;
pub use rendering::render_nto1_no_repeat;
pub use rendering::render_random;
