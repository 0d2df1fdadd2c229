//! What can go wrong with a tile's image, with the index and with a render.

use vstd::prelude::*;

verus! {

/// Why a tile's image could not be had.
#[derive(Clone, Copy, Debug, PartialEq, Eq)]
pub enum ImageErrorKind {
    /// The catalog holds no image for the tile.
    NotLoaded,
    /// The image is not a square of the size asked for.
    WrongSize,
}

/// A failure to provide the image of the tile backed by the file at `path`.
#[derive(Clone, Debug, PartialEq, Eq)]
pub struct ImageError {
    pub path: String,
    pub kind: ImageErrorKind,
}

/// Why no index could be built over a catalog.
#[derive(Clone, Copy, Debug, PartialEq, Eq)]
pub enum IndexError {
    /// The index is not made for points of three coordinates to a cell, or
    /// for more coordinates than it supports.
    Dimension,
    /// The catalog has more tiles than the index can count.
    TooManyTiles,
    /// Too many entries share one coordinate on some axis for the index to
    /// split its buckets.
    Crowded,
}

/// Why a render failed.
#[derive(Clone, Debug, PartialEq, Eq)]
pub enum RenderError {
    /// The grid side does not divide the source image's width and height.
    SourceSize,
    /// The tile size is 0, or the grid side does not divide it.
    TileSize,
    /// The output image would not fit in memory.
    OutputSize,
    /// There are more cells than the catalog has tiles to give.
    InsufficientTiles,
    /// Every tile was placed before every cell had one.
    Exhausted,
    /// The index could not be built.
    Index(IndexError),
    /// The index answered with what it cannot hold, or did not remove what
    /// it held.
    IndexConsistency,
    /// The image of a chosen tile could not be had.
    Image(ImageError),
}

} // verus!
