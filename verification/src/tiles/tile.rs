//! A tile: one catalog image as the matching engine sees it.

use crate::color::Rgb;
use crate::tiles::utils::flipped_coords;
use crate::tiles::utils::int_sqrt;
use crate::tiles::utils::mirrored;
use vstd::prelude::*;
use vstd::std_specs::cmp::PartialEqSpecImpl;

verus! {

/// A tile of the catalog. `idx` is its place in the catalog, counted from 1;
/// 0 marks a tile that belongs to no catalog. `flipped` says that the tile is
/// shown mirrored left to right. Two tiles are equal when they agree in `idx`
/// and `flipped`, whatever else they hold.
#[derive(Clone, Debug)]
pub struct Tile<T> {
    pub colors: T,
    pub idx: u16,
    pub flipped: bool,
    pub date_taken: Option<String>,
}

impl<T> PartialEq for Tile<T> {
    fn eq(&self, other: &Self) -> (equal: bool) {
        self.idx == other.idx && self.flipped == other.flipped
    }
}

impl<T> PartialEqSpecImpl for Tile<T> {
    open spec fn obeys_eq_spec() -> bool {
        true
    }

    open spec fn eq_spec(&self, other: &Self) -> bool {
        self.idx == other.idx && self.flipped == other.flipped
    }
}

impl<T> Eq for Tile<T> {

}

impl<T: Default> Default for Tile<T> {
    fn default() -> (tile: Tile<T>)
        ensures
            tile.idx == 0,
            !tile.flipped,
            tile.date_taken is None,
    {
        Tile::new(0, T::default())
    }
}

impl<T> Tile<T> {
    /// A tile outside any catalog (index 0) with the given colours.
    pub fn from_colors(colors: T) -> (tile: Tile<T>)
        ensures
            tile.colors == colors,
            tile.idx == 0,
            !tile.flipped,
            tile.date_taken is None,
    {
        Tile::new(0, colors)
    }

    /// The tile with the given index and colours, not flipped and undated.
    pub fn new(idx: u16, colors: T) -> (tile: Tile<T>)
        ensures
            tile.colors == colors,
            tile.idx == idx,
            !tile.flipped,
            tile.date_taken is None,
    {
        Tile { idx, colors, flipped: false, date_taken: None }
    }

    /// The tile with the given index, colours and capture date, not flipped.
    pub fn new_with_date(idx: u16, colors: T, date_taken: Option<String>) -> (tile: Tile<T>)
        ensures
            tile.colors == colors,
            tile.idx == idx,
            !tile.flipped,
            tile.date_taken == date_taken,
    {
        Tile { idx, colors, flipped: false, date_taken }
    }

    /// The same tile with `f` applied to its colours.
    pub fn map<T1>(self, f: impl FnOnce(T) -> T1) -> (tile: Tile<T1>)
        requires
            f.requires((self.colors,)),
        ensures
            f.ensures((self.colors,), tile.colors),
            tile.idx == self.idx,
            tile.flipped == self.flipped,
            tile.date_taken == self.date_taken,
    {
        Tile {
            colors: f(self.colors),
            idx: self.idx,
            flipped: self.flipped,
            date_taken: self.date_taken,
        }
    }
}

/// The channels of a signature one after another: red, green and blue of the
/// first cell, then those of the second, and so on.
pub open spec fn flat_coords(colors: Seq<Rgb>) -> Seq<u8> {
    Seq::new(3 * colors.len(), |p: int| colors[p / 3].0@[p % 3])
}

/// The point at which a signature stands in colour space: its channels one
/// after another, mirrored left to right as a square grid of cells if the
/// tile is flipped.
pub open spec fn signature_coords(colors: Seq<Rgb>, flipped: bool) -> Seq<u8> {
    if flipped {
        mirrored(flat_coords(colors), int_sqrt(colors.len()) as int)
    } else {
        flat_coords(colors)
    }
}

impl<const N: usize> Tile<[Rgb; N]> {
    /// The tile's point in colour space, three coordinates to a cell.
    pub fn coords(&self) -> (point: Vec<u8>)
        requires
            3 * N <= usize::MAX,
        ensures
            point@ == signature_coords(self.colors@, self.flipped),
    {
        let mut point: Vec<u8> = Vec::new();
        let mut i: usize = 0;
        while i < N
            invariant
                i <= N,
                3 * N <= usize::MAX,
                point@.len() == 3 * i,
                forall|p: int| 0 <= p < 3 * i ==> #[trigger] point@[p] == self.colors@[p / 3].0@[p % 3],
            decreases N - i,
        {
            let color = self.colors[i];
            point.push(color.0[0]);
            point.push(color.0[1]);
            point.push(color.0[2]);
            i += 1;
        }
        assert(point@ =~= flat_coords(self.colors@));
        if self.flipped {
            assert(point@.len() / 3 == N);
            flipped_coords(point.as_mut_slice());
        }
        point
    }
}

} // verus!
