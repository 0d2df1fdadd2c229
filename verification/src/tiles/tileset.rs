//! The tile catalog: the tiles in the order of their indices, the files
//! behind them, and the images of those that have been loaded.

use crate::color::ImageView;
use crate::color::Rgb;
use crate::color::RgbImage;
use crate::error::ImageError;
use crate::error::ImageErrorKind;
use crate::error::IndexError;
use crate::index::BUCKET_SIZE;
use crate::index::Entries;
use crate::index::HALF_BUCKET;
use crate::index::MAX_DIMENSION;
use crate::index::MAX_ENTRIES;
use crate::index::SpatialIndex;
use crate::index::axis_has_room;
use crate::index::crowd;
use crate::index::crowd_set;
use crate::index::has_room;
use crate::index::is_two_valued;
use crate::index::lemma_crowd_empty;
use crate::index::lemma_crowd_insert;
use crate::index::lemma_crowd_positive;
use crate::index::lemma_room_for_part;
use crate::random::random_below;
use crate::tiles::tile::Tile;
use crate::tiles::tile::signature_coords;
use crate::tiles::utils::flipped_coords;
use crate::tiles::utils::int_sqrt;
use crate::tiles::utils::lemma_mirrored_twice;
use std::collections::HashMap;
use vstd::prelude::*;
use vstd::set_lib::lemma_len_subset;

verus! {

broadcast use vstd::std_specs::hash::group_hash_axioms;

/// The tile catalog. Tile `i`, counted from 1, is `tiles[i - 1]`, and the
/// file behind it is the path at the same place.
#[derive(Clone, Debug)]
pub struct TileSet<T> {
    pub tiles: Vec<Tile<T>>,
    paths: Vec<String>,
    images: HashMap<u16, RgbImage>,
}

/// What a catalog is: its tiles, the files behind them, and the images that
/// have been loaded, by tile index.
pub struct TileSetView<T> {
    pub tiles: Seq<Tile<T>>,
    pub paths: Seq<String>,
    pub images: Map<u16, ImageView>,
}

impl<T> TileSetView<T> {
    /// Whether the catalog is in order: every tile has its file, the tiles
    /// are numbered from 1 without a gap in the order they stand in, and none
    /// is flipped.
    pub open spec fn wf(self) -> bool {
        &&& self.tiles.len() == self.paths.len()
        &&& self.tiles.len() <= u16::MAX
        &&& forall|i: int|
            0 <= i < self.tiles.len() ==> (#[trigger] self.tiles[i]).idx == i + 1
                && !self.tiles[i].flipped
    }

    /// Whether `tile` carries the index of a tile of the catalog.
    pub open spec fn holds<A>(self, tile: Tile<A>) -> bool {
        1 <= tile.idx <= self.paths.len()
    }
}

impl<T> View for TileSet<T> {
    type V = TileSetView<T>;

    closed spec fn view(&self) -> TileSetView<T> {
        TileSetView {
            tiles: self.tiles@,
            paths: self.paths@,
            images: self.images@.map_values(|image: RgbImage| image@),
        }
    }
}

/// The tile that a signed index names: the index without its sign.
pub open spec fn magnitude(item: i16) -> int {
    if item < 0 {
        -(item as int)
    } else {
        item as int
    }
}

/// The entries of the index over the first `count` tiles: each tile stands at
/// the point of its signature under its own index, and at the point of the
/// mirrored signature under the negated index.
pub open spec fn catalog_entries<const N: usize>(tiles: Seq<Tile<[Rgb; N]>>, count: int) -> Entries {
    Map::new(
        |item: i16| item != 0 && magnitude(item) <= count,
        |item: i16| signature_coords(tiles[magnitude(item) - 1].colors@, item < 0),
    )
}

/// One more tile gives the index two more entries.
pub proof fn lemma_catalog_step<const N: usize>(tiles: Seq<Tile<[Rgb; N]>>, count: int)
    requires
        0 <= count < i16::MAX,
    ensures
        catalog_entries(tiles, count + 1) == catalog_entries(tiles, count).insert(
            (count + 1) as i16,
            signature_coords(tiles[count].colors@, false),
        ).insert((-(count + 1)) as i16, signature_coords(tiles[count].colors@, true)),
        !catalog_entries(tiles, count).dom().contains((count + 1) as i16),
        !catalog_entries(tiles, count).dom().contains((-(count + 1)) as i16),
{
    let grown = catalog_entries(tiles, count).insert(
        (count + 1) as i16,
        signature_coords(tiles[count].colors@, false),
    ).insert((-(count + 1)) as i16, signature_coords(tiles[count].colors@, true));
    assert(catalog_entries(tiles, count + 1) =~= grown);
}

/// The index over a catalog has finitely many entries: two to a tile.
pub proof fn lemma_catalog_finite<const N: usize>(tiles: Seq<Tile<[Rgb; N]>>, count: int)
    requires
        0 <= count <= i16::MAX,
    ensures
        catalog_entries(tiles, count).dom().finite(),
        catalog_entries(tiles, count).dom().len() == 2 * count,
    decreases count,
{
    if count == 0 {
        assert(catalog_entries(tiles, 0).dom() =~= Set::<i16>::empty());
    } else {
        lemma_catalog_finite(tiles, count - 1);
        lemma_catalog_step(tiles, count - 1);
    }
}

/// An index that holds the entries of a catalog's first `count` tiles, and
/// no more entries than an index takes, holds two entries to a tile.
pub proof fn lemma_catalog_size<const N: usize>(tiles: Seq<Tile<[Rgb; N]>>, count: int)
    requires
        0 <= count <= u16::MAX,
        catalog_entries(tiles, count).dom().finite(),
        catalog_entries(tiles, count).dom().len() <= MAX_ENTRIES,
    ensures
        catalog_entries(tiles, count).dom().len() == 2 * count,
        2 * count <= MAX_ENTRIES,
{
    if count > 16383 {
        lemma_catalog_finite(tiles, 16384);
        lemma_len_subset(catalog_entries(tiles, 16384).dom(), catalog_entries(tiles, count).dom());
    } else {
        lemma_catalog_finite(tiles, count);
    }
}

/// The index over no more than 160 tiles has room: it has no more than half
/// a bucketful of entries at all.
pub proof fn lemma_small_catalog_has_room<const N: usize>(
    tiles: Seq<Tile<[Rgb; N]>>,
    count: int,
    dimension: nat,
)
    requires
        0 <= count,
        2 * count <= HALF_BUCKET,
    ensures
        has_room(catalog_entries(tiles, count), dimension),
{
    lemma_catalog_finite(tiles, count);
    let entries = catalog_entries(tiles, count);
    assert forall|axis: int| 0 <= axis < dimension implies #[trigger] axis_has_room(
        entries,
        axis,
    ) by {
        assert forall|value: u8| #[trigger] crowd(entries, axis, value) <= HALF_BUCKET by {
            lemma_len_subset(crowd_set(entries, axis, value), entries.dom());
        }
    }
}

impl<T> TileSet<T> {
    /// An empty catalog.
    pub fn new() -> (set: TileSet<T>)
        ensures
            set@.wf(),
            set@.tiles.len() == 0,
            set@.images == Map::<u16, ImageView>::empty(),
    {
        TileSet::from_tiles(Vec::new(), Vec::new())
    }

    /// The catalog of the given tiles and files, with no image loaded. It is
    /// in order if the tiles and files are.
    pub fn from_tiles(tiles: Vec<Tile<T>>, paths: Vec<String>) -> (set: TileSet<T>)
        ensures
            set@.tiles == tiles@,
            set@.paths == paths@,
            set@.images == Map::<u16, ImageView>::empty(),
    {
        let set = TileSet { tiles, paths, images: HashMap::new() };
        assert(set@.images =~= Map::<u16, ImageView>::empty());
        set
    }

    /// The catalog of the tiles with the given files and colours, numbered
    /// in the order they are given in, or `None` where there are more than
    /// tile indices can count.
    pub fn from_entries(entries: Vec<(String, T)>) -> (set: Option<TileSet<T>>)
        ensures
            set is Some <==> entries@.len() <= u16::MAX,
            set is Some ==> {
                let made = set->0@;
                &&& made.wf()
                &&& made.tiles.len() == entries@.len()
                &&& made.images == Map::<u16, ImageView>::empty()
                &&& forall|i: int|
                    0 <= i < entries@.len() ==> (#[trigger] made.tiles[i]).colors == entries@[i].1
                        && made.tiles[i].date_taken is None && made.paths[i] == entries@[i].0
            },
    {
        if entries.len() > 65535 {
            return None;
        }
        let ghost given = entries@;
        let mut rest = entries;
        let mut turned: Vec<(String, T)> = Vec::new();
        while rest.len() > 0
            invariant
                rest@ == given.subrange(0, rest@.len() as int),
                rest@.len() + turned@.len() == given.len(),
                forall|k: int| 0 <= k < turned@.len() ==> #[trigger] turned@[k] == given[given.len() - 1 - k],
            decreases rest@.len(),
        {
            let entry = rest.pop().unwrap();
            turned.push(entry);
        }
        let mut set: TileSet<T> = TileSet::new();
        while turned.len() > 0
            invariant
                given.len() <= u16::MAX,
                set@.tiles.len() + turned@.len() == given.len(),
                forall|k: int| 0 <= k < turned@.len() ==> #[trigger] turned@[k] == given[given.len() - 1 - k],
                set@.wf(),
                set@.images == Map::<u16, ImageView>::empty(),
                forall|i: int|
                    0 <= i < set@.tiles.len() ==> (#[trigger] set@.tiles[i]).colors == given[i].1
                        && set@.tiles[i].date_taken is None && set@.paths[i] == given[i].0,
            decreases turned@.len(),
        {
            let ghost k = turned@.len() - 1;
            let (path, colors) = turned.pop().unwrap();
            assert(given.len() - 1 - k == set@.tiles.len());
            set.push_tile(path, colors);
        }
        Some(set)
    }

    /// Whether the catalog is in order.
    pub fn is_consistent(&self) -> (good: bool)
        ensures
            good == self@.wf(),
    {
        if self.tiles.len() != self.paths.len() || self.tiles.len() > 65535 {
            return false;
        }
        let mut i: usize = 0;
        while i < self.tiles.len()
            invariant
                i <= self.tiles@.len(),
                self.tiles@.len() <= u16::MAX,
                forall|k: int|
                    0 <= k < i ==> (#[trigger] self.tiles@[k]).idx == k + 1
                        && !self.tiles@[k].flipped,
            decreases self.tiles@.len() - i,
        {
            if self.tiles[i].idx as usize != i + 1 || self.tiles[i].flipped {
                return false;
            }
            i += 1;
        }
        true
    }

    /// Some tile of the catalog, picked at random.
    pub fn random_tile(&self) -> (tile: &Tile<T>)
        requires
            self@.tiles.len() > 0,
        ensures
            exists|i: int| 0 <= i < self@.tiles.len() && *tile == #[trigger] self@.tiles[i],
    {
        let i = random_below(self.tiles.len());
        &self.tiles[i]
    }

    /// The number of tiles.
    pub fn len(&self) -> (count: usize)
        ensures
            count == self@.tiles.len(),
    {
        self.tiles.len()
    }

    /// The same catalog with `f` applied to the colours of every tile.
    pub fn map<T1, F: Fn(T) -> T1>(self, f: F) -> (mapped: TileSet<T1>)
        requires
            forall|i: int|
                0 <= i < self@.tiles.len() ==> f.requires(((#[trigger] self@.tiles[i]).colors,)),
        ensures
            mapped@.tiles.len() == self@.tiles.len(),
            forall|i: int|
                0 <= i < self@.tiles.len() ==> {
                    let was = self@.tiles[i];
                    let is = #[trigger] mapped@.tiles[i];
                    &&& f.ensures((was.colors,), is.colors)
                    &&& is.idx == was.idx
                    &&& is.flipped == was.flipped
                    &&& is.date_taken == was.date_taken
                },
            mapped@.paths == self@.paths,
            mapped@.images == self@.images,
    {
        let TileSet { tiles, paths, images } = self;
        let ghost given = tiles@;
        let mut rest = tiles;
        let mut turned: Vec<Tile<T1>> = Vec::new();
        while rest.len() > 0
            invariant
                rest@ == given.subrange(0, rest@.len() as int),
                rest@.len() + turned@.len() == given.len(),
                forall|i: int| 0 <= i < given.len() ==> f.requires(((#[trigger] given[i]).colors,)),
                forall|k: int|
                    0 <= k < turned@.len() ==> {
                        let was = given[given.len() - 1 - k];
                        let is = #[trigger] turned@[k];
                        &&& f.ensures((was.colors,), is.colors)
                        &&& is.idx == was.idx
                        &&& is.flipped == was.flipped
                        &&& is.date_taken == was.date_taken
                    },
            decreases rest@.len(),
        {
            let tile = rest.pop().unwrap();
            assert(tile == given[rest@.len() as int]);
            turned.push(tile.map(&f));
        }
        let mut mapped: Vec<Tile<T1>> = Vec::new();
        while turned.len() > 0
            invariant
                mapped@.len() + turned@.len() == given.len(),
                forall|k: int|
                    0 <= k < turned@.len() ==> {
                        let was = given[given.len() - 1 - k];
                        let is = #[trigger] turned@[k];
                        &&& f.ensures((was.colors,), is.colors)
                        &&& is.idx == was.idx
                        &&& is.flipped == was.flipped
                        &&& is.date_taken == was.date_taken
                    },
                forall|i: int|
                    0 <= i < mapped@.len() ==> {
                        let was = given[i];
                        let is = #[trigger] mapped@[i];
                        &&& f.ensures((was.colors,), is.colors)
                        &&& is.idx == was.idx
                        &&& is.flipped == was.flipped
                        &&& is.date_taken == was.date_taken
                    },
            decreases turned@.len(),
        {
            let ghost k = turned@.len() - 1;
            let tile = turned.pop().unwrap();
            assert(given.len() - 1 - k == mapped@.len());
            mapped.push(tile);
        }
        TileSet { tiles: mapped, paths, images }
    }

    /// Appends a tile with the given colours, backed by the file at `path`,
    /// and returns its index: the number of tiles there are now.
    pub fn push_tile(&mut self, path: String, colors: T) -> (idx: u16)
        requires
            old(self)@.wf(),
            old(self)@.tiles.len() < u16::MAX,
        ensures
            final(self)@.wf(),
            idx == old(self)@.tiles.len() + 1,
            final(self)@.tiles == old(self)@.tiles.push(
                Tile { colors, idx, flipped: false, date_taken: None },
            ),
            final(self)@.paths == old(self)@.paths.push(path),
            final(self)@.images == old(self)@.images,
    {
        let idx = self.tiles.len() as u16 + 1;
        self.tiles.push(Tile::new(idx, colors));
        self.paths.push(path);
        idx
    }

    /// Appends a tile as `push_tile` does and keeps `image` as its image.
    pub fn push_tile_with_image(&mut self, path: String, colors: T, image: RgbImage) -> (idx: u16)
        requires
            old(self)@.wf(),
            old(self)@.tiles.len() < u16::MAX,
        ensures
            final(self)@.wf(),
            idx == old(self)@.tiles.len() + 1,
            final(self)@.tiles == old(self)@.tiles.push(
                Tile { colors, idx, flipped: false, date_taken: None },
            ),
            final(self)@.paths == old(self)@.paths.push(path),
            final(self)@.images == old(self)@.images.insert(idx, image@),
    {
        let idx = self.tiles.len() as u16 + 1;
        self.tiles.push(Tile::new(idx, colors));
        self.paths.push(path);
        let ghost held = self.images@;
        self.images.insert(idx, image);
        assert(self@.images =~= held.map_values(|image: RgbImage| image@).insert(idx, image@));
        idx
    }

    /// The tile that the signed index names: the tile whose index is `idx`
    /// without its sign, flipped if `idx` is negative. There is none for 0
    /// and for an index past the last tile.
    pub fn get_tile(&self, idx: i16) -> (found: Option<Tile<T>>) where T: Copy
        requires
            self@.wf(),
        ensures
            found is Some <==> idx != 0 && magnitude(idx) <= self@.tiles.len(),
            found is Some ==> {
                let tile = found->0;
                let stored = self@.tiles[magnitude(idx) - 1];
                &&& tile.idx == magnitude(idx)
                &&& tile.flipped == (idx < 0)
                &&& tile.colors == stored.colors
                &&& tile.date_taken == stored.date_taken
            },
    {
        if idx == 0 {
            return None;
        }
        let at: usize = if idx < 0 {
            (-(idx as i32)) as usize
        } else {
            idx as usize
        };
        if at > self.tiles.len() {
            return None;
        }
        let stored = &self.tiles[at - 1];
        let date_taken = match &stored.date_taken {
            Some(date) => Some(date.clone()),
            None => None,
        };
        Some(Tile { colors: stored.colors, idx: stored.idx, flipped: idx < 0, date_taken })
    }

    /// The image of `tile` as the catalog holds it, mirrored left to right
    /// if the tile is flipped. The catalog reads no files: where it holds no
    /// image for the tile, the call fails and names the file.
    pub fn get_image(&self, tile: &Tile<T>, tile_size: u32) -> (loaded: Result<RgbImage, ImageError>)
        requires
            self@.holds(*tile),
        ensures
            loaded is Ok <==> self@.images.contains_key(tile.idx),
            loaded is Ok ==> loaded->Ok_0@.wf() && (if tile.flipped {
                loaded->Ok_0@.mirrors(self@.images[tile.idx])
            } else {
                loaded->Ok_0@ == self@.images[tile.idx]
            }),
            loaded is Err ==> loaded->Err_0.kind == ImageErrorKind::NotLoaded
                && loaded->Err_0.path == self@.paths[tile.idx - 1],
    {
        match self.images.get(&tile.idx) {
            Some(image) => {
                if tile.flipped {
                    Ok(image.flip_horizontal())
                } else {
                    Ok(image.clone())
                }
            },
            None => Err(
                ImageError { path: self.get_path(tile).clone(), kind: ImageErrorKind::NotLoaded },
            ),
        }
    }

    /// The file behind `tile`.
    pub fn get_path<A>(&self, tile: &Tile<A>) -> (path: &String)
        requires
            self@.holds(*tile),
        ensures
            *path == self@.paths[tile.idx - 1],
    {
        &self.paths[tile.idx as usize - 1]
    }

    /// Keeps `image` as the image of `tile`, in place of any held before.
    pub fn set_image(&mut self, tile: &Tile<T>, image: RgbImage)
        ensures
            final(self)@.tiles == old(self)@.tiles,
            final(self)@.paths == old(self)@.paths,
            final(self)@.images == old(self)@.images.insert(tile.idx, image@),
    {
        let ghost held = self.images@;
        self.images.insert(tile.idx, image);
        assert(self@.images =~= held.map_values(|image: RgbImage| image@).insert(
            tile.idx,
            image@,
        ));
    }
}

impl<T> Default for TileSet<T> {
    fn default() -> (set: TileSet<T>)
        ensures
            set@.wf(),
            set@.tiles.len() == 0,
    {
        TileSet::new()
    }
}

/// Where the count of the entries with coordinate `value` on `axis` is kept.
pub open spec fn load_slot(axis: int, value: int) -> int {
    axis * 256 + value
}

/// Whether `loads` counts, for every axis and value, the entries that crowd
/// there: those of `after` on the axes below `done`, those of `before` on
/// the others.
pub open spec fn loads_count(
    loads: Seq<u16>,
    before: Entries,
    after: Entries,
    done: int,
    dimension: int,
) -> bool {
    &&& loads.len() == dimension * 256
    &&& forall|axis: int, value: u8|
        0 <= axis < dimension ==> (#[trigger] loads[load_slot(axis, value as int)]) == crowd(
            if axis < done {
                after
            } else {
                before
            },
            axis,
            value,
        )
}

/// Counts a new entry at `point` into `loads`.
fn count_entry(
    loads: &mut Vec<u16>,
    point: &Vec<u8>,
    Ghost(before): Ghost<Entries>,
    Ghost(item): Ghost<i16>,
)
    requires
        before.dom().finite(),
        before.dom().len() < u16::MAX,
        !before.dom().contains(item),
        point@.len() * 256 <= usize::MAX,
        loads_count(old(loads)@, before, before, 0, point@.len() as int),
    ensures
        loads_count(
            final(loads)@,
            before.insert(item, point@),
            before.insert(item, point@),
            0,
            point@.len() as int,
        ),
{
    let ghost after = before.insert(item, point@);
    let ghost dimension = point@.len() as int;
    let mut axis: usize = 0;
    while axis < point.len()
        invariant
            axis <= point@.len(),
            dimension == point@.len(),
            dimension * 256 <= usize::MAX,
            after == before.insert(item, point@),
            before.dom().finite(),
            before.dom().len() < u16::MAX,
            !before.dom().contains(item),
            loads_count(loads@, before, after, axis as int, dimension),
        decreases point@.len() - axis,
    {
        let value = point[axis];
        let slot = axis * 256 + value as usize;
        let ghost counted = loads@;
        proof {
            assert(counted[load_slot(axis as int, value as int)] == crowd(before, axis as int, value));
            lemma_len_subset(crowd_set(before, axis as int, value), before.dom());
        }
        let load = loads[slot] + 1;
        loads[slot] = load;
        proof {
            assert forall|a: int, v: u8| 0 <= a < dimension implies (#[trigger] loads@[load_slot(
                a,
                v as int,
            )]) == crowd(
                if a < axis + 1 {
                    after
                } else {
                    before
                },
                a,
                v,
            ) by {
                assert(counted[load_slot(a, v as int)] == crowd(
                    if a < axis {
                        after
                    } else {
                        before
                    },
                    a,
                    v,
                ));
                if a == axis {
                    lemma_crowd_insert(before, item, point@, a, v);
                }
            }
        }
        axis += 1;
    }
    proof {
        assert(loads_count(loads@, after, after, 0, dimension));
    }
}

/// Whether the counted entries leave the tree room to split its buckets
/// along `axis`.
fn axis_room(loads: &Vec<u16>, axis: usize, Ghost(entries): Ghost<Entries>, Ghost(dimension): Ghost<
    int,
>) -> (room: bool)
    requires
        entries.dom().finite(),
        axis < dimension,
        dimension * 256 <= usize::MAX,
        loads_count(loads@, entries, entries, 0, dimension),
    ensures
        room == axis_has_room(entries, axis as int),
{
    let mut most: u16 = 0;
    let mut first: Option<u8> = None;
    let mut second: Option<u8> = None;
    let mut more = false;
    let ghost mut third: u8 = 0;
    let mut value: usize = 0;
    while value < 256
        invariant
            value <= 256,
            axis < dimension,
            dimension * 256 <= usize::MAX,
            loads_count(loads@, entries, entries, 0, dimension),
            forall|v: u8| v < value ==> #[trigger] crowd(entries, axis as int, v) <= most,
            most == 0 || exists|v: u8| v < value && #[trigger] crowd(entries, axis as int, v) == most,
            forall|v: u8|
                v < value && #[trigger] crowd(entries, axis as int, v) > 0 ==> more || first == Some(
                    v,
                ) || second == Some(v),
            first is Some ==> first->0 < value && crowd(entries, axis as int, first->0) > 0,
            second is Some ==> second->0 < value && crowd(entries, axis as int, second->0) > 0
                && first is Some && first->0 != second->0,
            more ==> first is Some && second is Some && third != first->0 && third != second->0
                && crowd(entries, axis as int, third) > 0,
        decreases 256 - value,
    {
        let load = loads[axis * 256 + value];
        proof {
            assert(loads@[load_slot(axis as int, value as int)] == crowd(
                entries,
                axis as int,
                value as u8,
            ));
        }
        if load > most {
            most = load;
        }
        if load > 0 {
            if first.is_none() {
                first = Some(value as u8);
            } else if second.is_none() {
                second = Some(value as u8);
            } else {
                more = true;
                proof {
                    third = value as u8;
                }
            }
        }
        value += 1;
    }
    proof {
        assert forall|v: u8| #[trigger] crowd(entries, axis as int, v) <= most by {}
        if !more {
            let a = if first is Some {
                first->0
            } else {
                0u8
            };
            let b = if second is Some {
                second->0
            } else {
                a
            };
            assert(is_two_valued(entries, axis as int, a, b)) by {
                assert forall|item: i16| entries.dom().contains(item) implies (
                #[trigger] entries[item])[axis as int] == a || entries[item][axis as int] == b by {
                    let v = entries[item][axis as int];
                    lemma_crowd_positive(entries, axis as int, v);
                    assert(crowd(entries, axis as int, v) > 0);
                }
            }
        } else {
            assert forall|a: u8, b: u8| !is_two_valued(entries, axis as int, a, b) by {
                let odd = if first->0 != a && first->0 != b {
                    first->0
                } else if second->0 != a && second->0 != b {
                    second->0
                } else {
                    third
                };
                lemma_crowd_positive(entries, axis as int, odd);
                let item = choose|item: i16|
                    entries.dom().contains(item) && (#[trigger] entries[item])[axis as int] == odd;
                assert(entries[item][axis as int] != a && entries[item][axis as int] != b);
            }
        }
        if most > 0 {
            let v = choose|v: u8| v < 256 && #[trigger] crowd(entries, axis as int, v) == most;
            assert(crowd(entries, axis as int, v) == most);
        }
    }
    most <= 320 || (!more && most < 640)
}

/// Whether the counted entries leave the tree room to split its buckets
/// along every axis.
fn have_room(loads: &Vec<u16>, dimension: usize, Ghost(entries): Ghost<Entries>) -> (room: bool)
    requires
        entries.dom().finite(),
        dimension * 256 <= usize::MAX,
        loads_count(loads@, entries, entries, 0, dimension as int),
    ensures
        room == has_room(entries, dimension as nat),
{
    let mut axis: usize = 0;
    while axis < dimension
        invariant
            axis <= dimension,
            entries.dom().finite(),
            dimension * 256 <= usize::MAX,
            loads_count(loads@, entries, entries, 0, dimension as int),
            forall|a: int| 0 <= a < axis ==> #[trigger] axis_has_room(entries, a),
        decreases dimension - axis,
    {
        if !axis_room(loads, axis, Ghost(entries), Ghost(dimension as int)) {
            return false;
        }
        axis += 1;
    }
    true
}

impl<const N: usize> TileSet<[Rgb; N]> {
    /// The entries of the index over the whole catalog.
    pub open spec fn entries(&self) -> Entries {
        catalog_entries(self@.tiles, self@.tiles.len() as int)
    }

    /// Counts, for every axis and coordinate, the entries of the index over
    /// the catalog that have the coordinate on the axis.
    fn count_entries<const K: usize>(&self) -> (loads: Vec<u16>)
        requires
            self@.wf(),
            K == 3 * N,
            0 < K <= MAX_DIMENSION,
            2 * self@.tiles.len() <= MAX_ENTRIES,
        ensures
            loads_count(loads@, self.entries(), self.entries(), 0, K as int),
    {
        let ghost tiles = self@.tiles;
        let count = self.tiles.len();
        let mut loads: Vec<u16> = Vec::new();
        let mut slot: usize = 0;
        while slot < K * 256
            invariant
                slot <= K * 256,
                K <= MAX_DIMENSION,
                loads@.len() == slot,
                forall|k: int| 0 <= k < slot ==> loads@[k] == 0,
            decreases K * 256 - slot,
        {
            loads.push(0);
            slot += 1;
        }
        proof {
            assert forall|axis: int, value: u8| 0 <= axis < K implies (#[trigger] loads@[load_slot(
                axis,
                value as int,
            )]) == crowd(Entries::empty(), axis, value) by {
                lemma_crowd_empty(axis, value);
            }
            assert(catalog_entries(tiles, 0) =~= Entries::empty());
        }
        let mut i: usize = 0;
        while i < count
            invariant
                i <= count,
                count == tiles.len(),
                2 * count <= MAX_ENTRIES,
                tiles == self@.tiles,
                self@.wf(),
                K == 3 * N,
                0 < K <= MAX_DIMENSION,
                loads_count(
                    loads@,
                    catalog_entries(tiles, i as int),
                    catalog_entries(tiles, i as int),
                    0,
                    K as int,
                ),
            decreases count - i,
        {
            let tile = &self.tiles[i];
            let ghost idx: i16 = tile.idx as i16;
            let mut coords = tile.coords();
            proof {
                lemma_catalog_step(tiles, i as int);
                lemma_catalog_finite(tiles, i as int);
            }
            let ghost first = catalog_entries(tiles, i as int);
            count_entry(&mut loads, &coords, Ghost(first), Ghost(idx));
            flipped_coords(coords.as_mut_slice());
            let ghost second = first.insert(idx, signature_coords(tile.colors@, false));
            count_entry(&mut loads, &coords, Ghost(second), Ghost((-idx) as i16));
            i += 1;
        }
        loads
    }

    /// Builds the spatial index over the catalog: every tile stands in it
    /// twice, at the point of its signature under its own index and at the
    /// point of the mirrored signature under the negated index. `K` is the
    /// number of coordinates of a point, three to a cell. The index takes at
    /// most 16383 tiles, and the entries must leave it room to split its
    /// buckets: on every axis no more than 320 entries share a coordinate, or
    /// the entries have no more than two different coordinates and less than
    /// 640 share one.
    pub fn build_kiddo<const K: usize>(&self) -> (built: Result<SpatialIndex<K>, IndexError>)
        requires
            self@.wf(),
        ensures
            built is Ok ==> built->Ok_0@ == self.entries(),
            built == Err::<SpatialIndex<K>, IndexError>(IndexError::Dimension) <==> (K != 3 * N || K
                == 0 || K > MAX_DIMENSION),
            built == Err::<SpatialIndex<K>, IndexError>(IndexError::TooManyTiles) <==> (K == 3 * N
                && 0 < K <= MAX_DIMENSION && 2 * self@.tiles.len() > MAX_ENTRIES),
            built == Err::<SpatialIndex<K>, IndexError>(IndexError::Crowded) <==> (K == 3 * N && 0
                < K <= MAX_DIMENSION && 2 * self@.tiles.len() <= MAX_ENTRIES && !has_room(
                self.entries(),
                K as nat,
            )),
    {
        if K % 3 != 0 || K / 3 != N {
            return Err(IndexError::Dimension);
        }
        let made = SpatialIndex::<K>::new();
        if made.is_none() {
            return Err(IndexError::Dimension);
        }
        let mut index = made.unwrap();
        let count = self.tiles.len();
        if count > 16383 {
            return Err(IndexError::TooManyTiles);
        }
        let ghost tiles = self@.tiles;
        proof {
            lemma_catalog_finite(tiles, count as int);
        }
        let loads = self.count_entries::<K>();
        if !have_room(&loads, K, Ghost(self.entries())) {
            return Err(IndexError::Crowded);
        }
        proof {
            assert(catalog_entries(tiles, 0) =~= Entries::empty());
        }
        let mut i: usize = 0;
        while i < count
            invariant
                i <= count,
                count == tiles.len(),
                count <= 16383,
                tiles == self@.tiles,
                self@.wf(),
                K == 3 * N,
                0 < K <= MAX_DIMENSION,
                catalog_entries(tiles, count as int).dom().finite(),
                has_room(catalog_entries(tiles, count as int), K as nat),
                index@ == catalog_entries(tiles, i as int),
                index.added() == 2 * i,
            decreases count - i,
        {
            let tile = &self.tiles[i];
            let idx: i16 = tile.idx as i16;
            let mut coords = tile.coords();
            proof {
                lemma_catalog_step(tiles, i as int);
                lemma_room_for_part(index@, catalog_entries(tiles, count as int), K as nat);
            }
            index.add(&coords, idx);
            flipped_coords(coords.as_mut_slice());
            proof {
                lemma_room_for_part(index@, catalog_entries(tiles, count as int), K as nat);
            }
            index.add(&coords, -idx);
            i += 1;
        }
        Ok(index)
    }
}

} // verus!
