//! The record of a render: which tile went where, and how well it matched.

use crate::color::ImageView;
use crate::color::Rgb;
use crate::color::RgbImage;
use crate::tiles::tile::Tile;
use std::collections::HashMap;
use vstd::prelude::*;

verus! {

broadcast use vstd::std_specs::hash::group_hash_axioms;

/// The key under which the tile placed at `(x, y)` is recorded.
pub open spec fn position_key(x: u32, y: u32) -> u64 {
    (x as u64 * 0x1_0000_0000 + y as u64) as u64
}

/// The `x` of the position that is recorded under `key`.
pub open spec fn key_x(key: u64) -> int {
    key as int / 0x1_0000_0000
}

/// The `y` of the position that is recorded under `key`.
pub open spec fn key_y(key: u64) -> int {
    key as int % 0x1_0000_0000
}

/// The key under which the tile placed at `(x, y)` is recorded.
pub fn key_of(x: u32, y: u32) -> (key: u64)
    ensures
        key == position_key(x, y),
        key_x(key) == x,
        key_y(key) == y,
{
    x as u64 * 0x1_0000_0000 + y as u64
}

/// The position that is recorded under `key`.
pub fn position_of(key: u64) -> (position: (u32, u32))
    ensures
        position_key(position.0, position.1) == key,
        position.0 == key_x(key),
        position.1 == key_y(key),
{
    ((key / 0x1_0000_0000) as u32, (key % 0x1_0000_0000) as u32)
}

/// What a render placed: for each position that got a tile, the tile with
/// the distance of its match in place of its colours. Its view maps the key
/// of each position to the tile recorded there.
pub struct RenderStats<D> {
    records: Records<D>,
}

/// The recorded tiles by the keys of their positions, and the keys in the
/// order in which they were recorded.
struct Records<D> {
    tiles: HashMap<u64, Tile<D>>,
    order: Vec<u64>,
}

impl<D> View for RenderStats<D> {
    type V = Map<u64, Tile<D>>;

    closed spec fn view(&self) -> Map<u64, Tile<D>> {
        self.records.tiles@
    }
}

impl<D> RenderStats<D> {
    #[verifier::type_invariant]
    spec fn well_formed(&self) -> bool {
        &&& forall|i: int|
            0 <= i < self.records.order@.len() ==> self.records.tiles@.contains_key(
                #[trigger] self.records.order@[i],
            )
        &&& forall|key: u64| #[trigger]
            self.records.tiles@.contains_key(key) ==> self.records.order@.contains(key)
    }

    /// A record without placements.
    pub fn new() -> (stats: RenderStats<D>)
        ensures
            stats@ == Map::<u64, Tile<D>>::empty(),
    {
        RenderStats { records: Records { tiles: HashMap::new(), order: Vec::new() } }
    }

    /// Records that `tile` was placed at `(x, y)` with the given distance, in
    /// place of any tile recorded there before.
    pub fn push_tile<T>(&mut self, x: u32, y: u32, tile: &Tile<T>, distance: D)
        ensures
            final(self)@ == old(self)@.insert(
                position_key(x, y),
                Tile {
                    colors: distance,
                    idx: tile.idx,
                    flipped: tile.flipped,
                    date_taken: tile.date_taken,
                },
            ),
    {
        proof {
            use_type_invariant(&*self);
        }
        let date_taken = match &tile.date_taken {
            Some(date) => Some(date.clone()),
            None => None,
        };
        let stats_tile = Tile { colors: distance, idx: tile.idx, flipped: tile.flipped, date_taken };
        let key = key_of(x, y);
        let mut records = Records { tiles: HashMap::new(), order: Vec::new() };
        core::mem::swap(&mut self.records, &mut records);
        let ghost before = records.order@;
        records.tiles.insert(key, stats_tile);
        records.order.push(key);
        proof {
            assert forall|other: u64| #[trigger]
                records.tiles@.contains_key(other) implies records.order@.contains(other) by {
                if other == key {
                    assert(records.order@[before.len() as int] == key);
                } else {
                    let i = choose|i: int| 0 <= i < before.len() && before[i] == other;
                    assert(records.order@[i] == other);
                }
            }
        }
        core::mem::swap(&mut self.records, &mut records);
    }

    /// The number of positions with a tile recorded.
    pub fn tile_count(&self) -> (count: usize)
        ensures
            count == self@.dom().len(),
            self@.dom().finite(),
    {
        self.records.tiles.len()
    }

    /// The tile recorded at `(x, y)`, if there is one.
    pub fn get(&self, x: u32, y: u32) -> (found: Option<&Tile<D>>)
        ensures
            found is Some <==> self@.contains_key(position_key(x, y)),
            found is Some ==> *found->0 == self@[position_key(x, y)],
    {
        let key = key_of(x, y);
        self.records.tiles.get(&key)
    }

    /// The recorded tiles by the keys of their positions.
    pub fn tiles(&self) -> (tiles: &HashMap<u64, Tile<D>>)
        ensures
            tiles@ == self@,
    {
        &self.records.tiles
    }
}

impl<D: Clone> Clone for RenderStats<D> {
    fn clone(&self) -> (copy: RenderStats<D>)
        ensures
            copy@ == self@,
    {
        proof {
            use_type_invariant(self);
        }
        let tiles = self.records.tiles.clone();
        let mut order: Vec<u64> = Vec::new();
        let mut i: usize = 0;
        while i < self.records.order.len()
            invariant
                i <= self.records.order@.len(),
                order@ == self.records.order@.subrange(0, i as int),
            decreases self.records.order@.len() - i,
        {
            order.push(self.records.order[i]);
            i += 1;
        }
        assert(order@ == self.records.order@);
        RenderStats { records: Records { tiles, order } }
    }
}

impl<D> Default for RenderStats<D> {
    fn default() -> (stats: RenderStats<D>)
        ensures
            stats@ == Map::<u64, Tile<D>>::empty(),
    {
        RenderStats::new()
    }
}

/// Whether `most` is the greatest distance on record.
pub open spec fn is_greatest_distance(stats: Map<u64, Tile<u32>>, most: u32) -> bool {
    &&& exists|key: u64| #[trigger] stats.contains_key(key) && stats[key].colors == most
    &&& forall|key: u64| #[trigger] stats.contains_key(key) ==> stats[key].colors <= most
}

/// How bright a distance is shown where `most` is the greatest: as many
/// 255ths as the distance has of the greatest, rounded down.
pub open spec fn shade(distance: u32, most: u32) -> int {
    if most > 0 {
        distance * 255 / most as int
    } else {
        0
    }
}

/// The grey of the given brightness.
pub open spec fn grey(brightness: int) -> Rgb {
    Rgb::of(brightness, brightness, brightness)
}

/// Whether the record under `key` belongs to the pixel `(px, py)` of the map
/// of distances, a pixel standing for `tile_size` by `tile_size` positions.
pub open spec fn lands_on(key: u64, tile_size: u32, px: int, py: int) -> bool {
    key_x(key) / tile_size as int == px && key_y(key) / tile_size as int == py
}

/// Whether `image` is the map of the recorded distances: just wide and high
/// enough for the records, grey where a record lands, the brighter the
/// greater its distance, and black elsewhere. Where several records land on
/// one pixel it shows one of them.
pub open spec fn is_distance_map(image: ImageView, stats: Map<u64, Tile<u32>>, tile_size: u32) -> bool {
    &&& image.wf()
    &&& exists|key: u64| #[trigger]
        stats.contains_key(key) && key_x(key) / tile_size as int + 1 == image.width
    &&& exists|key: u64| #[trigger]
        stats.contains_key(key) && key_y(key) / tile_size as int + 1 == image.height
    &&& forall|key: u64| #[trigger]
        stats.contains_key(key) ==> image.contains(
            key_x(key) / tile_size as int,
            key_y(key) / tile_size as int,
        )
    &&& exists|most: u32|
        #![trigger is_greatest_distance(stats, most)]
        is_greatest_distance(stats, most) && forall|px: int, py: int|
            image.contains(px, py) ==> shows_distance(
                #[trigger] image.pixel(px, py),
                stats,
                tile_size,
                most,
                px,
                py,
            )
}

/// Whether `pixel` is what the map of distances shows at `(px, py)`: the grey
/// of a record that lands there, or black where none does.
pub open spec fn shows_distance(
    pixel: Rgb,
    stats: Map<u64, Tile<u32>>,
    tile_size: u32,
    most: u32,
    px: int,
    py: int,
) -> bool {
    if exists|key: u64| #[trigger] stats.contains_key(key) && lands_on(key, tile_size, px, py) {
        exists|key: u64| #[trigger]
            stats.contains_key(key) && lands_on(key, tile_size, px, py) && pixel == grey(
                shade(stats[key].colors, most),
            )
    } else {
        pixel == Rgb([0, 0, 0])
    }
}

impl RenderStats<u32> {
    /// Whether the map of the recorded distances fits in memory.
    pub open spec fn map_fits(&self, tile_size: u32) -> bool {
        forall|a: u64, b: u64|
            #![trigger self@.contains_key(a), self@.contains_key(b)]
            self@.contains_key(a) && self@.contains_key(b) ==> {
                let width = key_x(a) / tile_size as int + 1;
                let height = key_y(b) / tile_size as int + 1;
                width <= u32::MAX && height <= u32::MAX && width * height <= usize::MAX
            }
    }

    /// Draws the map of the recorded distances: one pixel for `tile_size` by
    /// `tile_size` positions, grey where a tile is recorded, the brighter the
    /// worse the tile matched, and black elsewhere. There must be a record,
    /// and the map must fit in memory.
    pub fn render(self, tile_size: u32) -> (image: RgbImage)
        requires
            self@.dom().len() > 0,
            tile_size > 0,
            self.map_fits(tile_size),
        ensures
            is_distance_map(image@, self@, tile_size),
    {
        proof {
            use_type_invariant(&self);
        }
        let count = self.tile_count();
        let ghost stats = self@;
        let ghost order = self.records.order@;
        proof {
            let some = stats.dom().choose();
            assert(stats.contains_key(some));
            assert(order.contains(some));
        }
        let first = position_of(self.records.order[0]);
        let mut max_x: u32 = first.0;
        let mut max_y: u32 = first.1;
        let mut most: u32 = self.records.tiles.get(&self.records.order[0]).unwrap().colors;
        let mut i: usize = 1;
        while i < self.records.order.len()
            invariant
                1 <= i <= order.len(),
                order == self.records.order@,
                stats == self.records.tiles@,
                forall|k: int| 0 <= k < order.len() ==> stats.contains_key(#[trigger] order[k]),
                forall|k: int| 0 <= k < i ==> key_x(#[trigger] order[k]) <= max_x,
                forall|k: int| 0 <= k < i ==> key_y(#[trigger] order[k]) <= max_y,
                forall|k: int| 0 <= k < i ==> stats[#[trigger] order[k]].colors <= most,
                exists|k: int| 0 <= k < i && key_x(#[trigger] order[k]) == max_x,
                exists|k: int| 0 <= k < i && key_y(#[trigger] order[k]) == max_y,
                exists|k: int| 0 <= k < i && stats[#[trigger] order[k]].colors == most,
            decreases order.len() - i,
        {
            let key = self.records.order[i];
            let position = position_of(key);
            let distance = self.records.tiles.get(&key).unwrap().colors;
            proof {
                let kx = choose|k: int| 0 <= k < i && key_x(#[trigger] order[k]) == max_x;
                let ky = choose|k: int| 0 <= k < i && key_y(#[trigger] order[k]) == max_y;
                let kd = choose|k: int| 0 <= k < i && stats[#[trigger] order[k]].colors == most;
                if position.0 > max_x {
                    assert(key_x(order[i as int]) == position.0);
                } else {
                    assert(key_x(order[kx]) == max_x);
                }
                if position.1 > max_y {
                    assert(key_y(order[i as int]) == position.1);
                } else {
                    assert(key_y(order[ky]) == max_y);
                }
                if distance > most {
                    assert(stats[order[i as int]].colors == distance);
                } else {
                    assert(stats[order[kd]].colors == most);
                }
            }
            if position.0 > max_x {
                max_x = position.0;
            }
            if position.1 > max_y {
                max_y = position.1;
            }
            if distance > most {
                most = distance;
            }
            i += 1;
        }
        let ghost widest = choose|k: int| 0 <= k < order.len() && key_x(#[trigger] order[k]) == max_x;
        let ghost highest = choose|k: int| 0 <= k < order.len() && key_y(#[trigger] order[k]) == max_y;
        let ghost worst = choose|k: int| 0 <= k < order.len() && stats[#[trigger] order[k]].colors == most;
        proof {
            assert(stats.contains_key(order[widest]));
            assert(stats.contains_key(order[highest]));
            assert(stats.contains_key(order[worst]));
            assert forall|key: u64| #[trigger] stats.contains_key(key) implies key_x(key) <= max_x
                && key_y(key) <= max_y && stats[key].colors <= most by {
                assert(order.contains(key));
                let k = choose|k: int| 0 <= k < order.len() && order[k] == key;
                assert(key_x(order[k]) <= max_x);
            }
            assert(is_greatest_distance(stats, most));
        }
        let image_width = (max_x / tile_size) + 1;
        let image_height = (max_y / tile_size) + 1;
        let mut image = RgbImage::new(image_width, image_height);
        proof {
            assert forall|key: u64| #[trigger] stats.contains_key(key) implies image@.contains(
                key_x(key) / tile_size as int,
                key_y(key) / tile_size as int,
            ) by {
                vstd::arithmetic::div_mod::lemma_div_is_ordered(
                    key_x(key),
                    max_x as int,
                    tile_size as int,
                );
                vstd::arithmetic::div_mod::lemma_div_is_ordered(
                    key_y(key),
                    max_y as int,
                    tile_size as int,
                );
            }
        }
        let mut j: usize = 0;
        while j < self.records.order.len()
            invariant
                j <= order.len(),
                order == self.records.order@,
                stats == self.records.tiles@,
                tile_size > 0,
                image@.wf(),
                image@.width == image_width,
                image@.height == image_height,
                forall|k: int| 0 <= k < order.len() ==> stats.contains_key(#[trigger] order[k]),
                forall|key: u64| #[trigger]
                    stats.contains_key(key) ==> image@.contains(
                        key_x(key) / tile_size as int,
                        key_y(key) / tile_size as int,
                    ),
                forall|key: u64| #[trigger] stats.contains_key(key) ==> stats[key].colors <= most,
                forall|px: int, py: int|
                    image@.contains(px, py) ==> (if exists|k: int|
                        0 <= k < j && lands_on(#[trigger] order[k], tile_size, px, py) {
                        exists|k: int|
                            0 <= k < j && lands_on(#[trigger] order[k], tile_size, px, py)
                                && image@.pixel(px, py) == grey(shade(stats[order[k]].colors, most))
                    } else {
                        #[trigger] image@.pixel(px, py) == Rgb([0, 0, 0])
                    }),
            decreases order.len() - j,
        {
            let key = self.records.order[j];
            let position = position_of(key);
            let distance = self.records.tiles.get(&key).unwrap().colors;
            assert(distance <= most);
            let brightness: u8 = if most > 0 {
                assert(distance * 255 / most as int <= 255) by (nonlinear_arith)
                    requires
                        0 <= distance <= most,
                        most > 0,
                ;
                (distance as u64 * 255 / most as u64) as u8
            } else {
                0
            };
            let color = Rgb([brightness, brightness, brightness]);
            let ghost before = image@;
            let px = position.0 / tile_size;
            let py = position.1 / tile_size;
            assert(before.contains(px as int, py as int));
            image.put_pixel(px, py, color);
            proof {
                assert(color.0@ =~= grey(shade(distance, most)).0@);
                assert(color.0 =~= grey(shade(distance, most)).0);
                assert(lands_on(order[j as int], tile_size, px as int, py as int));
                assert forall|ax: int, ay: int| image@.contains(ax, ay) implies (if exists|k: int|
                    0 <= k < j + 1 && lands_on(#[trigger] order[k], tile_size, ax, ay) {
                    exists|k: int|
                        0 <= k < j + 1 && lands_on(#[trigger] order[k], tile_size, ax, ay)
                            && image@.pixel(ax, ay) == grey(shade(stats[order[k]].colors, most))
                } else {
                    #[trigger] image@.pixel(ax, ay) == Rgb([0, 0, 0])
                }) by {
                    if ax == px && ay == py {
                    } else {
                        assert(image@.pixel(ax, ay) == before.pixel(ax, ay));
                        assert(!lands_on(order[j as int], tile_size, ax, ay));
                        if exists|k: int|
                            0 <= k < j && lands_on(#[trigger] order[k], tile_size, ax, ay) {
                            let k = choose|k: int|
                                0 <= k < j && lands_on(#[trigger] order[k], tile_size, ax, ay)
                                    && before.pixel(ax, ay) == grey(
                                    shade(stats[order[k]].colors, most),
                                );
                            assert(0 <= k < j + 1 && lands_on(order[k], tile_size, ax, ay));
                        }
                    }
                }
            }
            j += 1;
        }
        proof {
            assert(stats.contains_key(order[widest]) && key_x(order[widest]) / tile_size as int + 1
                == image@.width);
            assert(stats.contains_key(order[highest]) && key_y(order[highest]) / tile_size as int
                + 1 == image@.height);
            assert forall|px: int, py: int| image@.contains(px, py) implies shows_distance(
                #[trigger] image@.pixel(px, py),
                stats,
                tile_size,
                most,
                px,
                py,
            ) by {
                if exists|key: u64| #[trigger]
                    stats.contains_key(key) && lands_on(key, tile_size, px, py) {
                    let key = choose|key: u64| #[trigger]
                        stats.contains_key(key) && lands_on(key, tile_size, px, py);
                    assert(order.contains(key));
                    let at = choose|k: int| 0 <= k < order.len() && order[k] == key;
                    assert(lands_on(order[at], tile_size, px, py));
                    let k = choose|k: int|
                        0 <= k < order.len() && lands_on(#[trigger] order[k], tile_size, px, py)
                            && image@.pixel(px, py) == grey(shade(stats[order[k]].colors, most));
                    assert(stats.contains_key(order[k]));
                } else {
                    assert forall|k: int| 0 <= k < order.len() implies !lands_on(
                        #[trigger] order[k],
                        tile_size,
                        px,
                        py,
                    ) by {
                        assert(stats.contains_key(order[k]));
                    }
                }
            }
        }
        image
    }
}

} // verus!
