//! The renderer: it lays the tiles chosen for the cells out as the mosaic.

use crate::analysis::is_square;
use crate::color::ImageView;
use crate::color::Rgb;
use crate::color::RgbImage;
use crate::error::ImageError;
use crate::error::ImageErrorKind;
use crate::error::IndexError;
use crate::error::RenderError;
use crate::greedy::is_taken;
use crate::greedy::match_cells_unique;
use crate::index::Entries;
use crate::index::MAX_DIMENSION;
use crate::index::MAX_ENTRIES;
use crate::index::NearestNeighbour;
use crate::index::SpatialIndex;
use crate::index::has_room;
use crate::index::manhattan;
use crate::index::names;
use crate::layout::Layout;
use crate::layout::cell_number;
use crate::layout::is_layout_of;
use crate::layout::layout_error;
use crate::layout::layout_of;
use crate::layout::lemma_cell_number;
use crate::layout::lemma_cell_of_number;
use crate::layout::lemma_cells_apart;
use crate::layout::lemma_cells_fit;
use crate::layout::output_fits;
use crate::layout::plan;
use crate::layout::source_fits;
use crate::matching::Tolerance;
use crate::matching::cell_match;
use crate::matching::fits_policy;
use crate::matching::match_cells;
use crate::matching::query_of;
use crate::stats::RenderStats;
use crate::stats::position_key;
use crate::tiles::tile::Tile;
use crate::tiles::tileset::TileSet;
use crate::tiles::tileset::TileSetView;
use crate::tiles::tileset::catalog_entries;
use crate::tiles::tileset::magnitude;
use vstd::prelude::*;

verus! {

/// How the renderer is set up.
#[derive(Debug, Clone)]
pub struct RenderConfig {
    /// How many of the nearest tiles the randomized placement chooses among.
    pub random_neighbor_count: usize,
    /// The layout of the progress line.
    pub progress_template: String,
}

impl Default for RenderConfig {
    fn default() -> (config: RenderConfig)
        ensures
            config.random_neighbor_count == 20,
            config.progress_template@ == "{msg} {wide_bar} {pos}/{len} ({per_sec})"@,
    {
        RenderConfig {
            random_neighbor_count: 20,
            progress_template: "{msg} {wide_bar} {pos}/{len} ({per_sec})".to_owned(),
        }
    }
}

/// Whether `output` shows, in the place of the cell `(cx, cy)`, a tile that
/// `get_tile` gives for that cell.
pub open spec fn shows_tile_of<F: Fn(u32, u32) -> RgbImage>(
    output: ImageView,
    get_tile: F,
    step: int,
    tile_size: int,
    cx: int,
    cy: int,
) -> bool {
    exists|tile: RgbImage| #[trigger]
        get_tile.ensures(((cx * step) as u32, (cy * step) as u32), tile) && output.shows_at(
            cx * tile_size,
            cy * tile_size,
            tile@,
        )
}

/// Lays a mosaic out: the output has one tile of `tile_size` by `tile_size`
/// pixels for each cell of `step` by `step` pixels of `source_img`, in the
/// place of the cell, and the tile of the cell at `(x, y)` is what
/// `get_tile(x, y)` gives. `step` must divide the width and height of the
/// source image, and the output must fit in memory.
pub fn render<F: Fn(u32, u32) -> RgbImage>(
    source_img: &RgbImage,
    tile_size: u32,
    step: u32,
    get_tile: F,
) -> (output: RgbImage)
    requires
        step > 0,
        source_fits(source_img@.width as int, source_img@.height as int, step as int),
        output_fits(
            source_img@.width as int / step as int,
            source_img@.height as int / step as int,
            tile_size as int,
        ),
        forall|x: u32, y: u32|
            x % step == 0 && y % step == 0 && x < source_img@.width && y < source_img@.height
                ==> #[trigger] get_tile.requires((x, y)),
        forall|x: u32, y: u32, tile: RgbImage| #[trigger]
            get_tile.ensures((x, y), tile) ==> tile@.width == tile_size && tile@.height
                == tile_size,
    ensures
        output@.wf(),
        output@.width == (source_img@.width as int / step as int) * tile_size,
        output@.height == (source_img@.height as int / step as int) * tile_size,
        forall|cx: int, cy: int|
            0 <= cx < source_img@.width as int / step as int && 0 <= cy < source_img@.height as int
                / step as int ==> #[trigger] shows_tile_of(
                output@,
                get_tile,
                step as int,
                tile_size as int,
                cx,
                cy,
            ),
{
    let width = source_img.width();
    let height = source_img.height();
    let htiles = width / step;
    let vtiles = height / step;
    proof {
        vstd::arithmetic::div_mod::lemma_fundamental_div_mod(width as int, step as int);
        vstd::arithmetic::div_mod::lemma_fundamental_div_mod(height as int, step as int);
        assert(htiles * step == step * htiles) by (nonlinear_arith);
        assert(vtiles * step == step * vtiles) by (nonlinear_arith);
    }
    let mut output = RgbImage::new(htiles * tile_size, vtiles * tile_size);
    let mut cy: u32 = 0;
    while cy < vtiles
        invariant
            cy <= vtiles,
            step > 0,
            htiles * step == width,
            vtiles * step == height,
            width == source_img@.width,
            height == source_img@.height,
            output@.wf(),
            output@.width == htiles * tile_size,
            output@.height == vtiles * tile_size,
            output_fits(htiles as int, vtiles as int, tile_size as int),
            forall|x: u32, y: u32|
                x % step == 0 && y % step == 0 && x < source_img@.width && y < source_img@.height
                    ==> #[trigger] get_tile.requires((x, y)),
            forall|x: u32, y: u32, tile: RgbImage| #[trigger]
                get_tile.ensures((x, y), tile) ==> tile@.width == tile_size && tile@.height
                    == tile_size,
            forall|ax: int, ay: int|
                0 <= ax < htiles && 0 <= ay < cy ==> #[trigger] shows_tile_of(
                    output@,
                    get_tile,
                    step as int,
                    tile_size as int,
                    ax,
                    ay,
                ),
        decreases vtiles - cy,
    {
        let mut cx: u32 = 0;
        while cx < htiles
            invariant
                cx <= htiles,
                cy < vtiles,
                step > 0,
                htiles * step == width,
                vtiles * step == height,
                width == source_img@.width,
                height == source_img@.height,
                output@.wf(),
                output@.width == htiles * tile_size,
                output@.height == vtiles * tile_size,
                output_fits(htiles as int, vtiles as int, tile_size as int),
                forall|x: u32, y: u32|
                    x % step == 0 && y % step == 0 && x < source_img@.width && y
                        < source_img@.height ==> #[trigger] get_tile.requires((x, y)),
                forall|x: u32, y: u32, tile: RgbImage| #[trigger]
                    get_tile.ensures((x, y), tile) ==> tile@.width == tile_size && tile@.height
                        == tile_size,
                forall|ax: int, ay: int|
                    0 <= ax < htiles && (0 <= ay < cy || (ay == cy && ax < cx))
                        ==> #[trigger] shows_tile_of(
                        output@,
                        get_tile,
                        step as int,
                        tile_size as int,
                        ax,
                        ay,
                    ),
            decreases htiles - cx,
        {
            proof {
                lemma_cells_apart(cx as int, htiles as int, step as int);
                lemma_cells_apart(cy as int, vtiles as int, step as int);
                lemma_cells_apart(cx as int, htiles as int, tile_size as int);
                lemma_cells_apart(cy as int, vtiles as int, tile_size as int);
                assert((cx * step) % (step as int) == 0) by (nonlinear_arith)
                    requires
                        step > 0,
                ;
                assert((cy * step) % (step as int) == 0) by (nonlinear_arith)
                    requires
                        step > 0,
                ;
            }
            let x = cx * step;
            let y = cy * step;
            let tile = get_tile(x, y);
            let ghost before = output@;
            let left = cx * tile_size;
            let top = cy * tile_size;
            output.replace(&tile, left, top);
            proof {
                assert(output@.shows_at(cx * tile_size, cy * tile_size, tile@));
                assert forall|ax: int, ay: int|
                    0 <= ax < htiles && (0 <= ay < cy || (ay == cy && ax < cx
                        + 1)) implies #[trigger] shows_tile_of(
                    output@,
                    get_tile,
                    step as int,
                    tile_size as int,
                    ax,
                    ay,
                ) by {
                    if ax == cx && ay == cy {
                        assert(get_tile.ensures(((ax * step) as u32, (ay * step) as u32), tile));
                    } else {
                        assert(shows_tile_of(before, get_tile, step as int, tile_size as int, ax, ay));
                        let other = choose|other: RgbImage| #[trigger]
                            get_tile.ensures(((ax * step) as u32, (ay * step) as u32), other)
                                && before.shows_at(ax * tile_size, ay * tile_size, other@);
                        if ay == cy {
                            lemma_cells_apart(ax, cx as int, tile_size as int);
                        } else {
                            lemma_cells_apart(ay, cy as int, tile_size as int);
                        }
                        lemma_cells_apart(ax, htiles as int, tile_size as int);
                        lemma_cells_apart(ay, vtiles as int, tile_size as int);
                        assert(output@.shows_at(ax * tile_size, ay * tile_size, other@));
                    }
                }
            }
            cx = cx + 1;
        }
        cy = cy + 1;
    }
    output
}

/// The result of a render: the mosaic, the catalog it was made from, and the
/// record of what was placed where.
pub struct RenderResult<const N: usize> {
    /// The mosaic.
    pub image: RgbImage,
    /// The catalog the tiles came from.
    pub tile_set: TileSet<[Rgb; N]>,
    /// Which tile went where, and how well it matched.
    pub stats: RenderStats<u32>,
}

/// The key under which the tile of the cell `(cx, cy)` is recorded where
/// positions are counted in cells of `scale` pixels.
pub open spec fn record_key(scale: u32, cx: int, cy: int) -> u64 {
    position_key((cx * scale) as u32, (cy * scale) as u32)
}

/// The signed tile index and the distance that a record tells.
pub open spec fn neighbour_of(record: Tile<u32>) -> NearestNeighbour {
    NearestNeighbour {
        distance: record.colors,
        item: if record.flipped {
            (-(record.idx as int)) as i16
        } else {
            record.idx as i16
        },
    }
}

/// Whether the catalog holds an image of `tile_size` by `tile_size` pixels
/// for the tile `idx`.
pub open spec fn has_picture<T>(tiles: TileSetView<T>, idx: int, tile_size: u32) -> bool {
    &&& 1 <= idx <= u16::MAX
    &&& tiles.images.contains_key(idx as u16)
    &&& tiles.images[idx as u16].width == tile_size
    &&& tiles.images[idx as u16].height == tile_size
}

/// Whether the cell `(cx, cy)` has its record, with the catalog's date for
/// the tile it names, and shows the image of that tile in the mosaic,
/// mirrored left to right if the record says flipped.
pub open spec fn cell_placed<const N: usize>(
    image: ImageView,
    stats: Map<u64, Tile<u32>>,
    tiles: TileSetView<[Rgb; N]>,
    layout: Layout,
    scale: u32,
    cx: int,
    cy: int,
) -> bool {
    let key = record_key(scale, cx, cy);
    &&& stats.contains_key(key)
    &&& has_picture(tiles, stats[key].idx as int, layout.tile_size)
    &&& 1 <= stats[key].idx <= tiles.tiles.len()
    &&& stats[key].date_taken == tiles.tiles[stats[key].idx - 1].date_taken
    &&& image.shows_oriented_at(
        cx * layout.tile_size,
        cy * layout.tile_size,
        tiles.images[stats[key].idx],
        stats[key].flipped,
    )
}

/// Whether `record` tells the tile that `found` names, flipped where `found`
/// names it so, with the distance of `found`.
pub open spec fn tells(record: Tile<u32>, found: NearestNeighbour) -> bool {
    &&& record.idx == magnitude(found.item)
    &&& record.flipped == (found.item < 0)
    &&& record.colors == found.distance
}

/// Whether every cell is recorded with the tile chosen for it, and nothing
/// else is recorded.
pub open spec fn records_all(
    stats: Map<u64, Tile<u32>>,
    found: Seq<NearestNeighbour>,
    layout: Layout,
    scale: u32,
) -> bool {
    &&& forall|cx: int, cy: int| #[trigger]
        layout.has_cell(cx, cy) ==> stats.contains_key(record_key(scale, cx, cy)) && tells(
            stats[record_key(scale, cx, cy)],
            found[cell_number(layout, cx, cy)],
        )
    &&& forall|key: u64| #[trigger]
        stats.contains_key(key) ==> exists|cx: int, cy: int| #[trigger]
            layout.has_cell(cx, cy) && key == record_key(scale, cx, cy)
}

/// Two cells are recorded under two keys.
pub proof fn lemma_record_keys_apart(layout: Layout, scale: u32, ax: int, ay: int, bx: int, by: int)
    requires
        layout.has_cell(ax, ay),
        layout.has_cell(bx, by),
        scale > 0,
        layout.htiles * scale <= u32::MAX,
        layout.vtiles * scale <= u32::MAX,
        ax != bx || ay != by,
    ensures
        record_key(scale, ax, ay) != record_key(scale, bx, by),
{
    lemma_cells_apart(ax, layout.htiles as int, scale as int);
    lemma_cells_apart(ay, layout.vtiles as int, scale as int);
    lemma_cells_apart(bx, layout.htiles as int, scale as int);
    lemma_cells_apart(by, layout.vtiles as int, scale as int);
    if ax < bx {
        lemma_cells_apart(ax, bx, scale as int);
    } else if bx < ax {
        lemma_cells_apart(bx, ax, scale as int);
    }
    if ay < by {
        lemma_cells_apart(ay, by, scale as int);
    } else if by < ay {
        lemma_cells_apart(by, ay, scale as int);
    }
}

/// The picture of each cell's tile, and the record of the placements.
pub struct Assembly {
    /// The pictures of the cells' tiles, by cell, row after row.
    pub pictures: Vec<RgbImage>,
    /// The record of what goes where.
    pub stats: RenderStats<u32>,
}

/// Whether `picture` is the catalog's image of the tile that `found` names,
/// mirrored left to right where `found` names it flipped.
pub open spec fn is_picture_of<T>(picture: ImageView, tiles: TileSetView<T>, found: NearestNeighbour) -> bool {
    &&& picture.wf()
    &&& has_picture(tiles, magnitude(found.item), picture.width as u32)
    &&& picture.width == picture.height
    &&& if found.item < 0 {
        picture.mirrors(tiles.images[magnitude(found.item) as u16])
    } else {
        picture == tiles.images[magnitude(found.item) as u16]
    }
}

/// Fetches the picture of the tile chosen for each cell and records the
/// placements, positions counted in cells of `scale` pixels. It fails with
/// the first cell, row after row, whose tile has no image of `tile_size` by
/// `tile_size` pixels in the catalog.
pub fn assemble<const N: usize>(
    tile_set: &TileSet<[Rgb; N]>,
    found: &Vec<NearestNeighbour>,
    layout: &Layout,
    scale: u32,
) -> (assembled: Result<Assembly, ImageError>)
    requires
        layout.wf(),
        tile_set@.wf(),
        scale > 0,
        layout.htiles * scale <= u32::MAX,
        layout.vtiles * scale <= u32::MAX,
        found@.len() == layout.cells(),
        forall|c: int|
            0 <= c < found@.len() ==> (#[trigger] found@[c]).item != 0 && magnitude(found@[c].item)
                <= tile_set@.tiles.len(),
    ensures
        assembled is Ok <==> forall|c: int|
            0 <= c < found@.len() ==> has_picture(
                tile_set@,
                magnitude((#[trigger] found@[c]).item),
                layout.tile_size,
            ),
        assembled is Ok ==> {
            let made = assembled->Ok_0;
            &&& made.pictures@.len() == found@.len()
            &&& forall|c: int|
                0 <= c < found@.len() ==> (#[trigger] made.pictures@[c])@.width == layout.tile_size
                    && is_picture_of(made.pictures@[c]@, tile_set@, found@[c])
            &&& records_all(made.stats@, found@, *layout, scale)
            &&& forall|cx: int, cy: int| #[trigger]
                layout.has_cell(cx, cy) ==> made.stats@[record_key(scale, cx, cy)].date_taken
                    == tile_set@.tiles[magnitude(found@[cell_number(*layout, cx, cy)].item)
                    - 1].date_taken
        },
        assembled is Err ==> exists|c: int|
            0 <= c < found@.len() && !has_picture(
                tile_set@,
                magnitude((#[trigger] found@[c]).item),
                layout.tile_size,
            ) && assembled->Err_0.path == tile_set@.paths[magnitude(found@[c].item) - 1]
                && assembled->Err_0.kind == (if tile_set@.images.contains_key(
                magnitude(found@[c].item) as u16,
            ) {
                ImageErrorKind::WrongSize
            } else {
                ImageErrorKind::NotLoaded
            }),
{
    let htiles = layout.htiles;
    let vtiles = layout.vtiles;
    let tile_size = layout.tile_size;
    let mut pictures: Vec<RgbImage> = Vec::new();
    let mut stats: RenderStats<u32> = RenderStats::new();
    proof {
        lemma_cells_fit(*layout);
    }
    let mut cy: u32 = 0;
    while cy < vtiles
        invariant
            cy <= vtiles,
            layout.wf(),
            tile_set@.wf(),
            scale > 0,
            htiles == layout.htiles,
            vtiles == layout.vtiles,
            tile_size == layout.tile_size,
            htiles * scale <= u32::MAX,
            vtiles * scale <= u32::MAX,
            found@.len() == layout.cells(),
            layout.cells() <= usize::MAX,
            forall|c: int|
                0 <= c < found@.len() ==> (#[trigger] found@[c]).item != 0 && magnitude(
                    found@[c].item,
                ) <= tile_set@.tiles.len(),
            pictures@.len() == cy * htiles,
            forall|c: int|
                0 <= c < pictures@.len() ==> (#[trigger] pictures@[c])@.width == tile_size
                    && is_picture_of(pictures@[c]@, tile_set@, found@[c]),
            forall|ax: int, ay: int|
                0 <= ax < htiles && 0 <= ay < cy ==> #[trigger] stats@.contains_key(
                    record_key(scale, ax, ay),
                ) && tells(stats@[record_key(scale, ax, ay)], found@[cell_number(
                    *layout,
                    ax,
                    ay,
                )]) && stats@[record_key(scale, ax, ay)].date_taken == tile_set@.tiles[magnitude(
                    found@[cell_number(*layout, ax, ay)].item,
                ) - 1].date_taken,
            forall|key: u64| #[trigger]
                stats@.contains_key(key) ==> exists|ax: int, ay: int| #[trigger]
                    layout.has_cell(ax, ay) && ay < cy && key == record_key(scale, ax, ay),
        decreases vtiles - cy,
    {
        let mut cx: u32 = 0;
        while cx < htiles
            invariant
                cx <= htiles,
                cy < vtiles,
                layout.wf(),
                tile_set@.wf(),
                scale > 0,
                htiles == layout.htiles,
                vtiles == layout.vtiles,
                tile_size == layout.tile_size,
                htiles * scale <= u32::MAX,
                vtiles * scale <= u32::MAX,
                found@.len() == layout.cells(),
                layout.cells() <= usize::MAX,
                forall|c: int|
                    0 <= c < found@.len() ==> (#[trigger] found@[c]).item != 0 && magnitude(
                        found@[c].item,
                    ) <= tile_set@.tiles.len(),
                pictures@.len() == cy * htiles + cx,
                forall|c: int|
                    0 <= c < pictures@.len() ==> (#[trigger] pictures@[c])@.width == tile_size
                        && is_picture_of(pictures@[c]@, tile_set@, found@[c]),
                forall|ax: int, ay: int|
                    0 <= ax < htiles && (0 <= ay < cy || (ay == cy && ax < cx))
                        ==> #[trigger] stats@.contains_key(record_key(scale, ax, ay))
                        && tells(stats@[record_key(scale, ax, ay)], found@[cell_number(
                        *layout,
                        ax,
                        ay,
                    )]) && stats@[record_key(scale, ax, ay)].date_taken
                        == tile_set@.tiles[magnitude(found@[cell_number(*layout, ax, ay)].item)
                        - 1].date_taken,
                forall|key: u64| #[trigger]
                    stats@.contains_key(key) ==> exists|ax: int, ay: int| #[trigger]
                        layout.has_cell(ax, ay) && (ay < cy || (ay == cy && ax < cx)) && key
                            == record_key(scale, ax, ay),
            decreases htiles - cx,
        {
            proof {
                lemma_cell_number(*layout, cx as int, cy as int);
                lemma_cells_apart(cx as int, htiles as int, scale as int);
                lemma_cells_apart(cy as int, vtiles as int, scale as int);
            }
            let at = cy as usize * htiles as usize + cx as usize;
            let chosen = found[at];
            let tile = tile_set.get_tile(chosen.item).unwrap();
            let picture = match tile_set.get_image(&tile, tile_size) {
                Ok(picture) => picture,
                Err(error) => {
                    return Err(error);
                },
            };
            if picture.width() != tile_size || picture.height() != tile_size {
                return Err(
                    ImageError {
                        path: tile_set.get_path(&tile).clone(),
                        kind: ImageErrorKind::WrongSize,
                    },
                );
            }
            pictures.push(picture);
            let ghost recorded = stats@;
            stats.push_tile(cx * scale, cy * scale, &tile, chosen.distance);
            proof {
                assert forall|ax: int, ay: int|
                    0 <= ax < htiles && (0 <= ay < cy || (ay == cy && ax < cx
                        + 1)) implies #[trigger] stats@.contains_key(record_key(scale, ax, ay))
                    && tells(stats@[record_key(scale, ax, ay)], found@[cell_number(
                    *layout,
                    ax,
                    ay,
                )]) && stats@[record_key(scale, ax, ay)].date_taken == tile_set@.tiles[magnitude(
                    found@[cell_number(*layout, ax, ay)].item,
                ) - 1].date_taken by {
                    if ax != cx || ay != cy {
                        lemma_record_keys_apart(*layout, scale, ax, ay, cx as int, cy as int);
                        assert(recorded.contains_key(record_key(scale, ax, ay)));
                    }
                }
                assert forall|key: u64| #[trigger] stats@.contains_key(key) implies exists|
                    ax: int,
                    ay: int,
                | #[trigger]
                    layout.has_cell(ax, ay) && (ay < cy || (ay == cy && ax < cx + 1)) && key
                        == record_key(scale, ax, ay) by {
                    if key == record_key(scale, cx as int, cy as int) {
                        assert(layout.has_cell(cx as int, cy as int));
                    } else {
                        assert(recorded.contains_key(key));
                        let (ax, ay) = choose|ax: int, ay: int| #[trigger]
                            layout.has_cell(ax, ay) && (ay < cy || (ay == cy && ax < cx)) && key
                                == record_key(scale, ax, ay);
                        assert(layout.has_cell(ax, ay) && (ay < cy || (ay == cy && ax < cx + 1))
                            && key == record_key(scale, ax, ay));
                    }
                }
            }
            cx = cx + 1;
        }
        proof {
            assert((cy + 1) * htiles == cy * htiles + htiles) by (nonlinear_arith);
            assert forall|key: u64| #[trigger] stats@.contains_key(key) implies exists|
                ax: int,
                ay: int,
            | #[trigger] layout.has_cell(ax, ay) && ay < cy + 1 && key == record_key(scale, ax, ay) by {
                let (ax, ay) = choose|ax: int, ay: int| #[trigger]
                    layout.has_cell(ax, ay) && (ay < cy || (ay == cy && ax < htiles)) && key
                        == record_key(scale, ax, ay);
                assert(layout.has_cell(ax, ay) && ay < cy + 1 && key == record_key(scale, ax, ay));
            }
        }
        cy = cy + 1;
    }
    proof {
        assert(vtiles * htiles == htiles * vtiles) by (nonlinear_arith);
        assert forall|c: int| 0 <= c < found@.len() implies has_picture(
            tile_set@,
            magnitude((#[trigger] found@[c]).item),
            layout.tile_size,
        ) by {
            assert(is_picture_of(pictures@[c]@, tile_set@, found@[c]));
        }
        assert forall|key: u64| #[trigger] stats@.contains_key(key) implies exists|
            ax: int,
            ay: int,
        | #[trigger] layout.has_cell(ax, ay) && key == record_key(scale, ax, ay) by {
            let (ax, ay) = choose|ax: int, ay: int| #[trigger]
                layout.has_cell(ax, ay) && ay < cy && key == record_key(scale, ax, ay);
            assert(layout.has_cell(ax, ay) && key == record_key(scale, ax, ay));
        }
    }
    Ok(Assembly { pictures, stats })
}

/// Why no index of `k` coordinates can be built over a catalog, if there is
/// a reason.
pub open spec fn index_error<const N: usize>(tiles: TileSetView<[Rgb; N]>, k: usize) -> Option<
    IndexError,
> {
    if k != 3 * N || k == 0 || k > MAX_DIMENSION {
        Some(IndexError::Dimension)
    } else if 2 * tiles.tiles.len() > MAX_ENTRIES {
        Some(IndexError::TooManyTiles)
    } else if !has_room(
        catalog_entries(tiles.tiles, tiles.tiles.len() as int),
        k as nat,
    ) {
        Some(IndexError::Crowded)
    } else {
        None
    }
}

/// What keeps a render from starting, if anything: first the sizes, then,
/// where no tile may be used twice, too few tiles, `capacity` cells to a
/// tile being the most; then the index.
pub open spec fn setup_error<const N: usize>(
    source: ImageView,
    tiles: TileSetView<[Rgb; N]>,
    tile_size: u32,
    k: usize,
    unique: bool,
) -> Option<RenderError> {
    if layout_error::<N>(source, tile_size) is Some {
        layout_error::<N>(source, tile_size)
    } else if unique && layout_of::<N>(source, tile_size).cells() > 2 * tiles.tiles.len() {
        Some(RenderError::InsufficientTiles)
    } else if index_error(tiles, k) is Some {
        Some(RenderError::Index(index_error(tiles, k)->0))
    } else {
        None
    }
}

/// What a render starts from: the grid and the index over the catalog.
pub struct Setup<const K: usize> {
    pub layout: Layout,
    pub index: SpatialIndex<K>,
}

/// Lays out the grid and builds the index for a render, or says what keeps
/// the render from starting.
pub fn set_up<const N: usize, const K: usize>(
    source_img: &RgbImage,
    tile_set: &TileSet<[Rgb; N]>,
    tile_size: u32,
    unique: bool,
) -> (ready: Result<Setup<K>, RenderError>)
    requires
        is_square(N as nat),
        N > 0,
        tile_set@.wf(),
    ensures
        ready is Ok <==> setup_error::<N>(source_img@, tile_set@, tile_size, K, unique) is None,
        ready is Err ==> Some(ready->Err_0) == setup_error::<N>(
            source_img@,
            tile_set@,
            tile_size,
            K,
            unique,
        ),
        ready is Ok ==> {
            let setup = ready->Ok_0;
            &&& setup.layout == layout_of::<N>(source_img@, tile_size)
            &&& is_layout_of::<N>(setup.layout, source_img@)
            &&& setup.index@ == tile_set.entries()
            &&& K == 3 * N
            &&& unique ==> setup.layout.cells() <= 2 * tile_set@.tiles.len()
        },
{
    let layout = match plan::<N>(source_img, tile_size) {
        Ok(layout) => layout,
        Err(error) => {
            return Err(error);
        },
    };
    proof {
        lemma_cells_fit(layout);
    }
    let cells: usize = layout.htiles as usize * layout.vtiles as usize;
    let count = tile_set.len();
    if unique && cells > 2 * count {
        return Err(RenderError::InsufficientTiles);
    }
    let index = match tile_set.build_kiddo::<K>() {
        Ok(index) => index,
        Err(error) => {
            return Err(RenderError::Index(error));
        },
    };
    Ok(Setup { layout, index })
}

/// Whether the mosaic shows, for every cell, the picture of the cell.
pub open spec fn shows_pictures(image: ImageView, pictures: Seq<RgbImage>, layout: Layout) -> bool {
    forall|cx: int, cy: int| #[trigger]
        layout.has_cell(cx, cy) ==> image.shows_at(
            cx * layout.tile_size,
            cy * layout.tile_size,
            pictures[cell_number(layout, cx, cy)]@,
        )
}

/// Lays the pictures of the cells out as the mosaic.
pub fn compose(source_img: &RgbImage, layout: &Layout, pictures: &Vec<RgbImage>) -> (image: RgbImage)
    requires
        layout.wf(),
        layout.htiles * layout.step == source_img@.width,
        layout.vtiles * layout.step == source_img@.height,
        pictures@.len() == layout.cells(),
        forall|c: int|
            0 <= c < pictures@.len() ==> (#[trigger] pictures@[c])@.width == layout.tile_size
                && pictures@[c]@.height == layout.tile_size,
    ensures
        image@.wf(),
        image@.width == layout.htiles * layout.tile_size,
        image@.height == layout.vtiles * layout.tile_size,
        shows_pictures(image@, pictures@, *layout),
{
    let step = layout.step;
    let htiles = layout.htiles;
    let vtiles = layout.vtiles;
    let tile_size = layout.tile_size;
    let ghost width = source_img@.width;
    let ghost height = source_img@.height;
    proof {
        lemma_cells_fit(*layout);
        vstd::arithmetic::div_mod::lemma_fundamental_div_mod_converse(
            width as int,
            step as int,
            htiles as int,
            0,
        );
        vstd::arithmetic::div_mod::lemma_fundamental_div_mod_converse(
            height as int,
            step as int,
            vtiles as int,
            0,
        );
    }
    let get_tile = |x: u32, y: u32| -> (tile: RgbImage)
        requires
            x % step == 0,
            y % step == 0,
            x < width,
            y < height,
        ensures
            tile@ == pictures@[(y / step) * htiles + x / step]@,
            tile@.width == tile_size,
            tile@.height == tile_size,
        {
            proof {
                vstd::arithmetic::div_mod::lemma_fundamental_div_mod(x as int, step as int);
                vstd::arithmetic::div_mod::lemma_fundamental_div_mod(y as int, step as int);
                assert(x as int / step as int <= htiles - 1) by (nonlinear_arith)
                    requires
                        x < htiles * step,
                        x == step * (x as int / step as int) + x as int % step as int,
                        x as int % step as int == 0,
                        step > 0,
                ;
                assert(y as int / step as int <= vtiles - 1) by (nonlinear_arith)
                    requires
                        y < vtiles * step,
                        y == step * (y as int / step as int) + y as int % step as int,
                        y as int % step as int == 0,
                        step > 0,
                ;
                lemma_cell_number(*layout, x as int / step as int, y as int / step as int);
            }
            let at = (y / step) as usize * htiles as usize + (x / step) as usize;
            pictures[at].clone()
        };
    let image = render(source_img, tile_size, step, get_tile);
    proof {
        assert forall|cx: int, cy: int| #[trigger] layout.has_cell(cx, cy) implies image@.shows_at(
            cx * layout.tile_size,
            cy * layout.tile_size,
            pictures@[cell_number(*layout, cx, cy)]@,
        ) by {
            assert(shows_tile_of(image@, get_tile, step as int, tile_size as int, cx, cy));
            lemma_cells_apart(cx, htiles as int, step as int);
            lemma_cells_apart(cy, vtiles as int, step as int);
            vstd::arithmetic::div_mod::lemma_fundamental_div_mod_converse(
                cx * step,
                step as int,
                cx,
                0,
            );
            vstd::arithmetic::div_mod::lemma_fundamental_div_mod_converse(
                cy * step,
                step as int,
                cy,
                0,
            );
        }
    }
    image
}

/// A mosaic that shows pictures which are the catalog's images of the tiles
/// recorded for the cells shows those images.
pub proof fn lemma_cell_placed<const N: usize>(
    image: ImageView,
    pictures: Seq<RgbImage>,
    stats: Map<u64, Tile<u32>>,
    tiles: TileSetView<[Rgb; N]>,
    found: Seq<NearestNeighbour>,
    layout: Layout,
    scale: u32,
    cx: int,
    cy: int,
)
    requires
        layout.has_cell(cx, cy),
        shows_pictures(image, pictures, layout),
        records_all(stats, found, layout, scale),
        found.len() == layout.cells(),
        pictures.len() == found.len(),
        found[cell_number(layout, cx, cy)].item != 0,
        magnitude(found[cell_number(layout, cx, cy)].item) <= tiles.tiles.len(),
        pictures[cell_number(layout, cx, cy)]@.width == layout.tile_size,
        is_picture_of(
            pictures[cell_number(layout, cx, cy)]@,
            tiles,
            found[cell_number(layout, cx, cy)],
        ),
        stats[record_key(scale, cx, cy)].date_taken == tiles.tiles[magnitude(
            found[cell_number(layout, cx, cy)].item,
        ) - 1].date_taken,
    ensures
        cell_placed(image, stats, tiles, layout, scale, cx, cy),
{
    let c = cell_number(layout, cx, cy);
    let picture = pictures[c]@;
    let record = stats[record_key(scale, cx, cy)];
    let stored = tiles.images[record.idx];
    let left = cx * layout.tile_size;
    let top = cy * layout.tile_size;
    assert(tells(record, found[c]));
    assert(image.shows_at(left, top, picture));
    assert forall|i: int, j: int|
        left <= i < left + stored.width && top <= j < top + stored.height implies #[trigger] image.pixel(
        i,
        j,
    ) == (if record.flipped {
        stored.pixel(stored.width - 1 - (i - left), j - top)
    } else {
        stored.pixel(i - left, j - top)
    }) by {
        assert(image.pixel(i, j) == picture.pixel(i - left, j - top));
        if record.flipped {
            assert(picture.contains(i - left, j - top));
        }
    }
}

/// Whether the image and the record are the mosaic of `source`: the image has
/// a tile's place for each cell, and every cell is recorded with a tile of
/// the catalog and the Manhattan distance between the cell and the tile as
/// it is shown, and shows the catalog's image of that tile; nothing else is
/// recorded. Positions in the record are counted in cells of `scale` pixels.
pub open spec fn is_mosaic<const N: usize>(
    image: ImageView,
    stats: Map<u64, Tile<u32>>,
    tiles: TileSetView<[Rgb; N]>,
    source: ImageView,
    layout: Layout,
    scale: u32,
) -> bool {
    &&& image.wf()
    &&& image.width == layout.htiles * layout.tile_size
    &&& image.height == layout.vtiles * layout.tile_size
    &&& forall|cx: int, cy: int| #[trigger]
        layout.has_cell(cx, cy) ==> cell_placed(image, stats, tiles, layout, scale, cx, cy)
            && cell_match::<N>(
            neighbour_of(stats[record_key(scale, cx, cy)]),
            catalog_entries(tiles.tiles, tiles.tiles.len() as int),
            source,
            layout,
            cx,
            cy,
        )
    &&& forall|key: u64| #[trigger]
        stats.contains_key(key) ==> exists|cx: int, cy: int| #[trigger]
            layout.has_cell(cx, cy) && key == record_key(scale, cx, cy)
}

/// Whether no two cells are recorded with the same entry of the index.
pub open spec fn no_entry_twice(stats: Map<u64, Tile<u32>>, layout: Layout, scale: u32) -> bool {
    forall|ax: int, ay: int, bx: int, by: int|
        #![trigger layout.has_cell(ax, ay), layout.has_cell(bx, by)]
        layout.has_cell(ax, ay) && layout.has_cell(bx, by) && (ax != bx || ay != by)
            ==> neighbour_of(stats[record_key(scale, ax, ay)]).item != neighbour_of(
            stats[record_key(scale, bx, by)],
        ).item
}

/// Whether no entry that no cell is recorded with lies nearer to a cell than
/// the entry the cell is recorded with.
pub open spec fn spares_none_nearer<const N: usize>(
    stats: Map<u64, Tile<u32>>,
    entries: Entries,
    source: ImageView,
    layout: Layout,
    scale: u32,
) -> bool {
    forall|cx: int, cy: int, spare: i16|
        #![trigger layout.has_cell(cx, cy), entries.dom().contains(spare)]
        layout.has_cell(cx, cy) && entries.dom().contains(spare) && is_spare(
            stats,
            layout,
            scale,
            spare,
        ) ==> stats[record_key(scale, cx, cy)].colors <= manhattan(
            entries[spare],
            query_of::<N>(source, layout, cx, cy),
        )
}

/// Whether no cell is recorded with the entry `spare`.
pub open spec fn is_spare(stats: Map<u64, Tile<u32>>, layout: Layout, scale: u32, spare: i16) -> bool {
    forall|ax: int, ay: int| #[trigger]
        layout.has_cell(ax, ay) ==> neighbour_of(stats[record_key(scale, ax, ay)]).item != spare
}

/// Whether every tile of the catalog has an image of the size asked for.
pub open spec fn has_all_pictures<T>(tiles: TileSetView<T>, tile_size: u32) -> bool {
    forall|idx: int| 1 <= idx <= tiles.tiles.len() ==> #[trigger] has_picture(tiles, idx, tile_size)
}

/// Renders `source_img` as a mosaic of the catalog's tiles, each cell of the
/// source image on its own. Every cell, a block as many pixels wide and high
/// as a signature has cells to a side, gets the tile whose signature, as it
/// is or mirrored, lies nearest to the block by Manhattan distance; with a
/// tolerance, a tile picked at random among the nearest 20 that lie within
/// the tolerance of the nearest. With `no_repeat` an entry of the index that
/// has served a cell serves no other, and the cells of a row take their turns
/// in an order left to chance. `K` is three times `N`.
///
/// The render fails before any matching where the sizes do not fit, where
/// `no_repeat` is set and there are more cells than two to a tile, and where
/// the index cannot be built; after that only where the catalog is empty or
/// has no image of the tile size for a chosen tile.
pub fn render_nto1<const N: usize, const K: usize>(
    source_img: &RgbImage,
    tile_set: TileSet<[Rgb; N]>,
    tile_size: u32,
    no_repeat: bool,
    randomize: Option<Tolerance>,
) -> (rendered: Result<RenderResult<N>, RenderError>)
    requires
        is_square(N as nat),
        N > 0,
        tile_set@.wf(),
    ensures
        setup_error::<N>(source_img@, tile_set@, tile_size, K, no_repeat) is Some ==> rendered
            == Err::<RenderResult<N>, RenderError>(
            setup_error::<N>(source_img@, tile_set@, tile_size, K, no_repeat)->0,
        ),
        rendered is Ok ==> {
            let result = rendered->Ok_0;
            let layout = layout_of::<N>(source_img@, tile_size);
            &&& result.tile_set@ == tile_set@
            &&& is_mosaic::<N>(
                result.image@,
                result.stats@,
                tile_set@,
                source_img@,
                layout,
                layout.step,
            )
            &&& !no_repeat ==> forall|cx: int, cy: int| #[trigger]
                layout.has_cell(cx, cy) ==> fits_policy(
                    tile_set.entries(),
                    query_of::<N>(source_img@, layout, cx, cy),
                    neighbour_of(result.stats@[record_key(layout.step, cx, cy)]),
                    randomize,
                )
            &&& no_repeat ==> no_entry_twice(result.stats@, layout, layout.step)
            &&& no_repeat && randomize is None ==> spares_none_nearer::<N>(
                result.stats@,
                tile_set.entries(),
                source_img@,
                layout,
                layout.step,
            )
        },
        rendered is Err && setup_error::<N>(source_img@, tile_set@, tile_size, K, no_repeat)
            is None ==> match rendered->Err_0 {
            RenderError::IndexConsistency => tile_set@.tiles.len() == 0,
            RenderError::Image(error) => !has_all_pictures(tile_set@, tile_size),
            _ => false,
        },
        setup_error::<N>(source_img@, tile_set@, tile_size, K, no_repeat) is None && (
        tile_set@.tiles.len() > 0 || layout_of::<N>(source_img@, tile_size).cells() == 0)
            && has_all_pictures(tile_set@, tile_size) ==> rendered is Ok,
{
    let setup = match set_up::<N, K>(source_img, &tile_set, tile_size, no_repeat) {
        Ok(setup) => setup,
        Err(error) => {
            return Err(error);
        },
    };
    let layout = setup.layout;
    let mut index = setup.index;
    let ghost entries = tile_set.entries();
    let found = match match_cells::<N, K>(
        source_img,
        &tile_set,
        &mut index,
        &layout,
        no_repeat,
        randomize,
    ) {
        Ok(found) => found,
        Err(error) => {
            return Err(error);
        },
    };
    let assembly = match assemble(&tile_set, &found, &layout, layout.step) {
        Ok(assembly) => assembly,
        Err(error) => {
            return Err(RenderError::Image(error));
        },
    };
    let image = compose(source_img, &layout, &assembly.pictures);
    proof {
        let stats = assembly.stats@;
        assert forall|cx: int, cy: int| #[trigger] layout.has_cell(cx, cy) implies cell_placed(
            image@,
            stats,
            tile_set@,
            layout,
            layout.step,
            cx,
            cy,
        ) && neighbour_of(stats[record_key(layout.step, cx, cy)]) == found@[cell_number(
            layout,
            cx,
            cy,
        )] by {
            lemma_cell_number(layout, cx, cy);
            let c = cell_number(layout, cx, cy);
            assert(entries.dom().contains(found@[c].item));
            assert(tells(stats[record_key(layout.step, cx, cy)], found@[c]));
            lemma_cell_placed::<N>(
                image@,
                assembly.pictures@,
                stats,
                tile_set@,
                found@,
                layout,
                layout.step,
                cx,
                cy,
            );
        }
        assert forall|cx: int, cy: int| #[trigger] layout.has_cell(cx, cy) implies cell_match::<N>(
            neighbour_of(stats[record_key(layout.step, cx, cy)]),
            entries,
            source_img@,
            layout,
            cx,
            cy,
        ) by {
            assert(cell_match::<N>(
                found@[cell_number(layout, cx, cy)],
                entries,
                source_img@,
                layout,
                cx,
                cy,
            ));
        }
        if no_repeat && randomize is None {
            assert forall|cx: int, cy: int, spare: i16|
                #![trigger layout.has_cell(cx, cy), entries.dom().contains(spare)]
                layout.has_cell(cx, cy) && entries.dom().contains(spare) && is_spare(
                    stats,
                    layout,
                    layout.step,
                    spare,
                ) implies stats[record_key(layout.step, cx, cy)].colors <= manhattan(
                entries[spare],
                query_of::<N>(source_img@, layout, cx, cy),
            ) by {
                if !index@.dom().contains(spare) {
                    assert(names(found@, spare));
                    let k = choose|k: int| 0 <= k < found@.len() && (#[trigger] found@[k]).item
                        == spare;
                    let ay = k / layout.htiles as int;
                    let ax = k % layout.htiles as int;
                    lemma_cell_of_number(layout, k);
                    assert(layout.has_cell(ax, ay));
                }
                assert(found@[cell_number(layout, cx, cy)].distance <= manhattan(
                    entries[spare],
                    query_of::<N>(source_img@, layout, cx, cy),
                ));
            }
        }
        if no_repeat {
            assert forall|ax: int, ay: int, bx: int, by: int|
                #![trigger layout.has_cell(ax, ay), layout.has_cell(bx, by)]
                layout.has_cell(ax, ay) && layout.has_cell(bx, by) && (ax != bx || ay
                    != by) implies neighbour_of(stats[record_key(layout.step, ax, ay)]).item
                != neighbour_of(stats[record_key(layout.step, bx, by)]).item by {
                lemma_cell_number(layout, ax, ay);
                lemma_cell_number(layout, bx, by);
                let a = cell_number(layout, ax, ay);
                let b = cell_number(layout, bx, by);
                if a < b {
                    assert(found@[a].item != found@[b].item);
                } else {
                    assert(found@[b].item != found@[a].item);
                }
            }
        }
    }
    Ok(RenderResult { image, tile_set, stats: assembly.stats })
}

/// Whether no two cells are recorded with the same tile, whichever way
/// round.
pub open spec fn no_tile_twice(stats: Map<u64, Tile<u32>>, layout: Layout, scale: u32) -> bool {
    forall|ax: int, ay: int, bx: int, by: int|
        #![trigger layout.has_cell(ax, ay), layout.has_cell(bx, by)]
        layout.has_cell(ax, ay) && layout.has_cell(bx, by) && (ax != bx || ay != by)
            ==> stats[record_key(scale, ax, ay)].idx != stats[record_key(scale, bx, by)].idx
}

/// Whether no cell is recorded with the tile `tile`, whichever way round.
pub open spec fn is_spare_tile(stats: Map<u64, Tile<u32>>, layout: Layout, scale: u32, tile: int) -> bool {
    forall|ax: int, ay: int| #[trigger]
        layout.has_cell(ax, ay) ==> stats[record_key(scale, ax, ay)].idx != tile
}

/// Whether no tile that no cell is recorded with lies nearer to a cell, as it
/// is or mirrored, than the tile the cell is recorded with.
pub open spec fn spares_no_tile_nearer<const N: usize>(
    stats: Map<u64, Tile<u32>>,
    entries: Entries,
    source: ImageView,
    layout: Layout,
    scale: u32,
) -> bool {
    forall|cx: int, cy: int, spare: i16|
        #![trigger layout.has_cell(cx, cy), entries.dom().contains(spare)]
        layout.has_cell(cx, cy) && entries.dom().contains(spare) && is_spare_tile(
            stats,
            layout,
            scale,
            magnitude(spare),
        ) ==> stats[record_key(scale, cx, cy)].colors <= manhattan(
            entries[spare],
            query_of::<N>(source, layout, cx, cy),
        )
}

/// Renders `source_img` as a mosaic in which no tile of the catalog appears
/// twice, as it is or mirrored. The cells are served one at a time, the cell
/// whose best candidate lies farthest first, as `match_cells_unique` tells.
/// `K` is three times `N`. Positions in the record are those of the tiles in
/// the mosaic.
///
/// The render fails before any matching where the sizes do not fit, where
/// there are more cells than two to a tile, and where the index cannot be
/// built; after that where the tiles run out, which they do not with at
/// least as many tiles as cells, and where the catalog has no image of the
/// tile size for a chosen tile.
pub fn render_nto1_no_repeat<const N: usize, const K: usize>(
    source_img: &RgbImage,
    tile_set: TileSet<[Rgb; N]>,
    tile_size: u32,
) -> (rendered: Result<RenderResult<N>, RenderError>)
    requires
        is_square(N as nat),
        N > 0,
        tile_set@.wf(),
    ensures
        setup_error::<N>(source_img@, tile_set@, tile_size, K, true) is Some ==> rendered == Err::<
            RenderResult<N>,
            RenderError,
        >(setup_error::<N>(source_img@, tile_set@, tile_size, K, true)->0),
        rendered is Ok ==> {
            let result = rendered->Ok_0;
            let layout = layout_of::<N>(source_img@, tile_size);
            &&& result.tile_set@ == tile_set@
            &&& is_mosaic::<N>(
                result.image@,
                result.stats@,
                tile_set@,
                source_img@,
                layout,
                layout.tile_size,
            )
            &&& no_tile_twice(result.stats@, layout, layout.tile_size)
            &&& spares_no_tile_nearer::<N>(
                result.stats@,
                tile_set.entries(),
                source_img@,
                layout,
                layout.tile_size,
            )
        },
        setup_error::<N>(source_img@, tile_set@, tile_size, K, true) is None ==> (rendered == Err::<
            RenderResult<N>,
            RenderError,
        >(RenderError::Exhausted) <==> layout_of::<N>(source_img@, tile_size).cells()
            > tile_set@.tiles.len()),
        rendered is Err && setup_error::<N>(source_img@, tile_set@, tile_size, K, true) is None
            ==> match rendered->Err_0 {
            RenderError::Exhausted => true,
            RenderError::Image(error) => !has_all_pictures(tile_set@, tile_size),
            _ => false,
        },
        setup_error::<N>(source_img@, tile_set@, tile_size, K, true) is None && layout_of::<N>(
            source_img@,
            tile_size,
        ).cells() <= tile_set@.tiles.len() && has_all_pictures(tile_set@, tile_size)
            ==> rendered is Ok,
{
    let setup = match set_up::<N, K>(source_img, &tile_set, tile_size, true) {
        Ok(setup) => setup,
        Err(error) => {
            return Err(error);
        },
    };
    let layout = setup.layout;
    let mut index = setup.index;
    let ghost entries = tile_set.entries();
    let found = match match_cells_unique::<N, K>(source_img, &tile_set, &mut index, &layout) {
        Ok(found) => found,
        Err(error) => {
            return Err(error);
        },
    };
    let assembly = match assemble(&tile_set, &found, &layout, layout.tile_size) {
        Ok(assembly) => assembly,
        Err(error) => {
            return Err(RenderError::Image(error));
        },
    };
    let image = compose(source_img, &layout, &assembly.pictures);
    proof {
        let stats = assembly.stats@;
        let scale = layout.tile_size;
        assert forall|cx: int, cy: int| #[trigger] layout.has_cell(cx, cy) implies cell_placed(
            image@,
            stats,
            tile_set@,
            layout,
            scale,
            cx,
            cy,
        ) && neighbour_of(stats[record_key(scale, cx, cy)]) == found@[cell_number(layout, cx, cy)] by {
            lemma_cell_number(layout, cx, cy);
            let c = cell_number(layout, cx, cy);
            assert(entries.dom().contains(found@[c].item));
            assert(tells(stats[record_key(scale, cx, cy)], found@[c]));
            lemma_cell_placed::<N>(
                image@,
                assembly.pictures@,
                stats,
                tile_set@,
                found@,
                layout,
                scale,
                cx,
                cy,
            );
        }
        assert forall|cx: int, cy: int| #[trigger] layout.has_cell(cx, cy) implies cell_match::<N>(
            neighbour_of(stats[record_key(scale, cx, cy)]),
            entries,
            source_img@,
            layout,
            cx,
            cy,
        ) by {
            assert(cell_match::<N>(
                found@[cell_number(layout, cx, cy)],
                entries,
                source_img@,
                layout,
                cx,
                cy,
            ));
        }
        assert forall|cx: int, cy: int, spare: i16|
            #![trigger layout.has_cell(cx, cy), entries.dom().contains(spare)]
            layout.has_cell(cx, cy) && entries.dom().contains(spare) && is_spare_tile(
                stats,
                layout,
                scale,
                magnitude(spare),
            ) implies stats[record_key(scale, cx, cy)].colors <= manhattan(
            entries[spare],
            query_of::<N>(source_img@, layout, cx, cy),
        ) by {
            if !index@.dom().contains(spare) {
                assert(is_taken(found@, magnitude(spare)));
                let k = choose|k: int|
                    0 <= k < found@.len() && (#[trigger] found@[k]).item != 0 && magnitude(
                        found@[k].item,
                    ) == magnitude(spare);
                let ay = k / layout.htiles as int;
                let ax = k % layout.htiles as int;
                lemma_cell_of_number(layout, k);
                assert(layout.has_cell(ax, ay));
                assert(tells(stats[record_key(scale, ax, ay)], found@[k]));
            }
            assert(index@.dom().contains(spare));
            assert(tells(
                stats[record_key(scale, cx, cy)],
                found@[cell_number(layout, cx, cy)],
            ));
        }
        assert forall|ax: int, ay: int, bx: int, by: int|
            #![trigger layout.has_cell(ax, ay), layout.has_cell(bx, by)]
            layout.has_cell(ax, ay) && layout.has_cell(bx, by) && (ax != bx || ay
                != by) implies stats[record_key(scale, ax, ay)].idx != stats[record_key(
            scale,
            bx,
            by,
        )].idx by {
            lemma_cell_number(layout, ax, ay);
            lemma_cell_number(layout, bx, by);
            let a = cell_number(layout, ax, ay);
            let b = cell_number(layout, bx, by);
            assert(tells(stats[record_key(scale, ax, ay)], found@[a]));
            assert(tells(stats[record_key(scale, bx, by)], found@[b]));
            if a < b {
                assert(magnitude(found@[a].item) != magnitude(found@[b].item));
            } else {
                assert(magnitude(found@[b].item) != magnitude(found@[a].item));
            }
        }
    }
    Ok(RenderResult { image, tile_set, stats: assembly.stats })
}

/// Whether the mosaic shows, in the place of every pixel of the source
/// image, the image of some tile of the catalog.
pub open spec fn shows_some_tiles<T>(image: ImageView, tiles: TileSetView<T>, layout: Layout) -> bool {
    forall|cx: int, cy: int| #[trigger]
        layout.has_cell(cx, cy) ==> exists|idx: int|
            1 <= idx <= tiles.tiles.len() && #[trigger] has_picture(tiles, idx, layout.tile_size)
                && image.shows_at(
                cx * layout.tile_size,
                cy * layout.tile_size,
                tiles.images[idx as u16],
            )
}

/// Renders a mosaic with a tile picked at random for every pixel of
/// `source_img`, whatever the pixel shows. The catalog must have a tile.
pub fn render_random<T>(source_img: &RgbImage, tile_set: TileSet<T>, tile_size: u32) -> (rendered:
    Result<RgbImage, RenderError>)
    requires
        tile_set@.wf(),
        tile_set@.tiles.len() > 0,
    ensures
        rendered == Err::<RgbImage, RenderError>(RenderError::TileSize) <==> tile_size == 0,
        rendered == Err::<RgbImage, RenderError>(RenderError::OutputSize) <==> tile_size > 0
            && !output_fits(
            source_img@.width as int,
            source_img@.height as int,
            tile_size as int,
        ),
        rendered is Ok ==> {
            let layout = Layout {
                step: 1,
                htiles: source_img@.width as u32,
                vtiles: source_img@.height as u32,
                tile_size,
            };
            &&& rendered->Ok_0@.wf()
            &&& rendered->Ok_0@.width == source_img@.width * tile_size
            &&& rendered->Ok_0@.height == source_img@.height * tile_size
            &&& shows_some_tiles(rendered->Ok_0@, tile_set@, layout)
        },
        rendered is Err ==> match rendered->Err_0 {
            RenderError::TileSize => true,
            RenderError::OutputSize => true,
            RenderError::Image(error) => !has_all_pictures(tile_set@, tile_size),
            _ => false,
        },
        tile_size > 0 && output_fits(
            source_img@.width as int,
            source_img@.height as int,
            tile_size as int,
        ) && has_all_pictures(tile_set@, tile_size) ==> rendered is Ok,
{
    if tile_size == 0 {
        return Err(RenderError::TileSize);
    }
    let width = source_img.width();
    let height = source_img.height();
    proof {
        assert(width * tile_size <= 0xffff_ffff * 0xffff_ffff) by (nonlinear_arith)
            requires
                0 <= width <= 0xffff_ffff,
                0 <= tile_size <= 0xffff_ffff,
        ;
        assert(height * tile_size <= 0xffff_ffff * 0xffff_ffff) by (nonlinear_arith)
            requires
                0 <= height <= 0xffff_ffff,
                0 <= tile_size <= 0xffff_ffff,
        ;
    }
    let out_width: u64 = width as u64 * tile_size as u64;
    let out_height: u64 = height as u64 * tile_size as u64;
    if out_width > u32::MAX as u64 || out_height > u32::MAX as u64 {
        return Err(RenderError::OutputSize);
    }
    assert(out_width * out_height <= 0xffff_ffff * 0xffff_ffff) by (nonlinear_arith)
        requires
            0 <= out_width <= 0xffff_ffff,
            0 <= out_height <= 0xffff_ffff,
    ;
    if out_width * out_height > usize::MAX as u64 {
        return Err(RenderError::OutputSize);
    }
    let layout = Layout { step: 1, htiles: width, vtiles: height, tile_size };
    proof {
        lemma_cells_fit(layout);
    }
    let cells: usize = width as usize * height as usize;
    let mut pictures: Vec<RgbImage> = Vec::new();
    let ghost mut chosen: Seq<int> = Seq::empty();
    let mut c: usize = 0;
    while c < cells
        invariant
            c <= cells,
            tile_set@.wf(),
            tile_set@.tiles.len() > 0,
            pictures@.len() == c,
            chosen.len() == c,
            tile_size > 0,
            output_fits(source_img@.width as int, source_img@.height as int, tile_size as int),
            forall|k: int|
                0 <= k < c ==> (#[trigger] pictures@[k])@.width == tile_size && pictures@[k]@.height
                    == tile_size,
            forall|k: int|
                0 <= k < c ==> 1 <= #[trigger] chosen[k] <= tile_set@.tiles.len() && has_picture(
                    tile_set@,
                    chosen[k],
                    tile_size,
                ) && pictures@[k]@ == tile_set@.images[chosen[k] as u16],
        decreases cells - c,
    {
        let tile = tile_set.random_tile();
        let picture = match tile_set.get_image(tile, tile_size) {
            Ok(picture) => picture,
            Err(error) => {
                proof {
                    assert(!has_picture(tile_set@, tile.idx as int, tile_size));
                }
                return Err(RenderError::Image(error));
            },
        };
        if picture.width() != tile_size || picture.height() != tile_size {
            proof {
                assert(!has_picture(tile_set@, tile.idx as int, tile_size));
            }
            return Err(
                RenderError::Image(
                    ImageError {
                        path: tile_set.get_path(tile).clone(),
                        kind: ImageErrorKind::WrongSize,
                    },
                ),
            );
        }
        proof {
            chosen = chosen.push(tile.idx as int);
        }
        pictures.push(picture);
        c += 1;
    }
    let image = compose(source_img, &layout, &pictures);
    proof {
        assert forall|cx: int, cy: int| #[trigger] layout.has_cell(cx, cy) implies exists|idx: int|
            1 <= idx <= tile_set@.tiles.len() && #[trigger] has_picture(
                tile_set@,
                idx,
                layout.tile_size,
            ) && image@.shows_at(
                cx * layout.tile_size,
                cy * layout.tile_size,
                tile_set@.images[idx as u16],
            ) by {
            lemma_cell_number(layout, cx, cy);
            let k = cell_number(layout, cx, cy);
            assert(has_picture(tile_set@, chosen[k], layout.tile_size));
        }
    }
    Ok(image)
}

} // verus!
