//! The placement of tiles cell by cell: the nearest tile, or one picked at
//! random among the nearest.

use crate::analysis::get_img_colors;
use crate::color::ImageView;
use crate::color::Rgb;
use crate::color::RgbImage;
use crate::error::RenderError;
use crate::index::Entries;
use crate::index::NearestNeighbour;
use crate::index::SpatialIndex;
use crate::index::are_entries;
use crate::index::is_ascending;
use crate::index::is_nearest;
use crate::index::leaves_out_farther;
use crate::index::lemma_manhattan_zero;
use crate::index::manhattan;
use crate::index::names;
use crate::layout::Layout;
use crate::layout::cell_number;
use crate::layout::is_layout_of;
use crate::layout::lemma_cell_number;
use crate::layout::lemma_cells_apart;
use crate::layout::lemma_cells_fit;
use crate::random::choose_below;
use crate::random::shuffle;
use crate::rendering::RenderConfig;
use crate::tiles::tile::Tile;
use crate::tiles::tile::flat_coords;
use crate::tiles::tileset::TileSet;
use crate::tiles::tileset::lemma_catalog_size;
use crate::tiles::tileset::magnitude;
use vstd::prelude::*;

verus! {

/// How far, in percent of the least distance, a tile may lie beyond the
/// nearest tile and still be chosen: `numerator / denominator` percent.
#[derive(Clone, Copy, Debug)]
pub struct Tolerance {
    numerator: u32,
    denominator: u32,
}

/// Whether `distance` lies beyond `least` by less than `numerator /
/// denominator` percent of `least`.
pub open spec fn within_tolerance(distance: int, least: int, numerator: int, denominator: int) -> bool {
    (distance - least) * 100 * denominator < numerator * least
}

impl Tolerance {
    #[verifier::type_invariant]
    spec fn well_formed(&self) -> bool {
        self.denominator > 0
    }

    /// The number of percent times `denominator()`.
    pub closed spec fn numerator(&self) -> int {
        self.numerator as int
    }

    /// What the numerator is counted in; never 0.
    pub closed spec fn denominator(&self) -> int {
        self.denominator as int
    }

    /// The tolerance of `numerator / denominator` percent, or `None` where
    /// the denominator is 0.
    pub fn new(numerator: u32, denominator: u32) -> (made: Option<Tolerance>)
        ensures
            made is Some <==> denominator > 0,
            made is Some ==> made->0.numerator() == numerator && made->0.denominator()
                == denominator,
    {
        if denominator == 0 {
            None
        } else {
            Some(Tolerance { numerator, denominator })
        }
    }

    /// The tolerance of `percent` percent.
    pub fn percent(percent: u32) -> (made: Tolerance)
        ensures
            made.numerator() == percent,
            made.denominator() == 1,
    {
        Tolerance { numerator: percent, denominator: 1 }
    }

    /// Whether `distance` lies beyond `least` by less than this tolerance.
    pub open spec fn admits(&self, distance: int, least: int) -> bool {
        within_tolerance(distance, least, self.numerator(), self.denominator())
    }

    /// Whether `distance` lies beyond `least` by less than this tolerance.
    pub fn allows(&self, distance: u32, least: u32) -> (within: bool)
        requires
            least <= distance,
        ensures
            within == self.admits(distance as int, least as int),
            self.denominator() > 0,
    {
        proof {
            use_type_invariant(self);
        }
        let beyond: u128 = (distance - least) as u128;
        assert(beyond * 100 * self.denominator <= 0xffff_ffff * 100 * 0xffff_ffff)
            by (nonlinear_arith)
            requires
                0 <= beyond <= 0xffff_ffff,
                0 <= self.denominator <= 0xffff_ffff,
        ;
        assert(beyond * 100 <= 0xffff_ffff * 100);
        assert(self.numerator * least <= 0xffff_ffff * 0xffff_ffff) by (nonlinear_arith)
            requires
                0 <= self.numerator <= 0xffff_ffff,
                0 <= least <= 0xffff_ffff,
        ;
        beyond * 100 * (self.denominator as u128) < self.numerator as u128 * least as u128
    }
}

/// How many candidates, counted from `from` on, are kept: the nearest always
/// is, and each next one as long as it lies within the tolerance of the
/// nearest.
pub open spec fn kept_from(found: Seq<NearestNeighbour>, tolerance: Tolerance, from: int) -> nat
    decreases found.len() - from,
{
    if from < 0 || from >= found.len() {
        0
    } else if from == 0 || tolerance.admits(found[from].distance as int, found[0].distance as int) {
        1 + kept_from(found, tolerance, from + 1)
    } else {
        0
    }
}

/// Every candidate that is kept is the nearest or lies within the tolerance
/// of the nearest.
pub proof fn lemma_kept(found: Seq<NearestNeighbour>, tolerance: Tolerance, from: int, i: int)
    requires
        0 <= from <= i < from + kept_from(found, tolerance, from),
    ensures
        i < found.len(),
        i == 0 || tolerance.admits(found[i].distance as int, found[0].distance as int),
    decreases found.len() - from,
{
    if from < found.len() && i > from {
        lemma_kept(found, tolerance, from + 1, i);
    }
}

/// With no tolerance only the nearest candidate is kept.
pub proof fn lemma_kept_without_tolerance(found: Seq<NearestNeighbour>, tolerance: Tolerance)
    requires
        found.len() > 0,
        tolerance.numerator() == 0,
        tolerance.denominator() > 0,
        is_ascending(found),
    ensures
        kept_from(found, tolerance, 0) == 1,
{
    if found.len() > 1 {
        let beyond = found[1].distance - found[0].distance;
        let denominator = tolerance.denominator();
        assert(found[0].distance <= found[1].distance);
        assert(beyond * 100 * denominator >= 0) by (nonlinear_arith)
            requires
                beyond >= 0,
                denominator > 0,
        ;
        assert(kept_from(found, tolerance, 1) == 0);
    } else {
        assert(kept_from(found, tolerance, 1) == 0);
    }
}

/// How many of the candidates, which go from near to far, the randomized
/// placement chooses among: the nearest, and those after it as long as they
/// lie within the tolerance of the nearest.
pub fn retained_candidates(found: &Vec<NearestNeighbour>, tolerance: &Tolerance) -> (count: usize)
    requires
        is_ascending(found@),
    ensures
        count == kept_from(found@, *tolerance, 0),
        count <= found@.len(),
        found@.len() > 0 ==> count >= 1,
{
    if found.len() == 0 {
        return 0;
    }
    let least = found[0].distance;
    let mut count: usize = 1;
    while count < found.len() && tolerance.allows(found[count].distance, least)
        invariant
            1 <= count <= found@.len(),
            least == found@[0].distance,
            is_ascending(found@),
            kept_from(found@, *tolerance, 0) == count + kept_from(found@, *tolerance, count as int),
        decreases found@.len() - count,
    {
        count += 1;
    }
    count
}

/// Whether `found` is what the placement policy may choose for `query` among
/// `entries`: an entry with its distance, the nearest there is where nothing
/// is left to chance, and otherwise one within the tolerance of the nearest.
pub open spec fn fits_policy(
    entries: Entries,
    query: Seq<u8>,
    found: NearestNeighbour,
    randomize: Option<Tolerance>,
) -> bool {
    &&& entries.dom().contains(found.item)
    &&& found.distance == manhattan(entries[found.item], query)
    &&& match randomize {
        None => is_nearest(entries, query, found),
        Some(tolerance) => exists|nearest: NearestNeighbour| #[trigger]
            is_nearest(entries, query, nearest) && (found.distance == nearest.distance
                || tolerance.admits(found.distance as int, nearest.distance as int)),
    }
}

/// A tile chosen with a tolerance of nothing is a nearest tile: what the
/// randomized placement may choose then, the placement without chance may
/// choose too.
pub proof fn lemma_no_tolerance_is_nearest(
    entries: Entries,
    query: Seq<u8>,
    found: NearestNeighbour,
    tolerance: Tolerance,
)
    requires
        tolerance.numerator() == 0,
        tolerance.denominator() > 0,
        fits_policy(entries, query, found, Some(tolerance)),
    ensures
        fits_policy(entries, query, found, None),
{
    let nearest = choose|nearest: NearestNeighbour| #[trigger]
        is_nearest(entries, query, nearest) && (found.distance == nearest.distance
            || tolerance.admits(found.distance as int, nearest.distance as int));
    let beyond = found.distance - nearest.distance;
    let denominator = tolerance.denominator();
    assert(nearest.distance <= manhattan(entries[found.item], query));
    assert(beyond * 100 * denominator >= 0) by (nonlinear_arith)
        requires
            beyond >= 0,
            denominator > 0,
    ;
    assert(0 * nearest.distance == 0);
}

/// A cell that the catalog has a tile for, as it is or mirrored, gets a tile
/// at distance 0 from the placement without chance, and that tile's point is
/// the cell's.
pub proof fn lemma_exact_match(
    entries: Entries,
    query: Seq<u8>,
    found: NearestNeighbour,
    twin: i16,
)
    requires
        fits_policy(entries, query, found, None),
        entries.dom().contains(twin),
        entries[twin] == query,
        entries[found.item].len() == query.len(),
    ensures
        found.distance == 0,
        entries[found.item] == query,
{
    lemma_manhattan_zero(entries[twin], query);
    assert(found.distance <= manhattan(entries[twin], query));
    lemma_manhattan_zero(entries[found.item], query);
}

/// The first of the nearest entries is a nearest entry.
pub proof fn lemma_first_is_nearest(entries: Entries, query: Seq<u8>, found: Seq<NearestNeighbour>)
    requires
        found.len() > 0,
        are_entries(entries, query, found),
        is_ascending(found),
        leaves_out_farther(entries, query, found),
    ensures
        is_nearest(entries, query, found[0]),
{
    assert forall|other: i16| entries.dom().contains(other) implies found[0].distance
        <= manhattan(#[trigger] entries[other], query) by {
        if names(found, other) {
            let i = choose|i: int| 0 <= i < found.len() && (#[trigger] found[i]).item == other;
            assert(found[0].distance <= found[i].distance);
        } else {
            assert(found[0].distance <= manhattan(entries[other], query));
        }
    }
}

/// Chooses an entry of the index for the cell at `query`. Without a
/// tolerance it is the nearest entry. With one it is picked at random among
/// the nearest 20: the nearest itself and those after it, from near to far,
/// as long as they lie within the tolerance of the nearest; so with a
/// tolerance of nothing it is a nearest entry again. An empty index has
/// nothing to choose.
pub fn choose_tile<const K: usize>(
    index: &SpatialIndex<K>,
    query: &Vec<u8>,
    randomize: Option<Tolerance>,
) -> (chosen: Option<NearestNeighbour>)
    requires
        query@.len() == K,
        !index@.dom().contains(0i16),
    ensures
        chosen is Some <==> !index@.dom().is_empty(),
        chosen is Some ==> fits_policy(index@, query@, chosen->0, randomize),
        chosen is Some && randomize is Some && randomize->0.numerator() == 0 ==> is_nearest(
            index@,
            query@,
            chosen->0,
        ),
{
    match randomize {
        Some(tolerance) => {
            let config = RenderConfig::default();
            let found = index.nearest_n(query, config.random_neighbor_count);
            let count = retained_candidates(&found, &tolerance);
            proof {
                use_type_invariant(&tolerance);
                if !index@.dom().is_empty() {
                    if found@.len() == 0 {
                        let other = choose|other: i16| index@.dom().contains(other);
                        assert(names(found@, other));
                    }
                }
            }
            match choose_below(count) {
                Some(picked) => {
                    proof {
                        lemma_first_is_nearest(index@, query@, found@);
                        lemma_kept(found@, tolerance, 0, picked as int);
                        assert(is_nearest(index@, query@, found@[0]));
                        if tolerance.numerator() == 0 {
                            lemma_kept_without_tolerance(found@, tolerance);
                        }
                    }
                    Some(found[picked])
                },
                None => None,
            }
        },
        None => {
            let found = index.nearest_one(query);
            if found.item == 0 {
                None
            } else {
                Some(found)
            }
        },
    }
}

/// The colours of the `N` pixels of the block of `source` whose top left
/// corner is `(x, y)`, row after row, `step` pixels to a row.
pub open spec fn cell_colors<const N: usize>(source: ImageView, x: int, y: int, step: int) -> Seq<
    Rgb,
> {
    Seq::new(N as nat, |i: int| source.pixel(x + i % step, y + i / step))
}

/// The point in colour space of the block of `source` at `(x, y)`.
pub open spec fn cell_point<const N: usize>(source: ImageView, x: int, y: int, step: int) -> Seq<
    u8,
> {
    flat_coords(cell_colors::<N>(source, x, y, step))
}

/// The point in colour space of the block of `step` by `step` pixels of
/// `source_img` whose top left corner is `(x, y)`.
pub fn cell_query<const N: usize>(source_img: &RgbImage, x: u32, y: u32, step: u32) -> (query: Vec<
    u8,
>)
    requires
        step > 0,
        step * step == N,
        3 * N <= usize::MAX,
        x + step <= source_img@.width,
        y + step <= source_img@.height,
    ensures
        query@ == cell_point::<N>(source_img@, x as int, y as int, step as int),
        query@.len() == 3 * N,
{
    proof {
        assert forall|i: int| 0 <= i < N implies #[trigger] source_img@.contains(
            x + i % step as int,
            y + i / step as int,
        ) by {
            vstd::arithmetic::div_mod::lemma_fundamental_div_mod(i, step as int);
            assert(0 <= i / step as int && i / step as int <= step - 1) by (nonlinear_arith)
                requires
                    0 <= i < step * step,
                    i == step * (i / step as int) + i % step as int,
                    0 <= i % step as int,
                    i % step as int <= step - 1,
                    step > 0,
            ;
        }
    }
    let colors = get_img_colors::<N>(x, y, step, source_img);
    let tile = Tile::from_colors(colors);
    let query = tile.coords();
    proof {
        assert(colors@ =~= cell_colors::<N>(source_img@, x as int, y as int, step as int));
    }
    query
}

/// The point in colour space of the cell `(cx, cy)` of `source`.
pub open spec fn query_of<const N: usize>(source: ImageView, layout: Layout, cx: int, cy: int) -> Seq<
    u8,
> {
    cell_point::<N>(source, cx * layout.step, cy * layout.step, layout.step as int)
}

/// Whether `found` names an entry and tells its distance from the cell
/// `(cx, cy)` of `source`.
pub open spec fn cell_match<const N: usize>(
    found: NearestNeighbour,
    entries: Entries,
    source: ImageView,
    layout: Layout,
    cx: int,
    cy: int,
) -> bool {
    entries.dom().contains(found.item) && found.distance == manhattan(
        entries[found.item],
        query_of::<N>(source, layout, cx, cy),
    )
}

/// Whether every entry of `part` is an entry of `whole`, at the same point.
pub open spec fn is_part_of(part: Entries, whole: Entries) -> bool {
    forall|item: i16| #[trigger]
        part.dom().contains(item) ==> whole.dom().contains(item) && part[item] == whole[item]
}

/// Whether every entry that is gone from `rest` is one of `found`.
pub open spec fn gone_are_chosen(entries: Entries, rest: Entries, found: Seq<NearestNeighbour>) -> bool {
    forall|item: i16|
        entries.dom().contains(item) && !(#[trigger] rest.dom().contains(item)) ==> names(
            found,
            item,
        )
}

/// Whether the cell `(ax, ay)` has had its turn when the rows above `cy` are
/// done and, of row `cy`, the first `j` cells in the given order.
pub open spec fn served(order: Seq<u32>, j: int, cy: int, ax: int, ay: int) -> bool {
    0 <= ay < cy || (ay == cy && exists|k: int| 0 <= k < j && #[trigger] order[k] == ax)
}

/// Chooses a tile for every cell of the source image, row after row from the
/// top and within each row in an order left to chance. Each cell gets what
/// `choose_tile` gives it among the entries the index holds at its turn, and
/// with `no_repeat` that entry leaves the index at once, so that no entry
/// serves two cells. The result lists the choices by cell, row after row.
/// With the index of a catalog that has a tile, and with `no_repeat` at
/// least one entry for each cell, every cell gets a tile.
pub fn match_cells<const N: usize, const K: usize>(
    source_img: &RgbImage,
    tile_set: &TileSet<[Rgb; N]>,
    index: &mut SpatialIndex<K>,
    layout: &Layout,
    no_repeat: bool,
    randomize: Option<Tolerance>,
) -> (matched: Result<Vec<NearestNeighbour>, RenderError>)
    requires
        is_layout_of::<N>(*layout, source_img@),
        K == 3 * N,
        tile_set@.wf(),
        old(index)@ == tile_set.entries(),
        no_repeat ==> layout.cells() <= 2 * tile_set@.tiles.len(),
    ensures
        matched is Ok ==> matched->Ok_0@.len() == layout.cells(),
        matched is Ok ==> forall|c: int|
            0 <= c < matched->Ok_0@.len() ==> tile_set.entries().dom().contains(
                (#[trigger] matched->Ok_0@[c]).item,
            ),
        matched is Ok ==> forall|cx: int, cy: int|
            layout.has_cell(cx, cy) ==> #[trigger] cell_match::<N>(
                matched->Ok_0@[cell_number(*layout, cx, cy)],
                tile_set.entries(),
                source_img@,
                *layout,
                cx,
                cy,
            ),
        matched is Ok && !no_repeat ==> forall|cx: int, cy: int| #[trigger]
            layout.has_cell(cx, cy) ==> fits_policy(
                tile_set.entries(),
                query_of::<N>(source_img@, *layout, cx, cy),
                matched->Ok_0@[cell_number(*layout, cx, cy)],
                randomize,
            ),
        matched is Ok && no_repeat ==> forall|a: int, b: int|
            0 <= a < b < matched->Ok_0@.len() ==> (#[trigger] matched->Ok_0@[a]).item != (
            #[trigger] matched->Ok_0@[b]).item,
        matched is Ok && no_repeat ==> forall|c: int|
            0 <= c < matched->Ok_0@.len() ==> !final(index)@.dom().contains(
                (#[trigger] matched->Ok_0@[c]).item,
            ),
        matched is Ok && no_repeat && randomize is None ==> forall|cx: int, cy: int, other: i16|
            layout.has_cell(cx, cy) && final(index)@.dom().contains(other) ==> (
            #[trigger] matched->Ok_0@[cell_number(*layout, cx, cy)]).distance <= manhattan(
                #[trigger] tile_set.entries()[other],
                query_of::<N>(source_img@, *layout, cx, cy),
            ),
        matched is Ok ==> gone_are_chosen(tile_set.entries(), final(index)@, matched->Ok_0@),
        is_part_of(final(index)@, tile_set.entries()),
        !no_repeat ==> final(index)@ == old(index)@,
        matched is Err ==> matched == Err::<Vec<NearestNeighbour>, RenderError>(
            RenderError::IndexConsistency,
        ) && tile_set@.tiles.len() == 0 && layout.cells() > 0,
        tile_set@.tiles.len() > 0 || layout.cells() == 0 ==> matched is Ok,
{
    let ghost entries = tile_set.entries();
    let ghost source = source_img@;
    let htiles = layout.htiles;
    let vtiles = layout.vtiles;
    let step = layout.step;
    index.check();
    proof {
        lemma_cells_fit(*layout);
        lemma_catalog_size(tile_set@.tiles, tile_set@.tiles.len() as int);
    }
    let cells: usize = htiles as usize * vtiles as usize;
    let mut found: Vec<NearestNeighbour> = Vec::new();
    let mut c: usize = 0;
    while c < cells
        invariant
            c <= cells,
            found@.len() == c,
            forall|k: int| 0 <= k < c ==> (#[trigger] found@[k]).item == 0,
        decreases cells - c,
    {
        found.push(NearestNeighbour { distance: 0, item: 0 });
        c += 1;
    }
    proof {
        assert forall|ax: int, ay: int| 0 <= ax < htiles && 0 <= ay < vtiles implies (
        #[trigger] found@[cell_number(*layout, ax, ay)]).item == 0 by {
            lemma_cell_number(*layout, ax, ay);
        }
    }
    let mut cy: u32 = 0;
    while cy < vtiles
        invariant
            cy <= vtiles,
            is_layout_of::<N>(*layout, source),
            source == source_img@,
            K == 3 * N,
            tile_set@.wf(),
            entries == tile_set.entries(),
            entries == old(index)@,
            entries.dom().finite(),
            entries.dom().len() == 2 * tile_set@.tiles.len(),
            htiles == layout.htiles,
            vtiles == layout.vtiles,
            step == layout.step,
            cells == layout.cells(),
            found@.len() == cells,
            no_repeat ==> layout.cells() <= 2 * tile_set@.tiles.len(),
            is_part_of(index@, entries),
            gone_are_chosen(entries, index@, found@),
            forall|ax: int, ay: int|
                0 <= ax < htiles && cy <= ay < vtiles ==> (#[trigger] found@[cell_number(
                    *layout,
                    ax,
                    ay,
                )]).item == 0,
            !no_repeat ==> index@ == entries,
            no_repeat ==> index@.dom().len() + cy * htiles == entries.dom().len(),
            forall|ax: int, ay: int|
                0 <= ax < htiles && 0 <= ay < cy ==> #[trigger] cell_match::<N>(
                    found@[cell_number(*layout, ax, ay)],
                    entries,
                    source,
                    *layout,
                    ax,
                    ay,
                ),
            !no_repeat ==> forall|ax: int, ay: int|
                0 <= ax < htiles && 0 <= ay < cy ==> #[trigger] fits_policy(
                    entries,
                    query_of::<N>(source, *layout, ax, ay),
                    found@[cell_number(*layout, ax, ay)],
                    randomize,
                ),
            forall|k: int|
                0 <= k < found@.len() && (#[trigger] found@[k]).item != 0 ==> !index@.dom().contains(
                    found@[k].item,
                ) || !no_repeat,
            no_repeat ==> forall|a: int, b: int|
                0 <= a < b < found@.len() && (#[trigger] found@[a]).item != 0 && (
                #[trigger] found@[b]).item != 0 ==> found@[a].item != found@[b].item,
            no_repeat && randomize is None ==> forall|ax: int, ay: int, other: i16|
                0 <= ax < htiles && 0 <= ay < cy && index@.dom().contains(other) ==> (
                #[trigger] found@[cell_number(*layout, ax, ay)]).distance <= manhattan(
                    #[trigger] entries[other],
                    query_of::<N>(source, *layout, ax, ay),
                ),
        decreases vtiles - cy,
    {
        let mut order: Vec<u32> = Vec::new();
        let mut cx: u32 = 0;
        while cx < htiles
            invariant
                cx <= htiles,
                order@.len() == cx,
                forall|k: int| 0 <= k < cx ==> order@[k] == k,
            decreases htiles - cx,
        {
            order.push(cx);
            cx += 1;
        }
        let ghost sorted = order@;
        shuffle(&mut order);
        proof {
            vstd::seq_lib::to_multiset_len(sorted);
            vstd::seq_lib::to_multiset_len(order@);
            assert forall|k: int| 0 <= k < order@.len() implies (#[trigger] order@[k]) < htiles by {
                vstd::seq_lib::to_multiset_contains(order@, order@[k]);
                vstd::seq_lib::to_multiset_contains(sorted, order@[k]);
                assert(order@.contains(order@[k]));
                assert(sorted.contains(order@[k]));
            }
            assert(sorted.no_duplicates());
            sorted.lemma_multiset_has_no_duplicates();
            order@.lemma_multiset_has_no_duplicates_conv();
            assert forall|v: u32| v < htiles implies #[trigger] order@.contains(v) by {
                vstd::seq_lib::to_multiset_contains(order@, v);
                vstd::seq_lib::to_multiset_contains(sorted, v);
                assert(sorted[v as int] == v);
                assert(sorted.contains(v));
            }
            assert((cy + 1) * htiles == cy * htiles + htiles) by (nonlinear_arith);
            assert(cy * htiles + htiles <= vtiles * htiles) by (nonlinear_arith)
                requires
                    cy + 1 <= vtiles,
                    htiles >= 0,
            ;
            assert(vtiles * htiles == htiles * vtiles) by (nonlinear_arith);
        }
        let mut j: usize = 0;
        while j < order.len()
            invariant
                j <= order@.len(),
                order@.len() == htiles,
                cy < vtiles,
                forall|k: int| 0 <= k < order@.len() ==> (#[trigger] order@[k]) < htiles,
                forall|v: u32| v < htiles ==> #[trigger] order@.contains(v),
                is_layout_of::<N>(*layout, source),
                source == source_img@,
                K == 3 * N,
                tile_set@.wf(),
                entries == tile_set.entries(),
                entries == old(index)@,
                entries.dom().finite(),
                entries.dom().len() == 2 * tile_set@.tiles.len(),
                htiles == layout.htiles,
                vtiles == layout.vtiles,
                step == layout.step,
                cells == layout.cells(),
                found@.len() == cells,
                no_repeat ==> layout.cells() <= 2 * tile_set@.tiles.len(),
                cy * htiles + htiles <= htiles * vtiles,
                is_part_of(index@, entries),
                gone_are_chosen(entries, index@, found@),
                order@.no_duplicates(),
                forall|ax: int, ay: int|
                    0 <= ax < htiles && cy <= ay < vtiles && !served(
                        order@,
                        j as int,
                        cy as int,
                        ax,
                        ay,
                    ) ==> (#[trigger] found@[cell_number(*layout, ax, ay)]).item == 0,
                !no_repeat ==> index@ == entries,
                no_repeat ==> index@.dom().len() + cy * htiles + j == entries.dom().len(),
                forall|ax: int, ay: int|
                    0 <= ax < htiles && served(order@, j as int, cy as int, ax, ay) ==> #[trigger] cell_match::<N>(
                        found@[cell_number(*layout, ax, ay)],
                        entries,
                        source,
                        *layout,
                        ax,
                        ay,
                    ),
                !no_repeat ==> forall|ax: int, ay: int|
                    0 <= ax < htiles && served(order@, j as int, cy as int, ax, ay) ==> #[trigger] fits_policy(
                        entries,
                        query_of::<N>(source, *layout, ax, ay),
                        found@[cell_number(*layout, ax, ay)],
                        randomize,
                    ),
                forall|k: int|
                    0 <= k < found@.len() && (#[trigger] found@[k]).item != 0
                        ==> !index@.dom().contains(found@[k].item) || !no_repeat,
                no_repeat ==> forall|a: int, b: int|
                    0 <= a < b < found@.len() && (#[trigger] found@[a]).item != 0 && (
                    #[trigger] found@[b]).item != 0 ==> found@[a].item != found@[b].item,
                no_repeat && randomize is None ==> forall|ax: int, ay: int, other: i16|
                    0 <= ax < htiles && served(order@, j as int, cy as int, ax, ay) && index@.dom().contains(other) ==> (
                    #[trigger] found@[cell_number(*layout, ax, ay)]).distance <= manhattan(
                        #[trigger] entries[other],
                        query_of::<N>(source, *layout, ax, ay),
                    ),
            decreases order@.len() - j,
        {
            let cx = order[j];
            index.check();
            proof {
                lemma_cell_number(*layout, cx as int, cy as int);
                lemma_cells_apart(cx as int, htiles as int, step as int);
                lemma_cells_apart(cy as int, vtiles as int, step as int);
            }
            let query = cell_query::<N>(source_img, cx * step, cy * step, step);
            let ghost held = index@;
            let chosen = match choose_tile(&*index, &query, randomize) {
                Some(chosen) => chosen,
                None => {
                    proof {
                        if tile_set@.tiles.len() > 0 {
                            if no_repeat {
                                assert(cy * htiles + j < htiles * vtiles);
                            }
                            assert(index@.dom().len() > 0);
                        }
                    }
                    return Err(RenderError::IndexConsistency);
                },
            };
            if no_repeat {
                let tile = match tile_set.get_tile(chosen.item) {
                    Some(tile) => tile,
                    None => {
                        return Err(RenderError::IndexConsistency);
                    },
                };
                let point = tile.coords();
                proof {
                    assert(tile.colors == tile_set@.tiles[magnitude(chosen.item) - 1].colors);
                }
                let removed = index.remove(&point, chosen.item);
                if removed == 0 {
                    return Err(RenderError::IndexConsistency);
                }
            }
            let at = cy as usize * htiles as usize + cx as usize;
            let ghost earlier = found@;
            proof {
                assert(!served(order@, j as int, cy as int, cx as int, cy as int)) by {
                    if served(order@, j as int, cy as int, cx as int, cy as int) {
                        let k = choose|k: int| 0 <= k < j && #[trigger] order@[k] == cx as int;
                        assert(order@[k] != order@[j as int]);
                    }
                }
                assert(earlier[cell_number(*layout, cx as int, cy as int)].item == 0);
            }
            found[at] = chosen;
            proof {
                assert forall|item: i16|
                    entries.dom().contains(item) && !(#[trigger] index@.dom().contains(
                        item,
                    )) implies names(found@, item) by {
                    if item == chosen.item {
                        assert(found@[at as int].item == item);
                    } else {
                        assert(!held.dom().contains(item));
                        assert(names(earlier, item));
                        let k = choose|k: int| 0 <= k < earlier.len() && (#[trigger] earlier[k]).item
                            == item;
                        assert(k != at);
                        assert(found@[k].item == item);
                    }
                }
                assert forall|ax: int, ay: int|
                    0 <= ax < htiles && cy <= ay < vtiles && !served(
                        order@,
                        j + 1,
                        cy as int,
                        ax,
                        ay,
                    ) implies (#[trigger] found@[cell_number(*layout, ax, ay)]).item == 0 by {
                    lemma_cell_number(*layout, ax, ay);
                    if ax == cx && ay == cy {
                        assert(order@[j as int] == ax);
                    } else {
                        if served(order@, j as int, cy as int, ax, ay) {
                            let k = choose|k: int| 0 <= k < j && #[trigger] order@[k] == ax;
                            assert(0 <= k < j + 1 && order@[k] == ax);
                        }
                        assert(earlier[cell_number(*layout, ax, ay)].item == 0);
                    }
                }
            }
            proof {
                assert forall|ax: int, ay: int|
                    0 <= ax < htiles && 0 <= ay < vtiles && (ax != cx || ay
                        != cy) implies cell_number(*layout, ax, ay) != at by {
                    lemma_cell_number(*layout, ax, ay);
                }
                assert forall|ax: int, ay: int|
                    0 <= ax < htiles && served(order@, j + 1, cy as int, ax, ay) implies #[trigger] cell_match::<
                    N,
                >(found@[cell_number(*layout, ax, ay)], entries, source, *layout, ax, ay) by {
                    lemma_cell_number(*layout, ax, ay);
                    if ax != cx || ay != cy {
                        if ay == cy {
                            let k = choose|k: int| 0 <= k < j + 1 && #[trigger] order@[k] == ax;
                            assert(k < j);
                        }
                        assert(cell_match::<N>(
                            earlier[cell_number(*layout, ax, ay)],
                            entries,
                            source,
                            *layout,
                            ax,
                            ay,
                        ));
                    }
                }
                if !no_repeat {
                    assert forall|ax: int, ay: int|
                        0 <= ax < htiles && served(order@, j + 1, cy as int, ax, ay) implies #[trigger] fits_policy(
                        entries,
                        query_of::<N>(source, *layout, ax, ay),
                        found@[cell_number(*layout, ax, ay)],
                        randomize,
                    ) by {
                        lemma_cell_number(*layout, ax, ay);
                        if ax != cx || ay != cy {
                            if ay == cy {
                                let k = choose|k: int| 0 <= k < j + 1 && #[trigger] order@[k] == ax;
                                assert(k < j);
                            }
                            assert(fits_policy(
                                entries,
                                query_of::<N>(source, *layout, ax, ay),
                                earlier[cell_number(*layout, ax, ay)],
                                randomize,
                            ));
                        }
                    }
                }
                if no_repeat && randomize is None {
                    assert forall|ax: int, ay: int, other: i16|
                        0 <= ax < htiles && served(order@, j + 1, cy as int, ax, ay) && index@.dom().contains(
                            other,
                        ) implies (#[trigger] found@[cell_number(*layout, ax, ay)]).distance
                        <= manhattan(
                        #[trigger] entries[other],
                        query_of::<N>(source, *layout, ax, ay),
                    ) by {
                        lemma_cell_number(*layout, ax, ay);
                        assert(held.dom().contains(other));
                        assert(held[other] == entries[other]);
                        if ax != cx || ay != cy {
                            if ay == cy {
                                let k = choose|k: int| 0 <= k < j + 1 && #[trigger] order@[k] == ax;
                                assert(k < j);
                            }
                            assert(earlier[cell_number(*layout, ax, ay)].distance <= manhattan(
                                entries[other],
                                query_of::<N>(source, *layout, ax, ay),
                            ));
                        }
                    }
                }
            }
            j += 1;
        }
        proof {
            assert forall|ax: int, ay: int|
                0 <= ax < htiles && 0 <= ay < cy + 1 implies #[trigger] served(
                order@,
                order@.len() as int,
                cy as int,
                ax,
                ay,
            ) by {
                if ay == cy {
                    assert(order@.contains(ax as u32));
                    let k = choose|k: int| 0 <= k < order@.len() && order@[k] == ax as u32;
                    assert(order@[k] == ax);
                }
            }
            assert forall|ax: int, ay: int| 0 <= ax < htiles && cy + 1 <= ay < vtiles implies (
            #[trigger] found@[cell_number(*layout, ax, ay)]).item == 0 by {
                assert(!served(order@, order@.len() as int, cy as int, ax, ay));
            }
        }
        cy = cy + 1;
    }
    proof {
        assert forall|c: int| 0 <= c < found@.len() implies (#[trigger] found@[c]).item != 0
            && entries.dom().contains(found@[c].item) by {
            if layout.htiles > 0 {
                let ay = c / layout.htiles as int;
                let ax = c % layout.htiles as int;
                vstd::arithmetic::div_mod::lemma_fundamental_div_mod(c, layout.htiles as int);
                assert(0 <= ay < vtiles) by (nonlinear_arith)
                    requires
                        0 <= c < htiles * vtiles,
                        c == htiles * ay + ax,
                        0 <= ax < htiles,
                ;
                assert(htiles * ay == ay * htiles) by (nonlinear_arith);
                assert(c == cell_number(*layout, ax, ay));
                assert(cell_match::<N>(found@[c], entries, source, *layout, ax, ay));
            } else {
                assert(htiles * vtiles == 0) by (nonlinear_arith)
                    requires
                        htiles == 0,
                ;
            }
        }
    }
    Ok(found)
}

} // verus!
