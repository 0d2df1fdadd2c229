//! The placement that uses no tile twice: every cell keeps a list of
//! candidates, and the cells are served one at a time, the cell whose best
//! candidate lies farthest first.

use crate::algorithms::compare_matches;
use crate::color::ImageView;
use crate::color::Rgb;
use crate::color::RgbImage;
use crate::error::RenderError;
use crate::index::Entries;
use crate::index::MAX_ENTRIES;
use crate::index::NearestNeighbour;
use crate::index::SpatialIndex;
use crate::index::are_entries;
use crate::index::is_ascending;
use crate::index::leaves_out_farther;
use crate::index::manhattan;
use crate::index::names;
use crate::index::names_all;
use crate::layout::Layout;
use crate::layout::cell_number;
use crate::layout::is_layout_of;
use crate::layout::lemma_cell_number;
use crate::layout::lemma_cells_apart;
use crate::layout::lemma_cells_fit;
use crate::matching::cell_match;
use crate::matching::cell_query;
use crate::matching::is_part_of;
use crate::matching::query_of;
use crate::tiles::tile::flat_coords;
use crate::tiles::tileset::TileSet;
use crate::tiles::tileset::lemma_catalog_size;
use crate::tiles::tileset::magnitude;
use crate::tiles::utils::flipped_coords;
use crate::tiles::utils::int_sqrt;
use crate::tiles::utils::lemma_int_sqrt;
use crate::tiles::utils::lemma_mirrored_twice;
use std::collections::HashSet;
use vstd::prelude::*;

verus! {

broadcast use vstd::std_specs::hash::group_hash_axioms;

/// A cell that waits for its tile, with the candidates it has left: entries
/// of the index with their distances from the cell, the best of them last.
pub struct Pending {
    /// The number of the cell, the cells counted column after column.
    pub cell: usize,
    /// The candidates, the best last.
    pub candidates: Vec<NearestNeighbour>,
}

/// The distance of a waiting cell's best candidate: the last of its list.
pub open spec fn best(pending: Pending) -> u32 {
    pending.candidates@.last().distance
}

/// Whether every waiting cell has a candidate.
pub open spec fn have_candidates(pending: Seq<Pending>) -> bool {
    forall|k: int| 0 <= k < pending.len() ==> (#[trigger] pending[k]).candidates@.len() > 0
}

/// Whether the waiting cells stand in the order of their turns, the next to
/// be served last: no cell's best candidate lies farther than that of a cell
/// after it.
pub open spec fn is_ordered(pending: Seq<Pending>) -> bool {
    forall|i: int, j: int|
        0 <= i <= j < pending.len() ==> best(#[trigger] pending[i]) <= best(#[trigger] pending[j])
}

/// How many of the candidates name an entry that is used up.
pub open spec fn stale(candidates: Seq<NearestNeighbour>, used: Set<i16>) -> nat
    decreases candidates.len(),
{
    if candidates.len() == 0 {
        0
    } else {
        stale(candidates.drop_last(), used) + (if used.contains(candidates.last().item) {
            1nat
        } else {
            0nat
        })
    }
}

/// How many candidates of all the waiting cells name an entry that is used
/// up.
pub open spec fn stale_total(pending: Seq<Pending>, used: Set<i16>) -> nat
    decreases pending.len(),
{
    if pending.len() == 0 {
        0
    } else {
        stale_total(pending.drop_last(), used) + stale(pending.last().candidates@, used)
    }
}

/// Candidates of which none is used up are all fresh.
pub proof fn lemma_stale_fresh(candidates: Seq<NearestNeighbour>, used: Set<i16>)
    requires
        forall|i: int| 0 <= i < candidates.len() ==> !used.contains((#[trigger] candidates[i]).item),
    ensures
        stale(candidates, used) == 0,
    decreases candidates.len(),
{
    if candidates.len() > 0 {
        assert forall|i: int| 0 <= i < candidates.drop_last().len() implies !used.contains(
            (#[trigger] candidates.drop_last()[i]).item,
        ) by {
            assert(candidates.drop_last()[i] == candidates[i]);
        }
        lemma_stale_fresh(candidates.drop_last(), used);
    }
}

/// A cell that joins the waiting cells brings its stale candidates along.
pub proof fn lemma_stale_total_insert(pending: Seq<Pending>, at: int, cell: Pending, used: Set<i16>)
    requires
        0 <= at <= pending.len(),
    ensures
        stale_total(pending.insert(at, cell), used) == stale_total(pending, used) + stale(
            cell.candidates@,
            used,
        ),
    decreases pending.len(),
{
    let grown = pending.insert(at, cell);
    if at == pending.len() {
        assert(grown.drop_last() =~= pending);
        assert(grown.last() == cell);
    } else {
        assert(grown.drop_last() =~= pending.drop_last().insert(at, cell));
        assert(grown.last() == pending.last());
        lemma_stale_total_insert(pending.drop_last(), at, cell, used);
    }
}

/// Turns a list of candidates round, so that the first becomes the last.
pub fn best_last(found: Vec<NearestNeighbour>) -> (turned: Vec<NearestNeighbour>)
    ensures
        turned@ == found@.reverse(),
{
    let mut found = found;
    let ghost given = found@;
    let mut turned: Vec<NearestNeighbour> = Vec::new();
    while found.len() > 0
        invariant
            found@.len() + turned@.len() == given.len(),
            found@ == given.subrange(0, found@.len() as int),
            forall|i: int| 0 <= i < turned@.len() ==> #[trigger] turned@[i] == given[given.len() - 1 - i],
        decreases found@.len(),
    {
        let last = found.pop().unwrap();
        turned.push(last);
    }
    assert(turned@ =~= given.reverse());
    turned
}

/// Where a cell whose best candidate lies at `distance` belongs among the
/// waiting cells: behind every cell whose best candidate lies no farther,
/// before every cell whose best candidate lies farther.
pub fn urgency_position(pending: &Vec<Pending>, distance: u32) -> (at: usize)
    requires
        have_candidates(pending@),
        is_ordered(pending@),
    ensures
        at <= pending@.len(),
        forall|k: int| 0 <= k < at ==> best(#[trigger] pending@[k]) <= distance,
        forall|k: int| at <= k < pending@.len() ==> best(#[trigger] pending@[k]) > distance,
{
    let mut low: usize = 0;
    let mut high: usize = pending.len();
    while low < high
        invariant
            low <= high <= pending@.len(),
            have_candidates(pending@),
            is_ordered(pending@),
            forall|k: int| 0 <= k < low ==> best(#[trigger] pending@[k]) <= distance,
            forall|k: int| high <= k < pending@.len() ==> best(#[trigger] pending@[k]) > distance,
        decreases high - low,
    {
        let middle = low + (high - low) / 2;
        let candidates = &pending[middle].candidates;
        let there = candidates[candidates.len() - 1].distance;
        assert(there == best(pending@[middle as int]));
        if there <= distance {
            assert forall|k: int| 0 <= k < middle + 1 implies best(#[trigger] pending@[k])
                <= distance by {
                assert(best(pending@[k]) <= best(pending@[middle as int]));
            }
            low = middle + 1;
        } else {
            assert forall|k: int| middle <= k < pending@.len() implies best(#[trigger] pending@[k])
                > distance by {
                assert(best(pending@[middle as int]) <= best(pending@[k]));
            }
            high = middle;
        }
    }
    low
}

/// Puts a cell among the waiting cells where its best candidate says, so
/// that the cells stay in the order of their turns.
pub fn insert_by_urgency(pending: &mut Vec<Pending>, cell: Pending) -> (at: usize)
    requires
        have_candidates(old(pending)@),
        is_ordered(old(pending)@),
        cell.candidates@.len() > 0,
    ensures
        at <= old(pending)@.len(),
        final(pending)@ == old(pending)@.insert(at as int, cell),
        have_candidates(final(pending)@),
        is_ordered(final(pending)@),
{
    let distance = cell.candidates[cell.candidates.len() - 1].distance;
    let at = urgency_position(pending, distance);
    let ghost before = pending@;
    pending.insert(at, cell);
    proof {
        let after = pending@;
        assert forall|k: int| 0 <= k < after.len() implies (#[trigger] after[k]).candidates@.len()
            > 0 by {
            if k < at {
                assert(after[k] == before[k]);
            } else if k > at {
                assert(after[k] == before[k - 1]);
            }
        }
        assert forall|i: int, j: int| 0 <= i <= j < after.len() implies best(#[trigger] after[i])
            <= best(#[trigger] after[j]) by {
            if i < at {
                assert(after[i] == before[i]);
            } else if i > at {
                assert(after[i] == before[i - 1]);
            }
            if j < at {
                assert(after[j] == before[j]);
            } else if j > at {
                assert(after[j] == before[j - 1]);
            }
        }
    }
    at
}

/// `<[T]>::sort_unstable_by`, the cells compared by `compare_matches` on
/// their candidates with the two sides changed over: the same cells, in the
/// order of their turns.
#[verifier::external_body]
pub(crate) fn sort_by_urgency(pending: &mut Vec<Pending>)
    requires
        have_candidates(old(pending)@),
    ensures
        final(pending)@.to_multiset() == old(pending)@.to_multiset(),
        is_ordered(final(pending)@),
{
    pending.sort_unstable_by(|a, b| compare_matches(&b.candidates, &a.candidates))
}

/// The column of the cell with the given number, the cells counted column
/// after column.
pub open spec fn column_of(layout: Layout, cell: int) -> int {
    cell / layout.vtiles as int
}

/// The row of the cell with the given number, the cells counted column after
/// column.
pub open spec fn row_of(layout: Layout, cell: int) -> int {
    cell % layout.vtiles as int
}

/// Whether `waiting` is a cell of the grid with candidates left, each an
/// entry told with its distance from the cell.
pub open spec fn is_waiting<const N: usize>(
    waiting: Pending,
    entries: Entries,
    source: ImageView,
    layout: Layout,
) -> bool {
    &&& waiting.cell < layout.cells()
    &&& waiting.candidates@.len() > 0
    &&& forall|i: int|
        0 <= i < waiting.candidates@.len() ==> cell_match::<N>(
            #[trigger] waiting.candidates@[i],
            entries,
            source,
            layout,
            column_of(layout, waiting.cell as int),
            row_of(layout, waiting.cell as int),
        )
}

/// A cell's number gives its column and row, and these give the number.
pub proof fn lemma_column_and_row(layout: Layout, cell: int)
    requires
        0 <= cell < layout.cells(),
    ensures
        layout.has_cell(column_of(layout, cell), row_of(layout, cell)),
        cell == column_of(layout, cell) * layout.vtiles + row_of(layout, cell),
{
    let v = layout.vtiles as int;
    let h = layout.htiles as int;
    assert(v > 0) by (nonlinear_arith)
        requires
            0 <= cell < h * v,
            h >= 0,
            v >= 0,
    ;
    vstd::arithmetic::div_mod::lemma_fundamental_div_mod(cell, v);
    assert(v * (cell / v) == (cell / v) * v) by (nonlinear_arith);
    assert(0 <= cell / v < h) by (nonlinear_arith)
        requires
            0 <= cell < h * v,
            cell == v * (cell / v) + cell % v,
            0 <= cell % v < v,
    ;
}

/// The cell in a column and row has the number that gives them back.
pub proof fn lemma_number_of(layout: Layout, cx: int, cy: int)
    requires
        layout.has_cell(cx, cy),
    ensures
        0 <= cx * layout.vtiles + cy < layout.cells(),
        column_of(layout, cx * layout.vtiles + cy) == cx,
        row_of(layout, cx * layout.vtiles + cy) == cy,
{
    let v = layout.vtiles as int;
    let h = layout.htiles as int;
    vstd::arithmetic::div_mod::lemma_fundamental_div_mod_converse(cx * v + cy, v, cx, cy);
    assert(cx * v + cy < h * v) by (nonlinear_arith)
        requires
            0 <= cx < h,
            0 <= cy < v,
    ;
    assert(0 <= cx * v) by (nonlinear_arith)
        requires
            0 <= cx,
            0 <= v,
    ;
}

/// The signed index of the same tile shown the other way round.
pub open spec fn other_way(item: i16) -> i16 {
    (-(item as int)) as i16
}

/// Whether the index holds exactly the entries that are not used up, and
/// with each entry that is used up the same tile shown the other way round
/// is used up too.
pub open spec fn is_rest(index: Entries, entries: Entries, used: Set<i16>) -> bool {
    &&& is_part_of(index, entries)
    &&& forall|item: i16|
        entries.dom().contains(item) && !used.contains(item) ==> #[trigger] index.dom().contains(
            item,
        )
    &&& forall|item: i16| #[trigger] index.dom().contains(item) ==> !used.contains(item)
    &&& forall|item: i16| #[trigger]
        used.contains(item) ==> entries.dom().contains(item) && used.contains(other_way(item))
}

/// Whether `found` holds a choice for the cell `(cx, cy)`: item 0 stands for
/// none yet.
pub open spec fn is_served(found: Seq<NearestNeighbour>, layout: Layout, cx: int, cy: int) -> bool {
    found[cell_number(layout, cx, cy)].item != 0
}

/// Whether every cell has its tile or waits for it.
pub open spec fn none_lost(found: Seq<NearestNeighbour>, pending: Seq<Pending>, layout: Layout) -> bool {
    forall|cx: int, cy: int| #[trigger]
        layout.has_cell(cx, cy) ==> is_served(found, layout, cx, cy) || exists|k: int|
            0 <= k < pending.len() && (#[trigger] pending[k]).cell == cx * layout.vtiles + cy
}

/// Whether the choices made so far are entries told with their distances
/// from their cells, all used up, and no two of them show the same tile.
pub open spec fn are_choices<const N: usize>(
    found: Seq<NearestNeighbour>,
    entries: Entries,
    used: Set<i16>,
    source: ImageView,
    layout: Layout,
) -> bool {
    &&& forall|cx: int, cy: int| #[trigger]
        layout.has_cell(cx, cy) && is_served(found, layout, cx, cy) ==> cell_match::<N>(
            found[cell_number(layout, cx, cy)],
            entries,
            source,
            layout,
            cx,
            cy,
        )
    &&& forall|k: int|
        0 <= k < found.len() && (#[trigger] found[k]).item != 0 ==> used.contains(found[k].item)
    &&& forall|a: int, b: int|
        0 <= a < b < found.len() && (#[trigger] found[a]).item != 0 && (#[trigger] found[b]).item
            != 0 ==> magnitude(found[a].item) != magnitude(found[b].item)
}

/// Whether the candidates go from far to near.
pub open spec fn is_descending(candidates: Seq<NearestNeighbour>) -> bool {
    forall|i: int, j: int|
        0 <= i <= j < candidates.len() ==> (#[trigger] candidates[i]).distance >= (
        #[trigger] candidates[j]).distance
}

/// The point in colour space of the cell with the given number.
pub open spec fn point_of<const N: usize>(source: ImageView, layout: Layout, cell: usize) -> Seq<u8> {
    query_of::<N>(source, layout, column_of(layout, cell as int), row_of(layout, cell as int))
}

/// Whether the list of `waiting` has its best candidate last and leaves out
/// no entry of `rest` that lies nearer to the cell than a candidate it holds.
pub open spec fn is_thorough<const N: usize>(
    waiting: Pending,
    rest: Entries,
    source: ImageView,
    layout: Layout,
) -> bool {
    &&& is_descending(waiting.candidates@)
    &&& leaves_out_farther(rest, point_of::<N>(source, layout, waiting.cell), waiting.candidates@)
}

/// Whether no entry of `rest` lies nearer to a cell that has its tile than
/// that tile.
pub open spec fn none_nearer_left<const N: usize>(
    found: Seq<NearestNeighbour>,
    rest: Entries,
    source: ImageView,
    layout: Layout,
) -> bool {
    forall|cx: int, cy: int, other: i16|
        #![trigger layout.has_cell(cx, cy), rest.dom().contains(other)]
        layout.has_cell(cx, cy) && is_served(found, layout, cx, cy) && rest.dom().contains(other)
            ==> found[cell_number(layout, cx, cy)].distance <= manhattan(
            rest[other],
            query_of::<N>(source, layout, cx, cy),
        )
}

/// Whether the waiting cells are all different and none has its tile yet.
pub open spec fn are_apart(found: Seq<NearestNeighbour>, pending: Seq<Pending>, layout: Layout) -> bool {
    &&& forall|k: int|
        0 <= k < pending.len() ==> !is_served(
            found,
            layout,
            column_of(layout, (#[trigger] pending[k]).cell as int),
            row_of(layout, pending[k].cell as int),
        )
    &&& forall|i: int, j: int|
        0 <= i < j < pending.len() ==> (#[trigger] pending[i]).cell != (#[trigger] pending[j]).cell
}

/// Whether `tile` is the tile of one of the choices.
pub open spec fn is_taken(found: Seq<NearestNeighbour>, tile: int) -> bool {
    exists|c: int| 0 <= c < found.len() && (#[trigger] found[c]).item != 0 && magnitude(found[c].item)
        == tile
}

/// Whether every entry that is used up shows the tile of one of the choices.
pub open spec fn used_are_chosen(found: Seq<NearestNeighbour>, used: Set<i16>) -> bool {
    forall|item: i16| #[trigger] used.contains(item) ==> is_taken(found, magnitude(item))
}

/// A list that is thorough for some entries is thorough for a part of them.
pub proof fn lemma_thorough_for_part<const N: usize>(
    waiting: Pending,
    rest: Entries,
    part: Entries,
    source: ImageView,
    layout: Layout,
)
    requires
        is_thorough::<N>(waiting, rest, source, layout),
        is_part_of(part, rest),
    ensures
        is_thorough::<N>(waiting, part, source, layout),
{
    let query = point_of::<N>(source, layout, waiting.cell);
    let list = waiting.candidates@;
    assert forall|other: i16, i: int|
        part.dom().contains(other) && !names(list, other) && 0 <= i < list.len() implies (
    #[trigger] list[i]).distance <= manhattan(#[trigger] part[other], query) by {
        assert(rest.dom().contains(other));
        assert(list[i].distance <= manhattan(rest[other], query));
    }
}

/// The nearest entries turned round have the best last and leave out what
/// the nearest entries leave out.
pub proof fn lemma_turned_round(rest: Entries, query: Seq<u8>, near_first: Seq<NearestNeighbour>)
    requires
        is_ascending(near_first),
        leaves_out_farther(rest, query, near_first),
    ensures
        is_descending(near_first.reverse()),
        leaves_out_farther(rest, query, near_first.reverse()),
{
    let turned = near_first.reverse();
    assert forall|i: int, j: int| 0 <= i <= j < turned.len() implies (#[trigger] turned[i]).distance
        >= (#[trigger] turned[j]).distance by {
        assert(near_first[near_first.len() - 1 - j].distance <= near_first[near_first.len() - 1
            - i].distance);
    }
    assert forall|other: i16, i: int|
        rest.dom().contains(other) && !names(turned, other) && 0 <= i < turned.len() implies (
    #[trigger] turned[i]).distance <= manhattan(#[trigger] rest[other], query) by {
        if names(near_first, other) {
            let k = choose|k: int| 0 <= k < near_first.len() && (#[trigger] near_first[k]).item
                == other;
            assert(turned[near_first.len() - 1 - k].item == other);
        }
        assert(near_first[near_first.len() - 1 - i].distance <= manhattan(rest[other], query));
    }
}

/// A thorough list stays thorough when it loses its last candidate, if that
/// is no entry of the rest.
pub proof fn lemma_thorough_without_last(
    rest: Entries,
    query: Seq<u8>,
    listed: Seq<NearestNeighbour>,
)
    requires
        listed.len() > 0,
        is_descending(listed),
        leaves_out_farther(rest, query, listed),
        !rest.dom().contains(listed.last().item),
    ensures
        is_descending(listed.drop_last()),
        leaves_out_farther(rest, query, listed.drop_last()),
{
    let shorter = listed.drop_last();
    assert forall|i: int, j: int| 0 <= i <= j < shorter.len() implies (
    #[trigger] shorter[i]).distance >= (#[trigger] shorter[j]).distance by {
        assert(listed[i].distance >= listed[j].distance);
    }
    assert forall|other: i16, i: int|
        rest.dom().contains(other) && !names(shorter, other) && 0 <= i < shorter.len() implies (
    #[trigger] shorter[i]).distance <= manhattan(#[trigger] rest[other], query) by {
        if names(listed, other) {
            let k = choose|k: int| 0 <= k < listed.len() && (#[trigger] listed[k]).item == other;
            assert(k < shorter.len());
            assert(shorter[k].item == other);
        }
        assert(listed[i].distance <= manhattan(rest[other], query));
    }
}

/// Choices that show different tiles of a catalog are no more than the
/// catalog has tiles.
pub proof fn lemma_no_more_than_tiles(found: Seq<NearestNeighbour>, count: int)
    requires
        0 <= count,
        forall|c: int| 0 <= c < found.len() ==> 1 <= magnitude((#[trigger] found[c]).item) <= count,
        forall|a: int, b: int|
            0 <= a < b < found.len() ==> magnitude((#[trigger] found[a]).item) != magnitude(
                (#[trigger] found[b]).item,
            ),
    ensures
        found.len() <= count,
{
    if found.len() > 0 {
        let tiles = Seq::new(found.len(), |c: int| magnitude(found[c].item));
        assert forall|a: int, b: int| 0 <= a < tiles.len() && 0 <= b < tiles.len() && a
            != b implies tiles[a] != tiles[b] by {
            if a < b {
                assert(magnitude(found[a].item) != magnitude(found[b].item));
            } else {
                assert(magnitude(found[b].item) != magnitude(found[a].item));
            }
        }
        tiles.unique_seq_to_set();
        assert(1 <= magnitude(found[0].item) <= count);
        vstd::set_lib::lemma_int_range(1, count + 1);
        assert forall|tile: int| tiles.to_set().contains(tile) implies vstd::set_lib::set_int_range(
            1,
            count + 1,
        ).contains(tile) by {
            let c = choose|c: int| 0 <= c < tiles.len() && tiles[c] == tile;
            assert(1 <= magnitude(found[c].item) <= count);
        }
        vstd::set_lib::lemma_len_subset(
            tiles.to_set(),
            vstd::set_lib::set_int_range(1, count + 1),
        );
    }
}

/// Chooses a tile for every cell so that no tile serves two cells, as it is
/// or mirrored. Every cell first gets the list of all entries of the index,
/// the nearest last. Then the cells are served one at a time, the cell whose
/// best candidate lies farthest first: if that candidate's tile is still
/// free, the cell takes it and both entries of the tile leave the index; if
/// not, the cell drops the candidate, asks the index for its ten nearest
/// entries if it has none left, and waits for another turn. The result lists
/// the choices by cell, row after row. With at least as many tiles as cells
/// every cell gets a tile; otherwise the tiles run out.
#[verifier::rlimit(40)]
pub fn match_cells_unique<const N: usize, const K: usize>(
    source_img: &RgbImage,
    tile_set: &TileSet<[Rgb; N]>,
    index: &mut SpatialIndex<K>,
    layout: &Layout,
) -> (matched: Result<Vec<NearestNeighbour>, RenderError>)
    requires
        is_layout_of::<N>(*layout, source_img@),
        K == 3 * N,
        tile_set@.wf(),
        old(index)@ == tile_set.entries(),
        layout.cells() <= 2 * tile_set@.tiles.len(),
    ensures
        matched is Ok ==> matched->Ok_0@.len() == layout.cells(),
        matched is Ok ==> forall|c: int|
            0 <= c < matched->Ok_0@.len() ==> tile_set.entries().dom().contains(
                (#[trigger] matched->Ok_0@[c]).item,
            ),
        matched is Ok ==> forall|cx: int, cy: int|
            layout.has_cell(cx, cy) ==> #[trigger] cell_match::<N>(
                matched->Ok_0@[cell_number(*layout, cx, cy)],
                tile_set.entries(),
                source_img@,
                *layout,
                cx,
                cy,
            ),
        matched is Ok ==> forall|a: int, b: int|
            0 <= a < b < matched->Ok_0@.len() ==> magnitude((#[trigger] matched->Ok_0@[a]).item)
                != magnitude((#[trigger] matched->Ok_0@[b]).item),
        matched is Ok ==> forall|cx: int, cy: int, other: i16|
            #![trigger layout.has_cell(cx, cy), final(index)@.dom().contains(other)]
            layout.has_cell(cx, cy) && final(index)@.dom().contains(other)
                ==> matched->Ok_0@[cell_number(*layout, cx, cy)].distance <= manhattan(
                tile_set.entries()[other],
                query_of::<N>(source_img@, *layout, cx, cy),
            ),
        matched is Ok ==> forall|item: i16|
            tile_set.entries().dom().contains(item) && !(#[trigger] final(index)@.dom().contains(
                item,
            )) ==> is_taken(matched->Ok_0@, magnitude(item)),
        matched is Ok <==> layout.cells() <= tile_set@.tiles.len(),
        matched is Err ==> matched == Err::<Vec<NearestNeighbour>, RenderError>(
            RenderError::Exhausted,
        ),
        is_part_of(final(index)@, tile_set.entries()),
{
    let ghost entries = tile_set.entries();
    let ghost source = source_img@;
    let htiles = layout.htiles;
    let vtiles = layout.vtiles;
    let step = layout.step;
    index.check();
    proof {
        lemma_cells_fit(*layout);
        lemma_catalog_size(tile_set@.tiles, tile_set@.tiles.len() as int);
    }
    let cells: usize = htiles as usize * vtiles as usize;
    let mut pending: Vec<Pending> = Vec::new();
    let mut n: usize = 0;
    while n < cells
        invariant
            n <= cells,
            is_layout_of::<N>(*layout, source),
            source == source_img@,
            K == 3 * N,
            htiles == layout.htiles,
            vtiles == layout.vtiles,
            step == layout.step,
            cells == layout.cells(),
            layout.cells() <= 2 * tile_set@.tiles.len(),
            entries == tile_set.entries(),
            index@ == entries,
            index@ == old(index)@,
            entries.dom().finite(),
            entries.dom().len() == 2 * tile_set@.tiles.len(),
            pending@.len() == n,
            forall|k: int|
                0 <= k < n ==> is_waiting::<N>(#[trigger] pending@[k], entries, source, *layout)
                    && pending@[k].cell == k && is_thorough::<N>(
                    pending@[k],
                    entries,
                    source,
                    *layout,
                ),
        decreases cells - n,
    {
        proof {
            lemma_column_and_row(*layout, n as int);
            lemma_cells_apart(column_of(*layout, n as int), htiles as int, step as int);
            lemma_cells_apart(row_of(*layout, n as int), vtiles as int, step as int);
        }
        let cx = (n / vtiles as usize) as u32;
        let cy = (n % vtiles as usize) as u32;
        let query = cell_query::<N>(source_img, cx * step, cy * step, step);
        let nearest = index.nearest_n(&query, 100000);
        let ghost near_first = nearest@;
        let candidates = best_last(nearest);
        if candidates.len() == 0 {
            proof {
                assert(near_first.len() == candidates@.len());
                assert(tile_set@.tiles.len() > 0);
                assert(entries.dom().len() > 0);
                let other = entries.dom().choose();
                assert(index@.dom().contains(other));
                assert(names_all(index@, near_first));
                assert(names(near_first, other));
            }
            return Err(RenderError::IndexConsistency);
        }
        proof {
            assert forall|i: int| 0 <= i < candidates@.len() implies cell_match::<N>(
                #[trigger] candidates@[i],
                entries,
                source,
                *layout,
                cx as int,
                cy as int,
            ) by {
                assert(candidates@[i] == near_first[near_first.len() - 1 - i]);
            }
            lemma_turned_round(index@, query@, near_first);
        }
        pending.push(Pending { cell: n, candidates });
        n += 1;
    }
    let ghost scored = pending@;
    sort_by_urgency(&mut pending);
    proof {
        vstd::seq_lib::to_multiset_len(scored);
        vstd::seq_lib::to_multiset_len(pending@);
        assert forall|k: int| 0 <= k < pending@.len() implies is_waiting::<N>(
            #[trigger] pending@[k],
            entries,
            source,
            *layout,
        ) by {
            vstd::seq_lib::to_multiset_contains(pending@, pending@[k]);
            vstd::seq_lib::to_multiset_contains(scored, pending@[k]);
            assert(pending@.contains(pending@[k]));
            assert(scored.contains(pending@[k]));
        }
        assert forall|k: int| 0 <= k < pending@.len() implies is_thorough::<N>(
            #[trigger] pending@[k],
            index@,
            source,
            *layout,
        ) by {
            vstd::seq_lib::to_multiset_contains(pending@, pending@[k]);
            vstd::seq_lib::to_multiset_contains(scored, pending@[k]);
            assert(pending@.contains(pending@[k]));
            assert(scored.contains(pending@[k]));
        }
        assert(scored.no_duplicates()) by {
            assert forall|i: int, j: int|
                0 <= i < scored.len() && 0 <= j < scored.len() && i != j implies scored[i]
                != scored[j] by {
                assert(scored[i].cell == i && scored[j].cell == j);
            }
        }
        scored.lemma_multiset_has_no_duplicates();
        pending@.lemma_multiset_has_no_duplicates_conv();
        assert forall|i: int, j: int| 0 <= i < j < pending@.len() implies (
        #[trigger] pending@[i]).cell != (#[trigger] pending@[j]).cell by {
            vstd::seq_lib::to_multiset_contains(pending@, pending@[i]);
            vstd::seq_lib::to_multiset_contains(scored, pending@[i]);
            vstd::seq_lib::to_multiset_contains(pending@, pending@[j]);
            vstd::seq_lib::to_multiset_contains(scored, pending@[j]);
            assert(pending@.contains(pending@[i]));
            assert(pending@.contains(pending@[j]));
            let a = choose|a: int| 0 <= a < scored.len() && scored[a] == pending@[i];
            let b = choose|b: int| 0 <= b < scored.len() && scored[b] == pending@[j];
            assert(scored[a].cell == a && scored[b].cell == b);
        }
    }
    let ghost sorted = pending@;
    let mut found: Vec<NearestNeighbour> = Vec::new();
    let mut c: usize = 0;
    while c < cells
        invariant
            c <= cells,
            found@.len() == c,
            forall|k: int| 0 <= k < c ==> (#[trigger] found@[k]).item == 0,
        decreases cells - c,
    {
        found.push(NearestNeighbour { distance: 0, item: 0 });
        c += 1;
    }
    let mut used: HashSet<i16> = HashSet::new();
    proof {
        assert forall|k: int| 0 <= k < pending@.len() implies !is_served(
            found@,
            *layout,
            column_of(*layout, (#[trigger] pending@[k]).cell as int),
            row_of(*layout, pending@[k].cell as int),
        ) by {
            assert(is_waiting::<N>(pending@[k], entries, source, *layout));
            lemma_column_and_row(*layout, pending@[k].cell as int);
            lemma_cell_number(
                *layout,
                column_of(*layout, pending@[k].cell as int),
                row_of(*layout, pending@[k].cell as int),
            );
        }
    }
    let ghost mut commits: int = 0;
    proof {
        assert forall|cx: int, cy: int| #[trigger] layout.has_cell(cx, cy) implies exists|k: int|
            0 <= k < pending@.len() && (#[trigger] pending@[k]).cell == cx * layout.vtiles + cy by {
            lemma_number_of(*layout, cx, cy);
            let number = cx * layout.vtiles + cy;
            vstd::seq_lib::to_multiset_contains(pending@, scored[number]);
            vstd::seq_lib::to_multiset_contains(scored, scored[number]);
            assert(scored.contains(scored[number]));
            assert(pending@.contains(scored[number]));
            let k = choose|k: int| 0 <= k < pending@.len() && pending@[k] == scored[number];
            assert(pending@[k].cell == number);
        }
        assert forall|cx: int, cy: int| #[trigger] layout.has_cell(cx, cy) implies !is_served(
            found@,
            *layout,
            cx,
            cy,
        ) by {
            lemma_cell_number(*layout, cx, cy);
        }
    }
    while pending.len() > 0
        invariant
            is_layout_of::<N>(*layout, source),
            source == source_img@,
            K == 3 * N,
            tile_set@.wf(),
            htiles == layout.htiles,
            vtiles == layout.vtiles,
            step == layout.step,
            cells == layout.cells(),
            entries == tile_set.entries(),
            entries.dom().finite(),
            entries.dom().len() == 2 * tile_set@.tiles.len(),
            2 * tile_set@.tiles.len() <= MAX_ENTRIES,
            found@.len() == cells,
            have_candidates(pending@),
            is_ordered(pending@),
            forall|k: int|
                0 <= k < pending@.len() ==> is_waiting::<N>(
                    #[trigger] pending@[k],
                    entries,
                    source,
                    *layout,
                ),
            is_rest(index@, entries, used@),
            are_choices::<N>(found@, entries, used@, source, *layout),
            none_lost(found@, pending@, *layout),
            forall|k: int|
                0 <= k < pending@.len() ==> is_thorough::<N>(
                    #[trigger] pending@[k],
                    index@,
                    source,
                    *layout,
                ),
            none_nearer_left::<N>(found@, index@, source, *layout),
            are_apart(found@, pending@, *layout),
            used_are_chosen(found@, used@),
            0 <= commits,
            commits + pending@.len() == cells,
            index@.dom().len() + 2 * commits == 2 * tile_set@.tiles.len(),
        decreases pending@.len(), stale_total(pending@, used@),
    {
        let ghost waiting = pending@;
        let ghost before = used@;
        let mut cell = pending.pop().unwrap();
        let ghost listed = cell.candidates@;
        let number = cell.cell;
        assert(is_waiting::<N>(waiting[waiting.len() - 1], entries, source, *layout));
        let candidate = cell.candidates.pop().unwrap();
        let item = candidate.item;
        proof {
            lemma_column_and_row(*layout, number as int);
            lemma_cell_number(
                *layout,
                column_of(*layout, number as int),
                row_of(*layout, number as int),
            );
            lemma_cells_apart(column_of(*layout, number as int), htiles as int, step as int);
            lemma_cells_apart(row_of(*layout, number as int), vtiles as int, step as int);
            assert(cell_match::<N>(
                listed[listed.len() - 1],
                entries,
                source,
                *layout,
                column_of(*layout, number as int),
                row_of(*layout, number as int),
            ));
            assert(pending@ == waiting.drop_last());
        }
        let cx = (number / vtiles as usize) as u32;
        let cy = (number % vtiles as usize) as u32;
        index.check();
        if !used.contains(&item) {
            let tile = tile_set.get_tile(item).unwrap();
            let mut coords = tile.coords();
            let ghost held = index@;
            proof {
                assert(entries.dom().contains(item));
                assert(held.dom().contains(item));
                assert(held[item] == entries[item]);
                assert(tile.colors == tile_set@.tiles[magnitude(item) - 1].colors);
                assert(coords@ == entries[item]);
            }
            let removed = index.remove(&coords, item);
            if removed == 0 {
                return Err(RenderError::IndexConsistency);
            }
            flipped_coords(coords.as_mut_slice());
            proof {
                let colors = tile_set@.tiles[magnitude(item) - 1].colors@;
                let side = int_sqrt(N as nat) as int;
                lemma_int_sqrt(N as nat);
                assert(flat_coords(colors).len() / 3 == N);
                if item < 0 {
                    lemma_mirrored_twice(flat_coords(colors), side);
                }
                assert(coords@ == entries[other_way(item)]);
                assert(!used@.contains(other_way(item)));
                assert(held.dom().contains(other_way(item)));
                assert(held[other_way(item)] == entries[other_way(item)]);
                assert(index@ == held.remove(item));
                assert(index@.dom().contains(other_way(item)));
                assert(index@[other_way(item)] == coords@);
                assert(-item == other_way(item));
            }
            let removed = index.remove(&coords, -item);
            if removed == 0 {
                return Err(RenderError::IndexConsistency);
            }
            used.insert(item);
            used.insert(-item);
            let at = cy as usize * htiles as usize + cx as usize;
            let ghost earlier = found@;
            proof {
                assert(!is_served(
                    earlier,
                    *layout,
                    column_of(*layout, waiting[waiting.len() - 1].cell as int),
                    row_of(*layout, waiting[waiting.len() - 1].cell as int),
                ));
                assert(earlier[at as int].item == 0);
                assert(is_thorough::<N>(waiting[waiting.len() - 1], held, source, *layout));
            }
            found[at] = candidate;
            proof {
                assert forall|ax: int, ay: int, other: i16|
                    #![trigger layout.has_cell(ax, ay), index@.dom().contains(other)]
                    layout.has_cell(ax, ay) && is_served(found@, *layout, ax, ay)
                        && index@.dom().contains(other) implies found@[cell_number(
                    *layout,
                    ax,
                    ay,
                )].distance <= manhattan(index@[other], query_of::<N>(source, *layout, ax, ay)) by {
                    lemma_cell_number(*layout, ax, ay);
                    assert(held.dom().contains(other));
                    assert(index@[other] == held[other]);
                    assert(held[other] == entries[other]);
                    if ax == cx && ay == cy {
                        let query = query_of::<N>(source, *layout, ax, ay);
                        if names(listed, other) {
                            let i = choose|i: int| 0 <= i < listed.len() && (#[trigger] listed[i]).item
                                == other;
                            assert(cell_match::<N>(listed[i], entries, source, *layout, ax, ay));
                            assert(listed[i].distance >= listed[listed.len() - 1].distance);
                        } else {
                            assert(listed[listed.len() - 1].distance <= manhattan(
                                held[other],
                                query,
                            ));
                        }
                    } else {
                        assert(is_served(earlier, *layout, ax, ay));
                        assert(earlier[cell_number(*layout, ax, ay)].distance <= manhattan(
                            held[other],
                            query_of::<N>(source, *layout, ax, ay),
                        ));
                    }
                }
                assert forall|k: int| 0 <= k < pending@.len() implies is_thorough::<N>(
                    #[trigger] pending@[k],
                    index@,
                    source,
                    *layout,
                ) by {
                    assert(pending@[k] == waiting[k]);
                    lemma_thorough_for_part::<N>(waiting[k], held, index@, source, *layout);
                }
                assert forall|k: int| 0 <= k < pending@.len() implies !is_served(
                    found@,
                    *layout,
                    column_of(*layout, (#[trigger] pending@[k]).cell as int),
                    row_of(*layout, pending@[k].cell as int),
                ) by {
                    assert(pending@[k] == waiting[k]);
                    assert(waiting[k].cell != waiting[waiting.len() - 1].cell);
                    assert(is_waiting::<N>(waiting[k], entries, source, *layout));
                    lemma_column_and_row(*layout, waiting[k].cell as int);
                    lemma_cell_number(
                        *layout,
                        column_of(*layout, waiting[k].cell as int),
                        row_of(*layout, waiting[k].cell as int),
                    );
                    assert(!is_served(
                        earlier,
                        *layout,
                        column_of(*layout, waiting[k].cell as int),
                        row_of(*layout, waiting[k].cell as int),
                    ));
                }
                assert forall|i: int, j: int| 0 <= i < j < pending@.len() implies (
                #[trigger] pending@[i]).cell != (#[trigger] pending@[j]).cell by {
                    assert(pending@[i] == waiting[i]);
                    assert(pending@[j] == waiting[j]);
                }
                assert forall|taken: i16| #[trigger] used@.contains(taken) implies is_taken(
                    found@,
                    magnitude(taken),
                ) by {
                    if taken == item || taken == other_way(item) {
                        assert(found@[at as int].item != 0 && magnitude(found@[at as int].item)
                            == magnitude(taken));
                    } else {
                        assert(before.contains(taken));
                        assert(is_taken(earlier, magnitude(taken)));
                        let c = choose|c: int|
                            0 <= c < earlier.len() && (#[trigger] earlier[c]).item != 0 && magnitude(
                                earlier[c].item,
                            ) == magnitude(taken);
                        assert(c != at);
                        assert(found@[c].item != 0 && magnitude(found@[c].item) == magnitude(taken));
                    }
                }
                commits = commits + 1;
                assert forall|ax: int, ay: int| #[trigger] layout.has_cell(ax, ay) implies (
                is_served(found@, *layout, ax, ay) || exists|k: int|
                    0 <= k < pending@.len() && (#[trigger] pending@[k]).cell == ax * layout.vtiles
                        + ay) by {
                    lemma_cell_number(*layout, ax, ay);
                    lemma_number_of(*layout, ax, ay);
                    if ax != cx || ay != cy {
                        if is_served(earlier, *layout, ax, ay) {
                        } else {
                            let k = choose|k: int|
                                0 <= k < waiting.len() && (#[trigger] waiting[k]).cell == ax
                                    * layout.vtiles + ay;
                            assert(k < waiting.len() - 1);
                            assert(pending@[k] == waiting[k]);
                        }
                    }
                }
                assert forall|ax: int, ay: int| #[trigger]
                    layout.has_cell(ax, ay) && is_served(
                        found@,
                        *layout,
                        ax,
                        ay,
                    ) implies cell_match::<N>(
                    found@[cell_number(*layout, ax, ay)],
                    entries,
                    source,
                    *layout,
                    ax,
                    ay,
                ) by {
                    lemma_cell_number(*layout, ax, ay);
                    if ax != cx || ay != cy {
                        assert(is_served(earlier, *layout, ax, ay));
                    }
                }
                assert forall|a: int, b: int|
                    0 <= a < b < found@.len() && (#[trigger] found@[a]).item != 0 && (
                    #[trigger] found@[b]).item != 0 implies magnitude(found@[a].item) != magnitude(
                    found@[b].item,
                ) by {
                    if a != at && b != at {
                        assert(earlier[a].item != 0 && earlier[b].item != 0);
                    } else if a == at {
                        assert(before.contains(earlier[b].item));
                        assert(before.contains(other_way(earlier[b].item)));
                    } else {
                        assert(before.contains(earlier[a].item));
                        assert(before.contains(other_way(earlier[a].item)));
                    }
                }
                assert forall|k: int|
                    0 <= k < pending@.len() implies is_waiting::<N>(
                    #[trigger] pending@[k],
                    entries,
                    source,
                    *layout,
                ) by {
                    assert(pending@[k] == waiting[k]);
                }
                assert forall|i: int, j: int| 0 <= i <= j < pending@.len() implies best(
                    #[trigger] pending@[i],
                ) <= best(#[trigger] pending@[j]) by {
                    assert(pending@[i] == waiting[i]);
                    assert(pending@[j] == waiting[j]);
                }
                assert forall|k: int| 0 <= k < pending@.len() implies (
                #[trigger] pending@[k]).candidates@.len() > 0 by {
                    assert(pending@[k] == waiting[k]);
                }
            }
        } else {
            if cell.candidates.len() == 0 {
                let query = cell_query::<N>(source_img, cx * step, cy * step, step);
                let nearest = index.nearest_n(&query, 10);
                let ghost near_first = nearest@;
                cell.candidates = best_last(nearest);
                if cell.candidates.len() == 0 {
                    proof {
                        if layout.cells() <= tile_set@.tiles.len() {
                            assert(near_first.len() == cell.candidates@.len());
                            assert(index@.dom().len() > 0);
                            let other = index@.dom().choose();
                            assert(index@.dom().contains(other));
                            assert(names_all(index@, near_first));
                            assert(names(near_first, other));
                        }
                    }
                    return Err(RenderError::Exhausted);
                }
                proof {
                    assert forall|i: int| 0 <= i < cell.candidates@.len() implies cell_match::<N>(
                        #[trigger] cell.candidates@[i],
                        entries,
                        source,
                        *layout,
                        cx as int,
                        cy as int,
                    ) && !used@.contains(cell.candidates@[i].item) by {
                        assert(cell.candidates@[i] == near_first[near_first.len() - 1 - i]);
                    }
                    lemma_stale_fresh(cell.candidates@, used@);
                    lemma_turned_round(index@, query@, near_first);
                }
            } else {
                proof {
                    assert(cell.candidates@ == listed.drop_last());
                    assert(is_thorough::<N>(waiting[waiting.len() - 1], index@, source, *layout));
                    assert(used@.contains(listed.last().item));
                    lemma_thorough_without_last(
                        index@,
                        point_of::<N>(source, *layout, number),
                        listed,
                    );
                    assert forall|i: int| 0 <= i < cell.candidates@.len() implies cell_match::<N>(
                        #[trigger] cell.candidates@[i],
                        entries,
                        source,
                        *layout,
                        cx as int,
                        cy as int,
                    ) by {
                        assert(cell.candidates@[i] == listed[i]);
                    }
                }
            }
            let ghost rest = pending@;
            let ghost back = cell;
            let at = insert_by_urgency(&mut pending, cell);
            proof {
                assert(is_thorough::<N>(back, index@, source, *layout));
                assert forall|k: int| 0 <= k < pending@.len() implies is_thorough::<N>(
                    #[trigger] pending@[k],
                    index@,
                    source,
                    *layout,
                ) by {
                    if k < at {
                        assert(pending@[k] == waiting[k]);
                    } else if k > at {
                        assert(pending@[k] == waiting[k - 1]);
                    }
                }
                assert forall|k: int| 0 <= k < pending@.len() implies !is_served(
                    found@,
                    *layout,
                    column_of(*layout, (#[trigger] pending@[k]).cell as int),
                    row_of(*layout, pending@[k].cell as int),
                ) by {
                    if k < at {
                        assert(pending@[k] == waiting[k]);
                    } else if k > at {
                        assert(pending@[k] == waiting[k - 1]);
                    } else {
                        assert(pending@[k].cell == waiting[waiting.len() - 1].cell);
                    }
                }
                assert forall|i: int, j: int| 0 <= i < j < pending@.len() implies (
                #[trigger] pending@[i]).cell != (#[trigger] pending@[j]).cell by {
                    let a = if i < at {
                        i
                    } else if i > at {
                        i - 1
                    } else {
                        waiting.len() - 1
                    };
                    let b = if j < at {
                        j
                    } else if j > at {
                        j - 1
                    } else {
                        waiting.len() - 1
                    };
                    assert(pending@[i].cell == waiting[a].cell);
                    assert(pending@[j].cell == waiting[b].cell);
                    if a < b {
                        assert(waiting[a].cell != waiting[b].cell);
                    } else {
                        assert(waiting[b].cell != waiting[a].cell);
                    }
                }
                lemma_stale_total_insert(rest, at as int, back, used@);
                assert(stale(listed, used@) == stale(listed.drop_last(), used@) + 1);
                assert forall|k: int|
                    0 <= k < pending@.len() implies is_waiting::<N>(
                    #[trigger] pending@[k],
                    entries,
                    source,
                    *layout,
                ) by {
                    if k < at {
                        assert(pending@[k] == waiting[k]);
                    } else if k > at {
                        assert(pending@[k] == waiting[k - 1]);
                    }
                }
                assert forall|ax: int, ay: int| #[trigger] layout.has_cell(ax, ay) implies (
                is_served(found@, *layout, ax, ay) || exists|k: int|
                    0 <= k < pending@.len() && (#[trigger] pending@[k]).cell == ax * layout.vtiles
                        + ay) by {
                    if !is_served(found@, *layout, ax, ay) {
                        let k = choose|k: int|
                            0 <= k < waiting.len() && (#[trigger] waiting[k]).cell == ax
                                * layout.vtiles + ay;
                        if k == waiting.len() - 1 {
                            assert(pending@[at as int].cell == ax * layout.vtiles + ay);
                        } else if k < at {
                            assert(pending@[k] == waiting[k]);
                        } else {
                            assert(pending@[k + 1] == waiting[k]);
                        }
                    }
                }
            }
        }
    }
    proof {
        assert forall|cx: int, cy: int| layout.has_cell(cx, cy) implies is_served(
            found@,
            *layout,
            cx,
            cy,
        ) by {
            assert(layout.has_cell(cx, cy));
        }
        assert forall|c: int| 0 <= c < found@.len() implies (#[trigger] found@[c]).item != 0
            && entries.dom().contains(found@[c].item) by {
            if layout.htiles > 0 {
                let ay = c / layout.htiles as int;
                let ax = c % layout.htiles as int;
                vstd::arithmetic::div_mod::lemma_fundamental_div_mod(c, layout.htiles as int);
                assert(0 <= ay < vtiles) by (nonlinear_arith)
                    requires
                        0 <= c < htiles * vtiles,
                        c == htiles * ay + ax,
                        0 <= ax < htiles,
                ;
                assert(htiles * ay == ay * htiles) by (nonlinear_arith);
                assert(c == cell_number(*layout, ax, ay));
                assert(layout.has_cell(ax, ay));
                assert(is_served(found@, *layout, ax, ay));
            } else {
                assert(htiles * vtiles == 0) by (nonlinear_arith)
                    requires
                        htiles == 0,
                ;
            }
        }
        assert forall|cx: int, cy: int| layout.has_cell(cx, cy) implies #[trigger] cell_match::<N>(
            found@[cell_number(*layout, cx, cy)],
            entries,
            source,
            *layout,
            cx,
            cy,
        ) by {
            assert(is_served(found@, *layout, cx, cy));
        }
        lemma_no_more_than_tiles(found@, tile_set@.tiles.len() as int);
        assert forall|cx: int, cy: int, other: i16|
            #![trigger layout.has_cell(cx, cy), index@.dom().contains(other)]
            layout.has_cell(cx, cy) && index@.dom().contains(other) implies found@[cell_number(
            *layout,
            cx,
            cy,
        )].distance <= manhattan(entries[other], query_of::<N>(source, *layout, cx, cy)) by {
            assert(is_served(found@, *layout, cx, cy));
            assert(index@[other] == entries[other]);
        }
        assert forall|item: i16|
            entries.dom().contains(item) && !(#[trigger] index@.dom().contains(
                item,
            )) implies is_taken(found@, magnitude(item)) by {
            assert(used@.contains(item));
        }
    }
    Ok(found)
}

} // verus!
