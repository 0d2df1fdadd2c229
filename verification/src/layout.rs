//! The grid of a render: how the source image is cut into cells and how
//! large the mosaic becomes.

use crate::analysis::is_square;
use crate::color::ImageView;
use crate::color::RgbImage;
use crate::color::lemma_pixel_position;
use crate::error::RenderError;
use crate::tiles::utils::grid_side;
use crate::tiles::utils::int_sqrt;
use vstd::prelude::*;

verus! {

/// The grid a render works on: the source image is cut into `htiles` by
/// `vtiles` cells of `step` by `step` pixels, and each cell becomes a tile of
/// `tile_size` by `tile_size` pixels.
#[derive(Clone, Copy, Debug)]
pub struct Layout {
    pub step: u32,
    pub htiles: u32,
    pub vtiles: u32,
    pub tile_size: u32,
}

impl Layout {
    /// Whether the grid has cells of some size and its output fits in memory.
    pub open spec fn wf(self) -> bool {
        &&& self.step > 0
        &&& self.tile_size > 0
        &&& self.htiles * self.step <= u32::MAX
        &&& self.vtiles * self.step <= u32::MAX
        &&& self.htiles * self.tile_size <= u32::MAX
        &&& self.vtiles * self.tile_size <= u32::MAX
        &&& (self.htiles * self.tile_size) * (self.vtiles * self.tile_size) <= usize::MAX
    }

    /// The number of cells.
    pub open spec fn cells(self) -> int {
        self.htiles * self.vtiles
    }

    /// Whether `(cx, cy)` is a cell of the grid.
    pub open spec fn has_cell(self, cx: int, cy: int) -> bool {
        0 <= cx < self.htiles && 0 <= cy < self.vtiles
    }
}

/// Whether an image of the given size can be cut into cells of `step` by
/// `step` pixels without a rest.
pub open spec fn source_fits(width: int, height: int, step: int) -> bool {
    width % step == 0 && height % step == 0
}

/// Whether tiles of the given size can be cut into `step` by `step` cells.
pub open spec fn tile_fits(tile_size: int, step: int) -> bool {
    tile_size > 0 && tile_size % step == 0
}

/// Whether an output of `htiles` by `vtiles` tiles fits in memory.
pub open spec fn output_fits(htiles: int, vtiles: int, tile_size: int) -> bool {
    &&& htiles * tile_size <= u32::MAX
    &&& vtiles * tile_size <= u32::MAX
    &&& (htiles * tile_size) * (vtiles * tile_size) <= usize::MAX
}

/// The multiple of `side` nearest to `size`, the lower one where two are as
/// near, or `None` where that multiple is more than a `u32` holds.
pub open spec fn nearest_multiple(size: u32, side: u32) -> Option<u32> {
    let over = size % side;
    if over > side / 2 {
        if size + side - over <= u32::MAX {
            Some((size + side - over) as u32)
        } else {
            None
        }
    } else {
        Some((size - over) as u32)
    }
}

/// Brings a width or height to the multiple of the grid side nearest to it,
/// so that an image of that size can be cut into whole cells.
pub fn snap_to_grid(size: u32, side: u32) -> (snapped: Option<u32>)
    requires
        side > 0,
    ensures
        snapped == nearest_multiple(size, side),
        snapped is Some ==> snapped->0 % side == 0,
{
    let over = size % side;
    if over > side / 2 {
        proof {
            vstd::arithmetic::div_mod::lemma_fundamental_div_mod(size as int, side as int);
            let up = size + side - over;
            assert(up == side * (size as int / side as int + 1)) by (nonlinear_arith)
                requires
                    size == side * (size as int / side as int) + over,
                    up == size + side - over,
            ;
            vstd::arithmetic::div_mod::lemma_mod_multiples_basic(
                size as int / side as int + 1,
                side as int,
            );
            assert(side * (size as int / side as int + 1) == (size as int / side as int + 1)
                * side) by (nonlinear_arith);
        }
        if size > u32::MAX - (side - over) {
            None
        } else {
            Some(size + (side - over))
        }
    } else {
        proof {
            vstd::arithmetic::div_mod::lemma_fundamental_div_mod(size as int, side as int);
            vstd::arithmetic::div_mod::lemma_mod_multiples_basic(
                size as int / side as int,
                side as int,
            );
            assert(side * (size as int / side as int) == (size as int / side as int) * side)
                by (nonlinear_arith);
        }
        Some(size - over)
    }
}

/// The place of the cell `(cx, cy)` in a list of the cells row after row.
pub open spec fn cell_number(layout: Layout, cx: int, cy: int) -> int {
    cy * layout.htiles + cx
}

/// The layout of a render of `source` with signatures of `N` colours and
/// tiles of `tile_size` pixels.
pub open spec fn layout_of<const N: usize>(source: ImageView, tile_size: u32) -> Layout {
    Layout {
        step: int_sqrt(N as nat) as u32,
        htiles: (source.width as int / int_sqrt(N as nat) as int) as u32,
        vtiles: (source.height as int / int_sqrt(N as nat) as int) as u32,
        tile_size,
    }
}

/// What is wrong with the sizes of a render, if anything: the source image
/// is not made of whole cells, or the tiles are not, or the output is too
/// large.
pub open spec fn layout_error<const N: usize>(source: ImageView, tile_size: u32) -> Option<
    RenderError,
> {
    let step = int_sqrt(N as nat) as int;
    if !source_fits(source.width as int, source.height as int, step) {
        Some(RenderError::SourceSize)
    } else if !tile_fits(tile_size as int, step) {
        Some(RenderError::TileSize)
    } else if !output_fits(
        source.width as int / step,
        source.height as int / step,
        tile_size as int,
    ) {
        Some(RenderError::OutputSize)
    } else {
        None
    }
}

/// Whether the layout is that of `source` cut into cells for signatures of
/// `N` colours.
pub open spec fn is_layout_of<const N: usize>(layout: Layout, source: ImageView) -> bool {
    &&& layout.wf()
    &&& layout.step * layout.step == N
    &&& layout.htiles * layout.step == source.width
    &&& layout.vtiles * layout.step == source.height
}

/// One column starts right of where the one before it ends.
pub proof fn lemma_cells_apart(a: int, b: int, size: int)
    requires
        0 <= a < b,
        size >= 0,
    ensures
        a * size + size <= b * size,
        0 <= a * size,
{
    assert(a * size + size <= b * size) by (nonlinear_arith)
        requires
            a + 1 <= b,
            size >= 0,
    ;
    assert(0 <= a * size) by (nonlinear_arith)
        requires
            0 <= a,
            size >= 0,
    ;
}

/// Every cell has its own place in the list of cells, and the list is as long
/// as there are cells.
pub proof fn lemma_cell_number(layout: Layout, cx: int, cy: int)
    requires
        layout.has_cell(cx, cy),
    ensures
        0 <= cell_number(layout, cx, cy) < layout.cells(),
        cell_number(layout, cx, cy) / layout.htiles as int == cy,
        cell_number(layout, cx, cy) % layout.htiles as int == cx,
{
    lemma_pixel_position(layout.htiles as nat, layout.vtiles as nat, cx, cy);
    vstd::arithmetic::div_mod::lemma_fundamental_div_mod_converse(
        cell_number(layout, cx, cy),
        layout.htiles as int,
        cy,
        cx,
    );
}

/// Every place in the list of cells is that of a cell.
pub proof fn lemma_cell_of_number(layout: Layout, number: int)
    requires
        0 <= number < layout.cells(),
    ensures
        layout.has_cell(number % layout.htiles as int, number / layout.htiles as int),
        cell_number(layout, number % layout.htiles as int, number / layout.htiles as int)
            == number,
{
    let h = layout.htiles as int;
    let v = layout.vtiles as int;
    assert(h > 0) by (nonlinear_arith)
        requires
            0 <= number < h * v,
            h >= 0,
            v >= 0,
    ;
    vstd::arithmetic::div_mod::lemma_fundamental_div_mod(number, h);
    assert(h * (number / h) == (number / h) * h) by (nonlinear_arith);
    assert(0 <= number / h < v) by (nonlinear_arith)
        requires
            0 <= number < h * v,
            number == h * (number / h) + number % h,
            0 <= number % h < h,
    ;
}

/// The number of cells of a layout fits where the size of its output does.
pub proof fn lemma_cells_fit(layout: Layout)
    requires
        layout.wf(),
    ensures
        layout.cells() <= usize::MAX,
        layout.cells() <= (layout.htiles * layout.tile_size) * (layout.vtiles * layout.tile_size),
{
    let h = layout.htiles as int;
    let v = layout.vtiles as int;
    let t = layout.tile_size as int;
    assert(h * v <= (h * t) * (v * t)) by (nonlinear_arith)
        requires
            h >= 0,
            v >= 0,
            t >= 1,
    ;
}

/// Lays out the grid for a render of `source_img` with signatures of `N`
/// cells and tiles of `tile_size` pixels, or says which of the sizes does
/// not fit: the source image's, the tiles', or the output's.
pub fn plan<const N: usize>(source_img: &RgbImage, tile_size: u32) -> (planned: Result<
    Layout,
    RenderError,
>)
    requires
        is_square(N as nat),
        N > 0,
    ensures
        planned is Ok <==> layout_error::<N>(source_img@, tile_size) is None,
        planned is Err ==> Some(planned->Err_0) == layout_error::<N>(source_img@, tile_size),
        planned is Ok ==> planned->Ok_0 == layout_of::<N>(source_img@, tile_size)
            && is_layout_of::<N>(planned->Ok_0, source_img@),
{
    let side = grid_side(N);
    assert(0 < side <= 0xffff_ffff) by (nonlinear_arith)
        requires
            side * side == N,
            0 < N <= 0xffff_ffff_ffff_ffff,
            side >= 0,
    ;
    let step = side as u32;
    let width = source_img.width();
    let height = source_img.height();
    if width % step != 0 || height % step != 0 {
        return Err(RenderError::SourceSize);
    }
    if tile_size == 0 || tile_size % step != 0 {
        return Err(RenderError::TileSize);
    }
    let htiles = width / step;
    let vtiles = height / step;
    proof {
        vstd::arithmetic::div_mod::lemma_fundamental_div_mod(width as int, step as int);
        vstd::arithmetic::div_mod::lemma_fundamental_div_mod(height as int, step as int);
        assert(htiles * step == step * htiles) by (nonlinear_arith);
        assert(vtiles * step == step * vtiles) by (nonlinear_arith);
        assert(step * step == N);
        assert(htiles * tile_size <= 0xffff_ffff * 0xffff_ffff) by (nonlinear_arith)
            requires
                0 <= htiles <= 0xffff_ffff,
                0 <= tile_size <= 0xffff_ffff,
        ;
        assert(vtiles * tile_size <= 0xffff_ffff * 0xffff_ffff) by (nonlinear_arith)
            requires
                0 <= vtiles <= 0xffff_ffff,
                0 <= tile_size <= 0xffff_ffff,
        ;
    }
    let out_width: u64 = htiles as u64 * tile_size as u64;
    let out_height: u64 = vtiles as u64 * tile_size as u64;
    if out_width > u32::MAX as u64 || out_height > u32::MAX as u64 {
        return Err(RenderError::OutputSize);
    }
    assert(out_width * out_height <= 0xffff_ffff * 0xffff_ffff) by (nonlinear_arith)
        requires
            0 <= out_width <= 0xffff_ffff,
            0 <= out_height <= 0xffff_ffff,
    ;
    if out_width * out_height > usize::MAX as u64 {
        return Err(RenderError::OutputSize);
    }
    Ok(Layout { step, htiles, vtiles, tile_size })
}

} // verus!
