//! Colour signatures: an image, or a block of one, as a grid of colours.

use crate::color::average_color;
use crate::color::lemma_rect_average_solid;
use crate::color::rect_average;
use crate::color::ImageView;
use crate::color::Rgb;
use crate::color::RgbImage;
use crate::tiles::utils::grid_side;
use crate::tiles::utils::int_sqrt;
use vstd::arithmetic::div_mod::lemma_fundamental_div_mod;
use vstd::prelude::*;

verus! {

/// Whether `n` cells fill a square grid.
pub open spec fn is_square(n: nat) -> bool {
    int_sqrt(n) * int_sqrt(n) == n
}

/// The width of a grid cell when `img` is cut into `side` columns.
pub open spec fn cell_width(img: ImageView, side: int) -> nat {
    (img.width as int / side) as nat
}

/// The height of a grid cell when `img` is cut into `side` rows.
pub open spec fn cell_height(img: ImageView, side: int) -> nat {
    (img.height as int / side) as nat
}

/// The average colour of cell `i` of `img` cut into `side` by `side` equal
/// cells, counted row after row from the top left. Pixels right of the last
/// column and below the last row belong to no cell.
pub open spec fn cell_average(img: ImageView, side: int, i: int) -> Rgb {
    rect_average(
        img,
        (i % side) * cell_width(img, side),
        (i / side) * cell_height(img, side),
        cell_width(img, side),
        cell_height(img, side),
    )
}

/// A cell of the grid lies inside the image.
pub proof fn lemma_cell_inside(extent: nat, side: int, k: int)
    requires
        0 <= k < side,
    ensures
        0 <= k * (extent as int / side),
        k * (extent as int / side) + extent as int / side <= extent,
        side <= extent ==> extent as int / side > 0,
{
    let size = extent as int / side;
    lemma_fundamental_div_mod(extent as int, side);
    assert(size >= 0) by (nonlinear_arith)
        requires
            extent == side * size + extent as int % side,
            0 <= extent as int % side < side,
            extent >= 0,
    ;
    assert(k * size >= 0) by (nonlinear_arith)
        requires
            k >= 0,
            size >= 0,
    ;
    assert(k * size + size <= side * size) by (nonlinear_arith)
        requires
            k + 1 <= side,
            size >= 0,
    ;
    if side <= extent {
        assert(size > 0) by (nonlinear_arith)
            requires
                extent == side * size + extent as int % side,
                0 <= extent as int % side < side,
                side <= extent,
        ;
    }
}

/// Every cell of an image of one colour has that colour as its average.
pub proof fn lemma_solid_image_cells(img: ImageView, color: Rgb, side: int, i: int)
    requires
        img.is_solid(color),
        0 < side <= img.width,
        side <= img.height,
        0 <= i < side * side,
    ensures
        cell_average(img, side, i) == color,
{
    lemma_fundamental_div_mod(i, side);
    assert(0 <= i / side < side) by (nonlinear_arith)
        requires
            0 <= i < side * side,
            i == side * (i / side) + i % side,
            0 <= i % side < side,
    ;
    lemma_cell_inside(img.width, side, i % side);
    lemma_cell_inside(img.height, side, i / side);
    let left = (i % side) * cell_width(img, side);
    let top = (i / side) * cell_height(img, side);
    assert forall|x: int, y: int|
        left <= x < left + cell_width(img, side) && top <= y < top + cell_height(
            img,
            side,
        ) implies #[trigger] img.pixel(x, y) == color by {
        assert(img.contains(x, y));
    }
    lemma_rect_average_solid(
        img,
        color,
        left,
        top,
        cell_width(img, side),
        cell_height(img, side),
    );
}

/// The signature of an image: the average colours of its `N` cells, where the
/// image is cut into a square grid of `N` equal cells and the cells are
/// counted row after row from the top left. An image of one colour gives that
/// colour `N` times. `N` must be a square and the image at least one pixel
/// wide and high for each grid column and row.
pub fn analyse<const N: usize>(img: RgbImage) -> (colors: [Rgb; N])
    requires
        is_square(N as nat),
        N > 0 ==> int_sqrt(N as nat) <= img@.width && int_sqrt(N as nat) <= img@.height,
    ensures
        forall|i: int|
            0 <= i < N ==> #[trigger] colors@[i] == cell_average(
                img@,
                int_sqrt(N as nat) as int,
                i,
            ),
        forall|color: Rgb| #[trigger]
            img@.is_solid(color) ==> forall|i: int| 0 <= i < N ==> #[trigger] colors@[i] == color,
{
    let mut colors = [Rgb([0u8, 0, 0]); N];
    if N == 0 {
        return colors;
    }
    let side = grid_side(N);
    let ghost view = img@;
    let width = img.width();
    let height = img.height();
    assert(side > 0) by (nonlinear_arith)
        requires
            side * side == N,
            N > 0,
    ;
    let dim = side as u32;
    let dim_width = width / dim;
    let dim_height = height / dim;
    let mut i: usize = 0;
    while i < N
        invariant
            i <= N,
            view == img@,
            width == view.width,
            height == view.height,
            side == int_sqrt(N as nat),
            side * side == N,
            0 < side <= width,
            side <= height,
            dim == side,
            dim_width == cell_width(view, side as int),
            dim_height == cell_height(view, side as int),
            forall|k: int|
                0 <= k < i ==> #[trigger] colors@[k] == cell_average(view, side as int, k),
        decreases N - i,
    {
        let top = (i / side) as u32;
        let left = (i % side) as u32;
        proof {
            lemma_fundamental_div_mod(i as int, side as int);
            assert(0 <= i as int / side as int && (i as int / side as int) < side)
                by (nonlinear_arith)
                requires
                    0 <= i < side * side,
                    i == side * (i as int / side as int) + i as int % side as int,
                    0 <= i as int % side as int,
                    (i as int % side as int) < side,
            ;
            lemma_cell_inside(view.width, side as int, i as int % side as int);
            lemma_cell_inside(view.height, side as int, i as int / side as int);
        }
        let rect = (left * dim_width, top * dim_height, dim_width, dim_height);
        let color = average_color(&img, rect);
        colors[i] = color;
        i += 1;
    }
    proof {
        assert forall|color: Rgb| #[trigger] view.is_solid(color) implies forall|k: int|
            0 <= k < N ==> #[trigger] colors@[k] == color by {
            assert forall|k: int| 0 <= k < N implies #[trigger] colors@[k] == color by {
                lemma_solid_image_cells(view, color, side as int, k);
            }
        }
    }
    colors
}

/// The colours of `N` pixels of `source_img`, read from the block whose top
/// left corner is `(x, y)`: row after row, `step` pixels to a row.
pub fn get_img_colors<const N: usize>(x: u32, y: u32, step: u32, source_img: &RgbImage) -> (colors:
    [Rgb; N])
    requires
        step > 0,
        forall|i: int|
            0 <= i < N ==> #[trigger] source_img@.contains(x + i % step as int, y + i / step as int),
    ensures
        forall|i: int|
            0 <= i < N ==> #[trigger] colors@[i] == source_img@.pixel(
                x + i % step as int,
                y + i / step as int,
            ),
{
    let mut colors = [Rgb([0u8, 0, 0]); N];
    let width = source_img.width();
    let height = source_img.height();
    let mut i: usize = 0;
    while i < N
        invariant
            i <= N,
            step > 0,
            width == source_img@.width,
            height == source_img@.height,
            forall|k: int|
                0 <= k < N ==> #[trigger] source_img@.contains(
                    x + k % step as int,
                    y + k / step as int,
                ),
            forall|k: int|
                0 <= k < i ==> #[trigger] colors@[k] == source_img@.pixel(
                    x + k % step as int,
                    y + k / step as int,
                ),
        decreases N - i,
    {
        assert(source_img@.contains(x + i as int % step as int, y + i as int / step as int));
        let dx = i % (step as usize);
        let dy = i / (step as usize);
        let px = x + dx as u32;
        let py = y + dy as u32;
        colors[i] = source_img.get_pixel(px, py);
        i += 1;
    }
    colors
}

} // verus!
