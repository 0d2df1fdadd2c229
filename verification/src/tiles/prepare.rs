//! Tile preparation: a picture becomes a tile image by losing its white
//! margins, being cut square, resized to the tile size and turned upright.

use crate::color::ImageView;
use crate::color::Rgb;
use crate::color::RgbImage;
use crate::tiles::utils::most_common_value;
use crate::tiles::utils::occurrences;
use vstd::prelude::*;

verus! {

/// Why a picture makes no tile image.
#[derive(Clone, Copy, Debug, PartialEq, Eq)]
pub enum PrepareError {
    /// The picture is narrower or lower than the tile.
    TooSmall,
    /// Nothing is left of the picture without its white margins.
    NoContent,
    /// The picture or the tile has no pixel, or more than can be counted.
    Size,
}

/// Whether a pixel counts as white: every channel above 240.
pub open spec fn is_white(pixel: Rgb) -> bool {
    pixel.channel(0) > 240 && pixel.channel(1) > 240 && pixel.channel(2) > 240
}

/// Whether a pixel counts as white: every channel above 240.
pub fn is_white_pixel(pixel: Rgb) -> (white: bool)
    ensures
        white == is_white(pixel),
{
    pixel.0[0] > 240 && pixel.0[1] > 240 && pixel.0[2] > 240
}

/// The first column from `from` on in which row `y` is not white, or the
/// width of the image where there is none.
pub open spec fn first_dark_in_row(img: ImageView, y: int, from: int) -> int
    decreases img.width - from,
{
    if from >= img.width {
        img.width as int
    } else if !is_white(img.pixel(from, y)) {
        from
    } else {
        first_dark_in_row(img, y, from + 1)
    }
}

/// The last column from `from` on and before `upto` in which row `y` is not
/// white, or 0 where there is none.
pub open spec fn last_dark_in_row(img: ImageView, y: int, from: int, upto: int) -> int
    decreases upto - from,
{
    if upto <= from {
        0
    } else if !is_white(img.pixel(upto - 1, y)) {
        upto - 1
    } else {
        last_dark_in_row(img, y, from, upto - 1)
    }
}

/// The first row from `from` on in which column `x` is not white, or the
/// height of the image where there is none.
pub open spec fn first_dark_in_column(img: ImageView, x: int, from: int) -> int
    decreases img.height - from,
{
    if from >= img.height {
        img.height as int
    } else if !is_white(img.pixel(x, from)) {
        from
    } else {
        first_dark_in_column(img, x, from + 1)
    }
}

/// The last row from `from` on and before `upto` in which column `x` is not
/// white, or 0 where there is none.
pub open spec fn last_dark_in_column(img: ImageView, x: int, from: int, upto: int) -> int
    decreases upto - from,
{
    if upto <= from {
        0
    } else if !is_white(img.pixel(x, upto - 1)) {
        upto - 1
    } else {
        last_dark_in_column(img, x, from, upto - 1)
    }
}

/// Where the first dark pixel of a row or column can be.
pub proof fn lemma_first_dark_bounds(img: ImageView, at: int, from: int)
    requires
        0 <= from,
    ensures
        from <= first_dark_in_row(img, at, from) <= img.width || img.width < from,
        from <= first_dark_in_column(img, at, from) <= img.height || img.height < from,
        first_dark_in_row(img, at, from) >= 0,
        first_dark_in_column(img, at, from) >= 0,
    decreases (if img.width > img.height {
        img.width
    } else {
        img.height
    }) - from,
{
    if from < img.width || from < img.height {
        lemma_first_dark_bounds(img, at, from + 1);
    }
}

/// Where the last dark pixel of a row or column can be.
pub proof fn lemma_last_dark_bounds(img: ImageView, at: int, from: int, upto: int)
    requires
        0 <= from,
    ensures
        0 <= last_dark_in_row(img, at, from, upto),
        last_dark_in_row(img, at, from, upto) < upto || upto <= 0,
        0 <= last_dark_in_column(img, at, from, upto),
        last_dark_in_column(img, at, from, upto) < upto || upto <= 0,
    decreases upto - from,
{
    if upto > from {
        lemma_last_dark_bounds(img, at, from, upto - 1);
    }
}

/// The first column in which row `y` is not white, or the width of the image
/// where the row is white.
pub fn first_dark_column(img: &RgbImage, y: u32) -> (x: u32)
    requires
        y < img@.height,
    ensures
        x == first_dark_in_row(img@, y as int, 0),
        x <= img@.width,
{
    let width = img.width();
    let mut x: u32 = 0;
    while x < width && is_white_pixel(img.get_pixel(x, y))
        invariant
            x <= width,
            width == img@.width,
            y < img@.height,
            first_dark_in_row(img@, y as int, 0) == first_dark_in_row(img@, y as int, x as int),
        decreases width - x,
    {
        x = x + 1;
    }
    x
}

/// The last column from `from` on in which row `y` is not white, or 0 where
/// there is none.
pub fn last_dark_column(img: &RgbImage, y: u32, from: u32) -> (x: u32)
    requires
        y < img@.height,
    ensures
        x == last_dark_in_row(img@, y as int, from as int, img@.width as int),
        x < img@.width || x == 0,
{
    let width = img.width();
    let mut upto: u32 = width;
    while upto > from && is_white_pixel(img.get_pixel(upto - 1, y))
        invariant
            upto <= width,
            width == img@.width,
            y < img@.height,
            last_dark_in_row(img@, y as int, from as int, width as int) == last_dark_in_row(
                img@,
                y as int,
                from as int,
                upto as int,
            ),
        decreases upto,
    {
        upto = upto - 1;
    }
    if upto > from {
        upto - 1
    } else {
        0
    }
}

/// The first row in which column `x` is not white, or the height of the
/// image where the column is white.
pub fn first_dark_row(img: &RgbImage, x: u32) -> (y: u32)
    requires
        x < img@.width,
    ensures
        y == first_dark_in_column(img@, x as int, 0),
        y <= img@.height,
{
    let height = img.height();
    let mut y: u32 = 0;
    while y < height && is_white_pixel(img.get_pixel(x, y))
        invariant
            y <= height,
            height == img@.height,
            x < img@.width,
            first_dark_in_column(img@, x as int, 0) == first_dark_in_column(
                img@,
                x as int,
                y as int,
            ),
        decreases height - y,
    {
        y = y + 1;
    }
    y
}

/// The last row from `from` on in which column `x` is not white, or 0 where
/// there is none.
pub fn last_dark_row(img: &RgbImage, x: u32, from: u32) -> (y: u32)
    requires
        x < img@.width,
    ensures
        y == last_dark_in_column(img@, x as int, from as int, img@.height as int),
        y < img@.height || y == 0,
{
    let height = img.height();
    let mut upto: u32 = height;
    while upto > from && is_white_pixel(img.get_pixel(x, upto - 1))
        invariant
            upto <= height,
            height == img@.height,
            x < img@.width,
            last_dark_in_column(img@, x as int, from as int, height as int)
                == last_dark_in_column(img@, x as int, from as int, upto as int),
        decreases upto,
    {
        upto = upto - 1;
    }
    if upto > from {
        upto - 1
    } else {
        0
    }
}

/// The values that are not `blank`, in their order.
pub open spec fn without(values: Seq<u32>, blank: u32) -> Seq<u32>
    decreases values.len(),
{
    if values.len() == 0 {
        Seq::empty()
    } else if values.last() == blank {
        without(values.drop_last(), blank)
    } else {
        without(values.drop_last(), blank).push(values.last())
    }
}

/// What is left without the blank values was among the values.
pub proof fn lemma_without(values: Seq<u32>, blank: u32, value: u32)
    requires
        without(values, blank).contains(value),
    ensures
        values.contains(value),
        value != blank,
    decreases values.len(),
{
    if values.len() > 0 {
        let rest = without(values.drop_last(), blank);
        if values.last() != blank && value == values.last() {
            assert(values[values.len() - 1] == value);
        } else {
            if values.last() != blank {
                let i = choose|i: int| 0 <= i < rest.push(values.last()).len() && rest.push(
                    values.last(),
                )[i] == value;
                assert(rest[i] == value);
            }
            lemma_without(values.drop_last(), blank, value);
            let k = choose|k: int| 0 <= k < values.drop_last().len() && values.drop_last()[k] == value;
            assert(values[k] == value);
        }
    }
}

/// For each of the first `rows` rows, the first column that is not white.
pub open spec fn row_starts(img: ImageView, rows: int) -> Seq<u32> {
    Seq::new(rows as nat, |y: int| first_dark_in_row(img, y, 0) as u32)
}

/// For each of the first `rows` rows, the last column that is not white.
pub open spec fn row_ends(img: ImageView, rows: int) -> Seq<u32> {
    Seq::new(
        rows as nat,
        |y: int| last_dark_in_row(img, y, first_dark_in_row(img, y, 0), img.width as int) as u32,
    )
}

/// For each of the first `columns` columns, the first row that is not white.
pub open spec fn column_starts(img: ImageView, columns: int) -> Seq<u32> {
    Seq::new(columns as nat, |x: int| first_dark_in_column(img, x, 0) as u32)
}

/// For each of the first `columns` columns, the last row that is not white.
pub open spec fn column_ends(img: ImageView, columns: int) -> Seq<u32> {
    Seq::new(
        columns as nat,
        |x: int|
            last_dark_in_column(img, x, first_dark_in_column(img, x, 0), img.height as int) as u32,
    )
}

/// Whether `value` occurs most often among `values`, or is 0 where there
/// are none.
pub open spec fn is_most_common(values: Seq<u32>, value: u32) -> bool {
    &&& values.len() == 0 ==> value == 0
    &&& values.len() > 0 ==> values.contains(value)
    &&& forall|other: u32| occurrences(values, other) <= occurrences(values, value)
}

/// Where the picture inside its white margins begins and ends.
#[derive(Clone, Copy, Debug, PartialEq, Eq)]
pub struct Margins {
    /// The column the picture begins in.
    pub left: u32,
    /// The column the picture ends in.
    pub right: u32,
    /// The row the picture begins in.
    pub top: u32,
    /// The row the picture ends in.
    pub bottom: u32,
}

/// Whether `margins` tells where the picture inside the white margins of
/// `img` begins and ends: the column most rows begin in and the column most
/// rows end in, counting the rows that are not white all over and do not end
/// in column 0, and the same for the rows.
pub open spec fn are_margins(img: ImageView, margins: Margins) -> bool {
    &&& is_most_common(
        without(row_starts(img, img.height as int), img.width as u32),
        margins.left,
    )
    &&& is_most_common(without(row_ends(img, img.height as int), 0), margins.right)
    &&& is_most_common(
        without(column_starts(img, img.width as int), img.height as u32),
        margins.top,
    )
    &&& is_most_common(without(column_ends(img, img.width as int), 0), margins.bottom)
}

/// Finds where the picture inside its white margins begins and ends.
pub fn find_margins(img: &RgbImage) -> (margins: Margins)
    ensures
        are_margins(img@, margins),
        margins.left <= img@.width,
        margins.right < img@.width || margins.right == 0,
        margins.top <= img@.height,
        margins.bottom < img@.height || margins.bottom == 0,
{
    let width = img.width();
    let height = img.height();
    let ghost view = img@;
    let mut from_left: Vec<u32> = Vec::new();
    let mut from_right: Vec<u32> = Vec::new();
    let mut y: u32 = 0;
    while y < height
        invariant
            y <= height,
            view == img@,
            width == view.width,
            height == view.height,
            from_left@ == without(row_starts(view, y as int), width),
            from_right@ == without(row_ends(view, y as int), 0),
        decreases height - y,
    {
        let first = first_dark_column(img, y);
        let last = last_dark_column(img, y, first);
        proof {
            assert(row_starts(view, y + 1).drop_last() == row_starts(view, y as int));
            assert(row_ends(view, y + 1).drop_last() == row_ends(view, y as int));
        }
        if first != width {
            from_left.push(first);
        }
        if last != 0 {
            from_right.push(last);
        }
        y = y + 1;
    }
    let mut from_top: Vec<u32> = Vec::new();
    let mut from_bottom: Vec<u32> = Vec::new();
    let mut x: u32 = 0;
    while x < width
        invariant
            x <= width,
            view == img@,
            width == view.width,
            height == view.height,
            from_top@ == without(column_starts(view, x as int), height),
            from_bottom@ == without(column_ends(view, x as int), 0),
        decreases width - x,
    {
        let first = first_dark_row(img, x);
        let last = last_dark_row(img, x, first);
        proof {
            assert(column_starts(view, x + 1).drop_last() == column_starts(view, x as int));
            assert(column_ends(view, x + 1).drop_last() == column_ends(view, x as int));
        }
        if first != height {
            from_top.push(first);
        }
        if last != 0 {
            from_bottom.push(last);
        }
        x = x + 1;
    }
    let left = most_common_value(from_left.as_slice());
    let right = most_common_value(from_right.as_slice());
    let top = most_common_value(from_top.as_slice());
    let bottom = most_common_value(from_bottom.as_slice());
    proof {
        if from_left@.len() > 0 {
            lemma_without(row_starts(view, height as int), width, left);
            let i = choose|i: int|
                0 <= i < row_starts(view, height as int).len() && row_starts(view, height as int)[i]
                    == left;
            lemma_first_dark_bounds(view, i, 0);
        }
        if from_right@.len() > 0 {
            lemma_without(row_ends(view, height as int), 0, right);
            let i = choose|i: int|
                0 <= i < row_ends(view, height as int).len() && row_ends(view, height as int)[i]
                    == right;
            lemma_first_dark_bounds(view, i, 0);
            lemma_last_dark_bounds(view, i, first_dark_in_row(view, i, 0), width as int);
        }
        if from_top@.len() > 0 {
            lemma_without(column_starts(view, width as int), height, top);
            let i = choose|i: int|
                0 <= i < column_starts(view, width as int).len() && column_starts(
                    view,
                    width as int,
                )[i] == top;
            lemma_first_dark_bounds(view, i, 0);
        }
        if from_bottom@.len() > 0 {
            lemma_without(column_ends(view, width as int), 0, bottom);
            let i = choose|i: int|
                0 <= i < column_ends(view, width as int).len() && column_ends(view, width as int)[i]
                    == bottom;
            lemma_first_dark_bounds(view, i, 0);
            lemma_last_dark_bounds(view, i, first_dark_in_column(view, i, 0), height as int);
        }
    }
    Margins { left, right, top, bottom }
}

/// The part of a picture that becomes the tile image: its corner and size.
#[derive(Clone, Copy, Debug, PartialEq, Eq)]
pub struct Frame {
    pub left: u32,
    pub top: u32,
    pub width: u32,
    pub height: u32,
}

/// The frame that the margins give. Without `square` it begins where the
/// picture begins and ends just before the picture's last column and row.
/// With `square` it is the largest square that fits in a frame of that size,
/// centred in it, the frame taken to begin in the corner of the picture.
pub open spec fn frame_of(margins: Margins, square: bool) -> Frame {
    let width = (margins.right - margins.left) as u32;
    let height = (margins.bottom - margins.top) as u32;
    if square {
        let size = if width <= height {
            width
        } else {
            height
        };
        Frame {
            left: ((width - size) / 2) as u32,
            top: ((height - size) / 2) as u32,
            width: size,
            height: size,
        }
    } else {
        Frame { left: margins.left, top: margins.top, width, height }
    }
}

/// The frame that the margins give, or `None` where the picture does not
/// begin before it ends.
pub fn frame(margins: &Margins, square: bool) -> (framed: Option<Frame>)
    ensures
        framed is Some <==> margins.left < margins.right && margins.top < margins.bottom,
        framed is Some ==> framed->0 == frame_of(*margins, square),
{
    if !(margins.left < margins.right && margins.top < margins.bottom) {
        return None;
    }
    let width = margins.right - margins.left;
    let height = margins.bottom - margins.top;
    if square {
        let size = if width <= height {
            width
        } else {
            height
        };
        Some(Frame { left: (width - size) / 2, top: (height - size) / 2, width: size, height: size })
    } else {
        Some(Frame { left: margins.left, top: margins.top, width, height })
    }
}

/// Whether `upright` is `img` as its orientation says it is to be shown:
/// orientation 2 mirrors it left to right, 3 turns it upside down, 4 mirrors
/// it top to bottom, 5 flips it over the diagonal from the top left, 6 turns
/// it a quarter to the right, 7 flips it over the other diagonal, 8 turns it
/// a quarter to the left, and any other leaves it.
pub open spec fn is_upright(upright: ImageView, img: ImageView, orientation: u32) -> bool {
    if orientation == 2 {
        upright.mirrors(img)
    } else if orientation == 3 {
        upright.is_half_turn_of(img)
    } else if orientation == 4 {
        upright.mirrors_down(img)
    } else if orientation == 5 {
        &&& upright.width == img.height
        &&& upright.height == img.width
        &&& forall|x: int, y: int|
            upright.contains(x, y) ==> #[trigger] upright.pixel(x, y) == img.pixel(y, x)
    } else if orientation == 6 {
        upright.is_quarter_turn_of(img)
    } else if orientation == 7 {
        &&& upright.width == img.height
        &&& upright.height == img.width
        &&& forall|x: int, y: int|
            upright.contains(x, y) ==> #[trigger] upright.pixel(x, y) == img.pixel(
                img.width - 1 - y,
                img.height - 1 - x,
            )
    } else if orientation == 8 {
        upright.is_back_turn_of(img)
    } else {
        upright == img
    }
}

/// Turns an image upright as its orientation says.
pub fn rotate(img: RgbImage, orientation: u32) -> (upright: RgbImage)
    ensures
        upright@.wf(),
        is_upright(upright@, img@, orientation),
{
    let _ = img.width();
    if orientation == 2 {
        img.flip_horizontal()
    } else if orientation == 3 {
        img.rotate180()
    } else if orientation == 4 {
        img.flip_vertical()
    } else if orientation == 5 {
        let turned = img.rotate90();
        let upright = turned.flip_horizontal();
        proof {
            assert forall|x: int, y: int| upright@.contains(x, y) implies #[trigger] upright@.pixel(
                x,
                y,
            ) == img@.pixel(y, x) by {
                assert(turned@.contains(turned@.width - 1 - x, y));
            }
        }
        upright
    } else if orientation == 6 {
        img.rotate90()
    } else if orientation == 7 {
        let turned = img.rotate270();
        let upright = turned.flip_horizontal();
        proof {
            assert forall|x: int, y: int| upright@.contains(x, y) implies #[trigger] upright@.pixel(
                x,
                y,
            ) == img@.pixel(img@.width - 1 - y, img@.height - 1 - x) by {
                assert(turned@.contains(turned@.width - 1 - x, y));
            }
        }
        upright
    } else if orientation == 8 {
        img.rotate270()
    } else {
        img
    }
}

/// Makes the tile image of a picture: the part of the picture inside its
/// white margins, cut square if `crop` says so, is resized to `tile_size` by
/// `tile_size` pixels and turned upright as `orientation` says. A picture
/// narrower or lower than the tile makes none, and neither does one of which
/// the margins leave nothing.
pub fn prepare_image(img: &RgbImage, tile_size: u32, crop: bool, orientation: u32) -> (prepared:
    Result<RgbImage, PrepareError>)
    ensures
        prepared == Err::<RgbImage, PrepareError>(PrepareError::TooSmall) <==> (img@.width
            < tile_size || img@.height < tile_size),
        prepared is Ok ==> prepared->Ok_0@.wf() && prepared->Ok_0@.width == tile_size
            && prepared->Ok_0@.height == tile_size,
        prepared is Ok ==> exists|margins: Margins| #[trigger]
            are_margins(img@, margins) && margins.left < margins.right && margins.top
                < margins.bottom,
        prepared == Err::<RgbImage, PrepareError>(PrepareError::NoContent) ==> exists|
            margins: Margins,
        | #[trigger]
            are_margins(img@, margins) && !(margins.left < margins.right && margins.top
                < margins.bottom),
        prepared == Err::<RgbImage, PrepareError>(PrepareError::Size) ==> tile_size == 0 || 3 * (
        tile_size * tile_size) > usize::MAX || 3 * (img@.width * img@.height) > usize::MAX,
{
    let width = img.width();
    let height = img.height();
    if width < tile_size || height < tile_size {
        return Err(PrepareError::TooSmall);
    }
    let margins = find_margins(img);
    let framed = match frame(&margins, crop) {
        Some(framed) => framed,
        None => {
            return Err(PrepareError::NoContent);
        },
    };
    let part = img.crop(framed.left, framed.top, framed.width, framed.height);
    proof {
        assert(part@.width * part@.height <= img@.width * img@.height) by (nonlinear_arith)
            requires
                0 <= part@.width <= img@.width,
                0 <= part@.height <= img@.height,
        ;
    }
    let resized = match part.resize(tile_size, tile_size) {
        Some(resized) => resized,
        None => {
            return Err(PrepareError::Size);
        },
    };
    let upright = rotate(resized, orientation);
    Ok(upright)
}

} // verus!
