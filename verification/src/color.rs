//! Pixel colours, the in-memory image the engine reads and writes, and the
//! average colour of a rectangle of pixels.

use vstd::prelude::*;

verus! {

/// An 8-bit RGB colour: red, green and blue, in that order.
#[derive(Clone, Copy, Debug, PartialEq, Eq, Hash)]
pub struct Rgb(pub [u8; 3]);

impl Rgb {
    /// The channel `c` (0 = red, 1 = green, 2 = blue) as a number.
    pub open spec fn channel(self, c: int) -> int {
        self.0@[c] as int
    }

    /// The colour with the given channels.
    pub open spec fn of(r: int, g: int, b: int) -> Rgb {
        Rgb([r as u8, g as u8, b as u8])
    }
}

/// Two colours with the same three channels are the same colour.
pub proof fn lemma_rgb_by_channels(a: Rgb, b: Rgb)
    requires
        a.channel(0) == b.channel(0),
        a.channel(1) == b.channel(1),
        a.channel(2) == b.channel(2),
    ensures
        a == b,
{
    assert(a.0@ =~= b.0@);
    assert(a.0 =~= b.0);
}

/// What an image is: its size and its pixels, row after row from the top.
pub struct ImageView {
    pub width: nat,
    pub height: nat,
    pub pixels: Seq<Rgb>,
}

impl ImageView {
    /// The pixel in column `x` of row `y`.
    pub open spec fn pixel(self, x: int, y: int) -> Rgb {
        self.pixels[y * self.width + x]
    }

    /// Whether `(x, y)` lies inside the image.
    pub open spec fn contains(self, x: int, y: int) -> bool {
        0 <= x < self.width && 0 <= y < self.height
    }

    /// Whether the image has as many pixels as its width times its height.
    pub open spec fn wf(self) -> bool {
        self.pixels.len() == self.width * self.height
    }

    /// Whether every pixel has the colour `c`.
    pub open spec fn is_solid(self, c: Rgb) -> bool {
        forall|x: int, y: int| self.contains(x, y) ==> #[trigger] self.pixel(x, y) == c
    }

    /// Whether `self` shows `other`, pixel for pixel, with `other`'s top left
    /// corner at `(x, y)`.
    pub open spec fn shows_at(self, x: int, y: int, other: ImageView) -> bool {
        forall|i: int, j: int|
            x <= i < x + other.width && y <= j < y + other.height ==> #[trigger] self.pixel(i, j)
                == other.pixel(i - x, j - y)
    }

    /// Whether `self` shows `other`, mirrored left to right if `flipped`,
    /// with its top left corner at `(x, y)`.
    pub open spec fn shows_oriented_at(self, x: int, y: int, other: ImageView, flipped: bool) -> bool {
        forall|i: int, j: int|
            x <= i < x + other.width && y <= j < y + other.height ==> #[trigger] self.pixel(i, j)
                == (if flipped {
                other.pixel(other.width - 1 - (i - x), j - y)
            } else {
                other.pixel(i - x, j - y)
            })
    }

    /// Whether `self` is `other` mirrored left to right.
    pub open spec fn mirrors(self, other: ImageView) -> bool {
        &&& self.width == other.width
        &&& self.height == other.height
        &&& forall|x: int, y: int|
            self.contains(x, y) ==> #[trigger] self.pixel(x, y) == other.pixel(
                other.width - 1 - x,
                y,
            )
    }

    /// Whether `self` is `other` turned a quarter to the right.
    pub open spec fn is_quarter_turn_of(self, other: ImageView) -> bool {
        &&& self.width == other.height
        &&& self.height == other.width
        &&& forall|x: int, y: int|
            self.contains(x, y) ==> #[trigger] self.pixel(x, y) == other.pixel(
                y,
                other.height - 1 - x,
            )
    }

    /// Whether `self` is `other` turned upside down, a half turn.
    pub open spec fn is_half_turn_of(self, other: ImageView) -> bool {
        &&& self.width == other.width
        &&& self.height == other.height
        &&& forall|x: int, y: int|
            self.contains(x, y) ==> #[trigger] self.pixel(x, y) == other.pixel(
                other.width - 1 - x,
                other.height - 1 - y,
            )
    }

    /// Whether `self` is `other` turned a quarter to the left.
    pub open spec fn is_back_turn_of(self, other: ImageView) -> bool {
        &&& self.width == other.height
        &&& self.height == other.width
        &&& forall|x: int, y: int|
            self.contains(x, y) ==> #[trigger] self.pixel(x, y) == other.pixel(
                other.width - 1 - y,
                x,
            )
    }

    /// Whether `self` is `other` mirrored top to bottom.
    pub open spec fn mirrors_down(self, other: ImageView) -> bool {
        &&& self.width == other.width
        &&& self.height == other.height
        &&& forall|x: int, y: int|
            self.contains(x, y) ==> #[trigger] self.pixel(x, y) == other.pixel(
                x,
                other.height - 1 - y,
            )
    }

    /// Whether `self` is the part of `other` of the given size whose top left
    /// corner is at `(left, top)`.
    pub open spec fn is_part_of(self, other: ImageView, left: int, top: int) -> bool {
        forall|x: int, y: int|
            self.contains(x, y) ==> #[trigger] self.pixel(x, y) == other.pixel(left + x, top + y)
    }

    /// Whether `self` is `under` with `top` laid over it, `top`'s top left
    /// corner at `(x, y)`: where `top` covers a pixel that pixel shows, and
    /// elsewhere `under` does.
    pub open spec fn overlays(self, under: ImageView, top: ImageView, x: int, y: int) -> bool {
        &&& self.width == under.width
        &&& self.height == under.height
        &&& forall|i: int, j: int|
            self.contains(i, j) ==> #[trigger] self.pixel(i, j) == (if x <= i < x + top.width && y
                <= j < y + top.height {
                top.pixel(i - x, j - y)
            } else {
                under.pixel(i, j)
            })
    }
}

/// The position of a pixel in the row-major sequence lies inside it.
pub proof fn lemma_pixel_position(width: nat, height: nat, x: int, y: int)
    requires
        0 <= x < width,
        0 <= y < height,
    ensures
        0 <= y * width + x < width * height,
{
    assert(y * width >= 0) by (nonlinear_arith)
        requires
            y >= 0,
            width >= 0,
    ;
    assert((y + 1) * width <= height * width) by (nonlinear_arith)
        requires
            y + 1 <= height,
            width >= 0,
    ;
    assert((y + 1) * width == y * width + width) by (nonlinear_arith);
    assert(height * width == width * height) by (nonlinear_arith);
}

/// A pixel's position determines its column and row.
pub proof fn lemma_pixel_position_unique(width: nat, x1: int, y1: int, x2: int, y2: int)
    requires
        0 <= x1 < width,
        0 <= x2 < width,
        y1 * width + x1 == y2 * width + x2,
    ensures
        x1 == x2,
        y1 == y2,
{
    if y1 < y2 {
        assert((y1 + 1) * width <= y2 * width) by (nonlinear_arith)
            requires
                y1 + 1 <= y2,
                width >= 0,
        ;
        assert((y1 + 1) * width == y1 * width + width) by (nonlinear_arith);
    } else if y2 < y1 {
        assert((y2 + 1) * width <= y1 * width) by (nonlinear_arith)
            requires
                y2 + 1 <= y1,
                width >= 0,
        ;
        assert((y2 + 1) * width == y2 * width + width) by (nonlinear_arith);
    }
}

/// An image of 8-bit RGB pixels held in memory.
#[derive(Debug)]
pub struct RgbImage {
    width: u32,
    height: u32,
    pixels: Vec<Rgb>,
}

impl View for RgbImage {
    type V = ImageView;

    closed spec fn view(&self) -> ImageView {
        ImageView { width: self.width as nat, height: self.height as nat, pixels: self.pixels@ }
    }
}

impl Clone for RgbImage {
    fn clone(&self) -> (copy: RgbImage)
        ensures
            copy@ == self@,
            copy@.wf(),
    {
        proof {
            use_type_invariant(self);
        }
        let mut pixels: Vec<Rgb> = Vec::new();
        let mut i: usize = 0;
        while i < self.pixels.len()
            invariant
                i <= self.pixels.len(),
                pixels@ == self.pixels@.subrange(0, i as int),
            decreases self.pixels.len() - i,
        {
            pixels.push(self.pixels[i]);
            i += 1;
        }
        assert(pixels@ == self.pixels@);
        RgbImage { width: self.width, height: self.height, pixels }
    }
}

impl RgbImage {
    #[verifier::type_invariant]
    spec fn well_formed(&self) -> bool {
        self.pixels@.len() == self.width as nat * self.height as nat
    }

    /// An image of the given size with every pixel set to `color`, or `None`
    /// where that many pixels cannot be held in memory.
    pub fn from_pixel(width: u32, height: u32, color: Rgb) -> (made: Option<RgbImage>)
        ensures
            made is Some <==> width * height <= usize::MAX,
            made is Some ==> made->0@.width == width && made->0@.height == height
                && made->0@.wf() && made->0@.is_solid(color),
    {
        assert(width * height <= 0xffff_ffff * 0xffff_ffff) by (nonlinear_arith)
            requires
                width <= 0xffff_ffff,
                height <= 0xffff_ffff,
        ;
        let count: u64 = width as u64 * height as u64;
        if count > usize::MAX as u64 {
            return None;
        }
        let total: usize = count as usize;
        let mut pixels: Vec<Rgb> = Vec::new();
        let mut i: usize = 0;
        while i < total
            invariant
                i <= total,
                pixels@.len() == i,
                forall|k: int| 0 <= k < i ==> pixels@[k] == color,
            decreases total - i,
        {
            pixels.push(color);
            i += 1;
        }
        let made = RgbImage { width, height, pixels };
        assert(made@.is_solid(color)) by {
            assert forall|x: int, y: int| made@.contains(x, y) implies #[trigger] made@.pixel(
                x,
                y,
            ) == color by {
                lemma_pixel_position(width as nat, height as nat, x, y);
            }
        }
        Some(made)
    }

    /// An image of the given size whose pixel at `(x, y)` is what `f(x, y)`
    /// gives.
    pub fn from_fn<F: Fn(u32, u32) -> Rgb>(width: u32, height: u32, f: F) -> (made: RgbImage)
        requires
            width * height <= usize::MAX,
            forall|x: u32, y: u32| x < width && y < height ==> #[trigger] f.requires((x, y)),
        ensures
            made@.width == width,
            made@.height == height,
            made@.wf(),
            forall|x: u32, y: u32|
                x < width && y < height ==> f.ensures(
                    (x, y),
                    #[trigger] made@.pixel(x as int, y as int),
                ),
    {
        let mut made = RgbImage::new(width, height);
        let mut y: u32 = 0;
        while y < height
            invariant
                y <= height,
                made@.width == width,
                made@.height == height,
                made@.wf(),
                forall|x: u32, y: u32| x < width && y < height ==> #[trigger] f.requires((x, y)),
                forall|i: u32, j: u32|
                    i < width && j < y ==> f.ensures(
                        (i, j),
                        #[trigger] made@.pixel(i as int, j as int),
                    ),
            decreases height - y,
        {
            let mut x: u32 = 0;
            while x < width
                invariant
                    x <= width,
                    y < height,
                    made@.width == width,
                    made@.height == height,
                    made@.wf(),
                    forall|x: u32, y: u32|
                        x < width && y < height ==> #[trigger] f.requires((x, y)),
                    forall|i: u32, j: u32|
                        i < width && (j < y || (j == y && i < x)) ==> f.ensures(
                            (i, j),
                            #[trigger] made@.pixel(i as int, j as int),
                        ),
                decreases width - x,
            {
                let color = f(x, y);
                made.put_pixel(x, y, color);
                x = x + 1;
            }
            y = y + 1;
        }
        made
    }

    /// A black image of the given size.
    pub fn new(width: u32, height: u32) -> (made: RgbImage)
        requires
            width * height <= usize::MAX,
        ensures
            made@.width == width,
            made@.height == height,
            made@.wf(),
            made@.is_solid(Rgb([0, 0, 0])),
    {
        let made = RgbImage::from_pixel(width, height, Rgb([0, 0, 0]));
        made.unwrap()
    }

    /// The number of pixel columns.
    pub fn width(&self) -> (w: u32)
        ensures
            w == self@.width,
            self@.wf(),
            self@.height <= u32::MAX,
            self@.width * self@.height <= usize::MAX,
    {
        proof {
            use_type_invariant(self);
        }
        let _ = self.pixels.len();
        self.width
    }

    /// The number of pixel rows.
    pub fn height(&self) -> (h: u32)
        ensures
            h == self@.height,
            self@.wf(),
            self@.width <= u32::MAX,
            self@.width * self@.height <= usize::MAX,
    {
        proof {
            use_type_invariant(self);
        }
        let _ = self.pixels.len();
        self.height
    }

    /// The pixel in column `x` of row `y`.
    pub fn get_pixel(&self, x: u32, y: u32) -> (color: Rgb)
        requires
            self@.contains(x as int, y as int),
        ensures
            color == self@.pixel(x as int, y as int),
    {
        proof {
            use_type_invariant(self);
            lemma_pixel_position(self.width as nat, self.height as nat, x as int, y as int);
            assert(0 <= y * self.width <= y * self.width + x);
        }
        let _ = self.pixels.len();
        let at: usize = y as usize * self.width as usize + x as usize;
        self.pixels[at]
    }

    /// Sets the pixel in column `x` of row `y` and leaves every other pixel.
    pub fn put_pixel(&mut self, x: u32, y: u32, color: Rgb)
        requires
            old(self)@.contains(x as int, y as int),
        ensures
            final(self)@.width == old(self)@.width,
            final(self)@.height == old(self)@.height,
            final(self)@.wf(),
            final(self)@.pixel(x as int, y as int) == color,
            forall|i: int, j: int|
                old(self)@.contains(i, j) && (i != x || j != y) ==> #[trigger] final(self)@.pixel(
                    i,
                    j,
                ) == old(self)@.pixel(i, j),
    {
        proof {
            use_type_invariant(&*self);
            lemma_pixel_position(self.width as nat, self.height as nat, x as int, y as int);
            assert(0 <= y * self.width <= y * self.width + x);
        }
        let _ = self.pixels.len();
        let at: usize = y as usize * self.width as usize + x as usize;
        let ghost before = self@;
        self.pixels[at] = color;
        proof {
            let after = self@;
            assert forall|i: int, j: int| before.contains(i, j) && (i != x || j != y) implies #[trigger] after.pixel(
                i,
                j,
            ) == before.pixel(i, j) by {
                lemma_pixel_position(before.width, before.height, i, j);
                if j * before.width + i == y * before.width + x {
                    lemma_pixel_position_unique(before.width, i, j, x as int, y as int);
                }
            }
        }
    }

    /// The image mirrored left to right.
    pub fn flip_horizontal(&self) -> (flipped: RgbImage)
        ensures
            flipped@.wf(),
            flipped@.mirrors(self@),
    {
        proof {
            use_type_invariant(self);
        }
        let width = self.width;
        let height = self.height;
        let ghost view = self@;
        let mut pixels: Vec<Rgb> = Vec::new();
        let mut y: u32 = 0;
        while y < height
            invariant
                y <= height,
                view == self@,
                view.wf(),
                width == view.width,
                height == view.height,
                pixels@.len() == y * width,
                forall|i: int, j: int|
                    0 <= i < width && 0 <= j < y ==> #[trigger] pixels@[j * width + i]
                        == view.pixel(width - 1 - i, j),
            decreases height - y,
        {
            let mut x: u32 = 0;
            while x < width
                invariant
                    x <= width,
                    y < height,
                    view == self@,
                    view.wf(),
                    width == view.width,
                    height == view.height,
                    pixels@.len() == y * width + x,
                    forall|i: int, j: int|
                        0 <= i < width && 0 <= j < y ==> #[trigger] pixels@[j * width + i]
                            == view.pixel(width - 1 - i, j),
                    forall|i: int| 0 <= i < x ==> #[trigger] pixels@[y * width + i] == view.pixel(
                        width - 1 - i,
                        y as int,
                    ),
                decreases width - x,
            {
                let ghost before = pixels@;
                let color = self.get_pixel(width - 1 - x, y);
                pixels.push(color);
                proof {
                    assert forall|i: int, j: int| 0 <= i < width && 0 <= j < y implies #[trigger] pixels@[j
                        * width + i] == view.pixel(width - 1 - i, j) by {
                        lemma_pixel_position(width as nat, y as nat, i, j);
                        assert(width as nat * y as nat == y * width) by (nonlinear_arith);
                        assert(before[j * width + i] == view.pixel(width - 1 - i, j));
                    }
                    assert forall|i: int| 0 <= i < x + 1 implies #[trigger] pixels@[y * width + i]
                        == view.pixel(width - 1 - i, y as int) by {
                        if i < x {
                            assert(before[y * width + i] == view.pixel(width - 1 - i, y as int));
                        }
                    }
                }
                x = x + 1;
            }
            proof {
                assert((y + 1) * width == y * width + width) by (nonlinear_arith);
                assert forall|i: int, j: int| 0 <= i < width && 0 <= j < y + 1 implies #[trigger] pixels@[j
                    * width + i] == view.pixel(width - 1 - i, j) by {
                    if j == y {
                        assert(pixels@[y * width + i] == view.pixel(width - 1 - i, y as int));
                    }
                }
            }
            y = y + 1;
        }
        proof {
            assert(height * width == width * height) by (nonlinear_arith);
        }
        RgbImage { width, height, pixels }
    }

    /// The image turned a quarter to the right.
    pub fn rotate90(&self) -> (turned: RgbImage)
        ensures
            turned@.wf(),
            turned@.is_quarter_turn_of(self@),
    {
        let width = self.width();
        let height = self.height();
        proof {
            assert(height * width == width * height) by (nonlinear_arith);
        }
        let pick = |x: u32, y: u32| -> (color: Rgb)
            requires
                x < height,
                y < width,
            ensures
                color == self@.pixel(y as int, height - 1 - x),
            { self.get_pixel(y, height - 1 - x) };
        RgbImage::from_fn(height, width, pick)
    }

    /// The image turned upside down, a half turn.
    pub fn rotate180(&self) -> (turned: RgbImage)
        ensures
            turned@.wf(),
            turned@.is_half_turn_of(self@),
    {
        let width = self.width();
        let height = self.height();
        let pick = |x: u32, y: u32| -> (color: Rgb)
            requires
                x < width,
                y < height,
            ensures
                color == self@.pixel(width - 1 - x, height - 1 - y),
            { self.get_pixel(width - 1 - x, height - 1 - y) };
        RgbImage::from_fn(width, height, pick)
    }

    /// The image turned a quarter to the left.
    pub fn rotate270(&self) -> (turned: RgbImage)
        ensures
            turned@.wf(),
            turned@.is_back_turn_of(self@),
    {
        let width = self.width();
        let height = self.height();
        proof {
            assert(height * width == width * height) by (nonlinear_arith);
        }
        let pick = |x: u32, y: u32| -> (color: Rgb)
            requires
                x < height,
                y < width,
            ensures
                color == self@.pixel(width - 1 - y, x as int),
            { self.get_pixel(width - 1 - y, x) };
        RgbImage::from_fn(height, width, pick)
    }

    /// The image mirrored top to bottom.
    pub fn flip_vertical(&self) -> (flipped: RgbImage)
        ensures
            flipped@.wf(),
            flipped@.mirrors_down(self@),
    {
        let width = self.width();
        let height = self.height();
        let pick = |x: u32, y: u32| -> (color: Rgb)
            requires
                x < width,
                y < height,
            ensures
                color == self@.pixel(x as int, height - 1 - y),
            { self.get_pixel(x, height - 1 - y) };
        RgbImage::from_fn(width, height, pick)
    }

    /// The part of the image of `width` by `height` pixels whose top left
    /// corner is at `(left, top)`. The part must lie inside the image.
    pub fn crop(&self, left: u32, top: u32, width: u32, height: u32) -> (part: RgbImage)
        requires
            left + width <= self@.width,
            top + height <= self@.height,
        ensures
            part@.wf(),
            part@.width == width,
            part@.height == height,
            part@.is_part_of(self@, left as int, top as int),
    {
        let _ = self.width();
        proof {
            assert(width * height <= self@.width * self@.height) by (nonlinear_arith)
                requires
                    0 <= width <= self@.width,
                    0 <= height <= self@.height,
            ;
        }
        let pick = |x: u32, y: u32| -> (color: Rgb)
            requires
                x < width,
                y < height,
            ensures
                color == self@.pixel(left + x, top + y),
            { self.get_pixel(left + x, top + y) };
        RgbImage::from_fn(width, height, pick)
    }

    /// The image resampled to `width` by `height` pixels, or `None` where the
    /// image or the size asked for has no pixel or needs more bytes than can
    /// be counted. What the pixels are is up to the resampling filter.
    pub fn resize(&self, width: u32, height: u32) -> (resized: Option<RgbImage>)
        ensures
            resized is Some <==> self@.width > 0 && self@.height > 0 && width > 0 && height > 0
                && 3 * (self@.width * self@.height) <= usize::MAX && 3 * (width * height)
                <= usize::MAX,
            resized is Some ==> resized->0@.wf() && resized->0@.width == width
                && resized->0@.height == height,
    {
        let from_width = self.width();
        let from_height = self.height();
        if from_width == 0 || from_height == 0 || width == 0 || height == 0 {
            return None;
        }
        proof {
            assert(from_width * from_height <= 0xffff_ffff * 0xffff_ffff) by (nonlinear_arith)
                requires
                    0 <= from_width <= 0xffff_ffff,
                    0 <= from_height <= 0xffff_ffff,
            ;
            assert(width * height <= 0xffff_ffff * 0xffff_ffff) by (nonlinear_arith)
                requires
                    0 <= width <= 0xffff_ffff,
                    0 <= height <= 0xffff_ffff,
            ;
        }
        let from_bytes: u128 = 3 * (from_width as u128 * from_height as u128);
        let to_bytes: u128 = 3 * (width as u128 * height as u128);
        if from_bytes > usize::MAX as u128 || to_bytes > usize::MAX as u128 {
            return None;
        }
        Some(resize_lanczos3(self, width, height))
    }

    /// Lays `top` over the image with `top`'s top left corner at `(x, y)`.
    /// What of `top` falls outside the image is left out.
    pub fn replace(&mut self, top: &RgbImage, x: u32, y: u32)
        ensures
            final(self)@.wf(),
            final(self)@.overlays(old(self)@, top@, x as int, y as int),
    {
        let ghost under = self@;
        let ghost over = top@;
        let width = self.width();
        let height = self.height();
        let top_width = top.width();
        let top_height = top.height();
        if x >= width || y >= height {
            return ;
        }
        let across: u32 = if top_width < width - x {
            top_width
        } else {
            width - x
        };
        let down: u32 = if top_height < height - y {
            top_height
        } else {
            height - y
        };
        let mut dy: u32 = 0;
        while dy < down
            invariant
                dy <= down,
                over == top@,
                x < width,
                y < height,
                across <= top_width,
                across <= width - x,
                across == top_width || across == width - x,
                down <= top_height,
                down <= height - y,
                down == top_height || down == height - y,
                top_width == over.width,
                top_height == over.height,
                self@.wf(),
                self@.width == under.width == width,
                self@.height == under.height == height,
                forall|i: int, j: int|
                    under.contains(i, j) ==> #[trigger] self@.pixel(i, j) == (if x <= i < x
                        + over.width && y <= j < y + dy {
                        over.pixel(i - x, j - y)
                    } else {
                        under.pixel(i, j)
                    }),
            decreases down - dy,
        {
            let mut dx: u32 = 0;
            while dx < across
                invariant
                    dx <= across,
                    dy < down,
                    over == top@,
                    x < width,
                    y < height,
                    across <= top_width,
                    across <= width - x,
                    across == top_width || across == width - x,
                    down <= top_height,
                    down <= height - y,
                    top_width == over.width,
                    top_height == over.height,
                    self@.wf(),
                    self@.width == under.width == width,
                    self@.height == under.height == height,
                    forall|i: int, j: int|
                        under.contains(i, j) ==> #[trigger] self@.pixel(i, j) == (if (x <= i < x
                            + over.width && y <= j < y + dy) || (j == y + dy && x <= i < x + dx) {
                            over.pixel(i - x, j - y)
                        } else {
                            under.pixel(i, j)
                        }),
                decreases across - dx,
            {
                let color = top.get_pixel(dx, dy);
                self.put_pixel(x + dx, y + dy, color);
                dx = dx + 1;
            }
            dy = dy + 1;
        }
    }
}

/// `image::imageops::resize` with the Lanczos filter of window 3, on an image
/// of the `image` crate with the same pixels: an image of the size asked for.
/// Nothing is claimed of its pixels.
#[verifier::external_body]
fn resize_lanczos3(source: &RgbImage, width: u32, height: u32) -> (resized: RgbImage)
    requires
        source@.width > 0,
        source@.height > 0,
        width > 0,
        height > 0,
        3 * (source@.width * source@.height) <= usize::MAX,
        3 * (width * height) <= usize::MAX,
    ensures
        resized@.wf(),
        resized@.width == width,
        resized@.height == height,
{
    let raw: Vec<u8> = source.pixels.iter().flat_map(|pixel| pixel.0).collect();
    let from = image::RgbImage::from_raw(source.width, source.height, raw).unwrap();
    let to = image::imageops::resize(&from, width, height, image::imageops::FilterType::Lanczos3);
    RgbImage { width, height, pixels: to.pixels().map(|pixel| Rgb(pixel.0)).collect() }
}

/// The sum of channel `c` over `count` pixels of row `y`, from column `left` on.
pub open spec fn row_sum(img: ImageView, c: int, left: int, y: int, count: nat) -> int
    decreases count,
{
    if count == 0 {
        0
    } else {
        row_sum(img, c, left, y, (count - 1) as nat) + img.pixel(left + count - 1, y).channel(c)
    }
}

/// The sum of channel `c` over the rectangle of `width` by `height` pixels
/// with its top left corner at `(left, top)`.
pub open spec fn rect_sum(
    img: ImageView,
    c: int,
    left: int,
    top: int,
    width: nat,
    height: nat,
) -> int
    decreases height,
{
    if height == 0 {
        0
    } else {
        rect_sum(img, c, left, top, width, (height - 1) as nat) + row_sum(
            img,
            c,
            left,
            top + height - 1,
            width,
        )
    }
}

/// The mean of channel `c` over a rectangle, rounded down.
pub open spec fn rect_mean(
    img: ImageView,
    c: int,
    left: int,
    top: int,
    width: nat,
    height: nat,
) -> int {
    rect_sum(img, c, left, top, width, height) / (width * height) as int
}

/// The colour whose channels are the means over a rectangle.
pub open spec fn rect_average(img: ImageView, left: int, top: int, width: nat, height: nat) -> Rgb {
    Rgb::of(
        rect_mean(img, 0, left, top, width, height),
        rect_mean(img, 1, left, top, width, height),
        rect_mean(img, 2, left, top, width, height),
    )
}

/// A row sum is at most 255 for each of its pixels.
pub proof fn lemma_row_sum_bounds(img: ImageView, c: int, left: int, y: int, count: nat)
    requires
        0 <= c < 3,
    ensures
        0 <= row_sum(img, c, left, y, count) <= 255 * count,
    decreases count,
{
    if count > 0 {
        lemma_row_sum_bounds(img, c, left, y, (count - 1) as nat);
    }
}

/// A rectangle's sum is at most 255 for each of its pixels.
pub proof fn lemma_rect_sum_bounds(
    img: ImageView,
    c: int,
    left: int,
    top: int,
    width: nat,
    height: nat,
)
    requires
        0 <= c < 3,
    ensures
        0 <= rect_sum(img, c, left, top, width, height) <= 255 * (width * height),
    decreases height,
{
    if height > 0 {
        lemma_rect_sum_bounds(img, c, left, top, width, (height - 1) as nat);
        lemma_row_sum_bounds(img, c, left, top + height - 1, width);
        assert(width * height == width * (height - 1) + width) by (nonlinear_arith);
    } else {
        assert(width * height == 0) by (nonlinear_arith)
            requires
                height == 0,
        ;
    }
}

/// Over pixels of one colour a row sum is that colour's channel times the count.
pub proof fn lemma_row_sum_solid(img: ImageView, color: Rgb, c: int, left: int, y: int, count: nat)
    requires
        forall|x: int| left <= x < left + count ==> #[trigger] img.pixel(x, y) == color,
    ensures
        row_sum(img, c, left, y, count) == color.channel(c) * count,
    decreases count,
{
    if count > 0 {
        lemma_row_sum_solid(img, color, c, left, y, (count - 1) as nat);
        assert(img.pixel(left + count - 1, y) == color);
        assert(color.channel(c) * count == color.channel(c) * (count - 1) + color.channel(c))
            by (nonlinear_arith);
    } else {
        assert(color.channel(c) * count == 0) by (nonlinear_arith)
            requires
                count == 0,
        ;
    }
}

/// Over pixels of one colour a rectangle's sum is that colour's channel times
/// the number of pixels.
pub proof fn lemma_rect_sum_solid(
    img: ImageView,
    color: Rgb,
    c: int,
    left: int,
    top: int,
    width: nat,
    height: nat,
)
    requires
        forall|x: int, y: int|
            left <= x < left + width && top <= y < top + height ==> #[trigger] img.pixel(x, y)
                == color,
    ensures
        rect_sum(img, c, left, top, width, height) == color.channel(c) * (width * height),
    decreases height,
{
    if height > 0 {
        lemma_rect_sum_solid(img, color, c, left, top, width, (height - 1) as nat);
        lemma_row_sum_solid(img, color, c, left, top + height - 1, width);
        assert(color.channel(c) * (width * height) == color.channel(c) * (width * (height - 1))
            + color.channel(c) * width) by (nonlinear_arith);
    } else {
        assert(color.channel(c) * (width * height) == 0) by (nonlinear_arith)
            requires
                height == 0,
        ;
    }
}

/// The average of a rectangle of pixels that all have one colour is that colour.
pub proof fn lemma_rect_average_solid(
    img: ImageView,
    color: Rgb,
    left: int,
    top: int,
    width: nat,
    height: nat,
)
    requires
        width > 0,
        height > 0,
        forall|x: int, y: int|
            left <= x < left + width && top <= y < top + height ==> #[trigger] img.pixel(x, y)
                == color,
    ensures
        rect_average(img, left, top, width, height) == color,
{
    let n = (width * height) as int;
    assert(n > 0) by (nonlinear_arith)
        requires
            n == width * height,
            width > 0,
            height > 0,
    ;
    let avg = rect_average(img, left, top, width, height);
    assert forall|c: int| 0 <= c < 3 implies rect_mean(img, c, left, top, width, height)
        == color.channel(c) by {
        lemma_rect_sum_solid(img, color, c, left, top, width, height);
        let v = color.channel(c);
        assert((v * n) / n == v) by (nonlinear_arith)
            requires
                n > 0,
        ;
    }
    assert(avg.channel(0) == color.channel(0));
    assert(avg.channel(1) == color.channel(1));
    assert(avg.channel(2) == color.channel(2));
    lemma_rgb_by_channels(avg, color);
}

/// The average colour of the rectangle `(left, top, width, height)` of `img`:
/// each channel is the mean of that channel over the rectangle's pixels,
/// rounded down. The rectangle must hold a pixel and lie inside the image.
pub fn average_color(img: &RgbImage, rect: (u32, u32, u32, u32)) -> (color: Rgb)
    requires
        rect.2 > 0,
        rect.3 > 0,
        rect.0 + rect.2 <= img@.width,
        rect.1 + rect.3 <= img@.height,
    ensures
        color == rect_average(img@, rect.0 as int, rect.1 as int, rect.2 as nat, rect.3 as nat),
{
    let (left, top, width, height) = rect;
    let ghost view = img@;
    let _ = img.width();
    let mut r_sum: u128 = 0;
    let mut g_sum: u128 = 0;
    let mut b_sum: u128 = 0;
    let mut dy: u32 = 0;
    while dy < height
        invariant
            dy <= height,
            view == img@,
            left + width <= view.width,
            top + height <= view.height,
            view.width <= u32::MAX,
            view.height <= u32::MAX,
            r_sum == rect_sum(view, 0, left as int, top as int, width as nat, dy as nat),
            g_sum == rect_sum(view, 1, left as int, top as int, width as nat, dy as nat),
            b_sum == rect_sum(view, 2, left as int, top as int, width as nat, dy as nat),
        decreases height - dy,
    {
        let y: u32 = top + dy;
        let mut r_row: u64 = 0;
        let mut g_row: u64 = 0;
        let mut b_row: u64 = 0;
        let mut dx: u32 = 0;
        while dx < width
            invariant
                dx <= width,
                view == img@,
                left + width <= view.width,
                y < view.height,
                view.width <= u32::MAX,
                r_row == row_sum(view, 0, left as int, y as int, dx as nat),
                g_row == row_sum(view, 1, left as int, y as int, dx as nat),
                b_row == row_sum(view, 2, left as int, y as int, dx as nat),
            decreases width - dx,
        {
            proof {
                lemma_row_sum_bounds(view, 0, left as int, y as int, dx as nat);
                lemma_row_sum_bounds(view, 1, left as int, y as int, dx as nat);
                lemma_row_sum_bounds(view, 2, left as int, y as int, dx as nat);
            }
            let pixel = img.get_pixel(left + dx, y);
            r_row = r_row + pixel.0[0] as u64;
            g_row = g_row + pixel.0[1] as u64;
            b_row = b_row + pixel.0[2] as u64;
            dx = dx + 1;
        }
        proof {
            lemma_rect_sum_bounds(view, 0, left as int, top as int, width as nat, dy as nat);
            lemma_rect_sum_bounds(view, 1, left as int, top as int, width as nat, dy as nat);
            lemma_rect_sum_bounds(view, 2, left as int, top as int, width as nat, dy as nat);
            lemma_row_sum_bounds(view, 0, left as int, y as int, width as nat);
            lemma_row_sum_bounds(view, 1, left as int, y as int, width as nat);
            lemma_row_sum_bounds(view, 2, left as int, y as int, width as nat);
            assert(width as nat * dy as nat <= 0x1_0000_0000 * 0x1_0000_0000) by (nonlinear_arith)
                requires
                    width <= u32::MAX,
                    dy <= u32::MAX,
            ;
        }
        r_sum = r_sum + r_row as u128;
        g_sum = g_sum + g_row as u128;
        b_sum = b_sum + b_row as u128;
        dy = dy + 1;
    }
    assert(width * height <= 0xffff_ffff * 0xffff_ffff) by (nonlinear_arith)
        requires
            width <= 0xffff_ffff,
            height <= 0xffff_ffff,
    ;
    let pixel_count: u128 = width as u128 * height as u128;
    proof {
        assert(pixel_count == width as nat * height as nat && pixel_count > 0)
            by (nonlinear_arith)
            requires
                pixel_count == (width as u128 * height as u128) as u128,
                0 < width <= u32::MAX,
                0 < height <= u32::MAX,
        ;
        lemma_rect_sum_bounds(view, 0, left as int, top as int, width as nat, height as nat);
        lemma_rect_sum_bounds(view, 1, left as int, top as int, width as nat, height as nat);
        lemma_rect_sum_bounds(view, 2, left as int, top as int, width as nat, height as nat);
        let n = pixel_count as int;
        assert forall|s: int| 0 <= s <= 255 * n implies 0 <= #[trigger] (s / n) <= 255 by {
            assert(0 <= s / n <= 255) by (nonlinear_arith)
                requires
                    0 <= s <= 255 * n,
                    n > 0,
            ;
        }
    }
    let r: u8 = (r_sum / pixel_count) as u8;
    let g: u8 = (g_sum / pixel_count) as u8;
    let b: u8 = (b_sum / pixel_count) as u8;
    let color = Rgb([r, g, b]);
    proof {
        let want = rect_average(
            img@,
            left as int,
            top as int,
            width as nat,
            height as nat,
        );
        assert(color.0@ =~= want.0@);
        assert(color.0 =~= want.0);
    }
    color
}

} // verus!
