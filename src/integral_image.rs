use vstd::prelude::*;
use crate::geometry::Window;

verus! {

/// Largest pixel count of an image: the sum of the pixels of four such
/// images still fits an `i64`, so feature values never overflow.
pub const MAX_PIXELS: u64 = 0x20_2020_2020_2020;

/// Flat position of pixel `(x, y)` in a row-major buffer of row length `w`.
pub open spec fn cell(w: int, x: int, y: int) -> int {
    x + w * y
}

/// Sum of the pixels of row `y` in columns `x0 .. x1`.
pub open spec fn row_sum(px: Seq<u8>, w: int, y: int, x0: int, x1: int) -> int
    decreases x1 - x0,
{
    if x1 <= x0 {
        0
    } else {
        row_sum(px, w, y, x0, x1 - 1) + px[cell(w, x1 - 1, y)] as int
    }
}

/// Brute-force sum of the pixels in columns `x0 .. x1` and rows `y0 .. y1`.
pub open spec fn region_sum(px: Seq<u8>, w: int, x0: int, x1: int, y0: int, y1: int) -> int
    decreases y1 - y0,
{
    if y1 <= y0 {
        0
    } else {
        region_sum(px, w, x0, x1, y0, y1 - 1) + row_sum(px, w, y1 - 1, x0, x1)
    }
}

/// The summed-area value at `(x, y)`: the sum over `[0, x] x [0, y]`.
pub open spec fn prefix_sum(px: Seq<u8>, w: int, x: int, y: int) -> int {
    region_sum(px, w, 0, x + 1, 0, y + 1)
}

proof fn lemma_row_split(px: Seq<u8>, w: int, y: int, x0: int, x1: int, x2: int)
    requires
        x0 <= x1 <= x2,
    ensures
        row_sum(px, w, y, x0, x2) == row_sum(px, w, y, x0, x1) + row_sum(px, w, y, x1, x2),
    decreases x2 - x1,
{
    if x2 > x1 {
        lemma_row_split(px, w, y, x0, x1, x2 - 1);
    }
}

proof fn lemma_region_split_x(px: Seq<u8>, w: int, x0: int, x1: int, x2: int, y0: int, y1: int)
    requires
        x0 <= x1 <= x2,
    ensures
        region_sum(px, w, x0, x2, y0, y1) == region_sum(px, w, x0, x1, y0, y1) + region_sum(
            px,
            w,
            x1,
            x2,
            y0,
            y1,
        ),
    decreases y1 - y0,
{
    if y1 > y0 {
        lemma_region_split_x(px, w, x0, x1, x2, y0, y1 - 1);
        lemma_row_split(px, w, y1 - 1, x0, x1, x2);
    }
}

proof fn lemma_region_split_y(px: Seq<u8>, w: int, x0: int, x1: int, y0: int, y1: int, y2: int)
    requires
        y0 <= y1 <= y2,
    ensures
        region_sum(px, w, x0, x1, y0, y2) == region_sum(px, w, x0, x1, y0, y1) + region_sum(
            px,
            w,
            x0,
            x1,
            y1,
            y2,
        ),
    decreases y2 - y1,
{
    if y2 > y1 {
        lemma_region_split_y(px, w, x0, x1, y0, y1, y2 - 1);
    }
}

proof fn lemma_region_empty_x(px: Seq<u8>, w: int, x: int, y0: int, y1: int)
    ensures
        region_sum(px, w, x, x, y0, y1) == 0,
    decreases y1 - y0,
{
    if y1 > y0 {
        lemma_region_empty_x(px, w, x, y0, y1 - 1);
    }
}

proof fn lemma_row_bounds(px: Seq<u8>, w: int, y: int, x0: int, x1: int)
    requires
        x0 <= x1,
    ensures
        0 <= row_sum(px, w, y, x0, x1) <= 255 * (x1 - x0),
    decreases x1 - x0,
{
    if x1 > x0 {
        lemma_row_bounds(px, w, y, x0, x1 - 1);
        let v = px[cell(w, x1 - 1, y)];
        assert(v as int <= 255);
    }
}

/// Every region sum lies between zero and 255 per pixel.
pub proof fn lemma_region_bounds(px: Seq<u8>, w: int, x0: int, x1: int, y0: int, y1: int)
    requires
        x0 <= x1,
        y0 <= y1,
    ensures
        0 <= region_sum(px, w, x0, x1, y0, y1) <= 255 * (x1 - x0) * (y1 - y0),
    decreases y1 - y0,
{
    if y1 > y0 {
        lemma_region_bounds(px, w, x0, x1, y0, y1 - 1);
        lemma_row_bounds(px, w, y1 - 1, x0, x1);
        assert(255 * (x1 - x0) * (y1 - 1 - y0) + 255 * (x1 - x0) == 255 * (x1 - x0) * (y1 - y0))
            by (nonlinear_arith);
    }
}

/// Every summed-area value of a `w` by `h` image lies between zero and 255
/// per pixel of the image.
pub proof fn lemma_prefix_bounds(px: Seq<u8>, w: int, h: int, x: int, y: int)
    requires
        0 <= x < w,
        0 <= y < h,
    ensures
        0 <= prefix_sum(px, w, x, y) <= 255 * (w * h),
{
    lemma_region_bounds(px, w, 0, x + 1, 0, y + 1);
    assert(255 * (x + 1 - 0) * (y + 1 - 0) <= 255 * (w * h)) by (nonlinear_arith)
        requires
            0 <= x < w,
            0 <= y < h,
    ;
}

/// The four-corner formula: the sums over `[0, x) x [0, y)` at the corners
/// of a box give the sum over the box `[x0, x1) x [y0, y1)`.
pub proof fn lemma_four_corners(px: Seq<u8>, w: int, x0: int, y0: int, x1: int, y1: int)
    requires
        0 <= x0 <= x1,
        0 <= y0 <= y1,
    ensures
        region_sum(px, w, 0, x1, 0, y1) - region_sum(px, w, 0, x1, 0, y0) - region_sum(px, w, 0, x0, 0, y1)
            + region_sum(px, w, 0, x0, 0, y0) == region_sum(px, w, x0, x1, y0, y1),
{
    lemma_region_split_y(px, w, 0, x1, 0, y0, y1);
    lemma_region_split_y(px, w, 0, x0, 0, y0, y1);
    lemma_region_split_x(px, w, 0, x0, x1, y0, y1);
}

/// The single-sweep recurrence of the summed-area table.
proof fn lemma_prefix_step(px: Seq<u8>, w: int, x: int, y: int)
    requires
        x >= 0,
        y >= 0,
    ensures
        prefix_sum(px, w, x, y) == px[cell(w, x, y)] as int + (if x > 0 {
            prefix_sum(px, w, x - 1, y)
        } else {
            0
        }) + (if y > 0 {
            prefix_sum(px, w, x, y - 1)
        } else {
            0
        }) - (if x > 0 && y > 0 {
            prefix_sum(px, w, x - 1, y - 1)
        } else {
            0
        }),
{
    assert(region_sum(px, w, 0, x + 1, 0, y + 1) == region_sum(px, w, 0, x + 1, 0, y) + row_sum(
        px,
        w,
        y,
        0,
        x + 1,
    ));
    assert(row_sum(px, w, y, 0, x + 1) == row_sum(px, w, y, 0, x) + px[cell(w, x, y)] as int);
    assert(region_sum(px, w, 0, x, 0, y + 1) == region_sum(px, w, 0, x, 0, y) + row_sum(
        px,
        w,
        y,
        0,
        x,
    ));
    if x == 0 {
        lemma_region_empty_x(px, w, 0, 0, y);
    }
}

/// A capability shared by full integral images and windowed views of them:
/// the sum of the source pixels over a window rectangle.
pub trait IntegralImageTrait {
    /// Whether `rect_sum` may be asked about `r`.
    spec fn admits(&self, r: Window) -> bool;

    /// What `rect_sum` returns for `r`.
    spec fn spec_rect_sum(&self, r: Window) -> int;

    /// Gets the sum of pixels within a rectangular region of the image.
    fn rect_sum(&self, r: &Window) -> (s: i64)
        requires
            self.admits(*r),
        ensures
            s as int == self.spec_rect_sum(*r),
            0 <= s <= 255 * (MAX_PIXELS as int),
    ;

    /// Width of the underlying image.
    spec fn spec_image_width(&self) -> int;

    /// Height of the underlying image.
    spec fn spec_image_height(&self) -> int;

    fn width(&self) -> (r: usize)
        ensures
            r == self.spec_image_width(),
    ;

    fn height(&self) -> (r: usize)
        ensures
            r == self.spec_image_height(),
    ;
}

/// A summed-area table: entry `x + width * y` holds the sum of the source
/// pixels in `[0, x] x [0, y]`.
pub struct IntegralImage {
    pixels: Vec<u64>,
    width: usize,
    height: usize,
    source: Ghost<Seq<u8>>,
}

impl IntegralImage {
    #[verifier::type_invariant]
    spec fn inv(&self) -> bool {
        self.wf()
    }

    /// The grayscale pixels the table was built from.
    pub closed spec fn src(&self) -> Seq<u8> {
        self.source@
    }

    pub closed spec fn spec_width(&self) -> int {
        self.width as int
    }

    pub closed spec fn spec_height(&self) -> int {
        self.height as int
    }

    pub closed spec fn wf(&self) -> bool {
        &&& self.width * self.height <= MAX_PIXELS as int
        &&& self.width * self.height <= usize::MAX
        &&& self.source@.len() == self.width * self.height
        &&& self.pixels@.len() == self.width * self.height
        &&& forall|x: int, y: int|
            0 <= x < self.width && 0 <= y < self.height ==> self.pixels@[cell(
                self.width as int,
                x,
                y,
            )] == #[trigger] prefix_sum(self.source@, self.width as int, x, y)
    }

    /// Builds the summed-area table of a `width` by `height` grayscale image
    /// stored row by row.
    pub fn from_pixels(px: &Vec<u8>, width: usize, height: usize) -> (r: IntegralImage)
        requires
            px@.len() == width * height,
            width * height <= MAX_PIXELS as int,
        ensures
            r.wf(),
            r.src() == px@,
            r.spec_width() == width,
            r.spec_height() == height,
    {
        let ghost w = width as int;
        let n = px.len();
        assert(width * height <= usize::MAX);
        let mut pixels: Vec<u64> = Vec::new();
        let mut y: usize = 0;
        while y < height
            invariant
                y <= height,
                w == width,
                px@.len() == width * height,
                width * height <= MAX_PIXELS as int,
                width * height <= usize::MAX,
                pixels@.len() == width * y,
                forall|xx: int, yy: int|
                    0 <= xx < width && 0 <= yy < y ==> pixels@[cell(w, xx, yy)]
                        == #[trigger] prefix_sum(px@, w, xx, yy),
            decreases height - y,
        {
            let mut x: usize = 0;
            while x < width
                invariant
                    y < height,
                    x <= width,
                    w == width,
                    px@.len() == width * height,
                    width * height <= MAX_PIXELS as int,
                    width * height <= usize::MAX,
                    pixels@.len() == width * y + x,
                    forall|xx: int, yy: int|
                        0 <= xx < width && 0 <= yy < y ==> pixels@[cell(w, xx, yy)]
                            == #[trigger] prefix_sum(px@, w, xx, yy),
                    forall|xx: int|
                        0 <= xx < x ==> pixels@[cell(w, xx, y as int)]
                            == #[trigger] prefix_sum(px@, w, xx, y as int),
                decreases width - x,
            {
                proof {
                    assert(width * y + x < width * height) by (nonlinear_arith)
                        requires
                            x < width,
                            y < height,
                    ;
                    assert(width * (y + 1) <= width * height) by (nonlinear_arith)
                        requires
                            y < height,
                    ;
                    lemma_prefix_step(px@, w, x as int, y as int);
                    lemma_prefix_bounds(px@, w, height as int, x as int, y as int);
                    if x > 0 {
                        lemma_prefix_bounds(px@, w, height as int, x - 1, y as int);
                    }
                    if y > 0 {
                        lemma_prefix_bounds(px@, w, height as int, x as int, y - 1);
                        assert(x + width * (y - 1) < width * y) by (nonlinear_arith)
                            requires
                                x < width,
                                y > 0,
                        ;
                    }
                    if x > 0 && y > 0 {
                        lemma_prefix_bounds(px@, w, height as int, x - 1, y - 1);
                    }
                }
                let idx = x + width * y;
                let mut pixel: u64 = px[idx] as u64;
                if y != 0 {
                    pixel = pixel + pixels[x + width * (y - 1)];
                }
                if x != 0 {
                    pixel = pixel + pixels[(x - 1) + width * y];
                }
                if x != 0 && y != 0 {
                    pixel = pixel - pixels[(x - 1) + width * (y - 1)];
                }
                let ghost before = pixels@;
                pixels.push(pixel);
                proof {
                    assert forall|xx: int, yy: int|
                        0 <= xx < width && 0 <= yy < y implies pixels@[cell(w, xx, yy)]
                        == before[cell(w, xx, yy)] by {
                        assert(xx + w * yy < w * y) by (nonlinear_arith)
                            requires
                                0 <= xx < w,
                                0 <= yy < y,
                        ;
                    }
                }
                x = x + 1;
            }
            proof {
                assert(width * y + width == width * (y + 1)) by (nonlinear_arith);
            }
            y = y + 1;
        }
        IntegralImage { pixels, width, height, source: Ghost(px@) }
    }

    /// The image's width and height; their product is at most `MAX_PIXELS`.
    pub fn dims(&self) -> (r: (usize, usize))
        ensures
            r.0 == self.spec_width(),
            r.1 == self.spec_height(),
            r.0 * r.1 <= MAX_PIXELS as int,
    {
        proof {
            use_type_invariant(self);
        }
        (self.width, self.height)
    }

    /// The summed-area value at `(x, y)`.
    fn at(&self, x: usize, y: usize) -> (v: u64)
        requires
            self.wf(),
            x < self.width,
            y < self.height,
        ensures
            v as int == prefix_sum(self.src(), self.width as int, x as int, y as int),
            v as int <= 255 * (MAX_PIXELS as int),
    {
        proof {
            assert(x + self.width * y < self.width * self.height) by (nonlinear_arith)
                requires
                    x < self.width,
                    y < self.height,
            ;
            lemma_prefix_bounds(self.source@, self.width as int, self.height as int, x as int, y as int);
        }
        self.pixels[x + self.width * y]
    }

    /// The sum over `[0, x) x [0, y)`, read off the table.
    fn prefix(&self, x: usize, y: usize) -> (v: u64)
        requires
            self.wf(),
            x <= self.width,
            y <= self.height,
        ensures
            v as int == region_sum(self.src(), self.width as int, 0, x as int, 0, y as int),
            v as int <= 255 * (MAX_PIXELS as int),
    {
        if x == 0 || y == 0 {
            proof {
                lemma_region_empty_x(self.source@, self.width as int, 0, 0, y as int);
            }
            0
        } else {
            self.at(x - 1, y - 1)
        }
    }

    /// The sum over the box `[x0, x1) x [y0, y1)` by the four-corner formula.
    fn corner_sum(&self, x0: usize, y0: usize, x1: usize, y1: usize) -> (s: u64)
        requires
            self.wf(),
            x0 <= x1 <= self.width,
            y0 <= y1 <= self.height,
        ensures
            s as int == region_sum(self.src(), self.width as int, x0 as int, x1 as int, y0 as int, y1 as int),
            s as int <= 255 * (MAX_PIXELS as int),
    {
        proof {
            assert(255 * (x1 - x0) * (y1 - y0) <= 255 * (self.width * self.height))
                by (nonlinear_arith)
                requires
                    x1 - x0 <= self.width,
                    y1 - y0 <= self.height,
                    x1 >= x0,
                    y1 >= y0,
            ;
            lemma_four_corners(self.source@, self.width as int, x0 as int, y0 as int, x1 as int, y1 as int);
            lemma_region_bounds(self.source@, self.width as int, x0 as int, x1 as int, y0 as int, y1 as int);
        }
        let br = self.prefix(x1, y1);
        let tr = self.prefix(x1, y0);
        let bl = self.prefix(x0, y1);
        let tl = self.prefix(x0, y0);
        br + tl - tr - bl
    }
}

impl IntegralImageTrait for IntegralImage {
    open spec fn admits(&self, r: Window) -> bool {
        r.fits(self.spec_width(), self.spec_height())
    }

    open spec fn spec_image_width(&self) -> int {
        self.spec_width()
    }

    open spec fn spec_image_height(&self) -> int {
        self.spec_height()
    }

    open spec fn spec_rect_sum(&self, r: Window) -> int {
        region_sum(self.src(), self.spec_width(), r.x0(), r.x1(), r.y0(), r.y1())
    }

    fn rect_sum(&self, r: &Window) -> (s: i64) {
        proof {
            use_type_invariant(self);
        }
        let s = self.corner_sum(
            r.top_left[0] as usize,
            r.top_left[1] as usize,
            r.bot_right[0] as usize,
            r.bot_right[1] as usize,
        );
        s as i64
    }

    fn width(&self) -> usize {
        self.width
    }

    fn height(&self) -> usize {
        self.height
    }
}

/// A view of an integral image through a detection window whose top-left
/// corner sits at `(x_offset, y_offset)` and whose scale is
/// `scale_num / scale_den`: rectangle corners are shifted by the offset and
/// sums are divided by the square of the scale.
pub struct WindowedIntegralImage<'a> {
    pub ii: &'a IntegralImage,
    pub x_offset: usize,
    pub y_offset: usize,
    pub scale_num: u64,
    pub scale_den: u64,
}

impl<'a> IntegralImageTrait for WindowedIntegralImage<'a> {
    open spec fn admits(&self, r: Window) -> bool {
        &&& 1 <= self.scale_den <= self.scale_num
        &&& self.scale_den <= 0xFFFF
        &&& r.x0() < r.x1()
        &&& r.y0() < r.y1()
        &&& self.x_offset + r.x1() <= self.ii.spec_width()
        &&& self.y_offset + r.y1() <= self.ii.spec_height()
    }

    open spec fn spec_image_width(&self) -> int {
        self.ii.spec_width()
    }

    open spec fn spec_image_height(&self) -> int {
        self.ii.spec_height()
    }

    open spec fn spec_rect_sum(&self, r: Window) -> int {
        region_sum(
            self.ii.src(),
            self.ii.spec_width(),
            self.x_offset + r.x0(),
            self.x_offset + r.x1(),
            self.y_offset + r.y0(),
            self.y_offset + r.y1(),
        ) * (self.scale_den * self.scale_den) / (self.scale_num * self.scale_num)
    }

    fn rect_sum(&self, r: &Window) -> (s: i64) {
        proof {
            use_type_invariant(self.ii);
        }
        let xt = r.top_left[0] as usize + self.x_offset;
        let yt = r.top_left[1] as usize + self.y_offset;
        let xb = r.bot_right[0] as usize + self.x_offset;
        let yb = r.bot_right[1] as usize + self.y_offset;
        let sum = self.ii.corner_sum(xt, yt, xb, yb);
        let d = self.scale_den as u128;
        let n = self.scale_num as u128;
        proof {
            assert(d * d <= 0xFFFF * 0xFFFF) by (nonlinear_arith)
                requires
                    d <= 0xFFFF,
            ;
            assert((sum as int) * (d * d) <= (sum as int) * (n * n)) by (nonlinear_arith)
                requires
                    1 <= d <= n,
                    sum >= 0,
            ;
            assert((sum as int) * (d * d) <= 0x7fff_ffff_ffff_ffff * (0xFFFF * 0xFFFF)) by (nonlinear_arith)
                requires
                    sum <= 0x7fff_ffff_ffff_ffff,
                    d * d <= 0xFFFF * 0xFFFF,
            ;
            assert(n * n > 0) by (nonlinear_arith)
                requires
                    n >= 1,
            ;
            assert(n * n <= 0xffff_ffff_ffff_ffff * 0xffff_ffff_ffff_ffff) by (nonlinear_arith)
                requires
                    n <= 0xffff_ffff_ffff_ffff,
            ;
            vstd::arithmetic::div_mod::lemma_div_is_ordered((sum as int) * (d * d), (sum as int) * (n * n), n * n);
            vstd::arithmetic::div_mod::lemma_div_multiples_vanish(sum as int, n * n);
            assert((sum as int) * (n * n) == (n * n) * (sum as int)) by (nonlinear_arith);
        }
        let q = (sum as u128) * (d * d) / (n * n);
        q as i64
    }

    fn width(&self) -> usize {
        self.ii.width
    }

    fn height(&self) -> usize {
        self.ii.height
    }
}

} // verus!
