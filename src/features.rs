use vstd::prelude::*;
use crate::geometry::{rect, Feature, Rectangle, Window};
use crate::integral_image::{
    cell, region_sum, IntegralImage, IntegralImageTrait, WindowedIntegralImage,
};

verus! {

/// `seq![f]` when `c` holds, else the empty sequence.
pub open spec fn when(c: bool, f: Feature) -> Seq<Feature> {
    if c {
        seq![f]
    } else {
        seq![]
    }
}

/// The features whose rectangles are `w` by `h` with the first at `(i, j)`,
/// in the order horizontal two-rectangle, vertical two-rectangle,
/// horizontal three-rectangle, vertical three-rectangle, four-rectangle;
/// each one only when it fits a `wl` by `wh` window.
pub open spec fn cell_features(wl: int, wh: int, w: int, h: int, i: int, j: int) -> Seq<Feature> {
    when(
        i + 2 * w <= wl,
        Feature { white: (rect(i, j, w, h), None), black: (rect(i + w, j, w, h), None) },
    ) + when(
        j + 2 * h <= wh,
        Feature { white: (rect(i, j, w, h), None), black: (rect(i, j + h, w, h), None) },
    ) + when(
        i + 3 * w <= wl,
        Feature {
            white: (rect(i, j, w, h), Some(rect(i + 2 * w, j, w, h))),
            black: (rect(i + w, j, w, h), None),
        },
    ) + when(
        j + 3 * h <= wh,
        Feature {
            white: (rect(i, j, w, h), Some(rect(i, j + 2 * h, w, h))),
            black: (rect(i, j + h, w, h), None),
        },
    ) + when(
        i + 2 * w <= wl && j + 2 * h <= wh,
        Feature {
            white: (rect(i, j, w, h), Some(rect(i + w, j + h, w, h))),
            black: (rect(i + w, j, w, h), Some(rect(i, j + h, w, h))),
        },
    )
}

/// Features of size `w` by `h` in column `i`, rows `0 .. j`.
pub open spec fn column_features(wl: int, wh: int, w: int, h: int, i: int, j: int) -> Seq<Feature>
    decreases j,
{
    if j <= 0 {
        seq![]
    } else {
        column_features(wl, wh, w, h, i, j - 1) + cell_features(wl, wh, w, h, i, j - 1)
    }
}

/// Features of size `w` by `h` with first rectangle in columns `0 .. i`.
pub open spec fn size_features(wl: int, wh: int, w: int, h: int, i: int) -> Seq<Feature>
    decreases i,
{
    if i <= 0 {
        seq![]
    } else {
        size_features(wl, wh, w, h, i - 1) + column_features(wl, wh, w, h, i - 1, wh - h + 1)
    }
}

/// Features of width `w` and heights `1 ..= h`.
pub open spec fn width_features(wl: int, wh: int, w: int, h: int) -> Seq<Feature>
    decreases h,
{
    if h <= 0 {
        seq![]
    } else {
        width_features(wl, wh, w, h - 1) + size_features(wl, wh, w, h, wl - w + 1)
    }
}

/// Features of widths `1 ..= w`.
pub open spec fn features_upto(wl: int, wh: int, w: int) -> Seq<Feature>
    decreases w,
{
    if w <= 0 {
        seq![]
    } else {
        features_upto(wl, wh, w - 1) + width_features(wl, wh, w, wh)
    }
}

/// The whole feature space of a `wl` by `wh` window, in enumeration order.
pub open spec fn all_features(wl: int, wh: int) -> Seq<Feature> {
    features_upto(wl, wh, wl)
}

proof fn lemma_contains_left<A>(a: Seq<A>, b: Seq<A>, x: A)
    requires
        a.contains(x),
    ensures
        (a + b).contains(x),
{
    let k = choose|k: int| 0 <= k < a.len() && a[k] == x;
    assert((a + b)[k] == x);
}

proof fn lemma_contains_right<A>(a: Seq<A>, b: Seq<A>, x: A)
    requires
        b.contains(x),
    ensures
        (a + b).contains(x),
{
    let k = choose|k: int| 0 <= k < b.len() && b[k] == x;
    assert((a + b)[a.len() + k] == x);
}

proof fn lemma_cell_in_column(wl: int, wh: int, w: int, h: int, i: int, j: int, jj: int, x: Feature)
    requires
        0 <= jj < j,
        cell_features(wl, wh, w, h, i, jj).contains(x),
    ensures
        column_features(wl, wh, w, h, i, j).contains(x),
    decreases j,
{
    if jj == j - 1 {
        lemma_contains_right(column_features(wl, wh, w, h, i, j - 1), cell_features(wl, wh, w, h, i, j - 1), x);
    } else {
        lemma_cell_in_column(wl, wh, w, h, i, j - 1, jj, x);
        lemma_contains_left(column_features(wl, wh, w, h, i, j - 1), cell_features(wl, wh, w, h, i, j - 1), x);
    }
}

proof fn lemma_column_in_size(wl: int, wh: int, w: int, h: int, i: int, ii: int, x: Feature)
    requires
        0 <= ii < i,
        column_features(wl, wh, w, h, ii, wh - h + 1).contains(x),
    ensures
        size_features(wl, wh, w, h, i).contains(x),
    decreases i,
{
    if ii == i - 1 {
        lemma_contains_right(size_features(wl, wh, w, h, i - 1), column_features(wl, wh, w, h, i - 1, wh - h + 1), x);
    } else {
        lemma_column_in_size(wl, wh, w, h, i - 1, ii, x);
        lemma_contains_left(size_features(wl, wh, w, h, i - 1), column_features(wl, wh, w, h, i - 1, wh - h + 1), x);
    }
}

proof fn lemma_size_in_width(wl: int, wh: int, w: int, h: int, hh: int, x: Feature)
    requires
        1 <= hh <= h,
        size_features(wl, wh, w, hh, wl - w + 1).contains(x),
    ensures
        width_features(wl, wh, w, h).contains(x),
    decreases h,
{
    if hh == h {
        lemma_contains_right(width_features(wl, wh, w, h - 1), size_features(wl, wh, w, h, wl - w + 1), x);
    } else {
        lemma_size_in_width(wl, wh, w, h - 1, hh, x);
        lemma_contains_left(width_features(wl, wh, w, h - 1), size_features(wl, wh, w, h, wl - w + 1), x);
    }
}

proof fn lemma_width_in_upto(wl: int, wh: int, w: int, ww: int, x: Feature)
    requires
        1 <= ww <= w,
        width_features(wl, wh, ww, wh).contains(x),
    ensures
        features_upto(wl, wh, w).contains(x),
    decreases w,
{
    if ww == w {
        lemma_contains_right(features_upto(wl, wh, w - 1), width_features(wl, wh, w, wh), x);
    } else {
        lemma_width_in_upto(wl, wh, w - 1, ww, x);
        lemma_contains_left(features_upto(wl, wh, w - 1), width_features(wl, wh, w, wh), x);
    }
}

/// Every pattern whose rectangles fit the window is enumerated: each
/// feature of the five kinds placed at `(i, j)` with rectangles of `w` by
/// `h` pixels is in the feature space.
pub proof fn lemma_fitting_patterns_enumerated(wl: int, wh: int, w: int, h: int, i: int, j: int, x: Feature)
    requires
        1 <= w,
        1 <= h,
        0 <= i,
        i + w <= wl,
        0 <= j,
        j + h <= wh,
        cell_features(wl, wh, w, h, i, j).contains(x),
    ensures
        all_features(wl, wh).contains(x),
{
    lemma_cell_in_column(wl, wh, w, h, i, wh - h + 1, j, x);
    lemma_column_in_size(wl, wh, w, h, wl - w + 1, i, x);
    lemma_size_in_width(wl, wh, w, wh, h, x);
    lemma_width_in_upto(wl, wh, wl, w, x);
}

impl Feature {
    /// Whether every rectangle of the feature can be summed over `ii`.
    pub open spec fn admitted_by<I: IntegralImageTrait>(self, ii: &I) -> bool {
        &&& ii.admits(self.black.0)
        &&& ii.admits(self.white.0)
        &&& (self.black.1 matches Some(r) ==> ii.admits(r))
        &&& (self.white.1 matches Some(r) ==> ii.admits(r))
    }

    /// The feature's value over `ii`: black sums minus white sums.
    pub open spec fn value<I: IntegralImageTrait>(self, ii: &I) -> int {
        ii.spec_rect_sum(self.black.0) + (match self.black.1 {
            Some(r) => ii.spec_rect_sum(r),
            None => 0,
        }) - ii.spec_rect_sum(self.white.0) - (match self.white.1 {
            Some(r) => ii.spec_rect_sum(r),
            None => 0,
        })
    }

    /// Evaluates the feature over an integral image or a window of one.
    pub fn evaluate<I: IntegralImageTrait>(&self, ii: &I) -> (v: i64)
        requires
            self.admitted_by(ii),
        ensures
            v as int == self.value(ii),
    {
        let b0 = ii.rect_sum(&self.black.0);
        let b1 = match &self.black.1 {
            Some(r) => ii.rect_sum(r),
            None => 0,
        };
        let w0 = ii.rect_sum(&self.white.0);
        let w1 = match &self.white.1 {
            Some(r) => ii.rect_sum(r),
            None => 0,
        };
        b0 + b1 - w0 - w1
    }
}

proof fn lemma_row_shift(
    sub: Seq<u8>,
    w: int,
    big: Seq<u8>,
    bw: int,
    dx: int,
    dy: int,
    y: int,
    x0: int,
    x1: int,
)
    requires
        forall|x: int| x0 <= x < x1 ==> sub[cell(w, x, y)] == big[cell(bw, x + dx, y + dy)],
    ensures
        crate::integral_image::row_sum(sub, w, y, x0, x1) == crate::integral_image::row_sum(
            big,
            bw,
            y + dy,
            x0 + dx,
            x1 + dx,
        ),
    decreases x1 - x0,
{
    if x1 > x0 {
        lemma_row_shift(sub, w, big, bw, dx, dy, y, x0, x1 - 1);
        assert(sub[cell(w, x1 - 1, y)] == big[cell(bw, x1 - 1 + dx, y + dy)]);
    }
}

/// Summing a region of a sub-image equals summing the shifted region of the
/// image it was cut from.
pub proof fn lemma_region_shift(
    sub: Seq<u8>,
    w: int,
    big: Seq<u8>,
    bw: int,
    dx: int,
    dy: int,
    x0: int,
    x1: int,
    y0: int,
    y1: int,
)
    requires
        forall|x: int, y: int|
            x0 <= x < x1 && y0 <= y < y1 ==> sub[cell(w, x, y)] == big[cell(bw, x + dx, y + dy)],
    ensures
        region_sum(sub, w, x0, x1, y0, y1) == region_sum(big, bw, x0 + dx, x1 + dx, y0 + dy, y1 + dy),
    decreases y1 - y0,
{
    if y1 > y0 {
        lemma_region_shift(sub, w, big, bw, dx, dy, x0, x1, y0, y1 - 1);
        lemma_row_shift(sub, w, big, bw, dx, dy, y1 - 1, x0, x1);
    }
}

proof fn lemma_rect_shift(
    sub: &IntegralImage,
    big: &IntegralImage,
    dx: usize,
    dy: usize,
    d: u64,
    r: Window,
)
    requires
        d >= 1,
        sub.admits(r),
        forall|x: int, y: int|
            0 <= x < sub.spec_width() && 0 <= y < sub.spec_height() ==> sub.src()[cell(
                sub.spec_width(),
                x,
                y,
            )] == big.src()[cell(big.spec_width(), x + dx, y + dy)],
    ensures
        (WindowedIntegralImage { ii: big, x_offset: dx, y_offset: dy, scale_num: d, scale_den: d }).spec_rect_sum(r)
            == sub.spec_rect_sum(r),
{
    lemma_region_shift(
        sub.src(),
        sub.spec_width(),
        big.src(),
        big.spec_width(),
        dx as int,
        dy as int,
        r.x0(),
        r.x1(),
        r.y0(),
        r.y1(),
    );
    let v = region_sum(
        big.src(),
        big.spec_width(),
        dx + r.x0(),
        dx + r.x1(),
        dy + r.y0(),
        dy + r.y1(),
    );
    let dd = (d as int) * (d as int);
    assert(dd > 0) by (nonlinear_arith)
        requires
            d >= 1,
            dd == (d as int) * (d as int),
    ;
    vstd::arithmetic::div_mod::lemma_div_multiples_vanish(v, dd);
    assert(v * dd == dd * v) by (nonlinear_arith);
}

/// Translation consistency at any scale `d / d`: a feature evaluated
/// through a window of scale one at offset `(dx, dy)` of `big` has the same
/// value as the feature evaluated on `sub`, the integral image of the pixels
/// of `big` under that window.
pub proof fn lemma_window_translation_scaled(
    feat: Feature,
    sub: &IntegralImage,
    big: &IntegralImage,
    dx: usize,
    dy: usize,
    d: u64,
)
    requires
        d >= 1,
        feat.admitted_by(sub),
        forall|x: int, y: int|
            0 <= x < sub.spec_width() && 0 <= y < sub.spec_height() ==> sub.src()[cell(
                sub.spec_width(),
                x,
                y,
            )] == big.src()[cell(big.spec_width(), x + dx, y + dy)],
    ensures
        feat.value(&WindowedIntegralImage { ii: big, x_offset: dx, y_offset: dy, scale_num: d, scale_den: d })
            == feat.value(sub),
{
    lemma_rect_shift(sub, big, dx, dy, d, feat.black.0);
    lemma_rect_shift(sub, big, dx, dy, d, feat.white.0);
    if let Some(r) = feat.black.1 {
        lemma_rect_shift(sub, big, dx, dy, d, r);
    }
    if let Some(r) = feat.white.1 {
        lemma_rect_shift(sub, big, dx, dy, d, r);
    }
}

/// Translation consistency: a feature evaluated through a window of scale 1
/// at offset `(dx, dy)` of `big` has the same value as the feature evaluated
/// on `sub`, the integral image of the pixels of `big` under that window.
pub proof fn lemma_window_translation(
    feat: Feature,
    sub: &IntegralImage,
    big: &IntegralImage,
    dx: usize,
    dy: usize,
)
    requires
        feat.admitted_by(sub),
        forall|x: int, y: int|
            0 <= x < sub.spec_width() && 0 <= y < sub.spec_height() ==> sub.src()[cell(
                sub.spec_width(),
                x,
                y,
            )] == big.src()[cell(big.spec_width(), x + dx, y + dy)],
    ensures
        feat.value(&WindowedIntegralImage { ii: big, x_offset: dx, y_offset: dy, scale_num: 1, scale_den: 1 })
            == feat.value(sub),
{
    lemma_window_translation_scaled(feat, sub, big, dx, dy, 1);
}

/// Appends the features of one grid position and size.
fn push_cell(wcs: &mut Vec<Feature>, wl: u8, wh: u8, w: u8, h: u8, i: u8, j: u8)
    requires
        w >= 1,
        h >= 1,
        i + w <= wl,
        j + h <= wh,
        forall|k: int| 0 <= k < old(wcs)@.len() ==> (#[trigger] old(wcs)@[k]).fits(wl as int, wh as int),
    ensures
        final(wcs)@ == old(wcs)@ + cell_features(wl as int, wh as int, w as int, h as int, i as int, j as int),
        forall|k: int| 0 <= k < final(wcs)@.len() ==> (#[trigger] final(wcs)@[k]).fits(wl as int, wh as int),
{
    let ghost start = wcs@;
    let ghost (cw, ch, ci, cj) = (w as int, h as int, i as int, j as int);
    let (l, t) = (wl as u32, wh as u32);
    let (w32, h32, i32, j32) = (w as u32, h as u32, i as u32, j as u32);
    if i32 + 2 * w32 <= l {
        wcs.push(Feature {
            white: (Rectangle::<u8>::new(i, j, w, h), None),
            black: (Rectangle::<u8>::new(i + w, j, w, h), None),
        });
    }
    let ghost s1 = start + when(ci + 2 * cw <= wl, Feature { white: (rect(ci, cj, cw, ch), None), black: (rect(ci + cw, cj, cw, ch), None) });
    assert(wcs@ =~= s1);
    if j32 + 2 * h32 <= t {
        wcs.push(Feature {
            white: (Rectangle::<u8>::new(i, j, w, h), None),
            black: (Rectangle::<u8>::new(i, j + h, w, h), None),
        });
    }
    let ghost s2 = s1 + when(cj + 2 * ch <= wh, Feature { white: (rect(ci, cj, cw, ch), None), black: (rect(ci, cj + ch, cw, ch), None) });
    assert(wcs@ =~= s2);
    if i32 + 3 * w32 <= l {
        wcs.push(Feature {
            white: (Rectangle::<u8>::new(i, j, w, h), Some(Rectangle::<u8>::new(i + 2 * w, j, w, h))),
            black: (Rectangle::<u8>::new(i + w, j, w, h), None),
        });
    }
    let ghost s3 = s2 + when(ci + 3 * cw <= wl, Feature {
        white: (rect(ci, cj, cw, ch), Some(rect(ci + 2 * cw, cj, cw, ch))),
        black: (rect(ci + cw, cj, cw, ch), None),
    });
    assert(wcs@ =~= s3);
    if j32 + 3 * h32 <= t {
        wcs.push(Feature {
            white: (Rectangle::<u8>::new(i, j, w, h), Some(Rectangle::<u8>::new(i, j + 2 * h, w, h))),
            black: (Rectangle::<u8>::new(i, j + h, w, h), None),
        });
    }
    let ghost s4 = s3 + when(cj + 3 * ch <= wh, Feature {
        white: (rect(ci, cj, cw, ch), Some(rect(ci, cj + 2 * ch, cw, ch))),
        black: (rect(ci, cj + ch, cw, ch), None),
    });
    assert(wcs@ =~= s4);
    if i32 + 2 * w32 <= l && j32 + 2 * h32 <= t {
        wcs.push(Feature {
            white: (Rectangle::<u8>::new(i, j, w, h), Some(Rectangle::<u8>::new(i + w, j + h, w, h))),
            black: (Rectangle::<u8>::new(i + w, j, w, h), Some(Rectangle::<u8>::new(i, j + h, w, h))),
        });
    }
    assert(wcs@ =~= start + cell_features(wl as int, wh as int, cw, ch, ci, cj));
}

/// Enumerates the Haar-like feature space of a `wl` by `wh` window: for every
/// rectangle width and height and every top-left position, each two-, three-
/// and four-rectangle pattern that lies fully inside the window.
pub fn enumerate(wl: u8, wh: u8) -> (wcs: Vec<Feature>)
    ensures
        wcs@ == all_features(wl as int, wh as int),
        forall|k: int| 0 <= k < wcs@.len() ==> (#[trigger] wcs@[k]).fits(wl as int, wh as int),
        forall|w: int, h: int, i: int, j: int, x: Feature|
            1 <= w && 1 <= h && 0 <= i && i + w <= wl && 0 <= j && j + h <= wh
                && #[trigger] cell_features(wl as int, wh as int, w, h, i, j).contains(x) ==> wcs@.contains(x),
{
    proof {
        assert forall|w: int, h: int, i: int, j: int, x: Feature|
            1 <= w && 1 <= h && 0 <= i && i + w <= wl && 0 <= j && j + h <= wh
                && #[trigger] cell_features(wl as int, wh as int, w, h, i, j).contains(x) implies all_features(
            wl as int,
            wh as int,
        ).contains(x) by {
            lemma_fitting_patterns_enumerated(wl as int, wh as int, w, h, i, j, x);
        }
    }
    let ghost (l, t) = (wl as int, wh as int);
    let mut wcs: Vec<Feature> = Vec::new();
    let mut w: u32 = 1;
    while w <= wl as u32
        invariant
            1 <= w <= l + 1,
            l == wl,
            t == wh,
            wcs@ == features_upto(l, t, w - 1),
            forall|k: int| 0 <= k < wcs@.len() ==> (#[trigger] wcs@[k]).fits(l, t),
        decreases l + 1 - w,
    {
        let ghost pre_w = wcs@;
        let mut h: u32 = 1;
        while h <= wh as u32
            invariant
                1 <= w <= l,
                1 <= h <= t + 1,
                l == wl,
                t == wh,
                pre_w == features_upto(l, t, w - 1),
                wcs@ == pre_w + width_features(l, t, w as int, h - 1),
                forall|k: int| 0 <= k < wcs@.len() ==> (#[trigger] wcs@[k]).fits(l, t),
            decreases t + 1 - h,
        {
            let ghost pre_h = wcs@;
            let mut i: u32 = 0;
            while i + w <= wl as u32
                invariant
                    1 <= w <= l,
                    1 <= h <= t,
                    i + w <= l + 1,
                    l == wl,
                    t == wh,
                    wcs@ == pre_h + size_features(l, t, w as int, h as int, i as int),
                    forall|k: int| 0 <= k < wcs@.len() ==> (#[trigger] wcs@[k]).fits(l, t),
                decreases l + 1 - i,
            {
                let ghost pre_i = wcs@;
                let mut j: u32 = 0;
                while j + h <= wh as u32
                    invariant
                        1 <= w <= l,
                        1 <= h <= t,
                        i + w <= l,
                        j + h <= t + 1,
                        l == wl,
                        t == wh,
                        wcs@ == pre_i + column_features(l, t, w as int, h as int, i as int, j as int),
                        forall|k: int| 0 <= k < wcs@.len() ==> (#[trigger] wcs@[k]).fits(l, t),
                    decreases t + 1 - j,
                {
                    push_cell(&mut wcs, wl, wh, w as u8, h as u8, i as u8, j as u8);
                    assert(wcs@ =~= pre_i + column_features(l, t, w as int, h as int, i as int, j + 1));
                    j = j + 1;
                }
                assert(wcs@ =~= pre_h + size_features(l, t, w as int, h as int, i + 1));
                i = i + 1;
            }
            assert(wcs@ =~= pre_w + width_features(l, t, w as int, h as int));
            h = h + 1;
        }
        assert(wcs@ =~= features_upto(l, t, w as int));
        w = w + 1;
    }
    wcs
}

} // verus!
