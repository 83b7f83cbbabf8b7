use vstd::prelude::*;
use crate::cascade::{stages_fit, Cascade};
use crate::features::lemma_window_translation_scaled;
use crate::integral_image::cell;
use crate::strong_classifier::lemma_same_answers_same_votes;
use crate::constants::{WH, WL};
use crate::geometry::Rectangle;
use vstd::arithmetic::div_mod::{lemma_fundamental_div_mod, lemma_mod_add_multiples_vanish, lemma_small_mod};
use crate::integral_image::{IntegralImage, IntegralImageTrait, WindowedIntegralImage};

verus! {

/// Growth of the scanned window width between scales: a fifth of the
/// window width, rounded.
pub const SCALE_STEP: usize = 6;

/// Width of the largest scanned window in a `w` by `h` image, for a
/// detection window of `wl` by `wh`.
pub open spec fn max_window_width(w: int, h: int, wl: int, wh: int) -> int {
    if w / wl < h / wh {
        w
    } else {
        h * wl / wh
    }
}

/// Height of a scanned window of width `cw`.
pub open spec fn window_height(cw: int, wl: int, wh: int) -> int {
    cw * wh / wl
}

/// `cw` is one of the scanned widths of a `w` by `h` image: from `wl` up by
/// `step` to the largest that fits.
pub open spec fn on_scale_grid(cw: int, w: int, h: int, wl: int, wh: int, step: int) -> bool {
    &&& wl <= cw <= max_window_width(w, h, wl, wh)
    &&& (cw - wl) % step == 0
}

/// The view of `ii` through the window at `(x, y)` of width `cw`: scale
/// `cw / wl`.
pub open spec fn window_view(ii: &IntegralImage, x: int, y: int, cw: int, wl: int) -> WindowedIntegralImage {
    WindowedIntegralImage { ii, x_offset: x as usize, y_offset: y as usize, scale_num: cw as u64, scale_den: wl as u64 }
}

/// The window at `(x, y)` of width `cw` is scanned and the cascade accepts it.
pub open spec fn accepted_window(
    c: &Cascade,
    ii: &IntegralImage,
    x: int,
    y: int,
    cw: int,
    wl: int,
    wh: int,
    step: int,
) -> bool {
    &&& on_scale_grid(cw, ii.spec_width(), ii.spec_height(), wl, wh, step)
    &&& 0 <= x <= ii.spec_width() - cw
    &&& 0 <= y <= ii.spec_height() - window_height(cw, wl, wh)
    &&& c.accepts(&window_view(ii, x, y, cw, wl))
}

/// The rectangle of the window at `(x, y)` of width `cw`.
pub open spec fn window_rect(x: int, y: int, cw: int, wl: int, wh: int) -> Rectangle<u32> {
    Rectangle {
        top_left: [x as u32, y as u32],
        bot_right: [(x + cw) as u32, (y + window_height(cw, wl, wh)) as u32],
    }
}

/// `r` is the rectangle of a window that the cascade accepts.
pub open spec fn is_hit(c: &Cascade, ii: &IntegralImage, r: Rectangle<u32>, wl: int, wh: int, step: int) -> bool {
    let x = r.top_left[0] as int;
    let y = r.top_left[1] as int;
    let cw = r.bot_right[0] - x;
    &&& accepted_window(c, ii, x, y, cw, wl, wh, step)
    &&& r == window_rect(x, y, cw, wl, wh)
}

/// An exact copy of a sample the cascade accepts, embedded at `(ox, oy)` of
/// an image in which a window of base size is scanned, is an accepted
/// window at base scale, so `detect` reports it.
pub proof fn lemma_embedded_sample_accepted(c: Cascade, big: &IntegralImage, sample: &IntegralImage, ox: usize, oy: usize)
    requires
        stages_fit(c.scs@, WL as int, WH as int),
        sample.spec_width() == WL,
        sample.spec_height() == WH,
        forall|x: int, y: int|
            0 <= x < WL && 0 <= y < WH ==> sample.src()[cell(WL as int, x, y)] == big.src()[cell(
                big.spec_width(),
                x + ox,
                y + oy,
            )],
        ox + WL <= big.spec_width(),
        oy + WH <= big.spec_height(),
        WL <= max_window_width(big.spec_width(), big.spec_height(), WL as int, WH as int),
        c.accepts(sample),
    ensures
        accepted_window(&c, big, ox as int, oy as int, WL as int, WL as int, WH as int, SCALE_STEP as int),
{
    let view = window_view(big, ox as int, oy as int, WL as int, WL as int);
    assert(view == WindowedIntegralImage { ii: big, x_offset: ox, y_offset: oy, scale_num: WL as u64, scale_den: WL as u64 });
    assert forall|s: int| 0 <= s < c.scs@.len() implies (#[trigger] c.scs@[s]).accepts(&view) by {
        let sc = c.scs@[s];
        let n = sc.wcs@.len() as int;
        assert forall|i: int| 0 <= i < n implies (#[trigger] sc.wcs@[i]).accepts(&view) == sc.wcs@[i].accepts(sample) by {
            let feat = sc.wcs@[i].feature;
            assert(feat.fits(WL as int, WH as int));
            lemma_window_translation_scaled(feat, sample, big, ox, oy, WL as u64);
        }
        lemma_same_answers_same_votes(sc.wcs@, sc.weights@, &view, sample, n, true);
        lemma_same_answers_same_votes(sc.wcs@, sc.weights@, &view, sample, n, false);
        assert(sc.accepts(sample));
    }
    assert(window_height(WL as int, WL as int, WH as int) == WH);
}

/// Two distinct widths on one grid of step `s` lie at least `s` apart.
proof fn lemma_grid_gap(a: int, b: int, s: int)
    requires
        s > 0,
        b < a,
        a % s == 0,
        b % s == 0,
    ensures
        a >= b + s,
{
    lemma_fundamental_div_mod(a, s);
    lemma_fundamental_div_mod(b, s);
    assert(a >= b + s) by (nonlinear_arith)
        requires
            s > 0,
            b < a,
            a == s * (a / s),
            b == s * (b / s),
    ;
}

/// Scans the image for a detection window of `wlw` by `whw` pixels: with
/// windows of growing width (from `wlw`, growing by `step`, up to the largest
/// that fits), each `cw * whw / wlw` high, at every top-left position
/// (windows flush with the image's edges included), and returns the
/// rectangles of the windows the cascade accepts. Features are read through
/// the windowed view: shifted to the window and divided by the square of the
/// scale `cw / wlw`.
#[verifier::rlimit(80)]
pub fn detect_for_window(
    cascade: &Cascade,
    ii: &IntegralImage,
    wlw: u8,
    whw: u8,
    step: usize,
) -> (hits: Vec<Rectangle<u32>>)
    requires
        cascade.wf(),
        wlw >= 1,
        whw >= 1,
        1 <= step <= u32::MAX,
        stages_fit(cascade.scs@, wlw as int, whw as int),
        ii.spec_width() <= u32::MAX,
        ii.spec_height() <= u32::MAX,
    ensures
        forall|i: int| 0 <= i < hits@.len() ==> is_hit(cascade, ii, #[trigger] hits@[i], wlw as int, whw as int, step as int),
        forall|x: int, y: int, cw: int|
            #[trigger] accepted_window(cascade, ii, x, y, cw, wlw as int, whw as int, step as int) ==> hits@.contains(window_rect(x, y, cw, wlw as int, whw as int)),
{
    let (wu, hu) = ii.dims();
    let mut hits: Vec<Rectangle<u32>> = Vec::new();
    if wu == 0 || hu == 0 {
        proof {
            assert forall|x: int, y: int, cw: int|
                #[trigger] accepted_window(cascade, ii, x, y, cw, wlw as int, whw as int, step as int) implies false by {
                assert((cw * whw) / (wlw as int) >= 1) by (nonlinear_arith)
                    requires
                        cw >= wlw,
                        wlw >= 1,
                        whw >= 1,
                ;
            }
        }
        return hits;
    }
    proof {
        assert(wu <= wu * hu) by (nonlinear_arith)
            requires
                hu > 0,
        ;
        assert(hu <= wu * hu) by (nonlinear_arith)
            requires
                wu > 0,
        ;
    }
    let w: u64 = wu as u64;
    let h: u64 = hu as u64;
    let wl: u64 = wlw as u64;
    let wh: u64 = whw as u64;
    proof {
        assert(h * wl <= 255 * h) by (nonlinear_arith)
            requires
                wl <= 255,
        ;
        assert((h as int) * (wl as int) / (wh as int) <= (h as int) * (wl as int)) by (nonlinear_arith)
            requires
                wh >= 1,
        ;
        lemma_small_mod(0, step as nat);
    }
    let max_w: u64 = if w / wl < h / wh {
        w
    } else {
        h * wl / wh
    };
    let mut cw: u64 = wl;
    while cw <= max_w
        invariant
            w == ii.spec_width(),
            h == ii.spec_height(),
            w <= u32::MAX,
            h <= u32::MAX,
            wl == wlw,
            wh == whw,
            max_w == max_window_width(w as int, h as int, wlw as int, whw as int),
            max_w <= w + 255 * h,
            wlw >= 1,
            whw >= 1,
            1 <= step <= u32::MAX,
            wlw <= cw <= max_w + step + wlw,
            (cw - wlw) % (step as int) == 0,
            cascade.wf(),
            stages_fit(cascade.scs@, wlw as int, whw as int),
            forall|i: int| 0 <= i < hits@.len() ==> is_hit(cascade, ii, #[trigger] hits@[i], wlw as int, whw as int, step as int),
            forall|x: int, y: int, c: int|
                c < cw && #[trigger] accepted_window(cascade, ii, x, y, c, wlw as int, whw as int, step as int) ==> hits@.contains(window_rect(x, y, c, wlw as int, whw as int)),
        decreases max_w + step - cw,
    {
        proof {
            assert(cw * wh <= 255 * cw) by (nonlinear_arith)
                requires
                    wh <= 255,
            ;
            assert((cw as int) * (wh as int) / (wl as int) <= (cw as int) * (wh as int)) by (nonlinear_arith)
                requires
                    wl >= 1,
            ;
        }
        let ch: u64 = cw * wh / wl;
        let mut x: u64 = 0;
        while x + cw <= w
            invariant
                w == ii.spec_width(),
                h == ii.spec_height(),
                w <= u32::MAX,
                h <= u32::MAX,
                max_w == max_window_width(w as int, h as int, wlw as int, whw as int),
                max_w <= w + 255 * h,
                wlw >= 1,
                whw >= 1,
                1 <= step <= u32::MAX,
                ch <= 255 * cw,
                wh == whw,
                wlw <= cw <= max_w,
                wl == wlw,
                x <= w + 1,
                (cw - wlw) % (step as int) == 0,
                ch == window_height(cw as int, wlw as int, whw as int),
                cascade.wf(),
                stages_fit(cascade.scs@, wlw as int, whw as int),
                forall|i: int| 0 <= i < hits@.len() ==> is_hit(cascade, ii, #[trigger] hits@[i], wlw as int, whw as int, step as int),
                forall|xx: int, y: int, c: int|
                    (c < cw || (c == cw && xx < x)) && #[trigger] accepted_window(cascade, ii, xx, y, c, wlw as int, whw as int, step as int)
                        ==> hits@.contains(window_rect(xx, y, c, wlw as int, whw as int)),
            decreases w + 1 - x,
        {
            let mut y: u64 = 0;
            while y + ch <= h
                invariant
                    w == ii.spec_width(),
                    h == ii.spec_height(),
                    w <= u32::MAX,
                    h <= u32::MAX,
                    max_w == max_window_width(w as int, h as int, wlw as int, whw as int),
                    max_w <= w + 255 * h,
                wlw >= 1,
                whw >= 1,
                    1 <= step <= u32::MAX,
                    ch <= 255 * cw,
                    wh == whw,
                    wlw <= cw <= max_w,
                    wl == wlw,
                    x + cw <= w,
                    y <= h + 1,
                    (cw - wlw) % (step as int) == 0,
                    ch == window_height(cw as int, wlw as int, whw as int),
                    cascade.wf(),
                    stages_fit(cascade.scs@, wlw as int, whw as int),
                    forall|i: int| 0 <= i < hits@.len() ==> is_hit(cascade, ii, #[trigger] hits@[i], wlw as int, whw as int, step as int),
                    forall|xx: int, yy: int, c: int|
                        (c < cw || (c == cw && xx < x) || (c == cw && xx == x && yy < y))
                            && #[trigger] accepted_window(cascade, ii, xx, yy, c, wlw as int, whw as int, step as int) ==> hits@.contains(
                            window_rect(xx, yy, c, wlw as int, whw as int),
                        ),
                decreases h + 1 - y,
            {
                let view = WindowedIntegralImage { ii, x_offset: x as usize, y_offset: y as usize, scale_num: cw, scale_den: wl };
                proof {
                    assert(ch >= wh) by (nonlinear_arith)
                        requires
                            ch as int == (cw as int) * (wh as int) / (wl as int),
                            cw >= wl,
                            wl >= 1,
                    ;
                    assert forall|s: int| 0 <= s < cascade.scs@.len() implies (#[trigger] cascade.scs@[s]).admitted_by(&view) by {
                        assert forall|i: int| 0 <= i < cascade.scs@[s].wcs@.len() implies (#[trigger] cascade.scs@[s].wcs@[i]).feature.admitted_by(&view) by {
                            assert(cascade.scs@[s].wcs@[i].feature.fits(wlw as int, whw as int));
                        }
                    }
                    assert(view == window_view(ii, x as int, y as int, cw as int, wlw as int));
                }
                let accepted = cascade.classify(&view);
                if accepted {
                    let r = Rectangle::<u32>::new(x as u32, y as u32, cw as u32, ch as u32);
                    let ghost before = hits@;
                    hits.push(r);
                    proof {
                        assert(r == window_rect(x as int, y as int, cw as int, wlw as int, whw as int));
                        assert(hits@[before.len() as int] == r);
                        assert forall|i: int| 0 <= i < hits@.len() implies is_hit(cascade, ii, #[trigger] hits@[i], wlw as int, whw as int, step as int) by {
                            if i < before.len() {
                                assert(hits@[i] == before[i]);
                            }
                        }
                        assert forall|xx: int, yy: int, c: int|
                            (c < cw || (c == cw && xx < x) || (c == cw && xx == x && yy <= y))
                                && #[trigger] accepted_window(cascade, ii, xx, yy, c, wlw as int, whw as int, step as int) implies hits@.contains(
                                window_rect(xx, yy, c, wlw as int, whw as int),
                            ) by {
                            if c == cw && xx == x && yy == y {
                                assert(hits@[before.len() as int] == window_rect(xx, yy, c, wlw as int, whw as int));
                            } else {
                                let j = choose|j: int| 0 <= j < before.len() && before[j] == window_rect(xx, yy, c, wlw as int, whw as int);
                                assert(hits@[j] == before[j]);
                            }
                        }
                    }
                }
                y = y + 1;
            }
            x = x + 1;
        }
        let ghost prev = cw;
        cw = cw + step as u64;
        proof {
            lemma_mod_add_multiples_vanish(prev - wlw, step as int);
            assert forall|x: int, y: int, c: int|
                c < cw && #[trigger] accepted_window(cascade, ii, x, y, c, wlw as int, whw as int, step as int) implies hits@.contains(
                window_rect(x, y, c, wlw as int, whw as int),
            ) by {
                if c > prev {
                    lemma_grid_gap(c - wlw, prev - wlw, step as int);
                }
            }
        }
    }
    hits
}

} // verus!

verus! {

/// `detect_for_window` with the detection window `WL` by `WH` and the
/// scale step `SCALE_STEP`.
pub fn detect(cascade: &Cascade, ii: &IntegralImage) -> (hits: Vec<Rectangle<u32>>)
    requires
        cascade.wf(),
        stages_fit(cascade.scs@, WL as int, WH as int),
        ii.spec_width() <= u32::MAX,
        ii.spec_height() <= u32::MAX,
    ensures
        forall|i: int|
            0 <= i < hits@.len() ==> is_hit(cascade, ii, #[trigger] hits@[i], WL as int, WH as int, SCALE_STEP as int),
        forall|x: int, y: int, cw: int|
            #[trigger] accepted_window(cascade, ii, x, y, cw, WL as int, WH as int, SCALE_STEP as int)
                ==> hits@.contains(window_rect(x, y, cw, WL as int, WH as int)),
{
    detect_for_window(cascade, ii, WL, WH, SCALE_STEP)
}

} // verus!
