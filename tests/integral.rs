use viola_jones::features::enumerate;
use viola_jones::{Feature, IntegralImage, IntegralImageTrait, Rectangle, WindowedIntegralImage};

fn pseudo_random_pixels(n: usize, seed: u64) -> Vec<u8> {
    let mut state = seed;
    let mut px = Vec::with_capacity(n);
    for _ in 0..n {
        state = state.wrapping_mul(6364136223846793005).wrapping_add(1442695040888963407);
        px.push((state >> 56) as u8);
    }
    px
}

fn brute_force(px: &[u8], w: usize, x0: usize, y0: usize, x1: usize, y1: usize) -> i64 {
    let mut sum = 0i64;
    for y in y0..y1 {
        for x in x0..x1 {
            sum += px[x + w * y] as i64;
        }
    }
    sum
}

#[test]
fn rect_sum_matches_brute_force_sum() {
    let (w, h) = (9usize, 7usize);
    for seed in 1..6u64 {
        let px = pseudo_random_pixels(w * h, seed);
        let ii = IntegralImage::from_pixels(&px, w, h);
        for x0 in 0..w {
            for x1 in (x0 + 1)..=w {
                for y0 in 0..h {
                    for y1 in (y0 + 1)..=h {
                        let r = Rectangle::<u8>::new(x0 as u8, y0 as u8, (x1 - x0) as u8, (y1 - y0) as u8);
                        assert_eq!(ii.rect_sum(&r), brute_force(&px, w, x0, y0, x1, y1));
                    }
                }
            }
        }
    }
}

#[test]
fn rect_sum_on_uniform_image() {
    let px = vec![255u8; 16];
    let ii = IntegralImage::from_pixels(&px, 4, 4);
    let r = Rectangle::<u8>::new(0, 0, 3, 3);
    assert_eq!(ii.rect_sum(&r), 255 * 9);
    let whole = Rectangle::<u8>::new(0, 0, 4, 4);
    assert_eq!(ii.rect_sum(&whole), 255 * 16);
    assert_eq!(ii.width(), 4);
    assert_eq!(ii.height(), 4);
}

#[test]
fn windowed_view_at_scale_one_matches_sub_image() {
    let (bw, bh) = (12usize, 10usize);
    let big_px = pseudo_random_pixels(bw * bh, 42);
    let big = IntegralImage::from_pixels(&big_px, bw, bh);
    let (dx, dy, sw, sh) = (3usize, 2usize, 6usize, 6usize);
    let mut sub_px = Vec::new();
    for y in 0..sh {
        for x in 0..sw {
            sub_px.push(big_px[(x + dx) + bw * (y + dy)]);
        }
    }
    let sub = IntegralImage::from_pixels(&sub_px, sw, sh);
    let view = WindowedIntegralImage { ii: &big, x_offset: dx, y_offset: dy, scale_num: 1, scale_den: 1 };
    for feat in enumerate(sw as u8, sh as u8) {
        assert_eq!(feat.evaluate(&view), feat.evaluate(&sub));
    }
}

#[test]
fn windowed_view_divides_by_square_of_scale() {
    let px = vec![10u8; 100];
    let ii = IntegralImage::from_pixels(&px, 10, 10);
    let view = WindowedIntegralImage { ii: &ii, x_offset: 1, y_offset: 2, scale_num: 2, scale_den: 1 };
    let r = Rectangle::<u8>::new(0, 0, 3, 3);
    // nine pixels of ten, divided by four
    assert_eq!(view.rect_sum(&r), 90 / 4);
    assert_eq!(view.width(), 10);
    // a window 34 wide read against a 28 wide base: scale 34 / 28, not 1
    let view = WindowedIntegralImage { ii: &ii, x_offset: 1, y_offset: 2, scale_num: 34, scale_den: 28 };
    assert_eq!(view.rect_sum(&r), 90 * 28 * 28 / (34 * 34));
}

#[test]
fn feature_value_is_black_minus_white() {
    let mut px = vec![0u8; 16];
    px[1] = 10; // pixel (1, 0)
    px[0] = 3; // pixel (0, 0)
    let ii = IntegralImage::from_pixels(&px, 4, 4);
    let feat = Feature {
        white: (Rectangle::<u8>::new(0, 0, 1, 1), None),
        black: (Rectangle::<u8>::new(1, 0, 1, 1), None),
    };
    assert_eq!(feat.evaluate(&ii), 7);
}

#[test]
fn enumeration_of_small_window() {
    let feats = enumerate(4, 4);
    assert_eq!(feats.len(), 136);
    let first = feats[0];
    assert_eq!(first.white.0.top_left, [0, 0]);
    assert_eq!(first.white.0.bot_right, [1, 1]);
    assert_eq!(first.black.0.top_left, [1, 0]);
    assert_eq!(first.black.0.bot_right, [2, 1]);
    assert!(first.black.1.is_none() && first.white.1.is_none());
    // the third one is the horizontal three-rectangle feature
    let third = feats[2];
    assert_eq!(third.white.1.unwrap().top_left, [2, 0]);
    // patterns flush with the window's right edge are included
    assert!(feats.iter().any(|f| f.black.0.bot_right[0] == 4 && f.black.0.top_left[0] == 2 && f.white.0.top_left[0] == 0));
    for f in &feats {
        assert!(f.black.0.bot_right[0] <= 4 && f.black.0.bot_right[1] <= 4);
        assert!(f.white.0.bot_right[0] <= 4 && f.white.0.bot_right[1] <= 4);
    }
}

#[test]
fn small_windows_feature_counts() {
    assert_eq!(enumerate(2, 2).len(), 7);
    assert_eq!(enumerate(1, 1).len(), 0);
}

#[test]
fn full_window_feature_space_size() {
    assert_eq!(viola_jones::WeakClassifier::get_all().len(), 391118);
}
