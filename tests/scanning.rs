use viola_jones::slicing::{crop, slice_windows};
use viola_jones::{detect, detect_for_window, Cascade, Feature, IntegralImage, Rectangle, StrongClassifier, WeakClassifier};

/// A 28 by 32 sample: dark, with a bright vertical band over columns 9 to 12.
fn band_sample() -> Vec<u8> {
    let mut px = vec![0u8; 28 * 32];
    for y in 0..32 {
        for x in 9..13 {
            px[x + 28 * y] = 255;
        }
    }
    px
}

fn band_cascade() -> Cascade {
    let feature = Feature {
        black: (Rectangle::<u8>::new(9, 0, 4, 10), None),
        white: (Rectangle::<u8>::new(5, 0, 4, 10), Some(Rectangle::<u8>::new(13, 0, 4, 10))),
    };
    let wc = WeakClassifier { feature, threshold: 5000, pos_polarity: false };
    Cascade { scs: vec![StrongClassifier { wcs: vec![wc], weights: vec![1] }] }
}

#[test]
fn scenario_c_embedded_sample_is_found_at_base_scale() {
    let sample = band_sample();
    let cascade = band_cascade();
    let sample_ii = IntegralImage::from_pixels(&sample, 28, 32);
    assert!(cascade.classify(&sample_ii));
    let (w, h) = (60usize, 70usize);
    let (dx, dy) = (7usize, 5usize);
    let mut px = vec![0u8; w * h];
    for y in 0..32 {
        for x in 0..28 {
            px[(x + dx) + w * (y + dy)] = sample[x + 28 * y];
        }
    }
    let ii = IntegralImage::from_pixels(&px, w, h);
    let hits = detect(&cascade, &ii);
    let expected = Rectangle::<u32> { top_left: [7, 5], bot_right: [35, 37] };
    assert!(hits.iter().any(|r| r.top_left == expected.top_left && r.bot_right == expected.bot_right));
    for r in &hits {
        let cw = r.bot_right[0] - r.top_left[0];
        assert_eq!(r.bot_right[1] - r.top_left[1], cw * 32 / 28);
        assert_eq!((cw - 28) % 6, 0);
    }
}

#[test]
fn empty_cascade_accepts_every_scanned_window() {
    let ii = IntegralImage::from_pixels(&vec![0u8; 30 * 34], 30, 34);
    let hits = detect(&Cascade { scs: Vec::new() }, &ii);
    assert_eq!(hits.len(), 9);
    assert_eq!(hits[0].top_left, [0, 0]);
    assert_eq!(hits[0].bot_right, [28, 32]);
    assert_eq!(hits[8].top_left, [2, 2]);
    assert_eq!(hits[8].bot_right, [30, 34]);
}

#[test]
fn image_smaller_than_window_gives_no_hit() {
    let ii = IntegralImage::from_pixels(&vec![0u8; 20 * 20], 20, 20);
    assert!(detect(&Cascade { scs: Vec::new() }, &ii).is_empty());
}

#[test]
fn several_scales_are_scanned() {
    let ii = IntegralImage::from_pixels(&vec![0u8; 40 * 60], 40, 60);
    let hits = detect(&Cascade { scs: Vec::new() }, &ii);
    // widths 28, 34 and 40; 40 only at x = 0, flush with both edges
    let widths: Vec<u32> = hits.iter().map(|r| r.bot_right[0] - r.top_left[0]).collect();
    assert!(widths.contains(&28) && widths.contains(&34) && widths.contains(&40));
    assert!(!widths.contains(&46));
    assert_eq!(hits.len(), 13 * 29 + 7 * 23 + 16);
}

#[test]
fn sample_flush_with_the_corner_is_found() {
    let sample = band_sample();
    let cascade = band_cascade();
    let (w, h) = (40usize, 45usize);
    let (dx, dy) = (w - 28, h - 32);
    let mut px = vec![0u8; w * h];
    for y in 0..32 {
        for x in 0..28 {
            px[(x + dx) + w * (y + dy)] = sample[x + 28 * y];
        }
    }
    let ii = IntegralImage::from_pixels(&px, w, h);
    let hits = detect(&cascade, &ii);
    assert!(hits.iter().any(|r| r.top_left == [12, 13] && r.bot_right == [40, 45]));
}

#[test]
fn configurable_window_and_step_are_scanned() {
    let ii = IntegralImage::from_pixels(&vec![0u8; 5 * 8], 5, 8);
    let hits = detect_for_window(&Cascade { scs: Vec::new() }, &ii, 2, 4, 1);
    // widths 2, 3 and 4, with heights 4, 6 and 8
    assert_eq!(hits.len(), 4 * 5 + 3 * 3 + 2 * 1);
    assert_eq!(hits[0].top_left, [0, 0]);
    assert_eq!(hits[0].bot_right, [2, 4]);
    assert!(hits.iter().any(|r| r.top_left == [1, 0] && r.bot_right == [5, 8]));
    assert!(!hits.iter().any(|r| r.bot_right[0] - r.top_left[0] == 5));
}

#[test]
fn detect_is_the_standard_window_scan() {
    let ii = IntegralImage::from_pixels(&vec![0u8; 40 * 60], 40, 60);
    let cascade = Cascade { scs: Vec::new() };
    let a = detect(&cascade, &ii);
    let b = detect_for_window(&cascade, &ii, 28, 32, 6);
    assert_eq!(a.len(), b.len());
    for (r, s) in a.iter().zip(b.iter()) {
        assert_eq!(r.top_left, s.top_left);
        assert_eq!(r.bot_right, s.bot_right);
    }
}

#[test]
fn slicing_cuts_tiles_column_by_column() {
    let px: Vec<u8> = (0u8..12).collect();
    let tiles = slice_windows(&px, 4, 3, 2, 1);
    assert_eq!(tiles.len(), 6);
    assert_eq!(tiles[0], vec![0, 1]);
    assert_eq!(tiles[1], vec![4, 5]);
    assert_eq!(tiles[3], vec![2, 3]);
    assert_eq!(tiles[5], vec![10, 11]);
}

#[test]
fn slicing_drops_partial_tiles() {
    let px: Vec<u8> = (0u8..15).collect();
    let tiles = slice_windows(&px, 5, 3, 2, 2);
    assert_eq!(tiles.len(), 2);
    assert_eq!(tiles[0], vec![0, 1, 5, 6]);
    assert_eq!(tiles[1], vec![2, 3, 7, 8]);
    assert_eq!(crop(&px, 5, 3, 3, 1, 2, 2), vec![8, 9, 13, 14]);
}
