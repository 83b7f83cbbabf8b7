use viola_jones::cascade::{remove_true_negatives, BuildError, TestCounts};
use viola_jones::features::enumerate;
use viola_jones::strong_classifier::{boost_round, false_positives_within};
use viola_jones::weak_classifier::vote_weight;
use viola_jones::{
    Cascade, Feature, IntegralImage, Rectangle, StrongClassifier, TrainingImages, WeakClassifier,
    MAX_VOTE, WEIGHT_ONE,
};

/// A 4 by 4 image, zero but for pixel (1, 0) = `right` and (0, 0) = `left`.
fn pair_image(right: u8, left: u8) -> IntegralImage {
    let mut px = vec![0u8; 16];
    px[1] = right;
    px[0] = left;
    IntegralImage::from_pixels(&px, 4, 4)
}

/// The feature `pixel (1, 0) - pixel (0, 0)`.
fn pair_feature() -> Feature {
    Feature {
        white: (Rectangle::<u8>::new(0, 0, 1, 1), None),
        black: (Rectangle::<u8>::new(1, 0, 1, 1), None),
    }
}

fn uniform(v: u8) -> IntegralImage {
    IntegralImage::from_pixels(&vec![v; 16], 4, 4)
}

/// Samples with feature values 10 (object), -5, 3 (object), 7.
fn four_samples() -> TrainingImages {
    let images = vec![pair_image(10, 0), pair_image(0, 5), pair_image(3, 0), pair_image(7, 0)];
    TrainingImages::from_samples(images, vec![true, false, true, false], 4, 4).unwrap()
}

#[test]
fn initial_weights_share_the_unit_between_labels() {
    let set = four_samples();
    assert_eq!(set.len(), 4);
    assert_eq!(set.weight(0), WEIGHT_ONE / 4);
    assert_eq!(set.weight(1), WEIGHT_ONE / 4);
    assert_eq!(set.total_weight(), WEIGHT_ONE);
    let images = vec![uniform(1), uniform(2), uniform(3)];
    let set = TrainingImages::from_samples(images, vec![true, false, false], 4, 4).unwrap();
    assert_eq!(set.weight(0), WEIGHT_ONE / 2);
    assert_eq!(set.weight(2), WEIGHT_ONE / 4);
}

#[test]
fn samples_of_the_wrong_size_are_refused() {
    let images = vec![uniform(1), IntegralImage::from_pixels(&vec![0u8; 9], 3, 3)];
    assert!(TrainingImages::from_samples(images, vec![true, false], 4, 4).is_none());
    let images = vec![uniform(1)];
    assert!(TrainingImages::from_samples(images, vec![true, false], 4, 4).is_none());
}

#[test]
fn normalization_scales_to_the_unit() {
    let mut set = four_samples();
    let wc = WeakClassifier { feature: pair_feature(), threshold: 4, pos_polarity: true };
    wc.update_weights(&mut set);
    set.normalize_weights();
    assert!(set.total_weight() <= WEIGHT_ONE);
    assert!(set.total_weight() > WEIGHT_ONE - 4);
    // the two correctly classified samples now share half of the unit
    assert_eq!(set.weight(2) as u64 + set.weight(3) as u64, WEIGHT_ONE / 2);
}

#[test]
fn threshold_search_uses_sorted_order() {
    let set = four_samples();
    let mut wc = WeakClassifier::new(pair_feature());
    wc.calculate_threshold(&set);
    assert_eq!(wc.threshold, -5);
    assert!(!wc.pos_polarity);
}

#[test]
fn threshold_search_twice_gives_the_same_cut() {
    let set = four_samples();
    let mut a = WeakClassifier::new(pair_feature());
    a.calculate_threshold(&set);
    let mut b = a;
    b.threshold = 1234;
    b.pos_polarity = true;
    b.calculate_threshold(&set);
    assert_eq!((a.threshold, a.pos_polarity), (b.threshold, b.pos_polarity));
    a.calculate_threshold(&set);
    assert_eq!((a.threshold, a.pos_polarity), (b.threshold, b.pos_polarity));
}

#[test]
fn classify_uses_polarity_and_strict_threshold() {
    let wc = WeakClassifier { feature: pair_feature(), threshold: 4, pos_polarity: true };
    assert!(wc.classify(&pair_image(3, 0)));
    assert!(!wc.classify(&pair_image(4, 0)));
    let wc = WeakClassifier { feature: pair_feature(), threshold: 4, pos_polarity: false };
    assert!(wc.classify(&pair_image(4, 0)));
    assert!(!wc.classify(&pair_image(3, 0)));
}

#[test]
fn weighted_error_counts_misclassified_weight() {
    let set = four_samples();
    let wc = WeakClassifier { feature: pair_feature(), threshold: 4, pos_polarity: true };
    // wrong on the object with value 10 and the non-object with value -5
    assert_eq!(wc.error(&set), WEIGHT_ONE / 2);
}

#[test]
fn update_leaves_selected_classifier_at_half_error() {
    let images = vec![pair_image(10, 0), pair_image(0, 5), pair_image(3, 0), pair_image(1, 0)];
    let mut set = TrainingImages::from_samples(images, vec![true, false, true, true], 4, 4).unwrap();
    let wc = WeakClassifier { feature: pair_feature(), threshold: 4, pos_polarity: true };
    let err = wc.error(&set);
    let total = set.total_weight();
    assert_eq!(total, 2147483647);
    assert_eq!(err, 1431655765);
    let vote = wc.update_weights(&mut set);
    assert_eq!(vote, -65536);
    // misclassified samples keep their weight, the others are scaled by
    // err / (total - err), here 2
    assert_eq!(set.weight(0), 357913941);
    assert_eq!(set.weight(1), WEIGHT_ONE / 2);
    assert_eq!(set.weight(2), 357913941 * err / (total - err));
    assert_eq!(set.weight(2), 715827882);
    assert_eq!(wc.error(&set), err);
    assert!(2 * wc.error(&set) >= set.total_weight());
}

#[test]
fn degenerate_rounds_keep_weights() {
    let mut set = four_samples();
    let none = WeakClassifier { feature: pair_feature(), threshold: 100, pos_polarity: false };
    // accepts nothing: wrong on both objects
    assert_eq!(none.error(&set), WEIGHT_ONE / 2);
    let cut = WeakClassifier { feature: pair_feature(), threshold: 5, pos_polarity: false };
    // value >= 5 accepted: 10 yes (object), -5 no, 3 no (object: wrong), 7 yes (wrong)
    assert_eq!(cut.error(&set), WEIGHT_ONE / 2);
    let images = vec![pair_image(10, 0), pair_image(0, 5)];
    let mut two = TrainingImages::from_samples(images, vec![true, false], 4, 4).unwrap();
    let wc = WeakClassifier { feature: pair_feature(), threshold: 0, pos_polarity: false };
    assert_eq!(wc.error(&two), 0);
    assert_eq!(wc.update_weights(&mut two), MAX_VOTE);
    assert_eq!(two.weight(0), WEIGHT_ONE / 2);
    let before = set.weight(1);
    let wrong = WeakClassifier { feature: pair_feature(), threshold: 0, pos_polarity: true };
    let images = vec![pair_image(10, 0), pair_image(0, 5)];
    let mut two = TrainingImages::from_samples(images, vec![true, false], 4, 4).unwrap();
    assert_eq!(wrong.update_weights(&mut two), 0);
    assert_eq!(two.weight(1), WEIGHT_ONE / 2);
    set.normalize_weights();
    assert_eq!(set.weight(1), before);
}

#[test]
fn vote_weight_is_a_fixed_point_base_two_logarithm() {
    assert_eq!(vote_weight(1, 3), 65536);
    assert_eq!(vote_weight(1, 4), 103872);
    assert_eq!(vote_weight(3, 4), -103872);
    assert_eq!(vote_weight(2, 4), 0);
    assert_eq!(vote_weight(1, 9), 196608);
    assert_eq!(vote_weight(0, 9), MAX_VOTE);
    assert_eq!(vote_weight(9, 9), 0);
}

#[test]
fn best_classifier_is_the_first_of_least_error() {
    let set = four_samples();
    let wcs = vec![
        WeakClassifier { feature: pair_feature(), threshold: 4, pos_polarity: true },
        WeakClassifier { feature: pair_feature(), threshold: 8, pos_polarity: false },
        WeakClassifier { feature: pair_feature(), threshold: 2, pos_polarity: false },
    ];
    // errors: half, a quarter (only the object with value 3), a quarter
    assert_eq!(WeakClassifier::get_best_index(&wcs, &set), 1);
    assert_eq!(WeakClassifier::get_best(&wcs, &set).threshold, 8);
}

#[test]
fn strong_classifier_is_a_weighted_majority() {
    let yes = WeakClassifier { feature: pair_feature(), threshold: 100, pos_polarity: true };
    let no = WeakClassifier { feature: pair_feature(), threshold: -100, pos_polarity: true };
    let img = pair_image(1, 0);
    let sc = StrongClassifier { wcs: vec![yes, no, no], weights: vec![5, 2, 2] };
    assert!(sc.classify(&img));
    let sc = StrongClassifier { wcs: vec![yes, no, no], weights: vec![3, 2, 2] };
    assert!(!sc.classify(&img));
    let sc = StrongClassifier { wcs: vec![yes, no], weights: vec![2, 2] };
    assert!(sc.classify(&img));
}

#[test]
fn cascade_rejects_when_one_stage_rejects() {
    let yes = WeakClassifier { feature: pair_feature(), threshold: 100, pos_polarity: true };
    let no = WeakClassifier { feature: pair_feature(), threshold: -100, pos_polarity: true };
    let accept = StrongClassifier { wcs: vec![yes], weights: vec![1] };
    let reject = StrongClassifier { wcs: vec![no], weights: vec![1] };
    let img = pair_image(1, 0);
    let c = Cascade { scs: vec![accept.clone(), reject.clone(), accept.clone()] };
    assert!(!c.classify(&img));
    let c = Cascade { scs: vec![accept.clone(), accept.clone()] };
    assert!(c.classify(&img));
    let c = Cascade { scs: vec![reject, accept] };
    assert!(!c.classify(&img));
}

#[test]
fn cascade_test_counts_answers() {
    let set = four_samples();
    let wc = WeakClassifier { feature: pair_feature(), threshold: 4, pos_polarity: true };
    let c = Cascade { scs: vec![StrongClassifier { wcs: vec![wc], weights: vec![1] }] };
    let counts = c.test(&set);
    assert_eq!(
        counts,
        TestCounts { false_positives: 1, negatives: 2, detections: 1, positives: 2 }
    );
}

#[test]
fn scenario_a_uniform_white_and_black_samples() {
    let mut images = Vec::new();
    let mut labels = Vec::new();
    for _ in 0..4 {
        images.push(uniform(255));
        labels.push(true);
    }
    for _ in 0..4 {
        images.push(uniform(0));
        labels.push(false);
    }
    let mut set = TrainingImages::from_samples(images, labels, 4, 4).unwrap();
    let mut pool = WeakClassifier::get_all_for(4, 4);
    assert_eq!(pool.len(), 136);
    let sc = StrongClassifier::build(&mut pool, &mut set, Some(1));
    assert_eq!(sc.wcs.len(), 1);
    // the threshold search cuts right after the objects; the cut value is the
    // objects' own value, which the strict comparison of `classify` leaves
    // outside, so every feature errs on half of the weight and votes zero
    assert_eq!(sc.weights, vec![0]);
    let three = pool.iter().position(|wc| wc.feature.white.1.is_some() && wc.feature.black.1.is_none()).unwrap();
    assert_eq!(pool[three].threshold, -255);
    assert!(pool[three].pos_polarity);
}

#[test]
fn scenario_b_bootstrap_keeps_ambiguous_negative() {
    let images = vec![
        pair_image(10, 0),
        pair_image(10, 0),
        uniform(0),
        pair_image(0, 200),
        uniform(9),
    ];
    let labels = vec![true, false, false, false, true];
    let mut set = TrainingImages::from_samples(images, labels, 4, 4).unwrap();
    let mut pool = WeakClassifier::get_all_for(4, 4);
    let sc = StrongClassifier::build(&mut pool, &mut set, Some(1));
    let answers: Vec<bool> = (0..set.len()).map(|k| sc.classify(set.image(k))).collect();
    let expected = (0..set.len()).filter(|&k| set.is_object(k) || answers[k]).count();
    let ambiguous_kept = answers[0];
    remove_true_negatives(&mut set, &sc);
    assert_eq!(set.len(), expected);
    let objects = (0..set.len()).filter(|&k| set.is_object(k)).count();
    assert_eq!(objects, 2);
    for k in 0..set.len() {
        if !set.is_object(k) {
            assert!(sc.classify(set.image(k)));
        }
    }
    if ambiguous_kept {
        assert!(!set.is_object(1));
    }
    let images = vec![pair_image(10, 0), pair_image(10, 0), uniform(0), pair_image(0, 200)];
    let set = TrainingImages::from_samples(images, vec![true, false, false, false], 4, 4).unwrap();
    let cascade = Cascade::build_for_window(set, Some(vec![1, 1]), 4, 4).unwrap();
    assert!(cascade.scs.len() >= 1 && cascade.scs.len() <= 2);
    assert_eq!(cascade.scs[0].wcs.len(), 1);
}

#[test]
fn cascade_build_reports_configuration_errors() {
    let empty = TrainingImages::from_samples(Vec::new(), Vec::new(), 4, 4).unwrap();
    assert_eq!(Cascade::build_for_window(empty, None, 4, 4).unwrap_err(), BuildError::EmptyTrainingSet);
    let set = four_samples();
    assert_eq!(Cascade::build(set, None).unwrap_err(), BuildError::WrongSampleSize);
    let set = four_samples();
    assert_eq!(Cascade::build_for_window(set, Some(vec![1, 0]), 4, 4).unwrap_err(), BuildError::BadLayout);
    let set = four_samples();
    assert_eq!(Cascade::build_for_window(set, Some(Vec::new()), 4, 4).unwrap_err(), BuildError::BadLayout);
    let images = vec![IntegralImage::from_pixels(&vec![0u8; 1], 1, 1)];
    let set = TrainingImages::from_samples(images, vec![true], 1, 1).unwrap();
    assert_eq!(Cascade::build_for_window(set, None, 1, 1).unwrap_err(), BuildError::EmptyFeaturePool);
}

#[test]
fn enumerated_features_fit_their_window() {
    for f in enumerate(5, 6) {
        for r in [Some(f.black.0), f.black.1, Some(f.white.0), f.white.1].iter().flatten() {
            assert!(r.top_left[0] < r.bot_right[0] && r.bot_right[0] <= 5);
            assert!(r.top_left[1] < r.bot_right[1] && r.bot_right[1] <= 6);
        }
    }
}

#[test]
fn boosting_round_searches_picks_and_reweights() {
    let mut set = four_samples();
    let mut pool = vec![WeakClassifier::new(pair_feature())];
    let (wc, vote, err, total) = boost_round(&mut pool, &mut set);
    assert_eq!((wc.threshold, wc.pos_polarity), (-5, false));
    assert_eq!(pool[0].threshold, -5);
    assert_eq!(err, WEIGHT_ONE / 2);
    assert_eq!(total, WEIGHT_ONE);
    assert_eq!(vote, 0);
    // beta is one here: every weight stays
    assert_eq!(set.weight(0), WEIGHT_ONE / 4);
}

#[test]
fn stage_false_positive_rate_against_a_bound() {
    let set = four_samples();
    let wc = WeakClassifier { feature: pair_feature(), threshold: 4, pos_polarity: true };
    let sc = StrongClassifier { wcs: vec![wc], weights: vec![1] };
    // one of the two negatives is accepted
    assert!(false_positives_within(&sc, &set, 500));
    assert!(!false_positives_within(&sc, &set, 499));
}

#[test]
fn vote_falls_as_the_error_grows() {
    let total: u64 = 1000;
    let mut prev = vote_weight(1, total);
    assert!(prev > 0);
    for err in 2..total {
        let v = vote_weight(err, total);
        assert!(v <= prev);
        assert_eq!(v >= 0, 2 * err <= total);
        prev = v;
    }
    assert_eq!(vote_weight(500, total), 0);
}
