//! Viola-Jones style object detection: integral images, Haar-like
//! features, boosted weak classifiers, cascades and a sliding-window scan.
//!
//! Sample weights and classifier votes are exact integers: weights are
//! fixed-point fractions of `WEIGHT_ONE`, and votes are base-2 logarithms
//! with `VOTE_FRACTION_BITS` fractional bits.

pub mod cascade;
pub mod constants;
pub mod detection;
pub mod features;
pub mod geometry;
pub mod integral_image;
pub mod slicing;
pub mod strong_classifier;
pub mod training;
pub mod weak_classifier;

pub use cascade::{BuildError, Cascade, TestCounts};
pub use constants::{WH, WL};
pub use detection::{detect, detect_for_window};
pub use geometry::{Feature, Rectangle, Window, WindowSize};
pub use integral_image::{IntegralImage, IntegralImageTrait, WindowedIntegralImage};
pub use strong_classifier::StrongClassifier;
pub use training::{TrainingImages, WEIGHT_ONE};
pub use weak_classifier::{WeakClassifier, MAX_VOTE, VOTE_FRACTION_BITS};
