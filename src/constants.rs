use vstd::prelude::*;

verus! {

/// Width of the detection window.
pub const WL: u8 = 28;

/// Height of the detection window.
pub const WH: u8 = 32;

/// Number of negative training images to start with.
pub const NUM_NEG: usize = 5000;

/// Weak classifiers a stage may hold when its size is not fixed.
pub const MAX_STAGE_SIZE: usize = 200;

/// Stages a cascade may hold when its layout is not fixed.
pub const MAX_CASCADE_SIZE: usize = 32;

/// Largest acceptable false positive rate of one stage, in thousandths.
pub const MAX_FALSE_POS_PER_MILLE: u64 = 500;

/// Target false positive rate of the whole cascade, in thousandths.
pub const TARGET_FALSE_POS_PER_MILLE: u64 = 1;

} // verus!
