use vstd::prelude::*;

verus! {

use crate::split_candidate::{SplitCandidate, SplitResult};

/// A ready-made candidate family over records that are pairs of bytes: each
/// candidate tests whether one chosen coordinate is zero. Small enough to
/// enumerate, it is handy for seeded, reproducible experiments.
#[derive(PartialEq, Eq, Structural, Clone, Copy, Debug)]
pub enum PairSplit {
    FirstIsZero,
    SecondIsZero,
}

impl SplitCandidate for PairSplit {
    type InputData = (u8, u8);

    open spec fn spec_classify(&self, data: &(u8, u8)) -> SplitResult {
        let zero = match *self {
            PairSplit::FirstIsZero => data.0 == 0,
            PairSplit::SecondIsZero => data.1 == 0,
        };
        if zero {
            SplitResult::Left
        } else {
            SplitResult::Right
        }
    }

    fn classify(&self, data: &(u8, u8)) -> (r: SplitResult) {
        let zero = match *self {
            PairSplit::FirstIsZero => data.0 == 0,
            PairSplit::SecondIsZero => data.1 == 0,
        };
        if zero {
            SplitResult::Left
        } else {
            SplitResult::Right
        }
    }

    /// Alternate between the two coordinates on the parity of the random
    /// word.
    fn generate(bits: u64) -> Self {
        if bits % 2 == 0 {
            PairSplit::FirstIsZero
        } else {
            PairSplit::SecondIsZero
        }
    }
}

} // verus!
