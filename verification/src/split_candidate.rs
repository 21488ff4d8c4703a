use vstd::prelude::*;

verus! {

/// The side of a binary split that one record falls on.
#[derive(PartialEq, Eq, Structural, Clone, Copy, Debug)]
pub enum SplitResult {
    Left,
    Right,
}

/// A randomly generated binary predicate over input records: the single
/// extension point of the tree algorithm. Users plug arbitrary feature
/// tests (axis-aligned thresholds, random hyperplanes, hashing splits, ...)
/// into induction and classification by implementing this capability.
pub trait SplitCandidate: Sized {
    type InputData;

    /// What `classify` answers, as a mathematical function of the candidate
    /// and the record.
    spec fn spec_classify(&self, data: &Self::InputData) -> SplitResult;

    /// Classify one record; deterministic given `self` and `data`.
    fn classify(&self, data: &Self::InputData) -> (r: SplitResult)
        ensures
            r == self.spec_classify(data),
    ;

    /// Produce one predicate instance from a word of caller-supplied
    /// randomness.
    fn generate(bits: u64) -> Self;
}

} // verus!
