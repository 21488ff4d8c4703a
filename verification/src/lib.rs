//! Binary decision trees and bagged ensembles (random forests) over arbitrary
//! input records, generic over a pluggable family of randomly generated split
//! predicates. Label distributions are held as exact rational masses, and
//! splits are scored by an exact, integer-scaled Gini impurity, so every
//! statement about training and classification is precise, with no rounding.

pub mod labels;
pub mod parameters;
pub mod pair_split;
pub mod random_forest;
pub mod random_source;
pub mod scoring;
pub mod split_candidate;
pub mod tree;
