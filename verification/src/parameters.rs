use vstd::prelude::*;

verus! {

/// The largest record count that one tree may be trained on: the split
/// scoring multiplies a per-side sum of squared label counts (at most
/// `256 * n^2`) by two side sizes, and every such product must fit in
/// `u128`. `n <= 2^23` keeps all of them below `2^127`.
pub const MAX_RECORDS: usize = 8388608;

/// Configuration for tree induction and forest training.
pub struct Parameters {
    /// Recognized but reserved: induction in this crate stops on
    /// `min_samples_per_leaf` (and on degenerate partitions) alone, and
    /// never consults this field.
    pub max_depth: usize,
    /// Stop recursing and emit a leaf once a node holds at most this many
    /// records.
    pub min_samples_per_leaf: usize,
    /// How many randomly generated candidates are scored at each split
    /// decision.
    pub candidates_to_try_per_node: usize,
    /// How many records (a prefix of the freshly shuffled data) each
    /// ensemble member is trained on.
    pub samples_per_tree: usize,
    /// How many trees the ensemble trains.
    pub number_of_trees: usize,
}

impl Default for Parameters {
    /// All options start at zero.
    fn default() -> (p: Parameters)
        ensures
            p.max_depth == 0,
            p.min_samples_per_leaf == 0,
            p.candidates_to_try_per_node == 0,
            p.samples_per_tree == 0,
            p.number_of_trees == 0,
    {
        Parameters {
            max_depth: 0,
            min_samples_per_leaf: 0,
            candidates_to_try_per_node: 0,
            samples_per_tree: 0,
            number_of_trees: 0,
        }
    }
}

} // verus!
