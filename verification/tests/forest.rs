use random_forust::labels::LabelDistribution;
use random_forust::pair_split::PairSplit;
use random_forust::parameters::Parameters;
use random_forust::random_forest::RandomForest;
use random_forust::random_source::{Lcg64, RandomSource, ThreadRandom};
use random_forust::split_candidate::{SplitCandidate, SplitResult};
use random_forust::tree::{partition_in_place, Tree};

/// A deterministic source that hands out 0, 1, 2, ...: with `PairSplit` it
/// alternates between the two coordinate tests.
struct Counter(u64);

impl RandomSource for Counter {
    fn next_u64(&mut self) -> u64 {
        let v = self.0;
        self.0 += 1;
        v
    }
}

fn xor_dataset() -> Vec<((u8, u8), u8)> {
    vec![((1, 0), 1), ((0, 1), 1), ((0, 0), 0), ((1, 1), 0)]
}

fn xor_params() -> Parameters {
    Parameters {
        max_depth: 3,
        min_samples_per_leaf: 1,
        candidates_to_try_per_node: 4,
        samples_per_tree: 4,
        number_of_trees: 1,
    }
}

#[test]
fn xor_tree_classifies_exactly() {
    let mut data = xor_dataset();
    let params = xor_params();
    let mut rng = Counter(0);
    let t = Tree::<PairSplit>::learn(&params, &mut data, &mut rng);
    assert_eq!(t.classify(&(1, 0)), 1);
    assert_eq!(t.classify(&(0, 1)), 1);
    assert_eq!(t.classify(&(1, 1)), 0);
    assert_eq!(t.classify(&(0, 0)), 0);
}

#[test]
fn training_is_deterministic_with_seeded_source() {
    let params = xor_params();

    let mut d1 = xor_dataset();
    let mut r1 = Lcg64::from_seed(42);
    let t1 = Tree::<PairSplit>::learn(&params, &mut d1, &mut r1);

    let mut d2 = xor_dataset();
    let mut r2 = Lcg64::from_seed(42);
    let t2 = Tree::<PairSplit>::learn(&params, &mut d2, &mut r2);

    assert!(t1 == t2);
    assert_eq!(d1, d2);

    let mut d3 = xor_dataset();
    let mut r3 = Counter(0);
    let t3 = Tree::<PairSplit>::learn(&params, &mut d3, &mut r3);
    let mut d4 = xor_dataset();
    let mut r4 = Counter(0);
    let t4 = Tree::<PairSplit>::learn(&params, &mut d4, &mut r4);
    assert!(t3 == t4);
}

#[test]
fn partition_splits_and_permutes() {
    let mut data: Vec<((u8, u8), u8)> =
        vec![((1, 0), 1), ((0, 1), 1), ((0, 0), 0), ((1, 1), 0), ((0, 9), 3)];
    let before = data.clone();
    let mid = partition_in_place(&PairSplit::FirstIsZero, &mut data, 0, 5);
    assert_eq!(mid, 3);
    for i in 0..5 {
        let expected = if i < mid {
            SplitResult::Left
        } else {
            SplitResult::Right
        };
        assert!(PairSplit::FirstIsZero.classify(&data[i].0) == expected);
    }
    // same records, only permuted
    let mut sorted_before = before.clone();
    sorted_before.sort();
    let mut sorted_after = data.clone();
    sorted_after.sort();
    assert_eq!(sorted_before, sorted_after);
}

#[test]
fn partition_respects_range_bounds() {
    let mut data: Vec<((u8, u8), u8)> =
        vec![((1, 0), 1), ((0, 1), 1), ((0, 0), 0), ((1, 1), 0)];
    let mid = partition_in_place(&PairSplit::SecondIsZero, &mut data, 1, 3);
    // only positions 1 and 2 may move
    assert_eq!(data[0], ((1, 0), 1));
    assert_eq!(data[3], ((1, 1), 0));
    assert_eq!(mid, 2);
    assert_eq!(data[1], ((0, 0), 0));
    assert_eq!(data[2], ((0, 1), 1));
}

#[test]
fn from_labels_counts_and_normalizes() {
    let labels: Vec<u8> = vec![0, 1, 1, 2];
    let d = LabelDistribution::from_labels(&labels);
    assert_eq!(d.total(), 4);
    assert_eq!(d.mass(0), 1);
    assert_eq!(d.mass(1), 2);
    assert_eq!(d.mass(2), 1);
    assert_eq!(d.mass(3), 0);
    // the masses sum to exactly the denominator: normalization is exact
    let mut sum: u128 = 0;
    for l in 0..=255u8 {
        sum += d.mass(l);
    }
    assert_eq!(sum, d.total());
    assert_eq!(d.most_probable(), 1);
}

#[test]
fn combine_averages_and_stays_normalized() {
    let d1 = LabelDistribution::from_labels(&vec![0, 0]);
    let d2 = LabelDistribution::from_labels(&vec![1]);
    let c = d1.combine(&d2);
    // masses 2/2 and 1/1 average to 1/2 and 1/2 over denominator 4
    assert_eq!(c.total(), 4);
    assert_eq!(c.mass(0), 2);
    assert_eq!(c.mass(1), 2);
    let mut sum: u128 = 0;
    for l in 0..=255u8 {
        sum += c.mass(l);
    }
    assert_eq!(sum, c.total());
    // ties break to the smallest label
    assert_eq!(c.most_probable(), 0);
}

#[test]
fn combine_with_empty_is_identity() {
    let d = LabelDistribution::from_labels(&vec![5, 5, 7]);
    let c = LabelDistribution::new().combine(&d);
    assert_eq!(c.total(), 3);
    assert_eq!(c.mass(5), 2);
    assert_eq!(c.mass(7), 1);
    assert_eq!(c.most_probable(), 5);
    let d2 = LabelDistribution::from_labels(&vec![5, 5, 7]);
    let c2 = d2.combine(&LabelDistribution::new());
    assert_eq!(c2.total(), 3);
    assert_eq!(c2.mass(5), 2);
}

#[test]
fn empty_distribution_mode_is_zero() {
    let d = LabelDistribution::new();
    assert_eq!(d.total(), 0);
    assert_eq!(d.most_probable(), 0);
}

#[test]
fn sum_of_squared_masses_is_exact() {
    let d = LabelDistribution::from_labels(&vec![0, 1, 1, 2]);
    // 1^2 + 2^2 + 1^2
    assert_eq!(d.sum_squared_masses(), 6);
    let pure = LabelDistribution::from_labels(&vec![9, 9, 9]);
    // a pure distribution has zero impurity: total^2 - sum of squares = 0
    assert_eq!(pure.sum_squared_masses(), 9);
}

#[test]
fn stopping_bound_yields_single_leaf() {
    let mut data = xor_dataset();
    let params = Parameters {
        max_depth: 0,
        min_samples_per_leaf: 4,
        candidates_to_try_per_node: 4,
        samples_per_tree: 4,
        number_of_trees: 1,
    };
    let mut rng = Counter(0);
    let t = Tree::<PairSplit>::learn(&params, &mut data, &mut rng);
    assert!(t.is_leaf());
    // the single leaf carries the whole dataset's distribution: two labels
    // tie at mass 2/4 and the tie breaks to the smaller label
    assert_eq!(t.classify(&(1, 0)), 0);
    assert_eq!(t.classify(&(0, 0)), 0);
    let d = t.classify_confidence(&(1, 1));
    assert_eq!(d.total(), 4);
    assert_eq!(d.mass(0), 2);
    assert_eq!(d.mass(1), 2);
}

#[test]
fn singleton_forest_reproduces_its_tree() {
    let params = xor_params();
    let mut data = xor_dataset();
    let mut rng = Counter(0);
    let forest = RandomForest::<PairSplit>::learn(&params, &mut data, &mut rng);
    // an XOR-exact tree is trained whatever order the shuffle leaves the
    // records in, so the one-member forest must answer exactly as a tree
    // trained on the same dataset does
    let mut data2 = xor_dataset();
    let mut rng2 = Counter(0);
    let tree = Tree::<PairSplit>::learn(&params, &mut data2, &mut rng2);
    for q in [(1, 0), (0, 1), (0, 0), (1, 1)] {
        assert_eq!(forest.classify(&q), tree.classify(&q));
    }
}

#[test]
fn forest_on_constant_labels_returns_that_label() {
    let mut data: Vec<((u8, u8), u8)> =
        vec![((1, 0), 7), ((0, 1), 7), ((0, 0), 7), ((1, 1), 7)];
    let params = Parameters {
        max_depth: 0,
        min_samples_per_leaf: 2,
        candidates_to_try_per_node: 3,
        samples_per_tree: 3,
        number_of_trees: 5,
    };
    let mut rng = ThreadRandom::new();
    let forest = RandomForest::<PairSplit>::learn(&params, &mut data, &mut rng);
    for q in [(1, 0), (0, 1), (0, 0), (1, 1)] {
        assert_eq!(forest.classify(&q), 7);
    }
}

#[test]
fn lcg_is_deterministic() {
    let mut a = Lcg64::from_seed(7);
    let mut b = Lcg64::from_seed(7);
    for _ in 0..10 {
        assert_eq!(a.next_u64(), b.next_u64());
    }
    let mut c = Lcg64::from_seed(8);
    assert_ne!(a.next_u64(), c.next_u64());
}

#[test]
fn pair_split_generation_alternates_on_parity() {
    assert!(PairSplit::generate(0) == PairSplit::FirstIsZero);
    assert!(PairSplit::generate(1) == PairSplit::SecondIsZero);
    assert!(PairSplit::generate(2) == PairSplit::FirstIsZero);
    assert!(PairSplit::FirstIsZero.classify(&(0, 3)) == SplitResult::Left);
    assert!(PairSplit::FirstIsZero.classify(&(2, 0)) == SplitResult::Right);
    assert!(PairSplit::SecondIsZero.classify(&(2, 0)) == SplitResult::Left);
    assert!(PairSplit::SecondIsZero.classify(&(0, 3)) == SplitResult::Right);
}
