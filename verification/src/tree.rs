use vstd::prelude::*;

verus! {

use vstd::seq_lib::lemma_multiset_commutative;
use vstd::seq_lib::to_multiset_update;
use crate::labels::{Label, LabelDistribution, count_of, dist_mode};
use crate::parameters::{Parameters, MAX_RECORDS};
use crate::random_source::RandomSource;
use crate::scoring::frac_gt;
use crate::split_candidate::{SplitCandidate, SplitResult};

/// The labels of a sequence of records.
pub open spec fn labels_of<I>(s: Seq<(I, Label)>) -> Seq<Label> {
    s.map_values(|r: (I, Label)| r.1)
}

/// Relies on std's slice::swap: exchanges the elements at the two indices.
#[verifier::external_body]
pub(crate) fn swap_records<T>(data: &mut Vec<T>, i: usize, j: usize)
    requires
        i < old(data)@.len(),
        j < old(data)@.len(),
    ensures
        final(data)@ == old(data)@.update(i as int, old(data)@[j as int]).update(
            j as int,
            old(data)@[i as int],
        ),
{
    data.swap(i, j);
}

/// Swapping two positions inside a range leaves the range's multiset alone.
pub(crate) proof fn lemma_swap_subrange_multiset<T>(pre: Seq<T>, post: Seq<T>, lo: int, hi: int, x: int, y: int)
    requires
        0 <= lo <= x <= y < hi <= pre.len(),
        post == pre.update(x, pre[y]).update(y, pre[x]),
    ensures
        post.len() == pre.len(),
        post.subrange(lo, hi).to_multiset() == pre.subrange(lo, hi).to_multiset(),
{
    broadcast use vstd::multiset::group_multiset_axioms;

    let ps = pre.subrange(lo, hi);
    let qs = post.subrange(lo, hi);
    if x == y {
        assert(qs =~= ps);
    } else {
        let m1 = ps.update(x - lo, ps[y - lo]);
        assert(qs =~= m1.update(y - lo, ps[x - lo]));
        to_multiset_update(ps, x - lo, ps[y - lo]);
        to_multiset_update(m1, y - lo, ps[x - lo]);
        assert(m1[y - lo] == ps[y - lo]);
        assert(ps.to_multiset().contains(ps[x - lo])) by {
            vstd::seq_lib::to_multiset_contains(ps, ps[x - lo]);
            assert(ps.contains(ps[x - lo]));
        }
        assert(m1.to_multiset().contains(ps[y - lo])) by {
            vstd::seq_lib::to_multiset_contains(m1, ps[y - lo]);
            assert(m1[x - lo] == ps[y - lo]);
            assert(m1.contains(ps[y - lo]));
        }
        assert(qs.to_multiset() =~= ps.to_multiset());
    }
}

/// A whole sequence splits, as a multiset, at any interior point of a range
/// that covers it.
proof fn lemma_subrange_multiset_split<T>(s: Seq<T>, lo: int, m: int, hi: int)
    requires
        0 <= lo <= m <= hi <= s.len(),
    ensures
        s.subrange(lo, hi).to_multiset() == s.subrange(lo, m).to_multiset().add(
            s.subrange(m, hi).to_multiset(),
        ),
{
    assert(s.subrange(lo, hi) =~= s.subrange(lo, m) + s.subrange(m, hi));
    lemma_multiset_commutative(s.subrange(lo, m), s.subrange(m, hi));
}

/// If two sequences agree outside a range and their restrictions to the
/// range carry the same multiset, the whole sequences do.
proof fn lemma_frame_multiset<T>(pre: Seq<T>, post: Seq<T>, lo: int, hi: int)
    requires
        0 <= lo <= hi <= pre.len(),
        post.len() == pre.len(),
        forall|i: int| 0 <= i < lo ==> post[i] == pre[i],
        forall|i: int| hi <= i < pre.len() ==> post[i] == pre[i],
        post.subrange(lo, hi).to_multiset() == pre.subrange(lo, hi).to_multiset(),
    ensures
        post.to_multiset() == pre.to_multiset(),
{
    broadcast use vstd::multiset::group_multiset_axioms;

    let n = pre.len() as int;
    assert(pre =~= pre.subrange(0, lo) + pre.subrange(lo, hi) + pre.subrange(hi, n));
    assert(post =~= post.subrange(0, lo) + post.subrange(lo, hi) + post.subrange(hi, n));
    assert(post.subrange(0, lo) =~= pre.subrange(0, lo));
    assert(post.subrange(hi, n) =~= pre.subrange(hi, n));
    lemma_multiset_commutative(pre.subrange(0, lo) + pre.subrange(lo, hi), pre.subrange(hi, n));
    lemma_multiset_commutative(pre.subrange(0, lo), pre.subrange(lo, hi));
    lemma_multiset_commutative(post.subrange(0, lo) + post.subrange(lo, hi), post.subrange(hi, n));
    lemma_multiset_commutative(post.subrange(0, lo), post.subrange(lo, hi));
    assert(post.to_multiset() =~= pre.to_multiset());
}

/// Whatever holds of every element of a sequence holds of every element of
/// any rearrangement of it.
proof fn lemma_multiset_all<T>(s1: Seq<T>, s2: Seq<T>, p: spec_fn(T) -> bool)
    requires
        s1.to_multiset() == s2.to_multiset(),
        forall|i: int| 0 <= i < s1.len() ==> p(s1[i]),
    ensures
        forall|i: int| 0 <= i < s2.len() ==> p(s2[i]),
{
    assert forall|i: int| 0 <= i < s2.len() implies p(s2[i]) by {
        vstd::seq_lib::to_multiset_contains(s2, s2[i]);
        assert(s2.contains(s2[i]));
        vstd::seq_lib::to_multiset_contains(s1, s2[i]);
        assert(s1.contains(s2[i]));
        let j = choose|j: int| 0 <= j < s1.len() && s1[j] == s2[i];
        assert(p(s1[j]));
    }
}

/// Partition the records of `data[lo..hi]` in place by the candidate `s`:
/// a single left-to-right scan with a write cursor that swaps every record
/// classified `Left` into the next cursor position. Returns the split
/// index: afterwards every record in `data[lo..mid]` classifies `Left`,
/// every record in `data[mid..hi]` classifies `Right`, the range holds the
/// same records as before (a permutation only), and nothing outside the
/// range moves.
pub fn partition_in_place<S: SplitCandidate>(
    s: &S,
    data: &mut Vec<(S::InputData, Label)>,
    lo: usize,
    hi: usize,
) -> (mid: usize)
    requires
        lo <= hi <= old(data)@.len(),
    ensures
        lo <= mid <= hi,
        final(data)@.len() == old(data)@.len(),
        forall|i: int| 0 <= i < lo ==> final(data)@[i] == old(data)@[i],
        forall|i: int| hi <= i < old(data)@.len() ==> final(data)@[i] == old(data)@[i],
        forall|i: int|
            lo <= i < mid ==> s.spec_classify(&(#[trigger] final(data)@[i]).0)
                == SplitResult::Left,
        forall|i: int|
            mid <= i < hi ==> s.spec_classify(&(#[trigger] final(data)@[i]).0)
                == SplitResult::Right,
        final(data)@.subrange(lo as int, hi as int).to_multiset() == old(data)@.subrange(
            lo as int,
            hi as int,
        ).to_multiset(),
{
    let ghost orig = old(data)@;
    let mut mid: usize = lo;
    let mut i: usize = lo;
    while i < hi
        invariant
            lo <= mid <= i <= hi <= data@.len(),
            data@.len() == orig.len(),
            forall|j: int| 0 <= j < lo ==> data@[j] == orig[j],
            forall|j: int| hi <= j < orig.len() ==> data@[j] == orig[j],
            forall|j: int|
                lo <= j < mid ==> s.spec_classify(&(#[trigger] data@[j]).0) == SplitResult::Left,
            forall|j: int|
                mid <= j < i ==> s.spec_classify(&(#[trigger] data@[j]).0) == SplitResult::Right,
            data@.subrange(lo as int, hi as int).to_multiset() == orig.subrange(
                lo as int,
                hi as int,
            ).to_multiset(),
        decreases hi - i,
    {
        let r = s.classify(&data[i].0);
        if r == SplitResult::Left {
            let ghost pre = data@;
            swap_records(data, mid, i);
            proof {
                lemma_swap_subrange_multiset(pre, data@, lo as int, hi as int, mid as int, i as int);
            }
            mid = mid + 1;
        }
        i = i + 1;
    }
    mid
}

/// Collect the label distribution of the records in `data[lo..hi]`.
fn get_label_distribution<I>(data: &Vec<(I, Label)>, lo: usize, hi: usize) -> (d: LabelDistribution)
    requires
        lo <= hi <= data@.len(),
    ensures
        d.wf(),
        d@.total == hi - lo,
        forall|l: Label|
            d@.masses[l as int] == count_of(
                labels_of(data@.subrange(lo as int, hi as int)),
                l,
            ),
{
    let mut labels: Vec<Label> = Vec::new();
    let mut i: usize = lo;
    while i < hi
        invariant
            lo <= i <= hi <= data@.len(),
            labels@.len() == i - lo,
            forall|j: int| 0 <= j < i - lo ==> labels@[j] == data@[lo + j].1,
        decreases hi - i,
    {
        labels.push(data[i].1);
        i = i + 1;
    }
    proof {
        assert(labels@ =~= labels_of(data@.subrange(lo as int, hi as int)));
    }
    LabelDistribution::from_labels(&labels)
}

/// Evaluate `candidates_to_try_per_node` randomly generated candidates on
/// `data[lo..hi]` and return the one whose partition scored the strictly
/// highest exact information gain seen so far; the first generated
/// candidate is the initial best regardless of its score, and only a
/// strictly positive gain (a score above the no-split baseline) ever
/// replaces it. The range is left permuted by the trial partitions.
pub fn best_candidate<S: SplitCandidate, R: RandomSource>(
    params: &Parameters,
    data: &mut Vec<(S::InputData, Label)>,
    lo: usize,
    hi: usize,
    rng: &mut R,
) -> (c: S)
    requires
        lo < hi <= old(data)@.len(),
        hi - lo <= MAX_RECORDS,
        params.candidates_to_try_per_node >= 1,
    ensures
        final(data)@.len() == old(data)@.len(),
        forall|i: int| 0 <= i < lo ==> final(data)@[i] == old(data)@[i],
        forall|i: int| hi <= i < old(data)@.len() ==> final(data)@[i] == old(data)@[i],
        final(data)@.subrange(lo as int, hi as int).to_multiset() == old(data)@.subrange(
            lo as int,
            hi as int,
        ).to_multiset(),
{
    let ghost orig = old(data)@;
    let n = hi - lo;
    let dist_whole = get_label_distribution(data, lo, hi);
    let ssw = dist_whole.sum_squared_masses();
    proof {
        assert(256 * (n as int) * (n as int) <= 0x40000000000000000000) by (nonlinear_arith)
            requires
                0 <= n <= 0x800000,
        ;
    }
    let mut best = S::generate(rng.next_u64());
    let mut best_num: u128 = ssw;
    let mut best_den: u128 = n as u128;
    let mut t: usize = 0;
    while t < params.candidates_to_try_per_node
        invariant
            lo < hi <= data@.len(),
            hi - lo == n <= MAX_RECORDS,
            data@.len() == orig.len(),
            forall|j: int| 0 <= j < lo ==> data@[j] == orig[j],
            forall|j: int| hi <= j < orig.len() ==> data@[j] == orig[j],
            data@.subrange(lo as int, hi as int).to_multiset() == orig.subrange(
                lo as int,
                hi as int,
            ).to_multiset(),
            1 <= best_den,
            best_num as int <= 0x40000000000000000000,
            best_den as int <= 0x400000000000,
        decreases params.candidates_to_try_per_node - t,
    {
        let cand = S::generate(rng.next_u64());
        let mid = partition_in_place(&cand, data, lo, hi);
        proof {
            assert(data@.subrange(lo as int, hi as int).to_multiset() == orig.subrange(
                lo as int,
                hi as int,
            ).to_multiset());
        }
        let a = mid - lo;
        let b = hi - mid;
        if a > 0 && b > 0 {
            let dl = get_label_distribution(data, lo, mid);
            let dr = get_label_distribution(data, mid, hi);
            let ssl = dl.sum_squared_masses();
            let ssr = dr.sum_squared_masses();
            proof {
                let ai = a as int;
                let bi = b as int;
                assert(256 * ai * ai <= 0x40000000000000 && 256 * bi * bi <= 0x40000000000000)
                    by (nonlinear_arith)
                    requires
                        0 <= ai <= 0x800000,
                        0 <= bi <= 0x800000,
                ;
                assert(bi * (ssl as int) <= 0x20000000000000000000 && ai * (ssr as int)
                    <= 0x20000000000000000000 && ai * bi <= 0x400000000000 && 1 <= ai * bi)
                    by (nonlinear_arith)
                    requires
                        1 <= ai <= 0x800000,
                        1 <= bi <= 0x800000,
                        0 <= ssl as int <= 0x40000000000000,
                        0 <= ssr as int <= 0x40000000000000,
                ;
            }
            let num = (b as u128) * ssl + (a as u128) * ssr;
            let den = (a as u128) * (b as u128);
            proof {
                assert((num as int) * (best_den as int) <= u128::MAX as int && (best_num as int) * (
                den as int) <= u128::MAX as int) by (nonlinear_arith)
                    requires
                        0 <= num as int <= 0x40000000000000000000,
                        0 <= den as int <= 0x400000000000,
                        0 <= best_num as int <= 0x40000000000000000000,
                        0 <= best_den as int <= 0x400000000000,
                ;
            }
            if frac_gt(num, den, best_num, best_den) {
                best = cand;
                best_num = num;
                best_den = den;
            }
        }
        t = t + 1;
    }
    best
}

/// One node of a trained tree: an inner node that holds the selected split
/// candidate and owns its two subtrees, or a leaf that holds the label
/// distribution of the records that reached it.
#[derive(PartialEq)]
pub enum TreeNode<S: SplitCandidate> {
    Split { s: S, left: Box<TreeNode<S>>, right: Box<TreeNode<S>> },
    Leaf { dist: LabelDistribution },
}

impl<S: SplitCandidate> TreeNode<S> {
    /// Every leaf distribution in the subtree is well formed.
    pub open spec fn wf(self) -> bool
        decreases self,
    {
        match self {
            TreeNode::Leaf { dist } => dist.wf(),
            TreeNode::Split { s, left, right } => left.wf() && right.wf(),
        }
    }

    /// The leaf distribution a query is routed to: descend left or right at
    /// each inner node by the node's candidate.
    pub open spec fn leaf_for(self, data: S::InputData) -> LabelDistribution
        decreases self,
    {
        match self {
            TreeNode::Leaf { dist } => dist,
            TreeNode::Split { s, left, right } => {
                if s.spec_classify(&data) == SplitResult::Left {
                    left.leaf_for(data)
                } else {
                    right.leaf_for(data)
                }
            },
        }
    }

    /// The node is consistent with the records it was built over: a leaf
    /// carries exactly their label counts, and an inner node admits a split
    /// index at which its candidate separates them into a `Left` prefix and
    /// a `Right` suffix, with each subtree consistent with its own side.
    pub open spec fn consistent_with(self, records: Seq<(S::InputData, Label)>) -> bool
        decreases self,
    {
        match self {
            TreeNode::Leaf { dist } => dist@.total == records.len() && (forall|l: Label|
                dist@.masses[l as int] == count_of(labels_of(records), l)),
            TreeNode::Split { s, left, right } => exists|m: int|
                #![trigger records.subrange(0, m)]
                0 <= m <= records.len() && (forall|i: int|
                    0 <= i < m ==> s.spec_classify(&(#[trigger] records[i]).0)
                        == SplitResult::Left) && (forall|i: int|
                    m <= i < records.len() ==> s.spec_classify(&(#[trigger] records[i]).0)
                        == SplitResult::Right) && left.consistent_with(records.subrange(0, m))
                    && right.consistent_with(records.subrange(m, records.len() as int)),
        }
    }

    /// Route a query to its leaf and hand back that leaf's distribution.
    pub fn classify(&self, data: &S::InputData) -> (r: &LabelDistribution)
        ensures
            *r == self.leaf_for(*data),
            self.wf() ==> r.wf(),
        decreases *self,
    {
        match self {
            TreeNode::Leaf { dist } => dist,
            TreeNode::Split { s, left, right } => {
                match s.classify(data) {
                    SplitResult::Left => left.classify(data),
                    SplitResult::Right => right.classify(data),
                }
            },
        }
    }
}

/// Recursively build a tree over `data[lo..hi]`. If the range holds at most
/// `min_samples_per_leaf` records, it becomes a leaf carrying its exact
/// label distribution. Otherwise the best of the randomly generated
/// candidates is selected, the range is partitioned by it once more, and
/// the two sides are built independently; a degenerate partition (all
/// records on one side) also closes the node as a leaf. Afterwards the
/// range holds a permutation of the records it held before, and nothing
/// outside it has moved.
pub fn build_tree<S: SplitCandidate, R: RandomSource>(
    params: &Parameters,
    data: &mut Vec<(S::InputData, Label)>,
    lo: usize,
    hi: usize,
    rng: &mut R,
) -> (t: TreeNode<S>)
    requires
        lo <= hi <= old(data)@.len(),
        hi - lo <= MAX_RECORDS,
        params.candidates_to_try_per_node >= 1,
    ensures
        final(data)@.len() == old(data)@.len(),
        forall|i: int| 0 <= i < lo ==> final(data)@[i] == old(data)@[i],
        forall|i: int| hi <= i < old(data)@.len() ==> final(data)@[i] == old(data)@[i],
        final(data)@.subrange(lo as int, hi as int).to_multiset() == old(data)@.subrange(
            lo as int,
            hi as int,
        ).to_multiset(),
        t.wf(),
        t.consistent_with(final(data)@.subrange(lo as int, hi as int)),
        hi - lo <= params.min_samples_per_leaf ==> final(data)@ == old(data)@ && (t matches
        TreeNode::Leaf { dist } && dist@.total == hi - lo && (forall|l: Label|
            dist@.masses[l as int] == count_of(
                labels_of(old(data)@.subrange(lo as int, hi as int)),
                l,
            ))),
    decreases hi - lo,
{
    let n = hi - lo;
    if n <= params.min_samples_per_leaf {
        let dist = get_label_distribution(data, lo, hi);
        TreeNode::Leaf { dist }
    } else {
        let c: S = best_candidate(params, data, lo, hi, rng);
        let mid = partition_in_place(&c, data, lo, hi);
        proof {
            assert(data@.subrange(lo as int, hi as int).to_multiset() == old(data)@.subrange(
                lo as int,
                hi as int,
            ).to_multiset());
        }
        if mid == lo || mid == hi {
            // a degenerate partition cannot shrink either side: close the
            // node as a leaf rather than recurse without progress
            let dist = get_label_distribution(data, lo, hi);
            TreeNode::Leaf { dist }
        } else {
            let ghost s1 = data@;
            let left = build_tree(params, data, lo, mid, rng);
            let ghost s2 = data@;
            let right = build_tree(params, data, mid, hi, rng);
            let ghost s3 = data@;
            let ghost gleft = left;
            let ghost gright = right;
            let node = TreeNode::Split { s: c, left: Box::new(left), right: Box::new(right) };
            proof {
                assert(s2.subrange(mid as int, hi as int) =~= s1.subrange(mid as int, hi as int));
                assert(s2.subrange(lo as int, mid as int).to_multiset() == s1.subrange(
                    lo as int,
                    mid as int,
                ).to_multiset());
                assert(s3.subrange(lo as int, mid as int) =~= s2.subrange(lo as int, mid as int));
                lemma_subrange_multiset_split(s1, lo as int, mid as int, hi as int);
                lemma_subrange_multiset_split(s3, lo as int, mid as int, hi as int);
                assert(s3.subrange(lo as int, hi as int).to_multiset() == s1.subrange(
                    lo as int,
                    hi as int,
                ).to_multiset());
                // the returned node is consistent with the final arrangement
                let finr = s3.subrange(lo as int, hi as int);
                let m: int = mid as int - lo as int;
                assert(finr.subrange(0, m) =~= s3.subrange(lo as int, mid as int));
                assert(finr.subrange(m, finr.len() as int) =~= s3.subrange(mid as int, hi as int));
                let p_left = |r: (S::InputData, Label)| c.spec_classify(&r.0) == SplitResult::Left;
                let p_right = |r: (S::InputData, Label)| c.spec_classify(&r.0)
                    == SplitResult::Right;
                assert forall|i: int| 0 <= i < m implies p_left(
                    s1.subrange(lo as int, mid as int)[i],
                ) by {
                    assert(s1.subrange(lo as int, mid as int)[i] == s1[lo + i]);
                }
                assert forall|i: int| 0 <= i < hi - mid implies p_right(
                    s1.subrange(mid as int, hi as int)[i],
                ) by {
                    assert(s1.subrange(mid as int, hi as int)[i] == s1[mid + i]);
                }
                lemma_multiset_all(
                    s1.subrange(lo as int, mid as int),
                    s3.subrange(lo as int, mid as int),
                    p_left,
                );
                lemma_multiset_all(
                    s1.subrange(mid as int, hi as int),
                    s3.subrange(mid as int, hi as int),
                    p_right,
                );
                assert forall|i: int| 0 <= i < m implies c.spec_classify(
                    &(#[trigger] finr[i]).0,
                ) == SplitResult::Left by {
                    assert(finr[i] == s3.subrange(lo as int, mid as int)[i]);
                    assert(p_left(s3.subrange(lo as int, mid as int)[i]));
                }
                assert forall|i: int| m <= i < finr.len() implies c.spec_classify(
                    &(#[trigger] finr[i]).0,
                ) == SplitResult::Right by {
                    assert(finr[i] == s3.subrange(mid as int, hi as int)[i - m]);
                    assert(p_right(s3.subrange(mid as int, hi as int)[i - m]));
                }
                assert(gleft.consistent_with(finr.subrange(0, m)));
                assert(gright.consistent_with(finr.subrange(m, finr.len() as int)));
                assert(node.consistent_with(finr));
            }
            node
        }
    }
}

/// A well-formed tree routes every query to a well-formed distribution.
pub proof fn lemma_leaf_for_wf<S: SplitCandidate>(t: TreeNode<S>, q: S::InputData)
    requires
        t.wf(),
    ensures
        t.leaf_for(q).wf(),
    decreases t,
{
    match t {
        TreeNode::Leaf { dist } => {},
        TreeNode::Split { s, left, right } => {
            if s.spec_classify(&q) == SplitResult::Left {
                lemma_leaf_for_wf(*left, q);
            } else {
                lemma_leaf_for_wf(*right, q);
            }
        },
    }
}

/// A trained decision tree: one root node that owns the whole structure,
/// immutable after `learn` returns.
#[derive(PartialEq)]
pub struct Tree<S: SplitCandidate> {
    root: Box<TreeNode<S>>,
}

impl<S: SplitCandidate> Tree<S> {
    /// Every leaf distribution in the tree is well formed.
    pub closed spec fn wf(self) -> bool {
        self.root.wf()
    }

    /// The leaf distribution that a query is routed to.
    pub closed spec fn confidence_for(self, data: S::InputData) -> LabelDistribution {
        self.root.leaf_for(data)
    }

    /// Whether the tree is a single leaf with no splits.
    pub closed spec fn is_single_leaf(self) -> bool {
        *self.root matches TreeNode::Leaf { .. }
    }

    /// The tree is consistent with the records it was trained over: every
    /// leaf carries exactly the label counts of the records routed to it,
    /// and every inner node's candidate separates its records into the
    /// sides its subtrees were built from.
    pub closed spec fn consistent_with(self, records: Seq<(S::InputData, Label)>) -> bool {
        self.root.consistent_with(records)
    }

    /// The label a tree assigns to a query: the most probable label of the
    /// leaf distribution the query is routed to.
    pub open spec fn decision_for(self, data: S::InputData) -> Label {
        dist_mode(self.confidence_for(data)@)
    }

    /// Train a tree on `data[lo..hi]`, leaving those records permuted.
    pub(crate) fn learn_in_range<R: RandomSource>(
        params: &Parameters,
        data: &mut Vec<(S::InputData, Label)>,
        lo: usize,
        hi: usize,
        rng: &mut R,
    ) -> (t: Tree<S>)
        requires
            lo <= hi <= old(data)@.len(),
            hi - lo <= MAX_RECORDS,
            params.candidates_to_try_per_node >= 1,
        ensures
            t.wf(),
            t.consistent_with(final(data)@.subrange(lo as int, hi as int)),
            final(data)@.len() == old(data)@.len(),
            forall|i: int| 0 <= i < lo ==> final(data)@[i] == old(data)@[i],
            forall|i: int| hi <= i < old(data)@.len() ==> final(data)@[i] == old(data)@[i],
            final(data)@.to_multiset() == old(data)@.to_multiset(),
            hi - lo <= params.min_samples_per_leaf ==> final(data)@ == old(data)@
                && t.is_single_leaf() && (forall|q: S::InputData|
                (#[trigger] t.confidence_for(q))@.total == hi - lo && (forall|l: Label|
                    t.confidence_for(q)@.masses[l as int] == count_of(
                        labels_of(old(data)@.subrange(lo as int, hi as int)),
                        l,
                    ))),
    {
        let ghost orig = data@;
        let root = build_tree(params, data, lo, hi, rng);
        proof {
            lemma_frame_multiset(orig, data@, lo as int, hi as int);
        }
        Tree { root: Box::new(root) }
    }

    /// Train a tree on the whole record sequence, which is left permuted.
    pub fn learn<R: RandomSource>(
        params: &Parameters,
        data: &mut Vec<(S::InputData, Label)>,
        rng: &mut R,
    ) -> (t: Tree<S>)
        requires
            old(data)@.len() <= MAX_RECORDS,
            params.candidates_to_try_per_node >= 1,
        ensures
            t.wf(),
            t.consistent_with(final(data)@),
            final(data)@.len() == old(data)@.len(),
            final(data)@.to_multiset() == old(data)@.to_multiset(),
            old(data)@.len() <= params.min_samples_per_leaf ==> final(data)@ == old(data)@
                && t.is_single_leaf() && (forall|q: S::InputData|
                (#[trigger] t.confidence_for(q))@.total == old(data)@.len() && (forall|l: Label|
                    t.confidence_for(q)@.masses[l as int] == count_of(labels_of(old(data)@), l))),
    {
        let n = data.len();
        let t = Tree::<S>::learn_in_range(params, data, 0, n, rng);
        proof {
            assert(old(data)@.subrange(0, n as int) =~= old(data)@);
            assert(data@.subrange(0, n as int) =~= data@);
        }
        t
    }

    /// Whether the tree is a single leaf with no splits.
    pub fn is_leaf(&self) -> (b: bool)
        ensures
            b == self.is_single_leaf(),
    {
        match &*self.root {
            TreeNode::Leaf { .. } => true,
            TreeNode::Split { .. } => false,
        }
    }

    /// The label assigned to a query: route it to a leaf and take that
    /// leaf's most probable label.
    pub fn classify(&self, data: &S::InputData) -> (r: Label)
        requires
            self.wf(),
        ensures
            r == self.decision_for(*data),
    {
        self.root.classify(data).most_probable()
    }

    /// The full leaf distribution a query is routed to, for
    /// confidence-aware callers such as the forest aggregator.
    pub fn classify_confidence(&self, data: &S::InputData) -> (r: &LabelDistribution)
        requires
            self.wf(),
        ensures
            *r == self.confidence_for(*data),
            r.wf(),
    {
        self.root.classify(data)
    }
}

/// A well-formed tree's confidence for every query is well formed.
pub proof fn lemma_confidence_wf<S: SplitCandidate>(t: Tree<S>, q: S::InputData)
    requires
        t.wf(),
    ensures
        t.confidence_for(q).wf(),
{
    lemma_leaf_for_wf(*t.root, q);
}

} // verus!
