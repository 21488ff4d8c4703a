use vstd::prelude::*;

verus! {

use vstd::pervasive::VecAdditionalExecFns;
use vstd::multiset::Multiset;
use vstd::seq_lib::lemma_multiset_commutative;
use crate::labels::{
    DistView,
    Label,
    dist_wf,
    lemma_mass_le_sum,
    lemma_mode_upto,
    mode_upto,
};
use crate::parameters::{Parameters, MAX_RECORDS};
use crate::random_source::RandomSource;
use crate::split_candidate::SplitCandidate;
use crate::tree::{lemma_confidence_wf, lemma_swap_subrange_multiset, swap_records, Tree};

/// The leaf distributions that a query is routed to, one per tree.
pub open spec fn leaf_views<S: SplitCandidate>(trees: Seq<Tree<S>>, q: S::InputData) -> Seq<
    DistView,
> {
    Seq::new(trees.len(), |i: int| trees[i].confidence_for(q)@)
}

/// One member's contribution to the ensemble denominator: an empty member
/// contributes no factor.
pub open spec fn ens_den_step(d: int, v: DistView) -> int {
    if v.total == 0 {
        d
    } else {
        d * (v.total as int)
    }
}

/// One member's contribution to an ensemble mass: rescale the running sum
/// to the new common denominator and add the member's own mass, scaled by
/// the old one; an empty member contributes nothing.
pub open spec fn ens_mass_step(m: int, d: int, v: DistView, l: int) -> int {
    if v.total == 0 {
        m
    } else {
        m * (v.total as int) + (v.masses[l] as int) * d
    }
}

/// The common denominator of the exact ensemble sum over the first `k`
/// members: the product of the nonempty members' totals.
pub open spec fn ens_den(s: Seq<DistView>, k: int) -> int
    decreases k,
{
    if k <= 0 {
        1
    } else {
        ens_den_step(ens_den(s, k - 1), s[k - 1])
    }
}

/// The mass of label `l` in the exact ensemble sum of the first `k`
/// members: `ens_mass / ens_den` is the sum of the members' probabilities
/// of `l`, so the aggregate is the members' distributions summed once over
/// a common denominator (the uniform average, once normalized), and it
/// does not depend on the members' order (`lemma_aggregate_order_independent`).
pub open spec fn ens_mass(s: Seq<DistView>, k: int, l: int) -> int
    decreases k,
{
    if k <= 0 {
        0
    } else {
        ens_mass_step(ens_mass(s, k - 1, l), ens_den(s, k - 1), s[k - 1], l)
    }
}

/// Whether the exact ensemble sum over every prefix of the first `k`
/// members stays inside `u128`: each prefix's masses are bounded by the
/// member count times the denominator.
pub open spec fn ens_fits(s: Seq<DistView>, k: int) -> bool
    decreases k,
{
    if k <= 0 {
        true
    } else {
        ens_fits(s, k - 1) && k * ens_den(s, k) <= u128::MAX as int
    }
}

/// The 256 ensemble masses as machine words (exact whenever the sum fits).
pub open spec fn ens_masses(s: Seq<DistView>, k: int) -> Seq<u128> {
    Seq::new(256, |l: int| ens_mass(s, k, l) as u128)
}

/// The tree was trained on some `spt` records drawn (without replacement)
/// from the pool: its whole structure is consistent with that sample.
pub open spec fn trained_on_sample<S: SplitCandidate>(
    t: Tree<S>,
    spt: int,
    pool: Multiset<(S::InputData, Label)>,
) -> bool {
    exists|s: Seq<(S::InputData, Label)>|
        s.len() == spt && (#[trigger] s.to_multiset()).subset_of(pool) && t.consistent_with(s)
}

/// The label an ensemble assigns to a query: the smallest label of maximal
/// mass in the exact sum of the members' leaf distributions, so each member
/// contributes its whole leaf confidence with equal weight, not merely its
/// vote.
pub open spec fn forest_decision<S: SplitCandidate>(trees: Seq<Tree<S>>, q: S::InputData) -> Label {
    mode_upto(ens_masses(leaf_views(trees, q), trees.len() as int), 256).0 as Label
}

proof fn lemma_ens_fits_prefix(s: Seq<DistView>, j: int, k: int)
    requires
        0 <= j <= k,
        ens_fits(s, k),
    ensures
        ens_fits(s, j),
    decreases k,
{
    if j < k {
        lemma_ens_fits_prefix(s, j, k - 1);
    }
}

/// The ensemble sum is nonnegative and bounded by the member count times
/// the common denominator, which is at least one.
proof fn lemma_ens_bounds(s: Seq<DistView>, k: int, l: int)
    requires
        0 <= k,
        0 <= l < 256,
        forall|j: int| 0 <= j < k ==> dist_wf(#[trigger] s[j]),
    ensures
        1 <= ens_den(s, k),
        0 <= ens_mass(s, k, l) <= k * ens_den(s, k),
    decreases k,
{
    if k > 0 {
        lemma_ens_bounds(s, k - 1, l);
        let d = ens_den(s, k - 1);
        let m = ens_mass(s, k - 1, l);
        if s[k - 1].total == 0 {
            assert((k - 1) * d <= k * d) by (nonlinear_arith)
                requires
                    d >= 0,
            ;
        } else {
            let t = s[k - 1].total as int;
            let ml = s[k - 1].masses[l] as int;
            lemma_mass_le_sum(s[k - 1].masses, l, 256);
            assert(ml <= t);
            assert(1 <= d * t) by (nonlinear_arith)
                requires
                    1 <= d,
                    1 <= t,
            ;
            assert(m * t <= ((k - 1) * d) * t && 0 <= m * t) by (nonlinear_arith)
                requires
                    0 <= m,
                    m <= (k - 1) * d,
                    1 <= t,
            ;
            assert(((k - 1) * d) * t == (k - 1) * (d * t)) by (nonlinear_arith);
            assert(0 <= ml * d && ml * d <= t * d) by (nonlinear_arith)
                requires
                    0 <= ml,
                    ml <= t,
                    0 <= d,
            ;
            assert(t * d == d * t) by (nonlinear_arith);
            assert((k - 1) * (d * t) + d * t == k * (d * t)) by (nonlinear_arith);
        }
    }
}

/// The ensemble sum reads only the first `k` members.
proof fn lemma_ens_ext(s1: Seq<DistView>, s2: Seq<DistView>, k: int)
    requires
        forall|i: int| 0 <= i < k ==> s1[i] == s2[i],
    ensures
        ens_den(s1, k) == ens_den(s2, k),
        forall|l: int| ens_mass(s1, k, l) == ens_mass(s2, k, l),
    decreases k,
{
    if k > 0 {
        lemma_ens_ext(s1, s2, k - 1);
        assert forall|l: int| ens_mass(s1, k, l) == ens_mass(s2, k, l) by {
            assert(ens_mass(s1, k - 1, l) == ens_mass(s2, k - 1, l));
        }
    }
}

/// Two member steps commute: absorbing `x` then `y` into the running sum
/// gives the same masses and denominator as `y` then `x`.
proof fn lemma_step_commute(m: int, d: int, x: DistView, y: DistView, l: int)
    ensures
        ens_den_step(ens_den_step(d, x), y) == ens_den_step(ens_den_step(d, y), x),
        ens_mass_step(ens_mass_step(m, d, x, l), ens_den_step(d, x), y, l) == ens_mass_step(
            ens_mass_step(m, d, y, l),
            ens_den_step(d, y),
            x,
            l,
        ),
{
    if x.total != 0 && y.total != 0 {
        let tx = x.total as int;
        let ty = y.total as int;
        let mx = x.masses[l] as int;
        let my = y.masses[l] as int;
        assert((d * tx) * ty == (d * ty) * tx) by (nonlinear_arith);
        assert((m * tx + mx * d) * ty == (m * tx) * ty + (mx * d) * ty) by (nonlinear_arith);
        assert((m * ty + my * d) * tx == (m * ty) * tx + (my * d) * tx) by (nonlinear_arith);
        assert((m * tx) * ty == (m * ty) * tx) by (nonlinear_arith);
        assert((mx * d) * ty == mx * (d * ty)) by (nonlinear_arith);
        assert(my * (d * tx) == (my * d) * tx) by (nonlinear_arith);
    }
}

/// Removing member `i` and absorbing it last gives the same ensemble sum.
proof fn lemma_ens_extract(s: Seq<DistView>, k: int, i: int, l: int)
    requires
        0 <= i < k <= s.len(),
    ensures
        ens_den(s, k) == ens_den_step(ens_den(s.remove(i), k - 1), s[i]),
        ens_mass(s, k, l) == ens_mass_step(
            ens_mass(s.remove(i), k - 1, l),
            ens_den(s.remove(i), k - 1),
            s[i],
            l,
        ),
    decreases k,
{
    let r = s.remove(i);
    if i == k - 1 {
        assert(forall|j: int| 0 <= j < k - 1 ==> r[j] == s[j]);
        lemma_ens_ext(r, s, k - 1);
    } else {
        lemma_ens_extract(s, k - 1, i, l);
        assert(r[k - 2] == s[k - 1]);
        lemma_step_commute(
            ens_mass(r, k - 2, l),
            ens_den(r, k - 2),
            r[k - 2],
            s[i],
            l,
        );
        assert(ens_den(s, k - 1) == ens_den_step(ens_den(r, k - 2), s[i]));
        assert(ens_mass(s, k - 1, l) == ens_mass_step(
            ens_mass(r, k - 2, l),
            ens_den(r, k - 2),
            s[i],
            l,
        ));
    }
}

/// The ensemble aggregate does not depend on the members' order: any two
/// arrangements of the same leaf distributions give the same common
/// denominator and the same mass to every label, so the decision that
/// `forest_decision` takes from them is order-independent, as an
/// associative-and-commutative sum of the members' confidences.
pub proof fn lemma_aggregate_order_independent(p: Seq<DistView>, q: Seq<DistView>)
    requires
        p.to_multiset() == q.to_multiset(),
    ensures
        ens_den(p, p.len() as int) == ens_den(q, q.len() as int),
        forall|l: int|
            ens_mass(p, p.len() as int, l) == ens_mass(q, q.len() as int, l),
    decreases q.len(),
{
    vstd::seq_lib::to_multiset_len(p);
    vstd::seq_lib::to_multiset_len(q);
    if q.len() == 0 {
        assert(p.len() == 0);
    } else {
        let n = q.len() as int;
        let x = q[n - 1];
        vstd::seq_lib::to_multiset_contains(q, x);
        assert(q.contains(x));
        vstd::seq_lib::to_multiset_contains(p, x);
        assert(p.contains(x));
        let i = choose|i: int| 0 <= i < p.len() && p[i] == x;
        let pr = p.remove(i);
        let qr = q.remove(n - 1);
        vstd::seq_lib::to_multiset_remove(p, i);
        vstd::seq_lib::to_multiset_remove(q, n - 1);
        assert(pr.to_multiset() == qr.to_multiset());
        lemma_aggregate_order_independent(pr, qr);
        assert(forall|j: int| 0 <= j < n - 1 ==> qr[j] == q[j]);
        lemma_ens_ext(qr, q, n - 1);
        assert forall|l: int|
            ens_mass(p, p.len() as int, l) == ens_mass(q, q.len() as int, l) by {
            lemma_ens_extract(p, p.len() as int, i, l);
        }
        lemma_ens_extract(p, p.len() as int, i, 0);
    }
}

/// Shuffle the records in place with a Fisher-Yates pass whose positions
/// come from the caller's randomness source: the records are preserved as
/// a multiset, and a seeded source reproduces the same arrangement.
fn shuffle_records<T, R: RandomSource>(data: &mut Vec<T>, rng: &mut R)
    ensures
        final(data)@.len() == old(data)@.len(),
        final(data)@.to_multiset() == old(data)@.to_multiset(),
{
    let n = data.len();
    let mut i: usize = n;
    while i > 1
        invariant
            i <= n,
            data@.len() == n,
            n == old(data)@.len(),
            data@.to_multiset() == old(data)@.to_multiset(),
        decreases i,
    {
        let w = rng.next_u64();
        let j = (w % (i as u64)) as usize;
        let ghost pre = data@;
        swap_records(data, j, i - 1);
        proof {
            lemma_swap_subrange_multiset(pre, data@, 0, n as int, j as int, (i - 1) as int);
            assert(pre.subrange(0, n as int) =~= pre);
            assert(data@.subrange(0, n as int) =~= data@);
        }
        i = i - 1;
    }
}

/// A bagging ensemble of independently trained trees.
pub struct RandomForest<S: SplitCandidate> {
    forest: Vec<Tree<S>>,
}

impl<S: SplitCandidate> RandomForest<S> {
    /// The member trees, in training order.
    pub closed spec fn members(self) -> Seq<Tree<S>> {
        self.forest@
    }

    /// Every member tree is well formed.
    pub open spec fn wf(self) -> bool {
        forall|i: int| 0 <= i < self.members().len() ==> (#[trigger] self.members()[i]).wf()
    }

    /// Train `number_of_trees` trees, each on the first `samples_per_tree`
    /// records of a freshly shuffled record sequence: a without-replacement
    /// subsample per member, not a classic bootstrap. Every member is
    /// consistent with some `samples_per_tree` records drawn from the
    /// dataset, and the records are left permuted.
    pub fn learn<R: RandomSource>(
        params: &Parameters,
        data: &mut Vec<(S::InputData, Label)>,
        rng: &mut R,
    ) -> (f: RandomForest<S>)
        requires
            params.samples_per_tree <= old(data)@.len(),
            params.samples_per_tree <= MAX_RECORDS,
            params.candidates_to_try_per_node >= 1,
        ensures
            f.wf(),
            f.members().len() == params.number_of_trees,
            final(data)@.len() == old(data)@.len(),
            final(data)@.to_multiset() == old(data)@.to_multiset(),
            forall|i: int|
                0 <= i < f.members().len() ==> trained_on_sample(
                    #[trigger] f.members()[i],
                    params.samples_per_tree as int,
                    old(data)@.to_multiset(),
                ),
    {
        broadcast use vstd::multiset::group_multiset_axioms;

        let samples_per_tree = params.samples_per_tree;
        let mut forest: Vec<Tree<S>> = Vec::new();
        let mut k: usize = 0;
        while k < params.number_of_trees
            invariant
                samples_per_tree == params.samples_per_tree,
                params.candidates_to_try_per_node >= 1,
                samples_per_tree <= data@.len(),
                samples_per_tree <= MAX_RECORDS,
                k <= params.number_of_trees,
                forest@.len() == k,
                forall|i: int| 0 <= i < k ==> (#[trigger] forest@[i]).wf(),
                forall|i: int|
                    0 <= i < k ==> trained_on_sample(
                        #[trigger] forest@[i],
                        samples_per_tree as int,
                        old(data)@.to_multiset(),
                    ),
                data@.len() == old(data)@.len(),
                data@.to_multiset() == old(data)@.to_multiset(),
            decreases params.number_of_trees - k,
        {
            shuffle_records(data, rng);
            let t = Tree::<S>::learn_in_range(params, data, 0, samples_per_tree, rng);
            let ghost w = data@.subrange(0, samples_per_tree as int);
            let ghost prev = forest@;
            proof {
                let whole = data@;
                let rest = whole.subrange(samples_per_tree as int, whole.len() as int);
                assert(whole =~= w + rest);
                lemma_multiset_commutative(w, rest);
                assert(w.to_multiset().subset_of(old(data)@.to_multiset()));
                assert(t.consistent_with(w) && w.len() == samples_per_tree);
            }
            forest.push(t);
            proof {
                assert(trained_on_sample(t, samples_per_tree as int, old(data)@.to_multiset()));
                assert forall|i: int| 0 <= i < k + 1 implies trained_on_sample(
                    #[trigger] forest@[i],
                    samples_per_tree as int,
                    old(data)@.to_multiset(),
                ) by {
                    if i == k {
                        assert(forest@[i] == t);
                    } else {
                        assert(forest@[i] == prev[i]);
                    }
                }
            }
            k = k + 1;
        }
        let ghost gf = forest@;
        let f = RandomForest { forest };
        proof {
            assert(f.members() == gf);
            assert forall|i: int| 0 <= i < f.members().len() implies trained_on_sample(
                #[trigger] f.members()[i],
                params.samples_per_tree as int,
                old(data)@.to_multiset(),
            ) by {
                assert(f.members()[i] == gf[i]);
            }
        }
        f
    }

    /// Classify a query by soft voting: sum every member's leaf
    /// distribution, exactly and over one common denominator, and return
    /// the smallest label of maximal combined mass. The precondition asks
    /// only that the exact sum stays inside `u128`, which is the machine's
    /// limit, not the algorithm's.
    pub fn classify(&self, data: &S::InputData) -> (r: Label)
        requires
            self.wf(),
            ens_fits(leaf_views(self.members(), *data), self.members().len() as int),
        ensures
            r == forest_decision(self.members(), *data),
            forall|l: Label|
                ens_mass(leaf_views(self.members(), *data), self.members().len() as int, l as int)
                    <= ens_mass(
                    leaf_views(self.members(), *data),
                    self.members().len() as int,
                    r as int,
                ),
            forall|l: Label|
                l < r ==> ens_mass(
                    leaf_views(self.members(), *data),
                    self.members().len() as int,
                    l as int,
                ) < ens_mass(
                    leaf_views(self.members(), *data),
                    self.members().len() as int,
                    r as int,
                ),
    {
        let ghost lv = leaf_views(self.members(), *data);
        let ghost n = self.members().len() as int;
        proof {
            assert forall|j: int| 0 <= j < n implies dist_wf(#[trigger] lv[j]) by {
                lemma_confidence_wf(self.members()[j], *data);
            }
        }
        let mut masses: Vec<u128> = Vec::new();
        let mut z: usize = 0;
        while z < 256
            invariant
                z <= 256,
                masses@.len() == z,
                forall|x: int| 0 <= x < z ==> masses@[x] == 0,
            decreases 256 - z,
        {
            masses.push(0);
            z = z + 1;
        }
        let mut den: u128 = 1;
        let mut i: usize = 0;
        while i < self.forest.len()
            invariant
                self.wf(),
                i <= self.forest@.len(),
                lv == leaf_views(self.members(), *data),
                n == self.members().len() as int,
                forall|j: int| 0 <= j < n ==> dist_wf(#[trigger] lv[j]),
                ens_fits(lv, n),
                masses@.len() == 256,
                den as int == ens_den(lv, i as int),
                forall|x: int|
                    0 <= x < 256 ==> (#[trigger] masses@[x]) as int == ens_mass(lv, i as int, x),
            decreases self.forest@.len() - i,
        {
            let t = &self.forest[i];
            let d = t.classify_confidence(data);
            let tot = d.total();
            proof {
                lemma_ens_fits_prefix(lv, i + 1, n);
                assert(d@ == lv[i as int]);
            }
            if tot > 0 {
                let ghost di = i as int;
                let mut l: usize = 0;
                while l < 256
                    invariant
                        0 <= di < n,
                        lv[di].total == tot,
                        tot > 0,
                        d@ == lv[di],
                        d.wf(),
                        forall|j: int| 0 <= j < n ==> dist_wf(#[trigger] lv[j]),
                        ens_fits(lv, di + 1),
                        den as int == ens_den(lv, di),
                        masses@.len() == 256,
                        l <= 256,
                        forall|x: int|
                            0 <= x < l ==> (#[trigger] masses@[x]) as int == ens_mass(
                                lv,
                                di + 1,
                                x,
                            ),
                        forall|x: int|
                            l <= x < 256 ==> (#[trigger] masses@[x]) as int == ens_mass(lv, di, x),
                    decreases 256 - l,
                {
                    proof {
                        lemma_ens_bounds(lv, di, l as int);
                        lemma_mass_le_sum(lv[di].masses, l as int, 256);
                        let m = ens_mass(lv, di, l as int);
                        let dd = ens_den(lv, di);
                        let ti = lv[di].total as int;
                        let ml = lv[di].masses[l as int] as int;
                        assert(ens_den(lv, di + 1) == dd * ti);
                        assert((di + 1) * (dd * ti) <= u128::MAX as int);
                        assert(dd * ti <= (di + 1) * (dd * ti)) by (nonlinear_arith)
                            requires
                                0 <= di,
                                0 <= dd * ti,
                        ;
                        assert(m * ti <= (di * dd) * ti && 0 <= m * ti) by (nonlinear_arith)
                            requires
                                0 <= m,
                                m <= di * dd,
                                1 <= ti,
                        ;
                        assert((di * dd) * ti == di * (dd * ti)) by (nonlinear_arith);
                        assert(0 <= ml * dd && ml * dd <= ti * dd && ti * dd == dd * ti)
                            by (nonlinear_arith)
                            requires
                                0 <= ml,
                                ml <= ti,
                                1 <= dd,
                        ;
                        assert(di * (dd * ti) + dd * ti == (di + 1) * (dd * ti))
                            by (nonlinear_arith);
                    }
                    let ml = d.mass(l as u8);
                    let cur = masses[l];
                    masses.set(l, cur * tot + ml * den);
                    l = l + 1;
                }
                proof {
                    lemma_ens_bounds(lv, di, 0);
                    assert(ens_den(lv, di + 1) == ens_den(lv, di) * (lv[di].total as int));
                    assert((di + 1) * ens_den(lv, di + 1) <= u128::MAX as int);
                    assert(ens_den(lv, di + 1) <= (di + 1) * ens_den(lv, di + 1))
                        by (nonlinear_arith)
                        requires
                            0 <= di,
                            0 <= ens_den(lv, di + 1),
                    ;
                }
                den = den * tot;
            }
            i = i + 1;
        }
        let mut best_l: usize = 0;
        let mut best_m: u128 = 0;
        let mut s: usize = 0;
        while s < 256
            invariant
                s <= 256,
                masses@.len() == 256,
                best_l < 256,
                mode_upto(masses@, s as int) == (best_l as int, best_m),
            decreases 256 - s,
        {
            let m = masses[s];
            if m > best_m {
                best_l = s;
                best_m = m;
            }
            s = s + 1;
        }
        proof {
            assert forall|x: int| 0 <= x < 256 implies ens_masses(lv, n)[x] == masses@[x] by {
                lemma_ens_bounds(lv, n, x);
                lemma_ens_fits_prefix(lv, n, n);
            }
            assert(masses@ =~= ens_masses(lv, n));
            lemma_mode_upto(masses@, 256);
            assert forall|l: Label|
                #[trigger] ens_mass(lv, n, l as int) <= ens_mass(
                    lv,
                    n,
                    (best_l as u8) as int,
                ) by {
                assert(masses@[l as int] as int == ens_mass(lv, n, l as int));
                assert(masses@[best_l as int] as int == ens_mass(lv, n, best_l as int));
                assert(masses@[l as int] <= masses@[best_l as int]);
            }
            assert forall|l: Label| l < (best_l as u8) implies #[trigger] ens_mass(
                lv,
                n,
                l as int,
            ) < ens_mass(lv, n, (best_l as u8) as int) by {
                assert(masses@[l as int] as int == ens_mass(lv, n, l as int));
                assert(masses@[best_l as int] as int == ens_mass(lv, n, best_l as int));
                assert(masses@[l as int] < masses@[best_l as int]);
            }
        }
        best_l as u8
    }
}

/// A forest of exactly one well-formed tree reproduces that tree's
/// classification for every query: the singleton ensemble sum is the
/// member's own mass vector, so the two decisions coincide.
pub proof fn lemma_singleton_forest_decides_as_tree<S: SplitCandidate>(
    trees: Seq<Tree<S>>,
    t: Tree<S>,
    q: S::InputData,
)
    requires
        trees == seq![t],
        t.wf(),
    ensures
        forest_decision(trees, q) == t.decision_for(q),
{
    let lv = leaf_views(trees, q);
    assert(lv.len() == 1);
    assert(lv[0] == t.confidence_for(q)@);
    lemma_confidence_wf(t, q);
    let d = lv[0];
    assert(d.masses.len() == 256);
    assert forall|l: int| 0 <= l < 256 implies ens_mass(lv, 1, l) == d.masses[l] as int by {
        assert(ens_mass(lv, 0, l) == 0 && ens_den(lv, 0) == 1);
        if d.total == 0 {
            lemma_mass_le_sum(d.masses, l, 256);
            assert(d.masses[l] == 0);
            assert(ens_mass(lv, 1, l) == 0);
        } else {
            assert(ens_mass(lv, 1, l) == 0 * (d.total as int) + (d.masses[l] as int) * 1);
        }
    }
    assert(ens_masses(lv, 1) =~= d.masses);
}

} // verus!
