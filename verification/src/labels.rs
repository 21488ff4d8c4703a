use vstd::prelude::*;

verus! {

use vstd::pervasive::VecAdditionalExecFns;

/// A class label; the alphabet is the whole of `u8`.
pub type Label = u8;

/// Mathematical content of a [`LabelDistribution`]: label `l` carries the
/// exact rational probability mass `masses[l] / total`.
#[verifier::ext_equal]
pub struct DistView {
    pub masses: Seq<u128>,
    pub total: u128,
}

/// Sum of the first `k` masses.
pub open spec fn mass_sum_upto(m: Seq<u128>, k: int) -> int
    decreases k,
{
    if k <= 0 {
        0
    } else {
        mass_sum_upto(m, k - 1) + m[k - 1]
    }
}

/// A well-formed distribution has one mass per possible label, and the
/// masses sum to exactly the common denominator `total`: the probabilities
/// sum to exactly one whenever `total` is nonzero.
pub open spec fn dist_wf(v: DistView) -> bool {
    &&& v.masses.len() == 256
    &&& mass_sum_upto(v.masses, 256) == v.total as int
}

/// The running argmax of the first `k` masses: the (label, mass) pair kept
/// by a left-to-right scan that replaces only on strictly greater mass, so
/// ties go to the smallest label.
pub open spec fn mode_upto(m: Seq<u128>, k: int) -> (int, u128)
    decreases k,
{
    if k <= 0 {
        (0, 0u128)
    } else {
        let p = mode_upto(m, k - 1);
        if m[k - 1] > p.1 {
            (k - 1, m[k - 1])
        } else {
            p
        }
    }
}

/// The most probable label of a distribution; ties break to the smallest
/// label, and the empty distribution answers label 0.
pub open spec fn dist_mode(v: DistView) -> Label {
    mode_upto(v.masses, 256).0 as Label
}

/// Whether two distributions can be combined without the common denominator
/// outgrowing `u128`.
pub open spec fn combine_fits(a: DistView, b: DistView) -> bool {
    2 * (a.total as int) * (b.total as int) <= u128::MAX as int
}

/// The per-label masses of the exact sum of two distributions, brought to
/// the common denominator `2 * a.total * b.total`.
pub open spec fn combined_masses(a: DistView, b: DistView) -> Seq<u128> {
    Seq::new(256, |l: int| ((a.masses[l] as int) * (b.total as int) + (b.masses[l] as int) * (a.total as int)) as u128)
}

/// The exact combination of two distributions: each label's probability is
/// the average of its probabilities under the two inputs (an empty input is
/// the neutral element).
pub open spec fn combine_view(a: DistView, b: DistView) -> DistView {
    if a.total == 0 {
        b
    } else if b.total == 0 {
        a
    } else {
        DistView { masses: combined_masses(a, b), total: (2 * (a.total as int) * (b.total as int)) as u128 }
    }
}

/// How many of the first `s.len()` entries of `s` equal `l`.
pub open spec fn count_of(s: Seq<Label>, l: Label) -> int
    decreases s.len(),
{
    if s.len() == 0 {
        0
    } else {
        count_of(s.drop_last(), l) + if s.last() == l {
            1int
        } else {
            0int
        }
    }
}

pub proof fn lemma_count_push(s: Seq<Label>, x: Label, l: Label)
    ensures
        count_of(s.push(x), l) == count_of(s, l) + if x == l {
            1int
        } else {
            0int
        },
{
    assert(s.push(x).drop_last() =~= s);
}

pub proof fn lemma_count_le_len(s: Seq<Label>, l: Label)
    ensures
        0 <= count_of(s, l) <= s.len(),
    decreases s.len(),
{
    if s.len() > 0 {
        lemma_count_le_len(s.drop_last(), l);
    }
}

/// Sums agree on sequences that agree below `k`.
pub proof fn lemma_mass_sum_ext(m1: Seq<u128>, m2: Seq<u128>, k: int)
    requires
        forall|i: int| 0 <= i < k ==> m1[i] == m2[i],
    ensures
        mass_sum_upto(m1, k) == mass_sum_upto(m2, k),
    decreases k,
{
    if k > 0 {
        lemma_mass_sum_ext(m1, m2, k - 1);
    }
}

pub proof fn lemma_mass_sum_zero(m: Seq<u128>, k: int)
    requires
        forall|i: int| 0 <= i < k ==> m[i] == 0,
    ensures
        mass_sum_upto(m, k) == 0,
    decreases k,
{
    if k > 0 {
        lemma_mass_sum_zero(m, k - 1);
    }
}

/// Changing the entry at `j` moves the sum by exactly the difference.
pub proof fn lemma_mass_sum_update(m: Seq<u128>, j: int, v: u128, k: int)
    requires
        0 <= j < k,
        k <= m.len(),
    ensures
        mass_sum_upto(m.update(j, v), k) == mass_sum_upto(m, k) - m[j] + v,
    decreases k,
{
    if j == k - 1 {
        lemma_mass_sum_ext(m.update(j, v), m, k - 1);
    } else {
        lemma_mass_sum_update(m, j, v, k - 1);
    }
}

/// Every mass is bounded by the sum of the masses.
pub proof fn lemma_mass_le_sum(m: Seq<u128>, j: int, k: int)
    requires
        0 <= j < k,
    ensures
        m[j] <= mass_sum_upto(m, k),
        0 <= mass_sum_upto(m, k),
    decreases k,
{
    if k > 0 {
        if j < k - 1 {
            lemma_mass_le_sum(m, j, k - 1);
        } else if k >= 2 {
            lemma_mass_le_sum(m, k - 2, k - 1);
        }
    }
}

/// The scan kept by `mode_upto` lands on a maximal mass, and on the
/// smallest label among the maximal ones.
pub proof fn lemma_mode_upto(m: Seq<u128>, k: int)
    requires
        1 <= k <= m.len(),
    ensures
        0 <= mode_upto(m, k).0 < k,
        mode_upto(m, k).1 == m[mode_upto(m, k).0],
        forall|i: int| 0 <= i < k ==> m[i] <= mode_upto(m, k).1,
        forall|i: int| 0 <= i < mode_upto(m, k).0 ==> m[i] < mode_upto(m, k).1,
    decreases k,
{
    if k == 1 {
        assert(mode_upto(m, 0) == (0int, 0u128));
    } else {
        lemma_mode_upto(m, k - 1);
    }
}

/// The combined masses sum to the combined denominator.
pub proof fn lemma_combined_mass_sum(a: DistView, b: DistView, k: int)
    requires
        dist_wf(a),
        dist_wf(b),
        combine_fits(a, b),
        a.total > 0,
        b.total > 0,
        0 <= k <= 256,
    ensures
        mass_sum_upto(combined_masses(a, b), k) == (b.total as int) * mass_sum_upto(a.masses, k) + (a.total as int)
            * mass_sum_upto(b.masses, k),
    decreases k,
{
    if k > 0 {
        lemma_combined_mass_sum(a, b, k - 1);
        let ta = a.total as int;
        let tb = b.total as int;
        let ma = a.masses[k - 1] as int;
        let mb = b.masses[k - 1] as int;
        lemma_mass_le_sum(a.masses, k - 1, 256);
        lemma_mass_sum_mono(a.masses, k, 256);
        lemma_mass_le_sum(b.masses, k - 1, 256);
        lemma_mass_sum_mono(b.masses, k, 256);
        assert(ma <= ta && mb <= tb);
        assert(ma * tb <= ta * tb && mb * ta <= tb * ta) by (nonlinear_arith)
            requires
                0 <= ma <= ta,
                0 <= mb <= tb,
        ;
        assert(ma * tb + mb * ta >= 0) by (nonlinear_arith)
            requires
                ma >= 0,
                tb >= 0,
                mb >= 0,
                ta >= 0,
        ;
        assert(ta * tb + tb * ta <= 2 * ta * tb) by (nonlinear_arith);
        assert(combined_masses(a, b)[k - 1] as int == ma * tb + mb * ta);
        assert(tb * (mass_sum_upto(a.masses, k - 1) + ma) == tb * mass_sum_upto(a.masses, k - 1) + tb * ma)
            by (nonlinear_arith);
        assert(ta * (mass_sum_upto(b.masses, k - 1) + mb) == ta * mass_sum_upto(b.masses, k - 1) + ta * mb)
            by (nonlinear_arith);
    }
}

/// A partial sum of masses never exceeds a longer one.
pub proof fn lemma_mass_sum_mono(m: Seq<u128>, k1: int, k2: int)
    requires
        0 <= k1 <= k2,
    ensures
        mass_sum_upto(m, k1) <= mass_sum_upto(m, k2),
    decreases k2,
{
    if k1 < k2 {
        lemma_mass_sum_mono(m, k1, k2 - 1);
        if k2 >= 1 {
            lemma_mass_le_sum(m, k2 - 1, k2);
        }
    }
}

/// A normalized empirical probability distribution over labels, held as
/// exact rational masses over a common denominator: label `l` carries
/// probability `masses[l] / total`. Construction and combination keep the
/// masses summing to exactly `total`, so the distribution is normalized by
/// representation, with no rounding at all.
#[derive(PartialEq, Debug)]
pub struct LabelDistribution {
    masses: Vec<u128>,
    total: u128,
}

impl View for LabelDistribution {
    type V = DistView;

    closed spec fn view(&self) -> DistView {
        DistView { masses: self.masses@, total: self.total }
    }
}

impl LabelDistribution {
    pub open spec fn wf(&self) -> bool {
        dist_wf(self@)
    }

    /// The empty distribution: no mass anywhere, denominator zero. It is
    /// the neutral element of `combine`.
    pub fn new() -> (d: LabelDistribution)
        ensures
            d.wf(),
            d@.total == 0,
            forall|l: int| 0 <= l < 256 ==> d@.masses[l] == 0,
    {
        let mut masses: Vec<u128> = Vec::new();
        let mut i: usize = 0;
        while i < 256
            invariant
                i <= 256,
                masses@.len() == i,
                forall|j: int| 0 <= j < i ==> masses@[j] == 0,
            decreases 256 - i,
        {
            masses.push(0);
            i = i + 1;
        }
        proof {
            lemma_mass_sum_zero(masses@, 256);
        }
        LabelDistribution { masses, total: 0 }
    }

    /// Count occurrences of each label and normalize by the number of
    /// labels: mass `count_of(labels, l) / labels.len()` for each `l`.
    pub fn from_labels(labels: &Vec<Label>) -> (d: LabelDistribution)
        ensures
            d.wf(),
            d@.total == labels@.len(),
            forall|l: Label| d@.masses[l as int] == count_of(labels@, l),
    {
        let mut d = LabelDistribution::new();
        let mut i: usize = 0;
        while i < labels.len()
            invariant
                i <= labels@.len(),
                d.wf(),
                d@.total == i,
                forall|l: Label| d@.masses[l as int] == count_of(labels@.take(i as int), l),
            decreases labels@.len() - i,
        {
            let l = labels[i];
            proof {
                lemma_count_le_len(labels@.take(i as int), l);
                assert(labels@.take(i as int).len() == i);
                lemma_mass_sum_update(d@.masses, l as int, (d@.masses[l as int] + 1) as u128, 256);
                assert(labels@.take(i + 1) =~= labels@.take(i as int).push(labels@[i as int]));
                assert forall|x: Label| count_of(labels@.take(i + 1), x) == count_of(
                    labels@.take(i as int),
                    x,
                ) + if l == x {
                    1int
                } else {
                    0int
                } by {
                    lemma_count_push(labels@.take(i as int), l, x);
                }
            }
            let old_mass = d.masses[l as usize];
            d.masses.set(l as usize, old_mass + 1);
            d.total = d.total + 1;
            i = i + 1;
        }
        proof {
            assert(labels@.take(labels@.len() as int) =~= labels@);
        }
        d
    }

    /// The most probable label: a label of maximal mass, the smallest such
    /// label when several share the maximum, and label 0 when the
    /// distribution is empty.
    pub fn most_probable(&self) -> (r: Label)
        requires
            self.wf(),
        ensures
            r == dist_mode(self@),
            forall|l: Label| self@.masses[l as int] <= self@.masses[r as int],
            forall|l: Label| l < r ==> self@.masses[l as int] < self@.masses[r as int],
    {
        let mut best_l: usize = 0;
        let mut best_m: u128 = 0;
        let mut i: usize = 0;
        while i < 256
            invariant
                i <= 256,
                self.wf(),
                best_l < 256,
                mode_upto(self@.masses, i as int) == (best_l as int, best_m),
            decreases 256 - i,
        {
            let m = self.masses[i];
            if m > best_m {
                best_l = i;
                best_m = m;
            }
            i = i + 1;
        }
        proof {
            lemma_mode_upto(self@.masses, 256);
        }
        best_l as u8
    }

    /// Add `other`'s probability mass to this distribution's and
    /// renormalize, exactly: the result gives each label the average of its
    /// two probabilities. Combining with an empty distribution changes
    /// nothing. Commutative and, up to rescaling of the common denominator,
    /// associative.
    pub fn combine(self, other: &LabelDistribution) -> (d: LabelDistribution)
        requires
            self.wf(),
            other.wf(),
            combine_fits(self@, other@),
        ensures
            d.wf(),
            d@ == combine_view(self@, other@),
    {
        if self.total == 0 {
            let mut masses: Vec<u128> = Vec::new();
            let mut i: usize = 0;
            while i < 256
                invariant
                    other.wf(),
                    i <= 256,
                    masses@.len() == i,
                    forall|j: int| 0 <= j < i ==> masses@[j] == other@.masses[j],
                decreases 256 - i,
            {
                masses.push(other.masses[i]);
                i = i + 1;
            }
            proof {
                assert(masses@ =~= other@.masses);
            }
            LabelDistribution { masses, total: other.total }
        } else if other.total == 0 {
            self
        } else {
            let ghost av = self@;
            let ghost bv = other@;
            let mut masses: Vec<u128> = Vec::new();
            let mut i: usize = 0;
            while i < 256
                invariant
                    self.wf(),
                    other.wf(),
                    combine_fits(av, bv),
                    av == self@,
                    bv == other@,
                    av.total > 0,
                    bv.total > 0,
                    i <= 256,
                    masses@.len() == i,
                    forall|j: int| 0 <= j < i ==> masses@[j] == combined_masses(av, bv)[j],
                decreases 256 - i,
            {
                proof {
                    let ta = av.total as int;
                    let tb = bv.total as int;
                    let ma = av.masses[i as int] as int;
                    let mb = bv.masses[i as int] as int;
                    lemma_mass_le_sum(av.masses, i as int, 256);
                    lemma_mass_le_sum(bv.masses, i as int, 256);
                    assert(ma * tb <= ta * tb && mb * ta <= tb * ta && ma * tb >= 0 && mb * ta >= 0)
                        by (nonlinear_arith)
                        requires
                            0 <= ma <= ta,
                            0 <= mb <= tb,
                    ;
                    assert(ta * tb + tb * ta <= 2 * ta * tb) by (nonlinear_arith);
                }
                let v = self.masses[i] * other.total + other.masses[i] * self.total;
                masses.push(v);
                i = i + 1;
            }
            proof {
                let ta = av.total as int;
                let tb = bv.total as int;
                assert(ta * tb >= 0 && 2 * (ta * tb) == 2 * ta * tb) by (nonlinear_arith)
                    requires
                        ta >= 0,
                        tb >= 0,
                ;
            }
            let total = 2 * (self.total * other.total);
            proof {
                assert(masses@ =~= combined_masses(av, bv));
                lemma_combined_mass_sum(av, bv, 256);
                let ta = av.total as int;
                let tb = bv.total as int;
                assert(tb * ta + ta * tb == 2 * ta * tb) by (nonlinear_arith);
            }
            LabelDistribution { masses, total }
        }
    }

    /// The mass of one label (the numerator of its probability).
    pub fn mass(&self, l: Label) -> (m: u128)
        requires
            self.wf(),
        ensures
            m == self@.masses[l as int],
    {
        self.masses[l as usize]
    }

    /// The common denominator of the masses.
    pub fn total(&self) -> (t: u128)
        ensures
            t == self@.total,
    {
        self.total
    }
}

} // verus!

