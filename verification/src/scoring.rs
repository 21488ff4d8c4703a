use vstd::prelude::*;

verus! {

use crate::labels::{DistView, LabelDistribution, dist_wf, mass_sum_upto, lemma_mass_le_sum, lemma_mass_sum_mono};
use crate::parameters::MAX_RECORDS;

/// Sum of the squares of the first `k` masses.
pub open spec fn sum_sq_upto(m: Seq<u128>, k: int) -> int
    decreases k,
{
    if k <= 0 {
        0
    } else {
        sum_sq_upto(m, k - 1) + (m[k - 1] as int) * (m[k - 1] as int)
    }
}

/// Sum of the squared masses of a distribution, the complement of its
/// impurity.
pub open spec fn sum_sq(v: DistView) -> int {
    sum_sq_upto(v.masses, 256)
}

/// The scaled Gini impurity of a distribution: `total^2 - sum of squared
/// masses`, which is `total^2` times the probability that two independent
/// draws from the distribution disagree.
pub open spec fn impurity(v: DistView) -> int {
    (v.total as int) * (v.total as int) - sum_sq(v)
}

/// Sum of the squares of the first `k` merged masses of two vectors.
pub open spec fn sum_sq_joint_upto(ml: Seq<u128>, mr: Seq<u128>, k: int) -> int
    decreases k,
{
    if k <= 0 {
        0
    } else {
        sum_sq_joint_upto(ml, mr, k - 1) + (ml[k - 1] as int + mr[k - 1] as int) * (ml[k - 1] as int
            + mr[k - 1] as int)
    }
}

/// At most one of the first `k` masses is nonzero.
pub open spec fn at_most_one_mass_upto(m: Seq<u128>, k: int) -> bool {
    forall|i: int, j: int| 0 <= i < k && 0 <= j < k && m[i] > 0 && m[j] > 0 ==> i == j
}

proof fn lemma_sum_zero_iff(m: Seq<u128>, k: int)
    requires
        0 <= k,
    ensures
        mass_sum_upto(m, k) == 0 <==> (forall|i: int| 0 <= i < k ==> m[i] == 0),
    decreases k,
{
    if k > 0 {
        lemma_sum_zero_iff(m, k - 1);
        lemma_mass_le_sum(m, k - 1, k);
        if mass_sum_upto(m, k) == 0 {
            assert(mass_sum_upto(m, k - 1) >= 0);
        }
    }
}

proof fn lemma_sq_vs_sum(m: Seq<u128>, k: int)
    requires
        0 <= k,
    ensures
        0 <= sum_sq_upto(m, k),
        sum_sq_upto(m, k) <= mass_sum_upto(m, k) * mass_sum_upto(m, k),
        (sum_sq_upto(m, k) == mass_sum_upto(m, k) * mass_sum_upto(m, k)) <==> at_most_one_mass_upto(m, k),
    decreases k,
{
    if k == 0 {
    } else {
        lemma_sq_vs_sum(m, k - 1);
        lemma_sum_zero_iff(m, k - 1);
        let s = mass_sum_upto(m, k - 1);
        let q = sum_sq_upto(m, k - 1);
        let c = m[k - 1] as int;
        lemma_mass_le_sum(m, k - 1, k);
        assert(s >= 0);
        assert((s + c) * (s + c) == s * s + 2 * s * c + c * c) by (nonlinear_arith);
        assert(c * c >= 0 && s * c >= 0) by (nonlinear_arith)
            requires
                s >= 0,
                c >= 0,
        ;
        if q + c * c == (s + c) * (s + c) {
            // the step kept equality, so the old sum was zero or the new
            // mass is zero, and equality held before
            assert(q == s * s && 2 * s * c == 0);
            if c > 0 {
                assert(s == 0) by (nonlinear_arith)
                    requires
                        2 * s * c == 0,
                        c > 0,
                        s >= 0,
                ;
                assert(forall|i: int| 0 <= i < k - 1 ==> m[i] == 0);
            }
            assert(at_most_one_mass_upto(m, k));
        }
        if at_most_one_mass_upto(m, k) {
            assert(at_most_one_mass_upto(m, k - 1));
            if c > 0 {
                assert(forall|i: int| 0 <= i < k - 1 ==> m[i] == 0);
                assert(s == 0);
            }
            assert(q + c * c == (s + c) * (s + c));
        }
    }
}

/// Impurity bounds: the scaled Gini impurity of a well-formed distribution
/// lies between 0 and `total^2`, and it is 0 exactly when at most one label
/// carries mass, that is, when the distribution is pure.
pub proof fn lemma_impurity_bounds(v: DistView)
    requires
        dist_wf(v),
    ensures
        0 <= impurity(v),
        impurity(v) <= (v.total as int) * (v.total as int),
        impurity(v) == 0 <==> at_most_one_mass_upto(v.masses, 256),
{
    lemma_sq_vs_sum(v.masses, 256);
}

#[verifier::rlimit(50)]
proof fn lemma_gain_upto(ml: Seq<u128>, mr: Seq<u128>, a: int, b: int, k: int)
    requires
        0 <= a,
        0 <= b,
        0 <= k,
    ensures
        (a + b) * (b * sum_sq_upto(ml, k) + a * sum_sq_upto(mr, k)) >= a * b * sum_sq_joint_upto(
            ml,
            mr,
            k,
        ),
    decreases k,
{
    if k == 0 {
        assert((a + b) * (b * 0 + a * 0) == 0) by (nonlinear_arith);
        assert(a * b * 0 == 0) by (nonlinear_arith);
    } else {
        lemma_gain_upto(ml, mr, a, b, k - 1);
        let sl = sum_sq_upto(ml, k - 1);
        let sr = sum_sq_upto(mr, k - 1);
        let sj = sum_sq_joint_upto(ml, mr, k - 1);
        let cl = ml[k - 1] as int;
        let cr = mr[k - 1] as int;
        let u = b * cl;
        let v = a * cr;
        assert((u - v) * (u - v) >= 0) by (nonlinear_arith);
        assert((u - v) * (u - v) == u * u - 2 * (u * v) + v * v) by (nonlinear_arith);
        assert(u * u == b * b * (cl * cl) && v * v == a * a * (cr * cr) && u * v == a * b * (cl
            * cr)) by (nonlinear_arith)
            requires
                u == b * cl,
                v == a * cr,
        ;
        assert((a + b) * (b * (cl * cl) + a * (cr * cr)) == a * b * (cl * cl) + b * b * (cl * cl)
            + a * a * (cr * cr) + a * b * (cr * cr)) by (nonlinear_arith);
        assert(a * b * ((cl + cr) * (cl + cr)) == a * b * (cl * cl) + 2 * (a * b * (cl * cr)) + a
            * b * (cr * cr)) by (nonlinear_arith);
        assert((a + b) * (b * (sl + cl * cl) + a * (sr + cr * cr)) == (a + b) * (b * sl + a * sr) + (
        a + b) * (b * (cl * cl) + a * (cr * cr))) by (nonlinear_arith);
        assert(a * b * (sj + (cl + cr) * (cl + cr)) == a * b * sj + a * b * ((cl + cr) * (cl + cr)))
            by (nonlinear_arith);
    }
}

proof fn lemma_joint_sum_sq(ml: Seq<u128>, mr: Seq<u128>, mw: Seq<u128>, k: int)
    requires
        forall|i: int| 0 <= i < k ==> mw[i] as int == ml[i] as int + mr[i] as int,
    ensures
        sum_sq_upto(mw, k) == sum_sq_joint_upto(ml, mr, k),
    decreases k,
{
    if k > 0 {
        lemma_joint_sum_sq(ml, mr, mw, k - 1);
    }
}

/// Information gain of a split is never negative: whenever a parent
/// distribution `w` is the exact merge of the two side distributions `l`
/// and `r` (per-label masses add up), the weighted sum of the sides'
/// squared-mass sums is at least the squared-mass sum of the parent, all
/// scaled to the common denominator `w.total * l.total * r.total`. This is
/// exactly "the weighted child impurity never exceeds the parent impurity",
/// so every candidate partition, the selected one included, scores at least
/// the no-split baseline that the greedy selection starts from.
pub proof fn lemma_split_gain_nonneg(l: DistView, r: DistView, w: DistView)
    requires
        w.total as int == l.total as int + r.total as int,
        forall|i: int| 0 <= i < 256 ==> w.masses[i] as int == l.masses[i] as int + r.masses[i] as int,
    ensures
        (w.total as int) * ((r.total as int) * sum_sq(l) + (l.total as int) * sum_sq(r)) >= (
        l.total as int) * (r.total as int) * sum_sq(w),
{
    lemma_joint_sum_sq(l.masses, r.masses, w.masses, 256);
    lemma_gain_upto(l.masses, r.masses, l.total as int, r.total as int, 256);
}

impl LabelDistribution {
    /// The sum of the squared masses, computed exactly.
    pub fn sum_squared_masses(&self) -> (s: u128)
        requires
            self.wf(),
            self@.total <= MAX_RECORDS as u128,
        ensures
            s as int == sum_sq(self@),
            s as int <= 256 * (self@.total as int) * (self@.total as int),
    {
        let ghost t = self@.total as int;
        let mut acc: u128 = 0;
        let mut i: usize = 0;
        while i < 256
            invariant
                self.wf(),
                self@.total <= MAX_RECORDS as u128,
                t == self@.total as int,
                i <= 256,
                acc as int == sum_sq_upto(self@.masses, i as int),
                acc as int <= i * t * t,
            decreases 256 - i,
        {
            let m = self.mass(i as u8);
            proof {
                lemma_mass_le_sum(self@.masses, i as int, 256);
                let mi = self@.masses[i as int] as int;
                assert(mi * mi <= t * t) by (nonlinear_arith)
                    requires
                        0 <= mi <= t,
                ;
                assert((i as int) * t * t + t * t == (i + 1) * t * t) by (nonlinear_arith);
                assert((i + 1) * t * t <= 256 * t * t) by (nonlinear_arith)
                    requires
                        i + 1 <= 256,
                        t >= 0,
                ;
                assert(256 * t * t <= 256 * (MAX_RECORDS as int) * (MAX_RECORDS as int))
                    by (nonlinear_arith)
                    requires
                        0 <= t <= MAX_RECORDS as int,
                ;
            }
            acc = acc + m * m;
            i = i + 1;
        }
        acc
    }
}

/// Exact comparison of the fractions `n1/d1 > n2/d2` by cross
/// multiplication.
pub(crate) fn frac_gt(n1: u128, d1: u128, n2: u128, d2: u128) -> (r: bool)
    requires
        (n1 as int) * (d2 as int) <= u128::MAX as int,
        (n2 as int) * (d1 as int) <= u128::MAX as int,
    ensures
        r == ((n1 as int) * (d2 as int) > (n2 as int) * (d1 as int)),
{
    n1 * d2 > n2 * d1
}

} // verus!
