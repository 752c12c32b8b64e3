//! River formation dynamics search over candidate covers.
//!
//! The engine keeps one altitude value per subset and repeatedly sends
//! "drops" through the instance: each drop builds a candidate cover by
//! weighted random choice, preferring subsets with high marginal gain and
//! low altitude. Completed covers erode the altitude of the subsets they
//! use; failed drops deposit sediment on theirs. Altitudes are held in
//! fixed-point arithmetic: the integer `ALTITUDE_SCALE` stands for an
//! altitude of one, the floor below which no altitude may fall. Costs are
//! exact cost numerators as in [`crate::subset_cover`].

use vstd::arithmetic::div_mod::lemma_div_is_ordered_by_denominator;
use vstd::arithmetic::div_mod::lemma_div_multiples_vanish;
use vstd::prelude::*;

use crate::set::SetModel;
use crate::subset_cover::SubsetCover;
use crate::subset_cover::cost_fits;
use crate::subset_cover::lemma_increasing_len;
use crate::subset_cover::spec_cost_numerator;

verus! {

/// The fixed-point unit: this integer altitude stands for the value one,
/// which is also the floor that altitudes never fall below.
pub const ALTITUDE_SCALE: u64 = 1_000_000;

#[verifier::external_type_specification]
#[verifier::external_body]
pub struct ExStdRng(rand::rngs::StdRng);

/// Relies on rand's `SeedableRng::seed_from_u64`: builds the standard
/// generator deterministically from a word-sized seed.
#[verifier::external_body]
fn rng_from_seed(seed: u64) -> rand::rngs::StdRng {
    <rand::rngs::StdRng as rand::SeedableRng>::seed_from_u64(seed)
}

/// Relies on rand's `Rng::gen_range`: a draw from `0..bound` is uniform
/// over that range, so in particular below `bound`; the call panics only
/// on an empty range, which the precondition rules out.
#[verifier::external_body]
fn rng_below(rng: &mut rand::rngs::StdRng, bound: u64) -> (r: u64)
    requires
        bound > 0,
    ensures
        r < bound,
{
    rand::Rng::gen_range(rng, 0..bound)
}

/// Saturating fixed-point addition.
pub open spec fn sat_add_u64(a: u64, b: u64) -> u64 {
    if a + b > u64::MAX {
        u64::MAX
    } else {
        (a + b) as u64
    }
}

/// Fixed-point subtraction clamped at the altitude floor.
pub open spec fn erode_altitude(a: u64, amount: u64) -> u64 {
    if a - ALTITUDE_SCALE < amount {
        ALTITUDE_SCALE
    } else {
        (a - amount) as u64
    }
}

/// How many of the first `n` flags are set.
pub open spec fn count_true_below(s: Seq<bool>, n: int) -> int
    decreases n,
{
    if n <= 0 {
        0
    } else {
        count_true_below(s, n - 1) + if s[n - 1] {
            1int
        } else {
            0int
        }
    }
}

/// How many flags are set.
pub open spec fn count_true(s: Seq<bool>) -> int {
    count_true_below(s, s.len() as int)
}

/// The count of set flags looks only at the first `n` entries.
proof fn lemma_count_true_below_prefix(s1: Seq<bool>, s2: Seq<bool>, n: int)
    requires
        forall|j: int| 0 <= j < n ==> s1[j] == s2[j],
    ensures
        count_true_below(s1, n) == count_true_below(s2, n),
    decreases n,
{
    if n > 0 {
        lemma_count_true_below_prefix(s1, s2, n - 1);
    }
}

/// Clearing one set flag lowers the count of the enclosing prefix by one.
proof fn lemma_count_true_below_update(s: Seq<bool>, j: int, n: int)
    requires
        0 <= j < n <= s.len(),
    ensures
        count_true_below(s.update(j, false), n) == count_true_below(s, n) - if s[j] {
            1int
        } else {
            0int
        },
    decreases n,
{
    if n > 0 {
        if j == n - 1 {
            lemma_count_true_below_prefix(s.update(j, false), s, n - 1);
        } else {
            lemma_count_true_below_update(s, j, n - 1);
        }
    }
}

/// Counting set flags over a longer prefix never gives less.
proof fn lemma_count_true_mono(s: Seq<bool>, m: int, n: int)
    requires
        m <= n,
    ensures
        count_true_below(s, m) <= count_true_below(s, n),
    decreases n - m,
{
    if n > m {
        lemma_count_true_mono(s, m, n - 1);
    }
}

/// The count of set flags never exceeds the prefix length.
proof fn lemma_count_true_below_bound(s: Seq<bool>, n: int)
    ensures
        0 <= count_true_below(s, n) <= if n <= 0 {
            0int
        } else {
            n
        },
    decreases n,
{
    if n > 0 {
        lemma_count_true_below_bound(s, n - 1);
    }
}

/// How many of the first `n` elements subset `i` would newly cover, the
/// uncovered elements being flagged true.
pub open spec fn gain_below(set: SetModel, uncovered: Seq<bool>, i: int, n: int) -> int
    decreases n,
{
    if n <= 0 {
        0
    } else {
        gain_below(set, uncovered, i, n - 1) + if set.cell(i, n - 1) && uncovered[n - 1] {
            1int
        } else {
            0int
        }
    }
}

/// The marginal gain of subset `i`: how many still-uncovered elements it
/// would cover.
pub open spec fn gain(set: SetModel, uncovered: Seq<bool>, i: int) -> int {
    gain_below(set, uncovered, i, set.size_set as int)
}

/// The sum of the first `t` weights.
pub open spec fn sum_prefix(weights: Seq<u64>, t: int) -> int
    decreases t,
{
    if t <= 0 {
        0
    } else {
        sum_prefix(weights, t - 1) + weights[t - 1]
    }
}

/// The raw selection weight of a candidate: its gain, scaled, divided by
/// its altitude, so that lower altitude means more weight.
pub open spec fn weight_of(g: int, altitude: u64) -> int {
    (g * ALTITUDE_SCALE * ALTITUDE_SCALE) / (altitude as int)
}

/// The selection weight actually used: the raw weight, floored at one so
/// that a candidate with positive gain always stays drawable, however
/// high its altitude; in particular a sole candidate is always chosen.
pub open spec fn selection_weight(g: int, altitude: u64) -> int {
    if weight_of(g, altitude) == 0 {
        1
    } else {
        weight_of(g, altitude)
    }
}

/// A sum of weights that are all at least one covers its length.
proof fn lemma_sum_prefix_lower(weights: Seq<u64>, t: int)
    requires
        0 <= t <= weights.len(),
        forall|k: int| 0 <= k < weights.len() ==> (#[trigger] weights[k]) >= 1,
    ensures
        sum_prefix(weights, t) >= t,
    decreases t,
{
    if t > 0 {
        lemma_sum_prefix_lower(weights, t - 1);
    }
}

/// The sum of a prefix looks only at the entries in it.
proof fn lemma_sum_prefix_prefix(s1: Seq<u64>, s2: Seq<u64>, n: int)
    requires
        forall|j: int| 0 <= j < n ==> s1[j] == s2[j],
    ensures
        sum_prefix(s1, n) == sum_prefix(s2, n),
    decreases n,
{
    if n > 0 {
        lemma_sum_prefix_prefix(s1, s2, n - 1);
    }
}

/// A sequence of set flags has as many set flags as entries.
proof fn lemma_count_true_all(s: Seq<bool>, n: int)
    requires
        0 <= n <= s.len(),
        forall|j: int| 0 <= j < n ==> s[j] == true,
    ensures
        count_true_below(s, n) == n,
    decreases n,
{
    if n > 0 {
        lemma_count_true_all(s, n - 1);
    }
}

/// A prefix with no set flag counts zero.
proof fn lemma_count_true_none(s: Seq<bool>, n: int)
    requires
        forall|j: int| 0 <= j < n ==> !s[j],
    ensures
        count_true_below(s, n) == 0,
    decreases n,
{
    if n > 0 {
        lemma_count_true_none(s, n - 1);
    }
}

/// The gain is never negative.
proof fn lemma_gain_below_nonneg(set: SetModel, uncovered: Seq<bool>, i: int, n: int)
    ensures
        gain_below(set, uncovered, i, n) >= 0,
    decreases n,
{
    if n > 0 {
        lemma_gain_below_nonneg(set, uncovered, i, n - 1);
    }
}

/// A subset containing a still-uncovered element has positive gain.
proof fn lemma_gain_pos(set: SetModel, uncovered: Seq<bool>, i: int, j: int, n: int)
    requires
        0 <= j < n,
        set.cell(i, j),
        uncovered[j],
    ensures
        gain_below(set, uncovered, i, n) >= 1,
    decreases n,
{
    if j == n - 1 {
        lemma_gain_below_nonneg(set, uncovered, i, n - 1);
    } else {
        lemma_gain_pos(set, uncovered, i, j, n - 1);
    }
}

/// A zero count of set flags means every flag in the prefix is clear.
proof fn lemma_count_true_zero(s: Seq<bool>, n: int)
    requires
        count_true_below(s, n) == 0,
    ensures
        forall|j: int| 0 <= j < n ==> !s[j],
    decreases n,
{
    if n > 0 {
        lemma_count_true_below_bound(s, n - 1);
        lemma_count_true_zero(s, n - 1);
    }
}

/// Covering with one more subset covers what either part covers.
proof fn lemma_covers_insert(set: SetModel, s1: Seq<usize>, s2: Seq<usize>, x: usize, j: int)
    requires
        s2.to_set() == s1.to_set().insert(x),
    ensures
        set.covers(s2, j) == (set.covers(s1, j) || set.cell(x as int, j)),
{
    if set.covers(s2, j) {
        let k = choose|k: int| 0 <= k < s2.len() && set.cell(s2[k] as int, j);
        assert(s2.contains(s2[k]));
        assert(s2.to_set().contains(s2[k]));
        if s2[k] != x {
            assert(s1.to_set().contains(s2[k]));
            assert(s1.contains(s2[k]));
            let t = choose|t: int| 0 <= t < s1.len() && s1[t] == s2[k];
            assert(set.cell(s1[t] as int, j));
        }
    }
    if set.covers(s1, j) {
        let k = choose|k: int| 0 <= k < s1.len() && set.cell(s1[k] as int, j);
        assert(s1.contains(s1[k]));
        assert(s1.to_set().contains(s1[k]));
        assert(s2.to_set().contains(s1[k]));
        assert(s2.contains(s1[k]));
        let t = choose|t: int| 0 <= t < s2.len() && s2[t] == s1[k];
        assert(set.cell(s2[t] as int, j));
    }
    if set.cell(x as int, j) {
        assert(s2.to_set().contains(x));
        assert(s2.contains(x));
        let t = choose|t: int| 0 <= t < s2.len() && s2[t] == x;
        assert(set.cell(s2[t] as int, j));
    }
}

/// A family that covers every element below `n` covers `n` of them.
proof fn lemma_covered_below_full(set: SetModel, chosen: Seq<usize>, n: int)
    requires
        forall|j: int| 0 <= j < n ==> set.covers(chosen, j),
    ensures
        set.covered_below(chosen, n) == n || n < 0,
    decreases n,
{
    if n > 0 {
        lemma_covered_below_full(set, chosen, n - 1);
    }
}

/// A full coverage count means every element is covered.
proof fn lemma_covered_below_complete(set: SetModel, chosen: Seq<usize>, n: int)
    requires
        set.covered_below(chosen, n) == n,
        n >= 0,
    ensures
        forall|j: int| 0 <= j < n ==> set.covers(chosen, j),
    decreases n,
{
    if n > 0 {
        set.lemma_union_below_len(chosen, n - 1);
        assert(set.covered_below(chosen, n - 1) == n - 1);
        lemma_covered_below_complete(set, chosen, n - 1);
    }
}

/// On a feasible instance, a cover that leaves some element uncovered
/// always leaves a positive-gain subset outside itself.
proof fn lemma_feasible_has_candidate(set: SetModel, elems: Seq<usize>, uncovered: Seq<bool>)
    requires
        set.feasible(),
        uncovered.len() == set.size_set,
        count_true(uncovered) > 0,
        forall|j: int|
            0 <= j < set.size_set ==> (#[trigger] uncovered[j]) == !set.covers(elems, j),
    ensures
        exists|s: usize|
            s < set.size_subsets && !elems.contains(s) && gain(set, uncovered, s as int) > 0,
{
    let n = set.size_set as int;
    assert(exists|j: int| 0 <= j < n && uncovered[j]) by {
        if forall|j: int| 0 <= j < n ==> !uncovered[j] {
            lemma_count_true_none(uncovered, n);
        }
    }
    let j = choose|j: int| 0 <= j < n && uncovered[j];
    assert(set.element_coverable(j));
    let i = choose|i: int| 0 <= i < set.size_subsets && #[trigger] set.cell(i, j);
    let iu = i as usize;
    if elems.contains(iu) {
        let t = choose|t: int| 0 <= t < elems.len() && elems[t] == iu;
        assert(set.cell(elems[t] as int, j));
        assert(set.covers(elems, j));
        assert(false);
    }
    lemma_gain_pos(set, uncovered, i, j, n);
    assert(iu < set.size_subsets && !elems.contains(iu) && gain(set, uncovered, iu as int) > 0);
}

/// How many still-uncovered elements the given subset would cover.
fn gain_exec(set: &SetModel, uncovered: &Vec<bool>, i: usize) -> (g: usize)
    requires
        set.wf(),
        i < set.size_subsets,
        uncovered@.len() == set.size_set,
    ensures
        g == gain(*set, uncovered@, i as int),
        g <= set.size_set,
{
    let n = set.size_set;
    let mut g: usize = 0;
    for j in 0..n
        invariant
            set.wf(),
            i < set.size_subsets,
            uncovered@.len() == n,
            n == set.size_set,
            g == gain_below(*set, uncovered@, i as int, j as int),
            g <= j,
    {
        proof {
            crate::set::lemma_row_col(
                set.size_subsets as int,
                n as int,
                i as int,
                j as int,
                i as int,
                j as int,
            );
        }
        if set.matrix[i * n + j] && uncovered[j] {
            g += 1;
        }
    }
    g
}

/// Picks the candidate whose cumulative weight bracket holds the draw:
/// the first index at which the running weight total passes `r`.
fn pick_weighted(weights: &Vec<u64>, r: u64) -> (idx: usize)
    requires
        r < sum_prefix(weights@, weights@.len() as int),
    ensures
        idx < weights@.len(),
        sum_prefix(weights@, idx as int) <= r < sum_prefix(weights@, idx as int) + weights@[
            idx as int
        ],
{
    let mut rr = r;
    let mut t: usize = 0;
    while t < weights.len()
        invariant
            t <= weights@.len(),
            r < sum_prefix(weights@, weights@.len() as int),
            sum_prefix(weights@, t as int) <= r,
            rr == r - sum_prefix(weights@, t as int),
        decreases weights@.len() - t,
    {
        if rr < weights[t] {
            return t;
        }
        rr = rr - weights[t];
        t += 1;
    }
    proof {
        assert(false);
    }
    0
}

/// Clears the flags of the elements covered by the chosen subset and
/// returns the new number of uncovered elements, which drops by exactly
/// the subset's gain.
fn remove_covered(
    set: &SetModel,
    uncovered: &mut Vec<bool>,
    uncovered_count: usize,
    chosen: usize,
) -> (new_count: usize)
    requires
        set.wf(),
        chosen < set.size_subsets,
        old(uncovered)@.len() == set.size_set,
        uncovered_count == count_true(old(uncovered)@),
    ensures
        final(uncovered)@.len() == set.size_set,
        forall|j: int|
            0 <= j < set.size_set ==> final(uncovered)@[j] == (old(uncovered)@[j]
                && !set.cell(chosen as int, j)),
        new_count == count_true(final(uncovered)@),
        new_count == uncovered_count - gain(*set, old(uncovered)@, chosen as int),
{
    let n = set.size_set;
    let mut count = uncovered_count;
    let ghost orig = uncovered@;
    proof {
        lemma_count_true_below_bound(orig, n as int);
    }
    let mut j: usize = 0;
    while j < n
        invariant
            set.wf(),
            chosen < set.size_subsets,
            n == set.size_set,
            j <= n,
            uncovered@.len() == n,
            orig.len() == n,
            orig == old(uncovered)@,
            uncovered_count == count_true(orig),
            forall|jj: int|
                0 <= jj < j ==> (#[trigger] uncovered@[jj]) == (orig[jj] && !set.cell(
                    chosen as int,
                    jj,
                )),
            forall|jj: int| j <= jj < n ==> (#[trigger] uncovered@[jj]) == orig[jj],
            count == count_true(uncovered@),
            count == uncovered_count - gain_below(*set, orig, chosen as int, j as int),
            count <= uncovered_count,
        decreases n - j,
    {
        proof {
            crate::set::lemma_row_col(
                set.size_subsets as int,
                n as int,
                chosen as int,
                j as int,
                chosen as int,
                j as int,
            );
        }
        let covers_here = set.matrix[chosen * n + j];
        proof {
            assert(covers_here == set.cell(chosen as int, j as int));
        }
        let still_uncovered = uncovered[j];
        if covers_here && still_uncovered {
            let ghost before = uncovered@;
            uncovered.set(j, false);
            proof {
                lemma_count_true_below_update(before, j as int, n as int);
                lemma_count_true_below_bound(before, j as int);
                lemma_count_true_mono(before, j as int + 1, n as int);
                assert(uncovered@[j as int] == false);
                assert forall|jj: int|
                    0 <= jj < j + 1 implies uncovered@[jj] == (orig[jj] && !set.cell(
                    chosen as int,
                    jj,
                )) by {
                    if jj < j {
                        assert(uncovered@[jj] == before[jj]);
                    }
                }
            }
            count = count - 1;
        } else {
            proof {
                assert forall|jj: int|
                    0 <= jj < j + 1 implies uncovered@[jj] == (orig[jj] && !set.cell(
                    chosen as int,
                    jj,
                )) by {
                    if jj == j {
                        assert(uncovered@[j as int] == orig[j as int]);
                        if covers_here {
                            assert(!still_uncovered);
                            assert(uncovered@[j as int] == false);
                        } else {
                            assert(!set.cell(chosen as int, j as int));
                        }
                    } else {
                        assert(uncovered@[jj] == (orig[jj] && !set.cell(chosen as int, jj)));
                    }
                }
            }
        }
        j += 1;
    }
    count
}

/// The river formation dynamics engine: the altitude landscape, the
/// search parameters, a seeded random source, and the convergence curve
/// of best cost numerators, one per completed iteration.
pub struct RiverFormationDynamics {
    altitude: Vec<u64>,
    num_drops: usize,
    max_iterations: usize,
    erosion_rate_k: u64,
    sedimentation_rate: u64,
    random: rand::rngs::StdRng,
    convergence_curve: Vec<usize>,
}

impl RiverFormationDynamics {
    /// The altitude landscape, in fixed point.
    pub closed spec fn spec_altitude(self) -> Seq<u64> {
        self.altitude@
    }

    /// The recorded convergence curve of best cost numerators.
    pub closed spec fn spec_curve(self) -> Seq<usize> {
        self.convergence_curve@
    }

    /// The number of drops sent per iteration.
    pub closed spec fn spec_num_drops(self) -> usize {
        self.num_drops
    }

    /// The number of iterations a solve runs.
    pub closed spec fn spec_max_iterations(self) -> usize {
        self.max_iterations
    }

    /// The erosion rate, in fixed point.
    pub closed spec fn spec_erosion_rate(self) -> u64 {
        self.erosion_rate_k
    }

    /// The sedimentation rate, in fixed point.
    pub closed spec fn spec_sedimentation_rate(self) -> u64 {
        self.sedimentation_rate
    }

    /// No altitude ever falls below the fixed-point floor of one.
    pub open spec fn wf(self) -> bool {
        forall|k: usize|
            k < self.spec_altitude().len() ==> #[trigger] self.spec_altitude()[k as int]
                >= ALTITUDE_SCALE
    }

    /// A fresh engine: a uniform altitude landscape over the subsets, the
    /// given parameters, and a generator seeded for reproducible runs.
    pub fn new(
        num_drops: usize,
        max_iterations: usize,
        erosion_rate_k: u64,
        sedimentation_rate: u64,
        initial_altitude: u64,
        num_subsets: usize,
        seed: u64,
    ) -> (r: RiverFormationDynamics)
        requires
            initial_altitude >= ALTITUDE_SCALE,
        ensures
            r.wf(),
            r.spec_altitude().len() == num_subsets,
            forall|k: int|
                0 <= k < num_subsets ==> #[trigger] r.spec_altitude()[k] == initial_altitude,
            r.spec_curve() == Seq::<usize>::empty(),
            r.spec_num_drops() == num_drops,
            r.spec_max_iterations() == max_iterations,
            r.spec_erosion_rate() == erosion_rate_k,
            r.spec_sedimentation_rate() == sedimentation_rate,
    {
        let mut altitude: Vec<u64> = Vec::new();
        let mut k: usize = 0;
        while k < num_subsets
            invariant
                k <= num_subsets,
                altitude@.len() == k,
                forall|t: int| 0 <= t < k ==> #[trigger] altitude@[t] == initial_altitude,
            decreases num_subsets - k,
        {
            altitude.push(initial_altitude);
            k += 1;
        }
        RiverFormationDynamics {
            altitude,
            num_drops,
            max_iterations,
            erosion_rate_k,
            sedimentation_rate,
            random: rng_from_seed(seed),
            convergence_curve: Vec::new(),
        }
    }

    /// A copy of the convergence curve recorded by the last solve.
    pub fn get_convergence_curve(&self) -> (r: Vec<usize>)
        ensures
            r@ == self.spec_curve(),
    {
        let mut r: Vec<usize> = Vec::new();
        let mut k: usize = 0;
        while k < self.convergence_curve.len()
            invariant
                k <= self.convergence_curve@.len(),
                r@ == self.convergence_curve@.take(k as int),
            decreases self.convergence_curve@.len() - k,
        {
            r.push(self.convergence_curve[k]);
            proof {
                assert(r@ =~= self.convergence_curve@.take(k as int + 1));
            }
            k += 1;
        }
        proof {
            assert(self.convergence_curve@.take(self.convergence_curve@.len() as int)
                =~= self.convergence_curve@);
        }
        r
    }

    /// Gathers the candidates for the next step of a drop: every subset
    /// not yet chosen whose marginal gain is positive, with its selection
    /// weight and the weights' total.
    fn build_candidates(&self, set: &SetModel, cover: &SubsetCover, uncovered: &Vec<bool>) -> (res:
        (Vec<usize>, Vec<u64>, u64))
        requires
            set.wf(),
            self.wf(),
            self.spec_altitude().len() == set.size_subsets,
            uncovered@.len() == set.size_set,
            (set.size_subsets as int) * (set.size_set as int) * (ALTITUDE_SCALE as int)
                <= u64::MAX,
        ensures
            res.0@.len() == res.1@.len(),
            forall|t: int| 0 <= t < res.0@.len() ==> (#[trigger] res.0@[t]) < set.size_subsets,
            forall|a: int, b: int| 0 <= a < b < res.0@.len() ==> res.0@[a] < res.0@[b],
            forall|t: int|
                0 <= t < res.0@.len() ==> !cover.elements@.contains(#[trigger] res.0@[t]),
            forall|t: int|
                0 <= t < res.0@.len() ==> gain(*set, uncovered@, (#[trigger] res.0@[t]) as int)
                    > 0,
            forall|t: int|
                0 <= t < res.1@.len() ==> (#[trigger] res.1@[t]) == selection_weight(
                    gain(*set, uncovered@, res.0@[t] as int),
                    self.spec_altitude()[res.0@[t] as int],
                ),
            (res.2 > 0) == (res.0@.len() > 0),
            forall|s: usize|
                s < set.size_subsets && !cover.elements@.contains(s) && gain(
                    *set,
                    uncovered@,
                    s as int,
                ) > 0 ==> res.0@.contains(s),
            res.2 == sum_prefix(res.1@, res.1@.len() as int),
    {
        let count = set.size_subsets;
        let mut cands: Vec<usize> = Vec::new();
        let mut weights: Vec<u64> = Vec::new();
        let mut total: u64 = 0;
        let ghost kbound = (set.size_set as int) * (ALTITUDE_SCALE as int);
        for s in 0..count
            invariant
                set.wf(),
                self.wf(),
                self.spec_altitude().len() == count,
                count == set.size_subsets,
                uncovered@.len() == set.size_set,
                (count as int) * (set.size_set as int) * (ALTITUDE_SCALE as int) <= u64::MAX,
                kbound == (set.size_set as int) * (ALTITUDE_SCALE as int),
                cands@.len() == weights@.len(),
                forall|t: int| 0 <= t < cands@.len() ==> (#[trigger] cands@[t]) < s,
                forall|a: int, b: int| 0 <= a < b < cands@.len() ==> cands@[a] < cands@[b],
                forall|t: int|
                    0 <= t < cands@.len() ==> !cover.elements@.contains(#[trigger] cands@[t]),
                forall|t: int|
                    0 <= t < cands@.len() ==> gain(*set, uncovered@, (#[trigger] cands@[t]) as int)
                        > 0,
                forall|t: int|
                    0 <= t < weights@.len() ==> (#[trigger] weights@[t]) == selection_weight(
                        gain(*set, uncovered@, cands@[t] as int),
                        self.spec_altitude()[cands@[t] as int],
                    ),
                forall|t: int| 0 <= t < weights@.len() ==> (#[trigger] weights@[t]) >= 1,
                forall|ss: usize|
                    ss < s && !cover.elements@.contains(ss) && gain(*set, uncovered@, ss as int)
                        > 0 ==> cands@.contains(ss),
                total == sum_prefix(weights@, weights@.len() as int),
                total <= cands@.len() * kbound,
        {
            if !crate::set::contains_usize(&cover.elements, s) {
                let g = gain_exec(set, uncovered, s);
                if g > 0 {
                    let alt = self.altitude[s];
                    proof {
                        assert(self.spec_altitude()[s as int] >= ALTITUDE_SCALE);
                        assert(kbound <= u64::MAX) by (nonlinear_arith)
                            requires
                                (count as int) * (set.size_set as int) * (ALTITUDE_SCALE as int)
                                    <= u64::MAX,
                                count >= 1,
                                kbound == (set.size_set as int) * (ALTITUDE_SCALE as int),
                                set.size_set >= 0,
                        ;
                    }
                    proof {
                        assert((g as u128) * (ALTITUDE_SCALE as u128) * (ALTITUDE_SCALE as u128)
                            <= u128::MAX && (g as u128) * (ALTITUDE_SCALE as u128) <= u128::MAX)
                            by (nonlinear_arith)
                            requires
                                (g as u128) <= (u64::MAX as u128),
                        ;
                    }
                    let wide: u128 = (g as u128) * (ALTITUDE_SCALE as u128) * (
                    ALTITUDE_SCALE as u128);
                    let w128: u128 = wide / (alt as u128);
                    proof {
                        lemma_div_is_ordered_by_denominator(
                            wide as int,
                            ALTITUDE_SCALE as int,
                            alt as int,
                        );
                        lemma_div_multiples_vanish(
                            (g as int) * (ALTITUDE_SCALE as int),
                            ALTITUDE_SCALE as int,
                        );
                        assert(w128 <= (g as int) * (ALTITUDE_SCALE as int));
                        assert((g as int) * (ALTITUDE_SCALE as int) <= kbound) by (nonlinear_arith)
                            requires
                                0 <= g <= set.size_set,
                                kbound == (set.size_set as int) * (ALTITUDE_SCALE as int),
                        ;
                    }
                    // a positive gain keeps a positive weight even where
                    // the scaled quotient truncates to zero
                    let w: u64 = if w128 == 0 {
                        1
                    } else {
                        w128 as u64
                    };
                    let ghost old_cands = cands@;
                    let ghost old_weights = weights@;
                    cands.push(s);
                    weights.push(w);
                    proof {
                        lemma_sum_prefix_prefix(weights@, old_weights, old_weights.len() as int);
                        lemma_increasing_len(cands@, count as int);
                        assert(total + w <= (old_cands.len() + 1) * kbound && (old_cands.len() + 1)
                            * kbound <= (count as int) * kbound && (count as int) * kbound
                            <= u64::MAX) by (nonlinear_arith)
                            requires
                                total <= old_cands.len() * kbound,
                                w <= kbound,
                                old_cands.len() + 1 <= count as int,
                                kbound >= 0,
                                (count as int) * (set.size_set as int) * (ALTITUDE_SCALE as int)
                                    <= u64::MAX,
                                kbound == (set.size_set as int) * (ALTITUDE_SCALE as int),
                        ;
                        assert forall|ss: usize|
                            ss < s + 1 && !cover.elements@.contains(ss) && gain(
                                *set,
                                uncovered@,
                                ss as int,
                            ) > 0 implies cands@.contains(ss) by {
                            if ss < s {
                                assert(old_cands.contains(ss));
                                let k = choose|k: int|
                                    0 <= k < old_cands.len() && old_cands[k] == ss;
                                assert(cands@[k] == ss);
                            } else {
                                assert(cands@[cands@.len() - 1] == ss);
                            }
                        }
                    }
                    total = total + w;
                }
            }
        }
        proof {
            if cands@.len() > 0 {
                lemma_sum_prefix_lower(weights@, weights@.len() as int);
            }
        }
        (cands, weights, total)
    }

    /// Deposits sediment: raises the altitude of every used subset by the
    /// given amount, saturating at the top of the range.
    fn raise_used(&mut self, used: &Vec<usize>, amount: u64)
        requires
            old(self).wf(),
            forall|a: int, b: int| 0 <= a < b < used@.len() ==> used@[a] < used@[b],
            forall|t: int|
                0 <= t < used@.len() ==> (#[trigger] used@[t]) < old(self).spec_altitude().len(),
        ensures
            final(self).wf(),
            final(self).spec_altitude().len() == old(self).spec_altitude().len(),
            forall|k: usize|
                k < final(self).spec_altitude().len() ==> final(self).spec_altitude()[k as int]
                    == if used@.contains(k) {
                    sat_add_u64(old(self).spec_altitude()[k as int], amount)
                } else {
                    #[trigger] old(self).spec_altitude()[k as int]
                },
            final(self).convergence_curve == old(self).convergence_curve,
            final(self).num_drops == old(self).num_drops,
            final(self).max_iterations == old(self).max_iterations,
            final(self).erosion_rate_k == old(self).erosion_rate_k,
            final(self).sedimentation_rate == old(self).sedimentation_rate,
            final(self).random == old(self).random,
    {
        let n_used = used.len();
        for t in 0..n_used
            invariant
                n_used == used@.len(),
                forall|a: int, b: int| 0 <= a < b < used@.len() ==> used@[a] < used@[b],
                forall|tt: int|
                    0 <= tt < used@.len() ==> (#[trigger] used@[tt]) < self.altitude@.len(),
                self.altitude@.len() == old(self).altitude@.len(),
                forall|k: usize|
                    k < self.altitude@.len() ==> self.altitude@[k as int] == if used@.take(
                        t as int,
                    ).contains(k) {
                        sat_add_u64(old(self).altitude@[k as int], amount)
                    } else {
                        #[trigger] old(self).altitude@[k as int]
                    },
                self.convergence_curve == old(self).convergence_curve,
                self.num_drops == old(self).num_drops,
                self.max_iterations == old(self).max_iterations,
                self.erosion_rate_k == old(self).erosion_rate_k,
                self.sedimentation_rate == old(self).sedimentation_rate,
                self.random == old(self).random,
        {
            let i = used[t];
            proof {
                if used@.take(t as int).contains(i) {
                    let p = choose|p: int| 0 <= p < t && used@.take(t as int)[p] == i;
                    assert(used@[p] == used@[t as int]);
                    assert(false);
                }
            }
            let a = self.altitude[i];
            let na = if a > u64::MAX - amount {
                u64::MAX
            } else {
                a + amount
            };
            self.altitude.set(i, na);
            proof {
                assert(used@.take(t as int + 1) =~= used@.take(t as int).push(i));
                assert forall|k: usize|
                    k < self.altitude@.len() implies self.altitude@[k as int] == (if used@.take(
                    t as int + 1,
                ).contains(k) {
                    sat_add_u64(old(self).altitude@[k as int], amount)
                } else {
                    #[trigger] old(self).altitude@[k as int]
                }) by {
                    let taken = used@.take(t as int + 1);
                    if k == i {
                        assert(taken[t as int] == i);
                        assert(taken.contains(i));
                    } else {
                        if taken.contains(k) {
                            let p = choose|p: int| 0 <= p < taken.len() && taken[p] == k;
                            assert(p < t);
                            assert(used@.take(t as int)[p] == k);
                        }
                        if used@.take(t as int).contains(k) {
                            let p = choose|p: int| 0 <= p < t && used@.take(t as int)[p] == k;
                            assert(taken[p] == k);
                        }
                    }
                }
            }
        }
        proof {
            assert(used@.take(used@.len() as int) =~= used@);
            assert forall|k: usize|
                k < self.spec_altitude().len() implies #[trigger] self.spec_altitude()[k as int]
                >= ALTITUDE_SCALE by {
                assert(old(self).spec_altitude()[k as int] >= ALTITUDE_SCALE);
                assert(sat_add_u64(old(self).altitude@[k as int], amount) >= old(
                    self,
                ).altitude@[k as int]);
            }
        }
    }

    /// Erodes: lowers the altitude of every used subset by the given
    /// amount, clamped at the fixed-point floor of one.
    fn lower_used(&mut self, used: &Vec<usize>, amount: u64)
        requires
            old(self).wf(),
            forall|a: int, b: int| 0 <= a < b < used@.len() ==> used@[a] < used@[b],
            forall|t: int|
                0 <= t < used@.len() ==> (#[trigger] used@[t]) < old(self).spec_altitude().len(),
        ensures
            final(self).wf(),
            final(self).spec_altitude().len() == old(self).spec_altitude().len(),
            forall|k: usize|
                k < final(self).spec_altitude().len() ==> final(self).spec_altitude()[k as int]
                    == if used@.contains(k) {
                    erode_altitude(old(self).spec_altitude()[k as int], amount)
                } else {
                    #[trigger] old(self).spec_altitude()[k as int]
                },
            final(self).convergence_curve == old(self).convergence_curve,
            final(self).num_drops == old(self).num_drops,
            final(self).max_iterations == old(self).max_iterations,
            final(self).erosion_rate_k == old(self).erosion_rate_k,
            final(self).sedimentation_rate == old(self).sedimentation_rate,
            final(self).random == old(self).random,
    {
        let n_used = used.len();
        for t in 0..n_used
            invariant
                n_used == used@.len(),
                old(self).wf(),
                forall|a: int, b: int| 0 <= a < b < used@.len() ==> used@[a] < used@[b],
                forall|tt: int|
                    0 <= tt < used@.len() ==> (#[trigger] used@[tt]) < self.altitude@.len(),
                self.altitude@.len() == old(self).altitude@.len(),
                forall|k: usize|
                    k < self.altitude@.len() ==> self.altitude@[k as int] == if used@.take(
                        t as int,
                    ).contains(k) {
                        erode_altitude(old(self).altitude@[k as int], amount)
                    } else {
                        #[trigger] old(self).altitude@[k as int]
                    },
                self.convergence_curve == old(self).convergence_curve,
                self.num_drops == old(self).num_drops,
                self.max_iterations == old(self).max_iterations,
                self.erosion_rate_k == old(self).erosion_rate_k,
                self.sedimentation_rate == old(self).sedimentation_rate,
                self.random == old(self).random,
        {
            let i = used[t];
            proof {
                if used@.take(t as int).contains(i) {
                    let p = choose|p: int| 0 <= p < t && used@.take(t as int)[p] == i;
                    assert(used@[p] == used@[t as int]);
                    assert(false);
                }
                assert(old(self).spec_altitude()[i as int] >= ALTITUDE_SCALE);
                assert(self.altitude@[i as int] == old(self).altitude@[i as int]);
            }
            let a = self.altitude[i];
            let na = if a - ALTITUDE_SCALE < amount {
                ALTITUDE_SCALE
            } else {
                a - amount
            };
            self.altitude.set(i, na);
            proof {
                assert(used@.take(t as int + 1) =~= used@.take(t as int).push(i));
                assert forall|k: usize|
                    k < self.altitude@.len() implies self.altitude@[k as int] == (if used@.take(
                    t as int + 1,
                ).contains(k) {
                    erode_altitude(old(self).altitude@[k as int], amount)
                } else {
                    #[trigger] old(self).altitude@[k as int]
                }) by {
                    let taken = used@.take(t as int + 1);
                    if k == i {
                        assert(taken[t as int] == i);
                        assert(taken.contains(i));
                    } else {
                        if taken.contains(k) {
                            let p = choose|p: int| 0 <= p < taken.len() && taken[p] == k;
                            assert(p < t);
                            assert(used@.take(t as int)[p] == k);
                        }
                        if used@.take(t as int).contains(k) {
                            let p = choose|p: int| 0 <= p < t && used@.take(t as int)[p] == k;
                            assert(taken[p] == k);
                        }
                    }
                }
            }
        }
        proof {
            assert(used@.take(used@.len() as int) =~= used@);
            assert forall|k: usize|
                k < self.spec_altitude().len() implies #[trigger] self.spec_altitude()[k as int]
                >= ALTITUDE_SCALE by {
                assert(old(self).spec_altitude()[k as int] >= ALTITUDE_SCALE);
            }
        }
    }

    /// Sends one drop through the instance: builds a candidate cover by
    /// weighted random choice until the universe is covered or no subset
    /// yields positive gain; a completed cover may replace the best cover
    /// and erodes the altitudes it used, while a dried-up drop deposits
    /// sediment on its altitudes and is discarded. On a feasible instance
    /// a drop never dries up, so the best cover leaves every drop either
    /// untouched or replaced by a strictly cheaper full cover — and, as
    /// long as a full cover is worth more than its subsets, never stays
    /// empty.
    fn run_drop(&mut self, set: &SetModel, best: &mut SubsetCover)
        requires
            set.wf(),
            cost_fits(*set),
            set.size_subsets > 0,
            old(self).wf(),
            old(self).spec_altitude().len() == set.size_subsets,
            (set.size_subsets as int) * (set.size_set as int) * (ALTITUDE_SCALE as int)
                <= u64::MAX,
            old(best).wf(*set),
        ensures
            final(self).wf(),
            final(self).spec_altitude().len() == set.size_subsets,
            final(self).convergence_curve == old(self).convergence_curve,
            final(self).num_drops == old(self).num_drops,
            final(self).max_iterations == old(self).max_iterations,
            final(self).erosion_rate_k == old(self).erosion_rate_k,
            final(self).sedimentation_rate == old(self).sedimentation_rate,
            final(best).wf(*set),
            final(best).cost_numerator <= old(best).cost_numerator,
            *final(best) == *old(best) || (final(best).cost_numerator < old(best).cost_numerator
                && set.covered_count(final(best).elements@) == set.size_set),
            set.feasible() && set.size_set * set.max_subset >= 2 && (old(best).elements@.len()
                == 0 || set.covered_count(old(best).elements@) == set.size_set)
                ==> final(best).elements@.len() > 0
                && set.covered_count(final(best).elements@) == set.size_set,
    {
        let n = set.size_set;
        let mut current = SubsetCover::new(set);
        let mut uncovered: Vec<bool> = Vec::new();
        let mut k: usize = 0;
        while k < n
            invariant
                k <= n,
                uncovered@.len() == k,
                forall|t: int| 0 <= t < k ==> (#[trigger] uncovered@[t]) == true,
            decreases n - k,
        {
            uncovered.push(true);
            k += 1;
        }
        let mut uncovered_count = n;
        proof {
            lemma_count_true_all(uncovered@, n as int);
            assert forall|j: int|
                0 <= j < n implies (#[trigger] uncovered@[j]) == !set.covers(
                current.elements@,
                j,
            ) by {
                assert(current.elements@.len() == 0);
            }
        }
        let mut stuck = false;
        while uncovered_count > 0 && !stuck
            invariant
                set.wf(),
                cost_fits(*set),
                set.size_subsets > 0,
                (set.size_subsets as int) * (set.size_set as int) * (ALTITUDE_SCALE as int)
                    <= u64::MAX,
                n == set.size_set,
                self.wf(),
                self.spec_altitude().len() == set.size_subsets,
                self.convergence_curve == old(self).convergence_curve,
                self.num_drops == old(self).num_drops,
                self.max_iterations == old(self).max_iterations,
                self.erosion_rate_k == old(self).erosion_rate_k,
                self.sedimentation_rate == old(self).sedimentation_rate,
                current.wf(*set),
                uncovered@.len() == n,
                uncovered_count == count_true(uncovered@),
                forall|j: int|
                    0 <= j < n ==> (#[trigger] uncovered@[j]) == !set.covers(
                        current.elements@,
                        j,
                    ),
                stuck ==> !set.feasible(),
            decreases uncovered_count, if stuck {
                0int
            } else {
                1int
            },
        {
            let (cands, weights, total) = self.build_candidates(set, &current, &uncovered);
            if total == 0 {
                // on a feasible instance some uncovered element lies in a
                // subset not yet chosen, which is then a candidate with
                // positive weight; so a dry drop refutes feasibility
                proof {
                    if set.feasible() {
                        lemma_feasible_has_candidate(*set, current.elements@, uncovered@);
                        let su = choose|su: usize|
                            su < set.size_subsets && !current.elements@.contains(su) && gain(
                                *set,
                                uncovered@,
                                su as int,
                            ) > 0;
                        assert(cands@.contains(su));
                        assert(cands@.len() > 0);
                        assert(false);
                    }
                }
                stuck = true;
            } else {
                let rdraw = rng_below(&mut self.random, total);
                let idx = pick_weighted(&weights, rdraw);
                proof {
                    assert(cands@[idx as int] < set.size_subsets);
                    assert(gain(*set, uncovered@, cands@[idx as int] as int) > 0);
                }
                let chosen = cands[idx];
                let ghost elems_before = current.elements@;
                proof {
                    assert(!elems_before.contains(chosen));
                }
                match current.add_subset(chosen, set) {
                    Ok(_) => {},
                    Err(_) => {
                        proof {
                            assert(false);
                        }
                    },
                }
                let ghost before_unc = uncovered@;
                let new_count = remove_covered(set, &mut uncovered, uncovered_count, chosen);
                proof {
                    assert(new_count == uncovered_count - gain(*set, before_unc, chosen as int));
                    assert(current.elements@.to_set() == elems_before.to_set().insert(chosen));
                    assert forall|j: int|
                        0 <= j < n implies (#[trigger] uncovered@[j]) == !set.covers(
                        current.elements@,
                        j,
                    ) by {
                        lemma_covers_insert(*set, elems_before, current.elements@, chosen, j);
                        assert(uncovered@[j] == (before_unc[j] && !set.cell(chosen as int, j)));
                        assert(before_unc[j] == !set.covers(elems_before, j));
                    }
                }
                uncovered_count = new_count;
            }
        }
        if uncovered_count > 0 {
            // sedimentation: the uncovered share of the universe times the
            // sedimentation rate, both in fixed point
            proof {
                lemma_count_true_below_bound(uncovered@, n as int);
                assert(n > 0);
            }
            proof {
                assert((uncovered_count as u128) * (self.sedimentation_rate as u128) <= u128::MAX)
                    by (nonlinear_arith)
                    requires
                        (uncovered_count as u128) <= (u64::MAX as u128),
                        (self.sedimentation_rate as u128) <= (u64::MAX as u128),
                ;
            }
            let amount128: u128 = (uncovered_count as u128) * (self.sedimentation_rate as u128) / (
            n as u128);
            let amount: u64 = if amount128 > (u64::MAX as u128) {
                u64::MAX
            } else {
                amount128 as u64
            };
            self.raise_used(&current.elements, amount);
        } else {
            // a finished drop covers the whole universe
            proof {
                lemma_count_true_zero(uncovered@, n as int);
                assert forall|j: int| 0 <= j < n implies set.covers(current.elements@, j) by {
                    assert(!uncovered@[j]);
                }
                lemma_covered_below_full(*set, current.elements@, n as int);
                assert(set.covered_count(current.elements@) == set.size_set);
                if set.size_set >= 1 {
                    // it holds at least one subset, the one covering the
                    // first element
                    assert(set.covers(current.elements@, 0));
                    assert(current.elements@.len() > 0);
                }
                // with nothing uncovered its numerator is its size alone
                assert((set.size_set - set.covered_count(current.elements@)) * set.max_subset
                    * set.size_subsets == 0) by (nonlinear_arith)
                    requires
                        set.size_set - set.covered_count(current.elements@) == 0,
                ;
                assert(current.cost_numerator == current.elements@.len());
                lemma_increasing_len(current.elements@, set.size_subsets as int);
            }
            let cover_cost = current.cost_numerator;
            if cover_cost < best.cost_numerator {
                best.apply_neighbour(&current);
                proof {
                    assert(set.covered_count(best.elements@) == set.size_set);
                }
            } else {
                proof {
                    // the best can only fail to improve when it already
                    // is a full cover: an empty best costs the full
                    // penalty, which any finished drop beats
                    if set.feasible() && set.size_set * set.max_subset >= 2 && old(
                        best,
                    ).elements@.len() == 0 {
                        assert(best.elements@ =~= Seq::<usize>::empty());
                        crate::subset_cover::lemma_empty_cover_cost(*set);
                        assert(best.cost_numerator == set.size_set * set.max_subset
                            * set.size_subsets);
                        assert((set.size_set as int) * (set.max_subset as int) * (
                        set.size_subsets as int) > set.size_subsets as int) by (nonlinear_arith)
                            requires
                                (set.size_set as int) * (set.max_subset as int) >= 2,
                                set.size_subsets >= 1,
                        ;
                        assert(false);
                    }
                    if set.feasible() && set.size_set * set.max_subset >= 2 && set.covered_count(
                        old(best).elements@,
                    ) == set.size_set {
                        assert(set.size_set >= 1) by (nonlinear_arith)
                            requires
                                (set.size_set as int) * (set.max_subset as int) >= 2,
                        ;
                        lemma_covered_below_complete(*set, best.elements@, set.size_set as int);
                        assert(set.covers(best.elements@, 0));
                        assert(best.elements@.len() > 0);
                    }
                }
            }
            // erosion: the erosion rate divided by the cover's cost; the
            // cost being numerator / subset_count, the quotient is
            // rate * subset_count / numerator. A numerator of zero is
            // possible only for the empty cover of an empty universe;
            // eroding by everything then sends the used altitudes to the
            // floor, as an unbounded quotient would
            let amount: u64 = if cover_cost == 0 {
                u64::MAX
            } else {
                proof {
                    assert((self.erosion_rate_k as u128) * (set.size_subsets as u128)
                        <= u128::MAX) by (nonlinear_arith)
                        requires
                            (self.erosion_rate_k as u128) <= (u64::MAX as u128),
                            (set.size_subsets as u128) <= (u64::MAX as u128),
                    ;
                }
                let amount128: u128 = (self.erosion_rate_k as u128) * (set.size_subsets as u128)
                    / (cover_cost as u128);
                if amount128 > (u64::MAX as u128) {
                    u64::MAX
                } else {
                    amount128 as u64
                }
            };
            self.lower_used(&current.elements, amount);
        }
    }

    /// Runs the full search: `max_iterations` iterations of `num_drops`
    /// drops each, recording the best cost numerator at the start of each
    /// iteration. The recorded curve never rises, never exceeds the empty
    /// cover's cost, starts at it, and ends no lower than the cost of the
    /// returned best cover; no altitude ever leaves the floor behind; the
    /// best cover is empty or covers the whole universe; and on a
    /// feasible instance, searched at all, it is a full cover.
    pub fn solve(&mut self, set: &SetModel) -> (best: SubsetCover)
        requires
            set.wf(),
            cost_fits(*set),
            set.size_subsets > 0,
            old(self).wf(),
            old(self).spec_altitude().len() == set.size_subsets,
            (set.size_subsets as int) * (set.size_set as int) * (ALTITUDE_SCALE as int)
                <= u64::MAX,
        ensures
            final(self).wf(),
            final(self).spec_altitude().len() == set.size_subsets,
            final(self).spec_num_drops() == old(self).spec_num_drops(),
            final(self).spec_max_iterations() == old(self).spec_max_iterations(),
            final(self).spec_curve().len() == old(self).spec_max_iterations(),
            best.wf(*set),
            best.cost_numerator <= spec_cost_numerator(*set, Seq::<usize>::empty()),
            best.elements@.len() > 0 ==> set.covered_count(best.elements@) == set.size_set,
            set.feasible() && set.size_set * set.max_subset >= 2 && old(
                self,
            ).spec_max_iterations() > 0 && old(self).spec_num_drops() > 0
                ==> best.elements@.len() > 0 && set.covered_count(best.elements@)
                == set.size_set,
            forall|a: int, b: int|
                #![trigger final(self).spec_curve()[a], final(self).spec_curve()[b]]
                0 <= a <= b < final(self).spec_curve().len() ==> final(self).spec_curve()[a]
                    >= final(self).spec_curve()[b],
            forall|a: int|
                0 <= a < final(self).spec_curve().len() ==> #[trigger] final(self).spec_curve()[a]
                    <= spec_cost_numerator(*set, Seq::<usize>::empty()),
            old(self).spec_max_iterations() > 0 ==> final(self).spec_curve()[0]
                == spec_cost_numerator(*set, Seq::<usize>::empty()),
            old(self).spec_max_iterations() > 0 ==> best.cost_numerator
                <= final(self).spec_curve()[final(self).spec_curve().len() - 1],
    {
        self.convergence_curve = Vec::new();
        let mut best = SubsetCover::new(set);
        let ghost empty_cost = spec_cost_numerator(*set, Seq::<usize>::empty());
        let mi = self.max_iterations;
        let mut i: usize = 0;
        while i < mi
            invariant
                set.wf(),
                cost_fits(*set),
                set.size_subsets > 0,
                (set.size_subsets as int) * (set.size_set as int) * (ALTITUDE_SCALE as int)
                    <= u64::MAX,
                i <= mi,
                self.wf(),
                self.spec_altitude().len() == set.size_subsets,
                self.num_drops == old(self).num_drops,
                self.max_iterations == old(self).max_iterations,
                mi == self.max_iterations,
                self.convergence_curve@.len() == i,
                best.wf(*set),
                best.cost_numerator <= empty_cost,
                best.elements@.len() > 0 ==> set.covered_count(best.elements@) == set.size_set,
                set.feasible() && set.size_set * set.max_subset >= 2 && i > 0 && old(
                    self,
                ).spec_num_drops() > 0 ==> best.elements@.len() > 0 && set.covered_count(
                    best.elements@,
                ) == set.size_set,
                empty_cost == spec_cost_numerator(*set, Seq::<usize>::empty()),
                forall|a: int, b: int|
                    #![trigger self.convergence_curve@[a], self.convergence_curve@[b]]
                    0 <= a <= b < i ==> self.convergence_curve@[a] >= self.convergence_curve@[b],
                forall|a: int|
                    0 <= a < i ==> #[trigger] self.convergence_curve@[a] <= empty_cost,
                i > 0 ==> self.convergence_curve@[0] == empty_cost,
                i > 0 ==> best.cost_numerator <= self.convergence_curve@[i - 1],
                i == 0 ==> best.cost_numerator == empty_cost,
            decreases mi - i,
        {
            let ghost old_curve = self.convergence_curve@;
            let entry = best.cost_numerator;
            self.convergence_curve.push(entry);
            let nd = self.num_drops;
            let mut d: usize = 0;
            while d < nd
                invariant
                    set.wf(),
                    cost_fits(*set),
                    set.size_subsets > 0,
                    (set.size_subsets as int) * (set.size_set as int) * (ALTITUDE_SCALE as int)
                        <= u64::MAX,
                    d <= nd,
                    i < mi,
                    self.wf(),
                    self.spec_altitude().len() == set.size_subsets,
                    self.num_drops == old(self).num_drops,
                    self.max_iterations == old(self).max_iterations,
                    mi == self.max_iterations,
                    self.convergence_curve@ == old_curve.push(entry),
                    old_curve.len() == i,
                    nd == self.num_drops,
                    best.wf(*set),
                    best.cost_numerator <= entry,
                    best.elements@.len() > 0 ==> set.covered_count(best.elements@)
                        == set.size_set,
                    set.feasible() && set.size_set * set.max_subset >= 2 && ((i > 0 && nd > 0)
                        || d > 0) ==> best.elements@.len() > 0 && set.covered_count(
                        best.elements@,
                    ) == set.size_set,
                    entry <= empty_cost,
                    empty_cost == spec_cost_numerator(*set, Seq::<usize>::empty()),
                    forall|a: int, b: int|
                        #![trigger old_curve[a], old_curve[b]]
                        0 <= a <= b < i ==> old_curve[a] >= old_curve[b],
                    forall|a: int| 0 <= a < i ==> #[trigger] old_curve[a] <= empty_cost,
                    i > 0 ==> old_curve[0] == empty_cost,
                    i > 0 ==> entry <= old_curve[i - 1],
                    i == 0 ==> entry == empty_cost,
                decreases nd - d,
            {
                self.run_drop(set, &mut best);
                d += 1;
            }
            proof {
                assert forall|a: int, b: int|
                    #![trigger self.convergence_curve@[a], self.convergence_curve@[b]]
                    0 <= a <= b < i + 1 implies self.convergence_curve@[a]
                    >= self.convergence_curve@[b] by {
                    if b == i as int {
                        if a < i as int && i > 0 {
                            assert(old_curve[a] >= old_curve[i - 1]);
                        }
                    } else {
                        assert(self.convergence_curve@[a] == old_curve[a]);
                        assert(self.convergence_curve@[b] == old_curve[b]);
                    }
                }
                assert forall|a: int|
                    0 <= a < i + 1 implies #[trigger] self.convergence_curve@[a]
                    <= empty_cost by {
                    if a < i as int {
                        assert(self.convergence_curve@[a] == old_curve[a]);
                    }
                }
            }
            i += 1;
        }
        best
    }
}

} // verus!
