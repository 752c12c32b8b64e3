//! A candidate cover: an ordered, deduplicated vector of subset indices
//! together with a cached cost.
//!
//! Costs are exact rationals whose denominator is always the subset count,
//! so only the integer numerator is stored:
//! `numerator = |chosen| + (|universe| - |covered|) * max_subset * subset_count`
//! and the cost itself is `numerator / subset_count`.

use vstd::prelude::*;

use crate::set::IndexOutOfRange;
use crate::set::SetModel;
use crate::set::contains_usize;

verus! {

/// The cost numerator of a candidate family of subset indices: the number
/// of chosen subsets plus the uncovered-element penalty.
pub open spec fn spec_cost_numerator(set: SetModel, chosen: Seq<usize>) -> int {
    chosen.len() + (set.size_set - set.covered_count(chosen)) * set.max_subset * set.size_subsets
}

/// The largest cost numerator a deduplicated cover can reach fits in a
/// machine word.
pub open spec fn cost_fits(set: SetModel) -> bool {
    set.size_subsets + set.size_set * set.max_subset * set.size_subsets <= usize::MAX
}

/// A family that chooses nothing covers nothing.
pub proof fn lemma_covered_below_empty(set: SetModel, chosen: Seq<usize>, n: int)
    requires
        chosen.len() == 0,
    ensures
        set.covered_below(chosen, n) == 0,
    decreases n,
{
    if n > 0 {
        lemma_covered_below_empty(set, chosen, n - 1);
    }
}

/// The empty cover pays the full uncovered penalty: one `max_subset *
/// subset_count` term for every element of the universe.
pub proof fn lemma_empty_cover_cost(set: SetModel)
    ensures
        spec_cost_numerator(set, Seq::<usize>::empty()) == set.size_set * set.max_subset
            * set.size_subsets,
{
    lemma_covered_below_empty(set, Seq::<usize>::empty(), set.size_set as int);
}

/// Where the universe has a single element, the empty cover's cost is
/// exactly `max_subset`: the numerator is `max_subset * subset_count` and
/// the denominator is `subset_count`.
pub proof fn lemma_empty_cover_cost_single_element(set: SetModel)
    requires
        set.size_set == 1,
    ensures
        spec_cost_numerator(set, Seq::<usize>::empty()) == set.max_subset * set.size_subsets,
{
    lemma_empty_cover_cost(set);
}

/// Holding the number of chosen subsets fixed, a family that covers fewer
/// elements never has a smaller cost numerator, so (the denominator being
/// fixed too) never a smaller cost.
pub proof fn lemma_cost_monotone_in_coverage(set: SetModel, s1: Seq<usize>, s2: Seq<usize>)
    requires
        s1.len() == s2.len(),
        set.covered_count(s1) <= set.covered_count(s2),
    ensures
        spec_cost_numerator(set, s1) >= spec_cost_numerator(set, s2),
{
    set.lemma_union_below_len(s1, set.size_set as int);
    set.lemma_union_below_len(s2, set.size_set as int);
    let n = set.size_set as int;
    let m = set.max_subset as int;
    let k = set.size_subsets as int;
    let c1 = set.covered_count(s1);
    let c2 = set.covered_count(s2);
    assert((n - c1) * m * k >= (n - c2) * m * k) by (nonlinear_arith)
        requires
            c1 <= c2,
            m >= 0,
            k >= 0,
    ;
}

/// In a strictly increasing sequence each entry is at least its position.
proof fn lemma_increasing_index(s: Seq<usize>, t: int)
    requires
        forall|a: int, b: int| 0 <= a < b < s.len() ==> s[a] < s[b],
        0 <= t < s.len(),
    ensures
        s[t] >= t,
    decreases t,
{
    if t > 0 {
        lemma_increasing_index(s, t - 1);
    }
}

/// A strictly increasing sequence of indices below a bound is no longer
/// than the bound.
pub proof fn lemma_increasing_len(s: Seq<usize>, bound: int)
    requires
        bound >= 0,
        forall|a: int, b: int| 0 <= a < b < s.len() ==> s[a] < s[b],
        forall|t: int| 0 <= t < s.len() ==> s[t] < bound,
    ensures
        s.len() <= bound,
{
    if s.len() > 0 {
        lemma_increasing_index(s, s.len() - 1);
    }
}

/// A candidate cover: the chosen subset indices kept sorted and distinct,
/// the cached cost numerator, and the number of chosen subsets.
pub struct SubsetCover {
    pub elements: Vec<usize>,
    pub cost_numerator: usize,
    pub size: usize,
}

impl SubsetCover {
    /// Consistency with an instance: indices are valid, strictly
    /// increasing (hence deduplicated), and the cached cost matches the
    /// chosen indices.
    pub open spec fn wf(self, set: SetModel) -> bool {
        &&& set.valid_indices(self.elements@)
        &&& forall|a: int, b: int|
            0 <= a < b < self.elements@.len() ==> self.elements@[a] < self.elements@[b]
        &&& self.size == self.elements@.len()
        &&& self.cost_numerator == spec_cost_numerator(set, self.elements@)
    }

    /// The cost numerator of an arbitrary family of subset indices, or
    /// the first out-of-range index and the valid bound, never silently
    /// clamped.
    pub fn calculate_cost(subsets: &Vec<usize>, set: &SetModel) -> (r: Result<
        usize,
        IndexOutOfRange,
    >)
        requires
            set.wf(),
            subsets@.len() + set.size_set * set.max_subset * set.size_subsets <= usize::MAX,
        ensures
            match r {
                Ok(c) => set.valid_indices(subsets@) && c == spec_cost_numerator(*set, subsets@),
                Err(e) => {
                    &&& !set.valid_indices(subsets@)
                    &&& subsets@.contains(e.index)
                    &&& e.index >= set.size_subsets
                    &&& e.bound == set.size_subsets
                    &&& forall|k: int|
                        #[trigger] set.first_invalid_at(subsets@, k) ==> e.index == subsets@[k]
                },
            },
    {
        let mut k: usize = 0;
        while k < subsets.len()
            invariant
                k <= subsets@.len(),
                forall|t: int| 0 <= t < k ==> (#[trigger] subsets@[t]) < set.size_subsets,
            decreases subsets@.len() - k,
        {
            if subsets[k] >= set.size_subsets {
                proof {
                    assert(set.first_invalid_at(subsets@, k as int));
                    assert forall|kk: int|
                        #[trigger] set.first_invalid_at(subsets@, kk) implies subsets@[kk]
                        == subsets@[k as int] by {
                        if kk < k as int {
                            assert(subsets@[kk] < set.size_subsets);
                        } else if kk > k as int {
                            assert(subsets@[k as int] < set.size_subsets);
                        }
                    }
                }
                return Err(IndexOutOfRange { index: subsets[k], bound: set.size_subsets });
            }
            k += 1;
        }
        let n = set.size_set;
        let mut covered: usize = 0;
        for j in 0..n
            invariant
                set.wf(),
                set.valid_indices(subsets@),
                n == set.size_set,
                covered == set.covered_below(subsets@, j as int),
                covered <= j,
        {
            if set.covers_exec(subsets, j) {
                covered += 1;
            }
        }
        let uncovered = n - covered;
        let ghost c = set.covered_count(subsets@);
        let penalty = if uncovered == 0 || set.max_subset == 0 || set.size_subsets == 0 {
            proof {
                assert((set.size_set - c) * set.max_subset * set.size_subsets == 0)
                    by (nonlinear_arith)
                    requires
                        (set.size_set - c == 0) || set.max_subset == 0 || set.size_subsets == 0,
                ;
            }
            0
        } else {
            proof {
                assert(uncovered * set.max_subset <= set.size_set * set.max_subset && set.size_set
                    * set.max_subset <= set.size_set * set.max_subset * set.size_subsets
                    && uncovered * set.max_subset * set.size_subsets <= set.size_set
                    * set.max_subset * set.size_subsets) by (nonlinear_arith)
                    requires
                        0 < uncovered <= set.size_set,
                        set.max_subset >= 1,
                        set.size_subsets >= 1,
                ;
            }
            uncovered * set.max_subset * set.size_subsets
        };
        Ok(subsets.len() + penalty)
    }

    /// An empty cover whose cached cost is the empty family's cost.
    pub fn new(set: &SetModel) -> (r: SubsetCover)
        requires
            set.wf(),
            cost_fits(*set),
        ensures
            r.wf(*set),
            r.elements@ == Seq::<usize>::empty(),
            r.size == 0,
            r.cost_numerator == spec_cost_numerator(*set, Seq::<usize>::empty()),
    {
        let elements: Vec<usize> = Vec::new();
        let cost = match SubsetCover::calculate_cost(&elements, set) {
            Ok(c) => c,
            Err(_) => {
                proof {
                    assert(false);
                }
                0
            },
        };
        SubsetCover { elements, cost_numerator: cost, size: 0 }
    }

    /// Inserts a subset index in sorted position and refreshes the cached
    /// cost; adding an index that is already chosen changes nothing, so
    /// adding the same index twice is the same as adding it once. An
    /// out-of-range index leaves the cover untouched and surfaces the
    /// index and the valid bound.
    pub fn add_subset(&mut self, subset_index: usize, set: &SetModel) -> (r: Result<
        usize,
        IndexOutOfRange,
    >)
        requires
            set.wf(),
            old(self).wf(*set),
            cost_fits(*set),
        ensures
            match r {
                Ok(c) => {
                    &&& subset_index < set.size_subsets
                    &&& final(self).wf(*set)
                    &&& c == final(self).cost_numerator
                    &&& final(self).elements@.contains(subset_index)
                    &&& (old(self).elements@.contains(subset_index) ==> *final(self) == *old(
                        self,
                    ))
                    &&& (!old(self).elements@.contains(subset_index) ==> {
                        &&& final(self).elements@.len() == old(self).elements@.len() + 1
                        &&& final(self).elements@.to_set() == old(self).elements@.to_set().insert(
                            subset_index,
                        )
                    })
                },
                Err(e) => {
                    &&& subset_index >= set.size_subsets
                    &&& e.index == subset_index
                    &&& e.bound == set.size_subsets
                    &&& *final(self) == *old(self)
                },
            },
    {
        if subset_index >= set.size_subsets {
            return Err(IndexOutOfRange { index: subset_index, bound: set.size_subsets });
        }
        if !contains_usize(&self.elements, subset_index) {
            let mut p: usize = 0;
            while p < self.elements.len() && self.elements[p] < subset_index
                invariant
                    p <= self.elements@.len(),
                    forall|t: int| 0 <= t < p ==> self.elements@[t] < subset_index,
                    *self == *old(self),
                decreases self.elements@.len() - p,
            {
                p += 1;
            }
            let ghost old_elems = self.elements@;
            let ghost pos = p as int;
            proof {
                if pos < old_elems.len() {
                    assert(old_elems[pos] != subset_index);
                    assert(old_elems[pos] > subset_index);
                }
            }
            self.elements.insert(p, subset_index);
            proof {
                assert forall|a: int, b: int|
                    0 <= a < b < self.elements@.len() implies self.elements@[a] < self
                    .elements@[b] by {
                    if a < pos && b > pos {
                        assert(self.elements@[a] == old_elems[a]);
                        assert(self.elements@[b] == old_elems[b - 1]);
                    } else if a == pos && b > pos {
                        assert(old_elems[pos] > subset_index);
                        assert(self.elements@[b] == old_elems[b - 1]);
                    }
                }
                assert forall|t: int|
                    0 <= t < self.elements@.len() implies (#[trigger] self.elements@[t])
                    < set.size_subsets by {
                    if t < pos {
                        assert(self.elements@[t] == old_elems[t]);
                    } else if t > pos {
                        assert(self.elements@[t] == old_elems[t - 1]);
                    }
                }
                lemma_increasing_len(self.elements@, set.size_subsets as int);
                assert(self.elements@.to_set() =~= old_elems.to_set().insert(subset_index)) by {
                    assert forall|y: usize| #[trigger] self.elements@.contains(y) implies (
                    old_elems.contains(y) || y == subset_index) by {
                        let k = choose|k: int|
                            0 <= k < self.elements@.len() && self.elements@[k] == y;
                        if k < pos {
                            assert(old_elems[k] == y);
                        } else if k > pos {
                            assert(old_elems[k - 1] == y);
                        }
                    }
                    assert forall|y: usize| old_elems.contains(y) implies #[trigger] self
                        .elements@.contains(y) by {
                        let k = choose|k: int| 0 <= k < old_elems.len() && old_elems[k] == y;
                        if k < pos {
                            assert(self.elements@[k] == y);
                        } else {
                            assert(self.elements@[k + 1] == y);
                        }
                    }
                    assert(self.elements@[pos] == subset_index);
                    assert(self.elements@.contains(subset_index));
                }
            }
            proof {
                assert(self.elements@[pos] == subset_index);
                assert(self.elements@.contains(subset_index));
            }
            self.size = self.elements.len();
            self.cost_numerator = match SubsetCover::calculate_cost(&self.elements, set) {
                Ok(c) => c,
                Err(_) => {
                    proof {
                        assert(false);
                    }
                    0
                },
            };
        }
        Ok(self.cost_numerator)
    }

    /// Recomputes the cost of the current choice from the instance, without
    /// touching the cached value.
    pub fn get_cost(&mut self, set: &SetModel) -> (r: usize)
        requires
            set.wf(),
            old(self).wf(*set),
            cost_fits(*set),
        ensures
            *final(self) == *old(self),
            r == spec_cost_numerator(*set, old(self).elements@),
    {
        proof {
            lemma_increasing_len(self.elements@, set.size_subsets as int);
        }
        match SubsetCover::calculate_cost(&self.elements, set) {
            Ok(c) => c,
            Err(_) => {
                proof {
                    assert(false);
                }
                0
            },
        }
    }

    /// Overwrites this cover with another one, field by field.
    pub fn apply_neighbour(&mut self, neighbour: &SubsetCover)
        ensures
            final(self).elements@ == neighbour.elements@,
            final(self).cost_numerator == neighbour.cost_numerator,
            final(self).size == neighbour.size,
    {
        let mut elements: Vec<usize> = Vec::new();
        let mut k: usize = 0;
        while k < neighbour.elements.len()
            invariant
                k <= neighbour.elements@.len(),
                elements@ == neighbour.elements@.take(k as int),
            decreases neighbour.elements@.len() - k,
        {
            elements.push(neighbour.elements[k]);
            proof {
                assert(elements@ =~= neighbour.elements@.take(k as int + 1));
            }
            k += 1;
        }
        proof {
            assert(neighbour.elements@.take(neighbour.elements@.len() as int)
                =~= neighbour.elements@);
        }
        self.elements = elements;
        self.cost_numerator = neighbour.cost_numerator;
        self.size = neighbour.size;
    }
}

} // verus!
