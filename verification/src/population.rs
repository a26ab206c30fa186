//! The tours that the genetic search works on.
use crate::problem::Solution;
use rand::rngs::StdRng;
use rand::Rng;
use vstd::multiset::Multiset;
use vstd::prelude::*;
use vstd::seq_lib::{to_multiset_build, to_multiset_remove, to_multiset_update};

verus! {

/// The tours of one generation.
pub struct Population {
    pub solutions: Vec<Solution>,
}

/// What tours are ordered by: the length of a tour, and less than every
/// length where the length is not known.
pub open spec fn length_key(solution: Solution) -> int {
    match solution.total_distance {
        None => -1,
        Some(length) => length as int,
    }
}

/// In `arranged`, no tour before position `at` is longer than one from
/// that position on.
pub open spec fn split_by_length(arranged: Seq<Solution>, at: int) -> bool {
    forall|i: int, j: int|
        0 <= i < at <= j < arranged.len() ==> length_key(#[trigger] arranged[i]) <= length_key(
            #[trigger] arranged[j],
        )
}

/// `slice::select_nth_unstable_by_key` with the length of a tour for the
/// key: reorders the tours so that no tour before `index` is longer than
/// the tour at `index`, and none after it is shorter.
#[verifier::external_body]
fn select_nth_by_length(solutions: &mut Vec<Solution>, index: usize)
    requires
        index < old(solutions)@.len(),
    ensures
        final(solutions)@.len() == old(solutions)@.len(),
        final(solutions)@.to_multiset() == old(solutions)@.to_multiset(),
        forall|i: int|
            0 <= i < index ==> length_key(#[trigger] final(solutions)@[i]) <= length_key(
                final(solutions)@[index as int],
            ),
        forall|i: int|
            index < i < final(solutions)@.len() ==> length_key(#[trigger] final(solutions)@[i])
                >= length_key(final(solutions)@[index as int]),
{
    solutions.select_nth_unstable_by_key(index, |solution| solution.total_distance);
}

/// `Rng::random_range` on `0..bound`: a number below `bound`, and nothing
/// else is claimed of it.
#[verifier::external_body]
fn random_below(rng: &mut StdRng, bound: usize) -> (picked: usize)
    requires
        bound > 0,
    ensures
        picked < bound,
{
    rng.random_range(0..bound)
}

/// What is left of a list after `Vec::swap_remove` holds the same tours
/// but the one removed.
proof fn lemma_swap_remove_multiset(list: Seq<Solution>, at: int)
    requires
        0 <= at < list.len(),
    ensures
        list.update(at, list.last()).drop_last().to_multiset() == list.to_multiset().remove(
            list[at],
        ),
{
    broadcast use vstd::multiset::group_multiset_axioms;

    let last = list.len() - 1;
    let moved = list.update(at, list.last());
    to_multiset_update(list, at, list.last());
    assert(moved.drop_last() =~= moved.remove(last));
    to_multiset_remove(moved, last);
    assert(moved[last] == list.last());
    assert(list.to_multiset().count(list.last()) > 0) by {
        vstd::seq_lib::to_multiset_contains(list, list.last());
        assert(list.contains(list[last]));
    }
    assert(list.to_multiset().count(list[at]) > 0) by {
        vstd::seq_lib::to_multiset_contains(list, list[at]);
        assert(list.contains(list[at]));
    }
    assert(moved.drop_last().to_multiset() =~= list.to_multiset().remove(list[at]));
}

impl Population {
    /// The population of the tours `solutions`.
    pub fn new(solutions: Vec<Solution>) -> (population: Self)
        ensures
            population.solutions == solutions,
    {
        Self { solutions }
    }

    /// The lengths of the shortest and of the longest tour; for no tours,
    /// the largest and the smallest number.
    pub fn get_min_max(&self) -> (res: (u64, u64))
        requires
            forall|i: int|
                0 <= i < self.solutions@.len() ==> (#[trigger] self.solutions@[i]).total_distance
                    is Some,
        ensures
            forall|i: int|
                0 <= i < self.solutions@.len() ==> res.0 <= length_key(#[trigger] self.solutions@[i])
                    <= res.1,
            self.solutions@.len() == 0 ==> res == (u64::MAX, 0u64),
            self.solutions@.len() > 0 ==> exists|i: int, j: int|
                0 <= i < self.solutions@.len() && 0 <= j < self.solutions@.len() && res.0
                    == length_key(#[trigger] self.solutions@[i]) && res.1 == length_key(
                    #[trigger] self.solutions@[j],
                ),
    {
        let mut min_length: u64 = u64::MAX;
        let mut max_length: u64 = 0;
        let ghost mut at_min: int = 0;
        let ghost mut at_max: int = 0;
        let mut k: usize = 0;
        while k < self.solutions.len()
            invariant
                0 <= k <= self.solutions@.len(),
                forall|i: int|
                    0 <= i < self.solutions@.len() ==> (
                    #[trigger] self.solutions@[i]).total_distance is Some,
                forall|i: int|
                    0 <= i < k ==> min_length <= length_key(#[trigger] self.solutions@[i])
                        <= max_length,
                k == 0 ==> min_length == u64::MAX && max_length == 0,
                k > 0 ==> 0 <= at_min < k && 0 <= at_max < k && min_length == length_key(
                    self.solutions@[at_min],
                ) && max_length == length_key(self.solutions@[at_max]),
            decreases self.solutions@.len() - k,
        {
            let length = match self.solutions[k].total_distance {
                Some(length) => length,
                None => 0,
            };
            if length < min_length || k == 0 {
                min_length = length;
                proof {
                    at_min = k as int;
                }
            }
            if length > max_length || k == 0 {
                max_length = length;
                proof {
                    at_max = k as int;
                }
            }
            k = k + 1;
        }
        (min_length, max_length)
    }

    /// Cuts the population down to `target_size` tours: the shorter half of
    /// that many, and for the rest tours picked at random among the others.
    /// A population that is no larger is returned as it is.
    pub fn shrink_population(self, target_size: usize, rng: &mut StdRng) -> (kept: Vec<Solution>)
        ensures
            self.solutions@.len() <= target_size ==> kept@ == self.solutions@,
            self.solutions@.len() > target_size ==> {
                &&& kept@.len() == target_size
                &&& exists|arranged: Seq<Solution>|
                    {
                        &&& #[trigger] arranged.to_multiset() == self.solutions@.to_multiset()
                        &&& arranged.len() == self.solutions@.len()
                        &&& split_by_length(arranged, (target_size / 2) as int)
                        &&& kept@.take((target_size / 2) as int) == arranged.take(
                            (target_size / 2) as int,
                        )
                        &&& kept@.skip((target_size / 2) as int).to_multiset().subset_of(
                            arranged.skip((target_size / 2) as int).to_multiset(),
                        )
                    }
            },
    {
        let mut solutions = self.solutions;
        if solutions.len() <= target_size {
            return solutions;
        }
        let half: usize = target_size / 2;
        select_nth_by_length(&mut solutions, half);
        let ghost arranged = solutions@;
        proof {
            assert(split_by_length(arranged, half as int)) by {
                assert forall|i: int, j: int| 0 <= i < half <= j < arranged.len() implies length_key(
                    #[trigger] arranged[i],
                ) <= length_key(#[trigger] arranged[j]) by {
                    if j > half {
                        assert(length_key(arranged[j]) >= length_key(arranged[half as int]));
                    }
                }
            }
        }
        let mut rest = solutions.split_off(half);
        let mut kept = solutions;
        let wanted: usize = target_size - half;
        let mut taken: usize = 0;
        proof {
            broadcast use vstd::multiset::group_multiset_axioms;

            assert(kept@ =~= arranged.take(half as int));
            assert(rest@ =~= arranged.skip(half as int));
            assert(kept@.skip(half as int) =~= Seq::<Solution>::empty());
            assert(kept@.skip(half as int).to_multiset() =~= Multiset::<Solution>::empty()) by {
                kept@.skip(half as int).to_multiset_ensures();
            }
            assert(kept@.skip(half as int).to_multiset().add(rest@.to_multiset())
                =~= arranged.skip(half as int).to_multiset());
        }
        while taken < wanted
            invariant
                wanted == target_size - half,
                0 <= taken <= wanted,
                arranged.len() > target_size,
                half <= target_size,
                kept@.len() == half + taken,
                rest@.len() == arranged.len() - half - taken,
                kept@.take(half as int) == arranged.take(half as int),
                kept@.skip(half as int).to_multiset().add(rest@.to_multiset()) == arranged.skip(
                    half as int,
                ).to_multiset(),
            decreases wanted - taken,
        {
            let at = random_below(rng, rest.len());
            let ghost before_rest = rest@;
            let ghost before_kept = kept@;
            let picked = rest.swap_remove(at);
            kept.push(picked);
            proof {
                broadcast use vstd::multiset::group_multiset_axioms;

                lemma_swap_remove_multiset(before_rest, at as int);
                assert(kept@.skip(half as int) =~= before_kept.skip(half as int).push(picked));
                to_multiset_build(before_kept.skip(half as int), picked);
                assert(before_rest.to_multiset().count(picked) > 0) by {
                    vstd::seq_lib::to_multiset_contains(before_rest, picked);
                    assert(before_rest.contains(before_rest[at as int]));
                }
                assert(kept@.take(half as int) =~= before_kept.take(half as int));
                assert(kept@.skip(half as int).to_multiset().add(rest@.to_multiset())
                    =~= before_kept.skip(half as int).to_multiset().add(
                    before_rest.to_multiset(),
                ));
            }
            taken = taken + 1;
        }
        proof {
            broadcast use vstd::multiset::group_multiset_axioms;

            assert(kept@.skip(half as int).to_multiset().subset_of(
                arranged.skip(half as int).to_multiset(),
            ));
        }
        kept
    }
}

/// What `shrink_population` keeps is taken from the tours that it was
/// given, each no more often than it was there.
pub proof fn lemma_shrunk_subset(all: Seq<Solution>, kept: Seq<Solution>, target_size: usize)
    requires
        all.len() <= target_size ==> kept == all,
        all.len() > target_size ==> exists|arranged: Seq<Solution>|
            {
                &&& #[trigger] arranged.to_multiset() == all.to_multiset()
                &&& arranged.len() == all.len()
                &&& kept.take((target_size / 2) as int) == arranged.take((target_size / 2) as int)
                &&& kept.skip((target_size / 2) as int).to_multiset().subset_of(
                    arranged.skip((target_size / 2) as int).to_multiset(),
                )
                &&& kept.len() == target_size
            },
    ensures
        kept.to_multiset().subset_of(all.to_multiset()),
{
    broadcast use vstd::multiset::group_multiset_axioms;

    if all.len() > target_size {
        let half = (target_size / 2) as int;
        let arranged = choose|arranged: Seq<Solution>|
            {
                &&& #[trigger] arranged.to_multiset() == all.to_multiset()
                &&& arranged.len() == all.len()
                &&& kept.take(half) == arranged.take(half)
                &&& kept.skip(half).to_multiset().subset_of(arranged.skip(half).to_multiset())
                &&& kept.len() == target_size
            };
        assert(kept =~= kept.take(half) + kept.skip(half));
        assert(arranged =~= arranged.take(half) + arranged.skip(half));
        vstd::seq_lib::lemma_multiset_commutative(kept.take(half), kept.skip(half));
        vstd::seq_lib::lemma_multiset_commutative(arranged.take(half), arranged.skip(half));
        assert(kept.to_multiset().subset_of(arranged.to_multiset()));
    }
}

} // verus!
