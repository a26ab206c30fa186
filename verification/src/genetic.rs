//! The genetic search: how two tours are crossed, and what the search keeps
//! from one step to the next.
use crate::population::Population;
use crate::problem::{is_tour, tour_length, Problem, Solution, MAX_CITIES};
use crate::random_perm::seeded_generator;
use crate::tour::distinct_cities;
use rand::rngs::StdRng;
use crate::lengths::LengthSet;
use vstd::prelude::*;

verus! {

/// The order that takes the stops from `start` up to `end` from `first`
/// and the others from `second`.
pub open spec fn mixed(first: Seq<u32>, second: Seq<u32>, start: int, end: int) -> Seq<u32> {
    Seq::new(
        second.len(),
        |i: int|
            if start <= i < end {
                first[i]
            } else {
                second[i]
            },
    )
}

/// The stop at position `i` of `order` repeats an earlier stop.
pub open spec fn is_repeat(order: Seq<u32>, i: int) -> bool {
    exists|j: int| 0 <= j < i && order[j] == order[i]
}

/// The number of flags that are set.
pub open spec fn count_set(flags: Seq<bool>) -> nat
    decreases flags.len(),
{
    if flags.len() == 0 {
        0
    } else {
        count_set(flags.drop_last()) + if flags.last() {
            1nat
        } else {
            0nat
        }
    }
}

/// Setting a flag that was not set raises the number of set flags by one.
proof fn lemma_count_set_update(flags: Seq<bool>, at: int)
    requires
        0 <= at < flags.len(),
        !flags[at],
    ensures
        count_set(flags.update(at, true)) == count_set(flags) + 1,
    decreases flags.len(),
{
    let after = flags.update(at, true);
    if at == flags.len() - 1 {
        assert(after.drop_last() =~= flags.drop_last());
    } else {
        lemma_count_set_update(flags.drop_last(), at);
        assert(after.drop_last() =~= flags.drop_last().update(at, true));
    }
}

/// No flag of an empty or cleared list is set.
proof fn lemma_count_set_none(flags: Seq<bool>)
    requires
        forall|i: int| 0 <= i < flags.len() ==> !flags[i],
    ensures
        count_set(flags) == 0,
    decreases flags.len(),
{
    if flags.len() > 0 {
        lemma_count_set_none(flags.drop_last());
    }
}

/// What `child` is to the order `from` that it was made of: a stop that
/// repeats none before it is kept; the stops that do repeat one are
/// replaced, from the first to the last, by the cities that `from` does not
/// visit, from the lowest to the highest.
pub open spec fn is_repaired(from: Seq<u32>, child: Seq<u32>) -> bool {
    &&& child.len() == from.len()
    &&& forall|i: int| 0 <= i < from.len() && !is_repeat(from, i) ==> #[trigger] child[i] == from[i]
    &&& forall|i: int|
        0 <= i < from.len() && is_repeat(from, i) ==> !from.contains(#[trigger] child[i])
    &&& forall|i: int, j: int|
        0 <= i < j < from.len() && is_repeat(from, i) && is_repeat(from, j) ==> #[trigger] child[i]
            < #[trigger] child[j]
}

/// The genetic search for a short tour of the cities of a problem.
pub struct GeneticAlgorithm {
    pub problem: Problem,
    /// The number of tours that a generation is cut down to.
    pub population_size: usize,
    /// The number of tours that a generation may find for the next.
    pub extra_population_size: usize,
    /// The generator that the search draws its choices from.
    pub rng: StdRng,
}

impl GeneticAlgorithm {
    /// A search for `problem`, with a generator that is seeded with 42.
    pub fn new(problem: Problem, population_size: usize, extra_population_size: usize) -> (search:
        Self)
        ensures
            search.problem == problem,
            search.population_size == population_size,
            search.extra_population_size == extra_population_size,
    {
        let rng = seeded_generator(42);
        Self { problem, population_size, extra_population_size, rng }
    }

    /// The number of tours that two generations may hold together: the
    /// sum of the two sizes, or the largest number if the sum is larger.
    pub fn capacity(&self) -> (capacity: usize)
        ensures
            capacity == if self.population_size + self.extra_population_size <= usize::MAX {
                self.population_size + self.extra_population_size
            } else {
                usize::MAX as int
            },
    {
        if self.extra_population_size <= usize::MAX - self.population_size {
            self.population_size + self.extra_population_size
        } else {
            usize::MAX
        }
    }

    /// A tour that visits every city once, made of the stops of `parent1`
    /// from `start_index` up to `end_index` and the stops of `parent2`
    /// elsewhere: where that visits a city twice, the later visit goes to a
    /// city that would be left out.
    pub fn random_crossover(
        parent1: &Solution,
        parent2: &Solution,
        start_index: usize,
        end_index: usize,
    ) -> (child: Solution)
        requires
            parent1.order_without_loop@.len() == parent2.order_without_loop@.len(),
            start_index <= end_index <= parent2.order_without_loop@.len() <= u32::MAX,
            forall|i: int|
                0 <= i < parent1.order_without_loop@.len() ==> (
                #[trigger] parent1.order_without_loop@[i]) < parent1.order_without_loop@.len(),
            forall|i: int|
                0 <= i < parent2.order_without_loop@.len() ==> (
                #[trigger] parent2.order_without_loop@[i]) < parent2.order_without_loop@.len(),
        ensures
            is_tour(child.order_without_loop@, parent2.order_without_loop@.len()),
            is_repaired(
                mixed(
                    parent1.order_without_loop@,
                    parent2.order_without_loop@,
                    start_index as int,
                    end_index as int,
                ),
                child.order_without_loop@,
            ),
            child.total_distance is None,
    {
        let first = &parent1.order_without_loop;
        let second = &parent2.order_without_loop;
        let n = second.len();
        let ghost from = mixed(first@, second@, start_index as int, end_index as int);
        let mut child_order: Vec<u32> = mix(first, second, start_index, end_index);
        let mut visited: Vec<bool> = Vec::new();
        let mut v: usize = 0;
        while v < n
            invariant
                0 <= v <= n,
                visited@.len() == v,
                forall|c: int| 0 <= c < v ==> !visited@[c],
            decreases n - v,
        {
            visited.push(false);
            v = v + 1;
        }
        proof {
            lemma_count_set_none(visited@);
        }
        let mut dirty_indices: Vec<usize> = Vec::new();
        let mut i: usize = 0;
        while i < n
            invariant
                0 <= i <= n,
                n == from.len(),
                child_order@ == from,
                forall|k: int| 0 <= k < n ==> (#[trigger] from[k]) < n,
                visited@.len() == n,
                forall|c: int|
                    0 <= c < n ==> (#[trigger] visited@[c] <==> exists|j: int|
                        0 <= j < i && from[j] == c),
                count_set(visited@) + dirty_indices@.len() == i,
                forall|k: int|
                    0 <= k < dirty_indices@.len() ==> (#[trigger] dirty_indices@[k]) < i
                        && is_repeat(from, dirty_indices@[k] as int),
                forall|a: int, b: int|
                    0 <= a < b < dirty_indices@.len() ==> dirty_indices@[a] < dirty_indices@[b],
                forall|j: int|
                    0 <= j < i && is_repeat(from, j) ==> exists|k: int|
                        0 <= k < dirty_indices@.len() && #[trigger] dirty_indices@[k] == j,
            decreases n - i,
        {
            let city = child_order[i];
            assert(from[i as int] < n);
            if visited[city as usize] {
                let ghost before = dirty_indices@;
                dirty_indices.push(i);
                proof {
                    let j = choose|j: int| 0 <= j < i && from[j] == city;
                    assert(is_repeat(from, i as int));
                    assert forall|j: int| 0 <= j < i + 1 && is_repeat(from, j) implies exists|
                        k: int,
                    | 0 <= k < dirty_indices@.len() && #[trigger] dirty_indices@[k] == j by {
                        if j < i {
                            let k = choose|k: int| 0 <= k < before.len() && #[trigger] before[k] == j;
                            assert(dirty_indices@[k] == j);
                        } else {
                            assert(dirty_indices@[before.len() as int] == j);
                        }
                    }
                    assert forall|c: int| 0 <= c < n implies (#[trigger] visited@[c] <==> exists|
                        j: int,
                    | 0 <= j < i + 1 && from[j] == c) by {
                        if visited@[c] {
                            let j = choose|j: int| 0 <= j < i && from[j] == c;
                            assert(0 <= j < i + 1 && from[j] == c);
                        } else if exists|j: int| 0 <= j < i + 1 && from[j] == c {
                            let j = choose|j: int| 0 <= j < i + 1 && from[j] == c;
                            assert(j < i);
                        }
                    }
                }
            } else {
                let ghost flags = visited@;
                visited[city as usize] = true;
                proof {
                    lemma_count_set_update(flags, city as int);
                    assert(visited@ =~= flags.update(city as int, true));
                    assert(!is_repeat(from, i as int)) by {
                        if is_repeat(from, i as int) {
                            let j = choose|j: int| 0 <= j < i && from[j] == from[i as int];
                            assert(flags[city as int]);
                        }
                    }
                    assert forall|c: int| 0 <= c < n implies (#[trigger] visited@[c] <==> exists|
                        j: int,
                    | 0 <= j < i + 1 && from[j] == c) by {
                        if c == city {
                            assert(from[i as int] == c);
                        } else if flags[c] {
                            let j = choose|j: int| 0 <= j < i && from[j] == c;
                            assert(0 <= j < i + 1 && from[j] == c);
                        } else if exists|j: int| 0 <= j < i + 1 && from[j] == c {
                            let j = choose|j: int| 0 <= j < i + 1 && from[j] == c;
                            assert(j < i);
                        }
                    }
                    assert forall|j: int| 0 <= j < i + 1 && is_repeat(from, j) implies exists|
                        k: int,
                    | 0 <= k < dirty_indices@.len() && #[trigger] dirty_indices@[k] == j by {
                        assert(j < i);
                    }
                }
            }
            i = i + 1;
        }
        let mut missing: Vec<u32> = Vec::new();
        let mut v: usize = 0;
        proof {
            assert(visited@.take(0) =~= Seq::<bool>::empty());
        }
        while v < n
            invariant
                0 <= v <= n <= u32::MAX,
                n == from.len(),
                visited@.len() == n,
                missing@.len() + count_set(visited@.take(v as int)) == v,
                forall|k: int|
                    0 <= k < missing@.len() ==> (#[trigger] missing@[k]) < v && !visited@[missing@[k] as int],
                forall|a: int, b: int| 0 <= a < b < missing@.len() ==> missing@[a] < missing@[b],
            decreases n - v,
        {
            proof {
                assert(visited@.take(v + 1).drop_last() =~= visited@.take(v as int));
                assert(visited@.take(v + 1).last() == visited@[v as int]);
            }
            if !visited[v] {
                missing.push(v as u32);
            }
            v = v + 1;
        }
        proof {
            assert(visited@.take(n as int) =~= visited@);
            assert(missing@.len() == dirty_indices@.len());
        }
        let mut k: usize = 0;
        while k < dirty_indices.len()
            invariant
                0 <= k <= dirty_indices@.len(),
                missing@.len() == dirty_indices@.len(),
                n == from.len(),
                child_order@.len() == n,
                forall|a: int|
                    0 <= a < dirty_indices@.len() ==> (#[trigger] dirty_indices@[a]) < n
                        && is_repeat(from, dirty_indices@[a] as int),
                forall|a: int, b: int|
                    0 <= a < b < dirty_indices@.len() ==> dirty_indices@[a] < dirty_indices@[b],
                forall|i: int|
                    0 <= i < n && !is_repeat(from, i) ==> #[trigger] child_order@[i] == from[i],
                forall|a: int|
                    0 <= a < k ==> child_order@[(#[trigger] dirty_indices@[a]) as int] == missing@[a],
            decreases dirty_indices@.len() - k,
        {
            let at = dirty_indices[k];
            let ghost before = child_order@;
            child_order[at] = missing[k];
            proof {
                assert forall|a: int| 0 <= a < k + 1 implies child_order@[(
                #[trigger] dirty_indices@[a]) as int] == missing@[a] by {
                    if a < k {
                        assert(dirty_indices@[a] < dirty_indices@[k as int]);
                        assert(before[dirty_indices@[a] as int] == missing@[a]);
                    }
                }
            }
            k = k + 1;
        }
        proof {
            let child = child_order@;
            // Every stop is a city.
            assert forall|i: int| 0 <= i < n implies (#[trigger] child[i]) < n by {
                if is_repeat(from, i) {
                    let a = choose|a: int| 0 <= a < dirty_indices@.len() && #[trigger] dirty_indices@[a] == i;
                    assert(child[dirty_indices@[a] as int] == missing@[a]);
                    assert(missing@[a] < n);
                } else {
                    assert(from[i] < n);
                }
            }
            // A city that replaces a repeated stop is not visited by `from`.
            assert forall|i: int| 0 <= i < n && is_repeat(from, i) implies !from.contains(
                #[trigger] child[i],
            ) by {
                let a = choose|a: int| 0 <= a < dirty_indices@.len() && #[trigger] dirty_indices@[a] == i;
                assert(child[dirty_indices@[a] as int] == missing@[a]);
                assert(!visited@[missing@[a] as int]);
                if from.contains(child[i]) {
                    let j = choose|j: int| 0 <= j < from.len() && from[j] == child[i];
                    assert(0 <= j < n && from[j] == missing@[a] as int);
                }
            }
            assert forall|i: int, j: int|
                0 <= i < j < n && is_repeat(from, i) && is_repeat(from, j) implies #[trigger] child[i]
                < #[trigger] child[j] by {
                let a = choose|a: int| 0 <= a < dirty_indices@.len() && #[trigger] dirty_indices@[a] == i;
                let b = choose|b: int| 0 <= b < dirty_indices@.len() && #[trigger] dirty_indices@[b] == j;
                assert(child[dirty_indices@[a] as int] == missing@[a]);
                assert(child[dirty_indices@[b] as int] == missing@[b]);
                if a >= b {
                    if a > b {
                        assert(dirty_indices@[b] < dirty_indices@[a]);
                    }
                }
            }
            assert(child.no_duplicates()) by {
                assert forall|i: int, j: int| 0 <= i < j < n implies child[i] != child[j] by {
                    if is_repeat(from, i) && is_repeat(from, j) {
                        assert(child[i] < child[j]);
                    } else if is_repeat(from, i) {
                        assert(!from.contains(child[i]));
                        assert(child[j] == from[j]);
                        assert(from.contains(from[j]));
                    } else if is_repeat(from, j) {
                        assert(!from.contains(child[j]));
                        assert(child[i] == from[i]);
                        assert(from.contains(from[i]));
                    } else {
                        assert(child[i] == from[i] && child[j] == from[j]);
                        if from[i] == from[j] {
                            assert(is_repeat(from, j));
                        }
                    }
                }
            }
        }
        Solution::new(child_order, None)
    }
}

/// Clearing a flag that was set lowers the number of set flags by one.
proof fn lemma_count_set_clear(flags: Seq<bool>, at: int)
    requires
        0 <= at < flags.len(),
        flags[at],
    ensures
        count_set(flags.update(at, false)) + 1 == count_set(flags),
    decreases flags.len(),
{
    let after = flags.update(at, false);
    if at == flags.len() - 1 {
        assert(after.drop_last() =~= flags.drop_last());
    } else {
        lemma_count_set_clear(flags.drop_last(), at);
        assert(after.drop_last() =~= flags.drop_last().update(at, false));
    }
}

/// No more flags are set than there are, and none is set exactly when the
/// number of set flags is zero.
proof fn lemma_count_set_bounds(flags: Seq<bool>)
    ensures
        count_set(flags) <= flags.len(),
        count_set(flags) == 0 <==> forall|i: int| 0 <= i < flags.len() ==> !flags[i],
    decreases flags.len(),
{
    if flags.len() > 0 {
        lemma_count_set_bounds(flags.drop_last());
        if count_set(flags) == 0 {
            assert forall|i: int| 0 <= i < flags.len() implies !flags[i] by {
                if i < flags.len() - 1 {
                    assert(flags.drop_last()[i] == flags[i]);
                }
            }
        }
        if forall|i: int| 0 <= i < flags.len() ==> !flags[i] {
            assert forall|i: int| 0 <= i < flags.drop_last().len() implies !flags.drop_last()[i] by {
                assert(flags.drop_last()[i] == flags[i]);
            }
        }
    }
}

/// Where the two lists of flags differ.
pub open spec fn differing(first: Seq<bool>, second: Seq<bool>) -> Seq<bool> {
    Seq::new(first.len(), |v: int| first[v] != second[v])
}

/// Two sets of cities, kept so that it is cheap to tell whether they are
/// the same set.
struct StopSets {
    first: Vec<bool>,
    second: Vec<bool>,
    unmatched: usize,
}

impl StopSets {
    spec fn wf(&self) -> bool {
        &&& self.first@.len() == self.second@.len()
        &&& self.unmatched == count_set(differing(self.first@, self.second@))
    }

    /// Two empty sets of cities below `n`.
    fn new(n: usize) -> (sets: Self)
        ensures
            sets.wf(),
            sets.first@.len() == n,
            forall|v: int| 0 <= v < n ==> !sets.first@[v] && !sets.second@[v],
    {
        let mut first: Vec<bool> = Vec::new();
        let mut second: Vec<bool> = Vec::new();
        let mut v: usize = 0;
        while v < n
            invariant
                0 <= v <= n,
                first@.len() == v,
                second@.len() == v,
                forall|c: int| 0 <= c < v ==> !first@[c] && !second@[c],
            decreases n - v,
        {
            first.push(false);
            second.push(false);
            v = v + 1;
        }
        proof {
            lemma_count_set_none(differing(first@, second@));
        }
        StopSets { first, second, unmatched: 0 }
    }

    /// Adds `x` to the first set and `y` to the second.
    fn add(&mut self, x: u32, y: u32)
        requires
            old(self).wf(),
            x < old(self).first@.len(),
            y < old(self).first@.len(),
        ensures
            final(self).wf(),
            final(self).first@ == old(self).first@.update(x as int, true),
            final(self).second@ == old(self).second@.update(y as int, true),
    {
        if !self.first[x as usize] {
            let ghost before = differing(self.first@, self.second@);
            self.first[x as usize] = true;
            proof {
                let after = differing(self.first@, self.second@);
                lemma_count_set_bounds(before);
                lemma_count_set_bounds(after);
                assert(after.len() == self.first.len());
                if before[x as int] {
                    assert(after =~= before.update(x as int, false));
                    lemma_count_set_clear(before, x as int);
                } else {
                    assert(after =~= before.update(x as int, true));
                    lemma_count_set_update(before, x as int);
                }
            }
            if self.second[x as usize] {
                self.unmatched = self.unmatched - 1;
            } else {
                self.unmatched = self.unmatched + 1;
            }
        }
        proof {
            assert(self.first@ =~= old(self).first@.update(x as int, true));
        }
        if !self.second[y as usize] {
            let ghost before = differing(self.first@, self.second@);
            let ghost was = self.second@;
            self.second[y as usize] = true;
            proof {
                let after = differing(self.first@, self.second@);
                lemma_count_set_bounds(before);
                lemma_count_set_bounds(after);
                assert(after.len() == self.first.len());
                if before[y as int] {
                    assert(after =~= before.update(y as int, false));
                    lemma_count_set_clear(before, y as int);
                } else {
                    assert(after =~= before.update(y as int, true));
                    lemma_count_set_update(before, y as int);
                }
            }
            if self.first[y as usize] {
                self.unmatched = self.unmatched - 1;
            } else {
                self.unmatched = self.unmatched + 1;
            }
        }
        proof {
            assert(self.second@ =~= old(self).second@.update(y as int, true));
        }
    }

    /// Whether both sets hold the same cities.
    fn same(&self) -> (same: bool)
        requires
            self.wf(),
        ensures
            same <==> forall|v: int| 0 <= v < self.first@.len() ==> self.first@[v] == self.second@[v],
    {
        proof {
            let d = differing(self.first@, self.second@);
            lemma_count_set_bounds(d);
            if self.unmatched == 0 {
                assert forall|v: int| 0 <= v < self.first@.len() implies self.first@[v]
                    == self.second@[v] by {
                    assert(!d[v]);
                }
            }
            if forall|v: int| 0 <= v < self.first@.len() ==> self.first@[v] == self.second@[v] {
                assert forall|v: int| 0 <= v < d.len() implies !d[v] by {}
            }
        }
        self.unmatched == 0
    }
}

/// The order `order`, or `order` read backwards where `reversed` holds,
/// turned to the right by `step` stops.
pub open spec fn arranged(order: Seq<u32>, step: int, reversed: bool) -> Seq<u32> {
    Seq::new(
        order.len(),
        |i: int|
            {
                let from = if i >= step {
                    i - step
                } else {
                    i + order.len() - step
                };
                if reversed {
                    order[order.len() - 1 - from]
                } else {
                    order[from]
                }
            },
    )
}

/// The stops of `first` from `lo` up to `hi` are the cities that `second`
/// visits at these stops.
pub open spec fn same_stops(first: Seq<u32>, second: Seq<u32>, lo: int, hi: int) -> bool {
    forall|v: u32| first.subrange(lo, hi).contains(v) == second.subrange(lo, hi).contains(v)
}

/// The two orders can be crossed between `start` and `end`: they agree at
/// both stops and disagree right after `start`, and between the two stops
/// they visit the same cities.
pub open spec fn crossing(first: Seq<u32>, second: Seq<u32>, start: int, end: int) -> bool {
    &&& 0 <= start
    &&& start + 1 < end < first.len()
    &&& first.len() == second.len()
    &&& first[start] == second[start]
    &&& first[end] == second[end]
    &&& first[start + 1] != second[start + 1]
    &&& same_stops(first, second, start + 1, end)
}

/// No crossing starts at a stop from `lo` up to `hi`.
pub open spec fn no_crossing_from(first: Seq<u32>, second: Seq<u32>, lo: int, hi: int) -> bool {
    forall|s: int, e: int| lo <= s < hi ==> !#[trigger] crossing(first, second, s, e)
}

/// What a scan for a crossing has come to.
enum Scan {
    /// The first crossing, by its start and its end.
    Found(usize, usize),
    /// No crossing starts before the stop given, which may start one; or,
    /// where no stop is given, no crossing starts at all.
    NotFound(Option<usize>),
}

/// Scans for the first crossing of `first` and `second` that starts at the
/// stop `from` or later.
fn scan_from(first: &Vec<u32>, second: &Vec<u32>, from: usize) -> (res: Scan)
    requires
        first@.len() == second@.len(),
        from <= first@.len(),
        forall|i: int| 0 <= i < first@.len() ==> (#[trigger] first@[i]) < first@.len(),
        forall|i: int| 0 <= i < second@.len() ==> (#[trigger] second@[i]) < first@.len(),
    ensures
        match res {
            Scan::Found(s, e) => {
                &&& from <= s
                &&& crossing(first@, second@, s as int, e as int)
                &&& no_crossing_from(first@, second@, from as int, s as int)
                &&& forall|e2: int| e2 < e ==> !crossing(first@, second@, s as int, e2)
            },
            Scan::NotFound(Some(next)) => from < next < first@.len() && no_crossing_from(
                first@,
                second@,
                from as int,
                next as int,
            ),
            Scan::NotFound(None) => no_crossing_from(
                first@,
                second@,
                from as int,
                first@.len() as int,
            ),
        },
{
    let n = first.len();
    let mut i: usize = from;
    while i < n && first[i] != second[i]
        invariant
            from <= i <= n,
            n == first@.len(),
            n == second@.len(),
            forall|k: int| from <= k < i ==> first@[k] != second@[k],
        decreases n - i,
    {
        i = i + 1;
    }
    if i >= n {
        return Scan::NotFound(None);
    }
    let mut s: usize = i;
    while s + 1 < n && first[s + 1] == second[s + 1]
        invariant
            from <= i <= s < n,
            n == first@.len(),
            n == second@.len(),
            forall|k: int| i <= k <= s ==> first@[k] == second@[k],
        decreases n - s,
    {
        s = s + 1;
    }
    proof {
        assert forall|s2: int, e2: int| from <= s2 < s implies !#[trigger] crossing(
            first@,
            second@,
            s2,
            e2,
        ) by {
            if s2 >= i {
                assert(first@[s2 + 1] == second@[s2 + 1]);
            }
        }
    }
    if n - s <= 2 {
        proof {
            assert forall|s2: int, e2: int| from <= s2 < n implies !#[trigger] crossing(
                first@,
                second@,
                s2,
                e2,
            ) by {
                if s2 < s {
                    assert(!crossing(first@, second@, s2, e2));
                }
            }
        }
        return Scan::NotFound(None);
    }
    let mut sets = StopSets::new(n);
    sets.add(first[s + 1], second[s + 1]);
    let mut next: Option<usize> = None;
    let mut j: usize = s + 2;
    proof {
        lemma_marks_step(first@, sets.first@, StopSets::new_marks(n as nat), s + 1, s + 1);
        lemma_marks_step(second@, sets.second@, StopSets::new_marks(n as nat), s + 1, s + 1);
    }
    while j < n
        invariant
            from <= s,
            s + 2 <= j <= n,
            n == first@.len(),
            n == second@.len(),
            forall|i: int| 0 <= i < n ==> (#[trigger] first@[i]) < n,
            forall|i: int| 0 <= i < n ==> (#[trigger] second@[i]) < n,
            first@[s as int] == second@[s as int],
            first@[s + 1] != second@[s + 1],
            sets.wf(),
            sets.first@.len() == n,
            no_crossing_from(first@, second@, from as int, s as int),
            marks_of(first@, sets.first@, s + 1, j as int),
            marks_of(second@, sets.second@, s + 1, j as int),
            forall|e2: int| e2 < j ==> !crossing(first@, second@, s as int, e2),
            match next {
                None => forall|k: int| s + 1 < k < j ==> first@[k] != second@[k],
                Some(nx) => s + 1 < nx < j && forall|k: int|
                    s + 1 < k < nx ==> first@[k] != second@[k],
            },
        decreases n - j,
    {
        let same = sets.same();
        proof {
            lemma_marks_same_stops(first@, second@, sets.first@, sets.second@, s + 1, j as int);
        }
        if first[j] == second[j] {
            if same {
                return Scan::Found(s, j);
            }
            if next.is_none() {
                next = Some(j);
            }
        }
        let ghost marks1 = sets.first@;
        let ghost marks2 = sets.second@;
        sets.add(first[j], second[j]);
        proof {
            lemma_marks_step(first@, sets.first@, marks1, s + 1, j as int);
            lemma_marks_step(second@, sets.second@, marks2, s + 1, j as int);
        }
        j = j + 1;
    }
    proof {
        let hi: int = match next {
            Some(nx) => nx as int,
            None => n as int,
        };
        assert forall|s2: int, e2: int| from <= s2 < hi implies !#[trigger] crossing(
            first@,
            second@,
            s2,
            e2,
        ) by {
            if s2 < s {
                assert(!crossing(first@, second@, s2, e2));
            } else if s2 == s {
                if e2 < n {
                    assert(!crossing(first@, second@, s as int, e2));
                }
            } else if s2 == s + 1 {
            } else {
                assert(first@[s2] != second@[s2]);
            }
        }
    }
    Scan::NotFound(next)
}

/// `marks` tells of every city whether `order` visits it at a stop from
/// `lo` up to `hi`.
pub open spec fn marks_of(order: Seq<u32>, marks: Seq<bool>, lo: int, hi: int) -> bool {
    forall|v: int| 0 <= v < marks.len() ==> (#[trigger] marks[v] <==> exists|k: int|
        lo <= k < hi && order[k] == v)
}

impl StopSets {
    /// The marks of an empty set of cities below `n`.
    spec fn new_marks(n: nat) -> Seq<bool> {
        Seq::new(n, |v: int| false)
    }
}

/// Marking the city of the stop `hi` extends the marks by that stop. The
/// marks before may be those of no stop at all.
proof fn lemma_marks_step(order: Seq<u32>, after: Seq<bool>, before: Seq<bool>, lo: int, hi: int)
    requires
        0 <= lo <= hi < order.len(),
        order[hi] < before.len(),
        after.len() == before.len(),
        forall|v: int| 0 <= v < before.len() && v != order[hi] ==> after[v] == before[v],
        after[order[hi] as int],
        marks_of(order, before, lo, hi) || (lo == hi && forall|v: int|
            0 <= v < before.len() && v != order[hi] ==> !before[v]),
    ensures
        marks_of(order, after, lo, hi + 1),
{
    assert forall|v: int| 0 <= v < after.len() implies (#[trigger] after[v] <==> exists|k: int|
        lo <= k < hi + 1 && order[k] == v) by {
        if v == order[hi] {
            assert(lo <= hi < hi + 1 && order[hi] == v);
        } else {
            if after[v] {
                assert(before[v]);
                let k = choose|k: int| lo <= k < hi && order[k] == v;
                assert(lo <= k < hi + 1 && order[k] == v);
            }
            if exists|k: int| lo <= k < hi + 1 && order[k] == v {
                let k = choose|k: int| lo <= k < hi + 1 && order[k] == v;
                assert(k != hi);
                if lo == hi {
                } else {
                    assert(lo <= k < hi && order[k] == v);
                }
            }
        }
    }
}

/// Two orders visit the same cities at the stops from `lo` up to `hi`
/// exactly when their marks for these stops agree.
proof fn lemma_marks_same_stops(
    first: Seq<u32>,
    second: Seq<u32>,
    marks1: Seq<bool>,
    marks2: Seq<bool>,
    lo: int,
    hi: int,
)
    requires
        0 <= lo <= hi <= first.len(),
        first.len() == second.len(),
        marks1.len() == marks2.len(),
        forall|i: int| 0 <= i < first.len() ==> (#[trigger] first[i]) < marks1.len(),
        forall|i: int| 0 <= i < second.len() ==> (#[trigger] second[i]) < marks1.len(),
        marks_of(first, marks1, lo, hi),
        marks_of(second, marks2, lo, hi),
    ensures
        same_stops(first, second, lo, hi) <==> forall|v: int|
            0 <= v < marks1.len() ==> marks1[v] == marks2[v],
{
    let a = first.subrange(lo, hi);
    let b = second.subrange(lo, hi);
    assert forall|v: u32| a.contains(v) <==> (v < marks1.len() && marks1[v as int]) by {
        if a.contains(v) {
            let k = choose|k: int| 0 <= k < a.len() && a[k] == v;
            assert(first[lo + k] == v);
            assert(lo <= lo + k < hi && first[lo + k] == v as int);
        }
        if v < marks1.len() && marks1[v as int] {
            let k = choose|k: int| lo <= k < hi && first[k] == v as int;
            assert(a[k - lo] == v);
        }
    }
    assert forall|v: u32| b.contains(v) <==> (v < marks2.len() && marks2[v as int]) by {
        if b.contains(v) {
            let k = choose|k: int| 0 <= k < b.len() && b[k] == v;
            assert(second[lo + k] == v);
            assert(lo <= lo + k < hi && second[lo + k] == v as int);
        }
        if v < marks2.len() && marks2[v as int] {
            let k = choose|k: int| lo <= k < hi && second[k] == v as int;
            assert(b[k - lo] == v);
        }
    }
    if same_stops(first, second, lo, hi) {
        assert forall|v: int| 0 <= v < marks1.len() implies marks1[v] == marks2[v] by {
            if v <= u32::MAX {
                let w = v as u32;
                assert(a.contains(w) == b.contains(w));
            } else {
                if marks1[v] {
                    let k = choose|k: int| lo <= k < hi && first[k] == v;
                }
                if marks2[v] {
                    let k = choose|k: int| lo <= k < hi && second[k] == v;
                }
            }
        }
    }
    if forall|v: int| 0 <= v < marks1.len() ==> marks1[v] == marks2[v] {
        assert forall|v: u32| a.contains(v) == b.contains(v) by {
            if v < marks1.len() {
                assert(marks1[v as int] == marks2[v as int]);
            }
        }
    }
}

/// The order that takes the stops from `start` up to `end` from `first`
/// and the others from `second`.
fn mix(first: &Vec<u32>, second: &Vec<u32>, start: usize, end: usize) -> (order: Vec<u32>)
    requires
        first@.len() == second@.len(),
    ensures
        order@ == mixed(first@, second@, start as int, end as int),
{
    let n = second.len();
    let ghost whole = mixed(first@, second@, start as int, end as int);
    let mut order: Vec<u32> = Vec::new();
    let mut i: usize = 0;
    while i < n
        invariant
            0 <= i <= n,
            n == second@.len(),
            first@.len() == n,
            whole == mixed(first@, second@, start as int, end as int),
            order@ == whole.take(i as int),
        decreases n - i,
    {
        let stop = if start <= i && i < end {
            first[i]
        } else {
            second[i]
        };
        order.push(stop);
        i = i + 1;
        proof {
            assert(order@ =~= whole.take(i as int));
        }
    }
    proof {
        assert(whole.take(n as int) =~= whole);
    }
    order
}

/// `order`, or `order` read backwards, turned to the right by `step` stops.
fn arrange(order: &Vec<u32>, step: usize, reversed: bool) -> (turned: Vec<u32>)
    requires
        step < order@.len(),
    ensures
        turned@ == arranged(order@, step as int, reversed),
{
    let n = order.len();
    let ghost whole = arranged(order@, step as int, reversed);
    let mut turned: Vec<u32> = Vec::new();
    let mut i: usize = 0;
    while i < n
        invariant
            0 <= i <= n,
            n == order@.len(),
            step < n,
            whole == arranged(order@, step as int, reversed),
            turned@ == whole.take(i as int),
        decreases n - i,
    {
        let from = if i >= step {
            i - step
        } else {
            i + (n - step)
        };
        let stop = if reversed {
            order[n - 1 - from]
        } else {
            order[from]
        };
        turned.push(stop);
        i = i + 1;
        proof {
            assert(turned@ =~= whole.take(i as int));
        }
    }
    proof {
        assert(whole.take(n as int) =~= whole);
    }
    turned
}

/// A tour that is turned, or read backwards and turned, is a tour.
pub proof fn lemma_arranged_tour(order: Seq<u32>, step: int, reversed: bool)
    requires
        is_tour(order, order.len()),
        0 <= step < order.len(),
    ensures
        is_tour(arranged(order, step, reversed), order.len()),
{
    let turned = arranged(order, step, reversed);
    let n = order.len() as int;
    assert forall|i: int, j: int| 0 <= i < turned.len() && 0 <= j < turned.len() && i
        != j implies turned[i] != turned[j] by {
        let fi = if i >= step {
            i - step
        } else {
            i + n - step
        };
        let fj = if j >= step {
            j - step
        } else {
            j + n - step
        };
        assert(fi != fj);
        if reversed {
            assert(order[n - 1 - fi] != order[n - 1 - fj]);
        } else {
            assert(order[fi] != order[fj]);
        }
    }
}

/// Two tours that are crossed where they can be crossed make two tours.
pub proof fn lemma_crossed_tour(first: Seq<u32>, second: Seq<u32>, start: int, end: int)
    requires
        is_tour(first, first.len()),
        is_tour(second, first.len()),
        crossing(first, second, start, end),
    ensures
        is_tour(mixed(second, first, start, end), first.len()),
        is_tour(mixed(first, second, start, end), first.len()),
{
    lemma_crossed_half(first, second, start, end);
    assert(same_stops(second, first, start + 1, end));
    lemma_crossed_half(second, first, start, end);
}

proof fn lemma_crossed_half(first: Seq<u32>, second: Seq<u32>, start: int, end: int)
    requires
        is_tour(first, first.len()),
        is_tour(second, first.len()),
        0 <= start,
        start + 1 < end < first.len(),
        first[start] == second[start],
        same_stops(first, second, start + 1, end),
    ensures
        is_tour(mixed(second, first, start, end), first.len()),
{
    let child = mixed(second, first, start, end);
    assert forall|i: int, j: int| 0 <= i < child.len() && 0 <= j < child.len() && i
        != j implies child[i] != child[j] by {
        let inside_i = start <= i < end;
        let inside_j = start <= j < end;
        if inside_i && !inside_j {
            lemma_crossed_apart(first, second, start, end, i, j);
        } else if inside_j && !inside_i {
            lemma_crossed_apart(first, second, start, end, j, i);
        } else if inside_i {
            assert(second[i] != second[j]);
        } else {
            assert(first[i] != first[j]);
        }
    }
}

proof fn lemma_crossed_apart(
    first: Seq<u32>,
    second: Seq<u32>,
    start: int,
    end: int,
    inner: int,
    outer: int,
)
    requires
        is_tour(first, first.len()),
        is_tour(second, first.len()),
        0 <= start,
        start + 1 < end < first.len(),
        first[start] == second[start],
        same_stops(first, second, start + 1, end),
        start <= inner < end,
        0 <= outer < first.len(),
        !(start <= outer < end),
    ensures
        second[inner] != first[outer],
{
    if inner == start {
        assert(first[start] != first[outer]);
    } else {
        let b = second.subrange(start + 1, end);
        let a = first.subrange(start + 1, end);
        assert(b[inner - start - 1] == second[inner]);
        assert(b.contains(second[inner]));
        assert(a.contains(second[inner]));
        let k = choose|k: int| 0 <= k < a.len() && a[k] == second[inner];
        assert(first[start + 1 + k] == second[inner]);
        assert(first[start + 1 + k] != first[outer]);
    }
}

/// `first` and the arrangement of `second` by `step` and `reversed` can be
/// crossed between `start` and `end`, and this is the first crossing in
/// the order of the search: by the number of stops turned; for the same
/// number, forwards before backwards; then by the start, then by the end.
pub open spec fn is_first_crossing(
    first: Seq<u32>,
    second: Seq<u32>,
    step: int,
    reversed: bool,
    start: int,
    end: int,
) -> bool {
    &&& 0 <= step < first.len()
    &&& crossing(first, arranged(second, step, reversed), start, end)
    &&& forall|step2: int, reversed2: bool, s: int, e: int|
        0 <= step2 < step ==> !#[trigger] crossing(first, arranged(second, step2, reversed2), s, e)
    &&& reversed ==> forall|s: int, e: int|
        !#[trigger] crossing(first, arranged(second, step, false), s, e)
    &&& forall|s: int, e: int|
        s < start ==> !#[trigger] crossing(first, arranged(second, step, reversed), s, e)
    &&& forall|e: int| e < end ==> !#[trigger] crossing(first, arranged(second, step, reversed), start, e)
}

/// The first crossing of `first` with the arrangement of `second` by
/// `step` and `reversed`, with that arrangement; nothing if they cannot be
/// crossed.
fn first_crossing_of(first: &Vec<u32>, second: &Vec<u32>, step: usize, reversed: bool) -> (res:
    Option<(usize, usize, Vec<u32>)>)
    requires
        first@.len() == second@.len(),
        step < first@.len(),
        is_tour(first@, first@.len()),
        is_tour(second@, first@.len()),
    ensures
        match res {
            Some((s, e, turned)) => {
                &&& turned@ == arranged(second@, step as int, reversed)
                &&& crossing(first@, turned@, s as int, e as int)
                &&& forall|s2: int, e2: int| s2 < s ==> !#[trigger] crossing(first@, turned@, s2, e2)
                &&& forall|e2: int| e2 < e ==> !#[trigger] crossing(first@, turned@, s as int, e2)
            },
            None => forall|s2: int, e2: int|
                !#[trigger] crossing(first@, arranged(second@, step as int, reversed), s2, e2),
        },
{
    let n = first.len();
    let turned = arrange(second, step, reversed);
    proof {
        lemma_arranged_tour(second@, step as int, reversed);
    }
    let mut from: usize = 0;
    while from < n
        invariant
            0 <= from <= n,
            n == first@.len(),
            turned@.len() == n,
            turned@ == arranged(second@, step as int, reversed),
            is_tour(first@, n as nat),
            is_tour(turned@, n as nat),
            no_crossing_from(first@, turned@, 0, from as int),
        decreases n - from,
    {
        match scan_from(first, &turned, from) {
            Scan::Found(s, e) => {
                proof {
                    assert forall|s2: int, e2: int| s2 < s implies !#[trigger] crossing(
                        first@,
                        turned@,
                        s2,
                        e2,
                    ) by {
                        if 0 <= s2 {
                            if s2 < from {
                                assert(no_crossing_from(first@, turned@, 0, from as int));
                            } else {
                                assert(no_crossing_from(first@, turned@, from as int, s as int));
                            }
                        }
                    }
                }
                return Some((s, e, turned));
            },
            Scan::NotFound(Some(next)) => {
                proof {
                    assert forall|s2: int, e2: int| 0 <= s2 < next implies !#[trigger] crossing(
                        first@,
                        turned@,
                        s2,
                        e2,
                    ) by {
                        if s2 < from {
                            assert(no_crossing_from(first@, turned@, 0, from as int));
                        } else {
                            assert(no_crossing_from(first@, turned@, from as int, next as int));
                        }
                    }
                }
                from = next;
            },
            Scan::NotFound(None) => {
                proof {
                    assert forall|s2: int, e2: int| 0 <= s2 < n implies !#[trigger] crossing(
                        first@,
                        turned@,
                        s2,
                        e2,
                    ) by {
                        if s2 < from {
                            assert(no_crossing_from(first@, turned@, 0, from as int));
                        } else {
                            assert(no_crossing_from(first@, turned@, from as int, n as int));
                        }
                    }
                }
                from = n;
            },
        }
    }
    proof {
        assert forall|s2: int, e2: int| !#[trigger] crossing(first@, turned@, s2, e2) by {
            if 0 <= s2 < n {
                assert(no_crossing_from(first@, turned@, 0, n as int));
            }
        }
    }
    None
}

impl GeneticAlgorithm {
    /// Crosses two tours where they visit the same cities between two
    /// stops at which they agree, so that both children are tours: the
    /// first child is `parent1` with the stops in between taken from
    /// `parent2`, the second the other way round. `parent2` is tried in
    /// every arrangement, turned stop by stop, forwards and backwards;
    /// the first crossing found makes the children. Returns nothing if
    /// the tours cannot be crossed in any arrangement.
    pub fn precise_crossover(parent1: &Solution, parent2: &Solution) -> (res: Option<
        (Solution, Solution),
    >)
        requires
            parent1.order_without_loop@.len() == parent2.order_without_loop@.len(),
            is_tour(parent1.order_without_loop@, parent1.order_without_loop@.len()),
            is_tour(parent2.order_without_loop@, parent1.order_without_loop@.len()),
        ensures
            match res {
                Some((child1, child2)) => {
                    &&& is_tour(child1.order_without_loop@, parent1.order_without_loop@.len())
                    &&& is_tour(child2.order_without_loop@, parent1.order_without_loop@.len())
                    &&& child1.total_distance is None
                    &&& child2.total_distance is None
                    &&& exists|step: int, reversed: bool, start: int, end: int|
                        {
                            &&& #[trigger] is_first_crossing(
                                parent1.order_without_loop@,
                                parent2.order_without_loop@,
                                step,
                                reversed,
                                start,
                                end,
                            )
                            &&& child1.order_without_loop@ == mixed(
                                arranged(parent2.order_without_loop@, step, reversed),
                                parent1.order_without_loop@,
                                start,
                                end,
                            )
                            &&& child2.order_without_loop@ == mixed(
                                parent1.order_without_loop@,
                                arranged(parent2.order_without_loop@, step, reversed),
                                start,
                                end,
                            )
                        }
                },
                None => forall|step: int, reversed: bool, s: int, e: int|
                    0 <= step < parent1.order_without_loop@.len() ==> !#[trigger] crossing(
                        parent1.order_without_loop@,
                        arranged(parent2.order_without_loop@, step, reversed),
                        s,
                        e,
                    ),
            },
    {
        let first = &parent1.order_without_loop;
        let second = &parent2.order_without_loop;
        let n = first.len();
        let mut step: usize = 0;
        while step < n
            invariant
                0 <= step <= n,
                n == first@.len(),
                n == second@.len(),
                first == &parent1.order_without_loop,
                second == &parent2.order_without_loop,
                is_tour(first@, n as nat),
                is_tour(second@, n as nat),
                forall|step2: int, reversed2: bool, s: int, e: int|
                    0 <= step2 < step ==> !#[trigger] crossing(
                        first@,
                        arranged(second@, step2, reversed2),
                        s,
                        e,
                    ),
            decreases n - step,
        {
            let forwards = first_crossing_of(first, second, step, false);
            let (found, reversed) = match forwards {
                Some(found) => (Some(found), false),
                None => (first_crossing_of(first, second, step, true), true),
            };
            match found {
                Some((start, end, turned)) => {
                    let order1 = mix(&turned, first, start, end);
                    let order2 = mix(first, &turned, start, end);
                    proof {
                        lemma_arranged_tour(second@, step as int, reversed);
                        lemma_crossed_tour(first@, turned@, start as int, end as int);
                        assert(is_first_crossing(
                            first@,
                            second@,
                            step as int,
                            reversed,
                            start as int,
                            end as int,
                        ));
                    }
                    return Some((Solution::new(order1, None), Solution::new(order2, None)));
                },
                None => {
                    proof {
                        assert forall|step2: int, reversed2: bool, s: int, e: int|
                            0 <= step2 < step + 1 implies !#[trigger] crossing(
                            first@,
                            arranged(second@, step2, reversed2),
                            s,
                            e,
                        ) by {
                            if step2 == step {
                                if reversed2 {
                                } else {
                                }
                            }
                        }
                    }
                },
            }
            step = step + 1;
        }
        None
    }
}

/// `solution` is a tour of the cities that knows its length.
pub open spec fn is_measured(cities: Seq<crate::problem::City>, solution: Solution) -> bool {
    &&& is_tour(solution.order_without_loop@, cities.len())
    &&& solution.total_distance matches Some(length) && length == tour_length(
        cities,
        solution.order_without_loop@,
    )
}

/// The length that a measured tour knows.
pub open spec fn length_of(solution: Solution) -> u64 {
    solution.total_distance.unwrap()
}

/// A tour with the same stops and the same length.
fn copy_of(solution: &Solution) -> (copy: Solution)
    ensures
        copy.order_without_loop@ == solution.order_without_loop@,
        copy.total_distance == solution.total_distance,
{
    let mut order: Vec<u32> = Vec::new();
    let mut i: usize = 0;
    while i < solution.order_without_loop.len()
        invariant
            0 <= i <= solution.order_without_loop@.len(),
            order@ == solution.order_without_loop@.take(i as int),
        decreases solution.order_without_loop@.len() - i,
    {
        order.push(solution.order_without_loop[i]);
        i = i + 1;
        proof {
            assert(order@ =~= solution.order_without_loop@.take(i as int));
        }
    }
    proof {
        assert(solution.order_without_loop@.take(solution.order_without_loop@.len() as int)
            =~= solution.order_without_loop@);
    }
    Solution::new(order, solution.total_distance)
}

/// What the genetic search keeps from one step to the next: the best tour
/// found, the tours of this generation, the tours found for the next, and
/// the lengths of all tours kept so far.
pub struct Search {
    best: Option<Solution>,
    population: Vec<Solution>,
    new_solutions: Vec<Solution>,
    visited_total_lengths: LengthSet,
}

impl Search {
    /// The best tour found so far.
    pub closed spec fn best(&self) -> Option<Solution> {
        self.best
    }

    /// The tours of this generation.
    pub closed spec fn population(&self) -> Seq<Solution> {
        self.population@
    }

    /// The tours found for the next generation.
    pub closed spec fn found(&self) -> Seq<Solution> {
        self.new_solutions@
    }

    /// The lengths of the tours kept so far.
    pub closed spec fn lengths(&self) -> Set<u64> {
        self.visited_total_lengths@
    }

    /// The invariant of the search for the cities `cities`: every tour
    /// kept is a tour of the cities and knows its length, and none is
    /// shorter than the best.
    pub open spec fn wf(&self, cities: Seq<crate::problem::City>) -> bool {
        &&& self.best() matches Some(best) ==> is_measured(cities, best)
        &&& forall|i: int|
            0 <= i < self.population().len() ==> is_measured(cities, #[trigger] self.population()[i])
                && self.best() is Some && length_of(self.best().unwrap()) <= length_of(
                self.population()[i],
            )
        &&& forall|i: int|
            0 <= i < self.found().len() ==> is_measured(cities, #[trigger] self.found()[i])
                && self.best() is Some && length_of(self.best().unwrap()) <= length_of(
                self.found()[i],
            )
    }

    /// A search that has found nothing yet.
    pub fn new() -> (search: Self)
        ensures
            search.best() is None,
            search.population().len() == 0,
            search.found().len() == 0,
            search.lengths() == Set::<u64>::empty(),
            forall|cities: Seq<crate::problem::City>| search.wf(cities),
    {
        Search {
            best: None,
            population: Vec::new(),
            new_solutions: Vec::new(),
            visited_total_lengths: LengthSet::new(),
        }
    }

    /// The best tour found so far, if any.
    pub fn best_solution(&self) -> (res: Option<&Solution>)
        ensures
            match res {
                Some(best) => self.best() == Some(*best),
                None => self.best() is None,
            },
    {
        self.best.as_ref()
    }

    /// The tours of this generation.
    pub fn tours(&self) -> (tours: &Vec<Solution>)
        ensures
            tours@ == self.population(),
    {
        &self.population
    }

    /// The number of tours of this generation and of those found for the
    /// next.
    pub fn len(&self) -> (len: usize)
        requires
            self.population().len() + self.found().len() <= usize::MAX,
        ensures
            len == self.population().len() + self.found().len(),
    {
        self.population.len() + self.new_solutions.len()
    }

    /// Takes `child` for the best tour if it is shorter than the best so
    /// far. Returns the length of `child`.
    fn consider(&mut self, problem: &Problem, child: &Solution) -> (length: u64)
        requires
            old(self).wf(problem.cities@),
            problem.cities@.len() <= MAX_CITIES,
            is_tour(child.order_without_loop@, problem.cities@.len()),
            child.total_distance matches Some(known) ==> known == tour_length(
                problem.cities@,
                child.order_without_loop@,
            ),
        ensures
            final(self).wf(problem.cities@),
            length == tour_length(problem.cities@, child.order_without_loop@),
            final(self).population() == old(self).population(),
            final(self).found() == old(self).found(),
            final(self).lengths() == old(self).lengths(),
            final(self).best() matches Some(best) && is_measured(problem.cities@, best)
                && length_of(best) <= length,
            match old(self).best() {
                Some(before) => if length < length_of(before) {
                    final(self).best().unwrap().order_without_loop@ == child.order_without_loop@
                } else {
                    final(self).best() == Some(before)
                },
                None => final(self).best().unwrap().order_without_loop@
                    == child.order_without_loop@,
            },
    {
        let length = child.total_distance(problem);
        let better = match &self.best {
            Some(best) => match best.total_distance {
                Some(best_length) => length < best_length,
                None => true,
            },
            None => true,
        };
        if better {
            let copy = Solution::new(copy_of(child).order_without_loop, Some(length));
            self.best = Some(copy);
            proof {
                assert(is_measured(problem.cities@, copy));
                assert forall|i: int| 0 <= i < self.population().len() implies is_measured(
                    problem.cities@,
                    #[trigger] self.population()[i],
                ) && length_of(self.best().unwrap()) <= length_of(self.population()[i]) by {
                    assert(self.population()[i] == old(self).population()[i]);
                }
                assert forall|i: int| 0 <= i < self.found().len() implies is_measured(
                    problem.cities@,
                    #[trigger] self.found()[i],
                ) && length_of(self.best().unwrap()) <= length_of(self.found()[i]) by {
                    assert(self.found()[i] == old(self).found()[i]);
                }
            }
        }
        length
    }

    /// Starts the search with the tour that goes from the city
    /// `start_index` always on to the nearest city not yet visited: the
    /// tour joins this generation, and is the best if it is shorter than
    /// the best so far.
    pub fn seed(&mut self, problem: &Problem, start_index: usize)
        requires
            old(self).wf(problem.cities@),
            start_index < problem.cities@.len() <= MAX_CITIES,
            distinct_cities(problem.cities@),
        ensures
            final(self).wf(problem.cities@),
            final(self).population().len() == old(self).population().len() + 1,
            final(self).found() == old(self).found(),
            final(self).best() is Some,
            final(self).population().last().order_without_loop@[0] == start_index,
            crate::tour::goes_to_nearest(
                problem.cities@,
                final(self).population().last().order_without_loop@,
            ),
            forall|i: int|
                0 <= i < old(self).population().len() ==> final(self).population()[i] == old(
                    self,
                ).population()[i],
            final(self).lengths() == old(self).lengths().insert(
                length_of(final(self).population().last()),
            ),
    {
        let solution = Solution::from_nearest_neighbor(problem, start_index);
        let length = self.consider(problem, &solution);
        let _new = self.visited_total_lengths.insert(length);
        self.population.push(solution);
    }

    /// Offers the search a tour made by crossing: the tour is the best if
    /// it is shorter than the best so far, and it is kept for the next
    /// generation unless a tour of its length has been kept before. Tells
    /// whether there is room for more tours, `capacity` being the number
    /// of tours that the two generations may hold together.
    pub fn offer(&mut self, problem: &Problem, child: Solution, capacity: usize) -> (room: bool)
        requires
            old(self).wf(problem.cities@),
            problem.cities@.len() <= MAX_CITIES,
            is_tour(child.order_without_loop@, problem.cities@.len()),
            child.total_distance matches Some(known) ==> known == tour_length(
                problem.cities@,
                child.order_without_loop@,
            ),
            old(self).population().len() + old(self).found().len() < usize::MAX,
        ensures
            final(self).wf(problem.cities@),
            final(self).population() == old(self).population(),
            final(self).best() matches Some(best) && length_of(best) <= tour_length(
                problem.cities@,
                child.order_without_loop@,
            ),
            room == (final(self).population().len() + final(self).found().len() < capacity),
            ({
                let length = tour_length(problem.cities@, child.order_without_loop@) as u64;
                &&& final(self).lengths() == old(self).lengths().insert(length)
                &&& if old(self).lengths().contains(length) {
                    final(self).found() == old(self).found()
                } else {
                    &&& final(self).found().len() == old(self).found().len() + 1
                    &&& final(self).found().drop_last() == old(self).found()
                    &&& final(self).found().last().order_without_loop@
                        == child.order_without_loop@
                }
            }),
    {
        let length = self.consider(problem, &child);
        let is_new = self.visited_total_lengths.insert(length);
        if is_new {
            let ghost before = self.new_solutions@;
            let kept = Solution::new(child.order_without_loop, Some(length));
            self.new_solutions.push(kept);
            proof {
                assert(self.new_solutions@.drop_last() =~= before);
            }
        }
        self.population.len() + self.new_solutions.len() < capacity
    }

    /// Ends a generation: the tours of this generation and those found for
    /// the next are cut down to `population_size` tours, which make the
    /// next generation.
    pub fn next_generation(&mut self, problem: &Problem, population_size: usize, rng: &mut StdRng)
        requires
            old(self).wf(problem.cities@),
        ensures
            final(self).wf(problem.cities@),
            final(self).best() == old(self).best(),
            final(self).lengths() == old(self).lengths(),
            final(self).found().len() == 0,
            old(self).population().len() + old(self).found().len() <= population_size
                ==> final(self).population() == old(self).population() + old(self).found(),
            old(self).population().len() + old(self).found().len() > population_size
                ==> final(self).population().len() == population_size,
            final(self).population().to_multiset().subset_of(
                (old(self).population() + old(self).found()).to_multiset(),
            ),
    {
        let ghost before_population = self.population@;
        let ghost before_found = self.new_solutions@;
        let mut combined: Vec<Solution> = Vec::new();
        core::mem::swap(&mut combined, &mut self.population);
        let mut found: Vec<Solution> = Vec::new();
        core::mem::swap(&mut found, &mut self.new_solutions);
        combined.append(&mut found);
        let ghost all = combined@;
        let kept = Population::new(combined).shrink_population(population_size, rng);
        proof {
            broadcast use vstd::multiset::group_multiset_axioms;

            assert(all =~= before_population + before_found);
            crate::population::lemma_shrunk_subset(all, kept@, population_size);
            assert forall|i: int| 0 <= i < kept@.len() implies is_measured(
                problem.cities@,
                #[trigger] kept@[i],
            ) && old(self).best() is Some && length_of(old(self).best().unwrap()) <= length_of(
                kept@[i],
            ) by {
                vstd::seq_lib::to_multiset_contains(kept@, kept@[i]);
                assert(kept@.contains(kept@[i]));
                assert(all.to_multiset().count(kept@[i]) > 0);
                vstd::seq_lib::to_multiset_contains(all, kept@[i]);
                let j = choose|j: int| 0 <= j < all.len() && all[j] == kept@[i];
                if j < before_population.len() {
                    assert(all[j] == old(self).population()[j]);
                } else {
                    assert(all[j] == old(self).found()[j - before_population.len()]);
                }
            }
        }
        self.population = kept;
        proof {
            assert(self.best() == old(self).best());
            assert(self.found() =~= Seq::<Solution>::empty());
            assert forall|i: int| 0 <= i < self.population().len() implies is_measured(
                problem.cities@,
                #[trigger] self.population()[i],
            ) && self.best() is Some && length_of(self.best().unwrap()) <= length_of(
                self.population()[i],
            ) by {
                assert(self.population()[i] == kept@[i]);
            }
            if old(self).best() is None {
                assert(before_population.len() == 0 && before_found.len() == 0) by {
                    if before_population.len() > 0 {
                        assert(is_measured(problem.cities@, old(self).population()[0]));
                    }
                    if before_found.len() > 0 {
                        assert(is_measured(problem.cities@, old(self).found()[0]));
                    }
                }
            }
        }
    }
}

/// The two numbers in their order; nothing if they are the same number.
pub fn ordered_pair(index1: usize, index2: usize) -> (res: Option<(usize, usize)>)
    ensures
        match res {
            Some((low, high)) => low < high && ((low == index1 && high == index2) || (low == index2
                && high == index1)),
            None => index1 == index2,
        },
{
    if index1 < index2 {
        Some((index1, index2))
    } else if index1 > index2 {
        Some((index2, index1))
    } else {
        None
    }
}

} // verus!
