//! Building tours: by always going on to the nearest city not yet visited,
//! and by trying every tour.
use crate::cover_tree::{CoverTree, Distance};
use crate::problem::{
    is_tour, leg, legs_length, lemma_city_distance_bound, tour_length, City, Problem, Solution,
    MAX_CITIES,
};
use itertools::Itertools;
use vstd::arithmetic::div_mod::{lemma_mod_self_0, lemma_small_mod};
use vstd::prelude::*;

verus! {

/// No city is listed twice.
pub open spec fn distinct_cities(cities: Seq<City>) -> bool {
    forall|i: int, j: int| 0 <= i < j < cities.len() ==> cities[i] != cities[j]
}

/// The cities that `order` has not visited.
pub open spec fn unvisited(cities: Seq<City>, order: Seq<u32>) -> Set<City> {
    Set::new(
        |c: City| exists|j: u32| j < cities.len() && #[trigger] cities[j as int] == c && !order.contains(j),
    )
}

/// From the second stop on, every stop of `order` is a city nearest to the
/// stop before it among those not visited until then.
pub open spec fn goes_to_nearest(cities: Seq<City>, order: Seq<u32>) -> bool {
    forall|k: int, j: u32|
        1 <= k < order.len() && j < cities.len() && !(#[trigger] order.take(k)).contains(j)
            ==> cities[order[k] as int].dist(&cities[order[k - 1] as int]) <= (
        #[trigger] cities[j as int]).dist(&cities[order[k - 1] as int])
}

/// The length of the way along the first `k + 1` stops of `order`.
pub open spec fn path_length(cities: Seq<City>, order: Seq<u32>, k: nat) -> nat
    decreases k,
{
    if k == 0 {
        0
    } else {
        path_length(cities, order, (k - 1) as nat) + cities[order[k - 1] as int].dist(
            &cities[order[k as int] as int],
        )
    }
}

/// A way is as long after another stop is added.
proof fn lemma_path_length_push(cities: Seq<City>, order: Seq<u32>, stop: u32, k: nat)
    requires
        k < order.len(),
    ensures
        path_length(cities, order.push(stop), k) == path_length(cities, order, k),
    decreases k,
{
    if k > 0 {
        lemma_path_length_push(cities, order, stop, (k - 1) as nat);
    }
}

/// A round trip is the way along all stops and the leg back to the first.
proof fn lemma_round_trip(cities: Seq<City>, order: Seq<u32>, k: nat)
    requires
        k < order.len(),
    ensures
        legs_length(cities, order, k) == path_length(cities, order, k),
        tour_length(cities, order) == path_length(cities, order, (order.len() - 1) as nat)
            + cities[order[order.len() - 1] as int].dist(&cities[order[0] as int]),
    decreases k,
{
    let n = order.len() as int;
    lemma_mod_self_0(n);
    if k > 0 {
        lemma_round_trip(cities, order, (k - 1) as nat);
        lemma_small_mod(k, order.len());
    }
    lemma_round_trip_all(cities, order, (order.len() - 1) as nat);
}

proof fn lemma_round_trip_all(cities: Seq<City>, order: Seq<u32>, k: nat)
    requires
        k < order.len(),
    ensures
        legs_length(cities, order, k) == path_length(cities, order, k),
    decreases k,
{
    if k > 0 {
        lemma_round_trip_all(cities, order, (k - 1) as nat);
        lemma_small_mod(k, order.len());
    }
}

/// A way of `k` legs is no longer than `k * 2^33`.
proof fn lemma_path_length_bound(cities: Seq<City>, order: Seq<u32>, k: nat)
    ensures
        path_length(cities, order, k) <= k * 0x2_0000_0000,
    decreases k,
{
    if k > 0 {
        lemma_path_length_bound(cities, order, (k - 1) as nat);
        lemma_city_distance_bound(cities[order[k - 1] as int], cities[order[k as int] as int]);
    }
}

/// The position of `city` in `cities`.
fn index_of(cities: &Vec<City>, city: &City) -> (at: usize)
    requires
        exists|j: int| 0 <= j < cities@.len() && cities@[j] == *city,
    ensures
        at < cities@.len(),
        cities@[at as int] == *city,
{
    let mut at: usize = 0;
    while cities[at] != *city
        invariant
            0 <= at < cities@.len(),
            exists|j: int| at <= j < cities@.len() && cities@[j] == *city,
        decreases cities@.len() - at,
    {
        proof {
            let j = choose|j: int| at <= j < cities@.len() && cities@[j] == *city;
            assert(j != at);
            assert(cities@.len() == cities.len());
        }
        at = at + 1;
    }
    at
}

impl Solution {
    /// The tour that starts at the city `start_index` and always goes on
    /// to the nearest city not yet visited, found in a cover tree of the
    /// cities that are left.
    pub fn from_nearest_neighbor(problem: &Problem, start_index: usize) -> (solution: Self)
        requires
            start_index < problem.cities@.len() <= MAX_CITIES,
            distinct_cities(problem.cities@),
        ensures
            is_tour(solution.order_without_loop@, problem.cities@.len()),
            solution.order_without_loop@[0] == start_index,
            goes_to_nearest(problem.cities@, solution.order_without_loop@),
            solution.total_distance == Some(
                tour_length(problem.cities@, solution.order_without_loop@) as u64,
            ),
            tour_length(problem.cities@, solution.order_without_loop@) <= u64::MAX,
    {
        let cities = &problem.cities;
        let n = cities.len();
        let mut tree: CoverTree<City> = CoverTree::new();
        let mut i: usize = 0;
        while i < n
            invariant
                0 <= i <= n,
                n == cities@.len(),
                distinct_cities(cities@),
                tree.wf(),
                tree@.finite(),
                tree@.len() == i,
                forall|c: City| tree@.contains(c) <==> exists|j: int| 0 <= j < i && cities@[j] == c,
            decreases n - i,
        {
            let city = cities[i];
            proof {
                if tree@.contains(city) {
                    let j = choose|j: int| 0 <= j < i && cities@[j] == city;
                    assert(cities@[j] != cities@[i as int]);
                }
            }
            let inserted = tree.insert(city);
            proof {
                assert forall|c: City| tree@.contains(c) <==> exists|j: int|
                    0 <= j < i + 1 && cities@[j] == c by {
                    if c == city {
                        assert(cities@[i as int] == c);
                    }
                }
            }
            i = i + 1;
        }
        let initial_city = cities[start_index];
        let mut order: Vec<u32> = Vec::new();
        order.push(start_index as u32);
        let removed = tree.remove(&initial_city);
        proof {
            assert(tree@ =~= unvisited(cities@, order@)) by {
                assert forall|c: City| tree@.contains(c) <==> unvisited(cities@, order@).contains(
                    c,
                ) by {
                    if tree@.contains(c) {
                        let j = choose|j: int| 0 <= j < n && cities@[j] == c;
                        assert(j != start_index);
                        assert(cities@[(j as u32) as int] == c);
                        assert(!order@.contains(j as u32)) by {
                            if order@.contains(j as u32) {
                                let k = choose|k: int| 0 <= k < order@.len() && order@[k] == j as u32;
                            }
                        }
                    }
                    if unvisited(cities@, order@).contains(c) {
                        let j = choose|j: u32|
                            j < cities@.len() && #[trigger] cities@[j as int] == c && !order@.contains(
                                j,
                            );
                        assert(order@[0] == start_index as u32);
                        if cities@[j as int] == initial_city {
                            if j < start_index {
                                assert(cities@[j as int] != cities@[start_index as int]);
                            } else if j > start_index {
                                assert(cities@[start_index as int] != cities@[j as int]);
                            }
                            assert(j == start_index);
                        }
                    }
                }
            }
            assert(order@.take(1) =~= order@);
        }
        let mut current_city = initial_city;
        let mut total: u64 = 0;
        while order.len() < n
            invariant
                n == cities@.len(),
                cities == &problem.cities,
                n <= MAX_CITIES,
                distinct_cities(cities@),
                start_index < n,
                initial_city == cities@[start_index as int],
                1 <= order@.len() <= n,
                order@[0] == start_index,
                forall|k: int| 0 <= k < order@.len() ==> (#[trigger] order@[k]) < n,
                order@.no_duplicates(),
                current_city == cities@[order@[order@.len() - 1] as int],
                tree.wf(),
                tree@.finite(),
                tree@.len() == n - order@.len(),
                tree@ == unvisited(cities@, order@),
                goes_to_nearest(cities@, order@),
                total == path_length(cities@, order@, (order@.len() - 1) as nat),
            decreases n - order@.len(),
        {
            let ghost before = order@;
            let found = tree.nearest_neighbor(&current_city);
            let (nearest_city, distance) = match found {
                Some((point, d)) => (*point, d),
                None => {
                    proof {
                        assert(tree@.len() > 0);
                        assert(Set::<City>::empty().len() == 0);
                    }
                    vstd::pervasive::unreached()
                },
            };
            proof {
                assert(unvisited(cities@, before).contains(nearest_city));
                let j = choose|j: u32|
                    j < cities@.len() && #[trigger] cities@[j as int] == nearest_city
                        && !before.contains(j);
                assert(cities@[j as int] == nearest_city);
            }
            let index = index_of(cities, &nearest_city);
            let removed = tree.remove(&nearest_city);
            proof {
                let j = choose|j: u32|
                    j < cities@.len() && #[trigger] cities@[j as int] == nearest_city
                        && !before.contains(j);
                if j < index {
                    assert(cities@[j as int] != cities@[index as int]);
                } else if j > index {
                    assert(cities@[index as int] != cities@[j as int]);
                }
                assert(j == index);
                lemma_path_length_bound(cities@, before, before.len() as nat);
                lemma_city_distance_bound(nearest_city, current_city);
                assert(before.len() * 0x2_0000_0000 <= 0x7fff_ffff * 0x2_0000_0000)
                    by (nonlinear_arith)
                    requires
                        before.len() <= 0x7fff_ffff,
                ;
            }
            total = total + distance;
            order.push(index as u32);
            proof {
                let stop = index as u32;
                let after = order@;
                assert(after == before.push(stop));
                assert(after.no_duplicates()) by {
                    assert forall|a: int, b: int| 0 <= a < after.len() && 0 <= b < after.len() && a
                        != b implies after[a] != after[b] by {
                        if a == before.len() {
                            assert(before[b] != stop);
                        } else if b == before.len() {
                            assert(before[a] != stop);
                        }
                    }
                }
                assert(tree@ =~= unvisited(cities@, after)) by {
                    assert forall|c: City| tree@.contains(c) <==> unvisited(cities@, after).contains(
                        c,
                    ) by {
                        if tree@.contains(c) {
                            let w = choose|w: u32|
                                w < cities@.len() && #[trigger] cities@[w as int] == c
                                    && !before.contains(w);
                            assert(w != stop);
                            assert(!after.contains(w)) by {
                                if after.contains(w) {
                                    let k = choose|k: int| 0 <= k < after.len() && after[k] == w;
                                    if k < before.len() {
                                        assert(before[k] == w);
                                    }
                                }
                            }
                        }
                        if unvisited(cities@, after).contains(c) {
                            let w = choose|w: u32|
                                w < cities@.len() && #[trigger] cities@[w as int] == c
                                    && !after.contains(w);
                            assert(after[before.len() as int] == stop);
                            assert(w != stop);
                            assert(!before.contains(w)) by {
                                if before.contains(w) {
                                    let k = choose|k: int| 0 <= k < before.len() && before[k] == w;
                                    assert(after[k] == w);
                                }
                            }
                            if w < index {
                                assert(cities@[w as int] != cities@[index as int]);
                            } else {
                                assert(cities@[index as int] != cities@[w as int]);
                            }
                        }
                    }
                }
                lemma_path_length_push(cities@, before, stop, (before.len() - 1) as nat);
                City::lemma_symmetry(&nearest_city, &current_city);
                assert(goes_to_nearest(cities@, after)) by {
                    assert forall|k: int, w: u32|
                        1 <= k < after.len() && w < cities@.len() && !(#[trigger] after.take(
                            k,
                        )).contains(w) implies cities@[after[k] as int].dist(
                        &cities@[after[k - 1] as int],
                    ) <= (#[trigger] cities@[w as int]).dist(&cities@[after[k - 1] as int]) by {
                        if k < before.len() {
                            assert(after.take(k) =~= before.take(k));
                            assert(after[k] == before[k] && after[k - 1] == before[k - 1]);
                        } else {
                            assert(after.take(k) =~= before);
                            assert(unvisited(cities@, before).contains(cities@[w as int]));
                        }
                    }
                }
            }
            current_city = nearest_city;
        }
        proof {
            lemma_round_trip(cities@, order@, 0);
            lemma_path_length_bound(cities@, order@, (order@.len() - 1) as nat);
            lemma_city_distance_bound(current_city, initial_city);
            assert((n - 1) * 0x2_0000_0000 <= 0x7fff_fffe * 0x2_0000_0000) by (nonlinear_arith)
                requires
                    n - 1 <= 0x7fff_fffe,
            ;
        }
        total = total + current_city.distance(&initial_city);
        Solution::new(order, Some(total))
    }
}

/// The lists that `lists` holds, as values.
pub open spec fn contents(lists: Seq<Vec<u32>>) -> Seq<Seq<u32>> {
    Seq::new(lists.len(), |i: int| lists[i]@)
}

/// What `Itertools::permutations` yields for the items `items` and the
/// length `k`, in its order.
pub uninterp spec fn itertools_permutations(items: Seq<u32>, k: nat) -> Seq<Seq<u32>>;

/// `lists` without the entries that repeat an earlier one.
pub open spec fn first_occurrences(lists: Seq<Seq<u32>>) -> Seq<Seq<u32>>
    decreases lists.len(),
{
    if lists.len() == 0 {
        lists
    } else {
        let before = first_occurrences(lists.drop_last());
        if before.contains(lists.last()) {
            before
        } else {
            before.push(lists.last())
        }
    }
}

/// The most cities that every tour is tried for: with more, the tours
/// would not fit into memory.
pub const MAX_BRUTE_FORCE_CITIES: usize = 10;

/// `Itertools::permutations` on the items of a list, collected: every
/// arrangement of `k` of the items, each as a list, in the order in which
/// the iterator yields them. The contract names that result and claims no
/// more of it. The items are few enough for the arrangements to be held
/// all at once.
#[verifier::external_body]
fn permutations_of(items: &Vec<u32>, k: usize) -> (lists: Vec<Vec<u32>>)
    requires
        items@.len() < MAX_BRUTE_FORCE_CITIES,
    ensures
        contents(lists@) == itertools_permutations(items@, k as nat),
{
    items.iter().copied().permutations(k).collect()
}

/// `Itertools::unique` on a list of lists, collected: the lists in their
/// order, without those that repeat an earlier one, as its documentation
/// says ("the first item encountered is the item retained").
#[verifier::external_body]
fn unique_of(lists: Vec<Vec<u32>>) -> (kept: Vec<Vec<u32>>)
    ensures
        contents(kept@) == first_occurrences(contents(lists@)),
{
    lists.into_iter().unique().collect()
}

/// The round trip that starts at city 0 and goes on along `tail`.
pub open spec fn from_zero(tail: Seq<u32>) -> Seq<u32> {
    seq![0u32] + tail
}

/// `best` is the position of the first shortest tour among those of
/// `tails` that are tours of the cities.
pub open spec fn is_first_shortest(cities: Seq<City>, tails: Seq<Seq<u32>>, best: int) -> bool {
    &&& 0 <= best < tails.len()
    &&& is_tour(from_zero(tails[best]), cities.len())
    &&& forall|i: int|
        0 <= i < tails.len() && is_tour(from_zero(#[trigger] tails[i]), cities.len())
            ==> tour_length(cities, from_zero(tails[best])) <= tour_length(
            cities,
            from_zero(tails[i]),
        )
    &&& forall|i: int|
        0 <= i < best && is_tour(from_zero(#[trigger] tails[i]), cities.len()) ==> tour_length(
            cities,
            from_zero(tails[best]),
        ) < tour_length(cities, from_zero(tails[i]))
}

/// The cities in the order in which they are listed.
fn in_order(n: usize) -> (order: Vec<u32>)
    requires
        n <= MAX_CITIES,
    ensures
        is_tour(order@, n as nat),
        forall|i: int| 0 <= i < n ==> order@[i] == i,
{
    let mut order: Vec<u32> = Vec::new();
    let mut i: usize = 0;
    while i < n
        invariant
            0 <= i <= n <= MAX_CITIES,
            order@.len() == i,
            forall|j: int| 0 <= j < i ==> order@[j] == j,
        decreases n - i,
    {
        order.push(i as u32);
        i = i + 1;
    }
    order
}

/// The numbers from `from` up to but without `to`.
fn numbers(from: u32, to: u32) -> (list: Vec<u32>)
    requires
        from <= to,
    ensures
        list@ == Seq::new((to - from) as nat, |i: int| (from + i) as u32),
{
    let mut list: Vec<u32> = Vec::new();
    let mut next: u32 = from;
    while next < to
        invariant
            from <= next <= to,
            list@ == Seq::new((next - from) as nat, |i: int| (from + i) as u32),
        decreases to - next,
    {
        list.push(next);
        next = next + 1;
        proof {
            assert(list@ =~= Seq::new((next - from) as nat, |i: int| (from + i) as u32));
        }
    }
    list
}

impl Solution {
    /// The first shortest round trip among those that start at city 0 and
    /// go on along one of `tails`; a tail that does not make a tour of the
    /// cities is passed over. Returns nothing if no tail makes a tour.
    pub fn shortest_of(problem: &Problem, tails: &Vec<Vec<u32>>) -> (res: Option<Self>)
        requires
            1 <= problem.cities@.len() <= MAX_CITIES,
        ensures
            match res {
                None => forall|i: int|
                    0 <= i < tails@.len() ==> !is_tour(
                        from_zero(#[trigger] contents(tails@)[i]),
                        problem.cities@.len(),
                    ),
                Some(solution) => exists|best: int|
                    {
                        &&& #[trigger] is_first_shortest(problem.cities@, contents(tails@), best)
                        &&& solution.order_without_loop@ == from_zero(contents(tails@)[best])
                        &&& solution.total_distance == Some(
                            tour_length(problem.cities@, solution.order_without_loop@) as u64,
                        )
                        &&& tour_length(problem.cities@, solution.order_without_loop@) <= u64::MAX
                    },
            },
    {
        let n = problem.cities.len();
        let mut best: Option<Solution> = None;
        let mut best_distance: u64 = 0;
        let ghost mut at: int = 0;
        let ghost lists = contents(tails@);
        let mut i: usize = 0;
        while i < tails.len()
            invariant
                0 <= i <= tails@.len(),
                n == problem.cities@.len(),
                1 <= n <= MAX_CITIES,
                lists == contents(tails@),
                match best {
                    None => forall|j: int|
                        0 <= j < i ==> !is_tour(from_zero(#[trigger] lists[j]), n as nat),
                    Some(solution) => {
                        &&& 0 <= at < i
                        &&& is_tour(from_zero(lists[at]), n as nat)
                        &&& solution.order_without_loop@ == from_zero(lists[at])
                        &&& solution.total_distance == Some(best_distance)
                        &&& best_distance == tour_length(problem.cities@, from_zero(lists[at]))
                        &&& forall|j: int|
                            0 <= j < i && is_tour(from_zero(#[trigger] lists[j]), n as nat)
                                ==> best_distance <= tour_length(
                                problem.cities@,
                                from_zero(lists[j]),
                            )
                        &&& forall|j: int|
                            0 <= j < at && is_tour(from_zero(#[trigger] lists[j]), n as nat)
                                ==> best_distance < tour_length(
                                problem.cities@,
                                from_zero(lists[j]),
                            )
                    },
                },
            decreases tails@.len() - i,
        {
            let tail = &tails[i];
            let mut candidate: Vec<u32> = Vec::new();
            candidate.push(0);
            let mut k: usize = 0;
            while k < tail.len()
                invariant
                    0 <= k <= tail@.len(),
                    candidate@ == seq![0u32] + tail@.take(k as int),
                decreases tail@.len() - k,
            {
                candidate.push(tail[k]);
                k = k + 1;
                proof {
                    assert(candidate@ =~= seq![0u32] + tail@.take(k as int));
                }
            }
            proof {
                assert(tail@.take(tail@.len() as int) =~= tail@);
                assert(lists[i as int] == tail@);
            }
            let trial = Solution::new(candidate, None);
            if trial.is_valid(n as u32) {
                let distance = trial.total_distance(problem);
                let better = match &best {
                    None => true,
                    Some(_) => distance < best_distance,
                };
                if better {
                    best_distance = distance;
                    best = Some(Solution::new(trial.order_without_loop, Some(distance)));
                    proof {
                        at = i as int;
                    }
                }
            }
            i = i + 1;
        }
        proof {
            if best is Some {
                assert(is_first_shortest(problem.cities@, lists, at));
            }
        }
        best
    }

    /// A shortest round trip through the cities of `problem`, found by
    /// trying every order of the cities after the first. Up to one city the
    /// tour is the list of the cities.
    pub fn from_brute_force(problem: &Problem) -> (solution: Self)
        requires
            problem.cities@.len() <= MAX_BRUTE_FORCE_CITIES,
        ensures
            is_tour(solution.order_without_loop@, problem.cities@.len()),
            solution.total_distance == Some(
                tour_length(problem.cities@, solution.order_without_loop@) as u64,
            ),
            tour_length(problem.cities@, solution.order_without_loop@) <= u64::MAX,
            problem.cities@.len() >= 2 ==> {
                let others = Seq::new(
                    (problem.cities@.len() - 1) as nat,
                    |i: int| (1 + i) as u32,
                );
                let tails = first_occurrences(itertools_permutations(others, others.len()));
                ||| exists|best: int|
                    #[trigger] is_first_shortest(problem.cities@, tails, best)
                        && solution.order_without_loop@ == from_zero(tails[best])
                ||| forall|i: int|
                    0 <= i < tails.len() ==> !is_tour(
                        from_zero(#[trigger] tails[i]),
                        problem.cities@.len(),
                    )
            },
    {
        let n = problem.cities.len();
        if n >= 2 {
            let others = numbers(1, n as u32);
            let arrangements = permutations_of(&others, others.len());
            let tails = unique_of(arrangements);
            match Self::shortest_of(problem, &tails) {
                Some(solution) => {
                    return solution;
                },
                None => {},
            }
        }
        let order = in_order(n);
        let measured = Solution::new(order, None);
        let length = measured.total_distance(problem);
        proof {
            crate::problem::lemma_legs_length_bound(
                problem.cities@,
                measured.order_without_loop@,
                n as nat,
            );
            assert(n * 0x2_0000_0000 <= 0x7fff_ffff * 0x2_0000_0000) by (nonlinear_arith)
                requires
                    n <= 0x7fff_ffff,
            ;
        }
        Solution::new(measured.order_without_loop, Some(length))
    }
}

} // verus!
