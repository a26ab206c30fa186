//! Cities, problems and the tours through them.
use crate::cover_tree::Distance;
use crate::euclid::{
    ceil_sqrt, ceil_sqrt_of, lemma_ceil_sqrt_bounds, lemma_ceil_sqrt_least, lemma_triangle_space,
};
use std::rc::Rc;
use vstd::prelude::*;

verus! {

/// A city at integer coordinates in three dimensions.
#[derive(Clone, Copy, PartialEq, Eq, Structural, Hash, PartialOrd, Ord, Debug)]
pub struct City {
    pub x: u32,
    pub y: u32,
    pub z: u32,
}

impl City {
    /// The city at `x`, `y` and `z`.
    pub fn new(x: u32, y: u32, z: u32) -> (c: Self)
        ensures
            c == (City { x, y, z }),
    {
        Self { x, y, z }
    }
}

/// The square of the Euclidean distance between two cities.
pub open spec fn square_distance(a: City, b: City) -> nat {
    ((a.x - b.x) * (a.x - b.x) + (a.y - b.y) * (a.y - b.y) + (a.z - b.z) * (a.z - b.z)) as nat
}

/// The distance between two coordinates, with its square.
pub fn gap(a: u32, b: u32) -> (g: u64)
    ensures
        g * g == (a - b) * (a - b),
        g <= 0xffff_ffff,
{
    let g: u64 = if a >= b {
        (a - b) as u64
    } else {
        (b - a) as u64
    };
    assert(g * g == (a - b) * (a - b)) by (nonlinear_arith)
        requires
            g == a - b || g == b - a,
    ;
    g
}

impl Distance for City {
    /// The Euclidean distance, rounded up to a whole number.
    open spec fn dist(&self, other: &Self) -> nat {
        ceil_sqrt(square_distance(*self, *other))
    }

    fn distance(&self, other: &Self) -> (d: u64) {
        let dx = gap(self.x, other.x);
        let dy = gap(self.y, other.y);
        let dz = gap(self.z, other.z);
        assert(dx * dx <= 0xffff_ffff * 0xffff_ffff && dy * dy <= 0xffff_ffff * 0xffff_ffff && dz
            * dz <= 0xffff_ffff * 0xffff_ffff) by (nonlinear_arith)
            requires
                0 <= dx <= 0xffff_ffff,
                0 <= dy <= 0xffff_ffff,
                0 <= dz <= 0xffff_ffff,
        ;
        let square: u128 = (dx as u128) * (dx as u128) + (dy as u128) * (dy as u128) + (dz as u128)
            * (dz as u128);
        ceil_sqrt_of(square)
    }

    proof fn lemma_identity(a: &Self, b: &Self) {
        let u = a.x - b.x;
        let v = a.y - b.y;
        let w = a.z - b.z;
        lemma_ceil_sqrt_bounds(square_distance(*a, *b));
        assert(u * u >= 0 && v * v >= 0 && w * w >= 0 && (u * u == 0 ==> u == 0) && (v * v == 0
            ==> v == 0) && (w * w == 0 ==> w == 0)) by (nonlinear_arith);
        if a.dist(b) == 0 {
            assert(square_distance(*a, *b) == 0);
            assert(u == 0 && v == 0 && w == 0);
            assert(a.x == b.x && a.y == b.y && a.z == b.z);
        }
        if *a == *b {
            assert(u == 0 && v == 0 && w == 0);
            assert(u * u == 0 && v * v == 0 && w * w == 0) by (nonlinear_arith)
                requires
                    u == 0 && v == 0 && w == 0,
            ;
            assert(square_distance(*a, *b) == 0);
        }
    }

    proof fn lemma_symmetry(a: &Self, b: &Self) {
        let u = a.x - b.x;
        let v = a.y - b.y;
        let w = a.z - b.z;
        assert(u * u == (-u) * (-u) && v * v == (-v) * (-v) && w * w == (-w) * (-w))
            by (nonlinear_arith);
        assert(b.x - a.x == -u && b.y - a.y == -v && b.z - a.z == -w);
    }

    proof fn lemma_triangle(a: &Self, b: &Self, c: &Self) {
        let u1 = a.x - b.x;
        let u2 = a.y - b.y;
        let u3 = a.z - b.z;
        let v1 = b.x - c.x;
        let v2 = b.y - c.y;
        let v3 = b.z - c.z;
        assert(u1 * u1 >= 0 && u2 * u2 >= 0 && u3 * u3 >= 0 && v1 * v1 >= 0 && v2 * v2 >= 0 && v3
            * v3 >= 0) by (nonlinear_arith);
        lemma_ceil_sqrt_bounds(square_distance(*a, *b));
        lemma_ceil_sqrt_bounds(square_distance(*b, *c));
        let ab = a.dist(b);
        let bc = b.dist(c);
        lemma_triangle_space(u1, u2, u3, v1, v2, v3, ab, bc);
        assert(u1 + v1 == a.x - c.x && u2 + v2 == a.y - c.y && u3 + v3 == a.z - c.z);
        assert((a.x - c.x) * (a.x - c.x) >= 0 && (a.y - c.y) * (a.y - c.y) >= 0 && (a.z - c.z) * (
        a.z - c.z) >= 0) by (nonlinear_arith);
        lemma_ceil_sqrt_least(square_distance(*a, *c), ab + bc);
    }
}

/// `Rc::ptr_eq`: whether two pointers name one allocation. Two pointers
/// that do so share their value, and nothing else is claimed.
#[verifier::external_body]
fn same_allocation<T>(a: &Rc<T>, b: &Rc<T>) -> (same: bool)
    ensures
        same ==> **a == **b,
{
    Rc::ptr_eq(a, b)
}

/// A shared value that is identified by its allocation.
#[derive(Clone)]
pub struct RcKey<T>(Rc<T>);

impl<T> RcKey<T> {
    /// The value that the key shares.
    pub closed spec fn inner(&self) -> T {
        *self.0
    }

    /// A key for the allocation of `inner`.
    pub fn new(inner: Rc<T>) -> (k: Self)
        ensures
            k.inner() == *inner,
    {
        RcKey(inner)
    }

    /// The pointer that the key holds.
    pub fn rc(&self) -> (r: &Rc<T>)
        ensures
            **r == self.inner(),
    {
        &self.0
    }

    /// Whether both keys name one allocation; two keys of equal values in
    /// different allocations are not the same.
    pub fn is_same(&self, other: &Self) -> (same: bool)
        ensures
            same ==> self.inner() == other.inner(),
    {
        same_allocation(&self.0, &other.0)
    }
}

/// A travelling-salesman instance: the cities to visit.
pub struct Problem {
    pub cities: Vec<City>,
}

impl Problem {
    /// The problem of visiting `cities`.
    pub fn new(cities: Vec<City>) -> (problem: Self)
        ensures
            problem.cities == cities,
    {
        Problem { cities }
    }
}

/// The most cities that a tour is measured over: the length of any such
/// tour fits `u64`.
pub const MAX_CITIES: usize = 0x7fff_ffff;

/// `order` visits each of the `num_cities` cities once.
pub open spec fn is_tour(order: Seq<u32>, num_cities: nat) -> bool {
    &&& order.len() == num_cities
    &&& forall|i: int| 0 <= i < order.len() ==> (#[trigger] order[i]) < num_cities
    &&& order.no_duplicates()
}

/// The distance from stop `i` of `order` to the next stop, which for the
/// last stop is the first.
pub open spec fn leg(cities: Seq<City>, order: Seq<u32>, i: int) -> nat {
    cities[order[i] as int].dist(&cities[order[(i + 1) % (order.len() as int)] as int])
}

/// The length of the first `k` legs of the round trip along `order`.
pub open spec fn legs_length(cities: Seq<City>, order: Seq<u32>, k: nat) -> nat
    decreases k,
{
    if k == 0 {
        0
    } else {
        legs_length(cities, order, (k - 1) as nat) + leg(cities, order, k - 1)
    }
}

/// The length of the round trip along `order`.
pub open spec fn tour_length(cities: Seq<City>, order: Seq<u32>) -> nat {
    legs_length(cities, order, order.len())
}

/// The distance between two cities is below `2^33`.
pub proof fn lemma_city_distance_bound(a: City, b: City)
    ensures
        a.dist(&b) <= 0x2_0000_0000,
{
    let u = a.x - b.x;
    let v = a.y - b.y;
    let w = a.z - b.z;
    assert(u * u <= 0xffff_ffff * 0xffff_ffff && v * v <= 0xffff_ffff * 0xffff_ffff && w * w
        <= 0xffff_ffff * 0xffff_ffff && u * u >= 0 && v * v >= 0 && w * w >= 0)
        by (nonlinear_arith)
        requires
            -0xffff_ffff <= u <= 0xffff_ffff,
            -0xffff_ffff <= v <= 0xffff_ffff,
            -0xffff_ffff <= w <= 0xffff_ffff,
    ;
    assert(0x2_0000_0000int * 0x2_0000_0000int == 0x4_0000_0000_0000_0000int) by (nonlinear_arith);
    assert(0xffff_ffffint * 0xffff_ffffint == 0xffff_fffe_0000_0001int) by (nonlinear_arith);
    lemma_ceil_sqrt_least(square_distance(a, b), 0x2_0000_0000);
}

/// The first `k` legs of a round trip are no longer than `k * 2^33`.
pub proof fn lemma_legs_length_bound(cities: Seq<City>, order: Seq<u32>, k: nat)
    ensures
        legs_length(cities, order, k) <= k * 0x2_0000_0000,
    decreases k,
{
    if k > 0 {
        lemma_legs_length_bound(cities, order, (k - 1) as nat);
        lemma_city_distance_bound(
            cities[order[k - 1] as int],
            cities[order[(k as int) % (order.len() as int)] as int],
        );
    }
}

/// A tour, with its length where that is known.
#[derive(Clone)]
pub struct Solution {
    /// The cities in the order of the visit, each once; the way back from
    /// the last to the first is not listed.
    pub order_without_loop: Vec<u32>,
    /// The length of the round trip, where it is known.
    pub total_distance: Option<u64>,
}

impl Solution {
    /// A tour along `order_without_loop`, of the length `total_distance`
    /// where that is given.
    pub fn new(order_without_loop: Vec<u32>, total_distance: Option<u64>) -> (solution: Self)
        ensures
            solution.order_without_loop == order_without_loop,
            solution.total_distance == total_distance,
    {
        Self { order_without_loop, total_distance }
    }

    /// Whether the tour visits each of the `num_cities` cities once.
    pub fn is_valid(&self, num_cities: u32) -> (valid: bool)
        ensures
            valid == is_tour(self.order_without_loop@, num_cities as nat),
    {
        let order = &self.order_without_loop;
        if order.len() != num_cities as usize {
            return false;
        }
        let mut seen: Vec<bool> = Vec::new();
        let mut k: usize = 0;
        while k < num_cities as usize
            invariant
                0 <= k <= num_cities,
                seen@.len() == k,
                forall|c: int| 0 <= c < k ==> !seen@[c],
            decreases num_cities - k,
        {
            seen.push(false);
            k = k + 1;
        }
        let mut i: usize = 0;
        while i < order.len()
            invariant
                0 <= i <= order@.len(),
                order@ == self.order_without_loop@,
                order@.len() == num_cities,
                seen@.len() == num_cities,
                forall|j: int| 0 <= j < i ==> (#[trigger] order@[j]) < num_cities,
                forall|a: int, b: int| 0 <= a < b < i ==> order@[a] != order@[b],
                forall|c: int|
                    0 <= c < num_cities ==> (#[trigger] seen@[c] <==> exists|j: int|
                        0 <= j < i && order@[j] == c),
            decreases order@.len() - i,
        {
            let city = order[i];
            if city >= num_cities {
                assert(!(order@[i as int] < num_cities));
                return false;
            }
            if seen[city as usize] {
                proof {
                    let j = choose|j: int| 0 <= j < i && order@[j] == city;
                    assert(order@[j] == order@[i as int] && j != i);
                    assert(!order@.no_duplicates());
                }
                return false;
            }
            seen[city as usize] = true;
            proof {
                assert forall|c: int| 0 <= c < num_cities implies (#[trigger] seen@[c] <==> exists|
                    j: int,
                | 0 <= j < i + 1 && order@[j] == c) by {
                    if c == city {
                        assert(order@[i as int] == c);
                    } else if seen@[c] {
                        let j = choose|j: int| 0 <= j < i && order@[j] == c;
                        assert(0 <= j < i + 1 && order@[j] == c);
                    }
                }
            }
            i = i + 1;
        }
        true
    }

    /// The length of the round trip through the cities of `problem`. The
    /// length that the tour carries with it is taken where there is one.
    pub fn total_distance(&self, problem: &Problem) -> (length: u64)
        requires
            self.order_without_loop@.len() <= MAX_CITIES,
            forall|i: int|
                0 <= i < self.order_without_loop@.len() ==> (#[trigger] self.order_without_loop@[i])
                    < problem.cities@.len(),
            self.total_distance matches Some(known) ==> known == tour_length(
                problem.cities@,
                self.order_without_loop@,
            ),
        ensures
            length == tour_length(problem.cities@, self.order_without_loop@),
    {
        match self.total_distance {
            Some(known) => {
                return known;
            },
            None => {},
        }
        let order = &self.order_without_loop;
        let n = order.len();
        let mut length: u64 = 0;
        let mut i: usize = 0;
        while i < n
            invariant
                0 <= i <= n,
                n == order@.len(),
                order@ == self.order_without_loop@,
                n <= MAX_CITIES,
                forall|j: int| 0 <= j < order@.len() ==> (#[trigger] order@[j]) < problem.cities@.len(),
                length == legs_length(problem.cities@, order@, i as nat),
            decreases n - i,
        {
            let next = if i + 1 == n {
                0
            } else {
                i + 1
            };
            proof {
                if i + 1 == n {
                    vstd::arithmetic::div_mod::lemma_mod_self_0(n as int);
                } else {
                    vstd::arithmetic::div_mod::lemma_small_mod((i + 1) as nat, n as nat);
                }
            }
            assert(next == (i + 1) % (n as int));
            let city_a = &problem.cities[order[i] as usize];
            let city_b = &problem.cities[order[next] as usize];
            let dist = city_a.distance(city_b);
            proof {
                lemma_legs_length_bound(problem.cities@, order@, (i + 1) as nat);
                assert((i + 1) * 0x2_0000_0000 <= 0x7fff_ffff * 0x2_0000_0000) by (nonlinear_arith)
                    requires
                        i + 1 <= 0x7fff_ffff,
                ;
            }
            length = length + dist;
            i = i + 1;
        }
        length
    }
}

} // verus!
