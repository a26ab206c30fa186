//! Points of the plane with whole-number coordinates, under the Euclidean
//! distance rounded up.
use crate::cover_tree::Distance;
use crate::euclid::{
    ceil_sqrt, ceil_sqrt_of, lemma_ceil_sqrt_bounds, lemma_ceil_sqrt_least, lemma_triangle_plane,
};
use vstd::prelude::*;

verus! {

/// A point of the plane.
#[derive(Clone, Copy, PartialEq, Eq, Structural, Hash, PartialOrd, Ord, Debug)]
pub struct Point2D {
    pub x: i32,
    pub y: i32,
}

/// The square of the Euclidean distance between two points of the plane.
pub open spec fn square_distance_plane(a: Point2D, b: Point2D) -> nat {
    ((a.x - b.x) * (a.x - b.x) + (a.y - b.y) * (a.y - b.y)) as nat
}

/// The distance between two coordinates, with its square.
pub fn gap(a: i32, b: i32) -> (g: u64)
    ensures
        g * g == (a - b) * (a - b),
        g <= 0xffff_ffff,
        g == 0 <==> a == b,
{
    let g: u64 = if a >= b {
        (a as i64 - b as i64) as u64
    } else {
        (b as i64 - a as i64) as u64
    };
    assert(g * g == (a - b) * (a - b)) by (nonlinear_arith)
        requires
            g == a - b || g == b - a,
    ;
    g
}

impl Point2D {
    /// The point at `x` and `y`.
    pub fn new(x: i32, y: i32) -> (p: Self)
        ensures
            p == (Point2D { x, y }),
    {
        Point2D { x, y }
    }
}

impl Distance for Point2D {
    /// The Euclidean distance, rounded up to a whole number.
    open spec fn dist(&self, other: &Self) -> nat {
        ceil_sqrt(square_distance_plane(*self, *other))
    }

    fn distance(&self, other: &Self) -> (d: u64) {
        let dx = gap(self.x, other.x);
        let dy = gap(self.y, other.y);
        assert(dx * dx <= 0xffff_ffff * 0xffff_ffff && dy * dy <= 0xffff_ffff * 0xffff_ffff)
            by (nonlinear_arith)
            requires
                0 <= dx <= 0xffff_ffff,
                0 <= dy <= 0xffff_ffff,
        ;
        let square: u128 = (dx as u128) * (dx as u128) + (dy as u128) * (dy as u128);
        ceil_sqrt_of(square)
    }

    proof fn lemma_identity(a: &Self, b: &Self) {
        let u = a.x - b.x;
        let v = a.y - b.y;
        lemma_ceil_sqrt_bounds(square_distance_plane(*a, *b));
        assert(u * u >= 0 && v * v >= 0 && (u * u == 0 ==> u == 0) && (v * v == 0 ==> v == 0))
            by (nonlinear_arith);
        if a.dist(b) == 0 {
            assert(square_distance_plane(*a, *b) == 0);
            assert(u == 0 && v == 0);
            assert(a.x == b.x && a.y == b.y);
        }
        if *a == *b {
            assert(u == 0 && v == 0);
            assert(u * u == 0 && v * v == 0) by (nonlinear_arith)
                requires
                    u == 0 && v == 0,
            ;
            assert(square_distance_plane(*a, *b) == 0);
        }
    }

    proof fn lemma_symmetry(a: &Self, b: &Self) {
        let u = a.x - b.x;
        let v = a.y - b.y;
        assert(u * u == (-u) * (-u) && v * v == (-v) * (-v)) by (nonlinear_arith);
        assert(b.x - a.x == -u && b.y - a.y == -v);
    }

    proof fn lemma_triangle(a: &Self, b: &Self, c: &Self) {
        let u1 = a.x - b.x;
        let u2 = a.y - b.y;
        let v1 = b.x - c.x;
        let v2 = b.y - c.y;
        assert(u1 * u1 >= 0 && u2 * u2 >= 0 && v1 * v1 >= 0 && v2 * v2 >= 0) by (nonlinear_arith);
        lemma_ceil_sqrt_bounds(square_distance_plane(*a, *b));
        lemma_ceil_sqrt_bounds(square_distance_plane(*b, *c));
        let ab = a.dist(b);
        let bc = b.dist(c);
        lemma_triangle_plane(u1, u2, v1, v2, ab, bc);
        assert(u1 + v1 == a.x - c.x && u2 + v2 == a.y - c.y);
        assert((a.x - c.x) * (a.x - c.x) >= 0 && (a.y - c.y) * (a.y - c.y) >= 0)
            by (nonlinear_arith);
        lemma_ceil_sqrt_least(square_distance_plane(*a, *c), ab + bc);
    }
}

} // verus!
