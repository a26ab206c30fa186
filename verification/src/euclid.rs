//! The Euclidean distance between points of whole-number coordinates,
//! rounded up to the next whole number. Rounding up keeps the triangle
//! inequality.
use vstd::prelude::*;

verus! {

/// The least `r` with `r * r >= n`: the square root of `n`, rounded up.
pub open spec fn ceil_sqrt(n: nat) -> nat
    decreases n,
{
    if n == 0 {
        0
    } else {
        let r = ceil_sqrt((n - 1) as nat);
        if r * r >= n {
            r
        } else {
            r + 1
        }
    }
}

/// `ceil_sqrt(n)` is a root of at least `n`, and the number below it is not.
pub proof fn lemma_ceil_sqrt_bounds(n: nat)
    ensures
        ceil_sqrt(n) * ceil_sqrt(n) >= n,
        ceil_sqrt(n) > 0 ==> (ceil_sqrt(n) - 1) * (ceil_sqrt(n) - 1) < n,
        ceil_sqrt(n) == 0 <==> n == 0,
    decreases n,
{
    if n > 0 {
        let r = ceil_sqrt((n - 1) as nat);
        lemma_ceil_sqrt_bounds((n - 1) as nat);
        if r * r >= n {
        } else {
            assert((r + 1) * (r + 1) == r * r + 2 * r + 1) by (nonlinear_arith);
            assert((r + 1 - 1) * (r + 1 - 1) == r * r);
        }
    }
}

/// Squares grow with their roots.
pub proof fn lemma_square_monotonic(a: int, b: int)
    requires
        0 <= a <= b,
    ensures
        a * a <= b * b,
{
    assert(a * a <= b * b) by (nonlinear_arith)
        requires
            0 <= a <= b,
    ;
}

/// A number below another has a square below the other's.
pub proof fn lemma_square_strict(a: int, b: int)
    requires
        0 <= a < b,
    ensures
        a * a < b * b,
{
    assert(a * a < b * b) by (nonlinear_arith)
        requires
            0 <= a < b,
    ;
}

/// `ceil_sqrt(n)` is the least number whose square reaches `n`.
pub proof fn lemma_ceil_sqrt_least(n: nat, r: nat)
    requires
        r * r >= n,
    ensures
        ceil_sqrt(n) <= r,
{
    lemma_ceil_sqrt_bounds(n);
    let c = ceil_sqrt(n);
    if c > r {
        lemma_square_monotonic(r as int, c - 1);
    }
}

/// The number whose square reaches `n` while its predecessor's does not
/// is `ceil_sqrt(n)`.
pub proof fn lemma_ceil_sqrt_unique(n: nat, r: nat)
    requires
        r * r >= n,
        r > 0 ==> (r - 1) * (r - 1) < n,
    ensures
        ceil_sqrt(n) == r,
{
    lemma_ceil_sqrt_least(n, r);
    lemma_ceil_sqrt_bounds(n);
    let c = ceil_sqrt(n);
    if c < r {
        lemma_square_monotonic(c as int, r - 1);
    }
}

/// The square root of `n`, rounded up.
pub fn ceil_sqrt_of(n: u128) -> (r: u64)
    requires
        n <= 0x4_0000_0000_0000_0000,
    ensures
        r == ceil_sqrt(n as nat),
        r <= 0x2_0000_0000,
{
    let mut lo: u64 = 0;
    let mut hi: u64 = 0x2_0000_0000;
    assert(0x2_0000_0000u64 * 0x2_0000_0000u64 == 0x4_0000_0000_0000_0000) by (nonlinear_arith);
    while lo < hi
        invariant
            0 <= lo <= hi <= 0x2_0000_0000,
            hi * hi >= n,
            lo > 0 ==> (lo - 1) * (lo - 1) < n,
        decreases hi - lo,
    {
        let mid: u64 = lo + (hi - lo) / 2;
        assert(mid * mid <= 0x2_0000_0000 * 0x2_0000_0000) by (nonlinear_arith)
            requires
                0 <= mid <= 0x2_0000_0000,
        ;
        let square: u128 = (mid as u128) * (mid as u128);
        if square >= n {
            hi = mid;
        } else {
            lo = mid + 1;
        }
    }
    proof {
        lemma_ceil_sqrt_unique(n as nat, lo as nat);
    }
    lo
}

/// `(x * x) * (y * y)` is the square of `x * y`.
proof fn lemma_square_of_product(x: int, y: int)
    ensures
        (x * x) * (y * y) == (x * y) * (x * y),
        x * x >= 0,
{
    vstd::arithmetic::mul::lemma_mul_is_associative(x, x, y * y);
    vstd::arithmetic::mul::lemma_mul_is_associative(x, y, y);
    vstd::arithmetic::mul::lemma_mul_is_commutative(x * y, y);
    vstd::arithmetic::mul::lemma_mul_is_associative(x, y, x * y);
    vstd::arithmetic::mul::lemma_mul_is_commutative(x * y, y);
    vstd::arithmetic::mul::lemma_mul_is_associative(y, x, y);
    vstd::arithmetic::mul::lemma_mul_is_commutative(x, y);
    assert(x * (y * y) == (x * y) * y);
    assert((x * x) * (y * y) == x * (x * (y * y)));
    assert(x * ((x * y) * y) == x * (y * (x * y)));
    assert(x * (y * (x * y)) == (x * y) * (x * y));
    assert(x * x >= 0) by (nonlinear_arith);
}

/// `(x1 * y1) * (x2 * y2)` is `(x1 * y2) * (x2 * y1)`.
proof fn lemma_exchange(x1: int, y1: int, x2: int, y2: int)
    ensures
        (x1 * y1) * (x2 * y2) == (x1 * y2) * (x2 * y1),
{
    vstd::arithmetic::mul::lemma_mul_is_associative(x1, y1, x2 * y2);
    vstd::arithmetic::mul::lemma_mul_is_associative(y1, x2, y2);
    vstd::arithmetic::mul::lemma_mul_is_commutative(y1, x2);
    vstd::arithmetic::mul::lemma_mul_is_commutative(x2 * y1, y2);
    vstd::arithmetic::mul::lemma_mul_is_associative(x1, y2, x2 * y1);
    assert(y1 * (x2 * y2) == (y1 * x2) * y2);
    assert((y1 * x2) * y2 == y2 * (x2 * y1));
    assert((x1 * y1) * (x2 * y2) == x1 * (y2 * (x2 * y1)));
}

/// The triangle inequality in the plane, on squares: where `a` is at least
/// as long as `(u1, u2)` and `b` at least as long as `(v1, v2)`, `a + b` is
/// at least as long as the sum of the two vectors.
pub proof fn lemma_triangle_plane(u1: int, u2: int, v1: int, v2: int, a: nat, b: nat)
    requires
        a * a >= u1 * u1 + u2 * u2,
        b * b >= v1 * v1 + v2 * v2,
    ensures
        (a + b) * (a + b) >= (u1 + v1) * (u1 + v1) + (u2 + v2) * (u2 + v2),
{
    lemma_triangle_space(u1, u2, 0, v1, v2, 0, a, b);
}

/// The triangle inequality in space, on squares.
pub proof fn lemma_triangle_space(
    u1: int,
    u2: int,
    u3: int,
    v1: int,
    v2: int,
    v3: int,
    a: nat,
    b: nat,
)
    requires
        a * a >= u1 * u1 + u2 * u2 + u3 * u3,
        b * b >= v1 * v1 + v2 * v2 + v3 * v3,
    ensures
        (a + b) * (a + b) >= (u1 + v1) * (u1 + v1) + (u2 + v2) * (u2 + v2) + (u3 + v3) * (u3 + v3),
{
    let p1 = u1 * u1;
    let p2 = u2 * u2;
    let p3 = u3 * u3;
    let q1 = v1 * v1;
    let q2 = v2 * v2;
    let q3 = v3 * v3;
    let d1 = u1 * v1;
    let d2 = u2 * v2;
    let d3 = u3 * v3;
    let e12 = u1 * v2;
    let e21 = u2 * v1;
    let e13 = u1 * v3;
    let e31 = u3 * v1;
    let e23 = u2 * v3;
    let e32 = u3 * v2;
    let dot = d1 + d2 + d3;
    let uu = p1 + p2 + p3;
    let vv = q1 + q2 + q3;
    let c12 = e12 - e21;
    let c13 = e13 - e31;
    let c23 = e23 - e32;
    lemma_square_of_product(u1, v1);
    lemma_square_of_product(u2, v2);
    lemma_square_of_product(u3, v3);
    lemma_square_of_product(u1, v2);
    lemma_square_of_product(u2, v1);
    lemma_square_of_product(u1, v3);
    lemma_square_of_product(u3, v1);
    lemma_square_of_product(u2, v3);
    lemma_square_of_product(u3, v2);
    lemma_square_of_product(v1, v1);
    lemma_square_of_product(v2, v2);
    lemma_square_of_product(v3, v3);
    lemma_exchange(u1, v1, u2, v2);
    lemma_exchange(u1, v1, u3, v3);
    lemma_exchange(u2, v2, u3, v3);
    assert(uu * vv == p1 * q1 + p1 * q2 + p1 * q3 + p2 * q1 + p2 * q2 + p2 * q3 + p3 * q1 + p3 * q2
        + p3 * q3) by (nonlinear_arith)
        requires
            uu == p1 + p2 + p3,
            vv == q1 + q2 + q3,
    ;
    assert(dot * dot == d1 * d1 + d2 * d2 + d3 * d3 + 2 * (d1 * d2) + 2 * (d1 * d3) + 2 * (d2 * d3))
        by (nonlinear_arith)
        requires
            dot == d1 + d2 + d3,
    ;
    assert(c12 * c12 == e12 * e12 + e21 * e21 - 2 * (e12 * e21)) by (nonlinear_arith)
        requires
            c12 == e12 - e21,
    ;
    assert(c13 * c13 == e13 * e13 + e31 * e31 - 2 * (e13 * e31)) by (nonlinear_arith)
        requires
            c13 == e13 - e31,
    ;
    assert(c23 * c23 == e23 * e23 + e32 * e32 - 2 * (e23 * e32)) by (nonlinear_arith)
        requires
            c23 == e23 - e32,
    ;
    assert(c12 * c12 >= 0) by (nonlinear_arith);
    assert(c13 * c13 >= 0) by (nonlinear_arith);
    assert(c23 * c23 >= 0) by (nonlinear_arith);
    assert(uu * vv == dot * dot + c12 * c12 + c13 * c13 + c23 * c23);
    lemma_dot_bound(dot, uu, vv, a, b);
    assert((u1 + v1) * (u1 + v1) == p1 + 2 * d1 + q1) by (nonlinear_arith)
        requires
            p1 == u1 * u1,
            q1 == v1 * v1,
            d1 == u1 * v1,
    ;
    assert((u2 + v2) * (u2 + v2) == p2 + 2 * d2 + q2) by (nonlinear_arith)
        requires
            p2 == u2 * u2,
            q2 == v2 * v2,
            d2 == u2 * v2,
    ;
    assert((u3 + v3) * (u3 + v3) == p3 + 2 * d3 + q3) by (nonlinear_arith)
        requires
            p3 == u3 * u3,
            q3 == v3 * v3,
            d3 == u3 * v3,
    ;
    assert((a + b) * (a + b) == a * a + 2 * (a * b) + b * b) by (nonlinear_arith);
}

/// Cauchy and Schwarz: a product of two vectors whose square is at most
/// the product of their squared lengths is at most the product of any two
/// bounds on their lengths.
proof fn lemma_dot_bound(dot: int, uu: int, vv: int, a: nat, b: nat)
    requires
        0 <= uu <= a * a,
        0 <= vv <= b * b,
        dot * dot <= uu * vv,
    ensures
        dot <= a * b,
{
    assert(uu * vv <= (a * a) * (b * b)) by (nonlinear_arith)
        requires
            0 <= uu <= a * a,
            0 <= vv <= b * b,
    ;
    assert((a * a) * (b * b) == (a * b) * (a * b)) by (nonlinear_arith);
    assert(a * b >= 0) by (nonlinear_arith);
    if dot > a * b {
        lemma_square_strict((a * b) as int, dot);
    }
}

} // verus!
