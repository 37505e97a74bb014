//! Planar integer geometry: squared distances and a floor square root,
//! giving an exact Euclidean distance in whole meters.

use vstd::prelude::*;

verus! {

/// Coordinates are planar meters; this range keeps every squared
/// distance well inside `u64`.
pub const COORD_LIMIT: i64 = 1_000_000_000;

pub open spec fn coord_ok(c: i64) -> bool {
    -COORD_LIMIT <= c <= COORD_LIMIT
}

pub open spec fn sq(x: int) -> int {
    x * x
}

/// Floor of the square root of `n`.
pub open spec fn isqrt_spec(n: nat) -> nat
    decreases n,
{
    if n == 0 {
        0
    } else {
        let r = isqrt_spec((n - 1) as nat);
        if sq(r + 1 as int) <= n {
            (r + 1) as nat
        } else {
            r
        }
    }
}

pub proof fn lemma_sq_monotone(a: int, b: int)
    requires
        0 <= a <= b,
    ensures
        sq(a) <= sq(b),
        a < b ==> sq(a) < sq(b),
{
    assert(a * a <= b * b && (a < b ==> a * a < b * b)) by (nonlinear_arith)
        requires
            0 <= a <= b,
    ;
}

pub proof fn lemma_isqrt_bounds(n: nat)
    ensures
        sq(isqrt_spec(n) as int) <= n,
        n < sq(isqrt_spec(n) + 1 as int),
    decreases n,
{
    if n == 0 {
        assert(isqrt_spec(n) == 0);
        assert(sq(0int) == 0);
        assert(sq(1int) == 1);
    } else {
        lemma_isqrt_bounds((n - 1) as nat);
        let r = isqrt_spec((n - 1) as nat);
        assert(sq(r as int) <= n - 1 < sq(r as int + 1));
        if sq(r as int + 1) <= n {
            assert(isqrt_spec(n) == r + 1);
            assert(n == sq(r as int + 1));
            lemma_sq_monotone(r as int + 1, r as int + 2);
            assert(n < sq(r as int + 2));
        } else {
            assert(isqrt_spec(n) == r);
        }
    }
}

/// A floor square root is unique: any `r` squeezed the same way equals it.
pub proof fn lemma_isqrt_unique(n: nat, r: nat)
    requires
        sq(r as int) <= n,
        n < sq(r + 1 as int),
    ensures
        r == isqrt_spec(n),
{
    lemma_isqrt_bounds(n);
    let s = isqrt_spec(n);
    if r < s {
        lemma_sq_monotone(r as int + 1, s as int);
    }
    if s < r {
        lemma_sq_monotone(s as int + 1, r as int);
    }
}

/// Floor square root, by binary search.
pub fn isqrt(n: u64) -> (r: u64)
    requires
        n < 9_000_000_000_000_000_000,
    ensures
        r == isqrt_spec(n as nat),
{
    let mut lo: u64 = 0;
    let mut hi: u64 = 3_000_000_000;
    proof {
        assert(sq(3_000_000_000int) > n);
    }
    while hi - lo > 1
        invariant
            lo < hi <= 3_000_000_000,
            sq(lo as int) <= n < sq(hi as int),
        decreases hi - lo,
    {
        let mid = lo + (hi - lo) / 2;
        proof {
            lemma_sq_monotone(mid as int, 3_000_000_000int);
        }
        if mid * mid <= n {
            lo = mid;
        } else {
            hi = mid;
        }
    }
    proof {
        lemma_isqrt_unique(n as nat, lo as nat);
    }
    lo
}

/// Squared Euclidean distance between two planar points.
pub open spec fn sq_dist(ax: int, ay: int, bx: int, by: int) -> int {
    sq(ax - bx) + sq(ay - by)
}

/// Euclidean distance in whole meters (floor of the real distance).
pub open spec fn euclid(ax: int, ay: int, bx: int, by: int) -> int {
    isqrt_spec(sq_dist(ax, ay, bx, by) as nat) as int
}

proof fn lemma_abs_sq_bound(d: int)
    requires
        -2_000_000_000 <= d <= 2_000_000_000,
    ensures
        0 <= sq(d) <= 4_000_000_000_000_000_000,
{
    assert(0 <= d * d <= 2_000_000_000int * 2_000_000_000) by (nonlinear_arith)
        requires
            -2_000_000_000 <= d <= 2_000_000_000,
    ;
}

/// Euclidean distance between in-range points, exactly `euclid`.
pub fn dist(ax: i64, ay: i64, bx: i64, by: i64) -> (d: u64)
    requires
        coord_ok(ax),
        coord_ok(ay),
        coord_ok(bx),
        coord_ok(by),
    ensures
        d == euclid(ax as int, ay as int, bx as int, by as int),
{
    let dx: i64 = ax - bx;
    let dy: i64 = ay - by;
    proof {
        lemma_abs_sq_bound(dx as int);
        lemma_abs_sq_bound(dy as int);
    }
    let sx: i64 = dx * dx;
    let sy: i64 = dy * dy;
    isqrt((sx + sy) as u64)
}

} // verus!
