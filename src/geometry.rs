//! Integer points and the integer square root used for distances.
use vstd::prelude::*;

verus! {

/// Largest magnitude of a world or screen coordinate this library accepts.
pub const COORD_LIMIT: i64 = 1_000_000;

/// A point of the plane in whole units.
#[derive(Clone, Copy, Debug, PartialEq, Eq, Structural)]
pub struct Point {
    pub x: i64,
    pub y: i64,
}

pub open spec fn in_bounds(v: int) -> bool {
    -COORD_LIMIT <= v <= COORD_LIMIT
}

impl Point {
    pub open spec fn bounded(self) -> bool {
        in_bounds(self.x as int) && in_bounds(self.y as int)
    }

    pub fn new(x: i64, y: i64) -> (r: Point)
        ensures
            r.x == x,
            r.y == y,
    {
        Point { x, y }
    }
}

/// Squared Euclidean distance between two points.
pub open spec fn dist2(a: Point, b: Point) -> int {
    (b.x - a.x) * (b.x - a.x) + (b.y - a.y) * (b.y - a.y)
}

/// The integer square root: the largest `r` with `r * r <= n`.
pub open spec fn isqrt(n: nat) -> nat
    decreases n,
{
    if n == 0 {
        0
    } else {
        let r = isqrt((n - 1) as nat);
        if (r + 1) * (r + 1) <= n {
            r + 1
        } else {
            r
        }
    }
}

pub proof fn lemma_isqrt_bounds(n: nat)
    ensures
        isqrt(n) * isqrt(n) <= n,
        n < (isqrt(n) + 1) * (isqrt(n) + 1),
    decreases n,
{
    if n == 0 {
        assert(isqrt(n) == 0);
        assert((isqrt(n) + 1) * (isqrt(n) + 1) == 1) by (nonlinear_arith)
            requires isqrt(n) == 0;
    } else {
        lemma_isqrt_bounds((n - 1) as nat);
        let r = isqrt((n - 1) as nat);
        // either (r + 1)^2 <= n, or n <= (r + 1)^2 with r^2 <= n - 1
        assert((r + 1) * (r + 1) < (r + 2) * (r + 2)) by (nonlinear_arith);
        if (r + 1) * (r + 1) <= n {
            assert(isqrt(n) == r + 1);
            assert(n < (isqrt(n) + 1) * (isqrt(n) + 1));
        } else {
            assert(isqrt(n) == r);
        }
    }
}

/// Any `r` with `r * r <= n < (r + 1) * (r + 1)` is the integer square root.
pub proof fn lemma_isqrt_unique(n: nat, r: nat)
    requires
        r * r <= n,
        n < (r + 1) * (r + 1),
    ensures
        isqrt(n) == r,
{
    lemma_isqrt_bounds(n);
    let s = isqrt(n);
    if s < r {
        assert((s + 1) * (s + 1) <= r * r) by (nonlinear_arith)
            requires s + 1 <= r;
    } else if s > r {
        assert((r + 1) * (r + 1) <= s * s) by (nonlinear_arith)
            requires r + 1 <= s;
    }
}

/// Integer square root of `n`, found by bisection.
pub fn isqrt_u128(n: u128) -> (r: u64)
    ensures
        r as nat == isqrt(n as nat),
{
    // invariant: lo * lo <= n < hi * hi
    let mut lo: u128 = 0;
    let mut hi: u128 = 0x1_0000_0000_0000_0000;
    assert(n < hi * hi) by (nonlinear_arith)
        requires hi == 0x1_0000_0000_0000_0000u128, n <= u128::MAX;
    while hi - lo > 1
        invariant
            lo < hi <= 0x1_0000_0000_0000_0000,
            lo * lo <= n,
            n < hi * hi,
        decreases hi - lo,
    {
        let mid: u128 = lo + (hi - lo) / 2;
        assert(mid * mid <= hi * hi) by (nonlinear_arith)
            requires mid < hi;
        assert(hi * hi <= 0x1_0000_0000_0000_0000u128 * 0x1_0000_0000_0000_0000u128)
            by (nonlinear_arith)
            requires hi <= 0x1_0000_0000_0000_0000u128;
        if mid <= n / mid {
            assert(mid * mid <= n) by (nonlinear_arith)
                requires mid <= n / mid, mid > 0;
            lo = mid;
        } else {
            assert(n < mid * mid) by (nonlinear_arith)
                requires mid > n / mid, mid > 0;
            hi = mid;
        }
    }
    proof {
        lemma_isqrt_unique(n as nat, lo as nat);
    }
    lo as u64
}

/// The square root rounded up: the smallest `c` with `n <= c * c`.
pub open spec fn csqrt(n: nat) -> nat {
    if isqrt(n) * isqrt(n) == n {
        isqrt(n)
    } else {
        isqrt(n) + 1
    }
}

pub proof fn lemma_csqrt_bounds(n: nat)
    ensures
        n <= csqrt(n) * csqrt(n),
        n > 0 ==> csqrt(n) >= 1 && (csqrt(n) - 1) * (csqrt(n) - 1) < n,
        n == 0 ==> csqrt(n) == 0,
{
    lemma_isqrt_bounds(n);
    let r = isqrt(n);
    let c = csqrt(n);
    if n == 0 {
        assert(r == 0) by (nonlinear_arith)
            requires r * r <= 0;
    }
    if n > 0 && r * r == n {
        assert(r >= 1) by (nonlinear_arith)
            requires r * r == n, n > 0;
        assert((r - 1) * (r - 1) < r * r) by (nonlinear_arith)
            requires r >= 1;
    }
}

/// No `k` with `n <= k * k` is below the rounded-up square root.
pub proof fn lemma_csqrt_least(n: nat, k: nat)
    requires
        n <= k * k,
    ensures
        csqrt(n) <= k,
{
    lemma_isqrt_bounds(n);
    let r = isqrt(n);
    let c = csqrt(n);
    if c > k {
        if r * r == n {
            assert(k * k < r * r) by (nonlinear_arith)
                requires k < r;
        } else {
            assert(k * k < r * r + 1) by (nonlinear_arith)
                requires k <= r, r * r <= n;
            assert(k < r || k == r);
            assert(r * r < n);
        }
    }
}

/// Square root of `n`, rounded up.
pub fn csqrt_u128(n: u128) -> (c: u128)
    ensures
        c as nat == csqrt(n as nat),
{
    let r = isqrt_u128(n);
    let rr: u128 = r as u128;
    assert(rr * rr <= u64::MAX * u64::MAX) by (nonlinear_arith)
        requires rr <= u64::MAX;
    if rr * rr == n {
        rr
    } else {
        rr + 1
    }
}

} // verus!
