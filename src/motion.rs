//! The pursuit step of the target and the launch direction of a projectile.
use vstd::prelude::*;
use crate::geometry::{
    COORD_LIMIT, Point, csqrt, csqrt_u128, dist2, isqrt, isqrt_u128, lemma_csqrt_bounds,
    lemma_csqrt_least,
};

verus! {

/// Distance the target covers in one frame, in whole units.
pub const STEP: i64 = 10;

/// Fixed-point one. Positions of the target and of projectiles, and the
/// components of directions, count in `1 / DIR_ONE` of a unit.
pub const DIR_ONE: i64 = 1_000_000;

/// `STEP` in fixed point.
pub const FINE_STEP: i64 = 10_000_000;

pub open spec fn abs(v: int) -> int {
    if v < 0 {
        -v
    } else {
        v
    }
}

pub open spec fn with_sign(d: int, m: int) -> int {
    if d < 0 {
        -m
    } else {
        m
    }
}

/// A whole-unit point in fixed point.
pub open spec fn to_fine(p: Point) -> Point {
    Point { x: (p.x * DIR_ONE) as i64, y: (p.y * DIR_ONE) as i64 }
}

/// A fixed-point position within the coordinate limit.
pub open spec fn fine_bounded(p: Point) -> bool {
    &&& -COORD_LIMIT * DIR_ONE <= p.x <= COORD_LIMIT * DIR_ONE
    &&& -COORD_LIMIT * DIR_ONE <= p.y <= COORD_LIMIT * DIR_ONE
}

pub proof fn lemma_to_fine_bounded(p: Point)
    requires
        p.bounded(),
    ensures
        fine_bounded(to_fine(p)),
        to_fine(p).x == p.x * DIR_ONE,
        to_fine(p).y == p.y * DIR_ONE,
{
    assert(-COORD_LIMIT * DIR_ONE <= p.x * DIR_ONE <= COORD_LIMIT * DIR_ONE) by (nonlinear_arith)
        requires -COORD_LIMIT <= p.x <= COORD_LIMIT;
    assert(-COORD_LIMIT * DIR_ONE <= p.y * DIR_ONE <= COORD_LIMIT * DIR_ONE) by (nonlinear_arith)
        requires -COORD_LIMIT <= p.y <= COORD_LIMIT;
}

/// Distance from `t` to `p`, rounded up to a whole fixed-point unit.
pub open spec fn fine_dist(t: Point, p: Point) -> int {
    csqrt(dist2(t, p) as nat) as int
}

/// Move along one axis: the axis share of a `STEP`-long stride toward a point
/// at distance `c`, rounded toward zero, never longer than what is left on
/// that axis.
pub open spec fn axis_move(d: int, c: int) -> int {
    let m = abs(d) * FINE_STEP / c;
    with_sign(d, if m > abs(d) { abs(d) } else { m })
}

/// Where a target at `t` stands after one frame of pursuit toward `p`.
pub open spec fn pursuit_step(t: Point, p: Point) -> Point {
    let c = fine_dist(t, p);
    if c == 0 {
        t
    } else {
        Point {
            x: (t.x + axis_move(p.x - t.x, c)) as i64,
            y: (t.y + axis_move(p.y - t.y, c)) as i64,
        }
    }
}

proof fn lemma_axis_move_bounds(d: int, c: int)
    requires
        c > 0,
    ensures
        abs(axis_move(d, c)) <= abs(d),
        d * axis_move(d, c) >= 0,
        abs(d) * FINE_STEP >= c ==> abs(axis_move(d, c)) >= 1 || d == 0,
        c <= FINE_STEP ==> axis_move(d, c) == d,
        abs(axis_move(d, c)) * c <= abs(d) * FINE_STEP,
        abs(d) * FINE_STEP < (abs(axis_move(d, c)) + 1) * c || axis_move(d, c) == d,
{
    let a = abs(d);
    let m = a * FINE_STEP / c;
    vstd::arithmetic::div_mod::lemma_fundamental_div_mod(a * FINE_STEP, c);
    vstd::arithmetic::div_mod::lemma_mod_pos_bound(a * FINE_STEP, c);
    assert(m >= 0 && m * c <= a * FINE_STEP < (m + 1) * c) by (nonlinear_arith)
        requires a >= 0, c > 0, a * FINE_STEP == c * m + (a * FINE_STEP) % c,
            0 <= (a * FINE_STEP) % c < c;
    if a * FINE_STEP >= c {
        assert(m >= 1) by (nonlinear_arith)
            requires a * FINE_STEP < (m + 1) * c, a * FINE_STEP >= c, c > 0;
    }
    if c <= FINE_STEP {
        assert(m >= a) by (nonlinear_arith)
            requires a * FINE_STEP < (m + 1) * c, c <= FINE_STEP, c > 0, a >= 0, m >= 0;
    }
    if m > a {
        assert(a * c <= a * FINE_STEP) by (nonlinear_arith)
            requires m * c <= a * FINE_STEP, m > a, c > 0, a >= 0;
    }
    if d < 0 {
        assert(d * axis_move(d, c) >= 0) by (nonlinear_arith)
            requires d < 0, axis_move(d, c) <= 0;
    } else {
        assert(d * axis_move(d, c) >= 0) by (nonlinear_arith)
            requires d >= 0, axis_move(d, c) >= 0;
    }
}

/// Moving `d` toward zero by `a` (same sign, no longer) shrinks its square,
/// strictly when `a` is not zero.
proof fn lemma_shrink_square(d: int, a: int)
    requires
        abs(a) <= abs(d),
        d * a >= 0,
    ensures
        (d - a) * (d - a) <= d * d,
        a != 0 ==> (d - a) * (d - a) < d * d,
        abs(d - a) <= abs(d),
        (d - a) * d >= 0,
        abs(d - a) == abs(d) - abs(a),
{
    if d > 0 {
        assert(a >= 0) by (nonlinear_arith)
            requires d > 0, d * a >= 0;
        assert((d - a) * (d - a) <= d * d) by (nonlinear_arith)
            requires 0 <= a <= d;
        assert(a != 0 ==> (d - a) * (d - a) < d * d) by (nonlinear_arith)
            requires 0 <= a <= d;
        assert((d - a) * d >= 0) by (nonlinear_arith)
            requires 0 <= a <= d;
    } else if d == 0 {
        assert(a == 0);
    } else {
        assert(a <= 0) by (nonlinear_arith)
            requires d < 0, d * a >= 0;
        assert((d - a) * (d - a) <= d * d) by (nonlinear_arith)
            requires d <= a <= 0;
        assert(a != 0 ==> (d - a) * (d - a) < d * d) by (nonlinear_arith)
            requires d <= a <= 0;
        assert((d - a) * d >= 0) by (nonlinear_arith)
            requires d <= a <= 0;
    }
}

proof fn lemma_abs_square(v: int)
    ensures
        v * v == abs(v) * abs(v),
        v * v >= 0,
{
    assert(v * v == abs(v) * abs(v)) by (nonlinear_arith)
        requires abs(v) == v || abs(v) == -v;
    assert(v * v >= 0) by (nonlinear_arith);
}

proof fn lemma_dist2_zero(a: Point, b: Point)
    ensures
        dist2(a, b) >= 0,
        a == b <==> dist2(a, b) == 0,
{
    lemma_abs_square(b.x - a.x);
    lemma_abs_square(b.y - a.y);
    if a != b {
        assert(dist2(a, b) > 0) by (nonlinear_arith)
            requires a.x != b.x || a.y != b.y,
                dist2(a, b) == (b.x - a.x) * (b.x - a.x) + (b.y - a.y) * (b.y - a.y);
    } else {
        assert(b.x - a.x == 0 && b.y - a.y == 0);
        assert(dist2(a, b) == 0) by (nonlinear_arith)
            requires b.x - a.x == 0, b.y - a.y == 0,
                dist2(a, b) == (b.x - a.x) * (b.x - a.x) + (b.y - a.y) * (b.y - a.y);
    }
}

/// Squares keep a strict order on sums of two non-negative terms.
proof fn lemma_sum_squares_lt(p1: int, q1: int, p2: int, q2: int)
    requires
        0 <= p1 < q1,
        0 <= p2 < q2,
    ensures
        p1 * p1 + p2 * p2 < q1 * q1 + q2 * q2,
{
    assert(p1 * p1 < q1 * q1) by (nonlinear_arith)
        requires 0 <= p1 < q1;
    assert(p2 * p2 < q2 * q2) by (nonlinear_arith)
        requires 0 <= p2 < q2;
}

proof fn lemma_sum_squares_le(p1: int, q1: int, p2: int, q2: int)
    requires
        0 <= p1 <= q1,
        0 <= p2 <= q2,
    ensures
        p1 * p1 + p2 * p2 <= q1 * q1 + q2 * q2,
{
    assert(p1 * p1 <= q1 * q1) by (nonlinear_arith)
        requires 0 <= p1 <= q1;
    assert(p2 * p2 <= q2 * q2) by (nonlinear_arith)
        requires 0 <= p2 <= q2;
}

/// `(x * z)^2 + (y * z)^2 == (x^2 + y^2) * z^2`
proof fn lemma_scale_squares(x: int, y: int, z: int)
    ensures
        (x * z) * (x * z) + (y * z) * (y * z) == (x * x + y * y) * (z * z),
{
    assert((x * z) * (x * z) + (y * z) * (y * z) == (x * x + y * y) * (z * z)) by (nonlinear_arith);
}

/// Dividing a strict order by a positive square.
proof fn lemma_cancel_square(x: int, y: int, z: int)
    requires
        x * (z * z) < y * (z * z),
        z != 0,
    ensures
        x < y,
{
    assert(z * z > 0) by (nonlinear_arith)
        requires z != 0;
    assert(x < y) by (nonlinear_arith)
        requires x * (z * z) < y * (z * z), z * z > 0;
}

/// Two non-negative numbers whose squares sum to at most `w * w` sum to less than `1.5 * w`.
proof fn lemma_sum_below(u: int, v: int, w: int)
    requires
        u >= 0,
        v >= 0,
        w > 0,
        u * u + v * v <= w * w,
    ensures
        2 * (u + v) < 3 * w,
{
    assert(2 * (u + v) < 3 * w) by (nonlinear_arith)
        requires u * u + v * v <= w * w, u >= 0, v >= 0, w > 0;
}

/// A share rounded down from `a * sf / c` leaves, of `a`, less than one unit
/// above the exact remainder `a * (c - sf) / c`.
proof fn lemma_short_share(a: int, m: int, c: int, sf: int)
    requires
        a >= 0,
        0 <= m <= a,
        c > sf > 0,
        m == a || a * sf < (m + 1) * c,
    ensures
        0 <= (a - m) * c < a * (c - sf) + c,
{
    if m == a {
        assert(0 < a * (c - sf) + c) by (nonlinear_arith)
            requires a >= 0, c > sf, sf > 0;
        assert((a - m) * c == 0) by (nonlinear_arith)
            requires m == a;
    } else {
        assert((a - m) * c < a * (c - sf) + c) by (nonlinear_arith)
            requires a * sf < (m + 1) * c;
        assert((a - m) * c >= 0) by (nonlinear_arith)
            requires a >= m, c > 0;
    }
}

/// One frame of pursuit: the target steps toward `p` by at most `STEP`,
/// along the straight line, without passing `p` on either axis. Both points
/// are in fixed point.
pub fn pursue(t: Point, p: Point) -> (r: Point)
    requires
        fine_bounded(t),
        fine_bounded(p),
    ensures
        r == pursuit_step(t, p),
        fine_bounded(r),
{
    let dx: i64 = p.x - t.x;
    let dy: i64 = p.y - t.y;
    let ax: u128 = if dx < 0 { (-dx) as u128 } else { dx as u128 };
    let ay: u128 = if dy < 0 { (-dy) as u128 } else { dy as u128 };
    assert(ax <= 2_000_000_000_000 && ay <= 2_000_000_000_000);
    assert(ax * ax <= 4_000_000_000_000_000_000_000_000) by (nonlinear_arith)
        requires ax <= 2_000_000_000_000;
    assert(ay * ay <= 4_000_000_000_000_000_000_000_000) by (nonlinear_arith)
        requires ay <= 2_000_000_000_000;
    assert(ax * ax + ay * ay == dist2(t, p)) by (nonlinear_arith)
        requires ax == abs(dx as int), ay == abs(dy as int), dx == p.x - t.x, dy == p.y - t.y;
    let c = csqrt_u128(ax * ax + ay * ay);
    if c == 0 {
        return t;
    }
    proof {
        lemma_axis_move_bounds(dx as int, c as int);
        lemma_axis_move_bounds(dy as int, c as int);
    }
    let mut mx: u128 = ax * (FINE_STEP as u128) / c;
    if mx > ax {
        mx = ax;
    }
    let mut my: u128 = ay * (FINE_STEP as u128) / c;
    if my > ay {
        my = ay;
    }
    let x = if dx < 0 { t.x - mx as i64 } else { t.x + mx as i64 };
    let y = if dy < 0 { t.y - my as i64 } else { t.y + my as i64 };
    Point { x, y }
}

/// A target at `t` after `n` frames of pursuit toward a fixed `p`.
pub open spec fn pursuit_after(t: Point, p: Point, n: nat) -> Point
    decreases n,
{
    if n == 0 {
        t
    } else {
        pursuit_after(pursuit_step(t, p), p, (n - 1) as nat)
    }
}

/// Pursuit toward a fixed point: a target on the point stays there; any other
/// target gets strictly closer each frame, and on each axis it neither passes
/// the point nor moves away from it. A target within `STEP` of the point
/// lands on it.
pub proof fn pursuit_converges(t: Point, p: Point)
    requires
        fine_bounded(t),
        fine_bounded(p),
    ensures
        t == p ==> pursuit_step(t, p) == t,
        t != p ==> dist2(pursuit_step(t, p), p) < dist2(t, p),
        abs(p.x - pursuit_step(t, p).x) <= abs(p.x - t.x),
        abs(p.y - pursuit_step(t, p).y) <= abs(p.y - t.y),
        (p.x - pursuit_step(t, p).x) * (p.x - t.x) >= 0,
        (p.y - pursuit_step(t, p).y) * (p.y - t.y) >= 0,
        fine_dist(t, p) <= FINE_STEP ==> pursuit_step(t, p) == p,
        fine_bounded(pursuit_step(t, p)),
{
    let dx = p.x - t.x;
    let dy = p.y - t.y;
    let n = dist2(t, p);
    lemma_dist2_zero(t, p);
    lemma_abs_square(dx);
    lemma_abs_square(dy);
    lemma_csqrt_bounds(n as nat);
    let c = fine_dist(t, p);
    let s = pursuit_step(t, p);
    if c == 0 {
        assert(s == t);
    } else {
        lemma_axis_move_bounds(dx, c);
        lemma_axis_move_bounds(dy, c);
        let ax = axis_move(dx, c);
        let ay = axis_move(dy, c);
        lemma_shrink_square(dx, ax);
        lemma_shrink_square(dy, ay);
        assert(p.x - s.x == dx - ax);
        assert(p.y - s.y == dy - ay);
        // the longer axis moves by at least one
        if abs(dx) >= abs(dy) {
            assert(abs(dx) * FINE_STEP >= c) by (nonlinear_arith)
                requires (c - 1) * (c - 1) < dx * dx + dy * dy, abs(dx) >= abs(dy), c > 0,
                    abs(dx) >= 0, abs(dy) >= 0, dx * dx == abs(dx) * abs(dx),
                    dy * dy == abs(dy) * abs(dy);
            assert(dx != 0) by (nonlinear_arith)
                requires (c - 1) * (c - 1) < dx * dx + dy * dy, abs(dx) >= abs(dy), c > 0,
                    abs(dy) >= 0, dy * dy == abs(dy) * abs(dy);
        } else {
            assert(abs(dy) * FINE_STEP >= c) by (nonlinear_arith)
                requires (c - 1) * (c - 1) < dx * dx + dy * dy, abs(dy) >= abs(dx), c > 0,
                    abs(dx) >= 0, abs(dy) >= 0, dx * dx == abs(dx) * abs(dx),
                    dy * dy == abs(dy) * abs(dy);
        }
    }
}

/// The step of one frame is never longer than `STEP`. Toward a point farther
/// than `STEP`, it falls short of `STEP` by less than three fixed-point units.
pub proof fn pursuit_step_length(t: Point, p: Point)
    requires
        fine_bounded(t),
        fine_bounded(p),
    ensures
        ({
            let mx = pursuit_step(t, p).x - t.x;
            let my = pursuit_step(t, p).y - t.y;
            &&& mx * mx + my * my <= FINE_STEP * FINE_STEP
            &&& fine_dist(t, p) > FINE_STEP ==> mx * mx + my * my > (FINE_STEP - 3) * (FINE_STEP - 3)
        }),
{
    let dx = p.x - t.x;
    let dy = p.y - t.y;
    let n = dist2(t, p);
    lemma_dist2_zero(t, p);
    lemma_abs_square(dx);
    lemma_abs_square(dy);
    lemma_csqrt_bounds(n as nat);
    let c = fine_dist(t, p);
    let s = pursuit_step(t, p);
    let mx = s.x - t.x;
    let my = s.y - t.y;
    if c == 0 {
        assert(mx == 0 && my == 0);
        assert(mx * mx + my * my == 0) by (nonlinear_arith)
            requires mx == 0, my == 0;
    } else {
        lemma_axis_move_bounds(dx, c);
        lemma_axis_move_bounds(dy, c);
        let u = abs(mx);
        let v = abs(my);
        let a = abs(dx);
        let b = abs(dy);
        lemma_abs_square(mx);
        lemma_abs_square(my);
        let sf = FINE_STEP as int;
        assert((u * u + v * v) * (c * c) <= (sf * sf) * (c * c)) by (nonlinear_arith)
            requires u * c <= a * sf, v * c <= b * sf, u >= 0, v >= 0, c > 0,
                a * a + b * b <= c * c, sf > 0;
        assert(u * u + v * v <= sf * sf) by (nonlinear_arith)
            requires (u * u + v * v) * (c * c) <= (sf * sf) * (c * c), c > 0;
        if c > sf {
            assert(a * sf < (u + 1) * c) by {
                if mx == dx {
                    assert(a * sf < (a + 1) * c) by (nonlinear_arith)
                        requires c > sf, a >= 0, sf > 0;
                }
            }
            assert(b * sf < (v + 1) * c) by {
                if my == dy {
                    assert(b * sf < (b + 1) * c) by (nonlinear_arith)
                        requires c > sf, b >= 0, sf > 0;
                }
            }
            lemma_sum_squares_lt(a * sf, (u + 1) * c, b * sf, (v + 1) * c);
            lemma_scale_squares(a, b, sf);
            lemma_scale_squares(u + 1, v + 1, c);
            lemma_scale_squares(c - 1, 0, sf);
            assert((a * a + b * b) * (sf * sf) > ((c - 1) * (c - 1)) * (sf * sf)) by (nonlinear_arith)
                requires (c - 1) * (c - 1) < a * a + b * b, sf > 0;
            assert(0 <= (sf - 1) * c <= (c - 1) * sf) by (nonlinear_arith)
                requires c > sf, sf > 1;
            lemma_sum_squares_le((sf - 1) * c, (c - 1) * sf, 0, 0);
            lemma_scale_squares(sf - 1, 0, c);
            lemma_cancel_square(
                (sf - 1) * (sf - 1),
                (u + 1) * (u + 1) + (v + 1) * (v + 1),
                c,
            );
            lemma_sum_below(u, v, sf);
            assert(u * u + v * v > (sf - 3) * (sf - 3)) by (nonlinear_arith)
                requires (u + 1) * (u + 1) + (v + 1) * (v + 1) > (sf - 1) * (sf - 1),
                    2 * (u + v) < 3 * sf, sf >= 10;
        }
    }
}

/// Toward a point farther than `STEP`, one frame takes at least `STEP` less
/// two fixed-point units off the rounded-up distance.
proof fn lemma_pursuit_progress(t: Point, p: Point)
    requires
        fine_bounded(t),
        fine_bounded(p),
        fine_dist(t, p) > FINE_STEP,
    ensures
        fine_dist(pursuit_step(t, p), p) <= fine_dist(t, p) - FINE_STEP + 2,
{
    let dx = p.x - t.x;
    let dy = p.y - t.y;
    let n = dist2(t, p);
    lemma_dist2_zero(t, p);
    lemma_abs_square(dx);
    lemma_abs_square(dy);
    lemma_csqrt_bounds(n as nat);
    let c = fine_dist(t, p);
    let sf = FINE_STEP as int;
    let k = c - sf;
    lemma_axis_move_bounds(dx, c);
    lemma_axis_move_bounds(dy, c);
    let s = pursuit_step(t, p);
    let ax = axis_move(dx, c);
    let ay = axis_move(dy, c);
    lemma_shrink_square(dx, ax);
    lemma_shrink_square(dy, ay);
    let a = abs(dx);
    let b = abs(dy);
    let e = abs(p.x - s.x);
    let f = abs(p.y - s.y);
    assert(p.x - s.x == dx - ax && p.y - s.y == dy - ay);
    assert(e == a - abs(ax) && f == b - abs(ay));
    lemma_short_share(a, abs(ax), c, sf);
    lemma_short_share(b, abs(ay), c, sf);
    lemma_sum_below(a, b, c);
    lemma_sum_squares_lt(e * c, a * k + c, f * c, b * k + c);
    lemma_scale_squares(e, f, c);
    let x = a * k;
    let y = b * k;
    assert((x + c) * (x + c) == x * x + 2 * (x * c) + c * c) by (nonlinear_arith);
    assert((y + c) * (y + c) == y * y + 2 * (y * c) + c * c) by (nonlinear_arith);
    lemma_scale_squares(a, b, k);
    assert((a * a + b * b) * (k * k) <= (c * c) * (k * k)) by (nonlinear_arith)
        requires a * a + b * b <= c * c;
    assert(2 * (x * c) + 2 * (y * c) < 3 * k * (c * c)) by (nonlinear_arith)
        requires 2 * (a + b) < 3 * c, k > 0, c > 0, x == a * k, y == b * k;
    assert((k * k + 3 * k + 2) * (c * c) == (c * c) * (k * k) + 3 * k * (c * c) + 2 * (c * c))
        by (nonlinear_arith);
    lemma_cancel_square(e * e + f * f, k * k + 3 * k + 2, c);
    assert(e * e + f * f <= (k + 2) * (k + 2)) by (nonlinear_arith)
        requires e * e + f * f < k * k + 3 * k + 2, k > 0;
    lemma_abs_square(p.x - s.x);
    lemma_abs_square(p.y - s.y);
    assert(dist2(s, p) == e * e + f * f);
    lemma_dist2_zero(s, p);
    lemma_csqrt_least(dist2(s, p) as nat, (k + 2) as nat);
}

/// Frames of pursuit toward a fixed point from a rounded-up distance `c`: the
/// target is on the point once `c <= STEP + (n - 1) * (STEP - 2 units)`, and
/// stays there.
proof fn lemma_pursuit_reaches(t: Point, p: Point, n: nat)
    requires
        fine_bounded(t),
        fine_bounded(p),
        n >= 1,
        fine_dist(t, p) <= FINE_STEP + (n - 1) * (FINE_STEP - 2),
    ensures
        pursuit_after(t, p, n) == p,
    decreases n,
{
    pursuit_converges(t, p);
    let s = pursuit_step(t, p);
    if fine_dist(t, p) <= FINE_STEP {
        lemma_pursuit_stays(p, (n - 1) as nat);
    } else {
        lemma_pursuit_progress(t, p);
        assert(n >= 2) by (nonlinear_arith)
            requires fine_dist(t, p) > FINE_STEP, fine_dist(t, p) <= FINE_STEP + (n - 1) * (
                FINE_STEP - 2), n >= 1;
        assert(fine_dist(s, p) <= FINE_STEP + (n - 2) * (FINE_STEP - 2)) by (nonlinear_arith)
            requires fine_dist(s, p) <= fine_dist(t, p) - FINE_STEP + 2, fine_dist(t, p)
                <= FINE_STEP + (n - 1) * (FINE_STEP - 2);
        lemma_pursuit_reaches(s, p, (n - 1) as nat);
    }
}

proof fn lemma_pursuit_stays(p: Point, n: nat)
    requires
        fine_bounded(p),
    ensures
        pursuit_after(p, p, n) == p,
    decreases n,
{
    pursuit_converges(p, p);
    if n > 0 {
        lemma_pursuit_stays(p, (n - 1) as nat);
    }
}

/// Pursuit toward a fixed point arrives within `dist / STEP + 1` frames: after
/// any `n` frames with `n * STEP >= dist + STEP` (the distance rounded up to a
/// fixed-point unit), the target is on the point.
pub proof fn pursuit_reaches(t: Point, p: Point, n: nat)
    requires
        fine_bounded(t),
        fine_bounded(p),
        n * FINE_STEP >= fine_dist(t, p) + FINE_STEP,
    ensures
        pursuit_after(t, p, n) == p,
{
    let c = fine_dist(t, p);
    let sf = FINE_STEP as int;
    let dx = p.x - t.x;
    let dy = p.y - t.y;
    lemma_abs_square(dx);
    lemma_abs_square(dy);
    lemma_csqrt_bounds(dist2(t, p) as nat);
    // the distance is below 3 * COORD_LIMIT units, so (n - 1) * 2 units of
    // slack stay below one STEP for the frames that matter
    assert(dist2(t, p) <= 16 * (COORD_LIMIT * DIR_ONE) * (COORD_LIMIT * DIR_ONE)) by (nonlinear_arith)
        requires abs(dx) <= 2 * COORD_LIMIT * DIR_ONE, abs(dy) <= 2 * COORD_LIMIT * DIR_ONE,
            dist2(t, p) == dx * dx + dy * dy, dx * dx == abs(dx) * abs(dx), dy * dy == abs(dy)
            * abs(dy), abs(dx) >= 0, abs(dy) >= 0;
    assert((4 * COORD_LIMIT * DIR_ONE) * (4 * COORD_LIMIT * DIR_ONE) == 16 * (COORD_LIMIT * DIR_ONE)
        * (COORD_LIMIT * DIR_ONE)) by (nonlinear_arith);
    lemma_csqrt_least(dist2(t, p) as nat, (4 * COORD_LIMIT * DIR_ONE) as nat);
    assert(n >= 1) by (nonlinear_arith)
        requires n * sf >= c + sf, c >= 0, sf > 0;
    if n - 1 <= sf / 2 {
        assert(c <= sf + (n - 1) * (sf - 2)) by (nonlinear_arith)
            requires (n - 1) * sf >= c, n - 1 <= sf / 2, sf > 0, n >= 1;
    } else {
        assert((n - 1) * (sf - 2) >= (sf / 2) * (sf - 2)) by (nonlinear_arith)
            requires n - 1 > sf / 2, sf > 2;
        assert((sf / 2) * (sf - 2) >= 4 * COORD_LIMIT * DIR_ONE) by (nonlinear_arith)
            requires sf == FINE_STEP;
    }
    lemma_pursuit_reaches(t, p, n);
}

/// A launch direction in fixed point: `(DIR_ONE, 0)` points along +x with unit length.
#[derive(Clone, Copy, Debug, PartialEq, Eq, Structural)]
pub struct Direction {
    pub x_scale: i64,
    pub y_scale: i64,
}

/// One component of the unit vector along `d`, where `r` is the length of
/// the displacement scaled by `DIR_ONE`.
pub open spec fn unit_share(d: int, r: int) -> int {
    with_sign(d, abs(d) * DIR_ONE * DIR_ONE / r)
}

/// Squared length of the displacement from `from` to `to`, scaled by `DIR_ONE`.
pub open spec fn fine_dist2(from: Point, to: Point) -> int {
    dist2(from, to) * DIR_ONE * DIR_ONE
}

/// The direction a projectile launched at `from` toward `to` takes (both in
/// fixed point): the unit vector along the displacement, or `(1, 1)` when the
/// two points coincide.
pub open spec fn aim(from: Point, to: Point) -> Direction {
    if from == to {
        Direction { x_scale: DIR_ONE, y_scale: DIR_ONE }
    } else {
        let r = isqrt(fine_dist2(from, to) as nat) as int;
        Direction {
            x_scale: unit_share(to.x - from.x, r) as i64,
            y_scale: unit_share(to.y - from.y, r) as i64,
        }
    }
}

/// `u = x / r` read back as products: `u * r <= x < (u + 1) * r`.
proof fn lemma_floor_div(x: int, r: int)
    requires
        x >= 0,
        r > 0,
    ensures
        x / r >= 0,
        (x / r) * r <= x < (x / r + 1) * r,
{
    let u = x / r;
    vstd::arithmetic::div_mod::lemma_fundamental_div_mod(x, r);
    vstd::arithmetic::div_mod::lemma_mod_pos_bound(x, r);
    assert(u >= 0 && u * r <= x < (u + 1) * r) by (nonlinear_arith)
        requires x == r * u + x % r, 0 <= x % r < r, x >= 0, r > 0;
}

/// A launch toward a distinct point has a direction of unit length: its
/// squared length differs from `DIR_ONE^2` by less than `3 * DIR_ONE + 2`,
/// a relative error below `3.000002 / DIR_ONE`.
pub proof fn aim_is_unit(from: Point, to: Point)
    requires
        fine_bounded(from),
        fine_bounded(to),
        from != to,
    ensures
        ({
            let d = aim(from, to);
            let len2 = d.x_scale * d.x_scale + d.y_scale * d.y_scale;
            &&& len2 < (DIR_ONE + 1) * (DIR_ONE + 1)
            &&& len2 > DIR_ONE * DIR_ONE - 3 * DIR_ONE - 2
        }),
{
    let dx = to.x - from.x;
    let dy = to.y - from.y;
    let dd = DIR_ONE as int;
    lemma_dist2_zero(from, to);
    lemma_abs_square(dx);
    lemma_abs_square(dy);
    let a = abs(dx) * dd;
    let b = abs(dy) * dd;
    let n = fine_dist2(from, to);
    lemma_scale_squares(abs(dx), abs(dy), dd);
    assert(n == (dx * dx + dy * dy) * (dd * dd)) by (nonlinear_arith)
        requires n == (dx * dx + dy * dy) * dd * dd;
    assert(n >= dd * dd) by (nonlinear_arith)
        requires n == (dx * dx + dy * dy) * (dd * dd), dx * dx + dy * dy >= 1;
    crate::geometry::lemma_isqrt_bounds(n as nat);
    let r = isqrt(n as nat) as int;
    assert(r >= dd) by (nonlinear_arith)
        requires r * r <= n < (r + 1) * (r + 1), n >= dd * dd, r >= 0, dd > 0;
    lemma_floor_div(a * dd, r);
    lemma_floor_div(b * dd, r);
    let u = a * dd / r;
    let v = b * dd / r;
    let d = aim(from, to);
    assert(a * dd == abs(dx) * DIR_ONE * DIR_ONE && b * dd == abs(dy) * DIR_ONE * DIR_ONE);
    assert(a * a + b * b == n);
    assert(a <= r + 1 && b <= r + 1) by (nonlinear_arith)
        requires a * a + b * b < (r + 1) * (r + 1), a >= 0, b >= 0, r >= 0;
    assert(u <= 2 * dd) by (nonlinear_arith)
        requires u * r <= a * dd, a <= r + 1, r >= dd, u >= 0, dd > 0;
    assert(v <= 2 * dd) by (nonlinear_arith)
        requires v * r <= b * dd, b <= r + 1, r >= dd, v >= 0, dd > 0;
    assert(unit_share(dx, r) == with_sign(dx, u));
    assert(unit_share(dy, r) == with_sign(dy, v));
    assert(abs(d.x_scale as int) == u);
    assert(abs(d.y_scale as int) == v);
    lemma_abs_square(d.x_scale as int);
    lemma_abs_square(d.y_scale as int);
    // upper bound
    lemma_sum_squares_le(u * r, a * dd, v * r, b * dd);
    lemma_scale_squares(u, v, r);
    lemma_scale_squares(a, b, dd);
    assert((a * a + b * b) * (dd * dd) < ((r + 1) * (r + 1)) * (dd * dd)) by (nonlinear_arith)
        requires a * a + b * b < (r + 1) * (r + 1), dd > 0;
    lemma_scale_squares(r + 1, 0, dd);
    lemma_scale_squares(dd + 1, 0, r);
    assert(0 <= (r + 1) * dd <= (dd + 1) * r) by (nonlinear_arith)
        requires r >= dd, dd > 0;
    lemma_sum_squares_le((r + 1) * dd, (dd + 1) * r, 0, 0);
    lemma_cancel_square(u * u + v * v, (dd + 1) * (dd + 1), r);
    // lower bound
    lemma_sum_squares_lt(a * dd, (u + 1) * r, b * dd, (v + 1) * r);
    lemma_scale_squares(u + 1, v + 1, r);
    assert((a * a + b * b) * (dd * dd) >= (r * r) * (dd * dd)) by (nonlinear_arith)
        requires r * r <= a * a + b * b;
    lemma_scale_squares(dd, 0, r);
    lemma_scale_squares(r, 0, dd);
    assert((dd * dd) * (r * r) == (r * r) * (dd * dd)) by (nonlinear_arith);
    lemma_cancel_square(dd * dd, (u + 1) * (u + 1) + (v + 1) * (v + 1), r);
    assert(u * u + v * v <= (dd + 1) * (dd + 1));
    assert(2 * (u + v) <= 3 * dd) by (nonlinear_arith)
        requires u * u + v * v <= (dd + 1) * (dd + 1), u >= 0, v >= 0, dd >= 100;
    assert(u * u + v * v > dd * dd - 3 * dd - 2) by (nonlinear_arith)
        requires (u + 1) * (u + 1) + (v + 1) * (v + 1) > dd * dd, 2 * (u + v) <= 3 * dd;
}

/// The direction of a launch from `from` toward `to`, both in fixed point.
pub fn launch_direction(from: Point, to: Point) -> (d: Direction)
    requires
        fine_bounded(from),
        fine_bounded(to),
    ensures
        d == aim(from, to),
        -2 * DIR_ONE <= d.x_scale <= 2 * DIR_ONE,
        -2 * DIR_ONE <= d.y_scale <= 2 * DIR_ONE,
{
    if from.x == to.x && from.y == to.y {
        return Direction { x_scale: DIR_ONE, y_scale: DIR_ONE };
    }
    let dx: i64 = to.x - from.x;
    let dy: i64 = to.y - from.y;
    let ax: u128 = if dx < 0 { (-dx) as u128 } else { dx as u128 };
    let ay: u128 = if dy < 0 { (-dy) as u128 } else { dy as u128 };
    assert(ax <= 2_000_000_000_000 && ay <= 2_000_000_000_000);
    let one: u128 = DIR_ONE as u128;
    let fx: u128 = ax * one;
    let fy: u128 = ay * one;
    proof {
        lemma_abs_square(dx as int);
        lemma_abs_square(dy as int);
        lemma_dist2_zero(from, to);
        lemma_scale_squares(ax as int, ay as int, one as int);
    }
    assert(fx * fx <= 4_000_000_000_000_000_000_000_000_000_000_000_000) by (nonlinear_arith)
        requires fx <= 2_000_000_000_000_000_000;
    assert(fy * fy <= 4_000_000_000_000_000_000_000_000_000_000_000_000) by (nonlinear_arith)
        requires fy <= 2_000_000_000_000_000_000;
    assert(fx * fx + fy * fy == fine_dist2(from, to)) by (nonlinear_arith)
        requires (ax * one) * (ax * one) + (ay * one) * (ay * one) == (ax * ax + ay * ay) * (one
            * one), ax * ax + ay * ay == dx * dx + dy * dy, fx == ax * one, fy == ay * one,
            one == DIR_ONE, fine_dist2(from, to) == (dx * dx + dy * dy) * DIR_ONE * DIR_ONE,
            dx == to.x - from.x, dy == to.y - from.y;
    let n: u128 = fx * fx + fy * fy;
    let r = isqrt_u128(n);
    proof {
        crate::geometry::lemma_isqrt_bounds(n as nat);
        assert(n >= 1) by (nonlinear_arith)
            requires n == (dx * dx + dy * dy) * DIR_ONE * DIR_ONE, dx * dx + dy * dy >= 1;
        assert(r >= 1) by (nonlinear_arith)
            requires r * r <= n < (r + 1) * (r + 1), n >= 1, r >= 0;
        assert(fx <= r + 1) by (nonlinear_arith)
            requires n < (r + 1) * (r + 1), n == fx * fx + fy * fy, fx >= 0, fy >= 0, r >= 0;
        assert(fy <= r + 1) by (nonlinear_arith)
            requires n < (r + 1) * (r + 1), n == fx * fx + fy * fy, fx >= 0, fy >= 0, r >= 0;
        assert(fx * one <= 2_000_000_000_000_000_000_000_000) by (nonlinear_arith)
            requires fx <= 2_000_000_000_000_000_000, one == 1_000_000;
        assert(fy * one <= 2_000_000_000_000_000_000_000_000) by (nonlinear_arith)
            requires fy <= 2_000_000_000_000_000_000, one == 1_000_000;
    }
    // fx and fy are at most r + 1, so each component stays within 2 * DIR_ONE
    let ux: u128 = fx * one / (r as u128);
    let uy: u128 = fy * one / (r as u128);
    proof {
        lemma_floor_div((fx * one) as int, r as int);
        lemma_floor_div((fy * one) as int, r as int);
        assert(ux <= 2 * one) by (nonlinear_arith)
            requires ux * r <= fx * one, fx <= r + 1, r >= 1, ux >= 0, one > 0;
        assert(uy <= 2 * one) by (nonlinear_arith)
            requires uy * r <= fy * one, fy <= r + 1, r >= 1, uy >= 0, one > 0;
        assert(fx * one == abs(dx as int) * DIR_ONE * DIR_ONE);
        assert(fy * one == abs(dy as int) * DIR_ONE * DIR_ONE);
    }
    let x_scale: i64 = if dx < 0 { -(ux as i64) } else { ux as i64 };
    let y_scale: i64 = if dy < 0 { -(uy as i64) } else { uy as i64 };
    Direction { x_scale, y_scale }
}

/// A launch from the very point of the target goes along `(1, 1)`.
pub proof fn aim_at_own_point(p: Point)
    ensures
        aim(p, p) == (Direction { x_scale: DIR_ONE, y_scale: DIR_ONE }),
{
}

} // verus!
