//! Fixed-point plane geometry for the layout engine.
//!
//! Coordinates are `i64` values measured in thousandths of a surface unit
//! (`SCALE` steps per unit). Distances are Euclidean, rounded down to an
//! integer step count; the per-tick displacement of a node is clamped to
//! `MAX_MOVE` steps (5 surface units) in magnitude.

use vstd::arithmetic::div_mod::{lemma_div_is_ordered, lemma_div_multiples_vanish};
use vstd::prelude::*;

verus! {

/// Coordinate steps per surface unit.
pub const SCALE: i64 = 1000;

/// Largest single-step displacement, in coordinate steps (5 surface units).
pub const MAX_MOVE: i64 = 5000;

/// Stored node positions always stay within this many steps of the origin.
pub const POS_LIMIT: i64 = 200_000_000;

/// Positions handed in from outside (new nodes, pointer events) must lie
/// within this many steps of the origin.
pub const INPUT_LIMIT: i64 = 100_000_000;

/// Node sizes stay within this many steps.
pub const SIZE_LIMIT: i64 = 100_000_000;

/// Bound under which the distance computation is free of overflow.
pub const COORD_BOUND: i64 = 500_000_000;

/// A point or displacement on the drawing surface, in coordinate steps.
#[derive(Clone, Copy, Debug, PartialEq, Eq, Structural)]
pub struct Position {
    pub x: i64,
    pub y: i64,
}

/// An axis-aligned extent (width and height), in coordinate steps.
#[derive(Clone, Copy, Debug, PartialEq, Eq, Structural)]
pub struct Size {
    pub width: i64,
    pub height: i64,
}

pub open spec fn abs_i(a: int) -> int {
    if a < 0 {
        -a
    } else {
        a
    }
}

/// `r` is the integer square root of `n`, rounded down.
pub open spec fn is_floor_sqrt(n: int, r: int) -> bool {
    &&& 0 <= r
    &&& r * r <= n
    &&& n < (r + 1) * (r + 1)
}

/// The integer square root of `n`, rounded down (0 for negative input).
pub open spec fn floor_sqrt(n: int) -> int
    decreases n,
{
    if n <= 0 {
        0
    } else {
        let p = floor_sqrt(n - 1);
        if (p + 1) * (p + 1) <= n {
            p + 1
        } else {
            p
        }
    }
}

/// `floor_sqrt` satisfies the square-root bracketing for nonnegative input.
pub proof fn lemma_floor_sqrt(n: int)
    requires
        n >= 0,
    ensures
        is_floor_sqrt(n, floor_sqrt(n)),
    decreases n,
{
    if n > 0 {
        lemma_floor_sqrt(n - 1);
        let p = floor_sqrt(n - 1);
        if (p + 1) * (p + 1) <= n {
            assert(n < (p + 2) * (p + 2)) by (nonlinear_arith)
                requires
                    n - 1 < (p + 1) * (p + 1),
                    p >= 0,
            ;
        }
    }
}

/// Any value satisfying the bracketing is the floor square root.
pub proof fn lemma_floor_sqrt_unique(n: int, r: int)
    requires
        n >= 0,
        is_floor_sqrt(n, r),
    ensures
        r == floor_sqrt(n),
{
    lemma_floor_sqrt(n);
    let f = floor_sqrt(n);
    if r < f {
        assert((r + 1) * (r + 1) <= f * f) by (nonlinear_arith)
            requires
                0 <= r,
                r < f,
        ;
    }
    if f < r {
        assert((f + 1) * (f + 1) <= r * r) by (nonlinear_arith)
            requires
                0 <= f,
                f < r,
        ;
    }
}

/// The integer square root of `n`, rounded up (0 for negative input).
pub open spec fn ceil_sqrt(n: int) -> int {
    let f = floor_sqrt(n);
    if f * f == n {
        f
    } else {
        f + 1
    }
}

pub open spec fn in_coord_bound(p: Position) -> bool {
    &&& -COORD_BOUND <= p.x <= COORD_BOUND
    &&& -COORD_BOUND <= p.y <= COORD_BOUND
}

pub open spec fn in_input_bound(p: Position) -> bool {
    &&& -INPUT_LIMIT <= p.x <= INPUT_LIMIT
    &&& -INPUT_LIMIT <= p.y <= INPUT_LIMIT
}

pub open spec fn size_ok(s: Size) -> bool {
    &&& 0 <= s.width <= SIZE_LIMIT
    &&& 0 <= s.height <= SIZE_LIMIT
}

/// Squared Euclidean distance between two points.
pub open spec fn dist_sq(p: Position, q: Position) -> int {
    (q.x - p.x) * (q.x - p.x) + (q.y - p.y) * (q.y - p.y)
}

/// Euclidean distance between two points, rounded down to whole steps.
pub open spec fn dist(p: Position, q: Position) -> int {
    floor_sqrt(dist_sq(p, q))
}

/// Clamp a requested displacement magnitude into `[-MAX_MOVE, MAX_MOVE]`.
pub open spec fn clamp_move(a: int) -> int {
    if a > MAX_MOVE as int {
        MAX_MOVE as int
    } else if a < -(MAX_MOVE as int) {
        -(MAX_MOVE as int)
    } else {
        a
    }
}

/// Clamp a coordinate into the stored-position range.
pub open spec fn clamp_coord(x: int) -> int {
    if x > POS_LIMIT as int {
        POS_LIMIT as int
    } else if x < -(POS_LIMIT as int) {
        -(POS_LIMIT as int)
    } else {
        x
    }
}

/// One component of a displacement of magnitude `m` in the direction of the
/// vector whose component is `c`, where `d` bounds the vector's length from
/// above. The magnitude scales by `|c| / d` and the sign follows `c * m`.
pub open spec fn scaled_component(c: int, m: int, d: int) -> int {
    let mag = (abs_i(c) * abs_i(m)) / d;
    if (c < 0) != (m < 0) {
        -mag
    } else {
        mag
    }
}

/// The displacement a node at `from` receives when asked to move `amount`
/// steps toward (positive) or away from (negative) the point `aim`. The
/// magnitude is clamped to `MAX_MOVE`; the direction is the line from
/// `from` to `aim`, scaled against the rounded-up distance so the true
/// displacement never exceeds the clamped amount. A degenerate direction
/// (both points equal) yields no movement.
pub open spec fn move_step(from: Position, aim: Position, amount: int) -> (int, int) {
    let dx: int = aim.x - from.x;
    let dy: int = aim.y - from.y;
    if dx == 0 && dy == 0 {
        (0, 0)
    } else {
        let m: int = clamp_move(amount);
        let d: int = ceil_sqrt(dx * dx + dy * dy);
        (scaled_component(dx, m, d), scaled_component(dy, m, d))
    }
}

/// The position after applying `move_step` and clamping back into the
/// stored-position range.
pub open spec fn moved_position(p: Position, aim: Position, amount: int) -> Position {
    let s = move_step(p, aim, amount);
    Position { x: clamp_coord(p.x + s.0) as i64, y: clamp_coord(p.y + s.1) as i64 }
}

/// Truncating halving: rounds toward zero, like the executable code does
/// on magnitudes.
pub open spec fn half_trunc(d: int) -> int {
    if d >= 0 {
        d / 2
    } else {
        -((-d) / 2)
    }
}

/// Squares preserve order on nonnegative values.
proof fn lemma_sq_le(a: int, b: int)
    requires
        0 <= a <= b,
    ensures
        a * a <= b * b,
{
    assert(a * a <= b * b) by (nonlinear_arith)
        requires
            0 <= a <= b,
    ;
}

/// If `c * c <= n <= d * d` for nonnegative `c` and `d`, then `c <= d`.
proof fn lemma_sqrt_dominates(c: int, n: int, d: int)
    requires
        0 <= c,
        0 <= d,
        c * c <= n,
        n <= d * d,
    ensures
        c <= d,
{
    if d < c {
        lemma_sq_le(d + 1, c);
        assert(d * d < (d + 1) * (d + 1)) by (nonlinear_arith)
            requires
                0 <= d,
        ;
    }
}

/// The rounded-up distance bound dominates each component of the vector.
pub proof fn lemma_ceil_sqrt_component(dx: int, dy: int)
    requires
        !(dx == 0 && dy == 0),
    ensures
        ceil_sqrt(dx * dx + dy * dy) >= abs_i(dx),
        ceil_sqrt(dx * dx + dy * dy) >= abs_i(dy),
        ceil_sqrt(dx * dx + dy * dy) >= 1,
        ceil_sqrt(dx * dx + dy * dy) * ceil_sqrt(dx * dx + dy * dy) >= dx * dx + dy * dy,
{
    let n = dx * dx + dy * dy;
    let ax = abs_i(dx);
    let ay = abs_i(dy);
    assert(dx * dx == ax * ax && dy * dy == ay * ay && dx * dx >= 0 && dy * dy >= 0 && n >= 1)
        by (nonlinear_arith)
        requires
            !(dx == 0 && dy == 0),
            ax == dx || ax == -dx,
            ay == dy || ay == -dy,
            n == dx * dx + dy * dy,
    ;
    lemma_floor_sqrt(n);
    let f = floor_sqrt(n);
    let c = ceil_sqrt(n);
    if f * f == n {
        assert(c * c >= n);
    } else {
        assert(c == f + 1);
        assert(c * c >= n);
    }
    lemma_sqrt_dominates(abs_i(dx), n, c);
    lemma_sqrt_dominates(abs_i(dy), n, c);
    if c == 0 {
        assert(n <= 0);
    }
}

/// One scaled component never exceeds the clamped magnitude.
pub proof fn lemma_scaled_component_bounded(c: int, m: int, d: int)
    requires
        d >= abs_i(c),
        d >= 1,
    ensures
        abs_i(scaled_component(c, m, d)) <= abs_i(m),
        abs_i(scaled_component(c, m, d)) >= 0,
{
    let a = abs_i(c);
    let am = abs_i(m);
    assert(a * am <= d * am) by (nonlinear_arith)
        requires
            0 <= a <= d,
            0 <= am,
    ;
    lemma_div_is_ordered(a * am, d * am, d);
    lemma_div_multiples_vanish(am, d);
    assert(d * am == am * d) by (nonlinear_arith);
    assert((a * am) / d >= 0) by (nonlinear_arith)
        requires
            a >= 0,
            am >= 0,
            d >= 1,
    ;
}

/// For all relaxation steps, the displacement applied to a node is at most
/// `MAX_MOVE` steps (5 surface units) in magnitude, whatever the requested
/// amount and however far apart the points are: each component is bounded
/// by `MAX_MOVE` and the squared Euclidean length of the step is bounded by
/// `MAX_MOVE * MAX_MOVE`.
pub proof fn lemma_move_step_bounded(from: Position, aim: Position, amount: int)
    ensures
        abs_i(move_step(from, aim, amount).0) <= MAX_MOVE as int,
        abs_i(move_step(from, aim, amount).1) <= MAX_MOVE as int,
        move_step(from, aim, amount).0 * move_step(from, aim, amount).0 + move_step(
            from,
            aim,
            amount,
        ).1 * move_step(from, aim, amount).1 <= (MAX_MOVE * MAX_MOVE) as int,
{
    let dx: int = aim.x - from.x;
    let dy: int = aim.y - from.y;
    if dx == 0 && dy == 0 {
    } else {
        let m: int = clamp_move(amount);
        let am: int = abs_i(m);
        let n: int = dx * dx + dy * dy;
        let d: int = ceil_sqrt(n);
        lemma_ceil_sqrt_component(dx, dy);
        lemma_scaled_component_bounded(dx, m, d);
        lemma_scaled_component_bounded(dy, m, d);
        let sx: int = scaled_component(dx, m, d);
        let sy: int = scaled_component(dy, m, d);
        let mx: int = (abs_i(dx) * am) / d;
        let my: int = (abs_i(dy) * am) / d;
        assert(sx * sx == mx * mx && sy * sy == my * my) by (nonlinear_arith)
            requires
                sx == mx || sx == -mx,
                sy == my || sy == -my,
        ;
        // mx * d <= |dx| * am, so (mx * d)^2 <= (|dx| * am)^2
        vstd::arithmetic::div_mod::lemma_fundamental_div_mod(abs_i(dx) * am, d);
        vstd::arithmetic::div_mod::lemma_fundamental_div_mod(abs_i(dy) * am, d);
        assert(mx * d <= abs_i(dx) * am && mx * d >= 0) by (nonlinear_arith)
            requires
                abs_i(dx) * am == d * mx + (abs_i(dx) * am) % d,
                (abs_i(dx) * am) % d >= 0,
                mx >= 0,
                d >= 1,
        ;
        assert(my * d <= abs_i(dy) * am && my * d >= 0) by (nonlinear_arith)
            requires
                abs_i(dy) * am == d * my + (abs_i(dy) * am) % d,
                (abs_i(dy) * am) % d >= 0,
                my >= 0,
                d >= 1,
        ;
        // (mx^2 + my^2) * d^2 <= (dx^2 + dy^2) * am^2 <= d^2 * am^2
        assert((mx * mx + my * my) * (d * d) <= (abs_i(dx) * abs_i(dx) + abs_i(dy) * abs_i(dy)) * (
        am * am)) by (nonlinear_arith)
            requires
                0 <= mx * d <= abs_i(dx) * am,
                0 <= my * d <= abs_i(dy) * am,
        ;
        let ax: int = abs_i(dx);
        let ay: int = abs_i(dy);
        assert(ax * ax + ay * ay == n) by (nonlinear_arith)
            requires
                ax == dx || ax == -dx,
                ay == dy || ay == -dy,
                n == dx * dx + dy * dy,
        ;
        assert(n * (am * am) <= (d * d) * (am * am)) by (nonlinear_arith)
            requires
                n <= d * d,
                am * am >= 0,
        ;
        assert(mx * mx + my * my <= am * am) by (nonlinear_arith)
            requires
                (mx * mx + my * my) * (d * d) <= (d * d) * (am * am),
                d >= 1,
        ;
        assert(am * am <= (MAX_MOVE * MAX_MOVE) as int) by (nonlinear_arith)
            requires
                0 <= am <= MAX_MOVE as int,
        ;
    }
}

/// Clamping the moved coordinate back into range never lengthens the step,
/// so a whole move (direction scaling and range clamp together) also stays
/// within `MAX_MOVE` steps per component and in Euclidean magnitude.
pub proof fn lemma_single_move_bounded(p: Position, aim: Position, amount: int)
    requires
        -POS_LIMIT <= p.x <= POS_LIMIT,
        -POS_LIMIT <= p.y <= POS_LIMIT,
    ensures
        abs_i(moved_position(p, aim, amount).x - p.x) <= MAX_MOVE as int,
        abs_i(moved_position(p, aim, amount).y - p.y) <= MAX_MOVE as int,
        (moved_position(p, aim, amount).x - p.x) * (moved_position(p, aim, amount).x - p.x) + (
        moved_position(p, aim, amount).y - p.y) * (moved_position(p, aim, amount).y - p.y) <= (
        MAX_MOVE * MAX_MOVE) as int,
{
    lemma_move_step_bounded(p, aim, amount);
    let s = move_step(p, aim, amount);
    let q = moved_position(p, aim, amount);
    let cx: int = q.x - p.x;
    let cy: int = q.y - p.y;
    assert(abs_i(cx) <= abs_i(s.0) && abs_i(cy) <= abs_i(s.1));
    assert(cx * cx <= s.0 * s.0) by (nonlinear_arith)
        requires
            abs_i(cx) <= abs_i(s.0),
    ;
    assert(cy * cy <= s.1 * s.1) by (nonlinear_arith)
        requires
            abs_i(cy) <= abs_i(s.1),
    ;
}

/// Binary search for the integer square root, rounded down.
pub fn isqrt(n: u64) -> (r: u64)
    ensures
        r as int == floor_sqrt(n as int),
        is_floor_sqrt(n as int, r as int),
        r <= 0xFFFF_FFFF,
{
    let mut lo: u64 = 0;
    let mut hi: u64 = 0x1_0000_0000;
    assert((hi as int) * (hi as int) > n as int) by (nonlinear_arith)
        requires
            hi as int == 0x1_0000_0000,
            n <= u64::MAX,
    ;
    while lo + 1 < hi
        invariant
            lo < hi,
            hi <= 0x1_0000_0000,
            (lo as int) * (lo as int) <= n as int,
            (hi as int) * (hi as int) > n as int,
        decreases hi - lo,
    {
        let mid: u64 = lo + (hi - lo) / 2;
        assert(mid * mid <= 0xFFFF_FFFF * 0xFFFF_FFFF) by (nonlinear_arith)
            requires
                mid <= 0xFFFF_FFFF,
        ;
        if mid * mid <= n {
            lo = mid;
        } else {
            hi = mid;
        }
    }
    proof {
        lemma_floor_sqrt_unique(n as int, lo as int);
    }
    lo
}

/// The integer square root, rounded up.
pub fn isqrt_ceil(n: u64) -> (r: u64)
    ensures
        r as int == ceil_sqrt(n as int),
        (r as int) * (r as int) >= n as int,
        n >= 1 ==> r >= 1,
        r <= 0x1_0000_0000,
{
    let f: u64 = isqrt(n);
    assert(f * f <= 0xFFFF_FFFF * 0xFFFF_FFFF) by (nonlinear_arith)
        requires
            f <= 0xFFFF_FFFF,
    ;
    if f * f == n {
        f
    } else {
        f + 1
    }
}

/// Truncating halving of a displacement request.
pub fn half(delta: i64) -> (r: i64)
    requires
        delta > i64::MIN,
    ensures
        r as int == half_trunc(delta as int),
{
    if delta >= 0 {
        ((delta as u64) / 2) as i64
    } else {
        -((((-delta) as u64) / 2) as i64)
    }
}

/// Compute the displacement of `move_step` executably: the clamped amount,
/// scaled along the line from `from` to `aim`.
pub fn step_toward(from: Position, aim: Position, amount: i64) -> (s: (i64, i64))
    requires
        in_coord_bound(from),
        in_coord_bound(aim),
    ensures
        s.0 as int == move_step(from, aim, amount as int).0,
        s.1 as int == move_step(from, aim, amount as int).1,
        abs_i(s.0 as int) <= MAX_MOVE as int,
        abs_i(s.1 as int) <= MAX_MOVE as int,
{
    let m: i64 = if amount > MAX_MOVE {
        MAX_MOVE
    } else if amount < -MAX_MOVE {
        -MAX_MOVE
    } else {
        amount
    };
    let dx: i64 = aim.x - from.x;
    let dy: i64 = aim.y - from.y;
    if dx == 0 && dy == 0 {
        return (0, 0);
    }
    let adx: u64 = (if dx < 0 {
        -dx
    } else {
        dx
    }) as u64;
    let ady: u64 = (if dy < 0 {
        -dy
    } else {
        dy
    }) as u64;
    proof {
        assert(adx as int * adx as int == dx as int * dx as int && ady as int * ady as int
            == dy as int * dy as int) by (nonlinear_arith)
            requires
                adx as int == abs_i(dx as int),
                ady as int == abs_i(dy as int),
        ;
        assert(adx * adx <= 1_000_000_000 * 1_000_000_000 && ady * ady <= 1_000_000_000
            * 1_000_000_000) by (nonlinear_arith)
            requires
                adx <= 1_000_000_000,
                ady <= 1_000_000_000,
        ;
    }
    let d: u64 = isqrt_ceil(adx * adx + ady * ady);
    let am: u64 = (if m < 0 {
        -m
    } else {
        m
    }) as u64;
    proof {
        lemma_ceil_sqrt_component(dx as int, dy as int);
        lemma_scaled_component_bounded(dx as int, m as int, d as int);
        lemma_scaled_component_bounded(dy as int, m as int, d as int);
        assert(adx * am <= 1_000_000_000 * 5000 && ady * am <= 1_000_000_000 * 5000)
            by (nonlinear_arith)
            requires
                adx <= 1_000_000_000,
                ady <= 1_000_000_000,
                am <= 5000,
        ;
    }
    let mx: u64 = adx * am / d;
    let my: u64 = ady * am / d;
    let sx: i64 = if (dx < 0) != (m < 0) {
        -(mx as i64)
    } else {
        mx as i64
    };
    let sy: i64 = if (dy < 0) != (m < 0) {
        -(my as i64)
    } else {
        my as i64
    };
    (sx, sy)
}

impl Position {
    /// Euclidean distance to `other`, rounded down to whole coordinate
    /// steps.
    pub fn delta(&self, other: Position) -> (r: i64)
        requires
            in_coord_bound(*self),
            in_coord_bound(other),
        ensures
            r == dist(*self, other),
            0 <= r <= 0x5A82_79A0,
    {
        let dx: i64 = other.x - self.x;
        let dy: i64 = other.y - self.y;
        let adx: u64 = (if dx < 0 {
            -dx
        } else {
            dx
        }) as u64;
        let ady: u64 = (if dy < 0 {
            -dy
        } else {
            dy
        }) as u64;
        assert(adx as int * adx as int == dx as int * dx as int && ady as int * ady as int
            == dy as int * dy as int) by (nonlinear_arith)
            requires
                adx as int == abs_i(dx as int),
                ady as int == abs_i(dy as int),
        ;
        assert(adx * adx <= 1_000_000_000 * 1_000_000_000 && ady * ady <= 1_000_000_000
            * 1_000_000_000) by (nonlinear_arith)
            requires
                adx <= 1_000_000_000,
                ady <= 1_000_000_000,
        ;
        let r: u64 = isqrt(adx * adx + ady * ady);
        proof {
            let n: int = dist_sq(*self, other);
            assert(r as int * r as int <= n);
            assert(0x5A82_79A1 * 0x5A82_79A1 > 2_000_000_000_000_000_000int) by (nonlinear_arith);
            if r as int > 0x5A82_79A0 {
                lemma_sq_le(0x5A82_79A1, r as int);
            }
        }
        r as i64
    }
}

} // verus!
