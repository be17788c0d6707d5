//! Fixed-point coordinate arithmetic shared by all behaviours.
//!
//! Positions are stored in thousandths of a world unit ("milli-units"),
//! so one world unit is `UNIT`.  All distance comparisons use squared
//! distances; movement scales the direction vector by a per-tick speed.

use vstd::prelude::*;

verus! {

/// One world unit, in milli-units.
pub const UNIT: i64 = 1_000;

/// Largest coordinate magnitude the world accepts, in milli-units.
/// Keeping every coordinate within this bound makes every squared
/// distance fit comfortably in an `i128`.
pub const COORD_LIMIT: i64 = 1_000_000_000_000;

/// A point in the world, in milli-units on each axis.
#[derive(Clone, Copy, Debug, PartialEq, Eq, Structural)]
pub struct Coordinates {
    pub x: i64,
    pub y: i64,
    pub z: i64,
}

impl Coordinates {
    /// Every axis within the world bound.
    pub open spec fn in_bounds(self) -> bool {
        &&& -COORD_LIMIT <= self.x <= COORD_LIMIT
        &&& -COORD_LIMIT <= self.y <= COORD_LIMIT
        &&& -COORD_LIMIT <= self.z <= COORD_LIMIT
    }
}

/// Whether every axis of a point lies within the world bound.
pub fn coords_in_bounds(c: &Coordinates) -> (r: bool)
    ensures
        r == c.in_bounds(),
{
    -COORD_LIMIT <= c.x && c.x <= COORD_LIMIT && -COORD_LIMIT <= c.y && c.y <= COORD_LIMIT
        && -COORD_LIMIT <= c.z && c.z <= COORD_LIMIT
}

/// Squared Euclidean distance between two points, as a mathematical value.
pub open spec fn sq_dist(c1: Coordinates, c2: Coordinates) -> int {
    (c1.x - c2.x) * (c1.x - c2.x) + (c1.y - c2.y) * (c1.y - c2.y) + (c1.z - c2.z) * (c1.z
        - c2.z)
}

/// The squared distance of two in-bounds points fits well inside `i128`.
pub proof fn lemma_sq_dist_bounds(c1: Coordinates, c2: Coordinates)
    requires
        c1.in_bounds(),
        c2.in_bounds(),
    ensures
        0 <= sq_dist(c1, c2) <= 12_000_000_000_000_000_000_000_000int,
{
    let dx = c1.x - c2.x;
    let dy = c1.y - c2.y;
    let dz = c1.z - c2.z;
    assert(0 <= dx * dx <= 4_000_000_000_000_000_000_000_000int) by (nonlinear_arith)
        requires
            -2_000_000_000_000 <= dx <= 2_000_000_000_000,
    ;
    assert(0 <= dy * dy <= 4_000_000_000_000_000_000_000_000int) by (nonlinear_arith)
        requires
            -2_000_000_000_000 <= dy <= 2_000_000_000_000,
    ;
    assert(0 <= dz * dz <= 4_000_000_000_000_000_000_000_000int) by (nonlinear_arith)
        requires
            -2_000_000_000_000 <= dz <= 2_000_000_000_000,
    ;
}

/// Squared distance between two in-bounds points.
pub fn squared_distance(c1: &Coordinates, c2: &Coordinates) -> (r: i128)
    requires
        c1.in_bounds(),
        c2.in_bounds(),
    ensures
        r == sq_dist(*c1, *c2),
        0 <= r,
{
    proof {
        lemma_sq_dist_bounds(*c1, *c2);
    }
    let dx: i128 = c1.x as i128 - c2.x as i128;
    let dy: i128 = c1.y as i128 - c2.y as i128;
    let dz: i128 = c1.z as i128 - c2.z as i128;
    proof {
        assert(0 <= dx * dx <= 4_000_000_000_000_000_000_000_000int) by (nonlinear_arith)
            requires
                -2_000_000_000_000 <= dx <= 2_000_000_000_000,
        ;
        assert(0 <= dy * dy <= 4_000_000_000_000_000_000_000_000int) by (nonlinear_arith)
            requires
                -2_000_000_000_000 <= dy <= 2_000_000_000_000,
        ;
        assert(0 <= dz * dz <= 4_000_000_000_000_000_000_000_000int) by (nonlinear_arith)
            requires
                -2_000_000_000_000 <= dz <= 2_000_000_000_000,
        ;
    }
    dx * dx + dy * dy + dz * dz
}

/// The integer square root: the largest `r` with `r * r <= n`.
pub open spec fn isqrt_spec(n: int) -> int
    decreases n,
{
    if n <= 0 {
        0
    } else {
        let r = isqrt_spec(n - 1);
        if (r + 1) * (r + 1) <= n {
            r + 1
        } else {
            r
        }
    }
}

/// The integer square root brackets its argument.
pub proof fn lemma_isqrt_bounds(n: int)
    requires
        n >= 0,
    ensures
        0 <= isqrt_spec(n),
        isqrt_spec(n) * isqrt_spec(n) <= n,
        n < (isqrt_spec(n) + 1) * (isqrt_spec(n) + 1),
    decreases n,
{
    if n > 0 {
        lemma_isqrt_bounds(n - 1);
        let r = isqrt_spec(n - 1);
        if (r + 1) * (r + 1) <= n {
            assert(n < (r + 2) * (r + 2)) by (nonlinear_arith)
                requires
                    r >= 0,
                    n - 1 < (r + 1) * (r + 1),
                    (r + 1) * (r + 1) <= n,
            ;
        }
    }
}

/// Any value that brackets `n` is its integer square root.
pub proof fn lemma_isqrt_unique(n: int, r: int)
    requires
        n >= 0,
        r >= 0,
        r * r <= n,
        n < (r + 1) * (r + 1),
    ensures
        r == isqrt_spec(n),
{
    lemma_isqrt_bounds(n);
    let s = isqrt_spec(n);
    assert(r == s) by (nonlinear_arith)
        requires
            r >= 0,
            s >= 0,
            r * r <= n,
            n < (r + 1) * (r + 1),
            s * s <= n,
            n < (s + 1) * (s + 1),
    ;
}

/// The integer square root of anything at least `d * d` is at least `d`.
pub proof fn lemma_isqrt_at_least(n: int, d: int)
    requires
        d >= 0,
        n >= d * d,
    ensures
        isqrt_spec(n) >= d,
{
    lemma_isqrt_bounds(n);
    let s = isqrt_spec(n);
    assert(s >= d) by (nonlinear_arith)
        requires
            s >= 0,
            d >= 0,
            d * d <= n,
            n < (s + 1) * (s + 1),
    ;
}

/// Integer square root by bisection.
pub fn isqrt(n: u128) -> (r: u128)
    ensures
        r == isqrt_spec(n as int),
{
    let mut lo: u128 = 0;
    let mut hi: u128 = 0x1_0000_0000_0000_0000;
    proof {
        assert(n < 0x1_0000_0000_0000_0000int * 0x1_0000_0000_0000_0000int);
    }
    while lo + 1 < hi
        invariant
            lo < hi <= 0x1_0000_0000_0000_0000u128,
            lo * lo <= n,
            n < hi * hi,
        decreases hi - lo,
    {
        let mid = lo + (hi - lo) / 2;
        proof {
            assert(lo < mid < hi);
            assert(mid * mid < 0x1_0000_0000_0000_0000_0000_0000_0000_0000int) by (
            nonlinear_arith)
                requires
                    0 <= mid < 0x1_0000_0000_0000_0000int,
            ;
        }
        if mid * mid <= n {
            lo = mid;
        } else {
            hi = mid;
        }
    }
    proof {
        lemma_isqrt_unique(n as int, lo as int);
    }
    lo
}

/// One axis of a movement step: the axis offset scaled by
/// `speed / magnitude`, truncated toward zero.
pub open spec fn step_delta(diff: int, speed: int, mag: int) -> int {
    if diff >= 0 {
        (diff * speed) / mag
    } else {
        -((-diff * speed) / mag)
    }
}

/// A movement step never moves an axis farther than the speed, once
/// the magnitude dominates the axis offset.
pub proof fn lemma_step_delta_bounded(diff: int, speed: int, mag: int)
    requires
        mag >= 1,
        speed >= 0,
        -mag <= diff <= mag,
    ensures
        -speed <= step_delta(diff, speed, mag) <= speed,
{
    if diff >= 0 {
        let q = (diff * speed) / mag;
        vstd::arithmetic::div_mod::lemma_div_pos_is_pos(diff * speed, mag);
        assert(diff * speed >= 0) by (nonlinear_arith)
            requires
                diff >= 0,
                speed >= 0,
        ;
        vstd::arithmetic::div_mod::lemma_fundamental_div_mod(diff * speed, mag);
        vstd::arithmetic::div_mod::lemma_mod_bound(diff * speed, mag);
        assert(q * mag <= diff * speed);
        assert(diff * speed <= mag * speed) by (nonlinear_arith)
            requires
                0 <= diff <= mag,
                speed >= 0,
        ;
        assert(q <= speed) by (nonlinear_arith)
            requires
                q * mag <= mag * speed,
                mag >= 1,
        ;
    } else {
        let q = (-diff * speed) / mag;
        vstd::arithmetic::div_mod::lemma_div_pos_is_pos(-diff * speed, mag);
        assert(-diff * speed >= 0) by (nonlinear_arith)
            requires
                diff < 0,
                speed >= 0,
        ;
        vstd::arithmetic::div_mod::lemma_fundamental_div_mod(-diff * speed, mag);
        vstd::arithmetic::div_mod::lemma_mod_bound(-diff * speed, mag);
        assert(q * mag <= -diff * speed);
        assert(-diff * speed <= mag * speed) by (nonlinear_arith)
            requires
                0 <= -diff <= mag,
                speed >= 0,
        ;
        assert(q <= speed) by (nonlinear_arith)
            requires
                q * mag <= mag * speed,
                mag >= 1,
        ;
    }
}

/// One axis of a movement step.
fn axis_delta(diff: i64, speed: i64, mag: u128) -> (r: i64)
    requires
        mag >= 1,
        -2 * COORD_LIMIT <= diff <= 2 * COORD_LIMIT,
        0 <= speed <= 1_000_000,
    ensures
        r == step_delta(diff as int, speed as int, mag as int),
{
    if diff >= 0 {
        proof {
            assert(diff * speed <= 2_000_000_000_000_000_000int) by (nonlinear_arith)
                requires
                    0 <= diff <= 2_000_000_000_000i64,
                    0 <= speed <= 1_000_000i64,
            ;
        }
        let num: u128 = (diff as u128) * (speed as u128);
        let q: u128 = num / mag;
        proof {
            assert(q <= num);
        }
        q as i64
    } else {
        let nd: i64 = -diff;
        proof {
            assert(nd * speed <= 2_000_000_000_000_000_000int) by (nonlinear_arith)
                requires
                    0 <= nd <= 2_000_000_000_000i64,
                    0 <= speed <= 1_000_000i64,
            ;
        }
        let num: u128 = (nd as u128) * (speed as u128);
        let q: u128 = num / mag;
        proof {
            assert(q <= num);
        }
        -(q as i64)
    }
}

/// The magnitude used by a movement step: the integer square root of
/// the squared distance between the two points.
pub open spec fn step_mag(from: Coordinates, to: Coordinates) -> int {
    isqrt_spec(sq_dist(to, from))
}

/// Each squared axis offset is at most the squared distance.
proof fn lemma_axis_square_le_sq_dist(from: Coordinates, to: Coordinates)
    ensures
        (to.x - from.x) * (to.x - from.x) <= sq_dist(to, from),
        (to.y - from.y) * (to.y - from.y) <= sq_dist(to, from),
        (to.z - from.z) * (to.z - from.z) <= sq_dist(to, from),
{
    let dx = to.x - from.x;
    let dy = to.y - from.y;
    let dz = to.z - from.z;
    assert(dx * dx >= 0 && dy * dy >= 0 && dz * dz >= 0) by (nonlinear_arith);
}

/// The magnitude dominates every axis offset.
pub proof fn lemma_step_mag_dominates(from: Coordinates, to: Coordinates)
    requires
        sq_dist(to, from) >= 0,
    ensures
        step_mag(from, to) >= abs_int(to.x - from.x),
        step_mag(from, to) >= abs_int(to.y - from.y),
        step_mag(from, to) >= abs_int(to.z - from.z),
{
    lemma_axis_square_le_sq_dist(from, to);
    let dx = abs_int(to.x - from.x);
    let dy = abs_int(to.y - from.y);
    let dz = abs_int(to.z - from.z);
    assert(dx * dx == (to.x - from.x) * (to.x - from.x)) by (nonlinear_arith)
        requires
            dx == to.x - from.x || dx == -(to.x - from.x),
    ;
    assert(dy * dy == (to.y - from.y) * (to.y - from.y)) by (nonlinear_arith)
        requires
            dy == to.y - from.y || dy == -(to.y - from.y),
    ;
    assert(dz * dz == (to.z - from.z) * (to.z - from.z)) by (nonlinear_arith)
        requires
            dz == to.z - from.z || dz == -(to.z - from.z),
    ;
    lemma_isqrt_at_least(sq_dist(to, from), dx);
    lemma_isqrt_at_least(sq_dist(to, from), dy);
    lemma_isqrt_at_least(sq_dist(to, from), dz);
}

/// Squared distance is symmetric in its arguments.
pub proof fn lemma_sq_dist_symmetric(c1: Coordinates, c2: Coordinates)
    ensures
        sq_dist(c1, c2) == sq_dist(c2, c1),
{
    assert((c1.x - c2.x) * (c1.x - c2.x) == (c2.x - c1.x) * (c2.x - c1.x)) by (nonlinear_arith);
    assert((c1.y - c2.y) * (c1.y - c2.y) == (c2.y - c1.y) * (c2.y - c1.y)) by (nonlinear_arith);
    assert((c1.z - c2.z) * (c1.z - c2.z) == (c2.z - c1.z) * (c2.z - c1.z)) by (nonlinear_arith);
}

/// Absolute value of a mathematical integer.
pub open spec fn abs_int(x: int) -> int {
    if x >= 0 {
        x
    } else {
        -x
    }
}

/// Move from `from` one step of the given per-tick speed toward `to`:
/// the offset to the target, scaled by `speed / distance(from, to)`
/// axis by axis.  Each axis moves at most `speed` milli-units, and by
/// [`lemma_move_to_approaches`] the step strictly decreases the
/// squared distance whenever the speed is at least two and its square
/// does not exceed the remaining squared distance.
pub fn move_to(from: &Coordinates, to: &Coordinates, speed: i64) -> (r: Coordinates)
    requires
        from.in_bounds(),
        to.in_bounds(),
        0 <= speed <= 1_000_000,
        sq_dist(*to, *from) > 0,
    ensures
        r.x == from.x + step_delta(to.x - from.x, speed as int, step_mag(*from, *to)),
        r.y == from.y + step_delta(to.y - from.y, speed as int, step_mag(*from, *to)),
        r.z == from.z + step_delta(to.z - from.z, speed as int, step_mag(*from, *to)),
        abs_int(r.x - from.x) <= speed,
        abs_int(r.y - from.y) <= speed,
        abs_int(r.z - from.z) <= speed,
{
    proof {
        lemma_sq_dist_bounds(*to, *from);
    }
    let d2: i128 = squared_distance(to, from);
    let mag: u128 = isqrt(d2 as u128);
    proof {
        assert(d2 as u128 as int == d2 as int);
        lemma_isqrt_bounds(d2 as int);
        if mag == 0 {
            assert((d2 as int) < (0 + 1) * (0 + 1));
            assert(false);
        }
        lemma_step_mag_dominates(*from, *to);
        lemma_step_delta_bounded(to.x - from.x, speed as int, mag as int);
        lemma_step_delta_bounded(to.y - from.y, speed as int, mag as int);
        lemma_step_delta_bounded(to.z - from.z, speed as int, mag as int);
    }
    let dx = axis_delta(to.x - from.x, speed, mag);
    let dy = axis_delta(to.y - from.y, speed, mag);
    let dz = axis_delta(to.z - from.z, speed, mag);
    Coordinates { x: from.x + dx, y: from.y + dy, z: from.z + dz }
}

/// One axis of a step never overshoots, and a non-zero step strictly
/// shrinks that axis's squared offset by at least the offset itself.
proof fn lemma_axis_step_shrinks(diff: int, speed: int, mag: int)
    requires
        1 <= speed <= mag,
    ensures
        ({
            let d = step_delta(diff, speed, mag);
            &&& (diff - d) * (diff - d) <= diff * diff
            &&& (d != 0 ==> (diff - d) * (diff - d) + abs_int(diff) <= diff * diff)
        }),
{
    if diff >= 0 {
        let d = (diff * speed) / mag;
        vstd::arithmetic::div_mod::lemma_div_pos_is_pos(diff * speed, mag);
        assert(diff * speed >= 0) by (nonlinear_arith)
            requires
                diff >= 0,
                speed >= 1,
        ;
        assert(diff * speed <= diff * mag) by (nonlinear_arith)
            requires
                diff >= 0,
                1 <= speed <= mag,
        ;
        vstd::arithmetic::div_mod::lemma_div_is_ordered(diff * speed, diff * mag, mag);
        vstd::arithmetic::div_mod::lemma_div_by_multiple(diff, mag);
        assert(d <= diff);
        assert((diff - d) * (diff - d) <= diff * diff - d * diff) by (nonlinear_arith)
            requires
                0 <= d <= diff,
        ;
        if d != 0 {
            assert(d * diff >= diff) by (nonlinear_arith)
                requires
                    1 <= d <= diff,
            ;
        }
    } else {
        let nd = -diff;
        let d = (nd * speed) / mag;
        vstd::arithmetic::div_mod::lemma_div_pos_is_pos(nd * speed, mag);
        assert(nd * speed >= 0) by (nonlinear_arith)
            requires
                nd > 0,
                speed >= 1,
        ;
        assert(nd * speed <= nd * mag) by (nonlinear_arith)
            requires
                nd > 0,
                1 <= speed <= mag,
        ;
        vstd::arithmetic::div_mod::lemma_div_is_ordered(nd * speed, nd * mag, mag);
        vstd::arithmetic::div_mod::lemma_div_by_multiple(nd, mag);
        assert(d <= nd);
        assert((nd - d) * (nd - d) <= nd * nd - d * nd) by (nonlinear_arith)
            requires
                0 <= d <= nd,
        ;
        assert((diff - (-d)) * (diff - (-d)) == (nd - d) * (nd - d)) by (nonlinear_arith)
            requires
                nd == -diff,
        ;
        assert(diff * diff == nd * nd) by (nonlinear_arith)
            requires
                nd == -diff,
        ;
        if d != 0 {
            assert(d * nd >= nd) by (nonlinear_arith)
                requires
                    1 <= d <= nd,
            ;
        }
    }
}

/// A movement step strictly decreases the squared distance to the
/// target: the approach is monotone until the arrival threshold.  The
/// speed must be at least two milli-units per tick and no more than
/// the remaining distance — both hold for the behaviours' speed of
/// fifty at any distance beyond the arrival threshold.
pub proof fn lemma_move_to_approaches(
    from: Coordinates,
    to: Coordinates,
    moved: Coordinates,
    speed: int,
)
    requires
        2 <= speed,
        speed * speed <= sq_dist(to, from),
        moved.x == from.x + step_delta(to.x - from.x, speed, step_mag(from, to)),
        moved.y == from.y + step_delta(to.y - from.y, speed, step_mag(from, to)),
        moved.z == from.z + step_delta(to.z - from.z, speed, step_mag(from, to)),
    ensures
        sq_dist(to, moved) < sq_dist(to, from),
{
    let d2 = sq_dist(to, from);
    let mag = step_mag(from, to);
    let dx = to.x - from.x;
    let dy = to.y - from.y;
    let dz = to.z - from.z;
    assert(d2 == dx * dx + dy * dy + dz * dz);
    assert(dx * dx >= 0 && dy * dy >= 0 && dz * dz >= 0) by (nonlinear_arith);
    assert(d2 >= speed * speed);
    assert(speed * speed >= 4) by (nonlinear_arith)
        requires
            speed >= 2,
    ;
    lemma_isqrt_bounds(d2);
    lemma_isqrt_at_least(d2, speed);
    assert(1 <= speed <= mag);
    let ddx = step_delta(dx, speed, mag);
    let ddy = step_delta(dy, speed, mag);
    let ddz = step_delta(dz, speed, mag);
    lemma_axis_step_shrinks(dx, speed, mag);
    lemma_axis_step_shrinks(dy, speed, mag);
    lemma_axis_step_shrinks(dz, speed, mag);
    assert(to.x - moved.x == dx - ddx);
    assert(to.y - moved.y == dy - ddy);
    assert(to.z - moved.z == dz - ddz);
    assert(sq_dist(to, moved) == (dx - ddx) * (dx - ddx) + (dy - ddy) * (dy - ddy) + (dz - ddz)
        * (dz - ddz));
    // Some axis carries at least a third of the squared distance.
    if 3 * (dx * dx) < d2 && 3 * (dy * dy) < d2 && 3 * (dz * dz) < d2 {
        assert(false);
    }
    if 3 * (dx * dx) >= d2 {
        lemma_main_axis_steps(dx, speed, mag, d2);
    } else if 3 * (dy * dy) >= d2 {
        lemma_main_axis_steps(dy, speed, mag, d2);
    } else {
        lemma_main_axis_steps(dz, speed, mag, d2);
    }
}

/// The axis carrying at least a third of the squared distance takes a
/// non-zero step.
proof fn lemma_main_axis_steps(diff: int, speed: int, mag: int, d2: int)
    requires
        2 <= speed <= mag,
        1 <= mag,
        mag * mag <= d2,
        3 * (diff * diff) >= d2,
        d2 >= 4,
    ensures
        step_delta(diff, speed, mag) != 0,
        abs_int(diff) >= 1,
{
    assert(diff != 0) by (nonlinear_arith)
        requires
            3 * (diff * diff) >= d2,
            d2 >= 4,
    ;
    let a = abs_int(diff);
    assert(a >= 1);
    assert(a * a == diff * diff) by (nonlinear_arith)
        requires
            a == diff || a == -diff,
    ;
    assert((a * speed) * (a * speed) > mag * mag) by (nonlinear_arith)
        requires
            a >= 1,
            speed >= 2,
            3 * (a * a) >= mag * mag,
    ;
    assert(a * speed > mag) by (nonlinear_arith)
        requires
            a >= 0,
            speed >= 0,
            mag >= 1,
            (a * speed) * (a * speed) > mag * mag,
    ;
    vstd::arithmetic::div_mod::lemma_div_is_ordered(mag, a * speed, mag);
    vstd::arithmetic::div_mod::lemma_div_by_multiple(1, mag);
    assert((a * speed) / mag >= 1);
    if diff >= 0 {
        assert(step_delta(diff, speed, mag) == (diff * speed) / mag);
        assert(diff * speed == a * speed);
    } else {
        assert(step_delta(diff, speed, mag) == -((-diff * speed) / mag));
        assert(-diff * speed == a * speed);
    }
}

/// Scale of the fixed-point unit vectors [`normalized_direction`] returns.
pub const DIR_SCALE: i64 = 1_000;

/// The direction from `c2` to `c1` as a fixed-point vector of length
/// close to [`DIR_SCALE`]: each axis offset scaled by
/// `DIR_SCALE / distance`, truncated toward zero.
pub fn normalized_direction(c1: &Coordinates, c2: &Coordinates) -> (r: Coordinates)
    requires
        c1.in_bounds(),
        c2.in_bounds(),
        sq_dist(*c1, *c2) > 0,
    ensures
        r.x == step_delta(c1.x - c2.x, DIR_SCALE as int, step_mag(*c2, *c1)),
        r.y == step_delta(c1.y - c2.y, DIR_SCALE as int, step_mag(*c2, *c1)),
        r.z == step_delta(c1.z - c2.z, DIR_SCALE as int, step_mag(*c2, *c1)),
{
    proof {
        lemma_sq_dist_bounds(*c1, *c2);
    }
    let d2: i128 = squared_distance(c1, c2);
    let mag: u128 = isqrt(d2 as u128);
    proof {
        assert(d2 as u128 as int == d2 as int);
        lemma_isqrt_bounds(d2 as int);
        if mag == 0 {
            assert((d2 as int) < (0 + 1) * (0 + 1));
            assert(false);
        }
        lemma_sq_dist_symmetric(*c1, *c2);
    }
    let dx = axis_delta(c1.x - c2.x, DIR_SCALE, mag);
    let dy = axis_delta(c1.y - c2.y, DIR_SCALE, mag);
    let dz = axis_delta(c1.z - c2.z, DIR_SCALE, mag);
    Coordinates { x: dx, y: dy, z: dz }
}

/// Component-wise sum of two points.
pub fn add_coords(c1: &Coordinates, c2: &Coordinates) -> (r: Coordinates)
    requires
        -i64::MAX <= c1.x + c2.x <= i64::MAX,
        -i64::MAX <= c1.y + c2.y <= i64::MAX,
        -i64::MAX <= c1.z + c2.z <= i64::MAX,
    ensures
        r.x == c1.x + c2.x,
        r.y == c1.y + c2.y,
        r.z == c1.z + c2.z,
{
    Coordinates { x: c1.x + c2.x, y: c1.y + c2.y, z: c1.z + c2.z }
}

/// Scale a point component-wise by an integer factor.
pub fn multiply(c1: &mut Coordinates, n: i64)
    requires
        -i64::MAX <= old(c1).x * n <= i64::MAX,
        -i64::MAX <= old(c1).y * n <= i64::MAX,
        -i64::MAX <= old(c1).z * n <= i64::MAX,
    ensures
        final(c1).x == old(c1).x * n,
        final(c1).y == old(c1).y * n,
        final(c1).z == old(c1).z * n,
{
    let x: i128 = c1.x as i128 * n as i128;
    let y: i128 = c1.y as i128 * n as i128;
    let z: i128 = c1.z as i128 * n as i128;
    c1.x = x as i64;
    c1.y = y as i64;
    c1.z = z as i64;
}

} // verus!
