//! Points of function space and straight-line interpolation between them.
use crate::fixed::{floor_div, floor_div_i128, lemma_floor_div_add};
use vstd::arithmetic::div_mod::{
    lemma_div_is_ordered, lemma_div_multiples_vanish, lemma_div_multiples_vanish_fancy,
    lemma_fundamental_div_mod, lemma_mod_bound,
};
use vstd::prelude::*;

verus! {

/// A point of function space; each coordinate counts units of `1 / UNIT`.
#[derive(Clone, Copy, Debug, PartialEq, Eq, Structural)]
pub struct Point {
    pub x: i64,
    pub y: i64,
}

/// The `i`-th of `n` evenly spaced values going from `a` towards `b`:
/// `a + i * (b - a) / n`, rounded down.
pub open spec fn lerp(a: int, b: int, n: int, i: int) -> int {
    a + floor_div(i * (b - a), n)
}

/// The `n` points `a + i / n * (b - a)` for `i` in `[0, n)`.
pub open spec fn line_points(a: Point, b: Point, n: nat) -> Seq<Point> {
    Seq::new(
        n,
        |i: int| Point { x: lerp(a.x as int, b.x as int, n as int, i) as i64, y: lerp(a.y as int, b.y as int, n as int, i) as i64 },
    )
}

/// The square of the Euclidean distance between two points.
pub open spec fn sq_dist(a: Point, b: Point) -> int {
    (a.x - b.x) * (a.x - b.x) + (a.y - b.y) * (a.y - b.y)
}

pub open spec fn abs_int(a: int) -> int {
    if a < 0 {
        -a
    } else {
        a
    }
}

fn abs_i128(a: i128) -> (r: i128)
    requires
        a > i128::MIN,
    ensures
        r == abs_int(a as int),
{
    if a < 0 {
        -a
    } else {
        a
    }
}

pub open spec fn min_int(a: int, b: int) -> int {
    if a <= b { a } else { b }
}

pub open spec fn max_int(a: int, b: int) -> int {
    if a <= b { b } else { a }
}

/// An interpolated value never leaves the segment between its end points.
pub proof fn lemma_lerp_bounds(a: int, b: int, n: int, i: int)
    requires
        0 <= i <= n,
        0 < n,
    ensures
        min_int(a, b) <= lerp(a, b, n, i) <= max_int(a, b),
{
    let d = b - a;
    lemma_div_multiples_vanish(d, n);
    lemma_div_multiples_vanish(0, n);
    if d >= 0 {
        assert(0 <= i * d <= n * d) by (nonlinear_arith)
            requires
                0 <= i <= n,
                d >= 0,
        ;
        lemma_div_is_ordered(0, i * d, n);
        lemma_div_is_ordered(i * d, n * d, n);
    } else {
        assert(n * d <= i * d <= 0) by (nonlinear_arith)
            requires
                0 <= i <= n,
                d < 0,
        ;
        lemma_div_is_ordered(i * d, 0, n);
        lemma_div_is_ordered(n * d, i * d, n);
    }
    assert(n * d == d * n) by (nonlinear_arith);
    assert(n * 0 == 0);
}

/// Interpolating from `a` to `b` with `a.x <= b.x` gives x coordinates that
/// never decrease, start at `a.x` and stay in `[a.x, b.x)` when `a.x < b.x`.
pub proof fn lemma_line_points_ordered(a: Point, b: Point, n: nat, i: int, j: int)
    requires
        n > 0,
        a.x <= b.x,
        0 <= i <= j < n,
    ensures
        line_points(a, b, n)[0].x == a.x,
        a.x <= line_points(a, b, n)[i].x <= line_points(a, b, n)[j].x,
        a.x < b.x ==> line_points(a, b, n)[j].x < b.x,
{
    let d = b.x - a.x;
    lemma_lerp_bounds(a.x as int, b.x as int, n as int, i);
    lemma_lerp_bounds(a.x as int, b.x as int, n as int, j);
    lemma_lerp_bounds(a.x as int, b.x as int, n as int, 0);
    assert(0 * d == 0);
    lemma_div_multiples_vanish(0, n as int);
    assert(i * d <= j * d) by (nonlinear_arith)
        requires
            0 <= i <= j,
            d >= 0,
    ;
    lemma_div_is_ordered(i * d, j * d, n as int);
    if d > 0 {
        assert(j * d <= n * (d - 1) + (n - 1)) by (nonlinear_arith)
            requires
                0 <= j < n,
                d > 0,
        ;
        lemma_div_is_ordered(j * d, n * (d - 1) + (n - 1), n as int);
        lemma_div_multiples_vanish_fancy(d - 1, n - 1, n as int);
    }
}

/// Consecutive interpolated values differ by `(b - a) / n` rounded down, or
/// by one more: a line never jumps by more than one step.
pub proof fn lemma_lerp_step(a: int, b: int, n: int, i: int)
    requires
        0 < n,
    ensures
        floor_div(b - a, n) <= lerp(a, b, n, i + 1) - lerp(a, b, n, i) <= floor_div(b - a, n) + 1,
{
    let d = b - a;
    let x = i * d;
    lemma_fundamental_div_mod(x, n);
    lemma_fundamental_div_mod(d, n);
    lemma_mod_bound(x, n);
    lemma_mod_bound(d, n);
    let q1 = x / n;
    let r1 = x % n;
    let q2 = d / n;
    let r2 = d % n;
    assert((i + 1) * d == x + d) by (nonlinear_arith)
        requires
            x == i * d,
    ;
    if r1 + r2 < n {
        assert(x + d == n * (q1 + q2) + (r1 + r2)) by (nonlinear_arith)
            requires
                x == n * q1 + r1,
                d == n * q2 + r2,
        ;
        lemma_div_multiples_vanish_fancy(q1 + q2, r1 + r2, n);
    } else {
        assert(x + d == n * (q1 + q2 + 1) + (r1 + r2 - n)) by (nonlinear_arith)
            requires
                x == n * q1 + r1,
                d == n * q2 + r2,
        ;
        lemma_div_multiples_vanish_fancy(q1 + q2 + 1, r1 + r2 - n, n);
    }
}

/// Consecutive interpolated values are at most `|b - a| / n + 1` apart.
pub proof fn lemma_lerp_step_abs(a: int, b: int, n: int, i: int)
    requires
        0 < n,
    ensures
        abs_int(lerp(a, b, n, i + 1) - lerp(a, b, n, i)) <= floor_div(abs_int(b - a), n) + 1,
{
    let d = b - a;
    lemma_lerp_step(a, b, n, i);
    lemma_div_multiples_vanish(0, n);
    assert(n * 0 == 0);
    if d >= 0 {
        lemma_div_is_ordered(0, d, n);
    } else {
        lemma_div_is_ordered(d, 0, n);
        lemma_div_is_ordered(0, -d, n);
        lemma_floor_div_add(d, -d, n);
    }
}

impl Point {
    pub fn new(x: i64, y: i64) -> (r: Point)
        ensures
            r == (Point { x, y }),
    {
        Point { x, y }
    }

    /// How much farther `self` lies from the y axis than `other`:
    /// `|self.x| - |other.x|`.
    pub fn distance_x(&self, other: &Point) -> (r: i128)
        ensures
            r == abs_int(self.x as int) - abs_int(other.x as int),
    {
        abs_i128(self.x as i128) - abs_i128(other.x as i128)
    }

    /// How much farther `self` lies from the x axis than `other`:
    /// `|self.y| - |other.y|`.
    pub fn distance_y(&self, other: &Point) -> (r: i128)
        ensures
            r == abs_int(self.y as int) - abs_int(other.y as int),
    {
        abs_i128(self.y as i128) - abs_i128(other.y as i128)
    }

    /// The Euclidean distance to `other`, rounded down.
    pub fn distance(&self, other: &Point) -> (r: u64)
        requires
            sq_dist(*self, *other) <= u128::MAX,
        ensures
            r * r <= sq_dist(*self, *other) < (r + 1) * (r + 1),
    {
        let dx = other.x as i128 - self.x as i128;
        let dy = other.y as i128 - self.y as i128;
        let ax: u128 = if dx < 0 { (-dx) as u128 } else { dx as u128 };
        let ay: u128 = if dy < 0 { (-dy) as u128 } else { dy as u128 };
        assert(ax * ax == dx * dx && ay * ay == dy * dy) by (nonlinear_arith)
            requires
                ax == dx || ax == -dx,
                ay == dy || ay == -dy,
        ;
        assert(sq_dist(*self, *other) == dx * dx + dy * dy) by (nonlinear_arith)
            requires
                dx == other.x - self.x,
                dy == other.y - self.y,
        ;
        assert(0 <= ax * ax <= ax * ax + ay * ay && 0 <= ay * ay <= ax * ax + ay * ay) by (nonlinear_arith);
        let s: u128 = ax * ax + ay * ay;
        isqrt(s)
    }

    /// The `n` points of the straight line from `self` towards `other`,
    /// `self + i / n * (other - self)` for `i` in `[0, n)`, rounded down.
    pub fn interpolate(&self, other: &Point, n: u32) -> (r: Vec<Point>)
        requires
            n > 0,
        ensures
            r@ == line_points(*self, *other, n as nat),
    {
        let mut r: Vec<Point> = Vec::new();
        let dx = other.x as i128 - self.x as i128;
        let dy = other.y as i128 - self.y as i128;
        let mut i: u32 = 0;
        while i < n
            invariant
                i <= n,
                n > 0,
                dx == other.x - self.x,
                dy == other.y - self.y,
                r@ == line_points(*self, *other, n as nat).take(i as int),
            decreases n - i,
        {
            proof {
                lemma_lerp_bounds(self.x as int, other.x as int, n as int, i as int);
                lemma_lerp_bounds(self.y as int, other.y as int, n as int, i as int);
                assert(-0x1_0000_0000 * 0x2_0000_0000_0000_0000 <= i * dx <= 0x1_0000_0000 * 0x2_0000_0000_0000_0000) by (nonlinear_arith)
                    requires
                        0 <= i < 0x1_0000_0000,
                        -0x2_0000_0000_0000_0000 <= dx <= 0x2_0000_0000_0000_0000,
                ;
                assert(-0x1_0000_0000 * 0x2_0000_0000_0000_0000 <= i * dy <= 0x1_0000_0000 * 0x2_0000_0000_0000_0000) by (nonlinear_arith)
                    requires
                        0 <= i < 0x1_0000_0000,
                        -0x2_0000_0000_0000_0000 <= dy <= 0x2_0000_0000_0000_0000,
                ;
            }
            let x = self.x as i128 + floor_div_i128(i as i128 * dx, n as i128);
            let y = self.y as i128 + floor_div_i128(i as i128 * dy, n as i128);
            r.push(Point { x: x as i64, y: y as i64 });
            proof {
                assert(r@ =~= line_points(*self, *other, n as nat).take(i + 1));
            }
            i = i + 1;
        }
        proof {
            assert(r@ =~= line_points(*self, *other, n as nat));
        }
        r
    }
}

/// The integer square root: the largest `r` with `r * r <= s`.
fn isqrt(s: u128) -> (r: u64)
    ensures
        r * r <= s < (r + 1) * (r + 1),
{
    let mut lo: u128 = 0;
    let mut hi: u128 = 0x1_0000_0000_0000_0000;
    while hi - lo > 1
        invariant
            lo < hi <= 0x1_0000_0000_0000_0000,
            lo * lo <= s < hi * hi,
        decreases hi - lo,
    {
        let mid: u128 = lo + (hi - lo) / 2;
        assert(mid * mid < 0x1_0000_0000_0000_0000 * 0x1_0000_0000_0000_0000) by (nonlinear_arith)
            requires
                mid < 0x1_0000_0000_0000_0000,
        ;
        if mid * mid <= s {
            lo = mid;
        } else {
            hi = mid;
        }
    }
    assert(lo + 1 == hi);
    lo as u64
}

} // verus!
