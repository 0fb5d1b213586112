//! Distances and steering in whole numbers.
//!
//! A length is held in 1024ths of a cell, rounded down. A steered point is
//! the cell that holds the point `step` cells from the start on the straight
//! line to the target.

use crate::grid::{gap, Cell, MAX_SIDE};
use vstd::prelude::*;

verus! {

/// The number of units of length in one cell.
pub const SCALE: u64 = 1024;

/// The largest length between two cells of a grid, and more.
pub const MAX_LENGTH: u64 = 0x400_0000_0000;

/// The largest step distance of a sampling planner.
pub const MAX_STEP: u64 = 0xffff;

/// The largest `k` up to `hi` with `k * k * scale <= n`.
pub open spec fn root(scale: int, n: int, hi: int) -> int
    decreases hi,
{
    if hi <= 0 {
        0
    } else if hi * hi * scale <= n {
        hi
    } else {
        root(scale, n, hi - 1)
    }
}

/// Squares grow with their base.
proof fn lemma_square_monotone(a: int, b: int, scale: int)
    requires
        0 <= a <= b,
        0 <= scale,
    ensures
        a * a <= b * b,
        a * a * scale <= b * b * scale,
{
    assert(a * a <= b * b) by (nonlinear_arith)
        requires
            0 <= a <= b,
    ;
    assert(a * a * scale <= b * b * scale) by (nonlinear_arith)
        requires
            a * a <= b * b,
            0 <= scale,
    ;
}

/// The root is within its limit and its square within `n`, unless it is 0.
pub proof fn lemma_root_bounds(scale: int, n: int, hi: int)
    requires
        0 <= hi,
    ensures
        0 <= root(scale, n, hi) <= hi,
        root(scale, n, hi) > 0 ==> root(scale, n, hi) * root(scale, n, hi) * scale <= n,
    decreases hi,
{
    if hi > 0 && !(hi * hi * scale <= n) {
        lemma_root_bounds(scale, n, hi - 1);
    }
}

/// No `k` up to `hi` with `k * k * scale <= n` is above the root.
pub proof fn lemma_root_lower(scale: int, n: int, hi: int, k: int)
    requires
        0 <= k <= hi,
        k * k * scale <= n,
    ensures
        k <= root(scale, n, hi),
    decreases hi,
{
    if hi > 0 && !(hi * hi * scale <= n) {
        lemma_root_lower(scale, n, hi - 1, k);
    }
}

/// A `k` whose square is within `n`, while that of `k + 1` is not or `k` is
/// the limit, is the root.
pub proof fn lemma_root_unique(scale: int, n: int, hi: int, k: int)
    requires
        0 <= k <= hi,
        0 <= scale,
        k * k * scale <= n,
        k == hi || (k + 1) * (k + 1) * scale > n,
    ensures
        root(scale, n, hi) == k,
    decreases hi,
{
    if hi > 0 {
        if hi * hi * scale <= n {
            if k < hi {
                lemma_square_monotone(k + 1, hi, scale);
            }
        } else {
            lemma_root_unique(scale, n, hi - 1, k);
        }
    }
}

/// The largest `k` up to `hi` with `k * k * scale <= n`, found by bisection.
pub fn integer_root(scale: u128, n: u128, hi: u64) -> (r: u64)
    requires
        hi * hi * scale <= u128::MAX,
    ensures
        r == root(scale as int, n as int, hi as int),
{
    let mut lo: u64 = 0;
    let mut top: u128 = hi as u128 + 1;
    while top - lo as u128 > 1
        invariant
            lo < top <= hi + 1,
            lo * lo * scale <= n,
            top <= hi ==> top * top * scale > n,
            hi * hi * scale <= u128::MAX,
        decreases top - lo,
    {
        let mid: u128 = lo as u128 + (top - lo as u128) / 2;
        proof {
            lemma_square_monotone(mid as int, hi as int, scale as int);
            assert(hi * hi <= 0xffff_ffff_ffff_ffff * 0xffff_ffff_ffff_ffff) by (nonlinear_arith)
                requires
                    hi <= 0xffff_ffff_ffff_ffff,
            ;
        }
        let square: u128 = mid * mid;
        let scaled: u128 = square * scale;
        if scaled <= n {
            lo = mid as u64;
        } else {
            top = mid;
        }
    }
    proof {
        lemma_root_unique(scale as int, n as int, hi as int, lo as int);
    }
    lo
}

/// The square of the distance between two cells.
pub open spec fn dist2(p: Cell, q: Cell) -> int {
    gap(p.0, q.0) * gap(p.0, q.0) + gap(p.1, q.1) * gap(p.1, q.1)
}

/// The distance between two cells in units of length, rounded down.
pub open spec fn span(p: Cell, q: Cell) -> int {
    root(1, SCALE * SCALE * dist2(p, q), MAX_LENGTH as int)
}

/// Whether a position is within the largest grid.
pub open spec fn within(p: Cell) -> bool {
    p.0 <= MAX_SIDE && p.1 <= MAX_SIDE
}

/// The squared distance between two positions within the largest grid is
/// below 2 to the 63.
proof fn lemma_dist2_bound(p: Cell, q: Cell)
    requires
        within(p),
        within(q),
    ensures
        0 <= dist2(p, q) < 0x8000_0000_0000_0000,
        gap(p.0, q.0) * gap(p.0, q.0) <= 0x7fff_ffff * 0x7fff_ffff,
        gap(p.1, q.1) * gap(p.1, q.1) <= 0x7fff_ffff * 0x7fff_ffff,
{
    let a = gap(p.0, q.0);
    let b = gap(p.1, q.1);
    assert(a * a <= 0x7fff_ffff * 0x7fff_ffff) by (nonlinear_arith)
        requires
            0 <= a <= 0x7fff_ffff,
    ;
    assert(b * b <= 0x7fff_ffff * 0x7fff_ffff) by (nonlinear_arith)
        requires
            0 <= b <= 0x7fff_ffff,
    ;
}

/// A length is never negative, and never above the largest.
pub proof fn lemma_span_bound(p: Cell, q: Cell)
    ensures
        0 <= span(p, q) <= MAX_LENGTH,
{
    lemma_root_bounds(1, SCALE * SCALE * dist2(p, q), MAX_LENGTH as int);
}

/// Two different cells are at least one cell apart.
pub proof fn lemma_span_positive(p: Cell, q: Cell)
    requires
        p != q,
    ensures
        span(p, q) >= SCALE,
{
    let a = gap(p.0, q.0);
    let b = gap(p.1, q.1);
    assert(a * a + b * b >= 1) by (nonlinear_arith)
        requires
            a >= 0,
            b >= 0,
            a > 0 || b > 0,
    ;
    let n = SCALE * SCALE * dist2(p, q);
    assert(n >= SCALE * SCALE) by (nonlinear_arith)
        requires
            n == SCALE * SCALE * dist2(p, q),
            dist2(p, q) >= 1,
    ;
    lemma_root_lower(1, n, MAX_LENGTH as int, SCALE as int);
}

/// The absolute difference of two coordinates.
pub fn gap_of(a: usize, b: usize) -> (d: usize)
    ensures
        d == gap(a, b),
{
    if a <= b {
        b - a
    } else {
        a - b
    }
}

/// The square of the distance between two positions.
pub fn square_distance(p: Cell, q: Cell) -> (d: u64)
    requires
        within(p),
        within(q),
    ensures
        d == dist2(p, q),
{
    proof {
        lemma_dist2_bound(p, q);
    }
    let a = gap_of(p.0, q.0) as u64;
    let b = gap_of(p.1, q.1) as u64;
    a * a + b * b
}

/// The distance between two positions in units of length, rounded down.
pub fn length(p: Cell, q: Cell) -> (l: u64)
    requires
        within(p),
        within(q),
    ensures
        l == span(p, q),
        l <= MAX_LENGTH,
{
    proof {
        lemma_dist2_bound(p, q);
        lemma_root_bounds(1, SCALE * SCALE * dist2(p, q), MAX_LENGTH as int);
    }
    let d = square_distance(p, q);
    integer_root(1, (SCALE as u128) * (SCALE as u128) * (d as u128), MAX_LENGTH)
}

/// How far a step of `step` cells along a line goes in a coordinate in which
/// the line covers `d` cells, `d2` being the square of the line's length:
/// `step * d` over the length, rounded down.
pub open spec fn pull(step: int, d: int, d2: int) -> int {
    root(d2, step * step * d * d, step)
}

/// As `pull`, rounded up.
pub open spec fn pull_up(step: int, d: int, d2: int) -> int {
    let k = pull(step, d, d2);
    if k * k * d2 == step * step * d * d {
        k
    } else {
        k + 1
    }
}

/// The coordinate of the steered point: `step` cells from `from` towards
/// `to`, in the share that this coordinate has of the line, rounded down,
/// and not below 0.
pub open spec fn steer_axis(from: usize, to: usize, step: int, d2: int) -> usize {
    if from <= to {
        (from + pull(step, to - from, d2)) as usize
    } else {
        let k = pull_up(step, from - to, d2);
        if k > from {
            0
        } else {
            (from - k) as usize
        }
    }
}

/// The steered point: the target where it is at most `step` cells away, else
/// the cell that holds the point `step` cells from `from` on the line to the
/// target.
pub open spec fn steer(from: Cell, target: Cell, step: u64) -> Cell {
    let d2 = dist2(from, target);
    if step * step >= d2 {
        target
    } else {
        (
            steer_axis(from.0, target.0, step as int, d2),
            steer_axis(from.1, target.1, step as int, d2),
        )
    }
}

/// One coordinate of the steered point.
fn steer_coordinate(from: usize, to: usize, step: u64, d2: u64) -> (at: usize)
    requires
        from <= MAX_SIDE,
        to <= MAX_SIDE,
        step <= MAX_STEP,
        d2 < 0x8000_0000_0000_0000,
    ensures
        at == steer_axis(from, to, step as int, d2 as int),
{
    let d = gap_of(from, to) as u128;
    let s = step as u128;
    proof {
        assert(s * s <= 0xffff * 0xffff) by (nonlinear_arith)
            requires
                0 <= s <= 0xffff,
        ;
        assert(d * d <= 0x7fff_ffff * 0x7fff_ffff) by (nonlinear_arith)
            requires
                0 <= d <= 0x7fff_ffff,
        ;
        assert(s * s * d2 <= 0xffff * 0xffff * 0x8000_0000_0000_0000) by (nonlinear_arith)
            requires
                0 <= s * s <= 0xffff * 0xffff,
                0 <= d2 <= 0x8000_0000_0000_0000,
        ;
        assert((s * s) * (d * d) <= (0xffff * 0xffff) * (0x7fff_ffff * 0x7fff_ffff)) by (nonlinear_arith)
            requires
                0 <= s * s <= 0xffff * 0xffff,
                0 <= d * d <= 0x7fff_ffff * 0x7fff_ffff,
        ;
        assert(step * step * d * d == (s * s) * (d * d)) by (nonlinear_arith)
            requires
                s == step,
        ;
        lemma_root_bounds(d2 as int, step * step * d * d, step as int);
    }
    let n: u128 = (s * s) * (d * d);
    let k = integer_root(d2 as u128, n, step);
    if from <= to {
        from + k as usize
    } else {
        proof {
            lemma_square_monotone(k as int, step as int, d2 as int);
        }
        let exact = (k as u128) * (k as u128) * (d2 as u128) == n;
        let up: usize = if exact {
            k as usize
        } else {
            k as usize + 1
        };
        if up > from {
            0
        } else {
            from - up
        }
    }
}

/// The point at most `step_size` cells from `start` towards `direction`, and
/// the distance between `start` and `direction` in units of length.
pub fn get_new_position(start: Cell, direction: Cell, step_size: u64) -> (r: (Cell, u64))
    requires
        within(start),
        within(direction),
        step_size <= MAX_STEP,
    ensures
        r.0 == steer(start, direction, step_size),
        r.1 == span(start, direction),
        r.1 <= MAX_LENGTH,
{
    let distance = length(start, direction);
    let d2 = square_distance(start, direction);
    proof {
        lemma_dist2_bound(start, direction);
        assert(step_size * step_size <= 0xffff * 0xffff) by (nonlinear_arith)
            requires
                0 <= step_size <= 0xffff,
        ;
    }
    if step_size * step_size >= d2 {
        return (direction, distance);
    }
    let row = steer_coordinate(start.0, direction.0, step_size, d2);
    let col = steer_coordinate(start.1, direction.1, step_size, d2);
    ((row, col), distance)
}

/// The way from `p1` to `p2` in each coordinate, and the distance between the
/// two in units of length, plus `offset`.
pub fn get_distances(p1: Cell, p2: Cell, offset: u64) -> (r: (i64, i64, u64))
    requires
        within(p1),
        within(p2),
        offset + MAX_LENGTH <= u64::MAX,
    ensures
        r.0 == p2.0 - p1.0,
        r.1 == p2.1 - p1.1,
        r.2 == span(p1, p2) + offset,
{
    let direction_x: i64 = p2.0 as i64 - p1.0 as i64;
    let direction_y: i64 = p2.1 as i64 - p1.1 as i64;
    let distance = length(p1, p2) + offset;
    (direction_x, direction_y, distance)
}

} // verus!
