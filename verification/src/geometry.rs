//! Point arithmetic: coordinates, squared Euclidean distance, and
//! bounded-neighbor computation.

use vstd::prelude::*;

verus! {

use crate::MAX_DIM;

/// A pair of non-negative integer coordinates within the grid's bounds.
#[derive(Clone, Copy, Debug, PartialEq, Eq, Structural)]
pub struct Point {
    pub x: usize,
    pub y: usize,
}

/// Both coordinates small enough that squared distances and flat grid
/// indices cannot overflow `usize`.
pub open spec fn pt_bounded(p: Point) -> bool {
    p.x <= MAX_DIM && p.y <= MAX_DIM
}

/// Square of an integer.
pub open spec fn sq(d: int) -> int {
    d * d
}

/// Squared Euclidean distance between two points. Comparing squared
/// distances orders point pairs exactly as comparing the distances
/// themselves, so the engines never need the square root.
pub open spec fn spec_dist_sq(a: Point, b: Point) -> int {
    sq(a.x - b.x) + sq(a.y - b.y)
}

pub proof fn lemma_sq_nonneg(d: int)
    ensures
        sq(d) >= 0,
{
    assert(d * d >= 0) by (nonlinear_arith);
}

pub proof fn lemma_dist_sq_nonneg(a: Point, b: Point)
    ensures
        spec_dist_sq(a, b) >= 0,
{
    lemma_sq_nonneg(a.x - b.x);
    lemma_sq_nonneg(a.y - b.y);
}

/// A point is at squared distance zero exactly from itself.
pub proof fn lemma_dist_sq_zero(a: Point, b: Point)
    ensures
        spec_dist_sq(a, b) == 0 <==> a == b,
{
    lemma_sq_nonneg(a.x - b.x);
    lemma_sq_nonneg(a.y - b.y);
    if a == b {
        assert(sq(a.x - b.x) == 0) by (nonlinear_arith)
            requires
                a.x == b.x,
        ;
        assert(sq(a.y - b.y) == 0) by (nonlinear_arith)
            requires
                a.y == b.y,
        ;
    } else {
        if a.x != b.x {
            assert(sq(a.x - b.x) > 0) by (nonlinear_arith)
                requires
                    a.x != b.x,
            ;
        } else {
            assert(sq(a.y - b.y) > 0) by (nonlinear_arith)
                requires
                    a.y != b.y,
            ;
        }
    }
}

/// Squared distance between bounded points stays below `2 * MAX_DIM^2`.
pub proof fn lemma_dist_sq_bounded(a: Point, b: Point)
    requires
        pt_bounded(a),
        pt_bounded(b),
    ensures
        0 <= spec_dist_sq(a, b) <= 2 * (MAX_DIM as int) * (MAX_DIM as int),
{
    lemma_dist_sq_nonneg(a, b);
    assert(sq(a.x - b.x) <= (MAX_DIM as int) * (MAX_DIM as int)) by (nonlinear_arith)
        requires
            0 <= a.x <= MAX_DIM as int,
            0 <= b.x <= MAX_DIM as int,
    ;
    assert(sq(a.y - b.y) <= (MAX_DIM as int) * (MAX_DIM as int)) by (nonlinear_arith)
        requires
            0 <= a.y <= MAX_DIM as int,
            0 <= b.y <= MAX_DIM as int,
    ;
}

impl Point {
    pub fn new(x: usize, y: usize) -> (p: Point)
        ensures
            p == (Point { x, y }),
    {
        Point { x, y }
    }

    /// Squared Euclidean distance to another point, computed exactly in
    /// integers.
    pub fn dist_sq(&self, point: &Point) -> (r: usize)
        requires
            pt_bounded(*self),
            pt_bounded(*point),
        ensures
            r == spec_dist_sq(*self, *point),
    {
        let dx: usize = if self.x >= point.x {
            self.x - point.x
        } else {
            point.x - self.x
        };
        let dy: usize = if self.y >= point.y {
            self.y - point.y
        } else {
            point.y - self.y
        };
        proof {
            assert(dx * dx == sq(self.x - point.x)) by (nonlinear_arith)
                requires
                    dx == self.x - point.x || dx == point.x - self.x,
            ;
            assert(dy * dy == sq(self.y - point.y)) by (nonlinear_arith)
                requires
                    dy == self.y - point.y || dy == point.y - self.y,
            ;
            assert(dx * dx <= (MAX_DIM as int) * (MAX_DIM as int)) by (nonlinear_arith)
                requires
                    0 <= dx <= MAX_DIM as int,
            ;
            assert(dy * dy <= (MAX_DIM as int) * (MAX_DIM as int)) by (nonlinear_arith)
                requires
                    0 <= dy <= MAX_DIM as int,
            ;
        }
        dx * dx + dy * dy
    }
}

/// True when `(x, y)` (as unbounded integers) lies inside the grid
/// `[0, size.x) x [0, size.y)`.
pub open spec fn in_bounds(size: Point, x: int, y: int) -> bool {
    0 <= x < size.x && 0 <= y < size.y
}

/// Offsets a point by a signed displacement and rejects results outside the
/// grid: the returned coordinate, if any, always lies in
/// `[0, space_size.x) x [0, space_size.y)`.
pub fn point_bounderies(point: &Point, i: isize, j: isize, space_size: &Point) -> (r: Option<
    (usize, usize),
>)
    requires
        pt_bounded(*point),
        pt_bounded(*space_size),
        -(MAX_DIM as int) <= i <= MAX_DIM as int,
        -(MAX_DIM as int) <= j <= MAX_DIM as int,
    ensures
        r is Some <==> in_bounds(*space_size, point.x + i, point.y + j),
        r matches Some(q) ==> q.0 == point.x + i && q.1 == point.y + j,
{
    let x: isize = point.x as isize + i;
    let y: isize = point.y as isize + j;

    if x < 0 || x > space_size.x as isize - 1 {
        return None;
    }
    if y < 0 || y > space_size.y as isize - 1 {
        return None;
    }

    Some((x as usize, y as usize))
}

} // verus!
