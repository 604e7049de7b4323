//! Closed-form integer intersection of two line segments, via Cramer's
//! rule on a normal-vector representation of each line.  Used to compute
//! exact join geometry between connected strokes.

use vstd::prelude::*;
use vstd::math::abs;
use crate::geometry::{Point, Line, LineSide, point_in_range, COORD_LIMIT};
use crate::stepper::abs_i64;

verus! {

/// x component of the normal vector of the infinite line through `l`:
/// the delta rotated by 90 degrees, scaled by the segment length.
pub open spec fn normal_x(l: Line) -> int {
    l.end.y - l.start.y
}

/// y component of the normal vector of the infinite line through `l`.
pub open spec fn normal_y(l: Line) -> int {
    -(l.end.x - l.start.x)
}

/// Signed origin distance of the line through `l`, scaled by the length
/// of the normal vector.
pub open spec fn origin_dist(l: Line) -> int {
    l.start.x * normal_x(l) + l.start.y * normal_y(l)
}

/// The determinant of the two normal vectors: zero exactly when the
/// lines are parallel or colinear.
pub open spec fn denom(a: Line, b: Line) -> int {
    normal_x(a) * normal_y(b) - normal_y(a) * normal_x(b)
}

/// Dot product of the two segments' deltas, the empirical near-parallel
/// threshold of the special-case heuristic.
pub open spec fn delta_dot(a: Line, b: Line) -> int {
    (a.end.x - a.start.x) * (b.end.x - b.start.x) + (a.end.y - a.start.y) * (b.end.y - b.start.y)
}

/// Numerator of the x coordinate of the intersection point.
pub open spec fn inter_x_num(a: Line, b: Line) -> int {
    origin_dist(a) * normal_y(b) - origin_dist(b) * normal_y(a)
}

/// Numerator of the y coordinate of the intersection point.
pub open spec fn inter_y_num(a: Line, b: Line) -> int {
    normal_x(a) * origin_dist(b) - normal_x(b) * origin_dist(a)
}

/// Truncating division (the semantics of Rust's `/`), for any nonzero
/// divisor.
pub open spec fn trunc_div(n: int, d: int) -> int {
    let q = abs(n) as int / abs(d) as int;
    if (n < 0) != (d < 0) {
        -q
    } else {
        q
    }
}

/// Rounding division, half away from zero: the numerator is first pushed
/// away from zero by half the divisor, then divided with truncation.
pub open spec fn round_div(n: int, d: int) -> int {
    if n < 0 {
        trunc_div(n - abs(d) as int / 2, d)
    } else {
        trunc_div(n + abs(d) as int / 2, d)
    }
}

/// Result of intersecting two segments.
#[derive(Clone, Copy, Debug, PartialEq, Eq, Structural)]
pub enum Intersection {
    /// The lines intersect in one point.
    Point {
        /// The intersection point, rounded to integer coordinates.
        point: Point,
        /// The side of the first segment that holds the joint's reflex
        /// angle; callers use it to pick the miter-fill direction.
        outer_side: LineSide,
        /// True when the lines were so close to parallel that the point
        /// is only the midpoint between the segments' near endpoints,
        /// not a true intersection.
        is_special_case: bool,
    },
    /// The lines are colinear or parallel: no single intersection point.
    Colinear,
}

/// Normal-vector plus origin-distance representation of an infinite
/// line, derived from a segment; used for half-plane side tests and
/// signed distances.
#[derive(Clone, Copy, Debug, PartialEq, Eq, Structural)]
pub struct LinearEquation {
    /// Normal vector, perpendicular to the line, scaled by its length.
    pub normal_vector: Point,
    /// Distance from the origin, scaled by the normal vector's length.
    pub origin_distance: i64,
}

/// Well-formedness of a [`LinearEquation`] built from an in-range line:
/// everything stays far away from the `i64` boundaries.
pub open spec fn le_wf(eq: LinearEquation) -> bool {
    &&& -2 * COORD_LIMIT <= eq.normal_vector.x <= 2 * COORD_LIMIT
    &&& -2 * COORD_LIMIT <= eq.normal_vector.y <= 2 * COORD_LIMIT
    &&& -4 * COORD_LIMIT * COORD_LIMIT <= eq.origin_distance <= 4 * COORD_LIMIT * COORD_LIMIT
}

impl LinearEquation {
    /// Builds the linear equation of the infinite line through `line`.
    pub fn from_line(line: &Line) -> (r: LinearEquation)
        requires
            point_in_range(line.start),
            point_in_range(line.end),
        ensures
            r.normal_vector.x == normal_x(*line),
            r.normal_vector.y == normal_y(*line),
            r.origin_distance == origin_dist(*line),
            le_wf(r),
    {
        let normal_vector = line.delta().rotate_90();
        proof {
            assert(-4 * 8192 * 8192 <= line.start.x * normal_vector.x + line.start.y
                * normal_vector.y <= 4 * 8192 * 8192) by (nonlinear_arith)
                requires
                    -8192 <= line.start.x <= 8192,
                    -8192 <= line.start.y <= 8192,
                    -16384 <= normal_vector.x <= 16384,
                    -16384 <= normal_vector.y <= 16384,
            ;
        }
        let origin_distance = line.start.dot_product(normal_vector);
        LinearEquation { normal_vector, origin_distance }
    }

    /// Signed distance from the line to `point`, scaled by the length of
    /// the normal vector: positive on the left of the line, negative on
    /// the right.
    pub fn distance(&self, point: Point) -> (r: i64)
        requires
            le_wf(*self),
            point_in_range(point),
        ensures
            r == point.x * self.normal_vector.x + point.y * self.normal_vector.y
                - self.origin_distance,
    {
        proof {
            assert(-4 * 8192 * 8192 <= point.x * self.normal_vector.x + point.y
                * self.normal_vector.y <= 4 * 8192 * 8192) by (nonlinear_arith)
                requires
                    -8192 <= point.x <= 8192,
                    -8192 <= point.y <= 8192,
                    -16384 <= self.normal_vector.x <= 16384,
                    -16384 <= self.normal_vector.y <= 16384,
            ;
        }
        point.dot_product(self.normal_vector) - self.origin_distance
    }

    /// Whether `point` lies on the given side of the line; points on the
    /// line itself are on both sides.
    pub fn check_side(&self, point: Point, side: LineSide) -> (r: bool)
        requires
            le_wf(*self),
            point_in_range(point),
        ensures
            r == ({
                let dist = point.x * self.normal_vector.x + point.y * self.normal_vector.y
                    - self.origin_distance;
                match side {
                    LineSide::Right => dist <= 0,
                    LineSide::Left => dist >= 0,
                }
            }),
    {
        let dist = self.distance(point);
        match side {
            LineSide::Right => dist <= 0,
            LineSide::Left => dist >= 0,
        }
    }
}

/// The determinant of two vectors whose components stay within the
/// range of an origin distance is far inside the `i64` range.
proof fn lemma_numerator_bound(p: int, q: int, r: int, s: int)
    requires
        -268435456 <= p <= 268435456,
        -268435456 <= q <= 268435456,
        -268435456 <= r <= 268435456,
        -268435456 <= s <= 268435456,
    ensures
        -145000000000000000 <= p * s - q * r <= 145000000000000000,
{
    assert(-145000000000000000 <= p * s - q * r <= 145000000000000000) by (nonlinear_arith)
        requires
            -268435456 <= p <= 268435456,
            -268435456 <= q <= 268435456,
            -268435456 <= r <= 268435456,
            -268435456 <= s <= 268435456,
    ;
}

/// Truncating division, matching [`trunc_div`], computed through
/// unsigned division.
fn div_trunc(n: i64, d: i64) -> (q: i64)
    requires
        d != 0,
        -1000000000000000000 <= n <= 1000000000000000000,
        -1000000000000000000 <= d <= 1000000000000000000,
    ensures
        q == trunc_div(n as int, d as int),
{
    let na = abs_i64(n);
    let da = abs_i64(d);
    let qa = ((na as u64) / (da as u64)) as i64;
    proof {
        vstd::arithmetic::div_mod::lemma_div_pos_is_pos(na as int, da as int);
        vstd::arithmetic::div_mod::lemma_div_nonincreasing(na as int, da as int);
    }
    if (n < 0) != (d < 0) {
        -qa
    } else {
        qa
    }
}

/// Intersects the infinite lines through two segments.
///
/// Returns [`Intersection::Colinear`] exactly when the determinant of
/// the two normal vectors is zero.  Otherwise the outer side is `Right`
/// for a positive determinant and `Left` for a negative one, and the
/// point is: the midpoint of `a.end` and `b.start` flagged as a special
/// case when the squared determinant is below the near-parallel
/// threshold `delta_dot`, else the exact Cramer's-rule solution with
/// rounding division.
pub fn intersection(a: &Line, b: &Line) -> (r: Intersection)
    requires
        point_in_range(a.start),
        point_in_range(a.end),
        point_in_range(b.start),
        point_in_range(b.end),
    ensures
        denom(*a, *b) == 0 <==> r == Intersection::Colinear,
        denom(*a, *b) != 0 ==> r == ({
            let den = denom(*a, *b);
            let side = if den > 0 {
                LineSide::Right
            } else {
                LineSide::Left
            };
            if den * den < delta_dot(*a, *b) {
                Intersection::Point {
                    point: Point {
                        x: trunc_div(a.end.x + b.start.x, 2) as i64,
                        y: trunc_div(a.end.y + b.start.y, 2) as i64,
                    },
                    outer_side: side,
                    is_special_case: true,
                }
            } else {
                Intersection::Point {
                    point: Point {
                        x: round_div(inter_x_num(*a, *b), den) as i64,
                        y: round_div(inter_y_num(*a, *b), den) as i64,
                    },
                    outer_side: side,
                    is_special_case: false,
                }
            }
        }),
{
    let line1 = LinearEquation::from_line(a);
    let line2 = LinearEquation::from_line(b);
    // Determinant of the system of the two line equations: zero means no
    // single solution, so the lines are colinear or parallel.
    let denominator = line1.normal_vector.determinant(line2.normal_vector);
    if denominator == 0 {
        return Intersection::Colinear;
    }
    let outer_side = if denominator > 0 {
        LineSide::Right
    } else {
        LineSide::Left
    };
    // Near-parallel special case: fall back to the midpoint of the two
    // segments' near endpoints rather than divide by a tiny determinant.
    let dot = a.delta().dot_product(b.delta());
    proof {
        assert(-1073741824 <= line1.normal_vector.x * line2.normal_vector.y - line1.normal_vector.y
            * line2.normal_vector.x <= 1073741824) by (nonlinear_arith)
            requires
                -16384 <= line1.normal_vector.x <= 16384,
                -16384 <= line1.normal_vector.y <= 16384,
                -16384 <= line2.normal_vector.x <= 16384,
                -16384 <= line2.normal_vector.y <= 16384,
        ;
        assert(0 <= denominator * denominator <= 2000000000000000000int) by (nonlinear_arith)
            requires
                -1073741824 <= denominator <= 1073741824,
        ;
    }
    if denominator * denominator < dot {
        return Intersection::Point {
            point: Point {
                x: div_trunc(a.end.x + b.start.x, 2),
                y: div_trunc(a.end.y + b.start.y, 2),
            },
            outer_side,
            is_special_case: true,
        };
    }
    // Cramer's rule, with the numerators pushed half a denominator away
    // from zero so the division rounds instead of truncating.
    let offset = div_trunc(abs_i64(denominator), 2);
    let origin_distances = Point::new(line1.origin_distance, line2.origin_distance);
    let numerator = origin_distances.determinant(
        Point::new(line1.normal_vector.y, line2.normal_vector.y),
    );
    proof {
        lemma_numerator_bound(
            origin_distances.x as int,
            origin_distances.y as int,
            line1.normal_vector.y as int,
            line2.normal_vector.y as int,
        );
    }
    let x_numerator = if numerator < 0 {
        numerator - offset
    } else {
        numerator + offset
    };
    let numerator = Point::new(line1.normal_vector.x, line2.normal_vector.x).determinant(
        origin_distances,
    );
    proof {
        lemma_numerator_bound(
            line1.normal_vector.x as int,
            line2.normal_vector.x as int,
            origin_distances.x as int,
            origin_distances.y as int,
        );
    }
    let y_numerator = if numerator < 0 {
        numerator - offset
    } else {
        numerator + offset
    };
    Intersection::Point {
        point: Point {
            x: div_trunc(x_numerator, denominator),
            y: div_trunc(y_numerator, denominator),
        },
        outer_side,
        is_special_case: false,
    }
}

} // verus!
