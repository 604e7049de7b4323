//! The Bresenham core stepper: the incremental integer algorithm that all
//! rasterizers in this crate reuse, together with its closed-form
//! mathematical model.
//!
//! A digital line with major delta `dx`, minor delta `dy` (`0 <= dy <= dx`)
//! and initial error `e0` visits, at step `k`, the minor offset
//! `(2*dy*k + e0 + dx - 1) / (2*dx)`: the error accumulator of the stepper
//! is exactly the remainder of that division, shifted into `1-dx ..= dx`.
//! The lemmas here relate one step of the accumulator to that closed form,
//! so loops over the stepper can carry a purely arithmetical invariant.

use vstd::prelude::*;
use vstd::arithmetic::div_mod::{lemma_fundamental_div_mod, lemma_fundamental_div_mod_converse};
use vstd::math::abs;
use crate::geometry::{Point, MajorMinor, point_in_range, COORD_LIMIT};

verus! {

/// The unit direction of a delta component; a zero delta steps positively.
pub open spec fn step_dir(v: int) -> int {
    if v >= 0 {
        1
    } else {
        -1
    }
}

/// True when the x axis is the major axis of a line with delta `(dx, dy)`.
/// Ties go to the y axis.
pub open spec fn x_is_major(dx: int, dy: int) -> bool {
    abs(dy) < abs(dx)
}

/// Minor-axis offset of the `k`-th point of a digital line with major
/// delta `dx >= 1`, minor delta `0 <= dy <= dx` and initial error `e0`.
pub open spec fn digital_minor(dx: int, dy: int, e0: int, k: int) -> int {
    (2 * dy * k + e0 + dx - 1) / (2 * dx)
}

/// The value of the stepper's error accumulator when the `k`-th point is
/// emitted (before the conditional minor step of iteration `k`).
pub open spec fn stepper_error(dx: int, dy: int, e0: int, k: int) -> int {
    e0 + 2 * dy * k - 2 * dx * digital_minor(dx, dy, e0, k)
}

/// The `k = 0` point of a digital line has minor offset zero whenever the
/// initial error lies in the stepper's resting range.
pub proof fn lemma_digital_minor_zero(dx: int, dy: int, e0: int)
    requires
        1 <= dx,
        0 <= dy <= dx,
        1 - dx <= e0 <= dx,
    ensures
        digital_minor(dx, dy, e0, 0) == 0,
        stepper_error(dx, dy, e0, 0) == e0,
{
    lemma_fundamental_div_mod_converse(e0 + dx - 1, 2 * dx, 0, e0 + dx - 1);
    lemma_mul_zero(2 * dx, digital_minor(dx, dy, e0, 0));
}

/// Multiplying by zero gives zero, stated for an opaque zero.
pub(crate) proof fn lemma_mul_zero(a: int, b: int)
    requires
        b == 0,
    ensures
        a * b == 0,
{
    assert(b == 0 ==> a * b == 0) by (nonlinear_arith);
}

/// One distributive step: `a * (b + 1) == a * b + a`.
pub(crate) proof fn lemma_mul_succ(a: int, b: int)
    ensures
        a * (b + 1) == a * b + a,
{
    assert(a * (b + 1) == a * b + a) by (nonlinear_arith);
}

/// A product with a unit factor is bounded by the other factor.
pub(crate) proof fn lemma_mul_unit_bound(c: int, k: int)
    requires
        -1 <= c <= 1,
        0 <= k,
    ensures
        -k <= c * k <= k,
{
    assert(-k <= c * k <= k) by (nonlinear_arith)
        requires
            -1 <= c <= 1,
            0 <= k,
    ;
}

/// A product with a zero factor, on either side, is zero.
pub(crate) proof fn lemma_mul_zero_any(a: int, b: int)
    ensures
        a == 0 ==> a * b == 0,
        b == 0 ==> a * b == 0,
{
    assert(a == 0 ==> a * b == 0) by (nonlinear_arith);
    assert(b == 0 ==> a * b == 0) by (nonlinear_arith);
}

/// A product with a factor of plus or minus one is the other factor,
/// possibly negated.
pub(crate) proof fn lemma_mul_pm(s: int, v: int)
    requires
        s == 1 || s == -1,
    ensures
        s == 1 ==> s * v == v,
        s == -1 ==> s * v == -v,
        v * s == s * v,
{
    assert(s == 1 ==> s * v == v) by (nonlinear_arith);
    assert(s == -1 ==> s * v == -v) by (nonlinear_arith);
    assert(v * s == s * v) by (nonlinear_arith);
}

/// Minor offsets start at the error's own offset and grow at most one per
/// step; the error stays inside `1-dx ..= dx`.
pub proof fn lemma_digital_minor_bounds(dx: int, dy: int, e0: int, k: int)
    requires
        1 <= dx,
        0 <= dy <= dx,
        1 - dx <= e0 <= dx,
        0 <= k,
    ensures
        0 <= digital_minor(dx, dy, e0, k) <= k,
        1 - dx <= stepper_error(dx, dy, e0, k) <= dx,
{
    let d = 2 * dx;
    let n = 2 * dy * k + e0 + dx - 1;
    let q = n / d;
    let r = n % d;
    lemma_fundamental_div_mod(n, d);
    vstd::arithmetic::div_mod::lemma_mod_division_less_than_divisor(n, d);
    assert(2 * dy * k >= 0) by (nonlinear_arith)
        requires
            dy >= 0,
            k >= 0,
    ;
    assert(2 * dy * k <= 2 * dx * k) by (nonlinear_arith)
        requires
            0 <= dy <= dx,
            k >= 0,
    ;
    // q >= 0: otherwise d*q <= -d and n == d*q + r < 0, but n >= 0.
    if q < 0 {
        assert(d * q <= -d) by (nonlinear_arith)
            requires
                d >= 2,
                q <= -1,
        ;
        assert(false);
    }
    // q <= k: otherwise d*q >= d*(k+1) > n.
    if q > k {
        assert(d * q >= d * (k + 1)) by (nonlinear_arith)
            requires
                d >= 2,
                q >= k + 1,
        ;
        lemma_mul_succ(d, k);
        assert(false);
    }
}

/// One step of the closed form: the minor offset grows exactly when the
/// current error exceeds the threshold `dx - 2*dy`, and the error is
/// updated by `+2*dy` (and `-2*dx` on a minor step).
pub proof fn lemma_digital_minor_step(dx: int, dy: int, e0: int, k: int)
    requires
        1 <= dx,
        0 <= dy <= dx,
        1 - dx <= e0 <= dx,
        0 <= k,
    ensures
        digital_minor(dx, dy, e0, k + 1) == digital_minor(dx, dy, e0, k) + if stepper_error(
            dx,
            dy,
            e0,
            k,
        ) > dx - 2 * dy {
            1int
        } else {
            0int
        },
        stepper_error(dx, dy, e0, k + 1) == if stepper_error(dx, dy, e0, k) > dx - 2 * dy {
            stepper_error(dx, dy, e0, k) + 2 * dy - 2 * dx
        } else {
            stepper_error(dx, dy, e0, k) + 2 * dy
        },
{
    let d = 2 * dx;
    let n = 2 * dy * k + e0 + dx - 1;
    let n2 = 2 * dy * (k + 1) + e0 + dx - 1;
    let q = n / d;
    let r = n % d;
    lemma_fundamental_div_mod(n, d);
    vstd::arithmetic::div_mod::lemma_mod_division_less_than_divisor(n, d);
    lemma_mul_succ(2 * dy, k);
    assert(n2 == n + 2 * dy);
    if r + 2 * dy < d {
        lemma_fundamental_div_mod_converse(n2, d, q, r + 2 * dy);
    } else {
        lemma_mul_succ(d, q);
        lemma_fundamental_div_mod_converse(n2, d, q + 1, r + 2 * dy - d);
    }
    lemma_mul_succ(2 * dx, q);
}

/// Exec absolute value.
pub fn abs_i64(v: i64) -> (r: i64)
    requires
        v > i64::MIN,
    ensures
        r == abs(v as int),
{
    if v >= 0 {
        v
    } else {
        -v
    }
}

/// Exec unit direction, matching [`step_dir`].
pub fn dir_i64(v: i64) -> (r: i64)
    ensures
        r == step_dir(v as int),
{
    if v >= 0 {
        1
    } else {
        -1
    }
}

/// A unit step vector along one coordinate axis: `s` on the x axis when
/// `on_x` holds, `s` on the y axis otherwise.
pub open spec fn axis_point(on_x: bool, s: int) -> Point {
    if on_x {
        Point { x: s as i64, y: 0 }
    } else {
        Point { x: 0, y: s as i64 }
    }
}

/// Number of points of the digital line from `a` to `b`: one more than the
/// major delta's magnitude.
pub open spec fn major_len(a: Point, b: Point) -> int {
    let dx = b.x - a.x;
    let dy = b.y - a.y;
    if x_is_major(dx, dy) {
        abs(dx) + 1int
    } else {
        abs(dy) + 1int
    }
}

/// The `i`-th point of the digital line from `a` to `b`: the major axis
/// advances one unit per step, the minor axis follows the closed form of
/// the stepper with initial error zero.
pub open spec fn line_point(a: Point, b: Point, i: int) -> Point {
    let dx = b.x - a.x;
    let dy = b.y - a.y;
    if x_is_major(dx, dy) {
        Point {
            x: (a.x + step_dir(dx) * i) as i64,
            y: (a.y + step_dir(dy) * digital_minor(abs(dx) as int, abs(dy) as int, 0, i)) as i64,
        }
    } else {
        if abs(dy) == 0 {
            a
        } else {
            Point {
                x: (a.x + step_dir(dx) * digital_minor(abs(dy) as int, abs(dx) as int, 0, i)) as i64,
                y: (a.y + step_dir(dy) * i) as i64,
            }
        }
    }
}

/// The full point sequence of the digital line from `a` to `b`, both
/// endpoints included.
pub open spec fn line_seq(a: Point, b: Point) -> Seq<Point> {
    Seq::new(major_len(a, b) as nat, |i: int| line_point(a, b, i))
}

/// The major/minor decomposition of a line: signed deltas, unit step
/// vectors, and the unit step vectors of the perpendicular direction,
/// all paired on the line's own major/minor axes.
pub struct Decomposition {
    pub delta: MajorMinor<i64>,
    pub step: MajorMinor<Point>,
    pub pstep: MajorMinor<Point>,
}

/// What [`decompose`] returns, stated over the spec helpers: the major
/// entries live on the major axis of the line, the perpendicular delta is
/// the line's delta rotated by 90 degrees.
pub open spec fn decomposition_of(a: Point, b: Point, d: Decomposition) -> bool {
    let dx = b.x - a.x;
    let dy = b.y - a.y;
    let on_x = x_is_major(dx, dy);
    &&& d.delta.major == if on_x {
        dx
    } else {
        dy
    }
    &&& d.delta.minor == if on_x {
        dy
    } else {
        dx
    }
    &&& d.step.major == axis_point(on_x, step_dir(if on_x { dx } else { dy }))
    &&& d.step.minor == axis_point(!on_x, step_dir(if on_x { dy } else { dx }))
    &&& d.pstep.major == axis_point(on_x, step_dir(if on_x { dy } else { -dx }))
    &&& d.pstep.minor == axis_point(!on_x, step_dir(if on_x { -dx } else { dy }))
}

/// Splits the delta of the line from `a` to `b` into major and minor
/// components, with the matching unit steps for the line itself and for
/// its perpendicular; the same decomposition every rasterizer here uses.
pub fn decompose(a: Point, b: Point) -> (d: Decomposition)
    requires
        -8 * COORD_LIMIT <= a.x <= 8 * COORD_LIMIT,
        -8 * COORD_LIMIT <= a.y <= 8 * COORD_LIMIT,
        -8 * COORD_LIMIT <= b.x <= 8 * COORD_LIMIT,
        -8 * COORD_LIMIT <= b.y <= 8 * COORD_LIMIT,
    ensures
        decomposition_of(a, b, d),
        abs(d.delta.minor as int) <= abs(d.delta.major as int) <= 16 * COORD_LIMIT,
{
    let dx = b.x - a.x;
    let dy = b.y - a.y;
    // Perpendicular delta: the delta rotated by 90 degrees.
    let pdx = dy;
    let pdy = -dx;
    let sx = dir_i64(dx);
    let sy = dir_i64(dy);
    let px = dir_i64(pdx);
    let py = dir_i64(pdy);
    if abs_i64(dy) >= abs_i64(dx) {
        Decomposition {
            delta: MajorMinor::new(dy, dx),
            step: MajorMinor::new(Point::new(0, sy), Point::new(sx, 0)),
            pstep: MajorMinor::new(Point::new(0, py), Point::new(px, 0)),
        }
    } else {
        Decomposition {
            delta: MajorMinor::new(dx, dy),
            step: MajorMinor::new(Point::new(sx, 0), Point::new(0, sy)),
            pstep: MajorMinor::new(Point::new(px, 0), Point::new(0, py)),
        }
    }
}

/// The points of the digital line from `a` to `b`, in order from `a` to
/// `b`: the core single-pixel Bresenham algorithm.
pub fn line_points(a: Point, b: Point) -> (v: Vec<Point>)
    requires
        point_in_range(a),
        point_in_range(b),
    ensures
        v@ == line_seq(a, b),
{
    let ghost rdx = b.x - a.x;
    let ghost rdy = b.y - a.y;
    let mut v: Vec<Point> = Vec::new();
    if a.x == b.x && a.y == b.y {
        v.push(a);
        assert(line_seq(a, b) =~= seq![a]);
        return v;
    }
    let d = decompose(a, b);
    let dx = abs_i64(d.delta.major);
    let dy = abs_i64(d.delta.minor);
    let threshold = dx - 2 * dy;
    let e_major = 2 * dy;
    let e_minor = -2 * dx;
    let mut point = a;
    let mut error: i64 = 0;
    let mut i: i64 = 0;
    proof {
        lemma_digital_minor_zero(dx as int, dy as int, 0);
    }
    while i <= dx
        invariant
            point_in_range(a),
            point_in_range(b),
            rdx == b.x - a.x,
            rdy == b.y - a.y,
            !(rdx == 0 && rdy == 0),
            decomposition_of(a, b, d),
            dx == abs(d.delta.major as int),
            dy == abs(d.delta.minor as int),
            1 <= dx <= 2 * COORD_LIMIT,
            0 <= dy <= dx,
            threshold == dx - 2 * dy,
            e_major == 2 * dy,
            e_minor == -2 * dx,
            0 <= i <= dx + 1,
            v@.len() == i,
            forall|j: int| 0 <= j < i ==> v@[j] == line_point(a, b, j),
            error == stepper_error(dx as int, dy as int, 0, i as int),
            point.x == a.x + d.step.major.x * i + d.step.minor.x * digital_minor(
                dx as int,
                dy as int,
                0,
                i as int,
            ),
            point.y == a.y + d.step.major.y * i + d.step.minor.y * digital_minor(
                dx as int,
                dy as int,
                0,
                i as int,
            ),
        decreases dx + 1 - i,
    {
        proof {
            let ghost m = digital_minor(dx as int, dy as int, 0, i as int);
            lemma_digital_minor_bounds(dx as int, dy as int, 0, i as int);
            lemma_digital_minor_step(dx as int, dy as int, 0, i as int);
            lemma_mul_unit_bound(d.step.major.x as int, i as int);
            lemma_mul_unit_bound(d.step.major.y as int, i as int);
            lemma_mul_unit_bound(d.step.minor.x as int, m);
            lemma_mul_unit_bound(d.step.minor.y as int, m);
            lemma_mul_succ(d.step.major.x as int, i as int);
            lemma_mul_succ(d.step.major.y as int, i as int);
            lemma_mul_succ(d.step.minor.x as int, m);
            lemma_mul_succ(d.step.minor.y as int, m);
            assert(point == line_point(a, b, i as int));
        }
        v.push(point);
        if error > threshold {
            point = point.add(d.step.minor);
            error = error + e_minor;
        }
        error = error + e_major;
        point = point.add(d.step.major);
        i = i + 1;
    }
    proof {
        assert(v@ =~= line_seq(a, b));
    }
    v
}

/// The digital line visits, at its last index, exactly the minor delta.
proof fn lemma_digital_minor_last(n: int, mn: int)
    requires
        1 <= n,
        0 <= mn <= n,
    ensures
        digital_minor(n, mn, 0, n) == mn,
{
    assert(2 * mn * n + 0 + n - 1 == mn * (2 * n) + (n - 1)) by (nonlinear_arith);
    lemma_fundamental_div_mod_converse(2 * mn * n + 0 + n - 1, 2 * n, mn, n - 1);
}

/// Endpoint inclusion: the centerline sequence starts at `a`, ends at
/// `b`, and never repeats a point, so both endpoints appear in it
/// exactly once.
pub proof fn lemma_endpoint_inclusion(a: Point, b: Point)
    requires
        point_in_range(a),
        point_in_range(b),
    ensures
        line_seq(a, b).len() == major_len(a, b),
        1 <= major_len(a, b),
        line_seq(a, b)[0] == a,
        line_seq(a, b)[major_len(a, b) - 1] == b,
        forall|i: int, j: int|
            0 <= i < j < major_len(a, b) ==> line_seq(a, b)[i] != line_seq(a, b)[j],
{
    let dx = b.x - a.x;
    let dy = b.y - a.y;
    if a.x == b.x && a.y == b.y {
        assert(line_seq(a, b)[0] == a);
    } else {
        let on_x = x_is_major(dx, dy);
        let dmaj = if on_x {
            dx
        } else {
            dy
        };
        let dmin = if on_x {
            dy
        } else {
            dx
        };
        let n = abs(dmaj) as int;
        let mn = abs(dmin) as int;
        let s = step_dir(dmaj);
        let sm = step_dir(dmin);
        lemma_digital_minor_zero(n, mn, 0);
        lemma_mul_zero(s, 0);
        lemma_mul_zero(sm, 0);
        lemma_digital_minor_last(n, mn);
        assert(s * n == dmaj);
        assert(sm * mn == dmin);
        assert(line_seq(a, b)[0] == a);
        assert(line_seq(a, b)[major_len(a, b) - 1] == b) by {
            lemma_digital_minor_bounds(n, mn, 0, n);
        }
        assert forall|i: int, j: int|
            0 <= i < j < major_len(a, b) implies line_seq(a, b)[i] != line_seq(a, b)[j] by {
            lemma_digital_minor_bounds(n, mn, 0, i);
            lemma_digital_minor_bounds(n, mn, 0, j);
            if on_x {
                assert(line_seq(a, b)[i].x == a.x + s * i);
                assert(line_seq(a, b)[j].x == a.x + s * j);
                assert(s * i != s * j);
            } else {
                assert(line_seq(a, b)[i].y == a.y + s * i);
                assert(line_seq(a, b)[j].y == a.y + s * j);
                assert(s * i != s * j);
            }
        }
    }
}

/// Whether some centerline pixel of the digital line from `a` to `b`
/// lies in the column `x == c`.
pub open spec fn column_hit(a: Point, b: Point, c: int) -> bool {
    exists|i: int| 0 <= i < major_len(a, b) && (#[trigger] line_seq(a, b)[i]).x == c
}

/// Whether some centerline pixel of the digital line from `a` to `b`
/// lies in the row `y == c`.
pub open spec fn row_hit(a: Point, b: Point, c: int) -> bool {
    exists|i: int| 0 <= i < major_len(a, b) && (#[trigger] line_seq(a, b)[i]).y == c
}

/// No-gap property: pixel `i` of the centerline lies at major-axis
/// offset exactly `i` from `a`, so the pixels' major coordinates form
/// the contiguous integer range between the endpoints' major
/// coordinates: no column of an x-major line (and no row of a y-major
/// line) is skipped, and every one in between is hit.
pub proof fn lemma_no_gap(a: Point, b: Point)
    requires
        point_in_range(a),
        point_in_range(b),
        !(a.x == b.x && a.y == b.y),
    ensures
        x_is_major(b.x - a.x, b.y - a.y) ==> forall|i: int|
            0 <= i < major_len(a, b) ==> (#[trigger] line_seq(a, b)[i]).x == a.x + step_dir(
                b.x - a.x,
            ) * i,
        x_is_major(b.x - a.x, b.y - a.y) ==> forall|c: int|
            a.x <= c <= b.x || b.x <= c <= a.x ==> #[trigger] column_hit(a, b, c),
        !x_is_major(b.x - a.x, b.y - a.y) ==> forall|i: int|
            0 <= i < major_len(a, b) ==> (#[trigger] line_seq(a, b)[i]).y == a.y + step_dir(
                b.y - a.y,
            ) * i,
        !x_is_major(b.x - a.x, b.y - a.y) ==> forall|c: int|
            a.y <= c <= b.y || b.y <= c <= a.y ==> #[trigger] row_hit(a, b, c),
{
    let dx = b.x - a.x;
    let dy = b.y - a.y;
    let on_x = x_is_major(dx, dy);
    let dmaj = if on_x {
        dx
    } else {
        dy
    };
    let n = abs(dmaj) as int;
    let mn = if on_x {
        abs(dy) as int
    } else {
        abs(dx) as int
    };
    let s = step_dir(dmaj);
    assert forall|i: int| 0 <= i < major_len(a, b) implies (if on_x {
        (#[trigger] line_seq(a, b)[i]).x == a.x + s * i
    } else {
        (#[trigger] line_seq(a, b)[i]).y == a.y + s * i
    }) by {
        lemma_digital_minor_bounds(n, mn, 0, i);
    }
    let amaj = if on_x {
        a.x as int
    } else {
        a.y as int
    };
    let bmaj = if on_x {
        b.x as int
    } else {
        b.y as int
    };
    assert forall|c: int| amaj <= c <= bmaj || bmaj <= c <= amaj implies (if on_x {
        column_hit(a, b, c)
    } else {
        row_hit(a, b, c)
    }) by {
        let i = if dmaj >= 0 {
            c - amaj
        } else {
            amaj - c
        };
        lemma_digital_minor_bounds(n, mn, 0, i);
        assert(0 <= i < major_len(a, b));
        if on_x {
            assert(line_seq(a, b)[i].x == c);
        } else {
            assert(line_seq(a, b)[i].y == c);
        }
    }
}

/// Reversal symmetry for axis-aligned and exact-diagonal lines: the
/// digital line from `b` to `a` is the pointwise reverse of the one
/// from `a` to `b`, so a width-1 stroke drawn in either direction
/// writes the same pixel set.  (On other slopes the two directions may
/// round a tie differently and the sets can differ.)
pub proof fn lemma_reverse_symmetry(a: Point, b: Point)
    requires
        point_in_range(a),
        point_in_range(b),
        a.x == b.x || a.y == b.y || abs(b.x - a.x) == abs(b.y - a.y),
    ensures
        line_seq(b, a).len() == line_seq(a, b).len(),
        forall|i: int|
            0 <= i < line_seq(a, b).len() ==> line_seq(b, a)[i] == line_seq(a, b)[line_seq(
                a,
                b,
            ).len() - 1 - i],
{
    let dx = b.x - a.x;
    let dy = b.y - a.y;
    if a.x == b.x && a.y == b.y {
        assert(line_seq(a, b)[0] == a);
        assert(line_seq(b, a)[0] == b);
    } else {
        let on_x = x_is_major(dx, dy);
        let n = if on_x {
            abs(dx) as int
        } else {
            abs(dy) as int
        };
        let mn = if on_x {
            abs(dy) as int
        } else {
            abs(dx) as int
        };
        assert(mn == 0 || mn == n);
        assert forall|i: int| 0 <= i < line_seq(a, b).len() implies line_seq(b, a)[i] == line_seq(
            a,
            b,
        )[line_seq(a, b).len() - 1 - i] by {
            let j = n - i;
            lemma_digital_minor_flat_or_diagonal(n, mn, i);
            lemma_digital_minor_flat_or_diagonal(n, mn, j);
            lemma_mul_pm(step_dir(a.x - b.x), i);
            lemma_mul_pm(step_dir(a.y - b.y), i);
            lemma_mul_pm(step_dir(b.x - a.x), j);
            lemma_mul_pm(step_dir(b.y - a.y), j);
            lemma_mul_zero(step_dir(a.x - b.x), 0);
            lemma_mul_zero(step_dir(a.y - b.y), 0);
            lemma_mul_zero(step_dir(b.x - a.x), 0);
            lemma_mul_zero(step_dir(b.y - a.y), 0);
            if on_x {
                if mn == 0 {
                    assert(line_seq(b, a)[i].y == a.y);
                    assert(line_seq(a, b)[j].y == a.y);
                } else {
                    assert(line_seq(b, a)[i].y == b.y + step_dir(a.y - b.y) * i);
                    assert(line_seq(a, b)[j].y == a.y + step_dir(b.y - a.y) * j);
                }
                assert(line_seq(b, a)[i].x == b.x + step_dir(a.x - b.x) * i);
                assert(line_seq(a, b)[j].x == a.x + step_dir(b.x - a.x) * j);
            } else {
                if mn == 0 {
                    assert(line_seq(b, a)[i].x == a.x);
                    assert(line_seq(a, b)[j].x == a.x);
                } else {
                    assert(line_seq(b, a)[i].x == b.x + step_dir(a.x - b.x) * i);
                    assert(line_seq(a, b)[j].x == a.x + step_dir(b.x - a.x) * j);
                }
                assert(line_seq(b, a)[i].y == b.y + step_dir(a.y - b.y) * i);
                assert(line_seq(a, b)[j].y == a.y + step_dir(b.y - a.y) * j);
            }
        }
    }
}

/// On a flat line the minor offset stays zero; on an exact diagonal it
/// equals the step index.
proof fn lemma_digital_minor_flat_or_diagonal(n: int, mn: int, k: int)
    requires
        1 <= n,
        0 <= k,
        mn == 0 || mn == n,
    ensures
        mn == 0 ==> digital_minor(n, mn, 0, k) == 0,
        mn == n ==> digital_minor(n, mn, 0, k) == k,
{
    if mn == 0 {
        assert(2 * 0 * k == 0) by (nonlinear_arith);
        lemma_fundamental_div_mod_converse(2 * 0 * k + 0 + n - 1, 2 * n, 0, n - 1);
    } else {
        assert(2 * n * k + 0 + n - 1 == k * (2 * n) + (n - 1)) by (nonlinear_arith);
        lemma_fundamental_div_mod_converse(2 * n * k + 0 + n - 1, 2 * n, k, n - 1);
    }
}

} // verus!
