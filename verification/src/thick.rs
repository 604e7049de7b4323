//! Thick-line rasterizer by perpendicular extrusion: walk the centerline
//! with the core stepper and, at every sample, extrude a perpendicular
//! "rib" of pixels on both sides to build up the stroke width.
//!
//! A rib is itself a digital-line walk, along the perpendicular direction,
//! that keeps a running thickness accumulator `tk`: `tk` grows by `2*dx`
//! per rib pixel and by `2*dy` per rib minor step, so it measures twice
//! the perpendicular distance travelled, scaled by the line length, plus a
//! half-pixel allowance of `dx + dy`.  The walk stops when the squared
//! accumulator leaves the squared per-side budget, which avoids any square
//! root.

use vstd::prelude::*;
use vstd::math::abs;
use vstd::arithmetic::div_mod::lemma_fundamental_div_mod_converse;
use crate::geometry::{
    Point, Color, PixelWrite, point_in_range, pixel_seq, writes_contain,
    lemma_writes_contain_stable, lemma_writes_contain_skip, COORD_LIMIT,
};
use crate::stepper::{
    digital_minor, stepper_error, lemma_digital_minor_zero, lemma_digital_minor_bounds,
    lemma_digital_minor_step, lemma_mul_zero, lemma_mul_succ, lemma_mul_unit_bound, lemma_mul_pm,
    abs_i64, decompose, decomposition_of, line_point, line_seq, major_len,
};

verus! {

/// Largest stroke width the rasterizers accept, for the same overflow
/// reasons as [`COORD_LIMIT`].
pub const WIDTH_LIMIT: u32 = 8192;

/// The thickness accumulator of a rib after `k` pixel steps: the starting
/// allowance plus `2*dx` per step plus `2*dy` per minor step taken.
pub open spec fn rib_tk(dx: int, dy: int, e0: int, init: int, k: int) -> int {
    init + 2 * dx * k + 2 * dy * digital_minor(dx, dy, e0, k)
}

/// Whether the rib walk still admits pixel `k` on a side whose pixel
/// budget is `side`: the accumulator, less the half-pixel allowance
/// `dx + dy`, must not have passed `2 * side` line lengths, compared in
/// squares to stay in integers.
pub open spec fn rib_admits(dx: int, dy: int, e0: int, init: int, side: int, k: int) -> bool {
    let u = rib_tk(dx, dy, e0, init, k) - (dx + dy);
    u <= 0 || u * u <= 4 * side * side * (dx * dx + dy * dy)
}

/// The `k`-th pixel of a phased digital walk from `center`, stepping by
/// `sa` each pixel and by `sb` on the minor steps that the phase `e0`
/// dictates: the shape of a rib, and of a parallel offset line.
pub open spec fn phased_pixel(
    center: Point,
    sa: Point,
    sb: Point,
    dx: int,
    dy: int,
    e0: int,
    k: int,
    c: Color,
) -> PixelWrite {
    PixelWrite {
        point: Point {
            x: (center.x + sa.x * k + sb.x * digital_minor(dx, dy, e0, k)) as i64,
            y: (center.y + sa.y * k + sb.y * digital_minor(dx, dy, e0, k)) as i64,
        },
        color: c,
    }
}

/// While a rib still admits pixel `k`, the accumulator is bounded by the
/// side's budget, and `k` itself is bounded.
proof fn lemma_rib_admits_bound(dx: int, dy: int, e0: int, init: int, side: int, k: int)
    requires
        1 <= dx <= 2 * COORD_LIMIT,
        0 <= dy <= dx,
        1 - dx <= e0 <= dx,
        -16 * COORD_LIMIT <= init,
        0 <= side <= WIDTH_LIMIT,
        0 <= k,
        rib_admits(dx, dy, e0, init, side, k),
    ensures
        rib_tk(dx, dy, e0, init, k) <= 540000000,
        2 * k <= 540100000,
{
    let m = digital_minor(dx, dy, e0, k);
    lemma_digital_minor_bounds(dx, dy, e0, k);
    let tk = rib_tk(dx, dy, e0, init, k);
    let u = tk - (dx + dy);
    assert(2 * dy * m >= 0) by (nonlinear_arith)
        requires
            dy >= 0,
            m >= 0,
    ;
    assert(2 * dx * k >= 2 * k) by (nonlinear_arith)
        requires
            dx >= 1,
            k >= 0,
    ;
    if u > 0 {
        assert(u <= 2 * side * (dx + dy)) by (nonlinear_arith)
            requires
                u >= 1,
                u * u <= 4 * side * side * (dx * dx + dy * dy),
                dx >= 0,
                dy >= 0,
                side >= 0,
        ;
        assert(2 * side * (dx + dy) <= 2 * 8192 * (4 * 8192)) by (nonlinear_arith)
            requires
                0 <= side <= 8192,
                0 <= dx + dy <= 4 * 8192,
        ;
    }
}

/// A rib with a zero pixel budget never admits its first step away from
/// the center, as long as the starting allowance has not been pushed
/// below the center (main ribs always start with `init >= dy`).
proof fn lemma_rib_zero_side(dx: int, dy: int, e0: int, init: int)
    requires
        1 <= dx,
        0 <= dy <= dx,
        1 - dx <= e0 <= dx,
        init >= dy,
    ensures
        !rib_admits(dx, dy, e0, init, 0, 1),
{
    let m = digital_minor(dx, dy, e0, 1);
    lemma_digital_minor_bounds(dx, dy, e0, 1);
    assert(2 * dy * m >= 0) by (nonlinear_arith)
        requires
            dy >= 0,
            m >= 0,
    ;
    let u = rib_tk(dx, dy, e0, init, 1) - (dx + dy);
    assert(u >= dx);
    assert(u * u >= 1) by (nonlinear_arith)
        requires
            u >= 1,
    ;
    assert(4 * 0 * 0 * (dx * dx + dy * dy) == 0) by (nonlinear_arith);
}

/// On a flat stroke (minor delta zero) the thickness budget admits a rib
/// pixel exactly up to the side's pixel budget: each side of an
/// axis-aligned line is extruded by precisely `side` pixels beyond the
/// centerline, no more and no fewer.
pub proof fn lemma_flat_rib_extent(dx: int, e0: int, side: int, k: int)
    requires
        1 <= dx,
        1 - dx <= e0 <= dx,
        0 <= side,
        0 <= k,
    ensures
        rib_admits(dx, 0, e0, dx, side, k) <==> k <= side,
{
    assert(2 * 0 * k == 0) by (nonlinear_arith);
    lemma_fundamental_div_mod_converse(e0 + dx - 1, 2 * dx, 0, e0 + dx - 1);
    assert(2 * 0 * digital_minor(dx, 0, e0, k) == 0) by (nonlinear_arith);
    let u = rib_tk(dx, 0, e0, dx, k) - (dx + 0);
    assert(u == 2 * dx * k);
    assert(2 * dx * k >= 2 * k) by (nonlinear_arith)
        requires
            dx >= 1,
            k >= 0,
    ;
    if k <= side {
        assert((2 * dx * k) * (2 * dx * k) <= 4 * side * side * (dx * dx + 0 * 0))
            by (nonlinear_arith)
            requires
                0 <= k <= side,
                dx >= 1,
        ;
    } else {
        assert((2 * dx * k) * (2 * dx * k) > 4 * side * side * (dx * dx + 0 * 0))
            by (nonlinear_arith)
            requires
                0 <= side < k,
                dx >= 1,
        ;
    }
}

/// The integer admission test of the rib walk: whether the accumulator
/// `tk`, less the allowance `span`, still lies within the squared budget
/// `wthr`.  Screens the difference before squaring so the square cannot
/// overflow; the screen is far above any value the squared comparison
/// could accept.
fn rib_admit_check(tk: i64, span: i64, wthr: i64) -> (r: bool)
    requires
        -16 * COORD_LIMIT <= tk <= 700000000,
        0 <= span <= 4 * COORD_LIMIT,
        0 <= wthr <= 145000000000000000,
    ensures
        r == ({
            let u = tk - span;
            u <= 0 || u * u <= wthr
        }),
{
    let u = tk - span;
    if u <= 0 {
        true
    } else if u > 8 * COORD_LIMIT * COORD_LIMIT {
        proof {
            assert(u * u > 145000000000000000int) by (nonlinear_arith)
                requires
                    u > 8 * 8192 * 8192,
            ;
        }
        false
    } else {
        proof {
            assert(0 <= u * u <= 540000000 * 540000000) by (nonlinear_arith)
                requires
                    0 <= u <= 8 * 8192 * 8192,
            ;
        }
        u * u <= wthr
    }
}

/// Whether a squared thickness accumulator is still within its budget;
/// screens the accumulator before squaring so the square cannot
/// overflow, the screen sitting far above any value the budget could
/// accept.
pub(crate) fn seed_budget_check(acc: i64, thr: i64) -> (r: bool)
    requires
        0 <= acc <= 700000000,
        0 <= thr <= 145000000000000000,
    ensures
        r == (acc * acc <= thr),
{
    if acc > 8 * COORD_LIMIT * COORD_LIMIT {
        proof {
            assert(acc * acc > 145000000000000000int) by (nonlinear_arith)
                requires
                    acc > 8 * 8192 * 8192,
            ;
        }
        false
    } else {
        proof {
            assert(0 <= acc * acc <= 540000000 * 540000000) by (nonlinear_arith)
                requires
                    0 <= acc <= 8 * 8192 * 8192,
            ;
        }
        acc * acc <= thr
    }
}

/// Walks one side of a perpendicular rib from `center`, stepping by `sa`
/// per pixel (with `sb` minor corrections phased by `e0`), writing every
/// admitted pixel in `color`; the center pixel itself is written
/// unconditionally unless `skip_center` says the other side already wrote
/// it.  Returns how many pixels were written: they are rib pixels
/// `k0 .. k0 + n` (`k0` is 1 when the center is skipped), every written
/// pixel past the center is admitted by the thickness budget, and the
/// first pixel past the written run is not.
fn rib_walk(
    center: Point,
    sa: Point,
    sb: Point,
    dx: i64,
    dy: i64,
    e0: i64,
    init: i64,
    side: i64,
    skip_center: bool,
    color: Color,
    out: &mut Vec<PixelWrite>,
) -> (n: usize)
    requires
        1 <= dx <= 2 * COORD_LIMIT,
        0 <= dy <= dx,
        1 - dx <= e0 <= dx,
        -16 * COORD_LIMIT <= init <= 16 * COORD_LIMIT,
        0 <= side <= WIDTH_LIMIT,
        -4 * COORD_LIMIT <= center.x <= 4 * COORD_LIMIT,
        -4 * COORD_LIMIT <= center.y <= 4 * COORD_LIMIT,
        -1 <= sa.x <= 1,
        -1 <= sa.y <= 1,
        -1 <= sb.x <= 1,
        -1 <= sb.y <= 1,
    ensures
        ({
            let k0: int = if skip_center {
                1
            } else {
                0
            };
            let fin = k0 + n;
            &&& final(out)@ == old(out)@ + Seq::new(
                n as nat,
                |j: int|
                    phased_pixel(center, sa, sb, dx as int, dy as int, e0 as int, k0 + j, color),
            )
            &&& forall|j: int|
                1 <= j < fin ==> rib_admits(
                    dx as int,
                    dy as int,
                    e0 as int,
                    init as int,
                    side as int,
                    j,
                )
            &&& !rib_admits(dx as int, dy as int, e0 as int, init as int, side as int, fin)
            &&& fin >= 1
        }),
        old(out)@.len() <= final(out)@.len(),
        forall|q: int| 0 <= q < old(out)@.len() ==> final(out)@[q] == old(out)@[q],
        forall|q: int|
            old(out)@.len() <= q < final(out)@.len() ==> final(out)@[q].color == color,
{
    let ghost pre = out@;
    let ghost k0: int = if skip_center {
        1
    } else {
        0
    };
    let threshold = dx - 2 * dy;
    let e_maj = 2 * dy;
    let e_min = -2 * dx;
    proof {
        assert(0 <= side * side <= 8192 * 8192) by (nonlinear_arith)
            requires
                0 <= side <= 8192,
        ;
        assert(0 <= dx * dx <= 16384 * 16384) by (nonlinear_arith)
            requires
                0 <= dx <= 16384,
        ;
        assert(0 <= dy * dy <= 16384 * 16384) by (nonlinear_arith)
            requires
                0 <= dy <= 16384,
        ;
    }
    let s2 = side * side;
    let d2 = dx * dx + dy * dy;
    proof {
        assert(0 <= 4 * s2 * d2 <= 145000000000000000int) by (nonlinear_arith)
            requires
                0 <= s2 <= 8192 * 8192,
                0 <= d2 <= 2 * 16384 * 16384,
        ;
    }
    let wthr = 4 * s2 * d2;
    proof {
        assert(wthr == 4 * side * side * (dx * dx + dy * dy)) by (nonlinear_arith)
            requires
                wthr == 4 * s2 * d2,
                s2 == side * side,
                d2 == dx * dx + dy * dy,
        ;
    }
    let span = dx + dy;
    let mut pos = center;
    let mut err = e0;
    let mut tk = init;
    let mut k: i64 = 0;
    let mut n: usize = 0;
    proof {
        lemma_digital_minor_zero(dx as int, dy as int, e0 as int);
        lemma_mul_zero(2 * (dy as int), digital_minor(dx as int, dy as int, e0 as int, 0));
        lemma_mul_zero(2 * (dx as int), 0);
        lemma_mul_zero(sa.x as int, 0);
        lemma_mul_zero(sa.y as int, 0);
        lemma_mul_zero(sb.x as int, digital_minor(dx as int, dy as int, e0 as int, 0));
        lemma_mul_zero(sb.y as int, digital_minor(dx as int, dy as int, e0 as int, 0));
    }
    if !skip_center {
        out.push(PixelWrite { point: pos, color });
        n = 1;
        proof {
            assert(out@ =~= pre + Seq::new(
                1,
                |j: int| phased_pixel(center, sa, sb, dx as int, dy as int, e0 as int, j, color),
            ));
        }
    }
    // Advance the walk from the center to rib pixel 1.
    proof {
        let m = digital_minor(dx as int, dy as int, e0 as int, 0);
        lemma_digital_minor_step(dx as int, dy as int, e0 as int, 0);
        lemma_digital_minor_bounds(dx as int, dy as int, e0 as int, 1);
        lemma_mul_succ(sa.x as int, 0);
        lemma_mul_succ(sa.y as int, 0);
        lemma_mul_succ(sb.x as int, m);
        lemma_mul_succ(sb.y as int, m);
        lemma_mul_succ(2 * (dy as int), m);
        lemma_mul_succ(2 * (dx as int), 0);
    }
    if err > threshold {
        pos = pos.add(sb);
        err = err + e_min;
        tk = tk + e_maj;
    }
    err = err + e_maj;
    pos = pos.add(sa);
    tk = tk + 2 * dx;
    k = 1;
    let mut cont = rib_admit_check(tk, span, wthr);
    while cont
        invariant
            1 <= dx <= 2 * COORD_LIMIT,
            0 <= dy <= dx,
            1 - dx <= e0 <= dx,
            -16 * COORD_LIMIT <= init <= 16 * COORD_LIMIT,
            0 <= side <= WIDTH_LIMIT,
            -4 * COORD_LIMIT <= center.x <= 4 * COORD_LIMIT,
            -4 * COORD_LIMIT <= center.y <= 4 * COORD_LIMIT,
            -1 <= sa.x <= 1,
            -1 <= sa.y <= 1,
            -1 <= sb.x <= 1,
            -1 <= sb.y <= 1,
            threshold == dx - 2 * dy,
            e_maj == 2 * dy,
            e_min == -2 * dx,
            span == dx + dy,
            wthr == 4 * side * side * (dx * dx + dy * dy),
            0 <= wthr <= 145000000000000000,
            k0 == if skip_center {
                1int
            } else {
                0int
            },
            1 <= k <= 280000000,
            k == k0 + n,
            -16 * COORD_LIMIT <= tk <= 600000000,
            err == stepper_error(dx as int, dy as int, e0 as int, k as int),
            tk == rib_tk(dx as int, dy as int, e0 as int, init as int, k as int),
            pos.x == center.x + sa.x * k + sb.x * digital_minor(
                dx as int,
                dy as int,
                e0 as int,
                k as int,
            ),
            pos.y == center.y + sa.y * k + sb.y * digital_minor(
                dx as int,
                dy as int,
                e0 as int,
                k as int,
            ),
            -700000000 <= pos.x <= 700000000,
            -700000000 <= pos.y <= 700000000,
            cont == rib_admits(dx as int, dy as int, e0 as int, init as int, side as int, k as int),
            out@ == pre + Seq::new(
                n as nat,
                |j: int|
                    phased_pixel(center, sa, sb, dx as int, dy as int, e0 as int, k0 + j, color),
            ),
            forall|j: int|
                1 <= j < k ==> rib_admits(
                    dx as int,
                    dy as int,
                    e0 as int,
                    init as int,
                    side as int,
                    j,
                ),
        decreases 600000002 - tk,
    {
        proof {
            let m = digital_minor(dx as int, dy as int, e0 as int, k as int);
            lemma_rib_admits_bound(
                dx as int,
                dy as int,
                e0 as int,
                init as int,
                side as int,
                k as int,
            );
            lemma_digital_minor_bounds(dx as int, dy as int, e0 as int, k as int);
            lemma_digital_minor_step(dx as int, dy as int, e0 as int, k as int);
            lemma_digital_minor_bounds(dx as int, dy as int, e0 as int, k as int + 1);
            lemma_mul_unit_bound(sa.x as int, k as int);
            lemma_mul_unit_bound(sa.y as int, k as int);
            lemma_mul_unit_bound(sb.x as int, m);
            lemma_mul_unit_bound(sb.y as int, m);
            lemma_mul_succ(sa.x as int, k as int);
            lemma_mul_succ(sa.y as int, k as int);
            lemma_mul_succ(sb.x as int, m);
            lemma_mul_succ(sb.y as int, m);
            lemma_mul_succ(2 * (dy as int), m);
            lemma_mul_succ(2 * (dx as int), k as int);
            assert(2 * dy * m >= 0) by (nonlinear_arith)
                requires
                    dy >= 0,
                    m >= 0,
            ;
            assert(2 * (dx as int) * (k as int) >= 2 * (k as int)) by (nonlinear_arith)
                requires
                    dx >= 1,
                    k >= 0,
            ;
        }
        out.push(PixelWrite { point: pos, color });
        proof {
            assert(out@ =~= pre + Seq::new(
                (n + 1) as nat,
                |j: int|
                    phased_pixel(center, sa, sb, dx as int, dy as int, e0 as int, k0 + j, color),
            ));
        }
        n = n + 1;
        if err > threshold {
            pos = pos.add(sb);
            err = err + e_min;
            tk = tk + e_maj;
        }
        err = err + e_maj;
        pos = pos.add(sa);
        tk = tk + 2 * dx;
        k = k + 1;
        cont = rib_admit_check(tk, span, wthr);
    }
    n
}

/// Clamps a mirrored stepper phase back into the resting range
/// `1-dx ..= dx`; mirroring an error value can land exactly one unit
/// below it, which would shift the whole closed form.
pub(crate) fn clamp_phase(e: i64, dx: i64) -> (r: i64)
    requires
        1 <= dx,
        -dx <= e <= dx,
    ensures
        1 - dx <= r <= dx,
        r == if e < 1 - dx {
            1 - dx
        } else {
            e as int
        },
{
    if e < 1 - dx {
        1 - dx
    } else {
        e
    }
}

/// Draws a stroke of the given width along the digital line from `start`
/// to `end` by perpendicular extrusion, appending one write per pixel to
/// `out`.
///
/// Width 0 draws nothing; width 1 appends exactly the centerline, in
/// order; any positive width writes every centerline pixel (among others)
/// and nothing in any color but `color`.  For even widths the extra pixel
/// run goes to the side opposite the perpendicular step direction.
#[verifier::rlimit(100)]
pub fn draw_line(start: Point, end: Point, width: u32, color: Color, out: &mut Vec<PixelWrite>)
    requires
        point_in_range(start),
        point_in_range(end),
        width <= WIDTH_LIMIT,
    ensures
        old(out)@.len() <= final(out)@.len(),
        forall|q: int| 0 <= q < old(out)@.len() ==> final(out)@[q] == old(out)@[q],
        width == 0 ==> final(out)@ == old(out)@,
        forall|q: int|
            old(out)@.len() <= q < final(out)@.len() ==> final(out)@[q].color == color,
        width >= 1 ==> forall|j: int|
            0 <= j < major_len(start, end) ==> writes_contain(
                final(out)@.skip(old(out)@.len() as int),
                line_point(start, end, j),
                color,
            ),
        width == 1 ==> final(out)@ == old(out)@ + pixel_seq(line_seq(start, end), color),
{
    let ghost orig = out@;
    if width == 0 {
        return ;
    }
    if start.x == end.x && start.y == end.y {
        out.push(PixelWrite { point: start, color });
        proof {
            assert(line_seq(start, end) =~= seq![start]);
            assert(out@ =~= orig + pixel_seq(line_seq(start, end), color));
            assert(out@.skip(orig.len() as int)[0] == (PixelWrite { point: start, color }));
        }
        return ;
    }
    let d = decompose(start, end);
    let dx = abs_i64(d.delta.major);
    let dy = abs_i64(d.delta.minor);
    let threshold = dx - 2 * dy;
    let e_maj = 2 * dy;
    let e_min = -2 * dx;
    // Orientation of the perpendicular steps relative to the line's own
    // steps; derived algebraically as the cross product of the two unit
    // steps rather than from a table of octants.
    let sign = d.pstep.major.determinant(d.pstep.minor);
    proof {
        assert(sign == 1 || sign == -1) by (nonlinear_arith)
            requires
                sign == d.pstep.major.x * d.pstep.minor.y - d.pstep.major.y * d.pstep.minor.x,
                (d.pstep.major.x == 1 || d.pstep.major.x == -1) && d.pstep.minor.x == 0
                    && (d.pstep.minor.y == 1 || d.pstep.minor.y == -1) && d.pstep.major.y == 0
                    || (d.pstep.major.y == 1 || d.pstep.major.y == -1) && d.pstep.minor.y == 0 && (
                d.pstep.minor.x == 1 || d.pstep.minor.x == -1) && d.pstep.major.x == 0,
        ;
    }
    // Right-side bias: the side walked with the negated perpendicular
    // step gets the extra pixel run of an even width.
    let wleft = ((width - 1) / 2) as i64;
    let wright = (width - 1) as i64 - wleft;
    let rsa = d.pstep.minor.neg();
    let rsb = d.pstep.major.neg();
    let mut point = start;
    let mut error: i64 = 0;
    let mut p_error: i64 = 0;
    let mut i: i64 = 0;
    proof {
        lemma_digital_minor_zero(dx as int, dy as int, 0);
        lemma_mul_zero(d.step.major.x as int, 0);
        lemma_mul_zero(d.step.major.y as int, 0);
        lemma_mul_zero(d.step.minor.x as int, digital_minor(dx as int, dy as int, 0, 0));
        lemma_mul_zero(d.step.minor.y as int, digital_minor(dx as int, dy as int, 0, 0));
    }
    while i <= dx
        invariant
            point_in_range(start),
            point_in_range(end),
            !(start.x == end.x && start.y == end.y),
            decomposition_of(start, end, d),
            dx == abs(d.delta.major as int),
            dy == abs(d.delta.minor as int),
            1 <= dx <= 2 * COORD_LIMIT,
            0 <= dy <= dx,
            threshold == dx - 2 * dy,
            e_maj == 2 * dy,
            e_min == -2 * dx,
            sign == 1 || sign == -1,
            1 <= width <= WIDTH_LIMIT,
            0 <= wleft <= wright,
            wleft + wright == width - 1,
            width == 1 ==> wleft == 0 && wright == 0,
            rsa.x == -d.pstep.minor.x,
            rsa.y == -d.pstep.minor.y,
            rsb.x == -d.pstep.major.x,
            rsb.y == -d.pstep.major.y,
            0 <= i <= dx + 1,
            point.x == start.x + d.step.major.x * i + d.step.minor.x * digital_minor(
                dx as int,
                dy as int,
                0,
                i as int,
            ),
            point.y == start.y + d.step.major.y * i + d.step.minor.y * digital_minor(
                dx as int,
                dy as int,
                0,
                i as int,
            ),
            -3 * COORD_LIMIT - 1 <= point.x <= 3 * COORD_LIMIT + 1,
            -3 * COORD_LIMIT - 1 <= point.y <= 3 * COORD_LIMIT + 1,
            error == stepper_error(dx as int, dy as int, 0, i as int),
            p_error == stepper_error(
                dx as int,
                dy as int,
                0,
                digital_minor(dx as int, dy as int, 0, i as int),
            ),
            orig.len() <= out@.len(),
            forall|q: int| 0 <= q < orig.len() ==> out@[q] == orig[q],
            forall|q: int| orig.len() <= q < out@.len() ==> out@[q].color == color,
            forall|j: int|
                0 <= j < i ==> writes_contain(
                    out@.skip(orig.len() as int),
                    line_point(start, end, j),
                    color,
                ),
            width == 1 ==> out@ == orig + pixel_seq(
                line_seq(start, end).take(i as int),
                color,
            ),
        decreases dx + 1 - i,
    {
        proof {
            let m = digital_minor(dx as int, dy as int, 0, i as int);
            lemma_digital_minor_bounds(dx as int, dy as int, 0, i as int);
            lemma_digital_minor_bounds(dx as int, dy as int, 0, m);
            lemma_mul_pm(sign as int, error as int);
            lemma_mul_pm(sign as int, p_error as int);
            lemma_mul_unit_bound(d.step.major.x as int, i as int);
            lemma_mul_unit_bound(d.step.major.y as int, i as int);
            lemma_mul_unit_bound(d.step.minor.x as int, m);
            lemma_mul_unit_bound(d.step.minor.y as int, m);
        }
        let e0l = clamp_phase(p_error * sign, dx);
        let initl = dx + dy - error * sign;
        let e0r = clamp_phase(-(p_error * sign), dx);
        let initr = dx + dy + error * sign;
        let ghost snap0 = out@;
        rib_walk(point, d.pstep.minor, d.pstep.major, dx, dy, e0l, initl, wleft, false, color, out);
        let ghost snap1 = out@;
        proof {
            // The first write of the left rib is the centerline sample
            // itself.
            lemma_digital_minor_zero(dx as int, dy as int, e0l as int);
            lemma_mul_zero(d.pstep.minor.x as int, 0);
            lemma_mul_zero(d.pstep.minor.y as int, 0);
            lemma_mul_zero(
                d.pstep.major.x as int,
                digital_minor(dx as int, dy as int, e0l as int, 0),
            );
            lemma_mul_zero(
                d.pstep.major.y as int,
                digital_minor(dx as int, dy as int, e0l as int, 0),
            );
            assert(snap1.skip(orig.len() as int)[snap0.len() - orig.len()] == (PixelWrite {
                point,
                color,
            }));
            assert(writes_contain(snap1.skip(orig.len() as int), point, color));
        }
        rib_walk(point, rsa, rsb, dx, dy, e0r, initr, wright, true, color, out);
        let ghost iold = i;
        let ghost center0 = point;
        if error > threshold {
            point = point.add(d.step.minor);
            error = error + e_min;
            if p_error > threshold {
                if width > 1 {
                    let e0c = p_error + e_min + e_maj;
                    proof {
                        lemma_mul_pm(sign as int, e0c as int);
                        lemma_mul_pm(sign as int, error as int);
                    }
                    let e0cl = clamp_phase(e0c * sign, dx);
                    let initcl = dx + dy - error * sign;
                    let e0cr = clamp_phase(-(e0c * sign), dx);
                    let initcr = dx + dy + error * sign;
                    rib_walk(
                        point,
                        d.pstep.minor,
                        d.pstep.major,
                        dx,
                        dy,
                        e0cl,
                        initcl,
                        wleft,
                        false,
                        color,
                        out,
                    );
                    rib_walk(point, rsa, rsb, dx, dy, e0cr, initcr, wright, true, color, out);
                }
                p_error = p_error + e_min;
            }
            p_error = p_error + e_maj;
        }
        proof {
            let m = digital_minor(dx as int, dy as int, 0, iold as int);
            lemma_digital_minor_step(dx as int, dy as int, 0, iold as int);
            lemma_digital_minor_bounds(dx as int, dy as int, 0, iold as int + 1);
            lemma_digital_minor_step(dx as int, dy as int, 0, m);
            lemma_mul_succ(d.step.major.x as int, iold as int);
            lemma_mul_succ(d.step.major.y as int, iold as int);
            lemma_mul_succ(d.step.minor.x as int, m);
            lemma_mul_succ(d.step.minor.y as int, m);
            assert forall|j: int|
                0 <= j <= iold implies writes_contain(
                out@.skip(orig.len() as int),
                line_point(start, end, j),
                color,
            ) by {
                if j == iold {
                    assert(center0 == line_point(start, end, j));
                    lemma_writes_contain_stable(
                        snap1.skip(orig.len() as int),
                        out@.skip(orig.len() as int),
                        line_point(start, end, j),
                        color,
                    );
                } else {
                    lemma_writes_contain_stable(
                        snap0.skip(orig.len() as int),
                        out@.skip(orig.len() as int),
                        line_point(start, end, j),
                        color,
                    );
                }
            }
            if width == 1 {
                lemma_rib_zero_side(dx as int, dy as int, e0l as int, initl as int);
                lemma_rib_zero_side(dx as int, dy as int, e0r as int, initr as int);
                assert(out@ =~= orig + pixel_seq(
                    line_seq(start, end).take(iold as int + 1),
                    color,
                ));
            }
        }
        error = error + e_maj;
        point = point.add(d.step.major);
        i = i + 1;
    }
    proof {
        if width == 1 {
            assert(line_seq(start, end).take((dx + 1) as int) =~= line_seq(start, end));
        }
    }
}

/// Draws a connected stroke through the given vertices: one thick
/// segment per consecutive pair, all in one color.  An arc is drawn by
/// discretizing it into short chords and handing the chain here; the
/// stroking itself is not a separate algorithm.
pub fn draw_polyline(points: &Vec<Point>, width: u32, color: Color, out: &mut Vec<PixelWrite>)
    requires
        width <= WIDTH_LIMIT,
        forall|i: int| 0 <= i < points@.len() ==> point_in_range(#[trigger] points@[i]),
    ensures
        old(out)@.len() <= final(out)@.len(),
        forall|q: int| 0 <= q < old(out)@.len() ==> final(out)@[q] == old(out)@[q],
        width == 0 ==> final(out)@ == old(out)@,
        forall|q: int|
            old(out)@.len() <= q < final(out)@.len() ==> final(out)@[q].color == color,
        width >= 1 ==> forall|s: int, j: int|
            0 <= s < points@.len() - 1 && 0 <= j < major_len(points@[s], points@[s + 1])
                ==> writes_contain(
                final(out)@.skip(old(out)@.len() as int),
                #[trigger] line_point(points@[s], points@[s + 1], j),
                color,
            ),
{
    let ghost orig = out@;
    if points.len() == 0 {
        return ;
    }
    let mut s: usize = 0;
    while s < points.len() - 1
        invariant
            width <= WIDTH_LIMIT,
            forall|i: int| 0 <= i < points@.len() ==> point_in_range(#[trigger] points@[i]),
            points@.len() >= 1,
            0 <= s <= points@.len() - 1,
            orig.len() <= out@.len(),
            forall|q: int| 0 <= q < orig.len() ==> out@[q] == orig[q],
            forall|q: int| orig.len() <= q < out@.len() ==> out@[q].color == color,
            width == 0 ==> out@ == orig,
            width >= 1 ==> forall|t: int, j: int|
                0 <= t < s && 0 <= j < major_len(points@[t], points@[t + 1]) ==> writes_contain(
                    out@.skip(orig.len() as int),
                    #[trigger] line_point(points@[t], points@[t + 1], j),
                    color,
                ),
        decreases points@.len() - s,
    {
        let ghost snap = out@;
        let a = points[s];
        let b = points[s + 1];
        draw_line(a, b, width, color, out);
        proof {
            if width >= 1 {
                assert forall|t: int, j: int|
                    0 <= t < s + 1 && 0 <= j < major_len(points@[t], points@[t + 1])
                        implies writes_contain(
                    out@.skip(orig.len() as int),
                    #[trigger] line_point(points@[t], points@[t + 1], j),
                    color,
                ) by {
                    if t < s {
                        lemma_writes_contain_stable(
                            snap.skip(orig.len() as int),
                            out@.skip(orig.len() as int),
                            line_point(points@[t], points@[t + 1], j),
                            color,
                        );
                    } else {
                        lemma_writes_contain_skip(
                            out@,
                            orig.len() as int,
                            snap.len() as int,
                            line_point(points@[t], points@[t + 1], j),
                            color,
                        );
                    }
                }
            }
        }
        s = s + 1;
    }
}

} // verus!
