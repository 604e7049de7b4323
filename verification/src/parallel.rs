//! Thick-line rasterizer by parallel offsets: instead of extruding a
//! perpendicular rib at every centerline sample, walk two synchronized
//! steppers along the perpendicular "seed" line, one to each side of the
//! centerline, and draw a whole parallel line at every seed step.  A
//! shared thickness accumulator grows with every seed step and both
//! walkers stop when its square leaves the width-derived budget.
//!
//! The phase of each parallel line comes from the seed walker's own
//! error accumulator, mirrored by a flip sign that is derived
//! algebraically: the relationship between the seed line's minor step
//! and the parallel line's major step reverses in half of the octants,
//! so the flip is exactly whether those two unit vectors are opposite.

use vstd::prelude::*;
use vstd::math::abs;
use crate::geometry::{
    Point, Color, PixelWrite, point_in_range, pixel_seq, writes_contain, COORD_LIMIT,
};
use crate::stepper::{
    digital_minor, stepper_error, lemma_digital_minor_zero, lemma_digital_minor_bounds,
    lemma_digital_minor_step, lemma_mul_zero, lemma_mul_succ, lemma_mul_unit_bound, lemma_mul_pm,
    lemma_mul_zero_any, abs_i64, decompose, decomposition_of, Decomposition, line_point, line_seq,
    major_len,
};
use crate::thick::{phased_pixel, clamp_phase, WIDTH_LIMIT};

verus! {

/// Walks the digital line of the decomposition `(dx, dy)` from `start`
/// with the steps `sa` (major) and `sb` (minor), phased by `e0`, and
/// writes its pixels `k0 .. k0 + n` in `color`: the whole line when
/// `skip_first` is false and `shorten` zero; `skip_first` drops the
/// first pixel and `shorten` drops one from the end, which the caller
/// uses to keep the extra lines of a seed minor step inside the stroke.
fn parallel_line(
    start: Point,
    sa: Point,
    sb: Point,
    dx: i64,
    dy: i64,
    e0: i64,
    skip_first: bool,
    shorten: bool,
    color: Color,
    out: &mut Vec<PixelWrite>,
) -> (n: usize)
    requires
        1 <= dx <= 2 * COORD_LIMIT,
        0 <= dy <= dx,
        1 - dx <= e0 <= dx,
        -1000000000 <= start.x <= 1000000000,
        -1000000000 <= start.y <= 1000000000,
        -1 <= sa.x <= 1,
        -1 <= sa.y <= 1,
        -1 <= sb.x <= 1,
        -1 <= sb.y <= 1,
    ensures
        ({
            let k0: int = if skip_first {
                1
            } else {
                0
            };
            let fin: int = if shorten {
                dx as int
            } else {
                dx as int + 1
            };
            &&& n == fin - k0
            &&& final(out)@ == old(out)@ + Seq::new(
                n as nat,
                |j: int|
                    phased_pixel(start, sa, sb, dx as int, dy as int, e0 as int, k0 + j, color),
            )
        }),
        old(out)@.len() <= final(out)@.len(),
        forall|q: int| 0 <= q < old(out)@.len() ==> final(out)@[q] == old(out)@[q],
        forall|q: int|
            old(out)@.len() <= q < final(out)@.len() ==> final(out)@[q].color == color,
{
    let ghost pre = out@;
    let ghost k0: int = if skip_first {
        1
    } else {
        0
    };
    let threshold = dx - 2 * dy;
    let e_maj = 2 * dy;
    let e_min = -2 * dx;
    let fin: i64 = if shorten {
        dx
    } else {
        dx + 1
    };
    let mut pos = start;
    let mut err = e0;
    let mut k: i64 = 0;
    let mut n: usize = 0;
    proof {
        lemma_digital_minor_zero(dx as int, dy as int, e0 as int);
        lemma_mul_zero(sa.x as int, 0);
        lemma_mul_zero(sa.y as int, 0);
        lemma_mul_zero(sb.x as int, digital_minor(dx as int, dy as int, e0 as int, 0));
        lemma_mul_zero(sb.y as int, digital_minor(dx as int, dy as int, e0 as int, 0));
    }
    if skip_first {
        proof {
            let m = digital_minor(dx as int, dy as int, e0 as int, 0);
            lemma_digital_minor_step(dx as int, dy as int, e0 as int, 0);
            lemma_digital_minor_bounds(dx as int, dy as int, e0 as int, 1);
            lemma_mul_succ(sa.x as int, 0);
            lemma_mul_succ(sa.y as int, 0);
            lemma_mul_succ(sb.x as int, m);
            lemma_mul_succ(sb.y as int, m);
        }
        if err > threshold {
            pos = pos.add(sb);
            err = err + e_min;
        }
        err = err + e_maj;
        pos = pos.add(sa);
        k = 1;
    }
    while k < fin
        invariant
            1 <= dx <= 2 * COORD_LIMIT,
            0 <= dy <= dx,
            1 - dx <= e0 <= dx,
            -1000000000 <= start.x <= 1000000000,
            -1000000000 <= start.y <= 1000000000,
            -1 <= sa.x <= 1,
            -1 <= sa.y <= 1,
            -1 <= sb.x <= 1,
            -1 <= sb.y <= 1,
            threshold == dx - 2 * dy,
            e_maj == 2 * dy,
            e_min == -2 * dx,
            k0 == if skip_first {
                1int
            } else {
                0int
            },
            fin == if shorten {
                dx as int
            } else {
                dx as int + 1
            },
            k0 <= k <= if fin >= k0 {
                fin as int
            } else {
                k0
            },
            n == k - k0,
            err == stepper_error(dx as int, dy as int, e0 as int, k as int),
            pos.x == start.x + sa.x * k + sb.x * digital_minor(
                dx as int,
                dy as int,
                e0 as int,
                k as int,
            ),
            pos.y == start.y + sa.y * k + sb.y * digital_minor(
                dx as int,
                dy as int,
                e0 as int,
                k as int,
            ),
            out@ == pre + Seq::new(
                n as nat,
                |j: int|
                    phased_pixel(start, sa, sb, dx as int, dy as int, e0 as int, k0 + j, color),
            ),
        decreases fin - k,
    {
        proof {
            let m = digital_minor(dx as int, dy as int, e0 as int, k as int);
            lemma_digital_minor_bounds(dx as int, dy as int, e0 as int, k as int);
            lemma_digital_minor_step(dx as int, dy as int, e0 as int, k as int);
            lemma_digital_minor_bounds(dx as int, dy as int, e0 as int, k as int + 1);
            lemma_mul_unit_bound(sa.x as int, k as int);
            lemma_mul_unit_bound(sa.y as int, k as int);
            lemma_mul_unit_bound(sb.x as int, m);
            lemma_mul_unit_bound(sb.y as int, m);
            lemma_mul_succ(sa.x as int, k as int);
            lemma_mul_succ(sa.y as int, k as int);
            lemma_mul_succ(sb.x as int, m);
            lemma_mul_succ(sb.y as int, m);
        }
        out.push(PixelWrite { point: pos, color });
        proof {
            assert(out@ =~= pre + Seq::new(
                (n + 1) as nat,
                |j: int|
                    phased_pixel(start, sa, sb, dx as int, dy as int, e0 as int, k0 + j, color),
            ));
        }
        n = n + 1;
        if err > threshold {
            pos = pos.add(sb);
            err = err + e_min;
        }
        err = err + e_maj;
        pos = pos.add(sa);
        k = k + 1;
    }
    n
}

/// The phased walk with the stroke's own step vectors and phase zero is
/// the centerline: pixel by pixel it writes exactly the digital line.
proof fn lemma_centerline_pixels(start: Point, end: Point, d: Decomposition, dx: int, dy: int, color: Color)
    requires
        point_in_range(start),
        point_in_range(end),
        !(start.x == end.x && start.y == end.y),
        decomposition_of(start, end, d),
        dx == abs(d.delta.major as int),
        dy == abs(d.delta.minor as int),
        1 <= dx <= 2 * COORD_LIMIT,
        0 <= dy <= dx,
    ensures
        forall|j: int|
            0 <= j < major_len(start, end) ==> phased_pixel(
                start,
                d.step.major,
                d.step.minor,
                dx,
                dy,
                0,
                j,
                color,
            ) == (PixelWrite { point: line_point(start, end, j), color }),
{
    assert forall|j: int| 0 <= j < major_len(start, end) implies phased_pixel(
        start,
        d.step.major,
        d.step.minor,
        dx,
        dy,
        0,
        j,
        color,
    ) == (PixelWrite { point: line_point(start, end, j), color }) by {
        let m = digital_minor(dx, dy, 0, j);
        lemma_digital_minor_bounds(dx, dy, 0, j);
        lemma_mul_unit_bound(d.step.major.x as int, j);
        lemma_mul_unit_bound(d.step.major.y as int, j);
        lemma_mul_unit_bound(d.step.minor.x as int, m);
        lemma_mul_unit_bound(d.step.minor.y as int, m);
        lemma_mul_zero_any(d.step.major.x as int, j);
        lemma_mul_zero_any(d.step.major.y as int, j);
        lemma_mul_zero_any(d.step.minor.x as int, m);
        lemma_mul_zero_any(d.step.minor.y as int, m);
    }
}

/// The phase a side walker hands to its parallel lines: its own
/// parallel error, mirrored by the side's flip sign and clamped into
/// the stepper's resting range.
pub open spec fn side_phase(perr: int, flip_side: int, dx: int) -> int {
    let e = perr * flip_side;
    if e < 1 - dx {
        1 - dx
    } else {
        e
    }
}

/// One step of one offset walker: draws the parallel line at the
/// walker's position, phased by its mirrored parallel error, advances
/// the walker one seed step (drawing the gated extra line on a seed
/// minor step), and grows the shared thickness accumulator.
#[verifier::rlimit(100)]
fn offset_side_step(
    anchor: Point,
    wmaj: Point,
    wmin: Point,
    lmaj: Point,
    lmin: Point,
    dx: i64,
    dy: i64,
    e0w: i64,
    flip_side: i64,
    thr: i64,
    pos: &mut Point,
    serr: &mut i64,
    perr: &mut i64,
    acc: &mut i64,
    Ghost(idx): Ghost<int>,
    color: Color,
    out: &mut Vec<PixelWrite>,
)
    requires
        1 <= dx <= 2 * COORD_LIMIT,
        0 <= dy <= dx,
        0 <= e0w <= dx,
        flip_side == 1 || flip_side == -1,
        0 <= thr <= 145000000000000000,
        -1 <= wmaj.x <= 1,
        -1 <= wmaj.y <= 1,
        -1 <= wmin.x <= 1,
        -1 <= wmin.y <= 1,
        -1 <= lmaj.x <= 1,
        -1 <= lmaj.y <= 1,
        -1 <= lmin.x <= 1,
        -1 <= lmin.y <= 1,
        0 <= idx <= 210000000,
        -2 * COORD_LIMIT <= anchor.x <= 2 * COORD_LIMIT,
        -2 * COORD_LIMIT <= anchor.y <= 2 * COORD_LIMIT,
        old(pos).x == anchor.x + wmaj.x * idx + wmin.x * digital_minor(
            dx as int,
            dy as int,
            e0w as int,
            idx,
        ),
        old(pos).y == anchor.y + wmaj.y * idx + wmin.y * digital_minor(
            dx as int,
            dy as int,
            e0w as int,
            idx,
        ),
        *old(serr) == stepper_error(dx as int, dy as int, e0w as int, idx),
        *old(perr) == stepper_error(
            dx as int,
            dy as int,
            0,
            digital_minor(dx as int, dy as int, e0w as int, idx),
        ),
        2 <= *old(acc) <= 410000000,
    ensures
        ({
            let m0 = digital_minor(dx as int, dy as int, e0w as int, idx);
            let m1 = digital_minor(dx as int, dy as int, e0w as int, idx + 1);
            &&& final(pos).x == anchor.x + wmaj.x * (idx + 1) + wmin.x * m1
            &&& final(pos).y == anchor.y + wmaj.y * (idx + 1) + wmin.y * m1
            &&& *final(serr) == stepper_error(dx as int, dy as int, e0w as int, idx + 1)
            &&& *final(perr) == stepper_error(dx as int, dy as int, 0, m1)
            &&& *final(acc) == *old(acc) + 2 * dx + 2 * dy * (m1 - m0)
            &&& *old(acc) + 2 * dx <= *final(acc) <= *old(acc) + 2 * dx + 2 * dy
        }),
        old(out)@.len() <= final(out)@.len(),
        forall|q: int| 0 <= q < old(out)@.len() ==> final(out)@[q] == old(out)@[q],
        forall|q: int|
            old(out)@.len() <= q < final(out)@.len() ==> final(out)@[q].color == color,
        final(out)@.len() >= old(out)@.len() + dx + 1,
        forall|j: int|
            0 <= j < dx + 1 ==> final(out)@[old(out)@.len() + j] == phased_pixel(
                *old(pos),
                lmaj,
                lmin,
                dx as int,
                dy as int,
                side_phase(*old(perr) as int, flip_side as int, dx as int),
                j,
                color,
            ),
        (*old(acc) + 2 * dy) * (*old(acc) + 2 * dy) > thr ==> final(out)@.len() == old(
            out,
        )@.len() + dx + 1,
        *old(serr) <= dx - 2 * dy ==> final(out)@.len() == old(out)@.len() + dx + 1,
{
    let threshold = dx - 2 * dy;
    let e_maj = 2 * dy;
    let e_min = -(2 * dx);
    proof {
        let m0 = digital_minor(dx as int, dy as int, e0w as int, idx);
        lemma_digital_minor_bounds(dx as int, dy as int, e0w as int, idx);
        lemma_digital_minor_bounds(dx as int, dy as int, 0, m0);
        lemma_mul_pm(flip_side as int, *perr as int);
        lemma_mul_unit_bound(wmaj.x as int, idx);
        lemma_mul_unit_bound(wmaj.y as int, idx);
        lemma_mul_unit_bound(wmin.x as int, m0);
        lemma_mul_unit_bound(wmin.y as int, m0);
    }
    let e0p = clamp_phase(*perr * flip_side, dx);
    parallel_line(*pos, lmaj, lmin, dx, dy, e0p, false, false, color, out);
    if *serr > threshold {
        *pos = pos.add(wmin);
        *serr = *serr + e_min;
        *acc = *acc + e_maj;
        proof {
            let m0 = digital_minor(dx as int, dy as int, e0w as int, idx);
            let m1 = digital_minor(dx as int, dy as int, e0w as int, idx + 1);
            lemma_digital_minor_step(dx as int, dy as int, e0w as int, idx);
            lemma_digital_minor_bounds(dx as int, dy as int, e0w as int, idx + 1);
            lemma_digital_minor_step(dx as int, dy as int, 0, m0);
            lemma_mul_succ(wmin.x as int, m0);
            lemma_mul_succ(wmin.y as int, m0);
            assert(2 * (dy as int) * (m1 - m0) == 2 * (dy as int)) by (nonlinear_arith)
                requires
                    m1 - m0 == 1,
            ;
        }
        if *perr > threshold {
            let extra_ok = crate::thick::seed_budget_check(*acc, thr);
            if extra_ok {
                proof {
                    lemma_mul_pm(flip_side as int, (*perr + e_min + e_maj) as int);
                }
                let e0x = clamp_phase((*perr + e_min + e_maj) * flip_side, dx);
                let skip = flip_side == -1;
                parallel_line(*pos, lmaj, lmin, dx, dy, e0x, skip, !skip, color, out);
            }
            *perr = *perr + e_min;
        }
        *perr = *perr + e_maj;
    } else {
        proof {
            let m0 = digital_minor(dx as int, dy as int, e0w as int, idx);
            let m1 = digital_minor(dx as int, dy as int, e0w as int, idx + 1);
            lemma_digital_minor_step(dx as int, dy as int, e0w as int, idx);
            lemma_digital_minor_step(dx as int, dy as int, 0, m0);
            assert(2 * (dy as int) * (m1 - m0) == 0) by (nonlinear_arith)
                requires
                    m1 == m0,
            ;
        }
    }
    *pos = pos.add(wmaj);
    *serr = *serr + e_maj;
    *acc = *acc + 2 * dx;
    proof {
        lemma_mul_succ(wmaj.x as int, idx);
        lemma_mul_succ(wmaj.y as int, idx);
    }
}

/// After the very first side step, the buffer holds exactly the
/// centerline of the stroke, pixel by pixel, behind whatever it held
/// before.
proof fn lemma_first_iteration(
    start: Point,
    end: Point,
    d: Decomposition,
    dx: int,
    dy: int,
    phase: int,
    orig: Seq<PixelWrite>,
    cur: Seq<PixelWrite>,
    exact: bool,
    color: Color,
)
    requires
        point_in_range(start),
        point_in_range(end),
        !(start.x == end.x && start.y == end.y),
        decomposition_of(start, end, d),
        dx == abs(d.delta.major as int),
        dy == abs(d.delta.minor as int),
        1 <= dx <= 2 * COORD_LIMIT,
        0 <= dy <= dx,
        phase == 0,
        cur.len() >= orig.len() + dx + 1,
        forall|j: int|
            0 <= j < dx + 1 ==> cur[orig.len() + j] == phased_pixel(
                start,
                d.step.major,
                d.step.minor,
                dx,
                dy,
                phase,
                j,
                color,
            ),
        exact ==> cur.len() == orig.len() + dx + 1,
        forall|q: int| 0 <= q < orig.len() ==> cur[q] == orig[q],
    ensures
        cur.len() >= orig.len() + major_len(start, end),
        forall|j: int|
            0 <= j < major_len(start, end) ==> cur[orig.len() + j] == (PixelWrite {
                point: line_point(start, end, j),
                color,
            }),
        exact ==> cur == orig + pixel_seq(line_seq(start, end), color),
{
    lemma_centerline_pixels(start, end, d, dx, dy, color);
    assert forall|j: int| 0 <= j < major_len(start, end) implies cur[orig.len() + j]
        == (PixelWrite { point: line_point(start, end, j), color }) by {
        assert(cur[orig.len() + j] == phased_pixel(
            start,
            d.step.major,
            d.step.minor,
            dx,
            dy,
            phase,
            j,
            color,
        ));
    }
    if exact {
        assert(cur =~= orig + pixel_seq(line_seq(start, end), color));
    }
}

/// Draws a stroke of the given width along the digital line from `start`
/// to `end` with the parallel-offset strategy, appending one write per
/// pixel to `out`.
///
/// Width 0 draws nothing; width 1 appends exactly the centerline, in
/// order; any positive width writes every centerline pixel (among
/// others) and nothing in any color but `color`.  The pre-offset walker
/// on the negated perpendicular side receives the extra line of an even
/// width.
#[verifier::rlimit(100)]
pub fn draw_line_parallel(
    start: Point,
    end: Point,
    width: u32,
    color: Color,
    out: &mut Vec<PixelWrite>,
)
    requires
        point_in_range(start),
        point_in_range(end),
        width <= WIDTH_LIMIT,
    ensures
        old(out)@.len() <= final(out)@.len(),
        forall|q: int| 0 <= q < old(out)@.len() ==> final(out)@[q] == old(out)@[q],
        width == 0 ==> final(out)@ == old(out)@,
        forall|q: int|
            old(out)@.len() <= q < final(out)@.len() ==> final(out)@[q].color == color,
        width >= 1 ==> forall|j: int|
            0 <= j < major_len(start, end) ==> writes_contain(
                final(out)@.skip(old(out)@.len() as int),
                line_point(start, end, j),
                color,
            ),
        width == 1 ==> final(out)@ == old(out)@ + pixel_seq(line_seq(start, end), color),
{
    let ghost orig = out@;
    if width == 0 {
        return ;
    }
    if start.x == end.x && start.y == end.y {
        out.push(PixelWrite { point: start, color });
        proof {
            assert(line_seq(start, end) =~= seq![start]);
            assert(out@ =~= orig + pixel_seq(line_seq(start, end), color));
            assert(out@.skip(orig.len() as int)[0] == (PixelWrite { point: start, color }));
        }
        return ;
    }
    let d = decompose(start, end);
    // The seed line: the perpendicular of the stroke, walked by both
    // offset walkers.  Its major/minor magnitudes match the line's own.
    let pend = Point::new(start.x + (end.y - start.y), start.y - (end.x - start.x));
    let sd = decompose(start, pend);
    let dx = abs_i64(d.delta.major);
    let dy = abs_i64(d.delta.minor);
    proof {
        assert(abs(sd.delta.major as int) == dx);
        assert(abs(sd.delta.minor as int) == dy);
    }
    let threshold = dx - 2 * dy;
    // Phase correction: the parallel lines' errors mirror exactly when
    // the seed line's minor step opposes the stroke's major step.
    let flip: i64 = if sd.step.minor.x == -d.step.major.x && sd.step.minor.y == -d.step.major.y {
        -1
    } else {
        1
    };
    let nflip = -flip;
    // Stagger the right walker half a seed step, clamped into the
    // stepper's resting range.
    let e0r: i64 = if 2 * dy > dx {
        dx
    } else {
        2 * dy
    };
    proof {
        assert(1 <= (width * width) as int <= 8192 * 8192) by (nonlinear_arith)
            requires
                1 <= width <= 8192,
        ;
        assert(0 <= dx * dx <= 16384 * 16384) by (nonlinear_arith)
            requires
                0 <= dx <= 16384,
        ;
        assert(0 <= dy * dy <= 16384 * 16384) by (nonlinear_arith)
            requires
                0 <= dy <= 16384,
        ;
    }
    let w2 = (width * width) as i64;
    let d2 = dx * dx + dy * dy;
    proof {
        assert(0 <= 4 * w2 * d2 <= 145000000000000000int) by (nonlinear_arith)
            requires
                0 <= w2 <= 8192 * 8192,
                0 <= d2 <= 2 * 16384 * 16384,
        ;
    }
    let thr = 4 * w2 * d2;
    let rsmaj = sd.step.major.neg();
    let rsmin = sd.step.minor.neg();
    let anchor_r = start.sub(sd.step.major);
    let mut pl = start;
    let mut serr_l: i64 = 0;
    let mut perr_l: i64 = 0;
    let mut pr = anchor_r;
    let mut serr_r: i64 = e0r;
    let mut perr_r: i64 = 0;
    let mut acc: i64 = 2 * dx;
    let mut is_right = false;
    let ghost mut il: int = 0;
    let ghost mut ir: int = 0;
    proof {
        lemma_digital_minor_zero(dx as int, dy as int, 0);
        lemma_digital_minor_zero(dx as int, dy as int, e0r as int);
        lemma_mul_zero(sd.step.major.x as int, 0);
        lemma_mul_zero(sd.step.major.y as int, 0);
        lemma_mul_zero(sd.step.minor.x as int, 0);
        lemma_mul_zero(sd.step.minor.y as int, 0);
        lemma_mul_zero(rsmaj.x as int, 0);
        lemma_mul_zero(rsmaj.y as int, 0);
        lemma_mul_zero(rsmin.x as int, 0);
        lemma_mul_zero(rsmin.y as int, 0);
        assert(4 * (dx * dx) <= thr) by (nonlinear_arith)
            requires
                thr == 4 * w2 * d2,
                w2 >= 1,
                d2 == dx * dx + dy * dy,
                dx * dx >= 0,
                dy * dy >= 0,
        ;
        assert((2 * dx) * (2 * dx) == 4 * (dx * dx)) by (nonlinear_arith);
    }
    let mut cont = crate::thick::seed_budget_check(acc, thr);
    while cont
        invariant
            point_in_range(start),
            point_in_range(end),
            !(start.x == end.x && start.y == end.y),
            decomposition_of(start, end, d),
            pend.x == start.x + (end.y - start.y),
            pend.y == start.y - (end.x - start.x),
            decomposition_of(start, pend, sd),
            dx == abs(d.delta.major as int),
            dy == abs(d.delta.minor as int),
            dx == abs(sd.delta.major as int),
            dy == abs(sd.delta.minor as int),
            1 <= dx <= 2 * COORD_LIMIT,
            0 <= dy <= dx,
            threshold == dx - 2 * dy,
            flip == 1 || flip == -1,
            nflip == -flip,
            0 <= e0r <= dx,
            1 <= width <= WIDTH_LIMIT,
            thr == 4 * w2 * d2,
            w2 == width * width,
            1 <= w2,
            d2 == dx * dx + dy * dy,
            0 <= thr <= 145000000000000000,
            rsmaj.x == -sd.step.major.x,
            rsmaj.y == -sd.step.major.y,
            rsmin.x == -sd.step.minor.x,
            rsmin.y == -sd.step.minor.y,
            anchor_r.x == start.x - sd.step.major.x,
            anchor_r.y == start.y - sd.step.major.y,
            0 <= il <= 210000000,
            0 <= ir <= 210000000,
            il == ir + if is_right {
                1int
            } else {
                0int
            },
            pl.x == start.x + sd.step.major.x * il + sd.step.minor.x * digital_minor(
                dx as int,
                dy as int,
                0,
                il,
            ),
            pl.y == start.y + sd.step.major.y * il + sd.step.minor.y * digital_minor(
                dx as int,
                dy as int,
                0,
                il,
            ),
            pr.x == anchor_r.x + rsmaj.x * ir + rsmin.x * digital_minor(
                dx as int,
                dy as int,
                e0r as int,
                ir,
            ),
            pr.y == anchor_r.y + rsmaj.y * ir + rsmin.y * digital_minor(
                dx as int,
                dy as int,
                e0r as int,
                ir,
            ),
            serr_l == stepper_error(dx as int, dy as int, 0, il),
            serr_r == stepper_error(dx as int, dy as int, e0r as int, ir),
            perr_l == stepper_error(
                dx as int,
                dy as int,
                0,
                digital_minor(dx as int, dy as int, 0, il),
            ),
            perr_r == stepper_error(
                dx as int,
                dy as int,
                0,
                digital_minor(dx as int, dy as int, e0r as int, ir),
            ),
            acc == 2 * dx + 2 * dx * (il + ir) + 2 * dy * (digital_minor(
                dx as int,
                dy as int,
                0,
                il,
            ) + digital_minor(dx as int, dy as int, e0r as int, ir)),
            2 <= acc <= 600000000,
            cont == (acc * acc <= thr),
            il + ir == 0 ==> cont,
            orig.len() <= out@.len(),
            forall|q: int| 0 <= q < orig.len() ==> out@[q] == orig[q],
            forall|q: int| orig.len() <= q < out@.len() ==> out@[q].color == color,
            il >= 1 ==> out@.len() >= orig.len() + major_len(start, end),
            il >= 1 ==> forall|j: int|
                0 <= j < major_len(start, end) ==> out@[orig.len() + j] == (PixelWrite {
                    point: line_point(start, end, j),
                    color,
                }),
            il + ir == 0 ==> out@ == orig,
            width == 1 && il + ir >= 1 ==> out@ == orig + pixel_seq(line_seq(start, end), color)
                && !cont,
        decreases 600000001 - acc,
    {
        let ghost acc_in = acc;
        proof {
            assert(acc * acc >= 0) by (nonlinear_arith);
            assert(acc <= 400000000) by (nonlinear_arith)
                requires
                    acc * acc <= thr <= 145000000000000000,
                    acc >= 2,
            ;
        }
        if !is_right {
            let ghost pre_len = out@.len();
            let ghost perr_in = perr_l;
            let ghost serr_in = serr_l;
            offset_side_step(
                start,
                sd.step.major,
                sd.step.minor,
                d.step.major,
                d.step.minor,
                dx,
                dy,
                0,
                flip,
                thr,
                &mut pl,
                &mut serr_l,
                &mut perr_l,
                &mut acc,
                Ghost(il),
                color,
                out,
            );
            proof {
                let msl_old = digital_minor(dx as int, dy as int, 0, il);
                let msr_cur = digital_minor(dx as int, dy as int, e0r as int, ir);
                lemma_digital_minor_step(dx as int, dy as int, 0, il);
                lemma_mul_succ(2 * (dx as int), il + ir);
                lemma_mul_succ(2 * (dy as int), msl_old + msr_cur);
                if il == 0 {
                    // The very first line is the centerline itself.
                    lemma_digital_minor_zero(dx as int, dy as int, 0);
                    lemma_digital_minor_zero(dx as int, dy as int, e0r as int);
                    lemma_mul_zero(2 * (dx as int), 0);
                    lemma_mul_zero(2 * (dy as int), 0);
                    lemma_mul_zero(sd.step.major.x as int, il);
                    lemma_mul_zero(sd.step.major.y as int, il);
                    lemma_mul_zero(
                        sd.step.minor.x as int,
                        digital_minor(dx as int, dy as int, 0, il),
                    );
                    lemma_mul_zero(
                        sd.step.minor.y as int,
                        digital_minor(dx as int, dy as int, 0, il),
                    );
                    lemma_mul_pm(flip as int, perr_in as int);
                    assert(side_phase(perr_in as int, flip as int, dx as int) == 0);
                    if width == 1 {
                        if dy >= 1 {
                            assert((acc_in + 2 * dy) * (acc_in + 2 * dy) > 4 * w2 * d2)
                                by (nonlinear_arith)
                                requires
                                    w2 == 1,
                                    d2 == dx * dx + dy * dy,
                                    1 <= dy <= dx,
                                    acc_in == 2 * dx,
                            ;
                        } else {
                            assert(serr_in <= dx - 2 * dy);
                        }
                        assert(out@.len() == orig.len() + dx + 1);
                    }
                    lemma_first_iteration(
                        start,
                        end,
                        d,
                        dx as int,
                        dy as int,
                        side_phase(perr_in as int, flip as int, dx as int),
                        orig,
                        out@,
                        width == 1,
                        color,
                    );
                } else {
                    assert forall|j: int| 0 <= j < major_len(start, end) implies out@[orig.len()
                        + j] == (PixelWrite { point: line_point(start, end, j), color }) by {
                        assert(orig.len() + j < pre_len);
                    }
                }
                il = il + 1;
            }
        } else {
            let ghost snap_r = out@;
            offset_side_step(
                anchor_r,
                rsmaj,
                rsmin,
                d.step.major,
                d.step.minor,
                dx,
                dy,
                e0r,
                nflip,
                thr,
                &mut pr,
                &mut serr_r,
                &mut perr_r,
                &mut acc,
                Ghost(ir),
                color,
                out,
            );
            proof {
                let msl_cur = digital_minor(dx as int, dy as int, 0, il);
                let msr_old = digital_minor(dx as int, dy as int, e0r as int, ir);
                lemma_digital_minor_step(dx as int, dy as int, e0r as int, ir);
                lemma_mul_succ(2 * (dx as int), il + ir);
                lemma_mul_succ(2 * (dy as int), msl_cur + msr_old);
                if il >= 1 {
                    assert forall|j: int| 0 <= j < major_len(start, end) implies out@[orig.len()
                        + j] == (PixelWrite { point: line_point(start, end, j), color }) by {
                        assert(orig.len() + j < snap_r.len());
                    }
                }
                ir = ir + 1;
            }
        }
        is_right = !is_right;
        proof {
            if width == 1 {
                assert(acc * acc > thr) by (nonlinear_arith)
                    requires
                        acc >= 4 * dx,
                        1 <= dx,
                        0 <= dy <= dx,
                        thr == 4 * w2 * d2,
                        w2 == 1,
                        d2 == dx * dx + dy * dy,
                ;
            }
        }
        cont = crate::thick::seed_budget_check(acc, thr);
        proof {
            let msl = digital_minor(dx as int, dy as int, 0, il);
            let msr = digital_minor(dx as int, dy as int, e0r as int, ir);
            lemma_digital_minor_bounds(dx as int, dy as int, 0, il);
            lemma_digital_minor_bounds(dx as int, dy as int, e0r as int, ir);
            assert(2 * (dx as int) * (il + ir) >= 2 * (il + ir)) by (nonlinear_arith)
                requires
                    dx >= 1,
                    il + ir >= 0,
            ;
            assert(2 * (dy as int) * (msl + msr) >= 0) by (nonlinear_arith)
                requires
                    dy >= 0,
                    msl >= 0,
                    msr >= 0,
            ;
            assert(acc * acc >= 0) by (nonlinear_arith);
        }
    }
    proof {
        assert(il >= 1);
        assert forall|j: int| 0 <= j < major_len(start, end) implies writes_contain(
            out@.skip(orig.len() as int),
            line_point(start, end, j),
            color,
        ) by {
            assert(out@.skip(orig.len() as int)[j] == (PixelWrite {
                point: line_point(start, end, j),
                color,
            }));
        }
    }
}

} // verus!
