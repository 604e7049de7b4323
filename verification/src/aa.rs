//! Antialiasing coverage model: per-pixel brightness from pure integer
//! arithmetic, in two interchangeable forms.
//!
//! The gradient accumulator tracks a brightness that grows by a fixed
//! step per major-axis pixel and resets on every minor step; the step is
//! scaled by a slope-dependent factor so an exact diagonal settles at
//! half coverage instead of full.  The error-as-coverage form reuses the
//! stepper's own error accumulator, which is already an exact measure of
//! the fractional distance to the next minor row, and only rescales it
//! to the 0..=255 range.

use vstd::prelude::*;
use vstd::math::abs;
use vstd::arithmetic::div_mod::{lemma_fundamental_div_mod, lemma_fundamental_div_mod_converse, lemma_div_pos_is_pos};
use crate::geometry::{Point, Color, PixelWrite, point_in_range, scaled_color, COORD_LIMIT};
use crate::stepper::{
    digital_minor, stepper_error, lemma_digital_minor_zero, lemma_digital_minor_bounds,
    lemma_digital_minor_step, lemma_mul_succ, lemma_mul_unit_bound, abs_i64, decompose,
    decomposition_of, line_point, major_len,
};

verus! {

/// `x / d` is at most `c` when `x` is below `(c + 1) * d`.
proof fn lemma_div_le(x: int, c: int, d: int)
    requires
        0 <= x,
        0 < d,
        0 <= c,
        x < (c + 1) * d,
    ensures
        x / d <= c,
{
    lemma_fundamental_div_mod(x, d);
    vstd::arithmetic::div_mod::lemma_mod_division_less_than_divisor(x, d);
    let q = x / d;
    if q > c {
        assert(d * q >= (c + 1) * d) by (nonlinear_arith)
            requires
                d > 0,
                q >= c + 1,
        ;
        assert(false);
    }
}

/// The per-pixel brightness step of the gradient accumulator: the raw
/// slope out of 255, scaled down towards a half so that a full diagonal
/// settles at half coverage.
pub open spec fn gradient_step(dx: int, dy: int) -> int {
    let g = dy * 255 / dx;
    g * 255 / (255 + g)
}

/// The raw slope of the gradient accumulator lies in `0 ..= 255`, and
/// the scaled step in `0 ..= 127`.
pub proof fn lemma_gradient_step_bounds(dx: int, dy: int)
    requires
        1 <= dx,
        0 <= dy <= dx,
    ensures
        0 <= gradient_step(dx, dy) <= 127,
{
    let g = dy * 255 / dx;
    assert(0 <= dy * 255 <= dx * 255) by (nonlinear_arith)
        requires
            0 <= dy <= dx,
    ;
    lemma_div_pos_is_pos(dy * 255, dx);
    assert(dx * 255 < 256 * dx) by (nonlinear_arith)
        requires
            1 <= dx,
    ;
    lemma_div_le(dy * 255, 255, dx);
    lemma_div_pos_is_pos(g * 255, 255 + g);
    assert(0 <= g * 255) by (nonlinear_arith)
        requires
            0 <= g,
    ;
    assert(g * 255 < 128 * (255 + g)) by (nonlinear_arith)
        requires
            0 <= g <= 255,
    ;
    lemma_div_le(g * 255, 127, 255 + g);
}

/// Brightness of the gradient accumulator when centerline pixel `k` is
/// emitted: half coverage at the start of the line, reset to one step
/// after each minor-axis crossing, otherwise one step brighter per
/// pixel, saturating at full.
pub open spec fn aa_bright(dx: int, dy: int, k: int) -> int
    decreases k,
{
    let gs = gradient_step(dx, dy);
    if k <= 0 {
        127 - gs
    } else if digital_minor(dx, dy, 0, k) > digital_minor(dx, dy, 0, k - 1) {
        gs
    } else if aa_bright(dx, dy, k - 1) + gs >= 255 {
        255
    } else {
        aa_bright(dx, dy, k - 1) + gs
    }
}

/// The accumulator's brightness always stays inside the 0..=255 range.
pub proof fn lemma_aa_bright_bounds(dx: int, dy: int, k: int)
    requires
        1 <= dx,
        0 <= dy <= dx,
    ensures
        0 <= aa_bright(dx, dy, k) <= 255,
    decreases k,
{
    lemma_gradient_step_bounds(dx, dy);
    if k > 0 {
        lemma_aa_bright_bounds(dx, dy, k - 1);
    }
}

/// Coverage is monotonic along each minor-axis run: while no minor step
/// happens, the brightness never falls, so there is no sawtooth between
/// two resets.
pub proof fn lemma_coverage_monotonic(dx: int, dy: int, k: int)
    requires
        1 <= dx,
        0 <= dy <= dx,
        1 <= k,
        digital_minor(dx, dy, 0, k) == digital_minor(dx, dy, 0, k - 1),
    ensures
        aa_bright(dx, dy, k) >= aa_bright(dx, dy, k - 1),
{
    lemma_gradient_step_bounds(dx, dy);
    lemma_aa_bright_bounds(dx, dy, k - 1);
}

/// The write emitted for centerline pixel `k` in slot `slot` of the
/// antialiased line from `a` to `b`: slot 0 brightens the neighbor one
/// minor step ahead by the accumulator's value, slot 1 gives the
/// neighbor one minor step behind the complement, and slot 2 paints the
/// centerline pixel at full strength.  The two neighbors' brightnesses
/// sum to exactly 255 at every sample.
pub open spec fn aa_write_at(a: Point, b: Point, c: Color, k: int, slot: int) -> PixelWrite {
    let p = line_point(a, b, k);
    let dxr = b.x - a.x;
    let dyr = b.y - a.y;
    let on_x = crate::stepper::x_is_major(dxr, dyr);
    let n = if on_x {
        abs(dxr) as int
    } else {
        abs(dyr) as int
    };
    let mn = if on_x {
        abs(dyr) as int
    } else {
        abs(dxr) as int
    };
    let minor_step = if on_x {
        Point { x: 0, y: if dyr >= 0 { 1i64 } else { -1i64 } }
    } else {
        Point { x: if dxr >= 0 { 1i64 } else { -1i64 }, y: 0 }
    };
    if slot == 0 {
        PixelWrite {
            point: Point { x: (p.x + minor_step.x) as i64, y: (p.y + minor_step.y) as i64 },
            color: scaled_color(c, aa_bright(n, mn, k)),
        }
    } else if slot == 1 {
        PixelWrite {
            point: Point { x: (p.x - minor_step.x) as i64, y: (p.y - minor_step.y) as i64 },
            color: scaled_color(c, 255 - aa_bright(n, mn, k)),
        }
    } else {
        PixelWrite { point: p, color: c }
    }
}

/// Coverage conservation: at every centerline sample the two
/// antialiased neighbor pixels are written with brightnesses `v` and
/// `255 - v` for the accumulator's value `v`, so their coverages sum to
/// exactly 255.
pub proof fn lemma_coverage_conservation(a: Point, b: Point, c: Color, k: int)
    requires
        point_in_range(a),
        point_in_range(b),
    ensures
        ({
            let dxr = b.x - a.x;
            let dyr = b.y - a.y;
            let on_x = crate::stepper::x_is_major(dxr, dyr);
            let n = if on_x {
                abs(dxr) as int
            } else {
                abs(dyr) as int
            };
            let mn = if on_x {
                abs(dyr) as int
            } else {
                abs(dxr) as int
            };
            let v = aa_bright(n, mn, k);
            &&& aa_write_at(a, b, c, k, 0).color == scaled_color(c, v)
            &&& aa_write_at(a, b, c, k, 1).color == scaled_color(c, 255 - v)
            &&& n >= 1 ==> 0 <= v <= 255
        }),
{
    let dxr = b.x - a.x;
    let dyr = b.y - a.y;
    let on_x = crate::stepper::x_is_major(dxr, dyr);
    let n = if on_x {
        abs(dxr) as int
    } else {
        abs(dyr) as int
    };
    let mn = if on_x {
        abs(dyr) as int
    } else {
        abs(dxr) as int
    };
    if n >= 1 {
        lemma_aa_bright_bounds(n, mn, k);
    }
}

/// Error-as-coverage: the stepper's error accumulator at a sample,
/// rescaled from its resting range `1-dx ..= dx` to a coverage out of
/// 255.  No second accumulator is needed; the error is already an exact
/// measure of where the ideal line crosses the pixel.
pub open spec fn error_coverage(dx: int, e: int) -> int {
    (e + dx - 1) * 255 / (2 * dx - 1)
}

/// Computes [`error_coverage`], proving it stays inside `0 ..= 255`.
pub fn coverage_from_error(error: i64, dx: i64) -> (r: u8)
    requires
        1 <= dx <= 2 * COORD_LIMIT,
        1 - dx <= error <= dx,
    ensures
        r == error_coverage(dx as int, error as int),
{
    proof {
        assert(0 <= (error + dx - 1) * 255 <= (2 * dx - 1) * 255) by (nonlinear_arith)
            requires
                0 <= error + dx - 1 <= 2 * dx - 1,
        ;
        lemma_div_pos_is_pos((error as int + dx as int - 1) * 255, 2 * (dx as int) - 1);
        assert((2 * dx - 1) * 255 < 256 * (2 * dx - 1)) by (nonlinear_arith)
            requires
                1 <= dx,
        ;
        lemma_div_le((error as int + dx as int - 1) * 255, 255, 2 * (dx as int) - 1);
    }
    let num = (error + dx - 1) * 255;
    let den = 2 * dx - 1;
    (((num as u64) / (den as u64)) as i64) as u8
}

/// Draws a one-pixel-wide antialiased line from `start` to `end`: every
/// centerline pixel at full strength, and its two minor-axis neighbors
/// at the gradient accumulator's brightness and its complement, so the
/// coverage of each neighbor pair sums to 255.  A degenerate line is a
/// single full-strength pixel.
#[verifier::rlimit(60)]
pub fn draw_line_aa(start: Point, end: Point, color: Color, out: &mut Vec<PixelWrite>)
    requires
        point_in_range(start),
        point_in_range(end),
    ensures
        start == end ==> final(out)@ == old(out)@ + seq![
            PixelWrite { point: start, color },
        ],
        start != end ==> final(out)@ == old(out)@ + Seq::new(
            (3 * major_len(start, end)) as nat,
            |q: int| aa_write_at(start, end, color, q / 3, q % 3),
        ),
{
    let ghost orig = out@;
    if start.x == end.x && start.y == end.y {
        out.push(PixelWrite { point: start, color });
        proof {
            assert(out@ =~= orig + seq![PixelWrite { point: start, color }]);
        }
        return ;
    }
    let d = decompose(start, end);
    let dx = abs_i64(d.delta.major);
    let dy = abs_i64(d.delta.minor);
    let threshold = dx - 2 * dy;
    let e_maj = 2 * dy;
    let e_min = -2 * dx;
    let g = (((dy as u64) * 255) / (dx as u64)) as i64;
    proof {
        lemma_gradient_step_bounds(dx as int, dy as int);
    }
    let gs = (((g as u64) * 255) / ((255 + g) as u64)) as i64;
    let mut bright: i64 = 127 - gs;
    let mut point = start;
    let mut error: i64 = 0;
    let mut i: i64 = 0;
    proof {
        lemma_digital_minor_zero(dx as int, dy as int, 0);
    }
    while i <= dx
        invariant
            point_in_range(start),
            point_in_range(end),
            !(start.x == end.x && start.y == end.y),
            decomposition_of(start, end, d),
            dx == abs(d.delta.major as int),
            dy == abs(d.delta.minor as int),
            1 <= dx <= 2 * COORD_LIMIT,
            0 <= dy <= dx,
            threshold == dx - 2 * dy,
            e_maj == 2 * dy,
            e_min == -2 * dx,
            gs == gradient_step(dx as int, dy as int),
            0 <= gs <= 127,
            0 <= i <= dx + 1,
            point.x == start.x + d.step.major.x * i + d.step.minor.x * digital_minor(
                dx as int,
                dy as int,
                0,
                i as int,
            ),
            point.y == start.y + d.step.major.y * i + d.step.minor.y * digital_minor(
                dx as int,
                dy as int,
                0,
                i as int,
            ),
            error == stepper_error(dx as int, dy as int, 0, i as int),
            bright == aa_bright(dx as int, dy as int, i as int),
            0 <= bright <= 255,
            out@ == orig + Seq::new(
                (3 * i) as nat,
                |q: int| aa_write_at(start, end, color, q / 3, q % 3),
            ),
        decreases dx + 1 - i,
    {
        proof {
            let m = digital_minor(dx as int, dy as int, 0, i as int);
            lemma_digital_minor_bounds(dx as int, dy as int, 0, i as int);
            lemma_digital_minor_step(dx as int, dy as int, 0, i as int);
            lemma_mul_unit_bound(d.step.major.x as int, i as int);
            lemma_mul_unit_bound(d.step.major.y as int, i as int);
            lemma_mul_unit_bound(d.step.minor.x as int, m);
            lemma_mul_unit_bound(d.step.minor.y as int, m);
            lemma_mul_succ(d.step.major.x as int, i as int);
            lemma_mul_succ(d.step.major.y as int, i as int);
            lemma_mul_succ(d.step.minor.x as int, m);
            lemma_mul_succ(d.step.minor.y as int, m);
            assert(point == line_point(start, end, i as int));
        }
        out.push(
            PixelWrite { point: point.add(d.step.minor), color: color.scaled(bright) },
        );
        out.push(
            PixelWrite {
                point: point.sub(d.step.minor),
                color: color.scaled(255 - bright),
            },
        );
        out.push(PixelWrite { point, color });
        proof {
            lemma_fundamental_div_mod_converse(3 * (i as int), 3, i as int, 0);
            lemma_fundamental_div_mod_converse(3 * (i as int) + 1, 3, i as int, 1);
            lemma_fundamental_div_mod_converse(3 * (i as int) + 2, 3, i as int, 2);
            assert(out@ =~= orig + Seq::new(
                (3 * (i + 1)) as nat,
                |q: int| aa_write_at(start, end, color, q / 3, q % 3),
            ));
        }
        if error > threshold {
            point = point.add(d.step.minor);
            error = error + e_min;
            bright = 0;
        }
        error = error + e_maj;
        point = point.add(d.step.major);
        bright = bright + gs;
        if bright > 255 {
            bright = 255;
        }
        i = i + 1;
    }
}

} // verus!
