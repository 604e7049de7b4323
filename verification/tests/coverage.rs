use thickline::aa::{coverage_from_error, draw_line_aa};
use thickline::geometry::{Color, PixelWrite, Point};
use thickline::stepper::line_points;

fn p(x: i64, y: i64) -> Point {
    Point::new(x, y)
}

fn white() -> Color {
    Color::new(255, 255, 255)
}

#[test]
fn neighbor_coverages_sum_to_full_brightness() {
    // On a pure white stroke the scaled neighbor colors expose the raw
    // coverage values, so the pair must sum to exactly 255 at every
    // centerline sample.
    let mut out: Vec<PixelWrite> = Vec::new();
    draw_line_aa(p(0, 0), p(10, 3), white(), &mut out);
    assert_eq!(out.len(), 3 * 11);
    for k in 0..11 {
        let up = out[3 * k].color.r as u32;
        let down = out[3 * k + 1].color.r as u32;
        assert_eq!(up + down, 255);
    }
}

#[test]
fn centerline_of_the_antialiased_line_is_full_strength() {
    let a = p(0, 0);
    let b = p(10, 3);
    let center = line_points(a, b);
    let mut out: Vec<PixelWrite> = Vec::new();
    draw_line_aa(a, b, white(), &mut out);
    for (k, c) in center.iter().enumerate() {
        assert_eq!(out[3 * k + 2].point, *c);
        assert_eq!(out[3 * k + 2].color, white());
    }
}

#[test]
fn diagonal_settles_at_half_coverage() {
    // On an exact diagonal every step crosses a row, so from the second
    // sample on, the accumulator sits at the half-coverage plateau.
    let mut out: Vec<PixelWrite> = Vec::new();
    draw_line_aa(p(0, 0), p(8, 8), white(), &mut out);
    for k in 1..9 {
        assert_eq!(out[3 * k].color.r, 127);
        assert_eq!(out[3 * k + 1].color.r, 128);
    }
}

#[test]
fn error_coverage_spans_the_full_range() {
    // The stepper error rests in 1-dx ..= dx; the rescaling maps the
    // bottom of that range to 0 and the top to 255.
    assert_eq!(coverage_from_error(-9, 10), 0);
    assert_eq!(coverage_from_error(10, 10), 255);
    assert_eq!(coverage_from_error(0, 10), 120);
}

#[test]
fn scaled_color_uses_truncating_division() {
    let c = Color::new(200, 100, 50).scaled(128);
    assert_eq!((c.r, c.g, c.b), (100, 50, 25));
    let full = Color::new(12, 34, 56).scaled(255);
    assert_eq!((full.r, full.g, full.b), (12, 34, 56));
    let none = Color::new(12, 34, 56).scaled(0);
    assert_eq!((none.r, none.g, none.b), (0, 0, 0));
}

#[test]
fn degenerate_antialiased_line_is_one_pixel() {
    let mut out: Vec<PixelWrite> = Vec::new();
    draw_line_aa(p(3, 3), p(3, 3), white(), &mut out);
    assert_eq!(out.len(), 1);
    assert_eq!(out[0].point, p(3, 3));
    assert_eq!(out[0].color, white());
}
