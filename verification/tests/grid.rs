//! Exhaustive checks over a small grid of endpoints and widths.

use thickline::geometry::{Color, PixelWrite, Point};
use thickline::parallel::draw_line_parallel;
use thickline::stepper::line_points;
use thickline::thick::draw_line;

fn p(x: i64, y: i64) -> Point {
    Point::new(x, y)
}

fn blue() -> Color {
    Color::new(0, 0, 255)
}

fn point_set(writes: &[PixelWrite]) -> Vec<(i64, i64)> {
    let mut v: Vec<(i64, i64)> = writes.iter().map(|w| (w.point.x, w.point.y)).collect();
    v.sort();
    v.dedup();
    v
}

#[test]
fn stepper_grid_has_no_gaps_and_exact_endpoints() {
    for bx in -6..=6 {
        for by in -6..=6 {
            let a = p(0, 0);
            let b = p(bx, by);
            let pts = line_points(a, b);
            let n = bx.abs().max(by.abs());
            assert_eq!(pts.len() as i64, n + 1);
            assert_eq!(pts[0], a);
            assert_eq!(pts[pts.len() - 1], b);
            // The major coordinate advances by exactly one per pixel.
            for w in pts.windows(2) {
                let dx = (w[1].x - w[0].x).abs();
                let dy = (w[1].y - w[0].y).abs();
                assert!(dx <= 1 && dy <= 1);
                assert!(dx == 1 || dy == 1);
            }
            // No pixel repeats.
            let mut seen: Vec<(i64, i64)> = pts.iter().map(|q| (q.x, q.y)).collect();
            seen.sort();
            let len = seen.len();
            seen.dedup();
            assert_eq!(seen.len(), len);
        }
    }
}

#[test]
fn both_strategies_behave_across_the_grid() {
    for bx in -5..=5 {
        for by in -5..=5 {
            let a = p(1, -2);
            let b = p(1 + bx, -2 + by);
            let center = line_points(a, b);
            for width in 0..5u32 {
                for strategy in 0..2 {
                    let mut out: Vec<PixelWrite> = Vec::new();
                    if strategy == 0 {
                        draw_line(a, b, width, blue(), &mut out);
                    } else {
                        draw_line_parallel(a, b, width, blue(), &mut out);
                    }
                    if width == 0 {
                        assert!(out.is_empty());
                        continue;
                    }
                    if width == 1 {
                        let drawn: Vec<Point> = out.iter().map(|w| w.point).collect();
                        assert_eq!(drawn, center);
                    }
                    let set = point_set(&out);
                    for c in &center {
                        assert!(set.contains(&(c.x, c.y)));
                    }
                    for w in &out {
                        assert_eq!(w.color, blue());
                    }
                }
            }
        }
    }
}
