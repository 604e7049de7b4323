use thickline::geometry::{Color, Line, PixelWrite, Point};
use thickline::parallel::draw_line_parallel;
use thickline::stepper::line_points;
use thickline::thick::{draw_line, draw_polyline};

fn p(x: i64, y: i64) -> Point {
    Point::new(x, y)
}

fn red() -> Color {
    Color::new(255, 0, 0)
}

fn point_set(writes: &[PixelWrite]) -> Vec<(i64, i64)> {
    let mut v: Vec<(i64, i64)> = writes.iter().map(|w| (w.point.x, w.point.y)).collect();
    v.sort();
    v.dedup();
    v
}

#[test]
fn width_zero_is_a_no_op() {
    let mut out: Vec<PixelWrite> = Vec::new();
    draw_line(p(0, 0), p(10, 3), 0, red(), &mut out);
    assert_eq!(out.len(), 0);
    draw_line_parallel(p(0, 0), p(10, 3), 0, red(), &mut out);
    assert_eq!(out.len(), 0);
    draw_polyline(&vec![p(0, 0), p(5, 5), p(9, 2)], 0, red(), &mut out);
    assert_eq!(out.len(), 0);
}

#[test]
fn width_one_equals_bare_stepper() {
    let cases = [
        (p(0, 0), p(10, 3)),
        (p(3, 7), p(-4, -2)),
        (p(0, 0), p(2, 9)),
        (p(5, 5), p(5, -5)),
        (p(1, 1), p(1, 1)),
    ];
    for (a, b) in cases {
        let center = line_points(a, b);
        let mut out: Vec<PixelWrite> = Vec::new();
        draw_line(a, b, 1, red(), &mut out);
        assert_eq!(out.len(), center.len());
        for (w, c) in out.iter().zip(center.iter()) {
            assert_eq!(w.point, *c);
            assert_eq!(w.color, red());
        }
        let mut out2: Vec<PixelWrite> = Vec::new();
        draw_line_parallel(a, b, 1, red(), &mut out2);
        assert_eq!(out2.len(), center.len());
        for (w, c) in out2.iter().zip(center.iter()) {
            assert_eq!(w.point, *c);
        }
    }
}

#[test]
fn diagonal_width_one_is_the_eleven_diagonal_points() {
    let mut out: Vec<PixelWrite> = Vec::new();
    draw_line(p(0, 0), p(10, 10), 1, red(), &mut out);
    assert_eq!(out.len(), 11);
    for (i, w) in out.iter().enumerate() {
        assert_eq!((w.point.x, w.point.y), (i as i64, i as i64));
    }
}

#[test]
fn horizontal_width_three_draws_exactly_three_rows() {
    let mut out: Vec<PixelWrite> = Vec::new();
    draw_line(p(0, 0), p(10, 0), 3, red(), &mut out);
    let mut expected: Vec<(i64, i64)> = Vec::new();
    for x in 0..=10 {
        for y in -1..=1 {
            expected.push((x, y));
        }
    }
    expected.sort();
    assert_eq!(point_set(&out), expected);
}

#[test]
fn parallel_horizontal_width_three_draws_exactly_three_rows() {
    let mut out: Vec<PixelWrite> = Vec::new();
    draw_line_parallel(p(0, 0), p(10, 0), 3, red(), &mut out);
    let mut expected: Vec<(i64, i64)> = Vec::new();
    for x in 0..=10 {
        for y in -1..=1 {
            expected.push((x, y));
        }
    }
    expected.sort();
    assert_eq!(point_set(&out), expected);
}

#[test]
fn even_width_biases_one_side() {
    // Width 2 on a horizontal line: the centerline row plus exactly one
    // neighboring row, so the extra pixel run went to a single side.
    let mut out: Vec<PixelWrite> = Vec::new();
    draw_line(p(0, 0), p(10, 0), 2, red(), &mut out);
    let set = point_set(&out);
    assert_eq!(set.len(), 22);
    let rows: Vec<i64> = {
        let mut r: Vec<i64> = set.iter().map(|&(_, y)| y).collect();
        r.sort();
        r.dedup();
        r
    };
    assert_eq!(rows.len(), 2);
    assert!(rows.contains(&0));
}

#[test]
fn no_gap_and_endpoint_inclusion() {
    let a = p(0, 0);
    let b = p(10, 3);
    let pts = line_points(a, b);
    assert_eq!(pts.len(), 11);
    assert_eq!(pts[0], a);
    assert_eq!(pts[10], b);
    // Every column between the endpoints is hit exactly once.
    let mut xs: Vec<i64> = pts.iter().map(|q| q.x).collect();
    xs.sort();
    assert_eq!(xs, (0..=10).collect::<Vec<i64>>());
    // A steep line: every row hit exactly once.
    let pts = line_points(p(2, 8), p(0, -3));
    let mut ys: Vec<i64> = pts.iter().map(|q| q.y).collect();
    ys.sort();
    assert_eq!(ys, (-3..=8).collect::<Vec<i64>>());
}

#[test]
fn known_line_pixels() {
    let pts = line_points(p(0, 0), p(5, 2));
    let expected = [(0, 0), (1, 0), (2, 1), (3, 1), (4, 2), (5, 2)];
    assert_eq!(pts.len(), expected.len());
    for (q, e) in pts.iter().zip(expected.iter()) {
        assert_eq!((q.x, q.y), *e);
    }
}

#[test]
fn degenerate_line_is_a_single_pixel() {
    let mut out: Vec<PixelWrite> = Vec::new();
    draw_line(p(4, -7), p(4, -7), 5, red(), &mut out);
    assert_eq!(point_set(&out), vec![(4, -7)]);
    let mut out2: Vec<PixelWrite> = Vec::new();
    draw_line_parallel(p(4, -7), p(4, -7), 5, red(), &mut out2);
    assert_eq!(point_set(&out2), vec![(4, -7)]);
}

#[test]
fn reversal_keeps_the_pixel_set_on_flat_and_diagonal_lines() {
    let cases = [(p(0, 0), p(7, 0)), (p(2, -3), p(2, 9)), (p(0, 0), p(6, 6))];
    for (a, b) in cases {
        let mut fwd: Vec<PixelWrite> = Vec::new();
        let mut rev: Vec<PixelWrite> = Vec::new();
        draw_line(a, b, 1, red(), &mut fwd);
        draw_line(b, a, 1, red(), &mut rev);
        assert_eq!(point_set(&fwd), point_set(&rev));
    }
}

#[test]
fn thick_line_covers_its_centerline() {
    for width in 1..8u32 {
        let a = p(-3, -2);
        let b = p(9, 5);
        let mut out: Vec<PixelWrite> = Vec::new();
        draw_line(a, b, width, red(), &mut out);
        let set = point_set(&out);
        for c in line_points(a, b) {
            assert!(set.contains(&(c.x, c.y)));
        }
        for w in &out {
            assert_eq!(w.color, red());
        }
    }
}

#[test]
fn parallel_thick_line_covers_its_centerline() {
    for width in 1..8u32 {
        let a = p(-3, -2);
        let b = p(9, 5);
        let mut out: Vec<PixelWrite> = Vec::new();
        draw_line_parallel(a, b, width, red(), &mut out);
        let set = point_set(&out);
        for c in line_points(a, b) {
            assert!(set.contains(&(c.x, c.y)));
        }
        for w in &out {
            assert_eq!(w.color, red());
        }
    }
}

#[test]
fn polyline_covers_both_segment_centerlines() {
    let pts = vec![p(0, 0), p(6, 2), p(6, 10)];
    let mut out: Vec<PixelWrite> = Vec::new();
    draw_polyline(&pts, 3, red(), &mut out);
    let set = point_set(&out);
    for c in line_points(pts[0], pts[1]) {
        assert!(set.contains(&(c.x, c.y)));
    }
    for c in line_points(pts[1], pts[2]) {
        assert!(set.contains(&(c.x, c.y)));
    }
}

#[test]
fn geometry_vector_operations() {
    let a = p(3, -4);
    let b = p(2, 5);
    assert_eq!(a.add(b), p(5, 1));
    assert_eq!(a.sub(b), p(1, -9));
    assert_eq!(a.scale(3), p(9, -12));
    assert_eq!(a.dot_product(b), 3 * 2 + (-4) * 5);
    assert_eq!(a.determinant(b), 3 * 5 - (-4) * 2);
    assert_eq!(a.length_squared(), 25);
    assert_eq!(a.rotate_90(), p(-4, -3));
    assert_eq!(a.neg(), p(-3, 4));
    let l = Line::new(p(1, 1), p(4, 3));
    assert_eq!(l.delta(), p(3, 2));
    let perp = l.perpendicular();
    assert_eq!(perp.start, p(1, 1));
    assert_eq!(perp.end, p(3, -2));
}
