use thickline::geometry::{Line, LineSide, Point};
use thickline::intersect::{intersection, Intersection, LinearEquation};

fn p(x: i64, y: i64) -> Point {
    Point::new(x, y)
}

fn line(ax: i64, ay: i64, bx: i64, by: i64) -> Line {
    Line::new(p(ax, ay), p(bx, by))
}

#[test]
fn crossing_segments_intersect_at_the_exact_point() {
    let a = line(0, 0, 10, 0);
    let b = line(5, -5, 5, 5);
    match intersection(&a, &b) {
        Intersection::Point { point, outer_side: _, is_special_case } => {
            assert_eq!((point.x, point.y), (5, 0));
            assert!(!is_special_case);
        }
        Intersection::Colinear => panic!("expected an intersection point"),
    }
}

#[test]
fn colinear_segments_report_colinear() {
    let a = line(0, 0, 10, 0);
    let b = line(2, 0, 8, 0);
    assert!(matches!(intersection(&a, &b), Intersection::Colinear));
}

#[test]
fn parallel_segments_report_colinear() {
    let a = line(0, 0, 10, 1);
    let b = line(0, 5, 10, 6);
    assert!(matches!(intersection(&a, &b), Intersection::Colinear));
}

#[test]
fn near_parallel_segments_fall_back_to_the_midpoint() {
    let a = line(0, 0, 10, 1);
    let b = line(0, 5, 10, 7);
    match intersection(&a, &b) {
        Intersection::Point { point, outer_side, is_special_case } => {
            assert!(is_special_case);
            // Midpoint of a's end and b's start.
            assert_eq!((point.x, point.y), (5, 3));
            assert_eq!(outer_side, LineSide::Right);
        }
        Intersection::Colinear => panic!("expected the special-case point"),
    }
}

#[test]
fn intersection_rounds_instead_of_truncating() {
    // The true crossing is at x = 1.5, which must round away from zero.
    let a = line(0, 0, 10, 0);
    let b = line(0, -5, 3, 5);
    match intersection(&a, &b) {
        Intersection::Point { point, is_special_case, .. } => {
            assert!(!is_special_case);
            assert_eq!((point.x, point.y), (2, 0));
        }
        Intersection::Colinear => panic!("expected an intersection point"),
    }
}

#[test]
fn linear_equation_side_tests() {
    let eq = LinearEquation::from_line(&line(0, 0, 10, 0));
    // The normal of a rightward horizontal line points down in screen
    // coordinates, so positive y is its right side.
    assert!(eq.check_side(p(5, 3), LineSide::Right));
    assert!(!eq.check_side(p(5, 3), LineSide::Left));
    assert!(eq.check_side(p(5, -3), LineSide::Left));
    // A point on the line is on both sides.
    assert!(eq.check_side(p(7, 0), LineSide::Left));
    assert!(eq.check_side(p(7, 0), LineSide::Right));
    assert_eq!(eq.distance(p(5, 3)), -30);
}
