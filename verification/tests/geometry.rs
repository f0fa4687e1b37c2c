use polygon_clip::orientation::{orientation, Orientation};
use polygon_clip::point::{Point, COORD_LIMIT};
use polygon_clip::ratio::Ratio;
use polygon_clip::segment::{intersection, Crossing, Hit, Segment};

fn pts(v: &[(i64, i64)]) -> Vec<Point> {
    v.iter().map(|&(x, y)| Point::new(x, y)).collect()
}

fn seg(a: (i64, i64), b: (i64, i64)) -> Segment {
    Segment { start: Point::new(a.0, a.1), end: Point::new(b.0, b.1) }
}

#[test]
fn point_new_keeps_coordinates() {
    let p = Point::new(3, -4);
    assert_eq!(p.x, 3);
    assert_eq!(p.y, -4);
    assert_eq!(p, Point { x: 3, y: -4 });
}

#[test]
fn point_range_check() {
    assert!(Point::new(0, 0).is_in_range());
    assert!(Point::new(COORD_LIMIT, -COORD_LIMIT).is_in_range());
    assert!(!Point::new(COORD_LIMIT + 1, 0).is_in_range());
    assert!(!Point::new(0, -COORD_LIMIT - 1).is_in_range());
}

#[test]
fn orientation_of_unit_square() {
    let c = pts(&[(0, 0), (0, 1), (1, 1), (1, 0), (0, 0)]);
    assert_eq!(orientation(&c), Orientation::CounterClockwise);
}

#[test]
fn orientation_of_reversed_unit_square() {
    let c = pts(&[(0, 0), (1, 0), (1, 1), (0, 1), (0, 0)]);
    assert_eq!(orientation(&c), Orientation::Clockwise);
}

#[test]
fn orientation_of_degenerate_contours_is_clockwise() {
    assert_eq!(orientation(&pts(&[])), Orientation::Clockwise);
    assert_eq!(orientation(&pts(&[(5, 5)])), Orientation::Clockwise);
    // Out and back along the same edge: the sum is zero.
    assert_eq!(orientation(&pts(&[(0, 0), (4, 4), (0, 0)])), Orientation::Clockwise);
}

#[test]
fn orientation_reverses_with_the_points() {
    let c = pts(&[(0, 0), (7, 1), (9, 8), (2, 5), (0, 0)]);
    let mut r = c.clone();
    r.reverse();
    assert_ne!(orientation(&c), orientation(&r));
}

#[test]
fn orientation_at_the_coordinate_limit() {
    let l = COORD_LIMIT;
    let c = pts(&[(-l, -l), (-l, l), (l, l), (l, -l), (-l, -l)]);
    assert_eq!(orientation(&c), Orientation::CounterClockwise);
}

#[test]
fn ratio_compares_by_value() {
    let half = Ratio { num: 1, den: 2 };
    let two_thirds = Ratio { num: 2, den: 3 };
    let two_quarters = Ratio { num: 2, den: 4 };
    assert!(half.lt(&two_thirds));
    assert!(!two_thirds.lt(&half));
    assert!(!half.lt(&two_quarters));
    assert!(!two_quarters.lt(&half));
    assert!(half.lt(&Ratio::one()));
    assert!(!Ratio::one().lt(&Ratio::one()));
}

#[test]
fn ratio_compares_large_terms() {
    let a = Ratio { num: u64::MAX - 1, den: u64::MAX };
    let b = Ratio { num: u64::MAX, den: u64::MAX };
    assert!(a.lt(&b));
    assert!(!b.lt(&a));
}

#[test]
fn ratio_one() {
    assert_eq!(Ratio::one(), Ratio { num: 1, den: 1 });
}

#[test]
fn intersection_in_the_middle() {
    let hit = intersection(&seg((2, 0), (2, 2)), &seg((1, 1), (3, 1)));
    assert_eq!(
        hit,
        Some(Hit {
            point: Point::new(2, 1),
            s: Ratio { num: 2, den: 4 },
            t: Ratio { num: 2, den: 4 },
            crossing: Crossing::Entering,
        })
    );
}

#[test]
fn intersection_direction_decides_the_crossing() {
    // Upwards across an edge that goes to the right: to its left, entering.
    let hit = intersection(&seg((2, 0), (2, 2)), &seg((1, 1), (3, 1))).unwrap();
    assert_eq!(hit.crossing, Crossing::Entering);
    // Downwards across the same edge: to its right, exiting.
    let hit = intersection(&seg((2, 2), (2, 0)), &seg((1, 1), (3, 1))).unwrap();
    assert_eq!(hit.crossing, Crossing::Exiting);
    assert_eq!(hit.point, Point::new(2, 1));
    let hit = intersection(&seg((2, 0), (2, 2)), &seg((3, 1), (1, 1))).unwrap();
    assert_eq!(hit.crossing, Crossing::Exiting);
    let hit = intersection(&seg((2, 2), (2, 0)), &seg((3, 1), (1, 1))).unwrap();
    assert_eq!(hit.crossing, Crossing::Entering);
}

#[test]
fn intersection_positions_are_exact() {
    // The first segment is crossed at a quarter of its length, the second at
    // three fifths.
    let hit = intersection(&seg((0, 0), (8, 0)), &seg((2, -3), (2, 2))).unwrap();
    assert_eq!(hit.point, Point::new(2, 0));
    assert_eq!(hit.s.num * 4, hit.s.den);
    assert_eq!(hit.t.num * 5, hit.t.den * 3);
}

#[test]
fn intersection_of_parallel_segments_is_none() {
    assert_eq!(intersection(&seg((0, 0), (4, 0)), &seg((0, 1), (4, 1))), None);
    assert_eq!(intersection(&seg((0, 0), (4, 4)), &seg((1, 0), (5, 4))), None);
}

#[test]
fn intersection_of_overlapping_segments_is_none() {
    assert_eq!(intersection(&seg((0, 0), (4, 0)), &seg((2, 0), (6, 0))), None);
    assert_eq!(intersection(&seg((0, 0), (4, 0)), &seg((0, 0), (4, 0))), None);
}

#[test]
fn intersection_of_a_point_segment_is_none() {
    assert_eq!(intersection(&seg((1, 1), (1, 1)), &seg((0, 0), (2, 2))), None);
}

#[test]
fn intersection_outside_either_segment_is_none() {
    // The lines cross at (5, 0), beyond the end of the first segment.
    assert_eq!(intersection(&seg((0, 0), (4, 0)), &seg((5, -1), (5, 1))), None);
    // The lines cross at (2, 0), before the start of the second segment.
    assert_eq!(intersection(&seg((0, 0), (4, 0)), &seg((2, 1), (2, 3))), None);
}

#[test]
fn intersection_includes_end_points() {
    let hit = intersection(&seg((0, 0), (4, 0)), &seg((4, -1), (4, 1))).unwrap();
    assert_eq!(hit.point, Point::new(4, 0));
    assert_eq!(hit.s.num, hit.s.den);
    let hit = intersection(&seg((0, 0), (4, 0)), &seg((0, 0), (0, 3))).unwrap();
    assert_eq!(hit.point, Point::new(0, 0));
    assert_eq!(hit.s.num, 0);
    assert_eq!(hit.t.num, 0);
    let hit = intersection(&seg((0, 0), (4, 0)), &seg((2, 5), (2, 0))).unwrap();
    assert_eq!(hit.point, Point::new(2, 0));
    assert_eq!(hit.t.num, hit.t.den);
}

#[test]
fn intersection_point_is_rounded_to_the_grid() {
    // The diagonals of the unit square cross at (1/2, 1/2); halves round away
    // from the start of the first segment.
    let hit = intersection(&seg((0, 0), (1, 1)), &seg((0, 1), (1, 0))).unwrap();
    assert_eq!(hit.s, Ratio { num: 1, den: 2 });
    assert_eq!(hit.t, Ratio { num: 1, den: 2 });
    assert_eq!(hit.point, Point::new(1, 1));
    let hit = intersection(&seg((1, 1), (0, 0)), &seg((0, 1), (1, 0))).unwrap();
    assert_eq!(hit.point, Point::new(0, 0));
    // A third of the way along (0,0)->(3,1): (1, 1/3) gives (1, 0).
    let hit = intersection(&seg((0, 0), (3, 1)), &seg((1, -5), (1, 5))).unwrap();
    assert_eq!(hit.point, Point::new(1, 0));
    // Two thirds of the way: (2, 2/3) gives (2, 1).
    let hit = intersection(&seg((0, 0), (3, 1)), &seg((2, -5), (2, 5))).unwrap();
    assert_eq!(hit.point, Point::new(2, 1));
}

#[test]
fn intersection_at_the_coordinate_limit() {
    let l = COORD_LIMIT;
    let hit = intersection(&seg((-l, -l), (l, l)), &seg((-l, l), (l, -l))).unwrap();
    assert_eq!(hit.point, Point::new(0, 0));
    assert_eq!(hit.s.num * 2, hit.s.den);
    assert_eq!(hit.t.num * 2, hit.t.den);
    assert_eq!(hit.s.den, 1u64 << 63);
}
