use polygon_clip::builder::{EditError, PolygonBuilder};
use polygon_clip::point::Point;

fn p(x: i64, y: i64) -> Point {
    Point::new(x, y)
}

fn square(b: &mut PolygonBuilder) {
    assert_eq!(b.add_point(p(0, 0)), Ok(()));
    assert_eq!(b.add_point(p(10, 0)), Ok(()));
    assert_eq!(b.add_point(p(10, 10)), Ok(()));
    assert_eq!(b.add_point(p(0, 10)), Ok(()));
}

#[test]
fn new_builder_has_one_empty_contour() {
    let b = PolygonBuilder::new();
    assert_eq!(b.contours, vec![Vec::<Point>::new()]);
}

#[test]
fn square_closes() {
    let mut b = PolygonBuilder::new();
    square(&mut b);
    assert_eq!(b.close_path(), Ok(()));
    assert_eq!(
        b.contours,
        vec![vec![p(0, 0), p(10, 0), p(10, 10), p(0, 10), p(0, 0)], vec![]]
    );
}

#[test]
fn edge_crossing_a_closed_contour_is_refused() {
    let mut b = PolygonBuilder::new();
    square(&mut b);
    assert_eq!(b.close_path(), Ok(()));
    assert_eq!(b.add_point(p(5, -5)), Ok(()));
    assert_eq!(b.contours[1].len(), 1);
    assert_eq!(b.add_point(p(5, 5)), Err(EditError::SelfIntersection));
    assert_eq!(b.contours[1], vec![p(5, -5)]);
    assert_eq!(b.contours[0], vec![p(0, 0), p(10, 0), p(10, 10), p(0, 10), p(0, 0)]);
    // Another point can be tried after the refusal.
    assert_eq!(b.add_point(p(20, -5)), Ok(()));
    assert_eq!(b.contours[1], vec![p(5, -5), p(20, -5)]);
}

#[test]
fn edge_crossing_its_own_contour_is_refused() {
    let mut b = PolygonBuilder::new();
    assert_eq!(b.add_point(p(0, 0)), Ok(()));
    assert_eq!(b.add_point(p(10, 0)), Ok(()));
    assert_eq!(b.add_point(p(10, 10)), Ok(()));
    assert_eq!(b.add_point(p(5, -5)), Err(EditError::SelfIntersection));
    assert_eq!(b.contours, vec![vec![p(0, 0), p(10, 0), p(10, 10)]]);
}

#[test]
fn edge_is_not_tested_against_the_edge_before_it() {
    let mut b = PolygonBuilder::new();
    assert_eq!(b.add_point(p(0, 0)), Ok(()));
    assert_eq!(b.add_point(p(10, 0)), Ok(()));
    // Doubles back over the edge before it, which shares its start.
    assert_eq!(b.add_point(p(5, 0)), Ok(()));
    assert_eq!(b.contours, vec![vec![p(0, 0), p(10, 0), p(5, 0)]]);
}

#[test]
fn edge_touching_an_earlier_edge_is_refused() {
    let mut b = PolygonBuilder::new();
    square(&mut b);
    assert_eq!(b.close_path(), Ok(()));
    assert_eq!(b.add_point(p(20, 5)), Ok(()));
    // Ends on the right side of the square.
    assert_eq!(b.add_point(p(10, 5)), Err(EditError::SelfIntersection));
    assert_eq!(b.contours[1], vec![p(20, 5)]);
}

#[test]
fn first_points_are_always_accepted() {
    let mut b = PolygonBuilder::new();
    square(&mut b);
    assert_eq!(b.close_path(), Ok(()));
    // A single point forms no edge, even inside the square.
    assert_eq!(b.add_point(p(5, 5)), Ok(()));
    assert_eq!(b.contours[1], vec![p(5, 5)]);
}

#[test]
fn close_path_with_two_points_fails_and_clears() {
    let mut b = PolygonBuilder::new();
    assert_eq!(b.add_point(p(0, 0)), Ok(()));
    assert_eq!(b.add_point(p(10, 0)), Ok(()));
    assert_eq!(b.close_path(), Err(EditError::TooFewVertices));
    assert_eq!(b.contours, vec![Vec::<Point>::new()]);
}

#[test]
fn close_path_with_no_points_fails() {
    let mut b = PolygonBuilder::new();
    assert_eq!(b.close_path(), Err(EditError::TooFewVertices));
    assert_eq!(b.contours, vec![Vec::<Point>::new()]);
}

#[test]
fn close_path_keeps_earlier_contours_when_it_clears() {
    let mut b = PolygonBuilder::new();
    square(&mut b);
    assert_eq!(b.close_path(), Ok(()));
    assert_eq!(b.add_point(p(20, 20)), Ok(()));
    assert_eq!(b.close_path(), Err(EditError::TooFewVertices));
    assert_eq!(
        b.contours,
        vec![vec![p(0, 0), p(10, 0), p(10, 10), p(0, 10), p(0, 0)], vec![]]
    );
}

#[test]
fn closing_edge_that_crosses_is_rolled_back() {
    let mut b = PolygonBuilder::new();
    assert_eq!(b.add_point(p(0, 0)), Ok(()));
    assert_eq!(b.add_point(p(10, 0)), Ok(()));
    assert_eq!(b.add_point(p(10, 10)), Ok(()));
    assert_eq!(b.add_point(p(20, 10)), Ok(()));
    assert_eq!(b.add_point(p(20, 5)), Ok(()));
    // The closing edge (20,5)->(0,0) crosses (10,0)->(10,10) at (10, 2.5).
    let before = b.contours.clone();
    assert_eq!(b.close_path(), Err(EditError::SelfIntersection));
    assert_eq!(b.contours, before);
    // The contour is still open for editing.
    assert_eq!(b.add_point(p(20, -5)), Ok(()));
    assert_eq!(b.close_path(), Ok(()));
}

#[test]
fn closing_edge_is_not_tested_against_the_first_edge() {
    let mut b = PolygonBuilder::new();
    // The closing edge (5,0)->(0,0) lies on the first edge (0,0)->(10,0)
    // and shares its start; the first edge is its neighbour.
    assert_eq!(b.add_point(p(0, 0)), Ok(()));
    assert_eq!(b.add_point(p(10, 0)), Ok(()));
    assert_eq!(b.add_point(p(10, 10)), Ok(()));
    assert_eq!(b.add_point(p(0, 10)), Ok(()));
    assert_eq!(b.close_path(), Ok(()));
}

#[test]
fn finish_with_empty_open_contour_succeeds() {
    let mut b = PolygonBuilder::new();
    square(&mut b);
    assert_eq!(b.close_path(), Ok(()));
    let polygon = b.finish().unwrap();
    assert_eq!(polygon, vec![vec![p(0, 0), p(10, 0), p(10, 10), p(0, 10), p(0, 0)]]);
    assert_eq!(b.contours, vec![Vec::<Point>::new()]);
}

#[test]
fn finish_on_a_new_builder_gives_an_empty_polygon() {
    let mut b = PolygonBuilder::new();
    assert_eq!(b.finish(), Ok(vec![]));
    assert_eq!(b.contours, vec![Vec::<Point>::new()]);
}

#[test]
fn finish_closes_the_open_contour() {
    let mut b = PolygonBuilder::new();
    square(&mut b);
    let polygon = b.finish().unwrap();
    assert_eq!(polygon, vec![vec![p(0, 0), p(10, 0), p(10, 10), p(0, 10), p(0, 0)]]);
    assert_eq!(b.contours, vec![Vec::<Point>::new()]);
}

#[test]
fn finish_with_two_points_fails_and_clears() {
    let mut b = PolygonBuilder::new();
    square(&mut b);
    assert_eq!(b.close_path(), Ok(()));
    assert_eq!(b.add_point(p(20, 20)), Ok(()));
    assert_eq!(b.add_point(p(30, 20)), Ok(()));
    assert_eq!(b.finish(), Err(EditError::TooFewVertices));
    assert_eq!(
        b.contours,
        vec![vec![p(0, 0), p(10, 0), p(10, 10), p(0, 10), p(0, 0)], vec![]]
    );
    // The open contour is empty now, so finishing succeeds.
    assert_eq!(
        b.finish(),
        Ok(vec![vec![p(0, 0), p(10, 0), p(10, 10), p(0, 10), p(0, 0)]])
    );
}

#[test]
fn finish_that_cannot_close_changes_nothing() {
    let mut b = PolygonBuilder::new();
    assert_eq!(b.add_point(p(0, 0)), Ok(()));
    assert_eq!(b.add_point(p(10, 0)), Ok(()));
    assert_eq!(b.add_point(p(10, 10)), Ok(()));
    assert_eq!(b.add_point(p(20, 10)), Ok(()));
    assert_eq!(b.add_point(p(20, 5)), Ok(()));
    let before = b.contours.clone();
    assert_eq!(b.finish(), Err(EditError::SelfIntersection));
    assert_eq!(b.contours, before);
}

#[test]
fn two_contours_side_by_side() {
    let mut b = PolygonBuilder::new();
    square(&mut b);
    assert_eq!(b.close_path(), Ok(()));
    assert_eq!(b.add_point(p(20, 0)), Ok(()));
    assert_eq!(b.add_point(p(30, 0)), Ok(()));
    assert_eq!(b.add_point(p(30, 10)), Ok(()));
    let polygon = b.finish().unwrap();
    assert_eq!(
        polygon,
        vec![
            vec![p(0, 0), p(10, 0), p(10, 10), p(0, 10), p(0, 0)],
            vec![p(20, 0), p(30, 0), p(30, 10), p(20, 0)],
        ]
    );
}
