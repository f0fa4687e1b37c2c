use polygon_clip::builder::EditError;
use polygon_clip::orientation::Orientation;
use polygon_clip::point::Point;
use polygon_clip::session::{Command, Notice, Session, Status};

fn p(x: i64, y: i64) -> Point {
    Point::new(x, y)
}

fn draw(s: &mut Session, points: &[(i64, i64)]) {
    for &(x, y) in points {
        assert_eq!(s.step(Command::AddPoint(p(x, y))), Notice::Prompt);
    }
}

#[test]
fn new_session_draws_the_subject() {
    let s = Session::new();
    assert_eq!(s.status, Status::Main);
    assert_eq!(s.subject_builder.contours, vec![Vec::<Point>::new()]);
    assert_eq!(s.clip_builder.contours, vec![Vec::<Point>::new()]);
    assert_eq!(s.subject, Vec::<Vec<Point>>::new());
    assert_eq!(s.clip, Vec::<Vec<Point>>::new());
}

#[test]
fn session_from_drawing_to_result() {
    let mut s = Session::new();
    draw(&mut s, &[(0, 0), (2, 0), (2, 2), (0, 2)]);
    assert_eq!(s.status, Status::Main);
    assert_eq!(s.step(Command::Finish), Notice::Prompt);
    assert_eq!(s.status, Status::Clipper);
    assert_eq!(s.subject, vec![vec![p(0, 0), p(2, 0), p(2, 2), p(0, 2), p(0, 0)]]);
    assert_eq!(s.subject_builder.contours, vec![Vec::<Point>::new()]);
    draw(&mut s, &[(1, 1), (3, 1), (3, 3), (1, 3)]);
    assert_eq!(s.clip_builder.contours, vec![vec![p(1, 1), p(3, 1), p(3, 3), p(1, 3)]]);
    assert_eq!(s.step(Command::ClosePath), Notice::Closed(Orientation::Clockwise));
    assert_eq!(s.status, Status::Clipper);
    assert_eq!(s.step(Command::Finish), Notice::Prompt);
    assert_eq!(s.status, Status::Result);
    assert_eq!(s.clip, vec![vec![p(1, 1), p(3, 1), p(3, 3), p(1, 3), p(1, 1)]]);
    let r = s.clipped();
    assert_eq!(r.result, vec![vec![p(2, 1), p(2, 2), p(1, 2), p(1, 1), p(2, 1)]]);
    // While the result is shown, drawing is ignored.
    let shown = s.clone();
    assert_eq!(s.step(Command::AddPoint(p(5, 5))), Notice::Ignored);
    assert_eq!(s.step(Command::ClosePath), Notice::Ignored);
    assert_eq!(s, shown);
    // Finishing starts again.
    assert_eq!(s.step(Command::Finish), Notice::Prompt);
    assert_eq!(s, Session::new());
}

#[test]
fn clearing_the_result_starts_again() {
    let mut s = Session::new();
    draw(&mut s, &[(0, 0), (0, 2), (2, 2)]);
    assert_eq!(s.step(Command::Finish), Notice::Prompt);
    assert_eq!(s.step(Command::Finish), Notice::Prompt);
    assert_eq!(s.status, Status::Result);
    assert_eq!(s.clip, Vec::<Vec<Point>>::new());
    assert_eq!(s.step(Command::Clear), Notice::Prompt);
    assert_eq!(s, Session::new());
}

#[test]
fn closing_tells_which_way_the_contour_turns() {
    let mut s = Session::new();
    draw(&mut s, &[(0, 0), (2, 0), (2, 2), (0, 2)]);
    assert_eq!(s.step(Command::ClosePath), Notice::Closed(Orientation::Clockwise));
    draw(&mut s, &[(10, 0), (10, 2), (12, 2), (12, 0)]);
    assert_eq!(s.step(Command::ClosePath), Notice::Closed(Orientation::CounterClockwise));
    assert_eq!(s.subject_builder.contours.len(), 3);
}

#[test]
fn refusals_leave_the_status() {
    let mut s = Session::new();
    draw(&mut s, &[(0, 0), (10, 0)]);
    assert_eq!(s.step(Command::ClosePath), Notice::Refused(EditError::TooFewVertices));
    assert_eq!(s.subject_builder.contours, vec![Vec::<Point>::new()]);
    draw(&mut s, &[(0, 0), (10, 0), (10, 10)]);
    assert_eq!(
        s.step(Command::AddPoint(p(5, -5))),
        Notice::Refused(EditError::SelfIntersection)
    );
    assert_eq!(s.subject_builder.contours, vec![vec![p(0, 0), p(10, 0), p(10, 10)]]);
    draw(&mut s, &[(20, 10), (20, 5)]);
    assert_eq!(s.step(Command::Finish), Notice::Refused(EditError::SelfIntersection));
    assert_eq!(s.status, Status::Main);
    assert_eq!(s.subject, Vec::<Vec<Point>>::new());
    assert_eq!(s.step(Command::ClosePath), Notice::Refused(EditError::SelfIntersection));
    assert_eq!(s.status, Status::Main);
}

#[test]
fn finishing_a_contour_of_two_points_is_refused() {
    let mut s = Session::new();
    draw(&mut s, &[(0, 0), (10, 0)]);
    assert_eq!(s.step(Command::Finish), Notice::Refused(EditError::TooFewVertices));
    assert_eq!(s.status, Status::Main);
    assert_eq!(s.subject_builder.contours, vec![Vec::<Point>::new()]);
    // The contour is empty now, and finishing goes on with no contour.
    assert_eq!(s.step(Command::Finish), Notice::Prompt);
    assert_eq!(s.status, Status::Clipper);
    assert_eq!(s.subject, Vec::<Vec<Point>>::new());
}

#[test]
fn clearing_empties_the_polygon_being_drawn() {
    let mut s = Session::new();
    draw(&mut s, &[(0, 0), (0, 2), (2, 2)]);
    assert_eq!(s.step(Command::ClosePath), Notice::Closed(Orientation::CounterClockwise));
    draw(&mut s, &[(5, 5)]);
    assert_eq!(s.step(Command::Clear), Notice::Cleared);
    assert_eq!(s, Session::new());
    draw(&mut s, &[(0, 0), (0, 2), (2, 2)]);
    assert_eq!(s.step(Command::Finish), Notice::Prompt);
    draw(&mut s, &[(1, 1), (1, 3)]);
    assert_eq!(s.step(Command::Clear), Notice::Cleared);
    assert_eq!(s.status, Status::Clipper);
    assert_eq!(s.clip_builder.contours, vec![Vec::<Point>::new()]);
    assert_eq!(s.subject, vec![vec![p(0, 0), p(0, 2), p(2, 2), p(0, 0)]]);
}

#[test]
fn clip_polygon_may_cross_the_subject() {
    let mut s = Session::new();
    draw(&mut s, &[(0, 0), (10, 0), (10, 10), (0, 10)]);
    assert_eq!(s.step(Command::Finish), Notice::Prompt);
    // The edges of the clip polygon are tested against each other only.
    draw(&mut s, &[(4, -5), (6, -5), (6, 15), (4, 15)]);
    assert_eq!(s.step(Command::Finish), Notice::Prompt);
    assert_eq!(s.status, Status::Result);
    assert_eq!(
        s.clipped().result,
        vec![vec![p(6, 0), p(6, 10), p(4, 10), p(4, 0), p(6, 0)]]
    );
}
