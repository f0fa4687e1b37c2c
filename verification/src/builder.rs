//! Building a polygon point by point, refusing edges that cross.

use vstd::prelude::*;
use crate::point::{Point, Polygon, points_in_range, contours_of, contours_in_range};
use crate::segment::{Segment, edge, intersection, intersection_spec};

verus! {

/// Why an edit was refused.
#[derive(Clone, Copy, Debug, PartialEq, Eq, Structural)]
pub enum EditError {
    /// The new edge would cross an edge accepted earlier.
    SelfIntersection,
    /// A contour of two points or fewer cannot be closed.
    TooFewVertices,
}

/// A polygon under construction: closed contours, then one open contour that
/// may be empty.
#[derive(Clone, Debug, PartialEq, Eq)]
pub struct PolygonBuilder {
    pub contours: Vec<Vec<Point>>,
}

impl View for PolygonBuilder {
    type V = Seq<Seq<Point>>;

    open spec fn view(&self) -> Seq<Seq<Point>> {
        contours_of(self.contours@)
    }
}

/// A contour that has been closed: three points or more, then the first one
/// again.
pub open spec fn is_closed(c: Seq<Point>) -> bool {
    c.len() >= 4 && c[0] == c[c.len() - 1]
}

/// Every contour is closed and in range: what `finish` hands out.
pub open spec fn is_finished(p: Seq<Seq<Point>>) -> bool {
    &&& contours_in_range(p)
    &&& forall|k: int| 0 <= k < p.len() ==> is_closed(#[trigger] p[k])
}

/// None of the edges of `c` that start at an index from `from` up to but not
/// including `to` meets `e`.
pub open spec fn contour_clear_of(c: Seq<Point>, e: Segment, from: int, to: int) -> bool {
    forall|j: int| from <= j < to ==> intersection_spec(#[trigger] edge(c, j), e) is None
}

/// The last edge of the open contour meets no edge of an earlier contour and
/// none of its own contour but its neighbours: the edge before it, and, where
/// it closes the contour, the first edge too.
pub open spec fn last_edge_valid(p: Seq<Seq<Point>>, closing: bool) -> bool {
    let cur = p.last();
    cur.len() >= 2 ==> {
        let e = edge(cur, cur.len() - 2);
        &&& forall|k: int|
            0 <= k < p.len() - 1 ==> contour_clear_of(#[trigger] p[k], e, 0, p[k].len() - 1)
        &&& contour_clear_of(
            cur,
            e,
            if closing {
                1
            } else {
                0
            },
            cur.len() - 3,
        )
    }
}

/// The polygon with `pt` added to its open contour.
pub open spec fn with_point(p: Seq<Seq<Point>>, pt: Point) -> Seq<Seq<Point>> {
    p.update(p.len() - 1, p.last().push(pt))
}

/// The polygon with the first point of its open contour added at the end of
/// that contour.
pub open spec fn with_closing_point(p: Seq<Seq<Point>>) -> Seq<Seq<Point>> {
    with_point(p, p.last()[0])
}

/// The polygon with its open contour emptied.
pub open spec fn with_cleared(p: Seq<Seq<Point>>) -> Seq<Seq<Point>> {
    p.update(p.len() - 1, Seq::empty())
}

/// What `add_point` answers.
pub open spec fn add_point_result(p: Seq<Seq<Point>>, pt: Point) -> Result<(), EditError> {
    if last_edge_valid(with_point(p, pt), false) {
        Ok(())
    } else {
        Err(EditError::SelfIntersection)
    }
}

/// The polygon as `add_point` leaves it: with the point where it is
/// accepted, unchanged where it is refused.
pub open spec fn after_add_point(p: Seq<Seq<Point>>, pt: Point) -> Seq<Seq<Point>> {
    if add_point_result(p, pt) is Ok {
        with_point(p, pt)
    } else {
        p
    }
}

/// What `close_path` answers.
pub open spec fn close_path_result(p: Seq<Seq<Point>>) -> Result<(), EditError> {
    if p.last().len() <= 2 {
        Err(EditError::TooFewVertices)
    } else if last_edge_valid(with_closing_point(p), true) {
        Ok(())
    } else {
        Err(EditError::SelfIntersection)
    }
}

/// The polygon as `close_path` leaves it: with the contour closed and an
/// empty one opened after it, or with the contour emptied where it is too
/// short, or unchanged where the closing edge is refused.
pub open spec fn after_close_path(p: Seq<Seq<Point>>) -> Seq<Seq<Point>> {
    match close_path_result(p) {
        Ok(_) => with_closing_point(p).push(Seq::empty()),
        Err(EditError::TooFewVertices) => with_cleared(p),
        Err(EditError::SelfIntersection) => p,
    }
}

/// What `finish` answers: the closed contours, once the open contour is
/// empty or has been closed.
pub open spec fn finish_result(p: Seq<Seq<Point>>) -> Result<Seq<Seq<Point>>, EditError> {
    if p.last().len() == 0 {
        Ok(p.drop_last())
    } else {
        match close_path_result(p) {
            Ok(_) => Ok(with_closing_point(p)),
            Err(e) => Err(e),
        }
    }
}

/// The polygon as `finish` leaves it: without a point where the contours
/// have been handed out, as `close_path` leaves it elsewhere.
pub open spec fn after_finish(p: Seq<Seq<Point>>) -> Seq<Seq<Point>> {
    if finish_result(p) is Ok {
        seq![Seq::empty()]
    } else {
        after_close_path(p)
    }
}

/// Tests the edges of `c` that start at an index from `from` up to but not
/// including `to` against `e`.
fn contour_clear(c: &Vec<Point>, e: &Segment, from: usize, to: usize) -> (b: bool)
    requires
        points_in_range(c@),
        e.in_range(),
        to < c.len() || to <= from,
    ensures
        b == contour_clear_of(c@, *e, from as int, to as int),
{
    let mut j = from;
    while j < to
        invariant
            from <= j,
            j <= to || to <= from,
            to < c.len() || to <= from,
            points_in_range(c@),
            e.in_range(),
            contour_clear_of(c@, *e, from as int, j as int),
        decreases to - j,
    {
        let seg = Segment { start: c[j], end: c[j + 1] };
        assert(seg == edge(c@, j as int));
        if intersection(&seg, e).is_some() {
            return false;
        }
        j = j + 1;
    }
    true
}

impl PolygonBuilder {
    /// There is an open contour, the contours before it are closed, and all
    /// points are in range.
    pub open spec fn wf(&self) -> bool {
        &&& self@.len() >= 1
        &&& contours_in_range(self@)
        &&& is_finished(self@.drop_last())
    }

    /// Starts a polygon with no points.
    pub fn new() -> (b: PolygonBuilder)
        ensures
            b.wf(),
            b@ == seq![Seq::<Point>::empty()],
    {
        let mut contours: Vec<Vec<Point>> = Vec::new();
        contours.push(Vec::new());
        let b = PolygonBuilder { contours };
        assert(b@ =~~= seq![Seq::<Point>::empty()]);
        b
    }

    /// Tests the last edge of the open contour against the edges accepted
    /// before it.
    fn last_edge_is_valid(&self, closing: bool) -> (b: bool)
        requires
            self.wf(),
        ensures
            b == last_edge_valid(self@, closing),
    {
        let n = self.contours.len();
        let cur = &self.contours[n - 1];
        let len = cur.len();
        if len < 2 {
            return true;
        }
        assert(cur@ == self@.last());
        let e = Segment { start: cur[len - 2], end: cur[len - 1] };
        assert(e == edge(cur@, len - 2));
        let mut k: usize = 0;
        while k < n - 1
            invariant
                0 <= k <= n - 1,
                n == self.contours.len(),
                self.wf(),
                e.in_range(),
                len >= 2,
                len == self@.last().len(),
                e == edge(self@.last(), len - 2),
                forall|i: int|
                    0 <= i < k ==> contour_clear_of(
                        #[trigger] self@[i],
                        e,
                        0,
                        self@[i].len() - 1,
                    ),
            decreases n - 1 - k,
        {
            let c = &self.contours[k];
            assert(c@ == self@[k as int]);
            assert(is_closed(self@.drop_last()[k as int]));
            if !contour_clear(c, &e, 0, c.len() - 1) {
                return false;
            }
            k = k + 1;
        }
        let from: usize = if closing {
            1
        } else {
            0
        };
        let to: usize = if len >= 3 {
            len - 3
        } else {
            0
        };
        contour_clear(cur, &e, from, to)
    }

    /// Adds a point to the open contour, unless the edge it forms with the
    /// point before it meets an edge accepted earlier; then nothing changes.
    pub fn add_point(&mut self, p: Point) -> (r: Result<(), EditError>)
        requires
            old(self).wf(),
            p.in_range(),
        ensures
            final(self).wf(),
            r == add_point_result(old(self)@, p),
            final(self)@ == after_add_point(old(self)@, p),
    {
        let n = self.contours.len();
        self.contours[n - 1].push(p);
        assert(self@ =~~= with_point(old(self)@, p));
        assert(self@.drop_last() =~~= old(self)@.drop_last());
        if self.last_edge_is_valid(false) {
            Ok(())
        } else {
            self.contours[n - 1].pop();
            assert(self@ =~~= old(self)@);
            Err(EditError::SelfIntersection)
        }
    }
    /// Closes the open contour and opens an empty one after it.
    ///
    /// A contour of two points or fewer is emptied instead. Where the closing
    /// edge meets an edge accepted earlier, nothing changes.
    pub fn close_path(&mut self) -> (r: Result<(), EditError>)
        requires
            old(self).wf(),
        ensures
            final(self).wf(),
            r == close_path_result(old(self)@),
            final(self)@ == after_close_path(old(self)@),
    {
        let n = self.contours.len();
        if self.contours[n - 1].len() > 2 {
            let first = self.contours[n - 1][0];
            assert(first == old(self)@.last()[0]);
            assert(points_in_range(old(self)@[n - 1]));
            self.contours[n - 1].push(first);
            assert(self@ =~~= with_closing_point(old(self)@));
            assert(self@.drop_last() =~~= old(self)@.drop_last());
            if self.last_edge_is_valid(true) {
                self.contours.push(Vec::new());
                assert(self@ =~~= with_closing_point(old(self)@).push(Seq::empty()));
                assert(self@.drop_last() =~~= with_closing_point(old(self)@));
                assert forall|k: int| 0 <= k < self@.drop_last().len() implies is_closed(
                    #[trigger] self@.drop_last()[k],
                ) by {
                    if k < n - 1 {
                        assert(is_closed(old(self)@.drop_last()[k]));
                    }
                }
                Ok(())
            } else {
                self.contours[n - 1].pop();
                assert(self@ =~~= old(self)@);
                Err(EditError::SelfIntersection)
            }
        } else {
            self.contours[n - 1].clear();
            assert(self@ =~~= with_cleared(old(self)@));
            assert(self@.drop_last() =~~= old(self)@.drop_last());
            Err(EditError::TooFewVertices)
        }
    }

    /// Closes the open contour, unless it is empty, and hands out the closed
    /// contours; the builder then starts again with no points.
    ///
    /// Where the open contour cannot be closed, the error of `close_path` is
    /// returned and the builder is left as `close_path` leaves it.
    pub fn finish(&mut self) -> (r: Result<Polygon, EditError>)
        requires
            old(self).wf(),
        ensures
            final(self).wf(),
            match r {
                Ok(p) => finish_result(old(self)@) == Ok::<Seq<Seq<Point>>, EditError>(
                    contours_of(p@),
                ) && is_finished(contours_of(p@)),
                Err(e) => finish_result(old(self)@) == Err::<Seq<Seq<Point>>, EditError>(e),
            },
            final(self)@ == after_finish(old(self)@),
    {
        let n = self.contours.len();
        if self.contours[n - 1].len() > 0 {
            match self.close_path() {
                Err(e) => {
                    return Err(e);
                },
                Ok(()) => {
                    assert(self@.drop_last() =~~= with_closing_point(old(self)@));
                },
            }
        }
        let ghost closed = self@.drop_last();
        self.contours.pop();
        assert(self@ =~~= closed);
        let mut done: Vec<Vec<Point>> = Vec::new();
        std::mem::swap(&mut self.contours, &mut done);
        self.contours.push(Vec::new());
        assert(self@ =~~= seq![Seq::<Point>::empty()]);
        assert(self@.drop_last() =~~= Seq::<Seq<Point>>::empty());
        assert(contours_of(done@) =~~= closed);
        Ok(done)
    }
}

} // verus!
