//! Clipping one polygon by another.

use vstd::prelude::*;
use crate::insert::{insert_intersections, with_intersections};
use crate::point::{Point, Polygon, contours_of, contours_in_range};
use crate::sources::lemma_outputs_have_sources;
use crate::table::{Chain, build_table, contours_nonempty, initial_records, polygon_records};
use crate::walk::{ClipResult, ClipView, walk_spec, walk_table};

verus! {

/// What clipping `subject` by `clip` gives: the table of the two polygons is
/// built, the intersections of their edges are inserted, and the table is
/// walked.
pub open spec fn clip_spec(subject: Seq<Seq<Point>>, clip: Seq<Seq<Point>>) -> ClipView {
    let built = initial_records(subject, clip);
    let subject_end = polygon_records(subject, Chain::Subject, 0).len() as int;
    let clip_end = built.len() as int;
    walk_spec(with_intersections(built, subject_end, clip_end), subject_end, clip_end)
}

/// Clips the subject polygon by the clip polygon.
///
/// Both are expected to be made of closed contours that do not cross
/// themselves or each other, as `PolygonBuilder::finish` hands them out. The
/// last point of each contour is taken to repeat the first.
///
/// Whether a crossing counts as entering or exiting depends on the sense in
/// which the contours are drawn: the clip polygon is taken to lie on the left
/// of its edges where `y` grows upwards, and the subject likewise. A contour
/// drawn that way is clockwise on a screen, as `orientation` tells it. With
/// both polygons drawn so, the walk from an entering crossing follows the
/// subject inside the clip polygon and the clip polygon inside the subject.
pub fn clipping(subject: &Polygon, clip: &Polygon) -> (r: ClipResult)
    requires
        contours_nonempty(contours_of(subject@)),
        contours_nonempty(contours_of(clip@)),
        contours_in_range(contours_of(subject@)),
        contours_in_range(contours_of(clip@)),
    ensures
        r@ == clip_spec(contours_of(subject@), contours_of(clip@)),
        r@.in_range(),
        r@.has_sources(contours_of(subject@), contours_of(clip@)),
{
    let mut table = build_table(subject, clip);
    proof {
        assert(table.records.len() <= usize::MAX);
        lemma_outputs_have_sources(contours_of(subject@), contours_of(clip@));
    }
    insert_intersections(&mut table);
    walk_table(table)
}

/// Clipping is a function of its two polygons: two runs on the same points
/// give the same contours.
pub proof fn lemma_clipping_is_deterministic(
    subject: Seq<Seq<Point>>,
    clip: Seq<Seq<Point>>,
    first: ClipResult,
    second: ClipResult,
)
    requires
        first@ == clip_spec(subject, clip),
        second@ == clip_spec(subject, clip),
    ensures
        first@ == second@,
{
}

} // verus!
