//! Where the points come from: every point that clipping gives is a vertex
//! of one of the two polygons or the crossing of an edge of the subject with
//! an edge of the clip polygon.

use vstd::prelude::*;
use crate::apart::{
    contour_at, contour_base, holds_polygon, lemma_contour_base_grows, lemma_locate,
    lemma_polygon_len, lemma_polygon_stands, ring_next,
};
use crate::clip::clip_spec;
use crate::closed::lemma_built_records_are_fit;
use crate::insert::{
    chain_edge, insert_pair, insert_row, insert_rows, scan, splice, with_intersections,
};
use crate::point::{Point, contours_in_range};
use crate::ratio::Ratio;
use crate::segment::{Hit, Segment, hit_of, intersection_spec, lemma_hit_is_well_formed};
use crate::table::{
    Chain, VertexRecord, initial_records, original_record, polygon_records, records_wf,
    vertex_count,
};
use crate::walk::{
    ClipView, is_leftover_seed, is_result_seed, leftover_pass, leftover_walk, mark,
    on_emitted_edge, result_chain, result_pass, trace_loop, with_piece,
};

verus! {

/// The `i`-th vertex of contour `k` of a polygon.
pub open spec fn vertex_at(p: Seq<Seq<Point>>, k: int, i: int) -> Point {
    p[k][i]
}

/// The edge that leaves the `i`-th vertex of a contour: to the vertex after
/// it, or from the last vertex back to the first.
pub open spec fn ring_edge(c: Seq<Point>, i: int) -> Segment {
    Segment {
        start: c[i],
        end: c[if i + 1 < vertex_count(c) {
            i + 1
        } else {
            0
        }],
    }
}

/// The point is a vertex of the polygon.
pub open spec fn is_vertex(p: Seq<Seq<Point>>, q: Point) -> bool {
    exists|k: int, i: int|
        0 <= k < p.len() && 0 <= i < vertex_count(p[k]) && #[trigger] vertex_at(p, k, i) == q
}

/// What `intersection` reports of edge `i` of contour `k` of the subject and
/// edge `j` of contour `m` of the clip polygon.
pub open spec fn crossing_at(
    subject: Seq<Seq<Point>>,
    clip: Seq<Seq<Point>>,
    k: int,
    i: int,
    m: int,
    j: int,
) -> Option<Hit> {
    intersection_spec(ring_edge(subject[k], i), ring_edge(clip[m], j))
}

/// The point is where an edge of the subject crosses an edge of the clip
/// polygon, as `intersection` reports it.
pub open spec fn is_crossing(subject: Seq<Seq<Point>>, clip: Seq<Seq<Point>>, q: Point) -> bool {
    exists|k: int, i: int, m: int, j: int|
        0 <= k < subject.len() && 0 <= i < vertex_count(subject[k]) && 0 <= m < clip.len() && 0
            <= j < vertex_count(clip[m]) && #[trigger] crossing_at(subject, clip, k, i, m, j)
            == Some(hit_of(ring_edge(subject[k], i), ring_edge(clip[m], j))) && hit_of(
            ring_edge(subject[k], i),
            ring_edge(clip[m], j),
        ).point == q
}

/// The point is a vertex of one of the polygons or a crossing of their
/// edges.
pub open spec fn has_source(subject: Seq<Seq<Point>>, clip: Seq<Seq<Point>>, q: Point) -> bool {
    is_vertex(subject, q) || is_vertex(clip, q) || is_crossing(subject, clip, q)
}

/// Every point of the sequence has a source.
pub open spec fn points_have_sources(
    subject: Seq<Seq<Point>>,
    clip: Seq<Seq<Point>>,
    c: Seq<Point>,
) -> bool {
    forall|j: int| 0 <= j < c.len() ==> has_source(subject, clip, #[trigger] c[j])
}

/// Every point of every contour has a source.
pub open spec fn contours_have_sources(
    subject: Seq<Seq<Point>>,
    clip: Seq<Seq<Point>>,
    p: Seq<Seq<Point>>,
) -> bool {
    forall|k: int| 0 <= k < p.len() ==> points_have_sources(subject, clip, #[trigger] p[k])
}

/// Every record is fit for the table and its point has a source.
pub open spec fn table_has_sources(
    subject: Seq<Seq<Point>>,
    clip: Seq<Seq<Point>>,
    t: Seq<VertexRecord>,
) -> bool {
    &&& records_wf(t, t.len() as int)
    &&& forall|i: int| 0 <= i < t.len() ==> has_source(subject, clip, (#[trigger] t[i]).point)
}

/// A record of a polygon as built holds a vertex of the polygon, and the
/// edge that leaves it is an edge of its contour.
proof fn lemma_record_is_vertex(
    t: Seq<VertexRecord>,
    chain: Chain,
    from: int,
    p: Seq<Seq<Point>>,
    g: int,
) -> (r: (int, int))
    requires
        holds_polygon(t, chain, from, p),
        t.len() <= usize::MAX,
        from <= g < from + contour_base(p, p.len() as int),
    ensures
        0 <= r.0 < p.len(),
        0 <= r.1 < vertex_count(p[r.0]),
        t[g].point == vertex_at(p, r.0, r.1),
        chain_edge(t, chain, g) == ring_edge(p[r.0], r.1),
{
    let r = lemma_locate(p, g - from, p.len() as int);
    let (k, i) = r;
    assert(contour_at(t, chain, from, p, k));
    lemma_contour_base_grows(p, k, k);
    lemma_contour_base_grows(p, k + 1, p.len() as int);
    let b = from + contour_base(p, k);
    let n = vertex_count(p[k]) as int;
    let next = ring_next(b, n, g);
    assert(t[g] == original_record(p[k][i], chain, next));
    assert(t[next] == original_record(p[k][next - b], chain, ring_next(b, n, next)));
    r
}

/// A scan stays inside the table.
proof fn lemma_scan_stays_inside(
    t: Seq<VertexRecord>,
    chain: Chain,
    cur: int,
    param: Ratio,
    fuel: nat,
)
    requires
        records_wf(t, t.len() as int),
        0 <= cur < t.len(),
    ensures
        0 <= scan(t, chain, cur, param, fuel) < t.len(),
    decreases fuel,
{
    assert(t[cur].wf(t.len() as int));
    if fuel > 0 {
        lemma_scan_stays_inside(t, chain, t[cur].next_on(chain) as int, param, (fuel - 1) as nat);
    }
}

/// Inserting a crossing of two edges keeps every point with a source.
proof fn lemma_splice_has_sources(
    subject: Seq<Seq<Point>>,
    clip: Seq<Seq<Point>>,
    t: Seq<VertexRecord>,
    i1: int,
    i2: int,
    hit: Hit,
)
    requires
        table_has_sources(subject, clip, t),
        0 <= i1 < t.len(),
        0 <= i2 < t.len(),
        hit.point.in_range(),
        hit.s.wf(),
        hit.t.wf(),
        has_source(subject, clip, hit.point),
    ensures
        table_has_sources(subject, clip, splice(t, i1, i2, hit)),
        splice(t, i1, i2, hit).len() == t.len() + 1,
{
    let a = scan(t, Chain::Subject, i1, hit.s, t.len());
    let b = scan(t, Chain::Clip, i2, hit.t, t.len());
    lemma_scan_stays_inside(t, Chain::Subject, i1, hit.s, t.len());
    lemma_scan_stays_inside(t, Chain::Clip, i2, hit.t, t.len());
    let t2 = splice(t, i1, i2, hit);
    assert(t[a].wf(t.len() as int));
    assert(t[b].wf(t.len() as int));
    assert forall|i: int| 0 <= i < t2.len() implies (#[trigger] t2[i]).wf(t2.len() as int)
        && has_source(subject, clip, t2[i].point) by {
        if i < t.len() {
            assert(t[i].wf(t.len() as int));
            assert(has_source(subject, clip, t[i].point));
        }
    }
}

/// The table as built and the live table, while the pairs of edges are
/// tested: the polygons stand in the first, and every point of the second
/// has a source.
spec fn inserting(
    subject: Seq<Seq<Point>>,
    clip: Seq<Seq<Point>>,
    built: Seq<VertexRecord>,
    subject_end: int,
    t: Seq<VertexRecord>,
) -> bool {
    &&& holds_polygon(built, Chain::Subject, 0, subject)
    &&& holds_polygon(built, Chain::Clip, subject_end, clip)
    &&& subject_end == contour_base(subject, subject.len() as int)
    &&& built.len() == subject_end + contour_base(clip, clip.len() as int)
    &&& built.len() <= usize::MAX
    &&& records_wf(built, built.len() as int)
    &&& built.len() <= t.len()
    &&& table_has_sources(subject, clip, t)
}

proof fn lemma_pair_has_sources(
    subject: Seq<Seq<Point>>,
    clip: Seq<Seq<Point>>,
    built: Seq<VertexRecord>,
    subject_end: int,
    t: Seq<VertexRecord>,
    i1: int,
    i2: int,
)
    requires
        inserting(subject, clip, built, subject_end, t),
        0 <= i1 < subject_end <= i2 < built.len(),
    ensures
        inserting(subject, clip, built, subject_end, insert_pair(built, t, i1, i2)),
{
    let l1 = chain_edge(built, Chain::Subject, i1);
    let l2 = chain_edge(built, Chain::Clip, i2);
    let (k, i) = lemma_record_is_vertex(built, Chain::Subject, 0, subject, i1);
    let (m, j) = lemma_record_is_vertex(built, Chain::Clip, subject_end, clip, i2);
    assert(built[i1].wf(built.len() as int));
    assert(built[i2].wf(built.len() as int));
    assert(built[built[i1].next_on(Chain::Subject) as int].wf(built.len() as int));
    assert(built[built[i2].next_on(Chain::Clip) as int].wf(built.len() as int));
    match intersection_spec(l1, l2) {
        Some(hit) => {
            lemma_hit_is_well_formed(l1, l2);
            assert(crossing_at(subject, clip, k, i, m, j) == Some(hit));
            assert(is_crossing(subject, clip, hit.point));
            lemma_splice_has_sources(subject, clip, t, i1, i2, hit);
        },
        None => {},
    }
}

proof fn lemma_row_has_sources(
    subject: Seq<Seq<Point>>,
    clip: Seq<Seq<Point>>,
    built: Seq<VertexRecord>,
    subject_end: int,
    t: Seq<VertexRecord>,
    i1: int,
    upto: int,
)
    requires
        inserting(subject, clip, built, subject_end, t),
        0 <= i1 < subject_end,
        upto <= built.len(),
    ensures
        inserting(subject, clip, built, subject_end, insert_row(built, t, i1, subject_end, upto)),
    decreases upto - subject_end,
{
    if upto > subject_end {
        lemma_row_has_sources(subject, clip, built, subject_end, t, i1, upto - 1);
        lemma_pair_has_sources(
            subject,
            clip,
            built,
            subject_end,
            insert_row(built, t, i1, subject_end, upto - 1),
            i1,
            upto - 1,
        );
    }
}

proof fn lemma_rows_have_sources(
    subject: Seq<Seq<Point>>,
    clip: Seq<Seq<Point>>,
    built: Seq<VertexRecord>,
    subject_end: int,
    upto: int,
)
    requires
        inserting(subject, clip, built, subject_end, built),
        upto <= subject_end,
    ensures
        inserting(
            subject,
            clip,
            built,
            subject_end,
            insert_rows(built, built, subject_end, built.len() as int, upto),
        ),
    decreases upto,
{
    if upto > 0 {
        lemma_rows_have_sources(subject, clip, built, subject_end, upto - 1);
        lemma_row_has_sources(
            subject,
            clip,
            built,
            subject_end,
            insert_rows(built, built, subject_end, built.len() as int, upto - 1),
            upto - 1,
            built.len() as int,
        );
    }
}

/// Visiting a record keeps every point with a source.
proof fn lemma_mark_has_sources(
    subject: Seq<Seq<Point>>,
    clip: Seq<Seq<Point>>,
    t: Seq<VertexRecord>,
    i: int,
)
    requires
        table_has_sources(subject, clip, t),
        0 <= i < t.len(),
    ensures
        table_has_sources(subject, clip, mark(t, i)),
        mark(t, i).len() == t.len(),
{
    let t1 = mark(t, i);
    assert forall|g: int| 0 <= g < t1.len() implies (#[trigger] t1[g]).wf(t1.len() as int)
        && has_source(subject, clip, t1[g].point) by {
        assert(t[g].wf(t.len() as int));
        assert(has_source(subject, clip, t[g].point));
    }
}

proof fn lemma_trace_has_sources(
    subject: Seq<Seq<Point>>,
    clip: Seq<Seq<Point>>,
    t: Seq<VertexRecord>,
    start: int,
    cur: int,
    points: Seq<Point>,
    fuel: nat,
)
    requires
        table_has_sources(subject, clip, t),
        0 <= start < t.len(),
        0 <= cur < t.len(),
        points_have_sources(subject, clip, points),
    ensures
        table_has_sources(subject, clip, trace_loop(t, start, cur, points, fuel).1),
        trace_loop(t, start, cur, points, fuel).1.len() == t.len(),
        points_have_sources(subject, clip, trace_loop(t, start, cur, points, fuel).0),
    decreases fuel,
{
    if fuel > 0 {
        let next = t[cur].next_on(result_chain(t[cur])) as int;
        assert(t[cur].wf(t.len() as int));
        assert(has_source(subject, clip, t[cur].point));
        assert(has_source(subject, clip, t[start].point));
        lemma_mark_has_sources(subject, clip, t, cur);
        let emitted = points.push(t[cur].point);
        assert(points_have_sources(subject, clip, emitted)) by {
            assert forall|j: int| 0 <= j < emitted.len() implies has_source(
                subject,
                clip,
                #[trigger] emitted[j],
            ) by {
                if j < points.len() {
                    assert(has_source(subject, clip, points[j]));
                }
            }
        }
        if next == start {
            let closed = emitted.push(t[start].point);
            assert forall|j: int| 0 <= j < closed.len() implies has_source(
                subject,
                clip,
                #[trigger] closed[j],
            ) by {
                if j < emitted.len() {
                    assert(has_source(subject, clip, emitted[j]));
                }
            }
        } else {
            lemma_trace_has_sources(
                subject,
                clip,
                mark(t, cur),
                start,
                next,
                emitted,
                (fuel - 1) as nat,
            );
        }
    }
}

proof fn lemma_piece_has_sources(
    subject: Seq<Seq<Point>>,
    clip: Seq<Seq<Point>>,
    done: Seq<Seq<Point>>,
    piece: Seq<Point>,
)
    requires
        contours_have_sources(subject, clip, done),
        points_have_sources(subject, clip, piece),
    ensures
        contours_have_sources(subject, clip, with_piece(done, piece)),
{
    let all = with_piece(done, piece);
    assert forall|k: int| 0 <= k < all.len() implies points_have_sources(
        subject,
        clip,
        #[trigger] all[k],
    ) by {
        if k < done.len() {
            assert(points_have_sources(subject, clip, done[k]));
        }
    }
}

proof fn lemma_leftover_has_sources(
    subject: Seq<Seq<Point>>,
    clip: Seq<Seq<Point>>,
    t: Seq<VertexRecord>,
    chain: Chain,
    start: int,
    cur: int,
    piece: Seq<Point>,
    done: Seq<Seq<Point>>,
    fuel: nat,
)
    requires
        table_has_sources(subject, clip, t),
        0 <= cur < t.len(),
        points_have_sources(subject, clip, piece),
        contours_have_sources(subject, clip, done),
    ensures
        table_has_sources(
            subject,
            clip,
            leftover_walk(t, chain, start, cur, piece, done, fuel).1,
        ),
        leftover_walk(t, chain, start, cur, piece, done, fuel).1.len() == t.len(),
        contours_have_sources(
            subject,
            clip,
            leftover_walk(t, chain, start, cur, piece, done, fuel).0,
        ),
    decreases fuel,
{
    if fuel == 0 {
        lemma_piece_has_sources(subject, clip, done, piece);
    } else {
        let next = t[cur].next_on(chain) as int;
        assert(t[cur].wf(t.len() as int));
        assert(has_source(subject, clip, t[cur].point));
        assert(has_source(subject, clip, t[next].point));
        lemma_mark_has_sources(subject, clip, t, cur);
        let emitted = on_emitted_edge(t[cur], chain);
        let begun = if piece.len() == 0 {
            seq![t[cur].point]
        } else {
            piece
        };
        let piece_after = if emitted {
            begun.push(t[next].point)
        } else {
            Seq::empty()
        };
        let done_after = if emitted {
            done
        } else {
            with_piece(done, piece)
        };
        assert(points_have_sources(subject, clip, piece_after)) by {
            assert forall|j: int| 0 <= j < piece_after.len() implies has_source(
                subject,
                clip,
                #[trigger] piece_after[j],
            ) by {
                if emitted && j < begun.len() && piece.len() > 0 {
                    assert(has_source(subject, clip, piece[j]));
                }
            }
        }
        lemma_piece_has_sources(subject, clip, done, piece);
        if next == start {
            lemma_piece_has_sources(subject, clip, done_after, piece_after);
        } else {
            lemma_leftover_has_sources(
                subject,
                clip,
                mark(t, cur),
                chain,
                start,
                next,
                piece_after,
                done_after,
                (fuel - 1) as nat,
            );
        }
    }
}

proof fn lemma_result_pass_has_sources(
    subject: Seq<Seq<Point>>,
    clip: Seq<Seq<Point>>,
    t: Seq<VertexRecord>,
    upto: int,
)
    requires
        table_has_sources(subject, clip, t),
        upto <= t.len(),
    ensures
        table_has_sources(subject, clip, result_pass(t, upto).1),
        result_pass(t, upto).1.len() == t.len(),
        contours_have_sources(subject, clip, result_pass(t, upto).0),
    decreases upto,
{
    if upto > 0 {
        lemma_result_pass_has_sources(subject, clip, t, upto - 1);
        let before = result_pass(t, upto - 1);
        let seed = upto - 1;
        if is_result_seed(before.1[seed]) {
            lemma_trace_has_sources(
                subject,
                clip,
                before.1,
                seed,
                seed,
                Seq::empty(),
                before.1.len(),
            );
            let walk = trace_loop(before.1, seed, seed, Seq::empty(), before.1.len());
            let all = before.0.push(walk.0);
            assert forall|k: int| 0 <= k < all.len() implies points_have_sources(
                subject,
                clip,
                #[trigger] all[k],
            ) by {
                if k < before.0.len() {
                    assert(points_have_sources(subject, clip, before.0[k]));
                }
            }
        }
    }
}

proof fn lemma_leftover_pass_has_sources(
    subject: Seq<Seq<Point>>,
    clip: Seq<Seq<Point>>,
    t: Seq<VertexRecord>,
    chain: Chain,
    from: int,
    upto: int,
)
    requires
        table_has_sources(subject, clip, t),
        0 <= from,
        upto <= t.len(),
    ensures
        table_has_sources(subject, clip, leftover_pass(t, chain, from, upto).1),
        leftover_pass(t, chain, from, upto).1.len() == t.len(),
        contours_have_sources(subject, clip, leftover_pass(t, chain, from, upto).0),
    decreases upto - from,
{
    if upto > from {
        lemma_leftover_pass_has_sources(subject, clip, t, chain, from, upto - 1);
        let before = leftover_pass(t, chain, from, upto - 1);
        let seed = upto - 1;
        if is_leftover_seed(before.1[seed], chain) {
            lemma_leftover_has_sources(
                subject,
                clip,
                before.1,
                chain,
                seed,
                seed,
                Seq::empty(),
                before.0,
                before.1.len(),
            );
        }
    }
}

impl ClipView {
    /// Every point of every contour is a vertex of one of the polygons or a
    /// crossing of their edges.
    pub open spec fn has_sources(self, subject: Seq<Seq<Point>>, clip: Seq<Seq<Point>>) -> bool {
        &&& contours_have_sources(subject, clip, self.result)
        &&& contours_have_sources(subject, clip, self.leftover_subject)
        &&& contours_have_sources(subject, clip, self.leftover_clip)
    }
}

/// Every point that clipping gives, in the clipped region and in what is
/// left of either polygon, is a vertex of one of the two polygons or the
/// point that `intersection` reports of an edge of the subject and an edge of
/// the clip polygon.
pub proof fn lemma_outputs_have_sources(subject: Seq<Seq<Point>>, clip: Seq<Seq<Point>>)
    requires
        contours_in_range(subject),
        contours_in_range(clip),
        initial_records(subject, clip).len() <= usize::MAX,
    ensures
        clip_spec(subject, clip).has_sources(subject, clip),
{
    let head = polygon_records(subject, Chain::Subject, 0);
    let se = head.len() as int;
    let tail = polygon_records(clip, Chain::Clip, se);
    let built = initial_records(subject, clip);
    let none = Seq::<VertexRecord>::empty();
    assert(built == head + tail);
    lemma_polygon_len(subject, Chain::Subject, 0);
    lemma_polygon_len(clip, Chain::Clip, se);
    lemma_polygon_stands(none, subject, Chain::Subject, tail);
    assert(none + head + tail =~= built);
    lemma_polygon_stands(head, clip, Chain::Clip, none);
    assert(head + tail + none =~= built);
    lemma_built_records_are_fit(subject, clip);
    assert forall|g: int| 0 <= g < built.len() implies has_source(
        subject,
        clip,
        (#[trigger] built[g]).point,
    ) by {
        if g < se {
            let (k, i) = lemma_record_is_vertex(built, Chain::Subject, 0, subject, g);
            assert(is_vertex(subject, built[g].point));
        } else {
            let (m, j) = lemma_record_is_vertex(built, Chain::Clip, se, clip, g);
            assert(is_vertex(clip, built[g].point));
        }
    }
    lemma_rows_have_sources(subject, clip, built, se, se);
    let t = with_intersections(built, se, built.len() as int);
    lemma_result_pass_has_sources(subject, clip, t, t.len() as int);
    let first = result_pass(t, t.len() as int);
    lemma_leftover_pass_has_sources(subject, clip, first.1, Chain::Subject, 0, se);
    let second = leftover_pass(first.1, Chain::Subject, 0, se);
    lemma_leftover_pass_has_sources(
        subject,
        clip,
        second.1,
        Chain::Clip,
        se,
        built.len() as int,
    );
}

} // verus!
