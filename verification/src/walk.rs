//! Walking the finished table: the clipped region and what is left of each
//! polygon outside it.

use vstd::prelude::*;
use crate::point::{Point, Polygon, contours_in_range, contours_of, points_in_range};
use crate::segment::Crossing;
use crate::table::{Chain, Origin, VertexRecord, VertexTable, origin_of, records_wf};

verus! {

/// The table with record `i` marked as visited.
pub open spec fn mark(t: Seq<VertexRecord>, i: int) -> Seq<VertexRecord> {
    t.update(i, VertexRecord { visited: true, ..t[i] })
}

/// The chain along which the walk of the clipped region leaves a record: the
/// subject's while inside the clip region, the clip's from where the subject
/// goes out of it.
pub open spec fn result_chain(r: VertexRecord) -> Chain {
    match r.origin {
        Origin::SubjectOriginal => Chain::Subject,
        Origin::ClipOriginal => Chain::Clip,
        Origin::Intersection(Crossing::Entering) => Chain::Subject,
        Origin::Intersection(Crossing::Exiting) => Chain::Clip,
    }
}

/// The rest of one walk of the clipped region, and the table after it.
///
/// The walk is at `cur` with `points` emitted so far. It emits the point of
/// each record it visits and marks the record, until the next record would be
/// `start`; then it emits the point of `start` once more and ends. A walk that
/// has made `fuel` steps more without coming back ends as it is.
pub open spec fn trace_loop(
    t: Seq<VertexRecord>,
    start: int,
    cur: int,
    points: Seq<Point>,
    fuel: nat,
) -> (Seq<Point>, Seq<VertexRecord>)
    decreases fuel,
{
    if fuel == 0 {
        (points, t)
    } else {
        let next = t[cur].next_on(result_chain(t[cur])) as int;
        let emitted = points.push(t[cur].point);
        if next == start {
            (emitted.push(t[start].point), mark(t, cur))
        } else {
            trace_loop(mark(t, cur), start, next, emitted, (fuel - 1) as nat)
        }
    }
}

/// A walk of the clipped region starts at an intersection not yet visited.
pub open spec fn is_result_seed(r: VertexRecord) -> bool {
    r.origin is Intersection && !r.visited
}

/// The contours of the clipped region found from the seeds before index
/// `upto`, lowest seed first, and the table after those walks. A walk is
/// allowed as many steps as the table has records: one that comes back to its
/// seed at all does so within that many.
pub open spec fn result_pass(t: Seq<VertexRecord>, upto: int) -> (
    Seq<Seq<Point>>,
    Seq<VertexRecord>,
)
    decreases upto,
{
    if upto <= 0 {
        (Seq::empty(), t)
    } else {
        let before = result_pass(t, upto - 1);
        let seed = upto - 1;
        if is_result_seed(before.1[seed]) {
            let walk = trace_loop(before.1, seed, seed, Seq::empty(), before.1.len());
            (before.0.push(walk.0), walk.1)
        } else {
            before
        }
    }
}

/// Whether the edge that leaves a record along `chain` belongs to what is
/// left of that polygon: it does from a vertex of the polygon not yet
/// visited, and from an intersection where the polygon leaves the other one.
pub open spec fn on_emitted_edge(r: VertexRecord, chain: Chain) -> bool {
    match r.origin {
        Origin::SubjectOriginal => chain == Chain::Subject && !r.visited,
        Origin::ClipOriginal => chain == Chain::Clip && !r.visited,
        Origin::Intersection(Crossing::Entering) => chain == Chain::Clip,
        Origin::Intersection(Crossing::Exiting) => chain == Chain::Subject,
    }
}

/// The pieces with `piece` added, unless it is empty.
pub open spec fn with_piece(done: Seq<Seq<Point>>, piece: Seq<Point>) -> Seq<Seq<Point>> {
    if piece.len() > 0 {
        done.push(piece)
    } else {
        done
    }
}

/// The rest of one walk along `chain`, and the table after it.
///
/// The walk is at `cur` with the pieces `done` finished and `piece` open. At
/// each record it marks the record; on an emitted edge it adds the edge to
/// the open piece, which it starts with the record's own point where none is
/// open, and elsewhere it finishes the open piece. It ends when the next
/// record is `start`, or after `fuel` steps, and finishes the open piece.
pub open spec fn leftover_walk(
    t: Seq<VertexRecord>,
    chain: Chain,
    start: int,
    cur: int,
    piece: Seq<Point>,
    done: Seq<Seq<Point>>,
    fuel: nat,
) -> (Seq<Seq<Point>>, Seq<VertexRecord>)
    decreases fuel,
{
    if fuel == 0 {
        (with_piece(done, piece), t)
    } else {
        let next = t[cur].next_on(chain) as int;
        let emitted = on_emitted_edge(t[cur], chain);
        let piece_after = if emitted {
            (if piece.len() == 0 {
                seq![t[cur].point]
            } else {
                piece
            }).push(t[next].point)
        } else {
            Seq::empty()
        };
        let done_after = if emitted {
            done
        } else {
            with_piece(done, piece)
        };
        if next == start {
            (with_piece(done_after, piece_after), mark(t, cur))
        } else {
            leftover_walk(
                mark(t, cur),
                chain,
                start,
                next,
                piece_after,
                done_after,
                (fuel - 1) as nat,
            )
        }
    }
}

/// A walk along a chain starts at a vertex of that polygon not yet visited.
pub open spec fn is_leftover_seed(r: VertexRecord, chain: Chain) -> bool {
    r.origin == origin_of(chain) && !r.visited
}

/// What is left of the polygon of `chain`, found from the seeds at indices
/// from `from` up to but not including `upto`, lowest seed first, and the
/// table after those walks.
pub open spec fn leftover_pass(t: Seq<VertexRecord>, chain: Chain, from: int, upto: int) -> (
    Seq<Seq<Point>>,
    Seq<VertexRecord>,
)
    decreases upto - from,
{
    if upto <= from {
        (Seq::empty(), t)
    } else {
        let before = leftover_pass(t, chain, from, upto - 1);
        let seed = upto - 1;
        if is_leftover_seed(before.1[seed], chain) {
            leftover_walk(before.1, chain, seed, seed, Seq::empty(), before.0, before.1.len())
        } else {
            before
        }
    }
}

/// Walks the clipped region from the seed `start`.
fn trace_from(records: &mut Vec<VertexRecord>, start: usize) -> (points: Vec<Point>)
    requires
        records_wf(old(records)@, old(records)@.len() as int),
        start < old(records).len(),
    ensures
        (points@, final(records)@) == trace_loop(
            old(records)@,
            start as int,
            start as int,
            Seq::empty(),
            old(records)@.len(),
        ),
        final(records)@.len() == old(records)@.len(),
        records_wf(final(records)@, final(records)@.len() as int),
        points_in_range(points@),
{
    let mut points: Vec<Point> = Vec::new();
    let mut cur = start;
    let mut fuel = records.len();
    let ghost whole = trace_loop(
        records@,
        start as int,
        start as int,
        Seq::empty(),
        records@.len(),
    );
    while fuel > 0
        invariant
            records@.len() == old(records)@.len(),
            records_wf(records@, records@.len() as int),
            start < records.len(),
            cur < records.len(),
            points_in_range(points@),
            whole == trace_loop(
                old(records)@,
                start as int,
                start as int,
                Seq::empty(),
                old(records)@.len(),
            ),
            whole == trace_loop(records@, start as int, cur as int, points@, fuel as nat),
        decreases fuel,
    {
        let ghost before = records@;
        let ghost emitted = points@;
        let mut record = records[cur];
        let next = match record.origin {
            Origin::SubjectOriginal => record.next_subject,
            Origin::ClipOriginal => record.next_clip,
            Origin::Intersection(Crossing::Entering) => record.next_subject,
            Origin::Intersection(Crossing::Exiting) => record.next_clip,
        };
        record.visited = true;
        records.set(cur, record);
        points.push(record.point);
        assert(records@ =~= mark(before, cur as int));
        assert(points@ =~= emitted.push(before[cur as int].point));
        if next == start {
            points.push(records[start].point);
            assert(points@ =~= emitted.push(before[cur as int].point).push(
                before[start as int].point,
            ));
            return points;
        }
        cur = next;
        fuel = fuel - 1;
    }
    points
}

/// Walks the clipped region from every intersection not yet visited.
fn walk_result(records: &mut Vec<VertexRecord>) -> (out: Polygon)
    requires
        records_wf(old(records)@, old(records)@.len() as int),
    ensures
        (contours_of(out@), final(records)@) == result_pass(
            old(records)@,
            old(records)@.len() as int,
        ),
        final(records)@.len() == old(records)@.len(),
        records_wf(final(records)@, final(records)@.len() as int),
        contours_in_range(contours_of(out@)),
{
    let mut out: Vec<Vec<Point>> = Vec::new();
    let mut i: usize = 0;
    assert(contours_of(out@) =~= Seq::<Seq<Point>>::empty());
    while i < records.len()
        invariant
            0 <= i <= records.len(),
            contours_in_range(contours_of(out@)),
            records@.len() == old(records)@.len(),
            records_wf(records@, records@.len() as int),
            (contours_of(out@), records@) == result_pass(old(records)@, i as int),
        decreases records.len() - i,
    {
        let record = records[i];
        let is_seed = match record.origin {
            Origin::Intersection(_) => !record.visited,
            _ => false,
        };
        if is_seed {
            let ghost done = contours_of(out@);
            let points = trace_from(records, i);
            out.push(points);
            assert(contours_of(out@) =~= done.push(points@));
        }
        i = i + 1;
    }
    out
}

/// Walks a chain from the seed `start` and adds the pieces found to `out`.
fn leftover_from(
    records: &mut Vec<VertexRecord>,
    chain: Chain,
    start: usize,
    out: &mut Vec<Vec<Point>>,
)
    requires
        records_wf(old(records)@, old(records)@.len() as int),
        start < old(records).len(),
        contours_in_range(contours_of(old(out)@)),
    ensures
        contours_in_range(contours_of(final(out)@)),
        (contours_of(final(out)@), final(records)@) == leftover_walk(
            old(records)@,
            chain,
            start as int,
            start as int,
            Seq::empty(),
            contours_of(old(out)@),
            old(records)@.len(),
        ),
        final(records)@.len() == old(records)@.len(),
        records_wf(final(records)@, final(records)@.len() as int),
{
    let mut piece: Vec<Point> = Vec::new();
    let mut cur = start;
    let mut fuel = records.len();
    let ghost whole = leftover_walk(
        records@,
        chain,
        start as int,
        start as int,
        Seq::empty(),
        contours_of(out@),
        records@.len(),
    );
    while fuel > 0
        invariant
            records@.len() == old(records)@.len(),
            records_wf(records@, records@.len() as int),
            start < records.len(),
            cur < records.len(),
            points_in_range(piece@),
            contours_in_range(contours_of(out@)),
            whole == leftover_walk(
                old(records)@,
                chain,
                start as int,
                start as int,
                Seq::empty(),
                contours_of(old(out)@),
                old(records)@.len(),
            ),
            whole == leftover_walk(
                records@,
                chain,
                start as int,
                cur as int,
                piece@,
                contours_of(out@),
                fuel as nat,
            ),
        decreases fuel,
    {
        let ghost before = records@;
        let ghost piece_before = piece@;
        let ghost done_before = contours_of(out@);
        let mut record = records[cur];
        let emitted = match record.origin {
            Origin::SubjectOriginal => chain == Chain::Subject && !record.visited,
            Origin::ClipOriginal => chain == Chain::Clip && !record.visited,
            Origin::Intersection(Crossing::Entering) => chain == Chain::Clip,
            Origin::Intersection(Crossing::Exiting) => chain == Chain::Subject,
        };
        let next = record.get_next(chain);
        record.visited = true;
        records.set(cur, record);
        assert(records@ =~= mark(before, cur as int));
        if emitted {
            if piece.len() == 0 {
                piece.push(record.point);
            }
            piece.push(records[next].point);
            assert(piece@ =~= (if piece_before.len() == 0 {
                seq![before[cur as int].point]
            } else {
                piece_before
            }).push(before[next as int].point));
        } else {
            if piece.len() > 0 {
                out.push(piece);
                piece = Vec::new();
            }
            assert(piece@ =~= Seq::<Point>::empty());
            assert(contours_of(out@) =~= with_piece(done_before, piece_before));
        }
        if next == start {
            let ghost done_after = contours_of(out@);
            if piece.len() > 0 {
                out.push(piece);
                assert(contours_of(out@) =~= done_after.push(piece@));
            }
            return ;
        }
        cur = next;
        fuel = fuel - 1;
    }
    let ghost done_after = contours_of(out@);
    if piece.len() > 0 {
        out.push(piece);
        assert(contours_of(out@) =~= done_after.push(piece@));
    }
}

/// Walks a chain from every vertex of its polygon not yet visited.
fn walk_leftover(records: &mut Vec<VertexRecord>, chain: Chain, from: usize, upto: usize) -> (out:
    Polygon)
    requires
        records_wf(old(records)@, old(records)@.len() as int),
        from <= upto <= old(records).len(),
    ensures
        (contours_of(out@), final(records)@) == leftover_pass(
            old(records)@,
            chain,
            from as int,
            upto as int,
        ),
        final(records)@.len() == old(records)@.len(),
        records_wf(final(records)@, final(records)@.len() as int),
        contours_in_range(contours_of(out@)),
{
    let mut out: Vec<Vec<Point>> = Vec::new();
    let mut i: usize = from;
    assert(contours_of(out@) =~= Seq::<Seq<Point>>::empty());
    while i < upto
        invariant
            from <= i <= upto <= records.len(),
            contours_in_range(contours_of(out@)),
            records@.len() == old(records)@.len(),
            records_wf(records@, records@.len() as int),
            (contours_of(out@), records@) == leftover_pass(
                old(records)@,
                chain,
                from as int,
                i as int,
            ),
        decreases upto - i,
    {
        let record = records[i];
        let is_seed = !record.visited && match record.origin {
            Origin::SubjectOriginal => chain == Chain::Subject,
            Origin::ClipOriginal => chain == Chain::Clip,
            Origin::Intersection(_) => false,
        };
        if is_seed {
            leftover_from(records, chain, i, &mut out);
        }
        i = i + 1;
    }
    out
}

/// What a clip operation gives: the contours of the clipped region, and what
/// is left of the subject and of the clip polygon.
#[derive(Clone, Debug, PartialEq, Eq)]
pub struct ClipResult {
    pub result: Polygon,
    pub leftover_subject: Polygon,
    pub leftover_clip: Polygon,
}

/// A `ClipResult` as sequences of points.
pub struct ClipView {
    pub result: Seq<Seq<Point>>,
    pub leftover_subject: Seq<Seq<Point>>,
    pub leftover_clip: Seq<Seq<Point>>,
}

impl ClipView {
    /// Every point of every contour is in range.
    pub open spec fn in_range(self) -> bool {
        &&& contours_in_range(self.result)
        &&& contours_in_range(self.leftover_subject)
        &&& contours_in_range(self.leftover_clip)
    }
}

impl View for ClipResult {
    type V = ClipView;

    open spec fn view(&self) -> ClipView {
        ClipView {
            result: contours_of(self.result@),
            leftover_subject: contours_of(self.leftover_subject@),
            leftover_clip: contours_of(self.leftover_clip@),
        }
    }
}

/// The three walks over a table, one after the other on the same marks: the
/// clipped region, then what is left of the subject, then what is left of the
/// clip polygon.
pub open spec fn walk_spec(t: Seq<VertexRecord>, subject_end: int, clip_end: int) -> ClipView {
    let result = result_pass(t, t.len() as int);
    let subject = leftover_pass(result.1, Chain::Subject, 0, subject_end);
    let clip = leftover_pass(subject.1, Chain::Clip, subject_end, clip_end);
    ClipView { result: result.0, leftover_subject: subject.0, leftover_clip: clip.0 }
}

/// Walks a table into which the intersections have been inserted.
pub fn walk_table(table: VertexTable) -> (r: ClipResult)
    requires
        table.wf(),
    ensures
        r@ == walk_spec(table.records@, table.subject_end as int, table.clip_end as int),
        r@.in_range(),
{
    let mut records = table.records;
    let result = walk_result(&mut records);
    let leftover_subject = walk_leftover(&mut records, Chain::Subject, 0, table.subject_end);
    let leftover_clip = walk_leftover(
        &mut records,
        Chain::Clip,
        table.subject_end,
        table.clip_end,
    );
    ClipResult { result, leftover_subject, leftover_clip }
}

/// Whether a walk of the clipped region that is at `cur` comes back to
/// `start` within `fuel` steps.
pub open spec fn trace_returns(t: Seq<VertexRecord>, start: int, cur: int, fuel: nat) -> bool
    decreases fuel,
{
    let next = t[cur].next_on(result_chain(t[cur])) as int;
    fuel > 0 && (next == start || trace_returns(mark(t, cur), start, next, (fuel - 1) as nat))
}

proof fn lemma_trace_ends_on_its_start(
    t: Seq<VertexRecord>,
    start: int,
    cur: int,
    points: Seq<Point>,
    fuel: nat,
)
    requires
        records_wf(t, t.len() as int),
        0 <= start < t.len(),
        0 <= cur < t.len(),
        trace_returns(t, start, cur, fuel),
    ensures
        ({
            let all = trace_loop(t, start, cur, points, fuel).0;
            &&& all.len() >= points.len() + 2
            &&& all[points.len() as int] == t[cur].point
            &&& all[all.len() - 1] == t[start].point
            &&& forall|i: int| 0 <= i < points.len() ==> all[i] == points[i]
        }),
    decreases fuel,
{
    let next = t[cur].next_on(result_chain(t[cur])) as int;
    if next != start {
        let marked = mark(t, cur);
        assert(records_wf(marked, marked.len() as int)) by {
            assert forall|i: int| 0 <= i < marked.len() implies (#[trigger] marked[i]).wf(
                marked.len() as int,
            ) by {
                assert(t[i].wf(t.len() as int));
            }
        }
        lemma_trace_ends_on_its_start(
            marked,
            start,
            next,
            points.push(t[cur].point),
            (fuel - 1) as nat,
        );
    }
}

/// A walk of the clipped region that comes back to its seed gives a closed
/// contour: it starts with the point of the seed and ends with it.
pub proof fn lemma_trace_that_returns_is_closed(t: Seq<VertexRecord>, seed: int)
    requires
        records_wf(t, t.len() as int),
        0 <= seed < t.len(),
        trace_returns(t, seed, seed, t.len()),
    ensures
        ({
            let contour = trace_loop(t, seed, seed, Seq::empty(), t.len()).0;
            &&& contour.len() >= 2
            &&& contour[0] == t[seed].point
            &&& contour[contour.len() - 1] == t[seed].point
        }),
{
    lemma_trace_ends_on_its_start(t, seed, seed, Seq::empty(), t.len());
}

} // verus!
