//! The table of vertex records that a clip operation works on.

use vstd::prelude::*;
use crate::chains::{is_built, lemma_initial_records_are_built};
use crate::point::{Point, Polygon, contours_of, contours_in_range, points_in_range};
use crate::ratio::Ratio;
use crate::segment::Crossing;

verus! {

/// Which of the two polygons of a clip operation.
#[derive(Clone, Copy, Debug, PartialEq, Eq, Structural)]
pub enum Chain {
    Subject,
    Clip,
}

/// Where a vertex record comes from.
#[derive(Clone, Copy, Debug, PartialEq, Eq, Structural)]
pub enum Origin {
    SubjectOriginal,
    ClipOriginal,
    Intersection(Crossing),
}

/// One vertex of the table. Records are linked into circular lists by index:
/// one list along the subject polygon and one along the clip polygon, an
/// intersection being on both.
#[derive(Clone, Copy, Debug, PartialEq, Eq, Structural)]
pub struct VertexRecord {
    pub point: Point,
    pub origin: Origin,
    /// Position along the subject edge; one for a vertex of a polygon.
    pub param_subject: Ratio,
    /// Position along the clip edge; one for a vertex of a polygon.
    pub param_clip: Ratio,
    pub next_subject: usize,
    pub next_clip: usize,
    pub visited: bool,
}

/// The records of a clip operation: the vertices of the subject polygon from
/// index zero, those of the clip polygon from `subject_end`, and the
/// intersections from `clip_end`.
#[derive(Clone, Debug, PartialEq, Eq)]
pub struct VertexTable {
    pub records: Vec<VertexRecord>,
    pub subject_end: usize,
    pub clip_end: usize,
}

impl VertexRecord {
    /// The link of the record along a chain.
    pub open spec fn next_on(self, chain: Chain) -> usize {
        match chain {
            Chain::Subject => self.next_subject,
            Chain::Clip => self.next_clip,
        }
    }

    /// The position of the record along its edge of a chain.
    pub open spec fn param_on(self, chain: Chain) -> Ratio {
        match chain {
            Chain::Subject => self.param_subject,
            Chain::Clip => self.param_clip,
        }
    }

    /// The record with its link along a chain replaced.
    pub open spec fn with_next(self, chain: Chain, next: usize) -> VertexRecord {
        match chain {
            Chain::Subject => VertexRecord { next_subject: next, ..self },
            Chain::Clip => VertexRecord { next_clip: next, ..self },
        }
    }

    /// The record is fit for a table of `n` records: its links stay inside the
    /// table, its point is in range and its positions are fractions of one.
    pub open spec fn wf(self, n: int) -> bool {
        &&& self.point.in_range()
        &&& self.param_subject.wf()
        &&& self.param_clip.wf()
        &&& self.next_subject < n
        &&& self.next_clip < n
    }

    /// The link of the record along a chain.
    pub fn get_next(&self, chain: Chain) -> (next: usize)
        ensures
            next == self.next_on(chain),
    {
        match chain {
            Chain::Subject => self.next_subject,
            Chain::Clip => self.next_clip,
        }
    }

    /// The position of the record along its edge of a chain.
    pub fn get_param(&self, chain: Chain) -> (param: Ratio)
        ensures
            param == self.param_on(chain),
    {
        match chain {
            Chain::Subject => self.param_subject,
            Chain::Clip => self.param_clip,
        }
    }
}

/// Every record is fit for a table of `n` records.
pub open spec fn records_wf(t: Seq<VertexRecord>, n: int) -> bool {
    forall|i: int| 0 <= i < t.len() ==> (#[trigger] t[i]).wf(n)
}

impl VertexTable {
    /// The two marks are in order and inside the table, and every record is
    /// fit for the table.
    pub open spec fn wf(&self) -> bool {
        &&& self.subject_end <= self.clip_end <= self.records@.len()
        &&& records_wf(self.records@, self.records@.len() as int)
    }
}

/// The origin of the vertices of a polygon.
pub open spec fn origin_of(chain: Chain) -> Origin {
    match chain {
        Chain::Subject => Origin::SubjectOriginal,
        Chain::Clip => Origin::ClipOriginal,
    }
}

/// The record of a vertex of a polygon, linked to `next` along its own chain.
pub open spec fn original_record(p: Point, chain: Chain, next: int) -> VertexRecord {
    VertexRecord {
        point: p,
        origin: origin_of(chain),
        param_subject: Ratio { num: 1, den: 1 },
        param_clip: Ratio { num: 1, den: 1 },
        next_subject: if chain == Chain::Subject {
            next as usize
        } else {
            0
        },
        next_clip: if chain == Chain::Clip {
            next as usize
        } else {
            0
        },
        visited: false,
    }
}

/// How many records a contour gives: one for each point but the last, which
/// repeats the first.
pub open spec fn vertex_count(c: Seq<Point>) -> nat {
    if c.len() == 0 {
        0
    } else {
        (c.len() - 1) as nat
    }
}

/// The records of one contour, placed from index `base`: each linked to the
/// one after it, the last back to the first.
pub open spec fn contour_records(c: Seq<Point>, chain: Chain, base: int) -> Seq<VertexRecord> {
    Seq::new(
        vertex_count(c),
        |i: int|
            original_record(
                c[i],
                chain,
                if i + 1 < vertex_count(c) {
                    base + i + 1
                } else {
                    base
                },
            ),
    )
}

/// The records of the contours of a polygon, one contour after the other,
/// placed from index `base`.
pub open spec fn polygon_records(p: Seq<Seq<Point>>, chain: Chain, base: int) -> Seq<
    VertexRecord,
>
    decreases p.len(),
{
    if p.len() == 0 {
        Seq::empty()
    } else {
        let head = polygon_records(p.drop_last(), chain, base);
        head + contour_records(p.last(), chain, base + head.len())
    }
}

/// The table before any intersection is inserted.
pub open spec fn initial_records(subject: Seq<Seq<Point>>, clip: Seq<Seq<Point>>) -> Seq<
    VertexRecord,
> {
    let head = polygon_records(subject, Chain::Subject, 0);
    head + polygon_records(clip, Chain::Clip, head.len() as int)
}

/// No contour is empty.
pub open spec fn contours_nonempty(p: Seq<Seq<Point>>) -> bool {
    forall|k: int| 0 <= k < p.len() ==> (#[trigger] p[k]).len() > 0
}

/// Adds the records of one contour at the end of the table.
fn append_contour(records: &mut Vec<VertexRecord>, contour: &Vec<Point>, chain: Chain)
    requires
        contour.len() > 0,
        points_in_range(contour@),
        records_wf(old(records)@, old(records)@.len() as int),
    ensures
        final(records)@ == old(records)@ + contour_records(
            contour@,
            chain,
            old(records)@.len() as int,
        ),
        records_wf(final(records)@, final(records)@.len() as int),
{
    let head = records.len();
    let n = contour.len() - 1;
    let mut i: usize = 0;
    while i < n
        invariant
            0 <= i <= n,
            n == vertex_count(contour@),
            head == old(records)@.len(),
            points_in_range(contour@),
            records@ == old(records)@ + contour_records(contour@, chain, head as int).take(
                i as int,
            ),
            records_wf(records@, head + n),
        decreases n - i,
    {
        let ghost before = records@;
        let mut record = VertexRecord {
            point: contour[i],
            origin: match chain {
                Chain::Subject => Origin::SubjectOriginal,
                Chain::Clip => Origin::ClipOriginal,
            },
            param_subject: Ratio::one(),
            param_clip: Ratio::one(),
            next_subject: 0,
            next_clip: 0,
            visited: false,
        };
        // The link is known once the record has its place: the index after
        // it, or the head of the contour for the last record.
        records.push(record);
        let after = records.len();
        let next = if i + 1 < n {
            after
        } else {
            head
        };
        match chain {
            Chain::Subject => {
                record.next_subject = next;
            },
            Chain::Clip => {
                record.next_clip = next;
            },
        }
        records.set(after - 1, record);
        proof {
            let all = contour_records(contour@, chain, head as int);
            assert(record == all[i as int]);
            assert(records@ =~= before.push(record));
            assert(all.take(i + 1) =~= all.take(i as int).push(all[i as int]));
            assert(records@ =~= old(records)@ + all.take(i + 1));
        }
        i = i + 1;
    }
    proof {
        let all = contour_records(contour@, chain, head as int);
        assert(all.take(n as int) =~= all);
    }
}

/// Adds the records of the contours of a polygon at the end of the table.
fn append_polygon(records: &mut Vec<VertexRecord>, polygon: &Polygon, chain: Chain)
    requires
        contours_nonempty(contours_of(polygon@)),
        contours_in_range(contours_of(polygon@)),
        records_wf(old(records)@, old(records)@.len() as int),
    ensures
        final(records)@ == old(records)@ + polygon_records(
            contours_of(polygon@),
            chain,
            old(records)@.len() as int,
        ),
        records_wf(final(records)@, final(records)@.len() as int),
{
    let ghost base = records@.len() as int;
    let ghost contours = contours_of(polygon@);
    let mut k: usize = 0;
    assert(contours.take(0) =~= Seq::<Seq<Point>>::empty());
    while k < polygon.len()
        invariant
            0 <= k <= polygon.len(),
            base == old(records)@.len(),
            contours == contours_of(polygon@),
            contours_nonempty(contours),
            contours_in_range(contours),
            records@ == old(records)@ + polygon_records(contours.take(k as int), chain, base),
            records_wf(records@, records@.len() as int),
        decreases polygon.len() - k,
    {
        let ghost before = records@;
        assert(polygon[k as int]@ == contours[k as int]);
        append_contour(records, &polygon[k], chain);
        proof {
            let upto = contours.take(k + 1);
            assert(upto.drop_last() =~= contours.take(k as int));
            assert(upto.last() == contours[k as int]);
            assert(records@ =~= old(records)@ + polygon_records(upto, chain, base));
        }
        k = k + 1;
    }
    assert(contours.take(polygon.len() as int) =~= contours);
}

/// Builds the table of two polygons: a record for each vertex, the subject's
/// first, each contour linked into a circular list of its own.
pub fn build_table(subject: &Polygon, clip: &Polygon) -> (t: VertexTable)
    requires
        contours_nonempty(contours_of(subject@)),
        contours_nonempty(contours_of(clip@)),
        contours_in_range(contours_of(subject@)),
        contours_in_range(contours_of(clip@)),
    ensures
        t.wf(),
        t.records@ == initial_records(contours_of(subject@), contours_of(clip@)),
        t.subject_end == polygon_records(contours_of(subject@), Chain::Subject, 0).len(),
        t.clip_end == t.records@.len(),
        is_built(t.records@, t.subject_end as int),
{
    let mut records: Vec<VertexRecord> = Vec::new();
    append_polygon(&mut records, subject, Chain::Subject);
    let subject_end = records.len();
    append_polygon(&mut records, clip, Chain::Clip);
    let clip_end = records.len();
    proof {
        lemma_initial_records_are_built(contours_of(subject@), contours_of(clip@));
    }
    VertexTable { records, subject_end, clip_end }
}

} // verus!
