//! Inserting the intersections of subject and clip edges into the table.

use vstd::prelude::*;
use crate::chains::{
    chains_ok, is_built, is_chained, lemma_built_is_chained, lemma_splice_keeps_chains, no_edges,
};
use crate::ratio::Ratio;
use crate::segment::{Hit, Segment, intersection, intersection_spec};
use crate::table::{Chain, Origin, VertexRecord, VertexTable, records_wf};

verus! {

/// The edge that starts at record `i` of a chain.
pub open spec fn chain_edge(t: Seq<VertexRecord>, chain: Chain, i: int) -> Segment {
    Segment { start: t[i].point, end: t[t[i].next_on(chain) as int].point }
}

/// Where a scan along a chain stops: it goes on from `cur` while the record
/// after it lies before `param` on its edge, for `fuel` steps at most.
pub open spec fn scan(t: Seq<VertexRecord>, chain: Chain, cur: int, param: Ratio, fuel: nat) -> int
    decreases fuel,
{
    let next = t[cur].next_on(chain) as int;
    if fuel > 0 && t[next].param_on(chain).lt_spec(param) {
        scan(t, chain, next, param, (fuel - 1) as nat)
    } else {
        cur
    }
}

/// The record of an intersection.
pub open spec fn intersection_record(hit: Hit, next_subject: usize, next_clip: usize)
    -> VertexRecord {
    VertexRecord {
        point: hit.point,
        origin: Origin::Intersection(hit.crossing),
        param_subject: hit.s,
        param_clip: hit.t,
        next_subject,
        next_clip,
        visited: false,
    }
}

/// The table with the record of `hit` added at its end and linked into both
/// chains: on the subject edge that starts at `i1` and on the clip edge that
/// starts at `i2`, each time after the last record that a scan from the start
/// of the edge finds before it.
pub open spec fn splice(t: Seq<VertexRecord>, i1: int, i2: int, hit: Hit) -> Seq<VertexRecord> {
    let a = scan(t, Chain::Subject, i1, hit.s, t.len());
    let b = scan(t, Chain::Clip, i2, hit.t, t.len());
    let fresh = t.len() as usize;
    let t1 = t.update(a, t[a].with_next(Chain::Subject, fresh));
    let t2 = t1.update(b, t1[b].with_next(Chain::Clip, fresh));
    t2.push(intersection_record(hit, t[a].next_subject, t[b].next_clip))
}

/// The live table after the subject edge at `i1` and the clip edge at `i2`,
/// both taken from the table as it was built, have been tested.
pub open spec fn insert_pair(built: Seq<VertexRecord>, live: Seq<VertexRecord>, i1: int, i2: int)
    -> Seq<VertexRecord> {
    match intersection_spec(
        chain_edge(built, Chain::Subject, i1),
        chain_edge(built, Chain::Clip, i2),
    ) {
        Some(hit) => splice(live, i1, i2, hit),
        None => live,
    }
}

/// The live table after the subject edge at `i1` has been tested against the
/// clip edges that start at `from` up to but not including `upto`.
pub open spec fn insert_row(
    built: Seq<VertexRecord>,
    live: Seq<VertexRecord>,
    i1: int,
    from: int,
    upto: int,
) -> Seq<VertexRecord>
    decreases upto - from,
{
    if upto <= from {
        live
    } else {
        insert_pair(built, insert_row(built, live, i1, from, upto - 1), i1, upto - 1)
    }
}

/// The live table after the subject edges that start before `upto` have been
/// tested against every clip edge.
pub open spec fn insert_rows(
    built: Seq<VertexRecord>,
    live: Seq<VertexRecord>,
    subject_end: int,
    clip_end: int,
    upto: int,
) -> Seq<VertexRecord>
    decreases upto,
{
    if upto <= 0 {
        live
    } else {
        insert_row(
            built,
            insert_rows(built, live, subject_end, clip_end, upto - 1),
            upto - 1,
            subject_end,
            clip_end,
        )
    }
}

/// The table with every intersection of a subject edge and a clip edge
/// inserted: subject edges in order, and for each the clip edges in order.
pub open spec fn with_intersections(t: Seq<VertexRecord>, subject_end: int, clip_end: int) -> Seq<
    VertexRecord,
> {
    insert_rows(t, t, subject_end, clip_end, subject_end)
}

/// Scans a chain from `start` for the record after which `param` belongs.
fn find_predecessor(records: &Vec<VertexRecord>, chain: Chain, start: usize, param: &Ratio) -> (cur:
    usize)
    requires
        records_wf(records@, records@.len() as int),
        start < records.len(),
    ensures
        cur == scan(records@, chain, start as int, *param, records@.len()),
        cur < records.len(),
{
    let mut cur = start;
    let mut fuel = records.len();
    while fuel > 0 && records[records[cur].get_next(chain)].get_param(chain).lt(param)
        invariant
            records_wf(records@, records@.len() as int),
            cur < records.len(),
            scan(records@, chain, start as int, *param, records@.len()) == scan(
                records@,
                chain,
                cur as int,
                *param,
                fuel as nat,
            ),
        decreases fuel,
    {
        cur = records[cur].get_next(chain);
        fuel = fuel - 1;
    }
    cur
}

/// Adds the record of `hit` and links it into both chains.
fn splice_hit(records: &mut Vec<VertexRecord>, i1: usize, i2: usize, hit: Hit)
    requires
        records_wf(old(records)@, old(records)@.len() as int),
        i1 < old(records).len(),
        i2 < old(records).len(),
        hit.point.in_range(),
        hit.s.wf(),
        hit.t.wf(),
    ensures
        final(records)@ == splice(old(records)@, i1 as int, i2 as int, hit),
        final(records)@.len() == old(records)@.len() + 1,
        records_wf(final(records)@, final(records)@.len() as int),
{
    let a = find_predecessor(records, Chain::Subject, i1, &hit.s);
    let b = find_predecessor(records, Chain::Clip, i2, &hit.t);
    let fresh = records.len();
    let record = VertexRecord {
        point: hit.point,
        origin: Origin::Intersection(hit.crossing),
        param_subject: hit.s,
        param_clip: hit.t,
        next_subject: records[a].next_subject,
        next_clip: records[b].next_clip,
        visited: false,
    };
    let mut before = records[a];
    before.next_subject = fresh;
    records.set(a, before);
    let mut before = records[b];
    before.next_clip = fresh;
    records.set(b, before);
    records.push(record);
}

/// A copy of the table, to read the edges from while the table grows.
fn copy_records(records: &Vec<VertexRecord>) -> (copy: Vec<VertexRecord>)
    ensures
        copy@ == records@,
{
    let mut copy: Vec<VertexRecord> = Vec::new();
    let mut i: usize = 0;
    while i < records.len()
        invariant
            0 <= i <= records.len(),
            copy@ == records@.take(i as int),
        decreases records.len() - i,
    {
        copy.push(records[i]);
        assert(records@.take(i + 1) =~= records@.take(i as int).push(records@[i as int]));
        i = i + 1;
    }
    assert(records@.take(records.len() as int) =~= records@);
    copy
}

/// Tests every subject edge against every clip edge and inserts each
/// intersection into the table.
///
/// The edges tested are those of the table as it comes in, whatever has been
/// inserted since: an edge that an earlier intersection has split is still
/// tested whole. Into a table as `build_table` leaves it the intersections
/// are inserted in order: each edge is followed by the intersections on it,
/// none before the one that precedes it, and then by the vertex at which the
/// edge ended before.
pub fn insert_intersections(table: &mut VertexTable)
    requires
        old(table).wf(),
    ensures
        final(table).wf(),
        old(table).clip_end == old(table).records@.len() && is_built(
            old(table).records@,
            old(table).subject_end as int,
        ) ==> is_chained(
            final(table).records@,
            old(table).records@,
            old(table).subject_end as int,
        ),
        final(table).subject_end == old(table).subject_end,
        final(table).clip_end == old(table).clip_end,
        final(table).records@ == with_intersections(
            old(table).records@,
            old(table).subject_end as int,
            old(table).clip_end as int,
        ),
{
    let built = copy_records(&table.records);
    let subject_end = table.subject_end;
    let clip_end = table.clip_end;
    let ghost fresh = clip_end == built@.len() && is_built(built@, subject_end as int);
    let ghost mut subject_edges = no_edges(built@.len());
    let ghost mut clip_edges = no_edges(built@.len());
    proof {
        if fresh {
            lemma_built_is_chained(built@, subject_end as int);
        }
    }
    let mut i1: usize = 0;
    while i1 < subject_end
        invariant
            0 <= i1 <= subject_end,
            table.wf(),
            table.subject_end == subject_end,
            table.clip_end == clip_end,
            subject_end <= clip_end <= built@.len() <= table.records@.len(),
            built@ == old(table).records@,
            records_wf(built@, built@.len() as int),
            fresh ==> clip_end == built@.len() && chains_ok(
                built@,
                table.records@,
                subject_end as int,
                subject_edges,
                clip_edges,
            ),
            table.records@ == insert_rows(
                built@,
                built@,
                subject_end as int,
                clip_end as int,
                i1 as int,
            ),
        decreases subject_end - i1,
    {
        let ghost row = table.records@;
        let mut i2: usize = subject_end;
        while i2 < clip_end
            invariant
                subject_end <= i2 <= clip_end,
                i1 < subject_end,
                table.wf(),
                table.subject_end == subject_end,
                table.clip_end == clip_end,
                subject_end <= clip_end <= built@.len() <= table.records@.len(),
                records_wf(built@, built@.len() as int),
                fresh ==> clip_end == built@.len() && chains_ok(
                    built@,
                    table.records@,
                    subject_end as int,
                    subject_edges,
                    clip_edges,
                ),
                table.records@ == insert_row(built@, row, i1 as int, subject_end as int, i2 as int),
            decreases clip_end - i2,
        {
            let first = built[i1];
            let second = built[i2];
            let l1 = Segment { start: first.point, end: built[first.next_subject].point };
            let l2 = Segment { start: second.point, end: built[second.next_clip].point };
            assert(l1 == chain_edge(built@, Chain::Subject, i1 as int));
            assert(l2 == chain_edge(built@, Chain::Clip, i2 as int));
            match intersection(&l1, &l2) {
                Some(hit) => {
                    let ghost before = table.records@;
                    splice_hit(&mut table.records, i1, i2, hit);
                    proof {
                        if fresh {
                            assert(table.records.len() <= usize::MAX);
                            let edges = lemma_splice_keeps_chains(
                                built@,
                                before,
                                subject_end as int,
                                subject_edges,
                                clip_edges,
                                i1 as int,
                                i2 as int,
                                hit,
                            );
                            subject_edges = edges.0;
                            clip_edges = edges.1;
                        }
                    }
                },
                None => {},
            }
            i2 = i2 + 1;
        }
        i1 = i1 + 1;
    }
}

} // verus!
