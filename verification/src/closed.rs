//! Closed contours: where the kinds of crossing alternate along both
//! polygons, every contour of the clipped region ends on the point it starts
//! from.

use vstd::prelude::*;
use crate::alternate::{alternates, kind_on, lemma_alternating_walks_return, runs_on};
use crate::apart::{lemma_polygon_len, lemma_polygon_stands, lemma_record_as_built};
use crate::chains::{
    chains_ok, edges_ok, is_built, is_chained, lemma_built_is_chained,
    lemma_initial_records_are_built, lemma_splice_keeps_chains, link_ok, member_ok, no_edges,
    same_vertex,
};
use crate::clip::clip_spec;
use crate::insert::{chain_edge, insert_pair, insert_row, insert_rows, with_intersections};
use crate::point::{Point, contours_in_range};
use crate::rings::follow;
use crate::segment::{intersection_spec, lemma_hit_is_well_formed, opposite};
use crate::table::{
    Chain, Origin, VertexRecord, initial_records, origin_of, polygon_records, records_wf,
};
use crate::walk::{is_result_seed, mark, result_chain, result_pass, trace_loop};

verus! {

/// The table that clipping `subject` by `clip` walks.
pub open spec fn clip_table(subject: Seq<Seq<Point>>, clip: Seq<Seq<Point>>) -> Seq<VertexRecord> {
    let built = initial_records(subject, clip);
    with_intersections(
        built,
        polygon_records(subject, Chain::Subject, 0).len() as int,
        built.len() as int,
    )
}

/// The table of the two polygons could hold an intersection of every edge of
/// the subject with every edge of the clip polygon.
pub open spec fn has_room(subject: Seq<Seq<Point>>, clip: Seq<Seq<Point>>) -> bool {
    let subject_end = polygon_records(subject, Chain::Subject, 0).len();
    let clip_end = initial_records(subject, clip).len();
    clip_end + subject_end * (clip_end - subject_end) <= usize::MAX
}

/// The live table has both chains in order and every record fit for it, and
/// no more than `count` records have been added to the table as built.
spec fn stage_ok(
    built: Seq<VertexRecord>,
    t: Seq<VertexRecord>,
    subject_end: int,
    edges: (Seq<Seq<int>>, Seq<Seq<int>>),
    count: int,
) -> bool {
    &&& chains_ok(built, t, subject_end, edges.0, edges.1)
    &&& records_wf(t, t.len() as int)
    &&& t.len() <= built.len() + count
}

proof fn lemma_pair_keeps_stage(
    built: Seq<VertexRecord>,
    t: Seq<VertexRecord>,
    subject_end: int,
    edges: (Seq<Seq<int>>, Seq<Seq<int>>),
    i1: int,
    i2: int,
    count: int,
) -> (r: (Seq<Seq<int>>, Seq<Seq<int>>))
    requires
        stage_ok(built, t, subject_end, edges, count),
        0 <= i1 < subject_end <= i2 < built.len(),
        built.len() + count < usize::MAX,
    ensures
        stage_ok(built, insert_pair(built, t, i1, i2), subject_end, r, count + 1),
{
    let l1 = chain_edge(built, Chain::Subject, i1);
    let l2 = chain_edge(built, Chain::Clip, i2);
    assert(built[i1].point.in_range());
    assert(built[i2].point.in_range());
    assert(built[built[i1].next_on(Chain::Subject) as int].point.in_range());
    assert(built[built[i2].next_on(Chain::Clip) as int].point.in_range());
    match intersection_spec(l1, l2) {
        Some(hit) => {
            lemma_hit_is_well_formed(l1, l2);
            lemma_splice_keeps_chains(built, t, subject_end, edges.0, edges.1, i1, i2, hit)
        },
        None => edges,
    }
}

proof fn lemma_row_keeps_stage(
    built: Seq<VertexRecord>,
    t: Seq<VertexRecord>,
    subject_end: int,
    edges: (Seq<Seq<int>>, Seq<Seq<int>>),
    i1: int,
    upto: int,
    count: int,
) -> (r: (Seq<Seq<int>>, Seq<Seq<int>>))
    requires
        stage_ok(built, t, subject_end, edges, count),
        0 <= i1 < subject_end,
        subject_end <= upto <= built.len(),
        built.len() + count + (built.len() - subject_end) <= usize::MAX,
    ensures
        stage_ok(
            built,
            insert_row(built, t, i1, subject_end, upto),
            subject_end,
            r,
            count + (upto - subject_end),
        ),
    decreases upto - subject_end,
{
    if upto <= subject_end {
        edges
    } else {
        let before = lemma_row_keeps_stage(built, t, subject_end, edges, i1, upto - 1, count);
        lemma_pair_keeps_stage(
            built,
            insert_row(built, t, i1, subject_end, upto - 1),
            subject_end,
            before,
            i1,
            upto - 1,
            count + (upto - 1 - subject_end),
        )
    }
}

proof fn lemma_rows_of_pairs(upto: int, subject_end: int, width: int)
    by (nonlinear_arith)
    requires
        1 <= upto <= subject_end,
        0 <= width,
    ensures
        (upto - 1) * width + width == upto * width,
        0 <= (upto - 1) * width,
        upto * width <= subject_end * width,
{
}

proof fn lemma_rows_keep_stage(built: Seq<VertexRecord>, subject_end: int, upto: int) -> (r: (
    Seq<Seq<int>>,
    Seq<Seq<int>>,
))
    requires
        stage_ok(
            built,
            built,
            subject_end,
            (no_edges(built.len()), no_edges(built.len())),
            0,
        ),
        0 <= upto <= subject_end <= built.len(),
        built.len() + subject_end * (built.len() - subject_end) <= usize::MAX,
    ensures
        stage_ok(
            built,
            insert_rows(built, built, subject_end, built.len() as int, upto),
            subject_end,
            r,
            upto * (built.len() - subject_end),
        ),
    decreases upto,
{
    let width = built.len() - subject_end;
    if upto <= 0 {
        assert(upto * width == 0) by (nonlinear_arith)
            requires
                upto == 0,
        ;
        (no_edges(built.len()), no_edges(built.len()))
    } else {
        lemma_rows_of_pairs(upto, subject_end, width);
        let before = lemma_rows_keep_stage(built, subject_end, upto - 1);
        lemma_row_keeps_stage(
            built,
            insert_rows(built, built, subject_end, built.len() as int, upto - 1),
            subject_end,
            before,
            upto - 1,
            built.len() as int,
            (upto - 1) * width,
        )
    }
}

/// Every record of a table as built is fit for the table.
pub(crate) proof fn lemma_built_records_are_fit(subject: Seq<Seq<Point>>, clip: Seq<Seq<Point>>)
    requires
        contours_in_range(subject),
        contours_in_range(clip),
        initial_records(subject, clip).len() <= usize::MAX,
    ensures
        records_wf(initial_records(subject, clip), initial_records(subject, clip).len() as int),
{
    let t = initial_records(subject, clip);
    let se = polygon_records(subject, Chain::Subject, 0).len() as int;
    lemma_initial_records_are_built(subject, clip);
    let head = polygon_records(subject, Chain::Subject, 0);
    let tail = polygon_records(clip, Chain::Clip, se);
    let none = Seq::<VertexRecord>::empty();
    lemma_polygon_len(subject, Chain::Subject, 0);
    lemma_polygon_len(clip, Chain::Clip, se);
    lemma_polygon_stands(none, subject, Chain::Subject, tail);
    assert(none + head + tail =~= t);
    lemma_polygon_stands(head, clip, Chain::Clip, none);
    assert(head + tail + none =~= t);
    assert forall|i: int| 0 <= i < t.len() implies (#[trigger] t[i]).wf(t.len() as int) by {
        if i < se {
            lemma_record_as_built(t, Chain::Subject, 0, subject, i);
        } else {
            lemma_record_as_built(t, Chain::Clip, se, clip, i);
        }
    }
}

/// The table that clipping walks is a table as built with the intersections
/// inserted in order along both chains, and every record of it is fit for
/// it.
pub proof fn lemma_clip_table_is_chained(subject: Seq<Seq<Point>>, clip: Seq<Seq<Point>>)
    requires
        contours_in_range(subject),
        contours_in_range(clip),
        has_room(subject, clip),
    ensures
        is_built(
            initial_records(subject, clip),
            polygon_records(subject, Chain::Subject, 0).len() as int,
        ),
        is_chained(
            clip_table(subject, clip),
            initial_records(subject, clip),
            polygon_records(subject, Chain::Subject, 0).len() as int,
        ),
        records_wf(clip_table(subject, clip), clip_table(subject, clip).len() as int),
{
    let built = initial_records(subject, clip);
    let se = polygon_records(subject, Chain::Subject, 0).len() as int;
    assert(0 <= se * (built.len() - se)) by (nonlinear_arith)
        requires
            0 <= se <= built.len(),
    ;
    lemma_initial_records_are_built(subject, clip);
    lemma_built_records_are_fit(subject, clip);
    lemma_built_is_chained(built, se);
    let edges = lemma_rows_keep_stage(built, se, se);
    assert(chains_ok(built, clip_table(subject, clip), se, edges.0, edges.1));
}

/// The contour ends on the point it starts from.
pub open spec fn is_loop(c: Seq<Point>) -> bool {
    c.len() >= 2 && c[0] == c[c.len() - 1]
}

/// The two tables hold the same records but for what has been visited.
pub open spec fn same_but_marks(t1: Seq<VertexRecord>, t2: Seq<VertexRecord>) -> bool {
    &&& t1.len() == t2.len()
    &&& forall|i: int|
        0 <= i < t1.len() ==> #[trigger] t1[i] == (VertexRecord {
            visited: t1[i].visited,
            ..t2[i]
        })
}

proof fn lemma_marks_keep_records(t1: Seq<VertexRecord>, t2: Seq<VertexRecord>)
    requires
        same_but_marks(t1, t2),
        records_wf(t2, t2.len() as int),
    ensures
        records_wf(t1, t1.len() as int),
{
    assert forall|i: int| 0 <= i < t1.len() implies (#[trigger] t1[i]).wf(t1.len() as int) by {
        assert(t2[i].wf(t2.len() as int));
    }
}

proof fn lemma_marks_keep_follow(
    t1: Seq<VertexRecord>,
    t2: Seq<VertexRecord>,
    chain: Chain,
    i: int,
    k: nat,
)
    requires
        same_but_marks(t1, t2),
        records_wf(t2, t2.len() as int),
        0 <= i < t2.len(),
    ensures
        follow(t1, chain, i, k) == follow(t2, chain, i, k),
        0 <= follow(t2, chain, i, k) < t2.len(),
    decreases k,
{
    if k > 0 {
        assert(t2[i].wf(t2.len() as int));
        assert(t1[i].next_on(chain) == t2[i].next_on(chain));
        lemma_marks_keep_follow(t1, t2, chain, t2[i].next_on(chain) as int, (k - 1) as nat);
    }
}

proof fn lemma_marks_keep_edges(
    built: Seq<VertexRecord>,
    t1: Seq<VertexRecord>,
    t2: Seq<VertexRecord>,
    chain: Chain,
    lo: int,
    hi: int,
    edges: Seq<Seq<int>>,
)
    requires
        same_but_marks(t1, t2),
        0 <= lo <= hi <= built.len(),
        edges_ok(built, t2, chain, lo, hi, edges),
    ensures
        edges_ok(built, t1, chain, lo, hi, edges),
{
    let first = built.len() as int;
    assert forall|v: int| 0 <= v < first implies same_vertex(#[trigger] t1[v], built[v]) by {
        assert(same_vertex(t2[v], built[v]));
    }
    assert forall|v: int, p: int|
        lo <= v < hi && 0 <= p < edges[v].len() implies #[trigger] member_ok(
        t1,
        chain,
        edges,
        first,
        v,
        p,
    ) by {
        assert(member_ok(t2, chain, edges, first, v, p));
        if p > 0 {
            assert(member_ok(t2, chain, edges, first, v, p - 1));
        }
    }
    assert forall|v: int, p: int|
        lo <= v < hi && -1 <= p < edges[v].len() implies #[trigger] link_ok(
        t1,
        built,
        chain,
        edges,
        v,
        p,
    ) by {
        assert(link_ok(t2, built, chain, edges, v, p));
        if p >= 0 {
            assert(member_ok(t2, chain, edges, first, v, p));
        }
    }
}

/// Visiting records leaves both chains in order.
proof fn lemma_marks_keep_chains(
    built: Seq<VertexRecord>,
    t1: Seq<VertexRecord>,
    t2: Seq<VertexRecord>,
    subject_end: int,
)
    requires
        same_but_marks(t1, t2),
        is_chained(t2, built, subject_end),
    ensures
        is_chained(t1, built, subject_end),
{
    let (es, ec) = choose|es: Seq<Seq<int>>, ec: Seq<Seq<int>>| #[trigger]
        chains_ok(built, t2, subject_end, es, ec);
    lemma_marks_keep_edges(built, t1, t2, Chain::Subject, 0, subject_end, es);
    lemma_marks_keep_edges(built, t1, t2, Chain::Clip, subject_end, built.len() as int, ec);
    assert(chains_ok(built, t1, subject_end, es, ec));
}

/// Visiting records leaves the kinds of crossing alternating.
proof fn lemma_marks_keep_alternation(t1: Seq<VertexRecord>, t2: Seq<VertexRecord>, chain: Chain)
    requires
        same_but_marks(t1, t2),
        records_wf(t2, t2.len() as int),
        alternates(t2, chain),
    ensures
        alternates(t1, chain),
{
    assert forall|x: int, k: nat|
        0 <= x < t1.len() && k >= 1 && t1[x].origin == Origin::Intersection(
            kind_on(chain),
        ) && runs_on(t1, chain, x, (k - 1) as nat) && t1[#[trigger] follow(
            t1,
            chain,
            x,
            k,
        )].origin is Intersection implies t1[follow(t1, chain, x, k)].origin
        == Origin::Intersection(
        opposite(kind_on(chain)),
    ) by {
        lemma_marks_keep_follow(t1, t2, chain, x, k);
        let y = follow(t2, chain, x, k);
        assert(t1[y].origin == t2[y].origin);
        assert(t1[x].origin == t2[x].origin);
        assert(runs_on(t2, chain, x, (k - 1) as nat)) by {
            assert forall|j: nat| 1 <= j <= (k - 1) as nat implies t2[#[trigger] follow(
                t2,
                chain,
                x,
                j,
            )].origin == origin_of(chain) by {
                lemma_marks_keep_follow(t1, t2, chain, x, j);
                let z = follow(t1, chain, x, j);
                assert(t1[z].origin == origin_of(chain));
                assert(t1[z].origin == t2[z].origin);
            }
        }
    }
}

/// A walk of the clipped region changes nothing in the table but what has
/// been visited.
proof fn lemma_trace_marks_only(
    t: Seq<VertexRecord>,
    start: int,
    cur: int,
    points: Seq<Point>,
    fuel: nat,
)
    requires
        records_wf(t, t.len() as int),
        0 <= cur < t.len(),
    ensures
        same_but_marks(trace_loop(t, start, cur, points, fuel).1, t),
    decreases fuel,
{
    if fuel > 0 {
        let marked = mark(t, cur);
        assert(same_but_marks(marked, t));
        lemma_marks_keep_records(marked, t);
        assert(t[cur].wf(t.len() as int));
        let next = t[cur].next_on(result_chain(t[cur])) as int;
        if next != start {
            let emitted = points.push(t[cur].point);
            lemma_trace_marks_only(marked, start, next, emitted, (fuel - 1) as nat);
            let after = trace_loop(marked, start, next, emitted, (fuel - 1) as nat).1;
            assert forall|i: int| 0 <= i < after.len() implies #[trigger] after[i] == (
            VertexRecord {
                visited: after[i].visited,
                ..t[i]
            }
            ) by {
                assert(marked[i] == (VertexRecord { visited: marked[i].visited, ..t[i] }));
            }
        }
    }
}

/// Where the kinds of crossing alternate, the walks from the first `upto`
/// records give closed contours only.
proof fn lemma_result_pass_is_closed(
    t: Seq<VertexRecord>,
    built: Seq<VertexRecord>,
    subject_end: int,
    upto: int,
)
    requires
        is_built(built, subject_end),
        is_chained(t, built, subject_end),
        records_wf(t, t.len() as int),
        alternates(t, Chain::Subject),
        alternates(t, Chain::Clip),
        upto <= t.len(),
    ensures
        same_but_marks(result_pass(t, upto).1, t),
        forall|k: int|
            0 <= k < result_pass(t, upto).0.len() ==> is_loop(#[trigger] result_pass(t, upto).0[k]),
    decreases upto,
{
    if upto > 0 {
        lemma_result_pass_is_closed(t, built, subject_end, upto - 1);
        let before = result_pass(t, upto - 1);
        let seed = upto - 1;
        if is_result_seed(before.1[seed]) {
            lemma_marks_keep_records(before.1, t);
            lemma_marks_keep_chains(built, before.1, t, subject_end);
            lemma_marks_keep_alternation(before.1, t, Chain::Subject);
            lemma_marks_keep_alternation(before.1, t, Chain::Clip);
            lemma_alternating_walks_return(before.1, built, subject_end, seed);
            lemma_trace_marks_only(before.1, seed, seed, Seq::empty(), before.1.len());
            let walk = trace_loop(before.1, seed, seed, Seq::empty(), before.1.len());
            assert(is_loop(walk.0));
            assert forall|i: int| 0 <= i < walk.1.len() implies #[trigger] walk.1[i] == (
            VertexRecord { visited: walk.1[i].visited, ..t[i] }) by {
                assert(before.1[i] == (VertexRecord { visited: before.1[i].visited, ..t[i] }));
            }
            let all = before.0.push(walk.0);
            assert forall|k: int| 0 <= k < all.len() implies is_loop(#[trigger] all[k]) by {
                if k < before.0.len() {
                    assert(is_loop(before.0[k]));
                }
            }
        }
    }
}

/// Where the kinds of crossing alternate along both polygons, every contour
/// of the clipped region ends on the point it starts from.
pub proof fn lemma_alternating_clip_is_closed(subject: Seq<Seq<Point>>, clip: Seq<Seq<Point>>)
    requires
        contours_in_range(subject),
        contours_in_range(clip),
        has_room(subject, clip),
        alternates(clip_table(subject, clip), Chain::Subject),
        alternates(clip_table(subject, clip), Chain::Clip),
    ensures
        forall|k: int|
            0 <= k < clip_spec(subject, clip).result.len() ==> is_loop(
                #[trigger] clip_spec(subject, clip).result[k],
            ),
{
    let t = clip_table(subject, clip);
    let built = initial_records(subject, clip);
    let se = polygon_records(subject, Chain::Subject, 0).len() as int;
    lemma_clip_table_is_chained(subject, clip);
    lemma_result_pass_is_closed(t, built, se, t.len() as int);
    assert(clip_spec(subject, clip).result == result_pass(t, t.len() as int).0);
}

} // verus!
