//! The shape of the two chains: what building the table and inserting the
//! intersections keep true of the links.

use vstd::prelude::*;
use crate::insert::{scan, splice};
use crate::segment::Hit;
use crate::ratio::{Ratio, lemma_one_is_last};
use crate::apart::{lemma_links_are_one_to_one, lemma_polygon_len, lemma_polygon_stands};
use crate::point::{Point, contours_in_range, points_in_range};
use crate::table::{
    Chain, VertexRecord, contour_records, initial_records, origin_of, polygon_records,
    records_wf,
};

verus! {

/// The `p`-th intersection on the edge that starts at the vertex `v`.
pub open spec fn slot(edges: Seq<Seq<int>>, v: int, p: int) -> int {
    edges[v][p]
}

/// The record at position `p` of the edge that starts at `v`: `v` itself at
/// position -1, then the intersections on the edge.
pub open spec fn at_edge(edges: Seq<Seq<int>>, v: int, p: int) -> int {
    if p < 0 {
        v
    } else {
        slot(edges, v, p)
    }
}

/// The record after position `p` of the edge that starts at `v`: the next
/// intersection on the edge, or the vertex at which the edge ends.
pub open spec fn after_edge(
    built: Seq<VertexRecord>,
    chain: Chain,
    edges: Seq<Seq<int>>,
    v: int,
    p: int,
) -> int {
    if p + 1 < edges[v].len() {
        slot(edges, v, p + 1)
    } else {
        built[v].next_on(chain) as int
    }
}

/// The record at position `p` of an edge is linked to the one after it.
pub open spec fn link_ok(
    t: Seq<VertexRecord>,
    built: Seq<VertexRecord>,
    chain: Chain,
    edges: Seq<Seq<int>>,
    v: int,
    p: int,
) -> bool {
    t[at_edge(edges, v, p)].next_on(chain) == after_edge(built, chain, edges, v, p)
}

/// The `p`-th intersection on an edge is an intersection of the table, and it
/// does not lie before the one that precedes it on the edge.
pub open spec fn member_ok(
    t: Seq<VertexRecord>,
    chain: Chain,
    edges: Seq<Seq<int>>,
    first: int,
    v: int,
    p: int,
) -> bool {
    let x = slot(edges, v, p);
    &&& first <= x < t.len()
    &&& t[x].origin is Intersection
    &&& t[x].param_on(chain).wf()
    &&& p > 0 ==> !t[x].param_on(chain).lt_spec(t[slot(edges, v, p - 1)].param_on(chain))
}

/// The two records are the same vertex, whatever their links and marks.
pub open spec fn same_vertex(r1: VertexRecord, r2: VertexRecord) -> bool {
    &&& r1.point == r2.point
    &&& r1.origin == r2.origin
    &&& r1.param_subject == r2.param_subject
    &&& r1.param_clip == r2.param_clip
}

/// The record `x` is on one of the edges.
pub open spec fn has_home(edges: Seq<Seq<int>>, lo: int, hi: int, x: int) -> bool {
    exists|v: int, p: int|
        lo <= v < hi && 0 <= p < edges[v].len() && #[trigger] slot(edges, v, p) == x
}

/// The vertices of a chain, at indices from `lo` up to but not including
/// `hi` of the table as built, are linked among themselves and marked as
/// vertices of their polygon.
pub open spec fn built_ok(built: Seq<VertexRecord>, chain: Chain, lo: int, hi: int) -> bool {
    &&& 0 <= lo <= hi <= built.len()
    &&& forall|v: int|
        lo <= v < hi ==> {
            let r = #[trigger] built[v];
            &&& lo <= r.next_on(chain) < hi
            &&& r.param_on(chain) == (Ratio { num: 1, den: 1 })
            &&& r.origin == origin_of(chain)
        }
}

/// The live table `t` is the table `built` with the intersections listed in
/// `edges` inserted along one chain: `edges[v]` holds, in the order of the
/// chain, the intersections between the vertex `v` and the vertex after it.
pub open spec fn edges_ok(
    built: Seq<VertexRecord>,
    t: Seq<VertexRecord>,
    chain: Chain,
    lo: int,
    hi: int,
    edges: Seq<Seq<int>>,
) -> bool {
    let first = built.len() as int;
    &&& first <= t.len()
    &&& edges.len() == first
    &&& forall|v: int| 0 <= v < first ==> same_vertex(#[trigger] t[v], built[v])
    &&& forall|v: int| lo <= v < hi ==> (#[trigger] edges[v]).len() <= t.len() - first
    &&& forall|v: int, p: int|
        lo <= v < hi && -1 <= p < edges[v].len() ==> #[trigger] link_ok(
            t,
            built,
            chain,
            edges,
            v,
            p,
        )
    &&& forall|v: int, p: int|
        lo <= v < hi && 0 <= p < edges[v].len() ==> #[trigger] member_ok(
            t,
            chain,
            edges,
            first,
            v,
            p,
        )
    &&& forall|v: int, p: int, w: int, q: int|
        lo <= v < hi && lo <= w < hi && 0 <= p < edges[v].len() && 0 <= q < edges[w].len()
            && #[trigger] slot(edges, v, p) == #[trigger] slot(edges, w, q) ==> v == w && p == q
    &&& forall|x: int| first <= x < t.len() ==> #[trigger] has_home(edges, lo, hi, x)
}

/// The table `t2` is `t` with one record added at its end and linked into a
/// chain after the record `a`, at the position `param` of its edge.
pub open spec fn spliced_on(
    t: Seq<VertexRecord>,
    t2: Seq<VertexRecord>,
    chain: Chain,
    a: int,
    param: Ratio,
) -> bool {
    let fresh = t.len() as int;
    &&& t2.len() == t.len() + 1
    &&& 0 <= a < t.len()
    &&& forall|i: int| 0 <= i < t.len() ==> same_vertex(#[trigger] t2[i], t[i])
    &&& forall|i: int|
        0 <= i < t.len() && i != a ==> (#[trigger] t2[i]).next_on(chain) == t[i].next_on(chain)
    &&& t2[a].next_on(chain) == fresh
    &&& t2[fresh].next_on(chain) == t[a].next_on(chain)
    &&& t2[fresh].origin is Intersection
    &&& t2[fresh].param_on(chain) == param
}

/// A scan that has reached position `p` of an edge stops on that edge, after
/// the last intersection that lies before `param`.
proof fn lemma_scan_stops_on_edge(
    built: Seq<VertexRecord>,
    t: Seq<VertexRecord>,
    chain: Chain,
    lo: int,
    hi: int,
    edges: Seq<Seq<int>>,
    v: int,
    p: int,
    param: Ratio,
    fuel: nat,
) -> (j: int)
    requires
        built_ok(built, chain, lo, hi),
        edges_ok(built, t, chain, lo, hi, edges),
        lo <= v < hi,
        -1 <= p < edges[v].len(),
        param.wf(),
        fuel >= edges[v].len() - (p + 1),
        p >= 0 ==> t[slot(edges, v, p)].param_on(chain).lt_spec(param),
    ensures
        p + 1 <= j <= edges[v].len(),
        scan(t, chain, at_edge(edges, v, p), param, fuel) == at_edge(edges, v, j - 1),
        j > 0 ==> t[slot(edges, v, j - 1)].param_on(chain).lt_spec(param),
        j < edges[v].len() ==> !t[slot(edges, v, j)].param_on(chain).lt_spec(param),
    decreases edges[v].len() - p,
{
    assert(link_ok(t, built, chain, edges, v, p));
    let cur = at_edge(edges, v, p);
    let next = t[cur].next_on(chain) as int;
    if p + 1 < edges[v].len() {
        assert(member_ok(t, chain, edges, built.len() as int, v, p + 1));
        if t[next].param_on(chain).lt_spec(param) {
            lemma_scan_stops_on_edge(
                built,
                t,
                chain,
                lo,
                hi,
                edges,
                v,
                p + 1,
                param,
                (fuel - 1) as nat,
            )
        } else {
            p + 1
        }
    } else {
        assert(next == built[v].next_on(chain));
        assert(same_vertex(t[next], built[next]));
        lemma_one_is_last(t[next].param_on(chain), param);
        p + 1
    }
}

/// What holds where a record is to be linked into a chain at position `j` of
/// the edge that starts at `v`.
pub open spec fn splice_at(
    built: Seq<VertexRecord>,
    t: Seq<VertexRecord>,
    t2: Seq<VertexRecord>,
    chain: Chain,
    lo: int,
    hi: int,
    edges: Seq<Seq<int>>,
    v: int,
    param: Ratio,
    j: int,
) -> bool {
    &&& built_ok(built, chain, lo, hi)
    &&& edges_ok(built, t, chain, lo, hi, edges)
    &&& lo <= v < hi
    &&& param.wf()
    &&& 0 <= j <= edges[v].len()
    &&& spliced_on(t, t2, chain, at_edge(edges, v, j - 1), param)
    &&& j > 0 ==> t[slot(edges, v, j - 1)].param_on(chain).lt_spec(param)
    &&& j < edges[v].len() ==> !t[slot(edges, v, j)].param_on(chain).lt_spec(param)
}

/// The lists of intersections with the new record at position `j` of the
/// edge that starts at `v`.
pub open spec fn edges_with(edges: Seq<Seq<int>>, v: int, j: int, fresh: int) -> Seq<Seq<int>> {
    edges.update(v, edges[v].insert(j, fresh))
}

proof fn lemma_splice_members(
    built: Seq<VertexRecord>,
    t: Seq<VertexRecord>,
    t2: Seq<VertexRecord>,
    chain: Chain,
    lo: int,
    hi: int,
    edges: Seq<Seq<int>>,
    v: int,
    param: Ratio,
    j: int,
)
    requires
        splice_at(built, t, t2, chain, lo, hi, edges, v, param, j),
    ensures
        forall|w: int, p: int|
            lo <= w < hi && 0 <= p < edges_with(edges, v, j, t.len() as int)[w].len()
                ==> #[trigger] member_ok(
                t2,
                chain,
                edges_with(edges, v, j, t.len() as int),
                built.len() as int,
                w,
                p,
            ),
{
    let first = built.len() as int;
    let fresh = t.len() as int;
    let edges2 = edges_with(edges, v, j, fresh);
    edges[v].insert_ensures(j, fresh);
    if j > 0 {
        assert(member_ok(t, chain, edges, first, v, j - 1));
    }
    assert forall|w: int, p: int|
        lo <= w < hi && 0 <= p < edges2[w].len() implies #[trigger] member_ok(
        t2,
        chain,
        edges2,
        first,
        w,
        p,
    ) by {
        if w != v {
            assert(member_ok(t, chain, edges, first, w, p));
            if p > 0 {
                assert(member_ok(t, chain, edges, first, w, p - 1));
            }
        } else if p < j {
            assert(member_ok(t, chain, edges, first, v, p));
            if p > 0 {
                assert(member_ok(t, chain, edges, first, v, p - 1));
            }
        } else if p == j {
        } else {
            assert(member_ok(t, chain, edges, first, v, p - 1));
            if p - 1 > j {
                assert(member_ok(t, chain, edges, first, v, p - 2));
            }
        }
    }
}

proof fn lemma_splice_links(
    built: Seq<VertexRecord>,
    t: Seq<VertexRecord>,
    t2: Seq<VertexRecord>,
    chain: Chain,
    lo: int,
    hi: int,
    edges: Seq<Seq<int>>,
    v: int,
    param: Ratio,
    j: int,
)
    requires
        splice_at(built, t, t2, chain, lo, hi, edges, v, param, j),
    ensures
        forall|w: int, p: int|
            lo <= w < hi && -1 <= p < edges_with(edges, v, j, t.len() as int)[w].len()
                ==> #[trigger] link_ok(
                t2,
                built,
                chain,
                edges_with(edges, v, j, t.len() as int),
                w,
                p,
            ),
{
    let first = built.len() as int;
    let fresh = t.len() as int;
    let edges2 = edges_with(edges, v, j, fresh);
    edges[v].insert_ensures(j, fresh);
    if j > 0 {
        assert(member_ok(t, chain, edges, first, v, j - 1));
    }
    assert forall|w: int, p: int|
        lo <= w < hi && -1 <= p < edges2[w].len() implies #[trigger] link_ok(
        t2,
        built,
        chain,
        edges2,
        w,
        p,
    ) by {
        if w != v {
            assert(link_ok(t, built, chain, edges, w, p));
            if p >= 0 {
                assert(member_ok(t, chain, edges, first, w, p));
            }
        } else if p < j {
            assert(link_ok(t, built, chain, edges, v, p));
            if p >= 0 {
                assert(member_ok(t, chain, edges, first, v, p));
            }
        } else if p == j {
            assert(link_ok(t, built, chain, edges, v, j - 1));
        } else {
            assert(link_ok(t, built, chain, edges, v, p - 1));
            assert(member_ok(t, chain, edges, first, v, p - 1));
        }
    }
}

proof fn lemma_splice_slots(
    built: Seq<VertexRecord>,
    t: Seq<VertexRecord>,
    t2: Seq<VertexRecord>,
    chain: Chain,
    lo: int,
    hi: int,
    edges: Seq<Seq<int>>,
    v: int,
    param: Ratio,
    j: int,
)
    requires
        splice_at(built, t, t2, chain, lo, hi, edges, v, param, j),
    ensures
        ({
            let edges2 = edges_with(edges, v, j, t.len() as int);
            &&& forall|w: int, p: int, u: int, q: int|
                lo <= w < hi && lo <= u < hi && 0 <= p < edges2[w].len() && 0 <= q
                    < edges2[u].len() && #[trigger] slot(edges2, w, p) == #[trigger] slot(
                    edges2,
                    u,
                    q,
                ) ==> w == u && p == q
            &&& forall|x: int|
                built.len() <= x < t2.len() ==> #[trigger] has_home(edges2, lo, hi, x)
        }),
{
    let first = built.len() as int;
    let fresh = t.len() as int;
    let edges2 = edges_with(edges, v, j, fresh);
    edges[v].insert_ensures(j, fresh);
    assert forall|w: int, p: int, u: int, q: int|
        lo <= w < hi && lo <= u < hi && 0 <= p < edges2[w].len() && 0 <= q < edges2[u].len()
            && #[trigger] slot(edges2, w, p) == #[trigger] slot(edges2, u, q) implies w == u && p
        == q by {
        let p0 = if w == v && p > j {
            p - 1
        } else {
            p
        };
        let q0 = if u == v && q > j {
            q - 1
        } else {
            q
        };
        if !(w == v && p == j) {
            assert(member_ok(t, chain, edges, first, w, p0));
        }
        if !(u == v && q == j) {
            assert(member_ok(t, chain, edges, first, u, q0));
        }
        if !(w == v && p == j) && !(u == v && q == j) {
            assert(slot(edges, w, p0) == slot(edges, u, q0));
        }
    }
    assert forall|x: int| first <= x < t2.len() implies #[trigger] has_home(edges2, lo, hi, x) by {
        if x == fresh {
            assert(slot(edges2, v, j) == x);
        } else {
            assert(has_home(edges, lo, hi, x));
            let (w, p) = choose|w: int, p: int|
                lo <= w < hi && 0 <= p < edges[w].len() && #[trigger] slot(edges, w, p) == x;
            if w == v && p >= j {
                assert(slot(edges2, v, p + 1) == x);
            } else {
                assert(slot(edges2, w, p) == x);
            }
        }
    }
}

/// Linking a record into a chain where a scan from the start of an edge
/// stops keeps the edges in order: the record goes onto that edge, after the
/// intersections that lie before it.
proof fn lemma_splice_keeps_edges(
    built: Seq<VertexRecord>,
    t: Seq<VertexRecord>,
    t2: Seq<VertexRecord>,
    chain: Chain,
    lo: int,
    hi: int,
    edges: Seq<Seq<int>>,
    v: int,
    param: Ratio,
) -> (edges2: Seq<Seq<int>>)
    requires
        built_ok(built, chain, lo, hi),
        edges_ok(built, t, chain, lo, hi, edges),
        lo <= v < hi,
        param.wf(),
        spliced_on(t, t2, chain, scan(t, chain, v, param, t.len()), param),
    ensures
        edges_ok(built, t2, chain, lo, hi, edges2),
{
    let fresh = t.len() as int;
    let j = lemma_scan_stops_on_edge(built, t, chain, lo, hi, edges, v, -1, param, t.len());
    let edges2 = edges_with(edges, v, j, fresh);
    edges[v].insert_ensures(j, fresh);
    lemma_splice_members(built, t, t2, chain, lo, hi, edges, v, param, j);
    lemma_splice_links(built, t, t2, chain, lo, hi, edges, v, param, j);
    lemma_splice_slots(built, t, t2, chain, lo, hi, edges, v, param, j);
    edges2
}

/// Both chains of the live table `t` are in order: `subject_edges` lists the
/// intersections on each edge of the subject, `clip_edges` those on each edge
/// of the clip polygon.
pub open spec fn chains_ok(
    built: Seq<VertexRecord>,
    t: Seq<VertexRecord>,
    subject_end: int,
    subject_edges: Seq<Seq<int>>,
    clip_edges: Seq<Seq<int>>,
) -> bool {
    let clip_end = built.len() as int;
    &&& built_ok(built, Chain::Subject, 0, subject_end)
    &&& built_ok(built, Chain::Clip, subject_end, clip_end)
    &&& forall|v: int| 0 <= v < clip_end ==> (#[trigger] built[v]).point.in_range()
    &&& edges_ok(built, t, Chain::Subject, 0, subject_end, subject_edges)
    &&& edges_ok(built, t, Chain::Clip, subject_end, clip_end, clip_edges)
}

/// Inserting an intersection keeps both chains in order.
pub(crate) proof fn lemma_splice_keeps_chains(
    built: Seq<VertexRecord>,
    t: Seq<VertexRecord>,
    subject_end: int,
    subject_edges: Seq<Seq<int>>,
    clip_edges: Seq<Seq<int>>,
    i1: int,
    i2: int,
    hit: Hit,
) -> (r: (Seq<Seq<int>>, Seq<Seq<int>>))
    requires
        chains_ok(built, t, subject_end, subject_edges, clip_edges),
        0 <= i1 < subject_end <= i2 < built.len(),
        hit.s.wf(),
        hit.t.wf(),
        t.len() < usize::MAX,
    ensures
        chains_ok(built, splice(t, i1, i2, hit), subject_end, r.0, r.1),
        splice(t, i1, i2, hit).len() == t.len() + 1,
        records_wf(t, t.len() as int) && hit.point.in_range() ==> records_wf(
            splice(t, i1, i2, hit),
            t.len() as int + 1,
        ),
{
    let clip_end = built.len() as int;
    let t2 = splice(t, i1, i2, hit);
    let js = lemma_scan_stops_on_edge(
        built,
        t,
        Chain::Subject,
        0,
        subject_end,
        subject_edges,
        i1,
        -1,
        hit.s,
        t.len(),
    );
    let jc = lemma_scan_stops_on_edge(
        built,
        t,
        Chain::Clip,
        subject_end,
        clip_end,
        clip_edges,
        i2,
        -1,
        hit.t,
        t.len(),
    );
    let a = scan(t, Chain::Subject, i1, hit.s, t.len());
    let b = scan(t, Chain::Clip, i2, hit.t, t.len());
    if js > 0 {
        assert(member_ok(t, Chain::Subject, subject_edges, clip_end, i1, js - 1));
    }
    if jc > 0 {
        assert(member_ok(t, Chain::Clip, clip_edges, clip_end, i2, jc - 1));
    }
    assert(0 <= a < t.len() && 0 <= b < t.len());
    if records_wf(t, t.len() as int) && hit.point.in_range() {
        assert forall|i: int| 0 <= i < t2.len() implies (#[trigger] t2[i]).wf(
            t.len() as int + 1,
        ) by {
            if i < t.len() {
                assert(t[i].wf(t.len() as int));
            }
            assert(t[a].wf(t.len() as int));
            assert(t[b].wf(t.len() as int));
        }
    }
    assert(spliced_on(t, t2, Chain::Subject, a, hit.s));
    assert(spliced_on(t, t2, Chain::Clip, b, hit.t));
    let es = lemma_splice_keeps_edges(
        built,
        t,
        t2,
        Chain::Subject,
        0,
        subject_end,
        subject_edges,
        i1,
        hit.s,
    );
    let ec = lemma_splice_keeps_edges(
        built,
        t,
        t2,
        Chain::Clip,
        subject_end,
        clip_end,
        clip_edges,
        i2,
        hit.t,
    );
    (es, ec)
}

/// The table is as `build_table` leaves it: the vertices of the subject
/// first, then those of the clip polygon, each linked along its own chain
/// only, and nothing else.
pub open spec fn is_built(t: Seq<VertexRecord>, subject_end: int) -> bool {
    &&& built_ok(t, Chain::Subject, 0, subject_end)
    &&& built_ok(t, Chain::Clip, subject_end, t.len() as int)
    &&& forall|v: int| 0 <= v < t.len() ==> (#[trigger] t[v]).point.in_range()
    &&& links_one_to_one(t, Chain::Subject, 0, subject_end)
    &&& links_one_to_one(t, Chain::Clip, subject_end, t.len() as int)
    &&& forall|v: int|
        0 <= v < subject_end ==> #[trigger] in_some_block(t, Chain::Subject, 0, subject_end, v)
    &&& forall|v: int|
        subject_end <= v < t.len() ==> #[trigger] in_some_block(
            t,
            Chain::Clip,
            subject_end,
            t.len() as int,
            v,
        )
}

/// No two of the records from `lo` up to but not including `hi` are linked to
/// the same record.
pub open spec fn links_one_to_one(t: Seq<VertexRecord>, chain: Chain, lo: int, hi: int) -> bool {
    forall|v: int, w: int|
        lo <= v < hi && lo <= w < hi && (#[trigger] t[v]).next_on(chain) == (
        #[trigger] t[w]).next_on(chain) ==> v == w
}

/// The `n` records from index `b` are linked each to the one after it and
/// the last back to the first, as the vertices of one contour are.
pub open spec fn is_ring_block(t: Seq<VertexRecord>, chain: Chain, b: int, n: int) -> bool {
    &&& 0 <= b
    &&& 1 <= n
    &&& b + n <= t.len()
    &&& forall|g: int|
        b <= g < b + n ==> (#[trigger] t[g]).next_on(chain) == (if g + 1 < b + n {
            g + 1
        } else {
            b
        })
}

/// The record `g` is a vertex of a contour whose records all lie between
/// `lo` and `hi`.
pub open spec fn in_some_block(t: Seq<VertexRecord>, chain: Chain, lo: int, hi: int, g: int)
    -> bool {
    exists|b: int, n: int| lo <= b <= g < b + n <= hi && #[trigger] is_ring_block(t, chain, b, n)
}

/// The record is that of a vertex of the polygon of `chain`.
pub open spec fn is_original(r: VertexRecord, chain: Chain) -> bool {
    &&& r.origin == origin_of(chain)
    &&& r.param_subject == (Ratio { num: 1, den: 1 })
    &&& r.param_clip == (Ratio { num: 1, den: 1 })
    &&& r.point.in_range()
}

proof fn lemma_block_survives(
    t: Seq<VertexRecord>,
    more: Seq<VertexRecord>,
    chain: Chain,
    b: int,
    n: int,
)
    requires
        is_ring_block(t, chain, b, n),
    ensures
        is_ring_block(t + more, chain, b, n),
{
    assert forall|g: int| b <= g < b + n implies (#[trigger] (t + more)[g]).next_on(chain) == (if g
        + 1 < b + n {
        g + 1
    } else {
        b
    }) by {
        assert((t + more)[g] == t[g]);
    }
}

/// The records of a polygon, placed after `prefix`, are vertices of that
/// polygon, each in the ring of its contour.
proof fn lemma_polygon_blocks(prefix: Seq<VertexRecord>, p: Seq<Seq<Point>>, chain: Chain)
    requires
        contours_in_range(p),
        prefix.len() + polygon_records(p, chain, prefix.len() as int).len() <= usize::MAX,
    ensures
        ({
            let t = prefix + polygon_records(p, chain, prefix.len() as int);
            forall|g: int|
                prefix.len() <= g < t.len() ==> is_original(#[trigger] t[g], chain)
                    && in_some_block(t, chain, prefix.len() as int, t.len() as int, g)
        }),
    decreases p.len(),
{
    let base = prefix.len() as int;
    let t = prefix + polygon_records(p, chain, base);
    if p.len() > 0 {
        let head = polygon_records(p.drop_last(), chain, base);
        let last = contour_records(p.last(), chain, base + head.len());
        let t1 = prefix + head;
        assert(t =~= t1 + last);
        assert(contours_in_range(p.drop_last())) by {
            assert forall|k: int| 0 <= k < p.drop_last().len() implies points_in_range(
                #[trigger] p.drop_last()[k],
            ) by {
                assert(p.drop_last()[k] == p[k]);
            }
        }
        lemma_polygon_blocks(prefix, p.drop_last(), chain);
        assert(points_in_range(p[p.len() - 1]));
        assert forall|g: int| base <= g < t.len() implies is_original(#[trigger] t[g], chain)
            && in_some_block(t, chain, base, t.len() as int, g) by {
            if g < t1.len() {
                assert(t[g] == t1[g]);
                assert(in_some_block(t1, chain, base, t1.len() as int, g));
                let (b, n) = choose|b: int, n: int|
                    base <= b <= g < b + n <= t1.len() && #[trigger] is_ring_block(
                        t1,
                        chain,
                        b,
                        n,
                    );
                lemma_block_survives(t1, last, chain, b, n);
                assert(is_ring_block(t, chain, b, n));
            } else {
                let b = t1.len() as int;
                let n = last.len() as int;
                assert(t[g] == last[g - b]);
                assert forall|gg: int| b <= gg < b + n implies (#[trigger] t[gg]).next_on(chain)
                    == (if gg + 1 < b + n {
                    gg + 1
                } else {
                    b
                }) by {
                    assert(t[gg] == last[gg - b]);
                }
                assert(is_ring_block(t, chain, b, n));
            }
        }
    }
}

/// A table of two polygons, before any intersection is inserted, is as
/// `is_built` says.
pub proof fn lemma_initial_records_are_built(subject: Seq<Seq<Point>>, clip: Seq<Seq<Point>>)
    requires
        contours_in_range(subject),
        contours_in_range(clip),
        initial_records(subject, clip).len() <= usize::MAX,
    ensures
        is_built(
            initial_records(subject, clip),
            polygon_records(subject, Chain::Subject, 0).len() as int,
        ),
{
    let head = polygon_records(subject, Chain::Subject, 0);
    let tail = polygon_records(clip, Chain::Clip, head.len() as int);
    let t = initial_records(subject, clip);
    let se = head.len() as int;
    assert(t == head + tail);
    assert(Seq::<VertexRecord>::empty() + head =~= head);
    lemma_polygon_blocks(Seq::empty(), subject, Chain::Subject);
    lemma_polygon_blocks(head, clip, Chain::Clip);
    assert forall|v: int| 0 <= v < se implies #[trigger] in_some_block(
        t,
        Chain::Subject,
        0,
        se,
        v,
    ) && is_original(t[v], Chain::Subject) by {
        assert(t[v] == head[v]);
        assert(in_some_block(head, Chain::Subject, 0, se, v));
        let (b, n) = choose|b: int, n: int|
            0 <= b <= v < b + n <= se && #[trigger] is_ring_block(head, Chain::Subject, b, n);
        lemma_block_survives(head, tail, Chain::Subject, b, n);
    }
    assert forall|v: int| se <= v < t.len() implies #[trigger] in_some_block(
        t,
        Chain::Clip,
        se,
        t.len() as int,
        v,
    ) && is_original(t[v], Chain::Clip) by {
        let whole = head + tail;
        assert(is_original(whole[v], Chain::Clip));
    }
    lemma_blocks_are_built(t, Chain::Subject, 0, se);
    lemma_blocks_are_built(t, Chain::Clip, se, t.len() as int);
    let none = Seq::<VertexRecord>::empty();
    lemma_polygon_len(subject, Chain::Subject, 0);
    lemma_polygon_len(clip, Chain::Clip, se);
    lemma_polygon_stands(none, subject, Chain::Subject, tail);
    assert(none + head + tail =~= t);
    lemma_polygon_stands(head, clip, Chain::Clip, none);
    assert(head + tail + none =~= t);
    assert forall|v: int, w: int|
        0 <= v < se && 0 <= w < se && (#[trigger] t[v]).next_on(Chain::Subject) == (
        #[trigger] t[w]).next_on(Chain::Subject) implies v == w by {
        lemma_links_are_one_to_one(t, Chain::Subject, 0, subject, v, w);
    }
    assert forall|v: int, w: int|
        se <= v < t.len() && se <= w < t.len() && (#[trigger] t[v]).next_on(Chain::Clip) == (
        #[trigger] t[w]).next_on(Chain::Clip) implies v == w by {
        lemma_links_are_one_to_one(t, Chain::Clip, se, clip, v, w);
    }
}

proof fn lemma_blocks_are_built(t: Seq<VertexRecord>, chain: Chain, lo: int, hi: int)
    requires
        0 <= lo <= hi <= t.len(),
        forall|v: int|
            lo <= v < hi ==> #[trigger] in_some_block(t, chain, lo, hi, v) && is_original(
                t[v],
                chain,
            ),
    ensures
        built_ok(t, chain, lo, hi),
{
    assert forall|v: int| lo <= v < hi implies {
        let r = #[trigger] t[v];
        &&& lo <= r.next_on(chain) < hi
        &&& r.param_on(chain) == (Ratio { num: 1, den: 1 })
        &&& r.origin == origin_of(chain)
    } by {
        assert(in_some_block(t, chain, lo, hi, v));
        let (b, n) = choose|b: int, n: int|
            lo <= b <= v < b + n <= hi && #[trigger] is_ring_block(t, chain, b, n);
        assert(is_ring_block(t, chain, b, n));
    }
}

/// The table is the table `built` with intersections inserted in order along
/// both chains.
pub open spec fn is_chained(t: Seq<VertexRecord>, built: Seq<VertexRecord>, subject_end: int)
    -> bool {
    exists|subject_edges: Seq<Seq<int>>, clip_edges: Seq<Seq<int>>| #[trigger]
        chains_ok(built, t, subject_end, subject_edges, clip_edges)
}

/// The lists of intersections of a table into which none has been inserted.
pub open spec fn no_edges(n: nat) -> Seq<Seq<int>> {
    Seq::new(n, |v: int| Seq::<int>::empty())
}

/// A table as built has both chains in order, with no intersection on any
/// edge.
pub(crate) proof fn lemma_built_is_chained(t: Seq<VertexRecord>, subject_end: int)
    requires
        is_built(t, subject_end),
    ensures
        chains_ok(t, t, subject_end, no_edges(t.len()), no_edges(t.len())),
{
    let e = no_edges(t.len());
    assert forall|v: int, p: int|
        0 <= v < subject_end && -1 <= p < e[v].len() implies #[trigger] link_ok(
        t,
        t,
        Chain::Subject,
        e,
        v,
        p,
    ) by {}
    assert forall|v: int, p: int|
        subject_end <= v < t.len() && -1 <= p < e[v].len() implies #[trigger] link_ok(
        t,
        t,
        Chain::Clip,
        e,
        v,
        p,
    ) by {}
}

/// Inserting the intersections changes no vertex of either polygon but for
/// its links, and every record added is an intersection.
pub proof fn lemma_vertices_are_kept(
    t: Seq<VertexRecord>,
    built: Seq<VertexRecord>,
    subject_end: int,
)
    requires
        is_chained(t, built, subject_end),
    ensures
        built.len() <= t.len(),
        forall|i: int| 0 <= i < built.len() ==> same_vertex(#[trigger] t[i], built[i]),
        forall|i: int| built.len() <= i < t.len() ==> (#[trigger] t[i]).origin is Intersection,
{
    let (es, ec) = choose|es: Seq<Seq<int>>, ec: Seq<Seq<int>>| #[trigger]
        chains_ok(built, t, subject_end, es, ec);
    assert forall|i: int| built.len() <= i < t.len() implies (#[trigger] t[i]).origin
        is Intersection by {
        assert(has_home(ec, subject_end, built.len() as int, i));
        let (v, p) = choose|v: int, p: int|
            subject_end <= v < built.len() && 0 <= p < ec[v].len() && #[trigger] slot(ec, v, p)
                == i;
        assert(member_ok(t, Chain::Clip, ec, built.len() as int, v, p));
    }
}

/// No two records of a chain are linked to the same record.
pub(crate) proof fn lemma_next_is_one_to_one(
    built: Seq<VertexRecord>,
    t: Seq<VertexRecord>,
    chain: Chain,
    lo: int,
    hi: int,
    edges: Seq<Seq<int>>,
    i: int,
    j: int,
)
    requires
        built_ok(built, chain, lo, hi),
        links_one_to_one(built, chain, lo, hi),
        edges_ok(built, t, chain, lo, hi, edges),
        lo <= i < hi || built.len() <= i < t.len(),
        lo <= j < hi || built.len() <= j < t.len(),
        t[i].next_on(chain) == t[j].next_on(chain),
    ensures
        i == j,
{
    let first = built.len() as int;
    let (v, p) = if lo <= i < hi {
        (i, -1)
    } else {
        assert(has_home(edges, lo, hi, i));
        choose|v: int, p: int|
            lo <= v < hi && 0 <= p < edges[v].len() && #[trigger] slot(edges, v, p) == i
    };
    let (w, q) = if lo <= j < hi {
        (j, -1)
    } else {
        assert(has_home(edges, lo, hi, j));
        choose|w: int, q: int|
            lo <= w < hi && 0 <= q < edges[w].len() && #[trigger] slot(edges, w, q) == j
    };
    assert(link_ok(t, built, chain, edges, v, p));
    assert(link_ok(t, built, chain, edges, w, q));
    if p + 1 < edges[v].len() {
        assert(member_ok(t, chain, edges, first, v, p + 1));
    }
    if q + 1 < edges[w].len() {
        assert(member_ok(t, chain, edges, first, w, q + 1));
    }
    if p + 1 < edges[v].len() && q + 1 < edges[w].len() {
        assert(slot(edges, v, p + 1) == slot(edges, w, q + 1));
    }
    if p >= 0 {
        assert(member_ok(t, chain, edges, first, v, p));
    }
    if q >= 0 {
        assert(member_ok(t, chain, edges, first, w, q));
    }
}

} // verus!
