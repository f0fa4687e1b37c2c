//! Polygons whose edges do not meet: clipping gives both back whole.

use vstd::prelude::*;
use crate::clip::clip_spec;
use crate::insert::{chain_edge, insert_pair, insert_row, insert_rows, with_intersections};
use crate::point::{Point, contours_in_range, points_in_range};
use crate::segment::{edge, intersection_spec};
use crate::table::{
    Chain, VertexRecord, contour_records, initial_records, origin_of, original_record,
    polygon_records, vertex_count,
};
use crate::walk::{
    ClipView, is_leftover_seed, leftover_pass, leftover_walk, mark, result_pass, walk_spec,
};

verus! {

/// Every contour ends on the point it starts from.
pub open spec fn closed_contours(p: Seq<Seq<Point>>) -> bool {
    forall|k: int|
        0 <= k < p.len() ==> (#[trigger] p[k]).len() >= 2 && p[k][0] == p[k][p[k].len() - 1]
}

/// No edge of `subject` meets an edge of `clip`.
pub open spec fn edges_apart(subject: Seq<Seq<Point>>, clip: Seq<Seq<Point>>) -> bool {
    forall|k: int, i: int, m: int, j: int|
        0 <= k < subject.len() && 0 <= i < subject[k].len() - 1 && 0 <= m < clip.len() && 0 <= j
            < clip[m].len() - 1 ==> intersection_spec(
            #[trigger] edge(subject[k], i),
            #[trigger] edge(clip[m], j),
        ) is None
}

/// How many records the first `k` contours of a polygon give: the place of
/// the first record of contour `k` among the records of the polygon.
pub open spec fn contour_base(p: Seq<Seq<Point>>, k: int) -> int
    decreases k,
{
    if k <= 0 {
        0
    } else {
        contour_base(p, k - 1) + vertex_count(p[k - 1])
    }
}

/// The link of the record `g` of a contour of `n` records placed from `b`.
pub open spec fn ring_next(b: int, n: int, g: int) -> int {
    if g + 1 < b + n {
        g + 1
    } else {
        b
    }
}

/// The records of the contour `c` stand in `t` from index `b`, as built.
pub open spec fn holds_contour(t: Seq<VertexRecord>, chain: Chain, b: int, c: Seq<Point>) -> bool {
    let n = vertex_count(c) as int;
    &&& 0 <= b
    &&& b + n <= t.len()
    &&& forall|g: int|
        b <= g < b + n ==> #[trigger] t[g] == original_record(
            c[g - b],
            chain,
            ring_next(b, n, g),
        )
}

/// The records of contour `k` of the polygon `p` stand in `t`, where the
/// records of `p` start at index `from`.
pub open spec fn contour_at(
    t: Seq<VertexRecord>,
    chain: Chain,
    from: int,
    p: Seq<Seq<Point>>,
    k: int,
) -> bool {
    holds_contour(t, chain, from + contour_base(p, k), p[k])
}

/// The records of the polygon `p` stand in `t` from index `from`, as built.
pub open spec fn holds_polygon(t: Seq<VertexRecord>, chain: Chain, from: int, p: Seq<Seq<Point>>)
    -> bool {
    &&& 0 <= from
    &&& from + contour_base(p, p.len() as int) <= t.len()
    &&& forall|k: int| 0 <= k < p.len() ==> #[trigger] contour_at(t, chain, from, p, k)
}

pub(crate) proof fn lemma_contour_base_grows(p: Seq<Seq<Point>>, k: int, m: int)
    requires
        0 <= k <= m,
    ensures
        0 <= contour_base(p, k) <= contour_base(p, m),
    decreases m,
{
    if k < m {
        lemma_contour_base_grows(p, k, m - 1);
    } else if k > 0 {
        lemma_contour_base_grows(p, k - 1, k - 1);
    }
}

proof fn lemma_contour_base_of_prefix(p: Seq<Seq<Point>>, k: int)
    requires
        0 <= k < p.len(),
    ensures
        contour_base(p.drop_last(), k) == contour_base(p, k),
    decreases k,
{
    if k > 0 {
        lemma_contour_base_of_prefix(p, k - 1);
        assert(p.drop_last()[k - 1] == p[k - 1]);
    }
}

/// The records of a polygon are those of its contours, each placed at its
/// base.
proof fn lemma_polygon_records_at(p: Seq<Seq<Point>>, chain: Chain, base: int, k: int, i: int)
    requires
        0 <= k < p.len(),
        0 <= i < vertex_count(p[k]),
    ensures
        polygon_records(p, chain, base).len() == contour_base(p, p.len() as int),
        0 <= contour_base(p, k),
        contour_base(p, k) + vertex_count(p[k]) <= polygon_records(p, chain, base).len(),
        polygon_records(p, chain, base)[contour_base(p, k) + i] == contour_records(
            p[k],
            chain,
            base + contour_base(p, k),
        )[i],
    decreases p.len(),
{
    let head = polygon_records(p.drop_last(), chain, base);
    let last = contour_records(p.last(), chain, base + head.len());
    lemma_polygon_len(p.drop_last(), chain, base);
    lemma_polygon_len(p, chain, base);
    lemma_contour_base_grows(p, k, k);
    lemma_contour_base_grows(p, k + 1, p.len() as int);
    if k < p.len() - 1 {
        lemma_contour_base_of_prefix(p, k);
        assert(p.drop_last()[k] == p[k]);
        lemma_polygon_records_at(p.drop_last(), chain, base, k, i);
    } else {
        lemma_contour_base_of_prefix_len(p);
    }
}

proof fn lemma_contour_base_of_prefix_len(p: Seq<Seq<Point>>)
    requires
        p.len() > 0,
    ensures
        contour_base(p.drop_last(), p.len() - 1) == contour_base(p, p.len() - 1),
{
    if p.len() > 1 {
        lemma_contour_base_of_prefix(p, p.len() - 2);
        assert(p.drop_last()[p.len() - 2] == p[p.len() - 2]);
    }
}

pub(crate) proof fn lemma_polygon_len(p: Seq<Seq<Point>>, chain: Chain, base: int)
    ensures
        polygon_records(p, chain, base).len() == contour_base(p, p.len() as int),
    decreases p.len(),
{
    if p.len() > 0 {
        lemma_polygon_len(p.drop_last(), chain, base);
        lemma_contour_base_of_prefix_len(p);
    }
}

/// The records of a polygon, placed after `prefix` and before `suffix`,
/// stand there as built.
pub(crate) proof fn lemma_polygon_stands(
    prefix: Seq<VertexRecord>,
    p: Seq<Seq<Point>>,
    chain: Chain,
    suffix: Seq<VertexRecord>,
)
    requires
        prefix.len() + polygon_records(p, chain, prefix.len() as int).len() <= usize::MAX,
    ensures
        holds_polygon(
            prefix + polygon_records(p, chain, prefix.len() as int) + suffix,
            chain,
            prefix.len() as int,
            p,
        ),
{
    let from = prefix.len() as int;
    let records = polygon_records(p, chain, from);
    let t = prefix + records + suffix;
    lemma_polygon_len(p, chain, from);
    assert forall|k: int| 0 <= k < p.len() implies #[trigger] contour_at(t, chain, from, p, k) by {
        let b = from + contour_base(p, k);
        let n = vertex_count(p[k]) as int;
        lemma_contour_base_grows(p, k, k);
        lemma_contour_base_grows(p, k + 1, p.len() as int);
        assert forall|g: int| b <= g < b + n implies #[trigger] t[g] == original_record(
            p[k][g - b],
            chain,
            ring_next(b, n, g),
        ) by {
            lemma_polygon_records_at(p, chain, from, k, g - b);
            assert(t[g] == records[g - from]);
        }
    }
}

/// Which contour the record `g` of a polygon belongs to, and which of its
/// points it holds.
pub(crate) proof fn lemma_locate(p: Seq<Seq<Point>>, g: int, k: int) -> (r: (int, int))
    requires
        0 <= g < contour_base(p, k),
        k <= p.len(),
    ensures
        0 <= r.0 < k,
        0 <= r.1 < vertex_count(p[r.0]),
        g == contour_base(p, r.0) + r.1,
    decreases k,
{
    if g >= contour_base(p, k - 1) {
        (k - 1, g - contour_base(p, k - 1))
    } else {
        lemma_locate(p, g, k - 1)
    }
}

/// The edge that leaves a record of a closed contour is the edge of the
/// contour at that point.
proof fn lemma_chain_edge_of_contour(
    t: Seq<VertexRecord>,
    chain: Chain,
    from: int,
    p: Seq<Seq<Point>>,
    g: int,
) -> (r: (int, int))
    requires
        holds_polygon(t, chain, from, p),
        closed_contours(p),
        from <= g < from + contour_base(p, p.len() as int),
        t.len() <= usize::MAX,
    ensures
        0 <= r.0 < p.len(),
        0 <= r.1 < p[r.0].len() - 1,
        chain_edge(t, chain, g) == edge(p[r.0], r.1),
{
    let r = lemma_locate(p, g - from, p.len() as int);
    let (k, i) = r;
    assert(contour_at(t, chain, from, p, k));
    let b = from + contour_base(p, k);
    let n = vertex_count(p[k]) as int;
    let next = ring_next(b, n, g);
    assert(t[g] == original_record(p[k][i], chain, next));
    assert(t[next] == original_record(p[k][next - b], chain, ring_next(b, n, next)));
    r
}

/// Where no edge of the subject meets an edge of the clip polygon, testing
/// the pairs of edges inserts nothing.
proof fn lemma_rows_insert_nothing(
    built: Seq<VertexRecord>,
    subject_end: int,
    subject: Seq<Seq<Point>>,
    clip: Seq<Seq<Point>>,
    upto: int,
)
    requires
        holds_polygon(built, Chain::Subject, 0, subject),
        holds_polygon(built, Chain::Clip, subject_end, clip),
        subject_end == contour_base(subject, subject.len() as int),
        built.len() == subject_end + contour_base(clip, clip.len() as int),
        built.len() <= usize::MAX,
        closed_contours(subject),
        closed_contours(clip),
        edges_apart(subject, clip),
        upto <= subject_end,
    ensures
        insert_rows(built, built, subject_end, built.len() as int, upto) == built,
    decreases upto,
{
    if upto > 0 {
        lemma_rows_insert_nothing(built, subject_end, subject, clip, upto - 1);
        lemma_row_inserts_nothing(
            built,
            subject_end,
            subject,
            clip,
            upto - 1,
            built.len() as int,
        );
    }
}

proof fn lemma_row_inserts_nothing(
    built: Seq<VertexRecord>,
    subject_end: int,
    subject: Seq<Seq<Point>>,
    clip: Seq<Seq<Point>>,
    i1: int,
    upto: int,
)
    requires
        holds_polygon(built, Chain::Subject, 0, subject),
        holds_polygon(built, Chain::Clip, subject_end, clip),
        subject_end == contour_base(subject, subject.len() as int),
        built.len() == subject_end + contour_base(clip, clip.len() as int),
        built.len() <= usize::MAX,
        closed_contours(subject),
        closed_contours(clip),
        edges_apart(subject, clip),
        0 <= i1 < subject_end,
        upto <= built.len(),
    ensures
        insert_row(built, built, i1, subject_end, upto) == built,
    decreases upto - subject_end,
{
    if upto > subject_end {
        lemma_row_inserts_nothing(built, subject_end, subject, clip, i1, upto - 1);
        let (k, i) = lemma_chain_edge_of_contour(built, Chain::Subject, 0, subject, i1);
        let (m, j) = lemma_chain_edge_of_contour(built, Chain::Clip, subject_end, clip, upto - 1);
        assert(intersection_spec(edge(subject[k], i), edge(clip[m], j)) is None);
        assert(insert_pair(built, built, i1, upto - 1) == built);
    }
}

/// The table with the records from `lo` up to but not including `hi` marked
/// as visited.
pub open spec fn marked_range(t: Seq<VertexRecord>, lo: int, hi: int) -> Seq<VertexRecord> {
    Seq::new(
        t.len(),
        |g: int|
            if lo <= g < hi {
                VertexRecord { visited: true, ..t[g] }
            } else {
                t[g]
            },
    )
}

/// The records of the closed contour `c` stand in `t` from index `b`, linked
/// into a ring, and those from the `i`-th on have not been visited.
pub open spec fn walking_contour(
    t: Seq<VertexRecord>,
    chain: Chain,
    b: int,
    c: Seq<Point>,
    i: int,
) -> bool {
    let n = vertex_count(c) as int;
    &&& 0 <= b
    &&& 0 <= i
    &&& b + n <= t.len()
    &&& c.len() >= 2
    &&& c[0] == c[c.len() - 1]
    &&& forall|g: int|
        b <= g < b + n ==> {
            let r = #[trigger] t[g];
            &&& r.point == c[g - b]
            &&& r.next_on(chain) == ring_next(b, n, g)
            &&& r.origin == origin_of(chain)
            &&& g >= b + i ==> !r.visited
        }
}

/// A walk along a ring of vertices not yet visited emits the contour of the
/// ring as one piece and marks the ring.
proof fn lemma_walk_emits_contour(
    t: Seq<VertexRecord>,
    chain: Chain,
    b: int,
    c: Seq<Point>,
    i: int,
    done: Seq<Seq<Point>>,
    fuel: nat,
)
    requires
        walking_contour(t, chain, b, c, i),
        i < vertex_count(c),
        fuel >= vertex_count(c) - i,
    ensures
        leftover_walk(
            t,
            chain,
            b,
            b + i,
            if i == 0 {
                Seq::empty()
            } else {
                c.take(i + 1)
            },
            done,
            fuel,
        ) == (done.push(c), marked_range(t, b + i, b + vertex_count(c))),
    decreases vertex_count(c) - i,
{
    let n = vertex_count(c) as int;
    let cur = b + i;
    let next = ring_next(b, n, cur);
    let piece = if i == 0 {
        Seq::<Point>::empty()
    } else {
        c.take(i + 1)
    };
    assert(t[cur].next_on(chain) == next);
    assert(t[next].point == c[next - b]);
    let piece_after = (if piece.len() == 0 {
        seq![t[cur].point]
    } else {
        piece
    }).push(t[next].point);
    assert(piece_after =~= c.take(i + 2));
    let t1 = mark(t, cur);
    if next == b {
        assert(c.take(i + 2) =~= c);
        assert(t1 =~= marked_range(t, b + i, b + n));
    } else {
        assert(walking_contour(t1, chain, b, c, i + 1)) by {
            assert forall|g: int| b <= g < b + n implies {
                let r = #[trigger] t1[g];
                &&& r.point == c[g - b]
                &&& r.next_on(chain) == ring_next(b, n, g)
                &&& r.origin == origin_of(chain)
                &&& g >= b + i + 1 ==> !r.visited
            } by {
                assert(t[g].point == c[g - b]);
            }
        }
        lemma_walk_emits_contour(t1, chain, b, c, i + 1, done, (fuel - 1) as nat);
        assert(marked_range(t1, b + i + 1, b + n) =~= marked_range(t, b + i, b + n));
    }
}

/// What a pass along a chain has found once the first `j` records of contour
/// `k` have been offered as seeds: the contours before `k`, and contour `k`
/// too from its first record on.
proof fn lemma_pass_state(
    t0: Seq<VertexRecord>,
    chain: Chain,
    from: int,
    p: Seq<Seq<Point>>,
    k: int,
    j: int,
)
    requires
        holds_polygon(t0, chain, from, p),
        closed_contours(p),
        t0.len() <= usize::MAX,
        0 <= k < p.len(),
        0 <= j <= vertex_count(p[k]),
    ensures
        leftover_pass(t0, chain, from, from + contour_base(p, k) + j) == (if j == 0 {
            (p.take(k), marked_range(t0, from, from + contour_base(p, k)))
        } else {
            (p.take(k + 1), marked_range(t0, from, from + contour_base(p, k + 1)))
        }),
    decreases k, j,
{
    let b = from + contour_base(p, k);
    let n = vertex_count(p[k]) as int;
    lemma_contour_base_grows(p, k, k);
    lemma_contour_base_grows(p, k + 1, p.len() as int);
    if j == 0 {
        if k == 0 {
            assert(p.take(0) =~= Seq::<Seq<Point>>::empty());
            assert(marked_range(t0, from, from) =~= t0);
        } else {
            lemma_pass_state(t0, chain, from, p, k - 1, vertex_count(p[k - 1]) as int);
        }
    } else if j == 1 {
        lemma_pass_state(t0, chain, from, p, k, 0);
        let tk = marked_range(t0, from, b);
        assert(contour_at(t0, chain, from, p, k));
        assert(walking_contour(tk, chain, b, p[k], 0)) by {
            assert forall|g: int| b <= g < b + n implies {
                let r = #[trigger] tk[g];
                &&& r.point == p[k][g - b]
                &&& r.next_on(chain) == ring_next(b, n, g)
                &&& r.origin == origin_of(chain)
                &&& g >= b ==> !r.visited
            } by {
                assert(tk[g] == t0[g]);
                assert(t0[g] == original_record(p[k][g - b], chain, ring_next(b, n, g)));
            }
        }
        lemma_walk_emits_contour(tk, chain, b, p[k], 0, p.take(k), tk.len());
        assert(p.take(k).push(p[k]) =~= p.take(k + 1));
        assert(marked_range(tk, b, b + n) =~= marked_range(t0, from, b + n));
        assert(is_leftover_seed(tk[b], chain));
    } else {
        lemma_pass_state(t0, chain, from, p, k, j - 1);
        let marked = marked_range(t0, from, b + n);
        assert(marked[b + j - 1].visited);
    }
}

/// A pass along a chain whose contours are all closed and untouched finds
/// every contour whole.
proof fn lemma_pass_finds_polygon(
    t0: Seq<VertexRecord>,
    chain: Chain,
    from: int,
    p: Seq<Seq<Point>>,
)
    requires
        holds_polygon(t0, chain, from, p),
        closed_contours(p),
        t0.len() <= usize::MAX,
    ensures
        leftover_pass(t0, chain, from, from + contour_base(p, p.len() as int)) == (
            p,
            marked_range(t0, from, from + contour_base(p, p.len() as int)),
        ),
{
    if p.len() == 0 {
        assert(p =~= Seq::<Seq<Point>>::empty());
        assert(marked_range(t0, from, from) =~= t0);
    } else {
        let k = p.len() - 1;
        lemma_pass_state(t0, chain, from, p, k, vertex_count(p[k]) as int);
        assert(p.take(k + 1) =~= p);
    }
}

/// A table without intersections has no seed for a walk of the clipped
/// region.
proof fn lemma_no_seeds(t: Seq<VertexRecord>, upto: int)
    requires
        forall|g: int| 0 <= g < t.len() ==> !((#[trigger] t[g]).origin is Intersection),
        upto <= t.len(),
    ensures
        result_pass(t, upto) == (Seq::<Seq<Point>>::empty(), t),
    decreases upto,
{
    if upto > 0 {
        lemma_no_seeds(t, upto - 1);
    }
}

proof fn lemma_polygon_has_no_intersection(
    t: Seq<VertexRecord>,
    chain: Chain,
    from: int,
    p: Seq<Seq<Point>>,
    g: int,
)
    requires
        holds_polygon(t, chain, from, p),
        from <= g < from + contour_base(p, p.len() as int),
    ensures
        t[g].origin == origin_of(chain),
{
    let (k, i) = lemma_locate(p, g - from, p.len() as int);
    assert(contour_at(t, chain, from, p, k));
}

/// Where no edge of the subject meets an edge of the clip polygon, and every
/// contour of both is closed, clipping finds no clipped region and leaves
/// both polygons whole.
pub proof fn lemma_polygons_apart_come_back_whole(subject: Seq<Seq<Point>>, clip: Seq<Seq<Point>>)
    requires
        closed_contours(subject),
        closed_contours(clip),
        edges_apart(subject, clip),
        initial_records(subject, clip).len() <= usize::MAX,
    ensures
        clip_spec(subject, clip) == (ClipView {
            result: Seq::empty(),
            leftover_subject: subject,
            leftover_clip: clip,
        }),
{
    let none = Seq::<VertexRecord>::empty();
    let head = polygon_records(subject, Chain::Subject, 0);
    let tail = polygon_records(clip, Chain::Clip, head.len() as int);
    let built = initial_records(subject, clip);
    let se = head.len() as int;
    let ce = built.len() as int;
    assert(built == head + tail);
    lemma_polygon_len(subject, Chain::Subject, 0);
    lemma_polygon_len(clip, Chain::Clip, se);
    lemma_polygon_stands(none, subject, Chain::Subject, tail);
    assert(none + head + tail =~= built);
    lemma_polygon_stands(head, clip, Chain::Clip, none);
    assert(head + tail + none =~= built);
    lemma_rows_insert_nothing(built, se, subject, clip, se);
    assert(with_intersections(built, se, ce) == built);
    assert forall|g: int| 0 <= g < built.len() implies !((#[trigger] built[g]).origin
        is Intersection) by {
        if g < se {
            lemma_polygon_has_no_intersection(built, Chain::Subject, 0, subject, g);
        } else {
            lemma_polygon_has_no_intersection(built, Chain::Clip, se, clip, g);
        }
    }
    lemma_no_seeds(built, ce);
    lemma_pass_finds_polygon(built, Chain::Subject, 0, subject);
    let marked = marked_range(built, 0, se);
    assert(holds_polygon(marked, Chain::Clip, se, clip)) by {
        assert forall|k: int| 0 <= k < clip.len() implies #[trigger] contour_at(
            marked,
            Chain::Clip,
            se,
            clip,
            k,
        ) by {
            assert(contour_at(built, Chain::Clip, se, clip, k));
            lemma_contour_base_grows(clip, k, k);
            let b = se + contour_base(clip, k);
            let n = vertex_count(clip[k]) as int;
            assert forall|g: int| b <= g < b + n implies #[trigger] marked[g] == original_record(
                clip[k][g - b],
                Chain::Clip,
                ring_next(b, n, g),
            ) by {
                assert(marked[g] == built[g]);
            }
        }
    }
    lemma_pass_finds_polygon(marked, Chain::Clip, se, clip);
    let walked = walk_spec(built, se, ce);
    assert(walked.result == Seq::<Seq<Point>>::empty());
    assert(walked.leftover_subject == subject);
    assert(walked.leftover_clip == clip);
}

/// No two vertices of a polygon as built are linked to the same vertex.
pub(crate) proof fn lemma_links_are_one_to_one(
    t: Seq<VertexRecord>,
    chain: Chain,
    from: int,
    p: Seq<Seq<Point>>,
    v: int,
    w: int,
)
    requires
        holds_polygon(t, chain, from, p),
        t.len() <= usize::MAX,
        from <= v < from + contour_base(p, p.len() as int),
        from <= w < from + contour_base(p, p.len() as int),
        t[v].next_on(chain) == t[w].next_on(chain),
    ensures
        v == w,
{
    let (k, i) = lemma_locate(p, v - from, p.len() as int);
    let (m, j) = lemma_locate(p, w - from, p.len() as int);
    assert(contour_at(t, chain, from, p, k));
    assert(contour_at(t, chain, from, p, m));
    if k < m {
        lemma_contour_base_grows(p, k + 1, m);
    }
    if m < k {
        lemma_contour_base_grows(p, m + 1, k);
    }
    lemma_contour_base_grows(p, k, k);
    lemma_contour_base_grows(p, m, m);
    lemma_contour_base_grows(p, k + 1, p.len() as int);
    lemma_contour_base_grows(p, m + 1, p.len() as int);
}

/// Each record of a polygon as built is the record of one of its points,
/// linked within its contour.
pub(crate) proof fn lemma_record_as_built(
    t: Seq<VertexRecord>,
    chain: Chain,
    from: int,
    p: Seq<Seq<Point>>,
    g: int,
)
    requires
        holds_polygon(t, chain, from, p),
        contours_in_range(p),
        t.len() <= usize::MAX,
        from <= g < from + contour_base(p, p.len() as int),
    ensures
        t[g].wf(t.len() as int),
{
    let (k, i) = lemma_locate(p, g - from, p.len() as int);
    assert(contour_at(t, chain, from, p, k));
    lemma_contour_base_grows(p, k, k);
    lemma_contour_base_grows(p, k + 1, p.len() as int);
    assert(points_in_range(p[k]));
    assert(p[k][i].in_range());
}

} // verus!
