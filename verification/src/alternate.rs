//! Crossings that alternate: where the subject goes into the clip region and
//! out of it in turn, every walk of the clipped region comes back to its
//! seed.

use vstd::prelude::*;
use crate::chains::{
    chains_ok, is_built, is_chained, lemma_next_is_one_to_one, lemma_vertices_are_kept,
    links_one_to_one, same_vertex,
};
use crate::rings::{
    follow, lemma_follow_add, lemma_follow_one, lemma_follow_stays_on_chain,
    lemma_two_are_the_same,
};
use crate::segment::{Crossing, opposite};
use crate::table::{Chain, Origin, VertexRecord, origin_of, records_wf};
use crate::walk::{
    lemma_trace_that_returns_is_closed, mark, result_chain, trace_loop, trace_returns,
};

verus! {

/// The record that a walk of the clipped region goes to from the record `i`.
pub open spec fn advance(t: Seq<VertexRecord>, i: int) -> int {
    t[i].next_on(result_chain(t[i])) as int
}

/// The record that a walk of the clipped region reaches from `i` in `k`
/// steps.
pub open spec fn advance_by(t: Seq<VertexRecord>, i: int, k: nat) -> int
    decreases k,
{
    if k == 0 {
        i
    } else {
        advance_by(t, advance(t, i), (k - 1) as nat)
    }
}

/// The kind of crossing from which a walk of the clipped region follows a
/// chain: the subject's from where the subject enters, the clip's from where
/// the subject exits.
pub open spec fn kind_on(chain: Chain) -> Crossing {
    match chain {
        Chain::Subject => Crossing::Entering,
        Chain::Clip => Crossing::Exiting,
    }
}

/// The other chain.
pub open spec fn other(chain: Chain) -> Chain {
    match chain {
        Chain::Subject => Chain::Clip,
        Chain::Clip => Chain::Subject,
    }
}

/// The first `k` records after `x` on a chain are vertices of its polygon.
pub open spec fn runs_on(t: Seq<VertexRecord>, chain: Chain, x: int, k: nat) -> bool {
    forall|j: nat| 1 <= j <= k ==> t[#[trigger] follow(t, chain, x, j)].origin == origin_of(chain)
}

/// Along a chain, the first intersection after one of the kind from which
/// the walk follows that chain is of the other kind.
pub open spec fn alternates(t: Seq<VertexRecord>, chain: Chain) -> bool {
    forall|x: int, k: nat|
        0 <= x < t.len() && k >= 1 && t[x].origin == Origin::Intersection(kind_on(chain))
            && runs_on(t, chain, x, (k - 1) as nat) && t[#[trigger] follow(
            t,
            chain,
            x,
            k,
        )].origin is Intersection ==> t[follow(t, chain, x, k)].origin == Origin::Intersection(
            opposite(kind_on(chain)),
        )
}

/// The record `i` is reached from the intersection `x` by `k` links along a
/// chain, over vertices of its polygon only.
pub open spec fn reached(t: Seq<VertexRecord>, chain: Chain, x: int, k: nat, i: int) -> bool {
    &&& 0 <= x < t.len()
    &&& t[x].origin == Origin::Intersection(kind_on(chain))
    &&& runs_on(t, chain, x, k)
    &&& follow(t, chain, x, k) == i
}

/// A walk of the clipped region that follows a chain can be at the record
/// `i`.
pub open spec fn in_walk_on(t: Seq<VertexRecord>, chain: Chain, i: int) -> bool {
    exists|x: int, k: nat| #[trigger] reached(t, chain, x, k, i)
}

/// The part of a table that the lemmas below work on: both chains in order,
/// with the lists of the intersections on their edges.
pub open spec fn setting(
    built: Seq<VertexRecord>,
    t: Seq<VertexRecord>,
    subject_end: int,
    subject_edges: Seq<Seq<int>>,
    clip_edges: Seq<Seq<int>>,
) -> bool {
    &&& chains_ok(built, t, subject_end, subject_edges, clip_edges)
    &&& links_one_to_one(built, Chain::Subject, 0, subject_end)
    &&& links_one_to_one(built, Chain::Clip, subject_end, built.len() as int)
    &&& alternates(t, Chain::Subject)
    &&& alternates(t, Chain::Clip)
}

/// The records of a chain: its vertices and the intersections.
pub open spec fn on_chain(
    built: Seq<VertexRecord>,
    t: Seq<VertexRecord>,
    subject_end: int,
    chain: Chain,
    i: int,
) -> bool {
    match chain {
        Chain::Subject => 0 <= i < subject_end || built.len() <= i < t.len(),
        Chain::Clip => subject_end <= i < t.len(),
    }
}

/// A record of a chain is a vertex of its polygon or an intersection, and
/// the intersections are the records added to the table as built.
proof fn lemma_origin_on_chain(
    built: Seq<VertexRecord>,
    t: Seq<VertexRecord>,
    subject_end: int,
    subject_edges: Seq<Seq<int>>,
    clip_edges: Seq<Seq<int>>,
    i: int,
)
    requires
        chains_ok(built, t, subject_end, subject_edges, clip_edges),
        0 <= i < t.len(),
    ensures
        0 <= i < subject_end ==> t[i].origin == Origin::SubjectOriginal,
        subject_end <= i < built.len() ==> t[i].origin == Origin::ClipOriginal,
        built.len() <= i ==> t[i].origin is Intersection,
        0 <= subject_end <= built.len() <= t.len(),
{
    if i < built.len() {
        assert(same_vertex(t[i], built[i]));
    } else {
        lemma_vertices_are_kept(t, built, subject_end);
    }
}

/// A record reached along a chain is a record of that chain, and the walk
/// leaves it along that chain.
proof fn lemma_reached_is_on_chain(
    built: Seq<VertexRecord>,
    t: Seq<VertexRecord>,
    subject_end: int,
    subject_edges: Seq<Seq<int>>,
    clip_edges: Seq<Seq<int>>,
    chain: Chain,
    x: int,
    k: nat,
    i: int,
)
    requires
        chains_ok(built, t, subject_end, subject_edges, clip_edges),
        reached(t, chain, x, k, i),
    ensures
        on_chain(built, t, subject_end, chain, i),
        0 <= i < t.len(),
        result_chain(t[i]) == chain,
        advance(t, i) == follow(t, chain, x, k + 1),
        on_chain(built, t, subject_end, chain, follow(t, chain, x, k + 1)),
        0 <= follow(t, chain, x, k + 1) < t.len(),
{
    lemma_origin_on_chain(built, t, subject_end, subject_edges, clip_edges, x);
    assert(built.len() <= x);
    match chain {
        Chain::Subject => {
            lemma_follow_stays_on_chain(
                built,
                t,
                chain,
                0,
                subject_end,
                subject_edges,
                x,
                k,
            );
            lemma_follow_stays_on_chain(
                built,
                t,
                chain,
                0,
                subject_end,
                subject_edges,
                x,
                k + 1,
            );
        },
        Chain::Clip => {
            lemma_follow_stays_on_chain(
                built,
                t,
                chain,
                subject_end,
                built.len() as int,
                clip_edges,
                x,
                k,
            );
            lemma_follow_stays_on_chain(
                built,
                t,
                chain,
                subject_end,
                built.len() as int,
                clip_edges,
                x,
                k + 1,
            );
        },
    }
    if k > 0 {
        assert(t[follow(t, chain, x, k)].origin == origin_of(chain));
    }
    lemma_follow_add(t, chain, x, k, 1);
    lemma_follow_one(t, chain, i);
}

/// From a record at which a walk can be, the walk goes to a record at which
/// a walk can be: on along the same chain, or onto the other chain at an
/// intersection of the other kind.
proof fn lemma_walk_goes_on(
    built: Seq<VertexRecord>,
    t: Seq<VertexRecord>,
    subject_end: int,
    subject_edges: Seq<Seq<int>>,
    clip_edges: Seq<Seq<int>>,
    chain: Chain,
    i: int,
)
    requires
        setting(built, t, subject_end, subject_edges, clip_edges),
        in_walk_on(t, chain, i),
    ensures
        0 <= advance(t, i) < t.len(),
        in_walk_on(t, chain, advance(t, i)) || in_walk_on(t, other(chain), advance(t, i)),
        t[advance(t, i)].origin is Intersection ==> t[advance(t, i)].origin
            == Origin::Intersection(kind_on(other(chain))),
{
    let (x, k) = choose|x: int, k: nat| #[trigger] reached(t, chain, x, k, i);
    lemma_reached_is_on_chain(
        built,
        t,
        subject_end,
        subject_edges,
        clip_edges,
        chain,
        x,
        k,
        i,
    );
    let y = follow(t, chain, x, k + 1);
    lemma_origin_on_chain(built, t, subject_end, subject_edges, clip_edges, y);
    if t[y].origin is Intersection {
        assert(runs_on(t, chain, x, ((k + 1) - 1) as nat));
        assert(t[y].origin == Origin::Intersection(opposite(kind_on(chain))));
        assert(runs_on(t, other(chain), y, 0));
        assert(follow(t, other(chain), y, 0) == y);
        assert(reached(t, other(chain), y, 0, y));
    } else {
        assert(runs_on(t, chain, x, k + 1)) by {
            assert forall|j: nat| 1 <= j <= k + 1 implies t[#[trigger] follow(
                t,
                chain,
                x,
                j,
            )].origin == origin_of(chain) by {
                if j <= k {
                    assert(runs_on(t, chain, x, k));
                }
            }
        }
        assert(reached(t, chain, x, k + 1, y));
    }
}

/// Of the records at which a walk can be, no two lead to the same record.
proof fn lemma_walk_is_one_to_one(
    built: Seq<VertexRecord>,
    t: Seq<VertexRecord>,
    subject_end: int,
    subject_edges: Seq<Seq<int>>,
    clip_edges: Seq<Seq<int>>,
    c1: Chain,
    i: int,
    c2: Chain,
    j: int,
)
    requires
        setting(built, t, subject_end, subject_edges, clip_edges),
        in_walk_on(t, c1, i),
        in_walk_on(t, c2, j),
        advance(t, i) == advance(t, j),
    ensures
        i == j,
{
    let (x1, k1) = choose|x: int, k: nat| #[trigger] reached(t, c1, x, k, i);
    let (x2, k2) = choose|x: int, k: nat| #[trigger] reached(t, c2, x, k, j);
    lemma_reached_is_on_chain(built, t, subject_end, subject_edges, clip_edges, c1, x1, k1, i);
    lemma_reached_is_on_chain(built, t, subject_end, subject_edges, clip_edges, c2, x2, k2, j);
    lemma_walk_goes_on(built, t, subject_end, subject_edges, clip_edges, c1, i);
    lemma_walk_goes_on(built, t, subject_end, subject_edges, clip_edges, c2, j);
    let y = advance(t, i);
    lemma_origin_on_chain(built, t, subject_end, subject_edges, clip_edges, y);
    if c1 == c2 {
        match c1 {
            Chain::Subject => {
                lemma_next_is_one_to_one(
                    built,
                    t,
                    c1,
                    0,
                    subject_end,
                    subject_edges,
                    i,
                    j,
                );
            },
            Chain::Clip => {
                lemma_next_is_one_to_one(
                    built,
                    t,
                    c1,
                    subject_end,
                    built.len() as int,
                    clip_edges,
                    i,
                    j,
                );
            },
        }
    }
}

/// A walk of the clipped region can be at the record `i`.
pub open spec fn in_walk(t: Seq<VertexRecord>, i: int) -> bool {
    in_walk_on(t, Chain::Subject, i) || in_walk_on(t, Chain::Clip, i)
}

/// The chain that a walk at the record `i` follows.
pub open spec fn chain_of_walk(t: Seq<VertexRecord>, i: int) -> Chain {
    if in_walk_on(t, Chain::Subject, i) {
        Chain::Subject
    } else {
        Chain::Clip
    }
}

proof fn lemma_advance_add(t: Seq<VertexRecord>, i: int, a: nat, b: nat)
    ensures
        advance_by(t, i, a + b) == advance_by(t, advance_by(t, i, a), b),
    decreases a,
{
    if a > 0 {
        lemma_advance_add(t, advance(t, i), (a - 1) as nat, b);
    }
}

proof fn lemma_advance_last(t: Seq<VertexRecord>, i: int, k: nat)
    requires
        k >= 1,
    ensures
        advance_by(t, i, k) == advance(t, advance_by(t, i, (k - 1) as nat)),
{
    lemma_advance_add(t, i, (k - 1) as nat, 1);
    let j = advance_by(t, i, (k - 1) as nat);
    assert(advance_by(t, advance(t, j), 0) == advance(t, j));
}

/// However many steps a walk makes, it is at a record at which a walk can
/// be.
proof fn lemma_walk_stays(
    built: Seq<VertexRecord>,
    t: Seq<VertexRecord>,
    subject_end: int,
    subject_edges: Seq<Seq<int>>,
    clip_edges: Seq<Seq<int>>,
    s: int,
    k: nat,
)
    requires
        setting(built, t, subject_end, subject_edges, clip_edges),
        in_walk(t, s),
        0 <= s < t.len(),
    ensures
        in_walk(t, advance_by(t, s, k)),
        0 <= advance_by(t, s, k) < t.len(),
    decreases k,
{
    if k > 0 {
        lemma_walk_goes_on(
            built,
            t,
            subject_end,
            subject_edges,
            clip_edges,
            chain_of_walk(t, s),
            s,
        );
        lemma_walk_stays(
            built,
            t,
            subject_end,
            subject_edges,
            clip_edges,
            advance(t, s),
            (k - 1) as nat,
        );
    }
}

/// A walk that is at the same record after `a` steps and after `b` steps is
/// back at its start after the steps between.
proof fn lemma_walk_winds_back(
    built: Seq<VertexRecord>,
    t: Seq<VertexRecord>,
    subject_end: int,
    subject_edges: Seq<Seq<int>>,
    clip_edges: Seq<Seq<int>>,
    s: int,
    a: nat,
    b: nat,
)
    requires
        setting(built, t, subject_end, subject_edges, clip_edges),
        in_walk(t, s),
        0 <= s < t.len(),
        a <= b,
        advance_by(t, s, a) == advance_by(t, s, b),
    ensures
        advance_by(t, s, (b - a) as nat) == s,
    decreases a,
{
    if a > 0 {
        let i = advance_by(t, s, (a - 1) as nat);
        let j = advance_by(t, s, (b - 1) as nat);
        lemma_advance_last(t, s, a);
        lemma_advance_last(t, s, b);
        lemma_walk_stays(built, t, subject_end, subject_edges, clip_edges, s, (a - 1) as nat);
        lemma_walk_stays(built, t, subject_end, subject_edges, clip_edges, s, (b - 1) as nat);
        lemma_walk_is_one_to_one(
            built,
            t,
            subject_end,
            subject_edges,
            clip_edges,
            chain_of_walk(t, i),
            i,
            chain_of_walk(t, j),
            j,
        );
        lemma_walk_winds_back(
            built,
            t,
            subject_end,
            subject_edges,
            clip_edges,
            s,
            (a - 1) as nat,
            (b - 1) as nat,
        );
    }
}

/// A walk comes back to its start within as many steps as the table has
/// records.
proof fn lemma_walk_comes_back(
    built: Seq<VertexRecord>,
    t: Seq<VertexRecord>,
    subject_end: int,
    subject_edges: Seq<Seq<int>>,
    clip_edges: Seq<Seq<int>>,
    s: int,
) -> (k: nat)
    requires
        setting(built, t, subject_end, subject_edges, clip_edges),
        in_walk(t, s),
        0 <= s < t.len(),
    ensures
        1 <= k <= t.len(),
        advance_by(t, s, k) == s,
{
    let n = t.len();
    let orbit = Seq::new(n + 1, |j: int| advance_by(t, s, j as nat));
    assert forall|j: int| 0 <= j < orbit.len() implies 0 <= #[trigger] orbit[j] < n by {
        lemma_walk_stays(built, t, subject_end, subject_edges, clip_edges, s, j as nat);
    }
    let (a, b) = lemma_two_are_the_same(orbit, n);
    lemma_walk_winds_back(
        built,
        t,
        subject_end,
        subject_edges,
        clip_edges,
        s,
        a as nat,
        b as nat,
    );
    (b - a) as nat
}

proof fn lemma_mark_keeps_advance(t: Seq<VertexRecord>, marked: int, i: int, k: nat)
    requires
        records_wf(t, t.len() as int),
        0 <= marked < t.len(),
        0 <= i < t.len(),
    ensures
        advance_by(mark(t, marked), i, k) == advance_by(t, i, k),
        records_wf(mark(t, marked), t.len() as int),
    decreases k,
{
    let t1 = mark(t, marked);
    assert forall|j: int| 0 <= j < t1.len() implies (#[trigger] t1[j]).wf(t.len() as int) by {
        assert(t[j].wf(t.len() as int));
    }
    if k > 0 {
        assert(t[i].wf(t.len() as int));
        lemma_mark_keeps_advance(t, marked, advance(t, i), (k - 1) as nat);
    }
}

proof fn lemma_trace_returns(t: Seq<VertexRecord>, start: int, cur: int, k: nat, fuel: nat)
    requires
        records_wf(t, t.len() as int),
        0 <= cur < t.len(),
        1 <= k <= fuel,
        advance_by(t, cur, k) == start,
    ensures
        trace_returns(t, start, cur, fuel),
    decreases k,
{
    let next = advance(t, cur);
    assert(t[cur].wf(t.len() as int));
    if next != start {
        assert(advance_by(t, next, 0) == next);
        lemma_mark_keeps_advance(t, cur, next, (k - 1) as nat);
        lemma_trace_returns(mark(t, cur), start, next, (k - 1) as nat, (fuel - 1) as nat);
    }
}

/// In a table into which the intersections have been inserted, and in which
/// the kinds of crossing alternate along both chains, a walk of the clipped
/// region from any intersection comes back to it, whatever has been visited,
/// and the contour it gives is closed.
pub proof fn lemma_alternating_walks_return(
    t: Seq<VertexRecord>,
    built: Seq<VertexRecord>,
    subject_end: int,
    seed: int,
)
    requires
        is_built(built, subject_end),
        is_chained(t, built, subject_end),
        records_wf(t, t.len() as int),
        alternates(t, Chain::Subject),
        alternates(t, Chain::Clip),
        0 <= seed < t.len(),
        t[seed].origin is Intersection,
    ensures
        trace_returns(t, seed, seed, t.len()),
        ({
            let contour = trace_loop(t, seed, seed, Seq::empty(), t.len()).0;
            &&& contour.len() >= 2
            &&& contour[0] == t[seed].point
            &&& contour[contour.len() - 1] == t[seed].point
        }),
{
    let (es, ec) = choose|es: Seq<Seq<int>>, ec: Seq<Seq<int>>| #[trigger]
        chains_ok(built, t, subject_end, es, ec);
    let chain = if t[seed].origin == Origin::Intersection(Crossing::Entering) {
        Chain::Subject
    } else {
        Chain::Clip
    };
    assert(follow(t, chain, seed, 0) == seed);
    assert(runs_on(t, chain, seed, 0));
    assert(reached(t, chain, seed, 0, seed));
    let k = lemma_walk_comes_back(built, t, subject_end, es, ec, seed);
    lemma_trace_returns(t, seed, seed, k, t.len());
    lemma_trace_that_returns_is_closed(t, seed);
}

} // verus!
