//! The chains as circular lists: following a chain leads back to where it
//! started, and the intersections on an edge follow each other in order.

use vstd::prelude::*;
use vstd::set_lib::{lemma_int_range, lemma_len_subset, set_int_range};
use crate::chains::{
    at_edge, built_ok, chains_ok, edges_ok, has_home, in_some_block, is_built, is_chained,
    is_ring_block, link_ok, member_ok, same_vertex, slot,
};
use crate::table::{Chain, VertexRecord, records_wf};
use crate::walk::mark;

verus! {

/// The record reached from `i` by `k` links along a chain.
pub open spec fn follow(t: Seq<VertexRecord>, chain: Chain, i: int, k: nat) -> int
    decreases k,
{
    if k == 0 {
        i
    } else {
        follow(t, chain, t[i].next_on(chain) as int, (k - 1) as nat)
    }
}

/// Following the chain from the record `i` leads back to `i`, in no more
/// links than the table has records.
pub open spec fn comes_back(t: Seq<VertexRecord>, chain: Chain, i: int) -> bool {
    exists|k: nat| 1 <= k <= t.len() && #[trigger] follow(t, chain, i, k) == i
}

/// Whether a walk along a chain that is at `cur` comes back to `start`
/// within `fuel` steps.
pub open spec fn leftover_returns(
    t: Seq<VertexRecord>,
    chain: Chain,
    start: int,
    cur: int,
    fuel: nat,
) -> bool
    decreases fuel,
{
    let next = t[cur].next_on(chain) as int;
    fuel > 0 && (next == start || leftover_returns(
        mark(t, cur),
        chain,
        start,
        next,
        (fuel - 1) as nat,
    ))
}

/// The record after `i` on a chain does not lie before `i` on their edge,
/// where it is an intersection as `i` is.
pub open spec fn in_order_after(t: Seq<VertexRecord>, chain: Chain, i: int) -> bool {
    let next = t[i].next_on(chain) as int;
    &&& 0 <= next < t.len()
    &&& t[next].origin is Intersection ==> !t[next].param_on(chain).lt_spec(
        t[i].param_on(chain),
    )
}

pub(crate) proof fn lemma_follow_add(t: Seq<VertexRecord>, chain: Chain, i: int, a: nat, b: nat)
    ensures
        follow(t, chain, i, a + b) == follow(t, chain, follow(t, chain, i, a), b),
    decreases a,
{
    if a > 0 {
        lemma_follow_add(t, chain, t[i].next_on(chain) as int, (a - 1) as nat, b);
    }
}

pub(crate) proof fn lemma_follow_one(t: Seq<VertexRecord>, chain: Chain, i: int)
    ensures
        follow(t, chain, i, 1) == t[i].next_on(chain),
{
    assert(follow(t, chain, t[i].next_on(chain) as int, 0) == t[i].next_on(chain));
}

proof fn lemma_follow_in_block(
    t: Seq<VertexRecord>,
    chain: Chain,
    b: int,
    n: int,
    g: int,
    m: nat,
)
    requires
        is_ring_block(t, chain, b, n),
        b <= g,
        g + m < b + n,
    ensures
        follow(t, chain, g, m) == g + m,
    decreases m,
{
    if m > 0 {
        assert(t[g].next_on(chain) == g + 1);
        lemma_follow_in_block(t, chain, b, n, g + 1, (m - 1) as nat);
    }
}

/// Around a ring of `n` records, `n` links lead back to where they started.
proof fn lemma_block_comes_back(t: Seq<VertexRecord>, chain: Chain, b: int, n: int, g: int)
    requires
        is_ring_block(t, chain, b, n),
        b <= g < b + n,
    ensures
        follow(t, chain, g, n as nat) == g,
{
    let to_last = (b + n - 1 - g) as nat;
    let from_first = (g - b) as nat;
    lemma_follow_in_block(t, chain, b, n, g, to_last);
    assert(t[b + n - 1].next_on(chain) == b);
    lemma_follow_one(t, chain, b + n - 1);
    lemma_follow_in_block(t, chain, b, n, b, from_first);
    lemma_follow_add(t, chain, g, to_last, 1);
    lemma_follow_add(t, chain, g, to_last + 1, from_first);
    assert(to_last + 1 + from_first == n);
}

/// From the start of an edge, `p + 1` links lead to position `p` of the edge.
proof fn lemma_follow_edge(
    built: Seq<VertexRecord>,
    t: Seq<VertexRecord>,
    chain: Chain,
    lo: int,
    hi: int,
    edges: Seq<Seq<int>>,
    v: int,
    p: int,
)
    requires
        edges_ok(built, t, chain, lo, hi, edges),
        lo <= v < hi,
        -1 <= p < edges[v].len(),
    ensures
        follow(t, chain, v, (p + 1) as nat) == at_edge(edges, v, p),
    decreases p + 1,
{
    if p >= 0 {
        lemma_follow_edge(built, t, chain, lo, hi, edges, v, p - 1);
        lemma_follow_add(t, chain, v, p as nat, 1);
        assert(link_ok(t, built, chain, edges, v, p - 1));
        lemma_follow_one(t, chain, at_edge(edges, v, p - 1));
    }
}

/// From the start of an edge, one link more than there are intersections on
/// it leads to the vertex at which the edge ends.
proof fn lemma_follow_whole_edge(
    built: Seq<VertexRecord>,
    t: Seq<VertexRecord>,
    chain: Chain,
    lo: int,
    hi: int,
    edges: Seq<Seq<int>>,
    v: int,
)
    requires
        edges_ok(built, t, chain, lo, hi, edges),
        lo <= v < hi,
    ensures
        follow(t, chain, v, edges[v].len() + 1) == built[v].next_on(chain),
{
    let p = edges[v].len() - 1;
    lemma_follow_edge(built, t, chain, lo, hi, edges, v, p);
    lemma_follow_add(t, chain, v, (p + 1) as nat, 1);
    assert(link_ok(t, built, chain, edges, v, p));
    lemma_follow_one(t, chain, at_edge(edges, v, p));
}

/// Wherever `m` links lead in the table as built, some number of links, `m`
/// at least, leads in the live table.
proof fn lemma_follow_lifts(
    built: Seq<VertexRecord>,
    t: Seq<VertexRecord>,
    chain: Chain,
    lo: int,
    hi: int,
    edges: Seq<Seq<int>>,
    v: int,
    m: nat,
) -> (k: nat)
    requires
        built_ok(built, chain, lo, hi),
        edges_ok(built, t, chain, lo, hi, edges),
        lo <= v < hi,
    ensures
        k >= m,
        follow(t, chain, v, k) == follow(built, chain, v, m),
        lo <= follow(built, chain, v, m) < hi,
    decreases m,
{
    if m == 0 {
        0
    } else {
        let k0 = lemma_follow_lifts(built, t, chain, lo, hi, edges, v, (m - 1) as nat);
        let u = follow(built, chain, v, (m - 1) as nat);
        lemma_follow_add(built, chain, v, (m - 1) as nat, 1);
        lemma_follow_one(built, chain, u);
        assert(lo <= built[u].next_on(chain) < hi);
        lemma_follow_whole_edge(built, t, chain, lo, hi, edges, u);
        lemma_follow_add(t, chain, v, k0, edges[u].len() + 1);
        k0 + edges[u].len() + 1
    }
}

proof fn lemma_chain_comes_back(
    built: Seq<VertexRecord>,
    t: Seq<VertexRecord>,
    chain: Chain,
    lo: int,
    hi: int,
    edges: Seq<Seq<int>>,
    i: int,
)
    requires
        built_ok(built, chain, lo, hi),
        edges_ok(built, t, chain, lo, hi, edges),
        forall|v: int| lo <= v < hi ==> #[trigger] in_some_block(built, chain, lo, hi, v),
        lo <= i < hi || built.len() <= i < t.len(),
    ensures
        comes_back(t, chain, i),
{
    let (v, p) = if lo <= i < hi {
        (i, -1)
    } else {
        assert(has_home(edges, lo, hi, i));
        choose|v: int, p: int|
            lo <= v < hi && 0 <= p < edges[v].len() && #[trigger] slot(edges, v, p) == i
    };
    assert(in_some_block(built, chain, lo, hi, v));
    let (b, n) = choose|b: int, n: int|
        lo <= b <= v < b + n <= hi && #[trigger] is_ring_block(built, chain, b, n);
    lemma_block_comes_back(built, chain, b, n, v);
    let k = lemma_follow_lifts(built, t, chain, lo, hi, edges, v, n as nat);
    lemma_follow_edge(built, t, chain, lo, hi, edges, v, p);
    lemma_follow_add(t, chain, v, (p + 1) as nat, k);
    lemma_follow_add(t, chain, v, k, (p + 1) as nat);
    assert(follow(t, chain, i, k) == i);
    let soon = lemma_comes_back_soon(built, t, chain, lo, hi, edges, i, k);
    assert(follow(t, chain, i, soon) == i);
}

/// The record after a record of a chain is a record of that chain.
proof fn lemma_chain_is_closed(
    built: Seq<VertexRecord>,
    t: Seq<VertexRecord>,
    chain: Chain,
    lo: int,
    hi: int,
    edges: Seq<Seq<int>>,
    i: int,
)
    requires
        built_ok(built, chain, lo, hi),
        edges_ok(built, t, chain, lo, hi, edges),
        lo <= i < hi || built.len() <= i < t.len(),
    ensures
        lo <= t[i].next_on(chain) < hi || built.len() <= t[i].next_on(chain) < t.len(),
{
    let (v, p) = if lo <= i < hi {
        (i, -1)
    } else {
        assert(has_home(edges, lo, hi, i));
        choose|v: int, p: int|
            lo <= v < hi && 0 <= p < edges[v].len() && #[trigger] slot(edges, v, p) == i
    };
    assert(link_ok(t, built, chain, edges, v, p));
    if p + 1 < edges[v].len() {
        assert(member_ok(t, chain, edges, built.len() as int, v, p + 1));
    }
}

pub(crate) proof fn lemma_follow_stays_on_chain(
    built: Seq<VertexRecord>,
    t: Seq<VertexRecord>,
    chain: Chain,
    lo: int,
    hi: int,
    edges: Seq<Seq<int>>,
    i: int,
    k: nat,
)
    requires
        built_ok(built, chain, lo, hi),
        edges_ok(built, t, chain, lo, hi, edges),
        lo <= i < hi || built.len() <= i < t.len(),
    ensures
        lo <= follow(t, chain, i, k) < hi || built.len() <= follow(t, chain, i, k) < t.len(),
    decreases k,
{
    if k > 0 {
        lemma_chain_is_closed(built, t, chain, lo, hi, edges, i);
        lemma_follow_stays_on_chain(
            built,
            t,
            chain,
            lo,
            hi,
            edges,
            t[i].next_on(chain) as int,
            (k - 1) as nat,
        );
    }
}

/// Among more than `n` numbers below `n` two are the same.
pub(crate) proof fn lemma_two_are_the_same(s: Seq<int>, n: nat) -> (r: (int, int))
    requires
        s.len() > n,
        forall|j: int| 0 <= j < s.len() ==> 0 <= #[trigger] s[j] < n,
    ensures
        0 <= r.0 < r.1 < s.len(),
        s[r.0] == s[r.1],
{
    if s.no_duplicates() {
        s.unique_seq_to_set();
        lemma_int_range(0, n as int);
        assert(s.to_set().subset_of(set_int_range(0, n as int))) by {
            assert forall|x: int| s.to_set().contains(x) implies set_int_range(
                0,
                n as int,
            ).contains(x) by {
                let j = choose|j: int| 0 <= j < s.len() && s[j] == x;
                assert(0 <= s[j] < n);
            }
        }
        lemma_len_subset(s.to_set(), set_int_range(0, n as int));
        assert(false);
    }
    let (a, b) = choose|a: int, b: int|
        0 <= a < s.len() && 0 <= b < s.len() && a != b && s[a] == s[b];
    if a < b {
        (a, b)
    } else {
        (b, a)
    }
}

/// Where `k` links lead back to `i`, so does some number of links that is
/// `m` at least.
proof fn lemma_returns_again(t: Seq<VertexRecord>, chain: Chain, i: int, k: nat, m: nat) -> (total:
    nat)
    requires
        k >= 1,
        follow(t, chain, i, k) == i,
    ensures
        total >= m,
        follow(t, chain, i, total) == i,
    decreases m,
{
    if m == 0 {
        0
    } else {
        let before = lemma_returns_again(t, chain, i, k, (m - 1) as nat);
        lemma_follow_add(t, chain, i, before, k);
        before + k
    }
}

/// A record of a chain to which the chain comes back at all is reached again
/// within as many links as the table has records.
proof fn lemma_comes_back_soon(
    built: Seq<VertexRecord>,
    t: Seq<VertexRecord>,
    chain: Chain,
    lo: int,
    hi: int,
    edges: Seq<Seq<int>>,
    i: int,
    k: nat,
) -> (r: nat)
    requires
        built_ok(built, chain, lo, hi),
        edges_ok(built, t, chain, lo, hi, edges),
        lo <= i < hi || built.len() <= i < t.len(),
        k >= 1,
        follow(t, chain, i, k) == i,
    ensures
        1 <= r <= t.len(),
        follow(t, chain, i, r) == i,
{
    let n = t.len();
    let s = Seq::new(n + 1, |j: int| follow(t, chain, i, j as nat));
    assert forall|j: int| 0 <= j < s.len() implies 0 <= #[trigger] s[j] < n by {
        lemma_follow_stays_on_chain(built, t, chain, lo, hi, edges, i, j as nat);
    }
    let (a, b) = lemma_two_are_the_same(s, n);
    let total = lemma_returns_again(t, chain, i, k, a as nat);
    let rest = (total - a) as nat;
    let gap = (b - a) as nat;
    lemma_follow_add(t, chain, i, a as nat, rest);
    lemma_follow_add(t, chain, i, b as nat, rest);
    lemma_follow_add(t, chain, i, total, gap);
    assert(b as nat + rest == total + gap);
    gap
}

proof fn lemma_mark_keeps_follow(
    t: Seq<VertexRecord>,
    chain: Chain,
    marked: int,
    i: int,
    k: nat,
)
    requires
        records_wf(t, t.len() as int),
        0 <= marked < t.len(),
        0 <= i < t.len(),
    ensures
        follow(mark(t, marked), chain, i, k) == follow(t, chain, i, k),
        records_wf(mark(t, marked), t.len() as int),
    decreases k,
{
    let t1 = mark(t, marked);
    assert forall|j: int| 0 <= j < t1.len() implies (#[trigger] t1[j]).wf(t.len() as int) by {
        assert(t[j].wf(t.len() as int));
    }
    if k > 0 {
        assert(t[i].wf(t.len() as int));
        lemma_mark_keeps_follow(t, chain, marked, t[i].next_on(chain) as int, (k - 1) as nat);
    }
}

proof fn lemma_walk_returns(
    t: Seq<VertexRecord>,
    chain: Chain,
    start: int,
    cur: int,
    k: nat,
    fuel: nat,
)
    requires
        records_wf(t, t.len() as int),
        0 <= cur < t.len(),
        1 <= k <= fuel,
        follow(t, chain, cur, k) == start,
    ensures
        leftover_returns(t, chain, start, cur, fuel),
    decreases k,
{
    let next = t[cur].next_on(chain) as int;
    assert(t[cur].wf(t.len() as int));
    if next != start {
        lemma_follow_one(t, chain, cur);
        lemma_mark_keeps_follow(t, chain, cur, next, (k - 1) as nat);
        lemma_walk_returns(
            mark(t, cur),
            chain,
            start,
            next,
            (k - 1) as nat,
            (fuel - 1) as nat,
        );
    }
}

/// In a table into which the intersections have been inserted, whatever has
/// been visited since, a walk along a chain from a record of that chain ends
/// because it is back where it started, not because its steps have run out.
pub proof fn lemma_walks_along_chains_return(
    t: Seq<VertexRecord>,
    built: Seq<VertexRecord>,
    subject_end: int,
    chain: Chain,
    seed: int,
)
    requires
        is_built(built, subject_end),
        is_chained(t, built, subject_end),
        records_wf(t, t.len() as int),
        0 <= seed < t.len(),
        chain == Chain::Subject ==> !(subject_end <= seed < built.len()),
        chain == Chain::Clip ==> subject_end <= seed,
    ensures
        leftover_returns(t, chain, seed, seed, t.len()),
{
    lemma_chains_are_circular(t, built, subject_end);
    assert(comes_back(t, chain, seed));
    let k = choose|k: nat| 1 <= k <= t.len() && #[trigger] follow(t, chain, seed, k) == seed;
    lemma_walk_returns(t, chain, seed, seed, k, t.len());
}

proof fn lemma_chain_is_in_order(
    built: Seq<VertexRecord>,
    t: Seq<VertexRecord>,
    chain: Chain,
    lo: int,
    hi: int,
    edges: Seq<Seq<int>>,
    i: int,
)
    requires
        built_ok(built, chain, lo, hi),
        edges_ok(built, t, chain, lo, hi, edges),
        built.len() <= i < t.len(),
    ensures
        in_order_after(t, chain, i),
{
    assert(has_home(edges, lo, hi, i));
    let (v, p) = choose|v: int, p: int|
        lo <= v < hi && 0 <= p < edges[v].len() && #[trigger] slot(edges, v, p) == i;
    assert(link_ok(t, built, chain, edges, v, p));
    if p + 1 < edges[v].len() {
        assert(member_ok(t, chain, edges, built.len() as int, v, p + 1));
    } else {
        let next = built[v].next_on(chain) as int;
        assert(same_vertex(t[next], built[next]));
    }
}

/// In a table into which the intersections have been inserted, every chain
/// is made of circular lists: following the subject chain from a vertex of
/// the subject or from an intersection leads back to where it started, and
/// so does following the clip chain from a vertex of the clip polygon or from
/// an intersection.
pub proof fn lemma_chains_are_circular(
    t: Seq<VertexRecord>,
    built: Seq<VertexRecord>,
    subject_end: int,
)
    requires
        is_built(built, subject_end),
        is_chained(t, built, subject_end),
    ensures
        forall|i: int|
            0 <= i < subject_end || built.len() <= i < t.len() ==> #[trigger] comes_back(
                t,
                Chain::Subject,
                i,
            ),
        forall|i: int| subject_end <= i < t.len() ==> #[trigger] comes_back(t, Chain::Clip, i),
{
    let (es, ec) = choose|es: Seq<Seq<int>>, ec: Seq<Seq<int>>| #[trigger]
        chains_ok(built, t, subject_end, es, ec);
    let clip_end = built.len() as int;
    assert forall|i: int|
        0 <= i < subject_end || built.len() <= i < t.len() implies #[trigger] comes_back(
        t,
        Chain::Subject,
        i,
    ) by {
        lemma_chain_comes_back(built, t, Chain::Subject, 0, subject_end, es, i);
    }
    assert forall|i: int| subject_end <= i < t.len() implies #[trigger] comes_back(
        t,
        Chain::Clip,
        i,
    ) by {
        lemma_chain_comes_back(built, t, Chain::Clip, subject_end, clip_end, ec, i);
    }
}

/// In a table into which the intersections have been inserted, the
/// intersections on one edge follow each other in the order of their
/// positions on that edge, along the subject chain and along the clip chain.
pub proof fn lemma_edges_are_in_order(
    t: Seq<VertexRecord>,
    built: Seq<VertexRecord>,
    subject_end: int,
)
    requires
        is_built(built, subject_end),
        is_chained(t, built, subject_end),
    ensures
        forall|i: int|
            built.len() <= i < t.len() ==> #[trigger] in_order_after(t, Chain::Subject, i),
        forall|i: int| built.len() <= i < t.len() ==> #[trigger] in_order_after(t, Chain::Clip, i),
{
    let (es, ec) = choose|es: Seq<Seq<int>>, ec: Seq<Seq<int>>| #[trigger]
        chains_ok(built, t, subject_end, es, ec);
    let clip_end = built.len() as int;
    assert forall|i: int| built.len() <= i < t.len() implies #[trigger] in_order_after(
        t,
        Chain::Subject,
        i,
    ) by {
        lemma_chain_is_in_order(built, t, Chain::Subject, 0, subject_end, es, i);
    }
    assert forall|i: int| built.len() <= i < t.len() implies #[trigger] in_order_after(
        t,
        Chain::Clip,
        i,
    ) by {
        lemma_chain_is_in_order(built, t, Chain::Clip, subject_end, clip_end, ec, i);
    }
}

} // verus!
