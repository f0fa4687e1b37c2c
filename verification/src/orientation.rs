//! The turning sense of a contour.

use vstd::prelude::*;
use crate::point::{Point, points_in_range};

verus! {

/// Which way a contour turns, as seen on a screen whose `y` grows downwards.
#[derive(Clone, Copy, Debug, PartialEq, Eq, Structural)]
pub enum Orientation {
    Clockwise,
    CounterClockwise,
}

/// What the edge from `p` to `q` adds to the signed sum of a contour.
pub open spec fn edge_term(p: Point, q: Point) -> int {
    (q.x - p.x) * (q.y + p.y)
}

/// The sum of `edge_term` over consecutive points of `c`.
pub open spec fn signed_sum(c: Seq<Point>) -> int
    decreases c.len(),
{
    if c.len() < 2 {
        0
    } else {
        signed_sum(c.drop_last()) + edge_term(c[c.len() - 2], c[c.len() - 1])
    }
}

/// The orientation of a contour: counter-clockwise where its signed sum is
/// positive, clockwise elsewhere.
pub open spec fn orientation_spec(c: Seq<Point>) -> Orientation {
    if signed_sum(c) > 0 {
        Orientation::CounterClockwise
    } else {
        Orientation::Clockwise
    }
}

proof fn lemma_term_bound(a: int, b: int)
    by (nonlinear_arith)
    requires
        -0x8000_0000 <= a <= 0x8000_0000,
        -0x8000_0000 <= b <= 0x8000_0000,
    ensures
        -0x4000_0000_0000_0000 <= a * b <= 0x4000_0000_0000_0000,
{
}

/// Tells which way a contour turns, by the sign of its signed sum: positive
/// is counter-clockwise, zero and negative are clockwise.
pub fn orientation(contour: &Vec<Point>) -> (o: Orientation)
    requires
        points_in_range(contour@),
    ensures
        o == orientation_spec(contour@),
{
    let n = contour.len();
    let mut sum: i128 = 0;
    let mut i: usize = 1;
    if n < 2 {
        return Orientation::Clockwise;
    }
    assert(contour@.take(1).len() == 1);
    while i < n
        invariant
            1 <= i <= n,
            n == contour.len(),
            points_in_range(contour@),
            sum == signed_sum(contour@.take(i as int)),
            -(i * 0x4000_0000_0000_0000) <= sum <= i * 0x4000_0000_0000_0000,
        decreases n - i,
    {
        let p = contour[i - 1];
        let q = contour[i];
        proof {
            lemma_term_bound(q.x - p.x, q.y + p.y);
            let next = contour@.take(i + 1);
            assert(next.drop_last() =~= contour@.take(i as int));
        }
        let dx: i128 = q.x as i128 - p.x as i128;
        let sy: i128 = q.y as i128 + p.y as i128;
        sum = sum + dx * sy;
        i = i + 1;
    }
    assert(contour@.take(n as int) =~= contour@);
    if sum > 0 {
        Orientation::CounterClockwise
    } else {
        Orientation::Clockwise
    }
}

/// The signed sum, taken from the first edge on.
proof fn lemma_signed_sum_from_the_front(c: Seq<Point>)
    requires
        c.len() >= 2,
    ensures
        signed_sum(c) == edge_term(c[0], c[1]) + signed_sum(c.drop_first()),
    decreases c.len(),
{
    if c.len() == 2 {
        assert(signed_sum(c.drop_last()) == 0);
        assert(signed_sum(c.drop_first()) == 0);
    } else {
        lemma_signed_sum_from_the_front(c.drop_last());
        assert(c.drop_last().drop_first() =~= c.drop_first().drop_last());
        assert(c.drop_last()[0] == c[0] && c.drop_last()[1] == c[1]);
        let f = c.drop_first();
        assert(f[f.len() - 2] == c[c.len() - 2] && f[f.len() - 1] == c[c.len() - 1]);
    }
}

/// Walking a contour backwards changes the sign of its signed sum.
pub proof fn lemma_signed_sum_reversed(c: Seq<Point>)
    ensures
        signed_sum(c.reverse()) == -signed_sum(c),
    decreases c.len(),
{
    let r = c.reverse();
    if c.len() >= 2 {
        lemma_signed_sum_from_the_front(r);
        assert(r.drop_first() =~= c.drop_last().reverse());
        lemma_signed_sum_reversed(c.drop_last());
        let p = c[c.len() - 2];
        let q = c[c.len() - 1];
        assert(r[0] == q && r[1] == p);
        assert(edge_term(q, p) == -edge_term(p, q)) by (nonlinear_arith)
            requires
                edge_term(q, p) == (p.x - q.x) * (p.y + q.y),
                edge_term(p, q) == (q.x - p.x) * (q.y + p.y),
        ;
    }
}

/// A contour whose signed sum is not zero turns the other way when its points
/// are taken in reverse.
pub proof fn lemma_orientation_reversed(c: Seq<Point>)
    requires
        signed_sum(c) != 0,
    ensures
        orientation_spec(c.reverse()) != orientation_spec(c),
{
    lemma_signed_sum_reversed(c);
}

} // verus!
