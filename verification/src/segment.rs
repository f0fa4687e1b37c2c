//! Directed segments and the crossing of two of them.

use vstd::prelude::*;
use crate::point::Point;
use crate::ratio::Ratio;

verus! {

/// A directed edge from `start` to `end`.
#[derive(Clone, Copy, Debug, PartialEq, Eq, Structural)]
pub struct Segment {
    pub start: Point,
    pub end: Point,
}

/// Whether the first segment goes into or out of the region bounded by the
/// second where they cross. The region is taken to lie on the left of the
/// second segment where `y` grows upwards, which is on its right on a screen.
#[derive(Clone, Copy, Debug, PartialEq, Eq, Structural)]
pub enum Crossing {
    /// The first segment goes to the side of the region.
    Entering,
    /// The first segment goes to the other side.
    Exiting,
}

/// Where two segments cross.
#[derive(Clone, Copy, Debug, PartialEq, Eq, Structural)]
pub struct Hit {
    /// The grid point nearest to the crossing.
    pub point: Point,
    /// Position of the crossing along the first segment.
    pub s: Ratio,
    /// Position of the crossing along the second segment.
    pub t: Ratio,
    pub crossing: Crossing,
}

impl Segment {
    /// Both ends are in range.
    pub open spec fn in_range(self) -> bool {
        self.start.in_range() && self.end.in_range()
    }

    /// The first coordinate of the direction from `start` to `end`.
    pub open spec fn dx(self) -> int {
        self.end.x - self.start.x
    }

    /// The second coordinate of the direction from `start` to `end`.
    pub open spec fn dy(self) -> int {
        self.end.y - self.start.y
    }
}

/// The edge of a contour that starts at its `i`-th point.
pub open spec fn edge(c: Seq<Point>, i: int) -> Segment {
    Segment { start: c[i], end: c[i + 1] }
}

/// Cross product of the vectors `(ux, uy)` and `(vx, vy)`.
pub open spec fn cross(ux: int, uy: int, vx: int, vy: int) -> int {
    ux * vy - uy * vx
}

/// Cross product of the direction of `l2` with that of `l1`: zero exactly
/// when the two are parallel.
pub open spec fn determinant(l1: Segment, l2: Segment) -> int {
    cross(l2.dx(), l2.dy(), l1.dx(), l1.dy())
}

/// Cross product of the direction of `l1` with that of `l2`: positive where
/// `l1` goes to the right of `l2`, with `y` growing upwards.
pub open spec fn turn(l1: Segment, l2: Segment) -> int {
    cross(l1.dx(), l1.dy(), l2.dx(), l2.dy())
}

/// The kind of the crossing of `l1` with `l2`: exiting where the cross product
/// of their directions is positive, entering elsewhere.
pub open spec fn crossing_of(l1: Segment, l2: Segment) -> Crossing {
    if turn(l1, l2) > 0 {
        Crossing::Exiting
    } else {
        Crossing::Entering
    }
}

/// The position along `l1` of its crossing with the line through `l2`, times
/// `determinant(l1, l2)`.
pub open spec fn first_numerator(l1: Segment, l2: Segment) -> int {
    cross(l1.start.x - l2.start.x, l1.start.y - l2.start.y, l2.dx(), l2.dy())
}

/// The position along `l2` of its crossing with the line through `l1`, times
/// `determinant(l1, l2)`.
pub open spec fn second_numerator(l1: Segment, l2: Segment) -> int {
    cross(l1.start.x - l2.start.x, l1.start.y - l2.start.y, l1.dx(), l1.dy())
}

/// The absolute value of `n`.
pub open spec fn magnitude(n: int) -> int {
    if n < 0 {
        -n
    } else {
        n
    }
}

/// `n` with the sign it has once the denominator `det` is made positive.
pub open spec fn oriented(n: int, det: int) -> int {
    if det < 0 {
        -n
    } else {
        n
    }
}

/// The two segments are not parallel and the crossing of their lines lies on
/// both of them, end points included.
pub open spec fn segments_meet(l1: Segment, l2: Segment) -> bool {
    let det = determinant(l1, l2);
    let s = oriented(first_numerator(l1, l2), det);
    let t = oriented(second_numerator(l1, l2), det);
    &&& det != 0
    &&& 0 <= s <= magnitude(det)
    &&& 0 <= t <= magnitude(det)
}

/// `n / d` rounded to the nearest integer, halves upwards, for `n >= 0` and
/// `d > 0`.
pub open spec fn round_div(n: int, d: int) -> int {
    (2 * n + d) / (2 * d)
}

/// The fraction `num / den` of the length `delta`, rounded to the nearest
/// integer, halves away from zero.
pub open spec fn displacement(num: int, den: int, delta: int) -> int {
    if delta >= 0 {
        round_div(num * delta, den)
    } else {
        -round_div(num * (-delta), den)
    }
}

/// What `intersection` reports for two segments that meet.
pub open spec fn hit_of(l1: Segment, l2: Segment) -> Hit {
    let det = determinant(l1, l2);
    let den = magnitude(det);
    let s = oriented(first_numerator(l1, l2), det);
    let t = oriented(second_numerator(l1, l2), det);
    Hit {
        point: Point {
            x: (l1.start.x + displacement(s, den, l1.dx())) as i64,
            y: (l1.start.y + displacement(s, den, l1.dy())) as i64,
        },
        s: Ratio { num: s as u64, den: den as u64 },
        t: Ratio { num: t as u64, den: den as u64 },
        crossing: crossing_of(l1, l2),
    }
}

/// What `intersection` reports: where the two segments cross, if they do.
pub open spec fn intersection_spec(l1: Segment, l2: Segment) -> Option<Hit> {
    if segments_meet(l1, l2) {
        Some(hit_of(l1, l2))
    } else {
        None
    }
}

proof fn lemma_product_bound(a: int, b: int, m: int, n: int)
    by (nonlinear_arith)
    requires
        -m <= a <= m,
        -n <= b <= n,
    ensures
        -(m * n) <= a * b <= m * n,
{
}

proof fn lemma_round_div_bound(n: int, d: int, m: int)
    by (nonlinear_arith)
    requires
        0 < d,
        0 <= m,
        0 <= n <= d * m,
    ensures
        0 <= round_div(n, d) <= m,
{
}

proof fn lemma_scaled_bound(num: int, den: int, m: int)
    by (nonlinear_arith)
    requires
        0 <= num <= den,
        0 <= m,
    ensures
        0 <= num * m <= den * m,
{
}

/// Computes `displacement(num, den, delta)`.
fn displace(num: i128, den: i128, delta: i128) -> (r: i128)
    requires
        0 <= num <= den,
        0 < den <= 0x8000_0000_0000_0000,
        -0x8000_0000 <= delta <= 0x8000_0000,
    ensures
        r == displacement(num as int, den as int, delta as int),
        delta >= 0 ==> 0 <= r <= delta,
        delta < 0 ==> delta <= r <= 0,
{
    let m: i128 = if delta >= 0 {
        delta
    } else {
        -delta
    };
    proof {
        lemma_scaled_bound(num as int, den as int, m as int);
        lemma_product_bound(den as int, m as int, 0x8000_0000_0000_0000, 0x8000_0000);
        lemma_round_div_bound(num * m, den as int, m as int);
    }
    let q: i128 = (2 * (num * m) + den) / (2 * den);
    if delta >= 0 {
        q
    } else {
        -q
    }
}

/// Finds where two segments cross.
///
/// Parallel segments never cross, even where they overlap. Otherwise the
/// lines through the two segments cross in one point, and the segments cross
/// when that point lies on both of them, end points included.
pub fn intersection(l1: &Segment, l2: &Segment) -> (r: Option<Hit>)
    requires
        l1.in_range(),
        l2.in_range(),
    ensures
        r == intersection_spec(*l1, *l2),
        r matches Some(h) ==> h.point.in_range() && h.s.wf() && h.t.wf(),
{
    let d1x: i128 = l1.end.x as i128 - l1.start.x as i128;
    let d1y: i128 = l1.end.y as i128 - l1.start.y as i128;
    let d2x: i128 = l2.end.x as i128 - l2.start.x as i128;
    let d2y: i128 = l2.end.y as i128 - l2.start.y as i128;
    let ex: i128 = l1.start.x as i128 - l2.start.x as i128;
    let ey: i128 = l1.start.y as i128 - l2.start.y as i128;
    proof {
        lemma_product_bound(d2x as int, d1y as int, 0x8000_0000, 0x8000_0000);
        lemma_product_bound(d2y as int, d1x as int, 0x8000_0000, 0x8000_0000);
        lemma_product_bound(ex as int, d2y as int, 0x8000_0000, 0x8000_0000);
        lemma_product_bound(ey as int, d2x as int, 0x8000_0000, 0x8000_0000);
        lemma_product_bound(ex as int, d1y as int, 0x8000_0000, 0x8000_0000);
        lemma_product_bound(ey as int, d1x as int, 0x8000_0000, 0x8000_0000);
    }
    let det: i128 = d2x * d1y - d2y * d1x;
    if det == 0 {
        return None;
    }
    let first: i128 = ex * d2y - ey * d2x;
    let second: i128 = ex * d1y - ey * d1x;
    let den: i128 = if det < 0 {
        -det
    } else {
        det
    };
    let s: i128 = if det < 0 {
        -first
    } else {
        first
    };
    let t: i128 = if det < 0 {
        -second
    } else {
        second
    };
    if s < 0 || s > den || t < 0 || t > den {
        return None;
    }
    let px: i128 = l1.start.x as i128 + displace(s, den, d1x);
    let py: i128 = l1.start.y as i128 + displace(s, den, d1y);
    proof {
        lemma_product_bound(d1x as int, d2y as int, 0x8000_0000, 0x8000_0000);
        lemma_product_bound(d1y as int, d2x as int, 0x8000_0000, 0x8000_0000);
    }
    let turn: i128 = d1x * d2y - d1y * d2x;
    let crossing = if turn > 0 {
        Crossing::Exiting
    } else {
        Crossing::Entering
    };
    Some(
        Hit {
            point: Point { x: px as i64, y: py as i64 },
            s: Ratio { num: s as u64, den: den as u64 },
            t: Ratio { num: t as u64, den: den as u64 },
            crossing,
        },
    )
}

/// What `intersection` reports of segments in range is in range itself: the
/// point lies within the coordinate limit and both positions are fractions
/// between zero and one.
pub proof fn lemma_hit_is_well_formed(l1: Segment, l2: Segment)
    requires
        l1.in_range(),
        l2.in_range(),
        segments_meet(l1, l2),
    ensures
        hit_of(l1, l2).point.in_range(),
        hit_of(l1, l2).s.wf(),
        hit_of(l1, l2).t.wf(),
{
    let det = determinant(l1, l2);
    let den = magnitude(det);
    let s = oriented(first_numerator(l1, l2), det);
    lemma_product_bound(l2.dx(), l1.dy(), 0x8000_0000, 0x8000_0000);
    lemma_product_bound(l2.dy(), l1.dx(), 0x8000_0000, 0x8000_0000);
    lemma_displacement_is_nearest(s, den, l1.dx());
    lemma_displacement_is_nearest(s, den, l1.dy());
}

/// The opposite kind of crossing.
pub open spec fn opposite(c: Crossing) -> Crossing {
    match c {
        Crossing::Entering => Crossing::Exiting,
        Crossing::Exiting => Crossing::Entering,
    }
}

/// The positions that `intersection` reports locate one and the same point on
/// both segments: the start of the first segment moved by the fraction `s` of
/// its direction is the start of the second moved by the fraction `t` of its
/// direction. Both sides are multiplied by the common denominator here.
pub proof fn lemma_positions_locate_one_point(l1: Segment, l2: Segment)
    requires
        l1.in_range(),
        l2.in_range(),
        segments_meet(l1, l2),
    ensures
        ({
            let h = hit_of(l1, l2);
            &&& h.s.den == h.t.den
            &&& h.s.den * l1.start.x + h.s.num * l1.dx() == h.t.den * l2.start.x + h.t.num
                * l2.dx()
            &&& h.s.den * l1.start.y + h.s.num * l1.dy() == h.t.den * l2.start.y + h.t.num
                * l2.dy()
        }),
{
    let det = determinant(l1, l2);
    let first = first_numerator(l1, l2);
    let second = second_numerator(l1, l2);
    let den = magnitude(det);
    let s = oriented(first, det);
    let t = oriented(second, det);
    let ex = l1.start.x - l2.start.x;
    let ey = l1.start.y - l2.start.y;
    let (d1x, d1y, d2x, d2y) = (l1.dx(), l1.dy(), l2.dx(), l2.dy());
    lemma_product_bound(d2x, d1y, 0x8000_0000, 0x8000_0000);
    lemma_product_bound(d2y, d1x, 0x8000_0000, 0x8000_0000);
    lemma_crossing_identity(ex, ey, d1x, d1y, d2x, d2y, det, first, second);
    if det < 0 {
        lemma_negated_product(det, ex);
        lemma_negated_product(det, ey);
        lemma_negated_product(first, d1x);
        lemma_negated_product(first, d1y);
        lemma_negated_product(second, d2x);
        lemma_negated_product(second, d2y);
    }
    assert(den * ex + s * d1x == t * d2x && den * ey + s * d1y == t * d2y);
    let (ax, ay) = (l1.start.x as int, l1.start.y as int);
    let (cx, cy) = (l2.start.x as int, l2.start.y as int);
    assert(den * ax + s * d1x == den * cx + t * d2x && den * ay + s * d1y == den * cy + t * d2y)
        by (nonlinear_arith)
        requires
            ex == ax - cx,
            ey == ay - cy,
            den * ex + s * d1x == t * d2x,
            den * ey + s * d1y == t * d2y,
    ;
}

proof fn lemma_difference_times(p: int, q: int, r: int)
    by (nonlinear_arith)
    ensures
        (p - q) * r == p * r - q * r,
{
}

proof fn lemma_three_factors(a: int, b: int, c: int)
    by (nonlinear_arith)
    ensures
        (a * b) * c == (c * b) * a,
        (a * b) * c == (c * a) * b,
        (a * b) * c == (a * c) * b,
{
}

proof fn lemma_crossing_identity(
    ex: int,
    ey: int,
    d1x: int,
    d1y: int,
    d2x: int,
    d2y: int,
    det: int,
    first: int,
    second: int,
)
    requires
        det == d2x * d1y - d2y * d1x,
        first == ex * d2y - ey * d2x,
        second == ex * d1y - ey * d1x,
    ensures
        det * ex + first * d1x == second * d2x,
        det * ey + first * d1y == second * d2y,
{
    lemma_difference_times(d2x * d1y, d2y * d1x, ex);
    lemma_difference_times(ex * d2y, ey * d2x, d1x);
    lemma_difference_times(ex * d1y, ey * d1x, d2x);
    lemma_three_factors(d2x, d1y, ex);
    lemma_three_factors(d2y, d1x, ex);
    lemma_three_factors(ey, d2x, d1x);
    lemma_difference_times(d2x * d1y, d2y * d1x, ey);
    lemma_difference_times(ex * d2y, ey * d2x, d1y);
    lemma_difference_times(ex * d1y, ey * d1x, d2y);
    lemma_three_factors(d2x, d1y, ey);
    lemma_three_factors(d2y, d1x, ey);
    lemma_three_factors(ex, d2y, d1y);
}

proof fn lemma_negated_product(a: int, b: int)
    by (nonlinear_arith)
    ensures
        (-a) * b == -(a * b),
{
}

/// The point that `intersection` reports lies on the grid within half a step
/// of the crossing, in each coordinate, and between the ends of the first
/// segment.
pub proof fn lemma_point_is_nearest(l1: Segment, l2: Segment)
    requires
        l1.in_range(),
        l2.in_range(),
        segments_meet(l1, l2),
    ensures
        ({
            let h = hit_of(l1, l2);
            &&& -h.s.den <= 2 * (h.s.den * (h.point.x - l1.start.x) - h.s.num * l1.dx())
                <= h.s.den
            &&& -h.s.den <= 2 * (h.s.den * (h.point.y - l1.start.y) - h.s.num * l1.dy())
                <= h.s.den
            &&& l1.start.x <= h.point.x <= l1.end.x || l1.end.x <= h.point.x <= l1.start.x
            &&& l1.start.y <= h.point.y <= l1.end.y || l1.end.y <= h.point.y <= l1.start.y
        }),
{
    let det = determinant(l1, l2);
    let den = magnitude(det);
    let s = oriented(first_numerator(l1, l2), det);
    lemma_product_bound(l2.dx(), l1.dy(), 0x8000_0000, 0x8000_0000);
    lemma_product_bound(l2.dy(), l1.dx(), 0x8000_0000, 0x8000_0000);
    lemma_displacement_is_nearest(s, den, l1.dx());
    lemma_displacement_is_nearest(s, den, l1.dy());
}

proof fn lemma_round_div_is_nearest(n: int, d: int)
    by (nonlinear_arith)
    requires
        0 <= n,
        0 < d,
    ensures
        -d <= 2 * (d * round_div(n, d) - n) <= d,
{
}

proof fn lemma_displacement_is_nearest(num: int, den: int, delta: int)
    requires
        0 <= num <= den,
        0 < den,
    ensures
        -den <= 2 * (den * displacement(num, den, delta) - num * delta) <= den,
        delta >= 0 ==> 0 <= displacement(num, den, delta) <= delta,
        delta < 0 ==> delta <= displacement(num, den, delta) <= 0,
{
    let m = magnitude(delta);
    lemma_scaled_bound(num, den, m);
    lemma_round_div_bound(num * m, den, m);
    lemma_round_div_is_nearest(num * m, den);
    let q = round_div(num * m, den);
    if delta < 0 {
        assert(den * (-q) - num * delta == -(den * q - num * m)) by (nonlinear_arith)
            requires
                m == -delta,
        ;
    }
}

/// Taking the two segments in the other order changes neither whether they
/// meet nor where: the two positions change places, and the crossing is of
/// the opposite kind.
pub proof fn lemma_intersection_swapped(l1: Segment, l2: Segment)
    ensures
        segments_meet(l2, l1) == segments_meet(l1, l2),
        segments_meet(l1, l2) ==> {
            &&& hit_of(l2, l1).s == hit_of(l1, l2).t
            &&& hit_of(l2, l1).t == hit_of(l1, l2).s
            &&& hit_of(l2, l1).crossing == opposite(hit_of(l1, l2).crossing)
        },
{
    let ex = l1.start.x - l2.start.x;
    let ey = l1.start.y - l2.start.y;
    let (d1x, d1y, d2x, d2y) = (l1.dx(), l1.dy(), l2.dx(), l2.dy());
    assert(determinant(l2, l1) == -determinant(l1, l2) && first_numerator(l2, l1)
        == -second_numerator(l1, l2) && second_numerator(l2, l1) == -first_numerator(l1, l2)
        && turn(l1, l2) == -determinant(l1, l2) && turn(l2, l1) == -turn(l1, l2))
        by (nonlinear_arith)
        requires
            determinant(l1, l2) == d2x * d1y - d2y * d1x,
            determinant(l2, l1) == d1x * d2y - d1y * d2x,
            turn(l1, l2) == d1x * d2y - d1y * d2x,
            turn(l2, l1) == d2x * d1y - d2y * d1x,
            first_numerator(l1, l2) == ex * d2y - ey * d2x,
            second_numerator(l1, l2) == ex * d1y - ey * d1x,
            first_numerator(l2, l1) == (-ex) * d1y - (-ey) * d1x,
            second_numerator(l2, l1) == (-ex) * d2y - (-ey) * d2x,
    ;
}

/// Where two segments meet, the cross product of their directions is not
/// zero: the first goes strictly to one side of the second.
pub proof fn lemma_meeting_segments_turn(l1: Segment, l2: Segment)
    requires
        segments_meet(l1, l2),
    ensures
        turn(l1, l2) != 0,
        turn(l1, l2) == -determinant(l1, l2),
{
    let (d1x, d1y, d2x, d2y) = (l1.dx(), l1.dy(), l2.dx(), l2.dy());
    assert(turn(l1, l2) == -determinant(l1, l2)) by (nonlinear_arith)
        requires
            determinant(l1, l2) == d2x * d1y - d2y * d1x,
            turn(l1, l2) == d1x * d2y - d1y * d2x,
    ;
}

/// Parallel segments never meet.
pub proof fn lemma_parallel_segments_do_not_meet(l1: Segment, l2: Segment)
    requires
        l1.dx() * l2.dy() == l1.dy() * l2.dx(),
    ensures
        intersection_spec(l1, l2) is None,
{
    assert(determinant(l1, l2) == 0) by (nonlinear_arith)
        requires
            l1.dx() * l2.dy() == l1.dy() * l2.dx(),
            determinant(l1, l2) == l2.dx() * l1.dy() - l2.dy() * l1.dx(),
    ;
}

} // verus!
