use polygon_clip::builder::PolygonBuilder;
use polygon_clip::clip::clipping;
use polygon_clip::insert::insert_intersections;
use polygon_clip::orientation::{orientation, Orientation};
use polygon_clip::point::{Point, COORD_LIMIT};
use polygon_clip::segment::{intersection, Crossing, Segment};
use polygon_clip::table::{build_table, Origin, VertexTable};

fn pts(v: &[(i64, i64)]) -> Vec<Point> {
    v.iter().map(|&(x, y)| Point::new(x, y)).collect()
}

/// A small generator of numbers, the same on every run.
struct Numbers(u64);

impl Numbers {
    fn next(&mut self) -> u64 {
        self.0 = self.0.wrapping_mul(6364136223846793005).wrapping_add(1442695040888963407);
        self.0 >> 33
    }

    fn coordinate(&mut self, limit: i64) -> i64 {
        (self.next() % (2 * limit as u64 + 1)) as i64 - limit
    }

    fn segment(&mut self, limit: i64) -> Segment {
        Segment {
            start: Point::new(self.coordinate(limit), self.coordinate(limit)),
            end: Point::new(self.coordinate(limit), self.coordinate(limit)),
        }
    }
}

fn check_hit_laws(l1: &Segment, l2: &Segment) -> bool {
    let hit = match intersection(l1, l2) {
        Some(hit) => hit,
        None => {
            assert_eq!(intersection(l2, l1), None);
            return false;
        }
    };
    let (ax, ay) = (l1.start.x as i128, l1.start.y as i128);
    let (cx, cy) = (l2.start.x as i128, l2.start.y as i128);
    let (d1x, d1y) = (l1.end.x as i128 - ax, l1.end.y as i128 - ay);
    let (d2x, d2y) = (l2.end.x as i128 - cx, l2.end.y as i128 - cy);
    let den = hit.s.den as i128;
    let (s, t) = (hit.s.num as i128, hit.t.num as i128);
    // Both positions are fractions of one over the same denominator.
    assert!(den > 0);
    assert_eq!(hit.t.den as i128, den);
    assert!(0 <= s && s <= den);
    assert!(0 <= t && t <= den);
    // They locate the same point on both segments.
    assert_eq!(den * ax + s * d1x, den * cx + t * d2x);
    assert_eq!(den * ay + s * d1y, den * cy + t * d2y);
    // The point reported is the grid point nearest to it.
    let (px, py) = (hit.point.x as i128, hit.point.y as i128);
    assert!((2 * (den * (px - ax) - s * d1x)).abs() <= den);
    assert!((2 * (den * (py - ay) - s * d1y)).abs() <= den);
    assert!(hit.point.is_in_range());
    assert!(ax.min(ax + d1x) <= px && px <= ax.max(ax + d1x));
    assert!(ay.min(ay + d1y) <= py && py <= ay.max(ay + d1y));
    // The sign of the cross product of the direction of the first segment
    // with that of the second gives the kind.
    let cross = d1x * d2y - d1y * d2x;
    assert_ne!(cross, 0);
    assert_eq!(hit.crossing == Crossing::Exiting, cross > 0);
    // In the other order the positions change places and the kind flips.
    let back = intersection(l2, l1).unwrap();
    assert_eq!(back.s, hit.t);
    assert_eq!(back.t, hit.s);
    assert_ne!(back.crossing, hit.crossing);
    true
}

#[test]
fn laws_of_intersection_on_small_segments() {
    let mut numbers = Numbers(1);
    let mut hits = 0;
    for _ in 0..20000 {
        let l1 = numbers.segment(6);
        let l2 = numbers.segment(6);
        if check_hit_laws(&l1, &l2) {
            hits += 1;
        }
    }
    assert!(hits > 1000);
}

#[test]
fn laws_of_intersection_on_large_segments() {
    let mut numbers = Numbers(2);
    let mut hits = 0;
    for _ in 0..20000 {
        let l1 = numbers.segment(COORD_LIMIT);
        let l2 = numbers.segment(COORD_LIMIT);
        if check_hit_laws(&l1, &l2) {
            hits += 1;
        }
    }
    assert!(hits > 1000);
}

#[test]
fn laws_of_intersection_at_the_corners_of_the_range() {
    let l = COORD_LIMIT;
    let corners = [(-l, -l), (-l, l), (l, l), (l, -l), (0, 0), (l, 0), (0, -l), (1, -1)];
    for &a in &corners {
        for &b in &corners {
            for &c in &corners {
                for &d in &corners {
                    let l1 = Segment { start: Point::new(a.0, a.1), end: Point::new(b.0, b.1) };
                    let l2 = Segment { start: Point::new(c.0, c.1), end: Point::new(d.0, d.1) };
                    check_hit_laws(&l1, &l2);
                }
            }
        }
    }
}

#[test]
fn parallel_segments_never_meet() {
    let mut numbers = Numbers(3);
    for _ in 0..5000 {
        let l1 = numbers.segment(50);
        let shift = (numbers.coordinate(50), numbers.coordinate(50));
        let scale = numbers.coordinate(3);
        let l2 = Segment {
            start: Point::new(l1.start.x + shift.0, l1.start.y + shift.1),
            end: Point::new(
                l1.start.x + shift.0 + scale * (l1.end.x - l1.start.x),
                l1.start.y + shift.1 + scale * (l1.end.y - l1.start.y),
            ),
        };
        assert_eq!(intersection(&l1, &l2), None);
    }
}

#[test]
fn orientation_flips_when_reversed() {
    let mut numbers = Numbers(4);
    for _ in 0..2000 {
        let n = 3 + (numbers.next() % 5) as usize;
        let mut c: Vec<Point> =
            (0..n).map(|_| Point::new(numbers.coordinate(100), numbers.coordinate(100))).collect();
        c.push(c[0]);
        let mut r = c.clone();
        r.reverse();
        let sum: i128 = c
            .windows(2)
            .map(|w| (w[1].x - w[0].x) as i128 * (w[1].y + w[0].y) as i128)
            .sum();
        let expected =
            if sum > 0 { Orientation::CounterClockwise } else { Orientation::Clockwise };
        assert_eq!(orientation(&c), expected);
        if sum != 0 {
            assert_ne!(orientation(&r), expected);
        } else {
            assert_eq!(orientation(&r), Orientation::Clockwise);
        }
    }
}

/// A star of four tips, drawn with its inside on the left where `y` grows
/// upwards.
fn star(cx: i64, cy: i64, r: i64) -> Vec<Point> {
    pts(&[
        (cx, cy + r),
        (cx - r / 4, cy + r / 4),
        (cx - r, cy),
        (cx - r / 4, cy - r / 4),
        (cx, cy - r),
        (cx + r / 4, cy - r / 4),
        (cx + r, cy),
        (cx + r / 4, cy + r / 4),
        (cx, cy + r),
    ])
}

fn tables() -> Vec<VertexTable> {
    let cases: Vec<(Vec<Vec<Point>>, Vec<Vec<Point>>)> = vec![
        (
            vec![pts(&[(0, 0), (2, 0), (2, 2), (0, 2), (0, 0)])],
            vec![pts(&[(1, 1), (3, 1), (3, 3), (1, 3), (1, 1)])],
        ),
        (
            vec![pts(&[(0, 0), (10, 0), (10, 10), (0, 10), (0, 0)])],
            vec![pts(&[(4, -5), (6, -5), (6, 15), (4, 15), (4, -5)])],
        ),
        (
            vec![pts(&[(0, 0), (10, 0), (5, -10), (0, 0)])],
            vec![pts(&[(3, 5), (5, 0), (7, 5), (3, 5)])],
        ),
        (vec![star(0, 0, 100), star(300, 0, 100)], vec![star(40, 30, 100), star(260, -30, 100)]),
        (
            vec![pts(&[(0, 0), (0, 10), (10, 10), (10, 0), (0, 0)])],
            vec![
                pts(&[(-5, 2), (15, 2), (15, 3), (-5, 3), (-5, 2)]),
                pts(&[(-5, 5), (15, 5), (15, 6), (-5, 6), (-5, 5)]),
                pts(&[(-5, 8), (15, 8), (15, 9), (-5, 9), (-5, 8)]),
            ],
        ),
        (vec![], vec![pts(&[(0, 0), (0, 10), (10, 10), (0, 0)])]),
    ];
    cases
        .iter()
        .map(|(subject, clip)| {
            let mut t = build_table(subject, clip);
            insert_intersections(&mut t);
            t
        })
        .collect()
}

fn comes_back(links: &[usize], start: usize) -> bool {
    let mut cur = start;
    for _ in 0..links.len() {
        cur = links[cur];
        if cur == start {
            return true;
        }
    }
    false
}

#[test]
fn chains_are_circular() {
    let mut intersections = 0;
    for t in tables() {
        let subject: Vec<usize> = t.records.iter().map(|r| r.next_subject).collect();
        let clip: Vec<usize> = t.records.iter().map(|r| r.next_clip).collect();
        for i in 0..t.records.len() {
            if i < t.subject_end || i >= t.clip_end {
                assert!(comes_back(&subject, i));
            }
            if i >= t.subject_end {
                assert!(comes_back(&clip, i));
            }
        }
        intersections += t.records.len() - t.clip_end;
    }
    assert!(intersections >= 20);
}

#[test]
fn intersections_follow_each_other_in_order() {
    for t in tables() {
        for i in t.clip_end..t.records.len() {
            let r = &t.records[i];
            let after = &t.records[r.next_subject];
            if let Origin::Intersection(_) = after.origin {
                assert!(!after.param_subject.lt(&r.param_subject));
            }
            let after = &t.records[r.next_clip];
            if let Origin::Intersection(_) = after.origin {
                assert!(!after.param_clip.lt(&r.param_clip));
            }
        }
    }
}

#[test]
fn inserting_keeps_the_vertices() {
    let subject = vec![star(0, 0, 100), star(300, 0, 100)];
    let clip = vec![star(40, 30, 100), star(260, -30, 100)];
    let built = build_table(&subject, &clip);
    let mut t = built.clone();
    insert_intersections(&mut t);
    assert!(t.records.len() > built.records.len());
    assert_eq!(t.subject_end, built.subject_end);
    assert_eq!(t.clip_end, built.clip_end);
    for (a, b) in t.records.iter().zip(built.records.iter()) {
        assert_eq!(a.point, b.point);
        assert_eq!(a.origin, b.origin);
        assert_eq!(a.param_subject, b.param_subject);
        assert_eq!(a.param_clip, b.param_clip);
        assert!(!a.visited);
    }
    for r in &t.records[built.records.len()..] {
        assert!(matches!(r.origin, Origin::Intersection(_)));
        assert!(r.point.is_in_range());
        assert!(r.param_subject.num <= r.param_subject.den && r.param_subject.den > 0);
        assert!(r.param_clip.num <= r.param_clip.den && r.param_clip.den > 0);
    }
}

/// Whether any crossing of the two polygons falls on the end of an edge.
fn touches(subject: &Vec<Vec<Point>>, clip: &Vec<Vec<Point>>) -> bool {
    let mut t = build_table(subject, clip);
    insert_intersections(&mut t);
    t.records[t.clip_end..].iter().any(|r| {
        r.param_subject.num == 0
            || r.param_subject.num == r.param_subject.den
            || r.param_clip.num == 0
            || r.param_clip.num == r.param_clip.den
    })
}

#[test]
fn contours_of_the_clipped_region_are_closed() {
    let mut numbers = Numbers(6);
    let mut clipped = 0;
    for _ in 0..300 {
        let subject = vec![star(0, 0, 100), star(300, 0, 100)];
        let clip = vec![
            star(numbers.coordinate(120), numbers.coordinate(120), 100),
            star(300 + numbers.coordinate(120), numbers.coordinate(120), 100),
        ];
        // The two contours of the clip polygon must not cross each other.
        let mut own = build_table(&vec![clip[0].clone()], &vec![clip[1].clone()]);
        insert_intersections(&mut own);
        if own.records.len() > own.clip_end || touches(&subject, &clip) {
            continue;
        }
        let r = clipping(&subject, &clip);
        for contour in &r.result {
            assert!(contour.len() >= 2);
            assert_eq!(contour.first(), contour.last());
            clipped += 1;
        }
    }
    assert!(clipped > 100);
}

#[test]
fn walk_through_a_vertex_that_lies_on_an_edge_ends() {
    // The vertex (15, 55) of the clip polygon lies on the edge from (25, 25)
    // to (0, 100) of the subject: two crossings at one point, and a walk that
    // never comes back to its seed. It is cut, and the contour stays open.
    let subject = vec![star(0, 0, 100)];
    let clip = vec![star(40, 30, 100)];
    let mut t = build_table(&subject, &clip);
    insert_intersections(&mut t);
    let records = t.records.len();
    let r = clipping(&subject, &clip);
    assert!(r.result.iter().any(|contour| contour.first() != contour.last()));
    assert!(r.result.iter().all(|contour| contour.len() <= records + 1));
}

#[test]
fn polygons_apart_come_back_whole() {
    let mut numbers = Numbers(5);
    for _ in 0..200 {
        let subject: Vec<Vec<Point>> = (0..1 + numbers.next() % 3)
            .map(|k| star(k as i64 * 1000, 0, 50 + numbers.coordinate(40)))
            .collect();
        let clip: Vec<Vec<Point>> = (0..1 + numbers.next() % 3)
            .map(|k| star(k as i64 * 1000, 5000, 50 + numbers.coordinate(40)))
            .collect();
        let r = clipping(&subject, &clip);
        assert!(r.result.is_empty());
        assert_eq!(r.leftover_subject, subject);
        assert_eq!(r.leftover_clip, clip);
    }
}

#[test]
fn clipping_is_deterministic() {
    let subject = vec![star(0, 0, 100), star(300, 0, 100)];
    let clip = vec![star(40, 30, 100), star(260, -30, 100)];
    let first = clipping(&subject, &clip);
    for _ in 0..5 {
        assert_eq!(clipping(&subject, &clip), first);
        assert_eq!(clipping(&subject.clone(), &clip.clone()), first);
    }
}

#[test]
fn polygons_from_the_builder_can_be_clipped() {
    let mut b = PolygonBuilder::new();
    for &(x, y) in &[(0, 0), (2, 0), (2, 2), (0, 2)] {
        assert_eq!(b.add_point(Point::new(x, y)), Ok(()));
    }
    let subject = b.finish().unwrap();
    for &(x, y) in &[(1, 1), (3, 1), (3, 3), (1, 3)] {
        assert_eq!(b.add_point(Point::new(x, y)), Ok(()));
    }
    let clip = b.finish().unwrap();
    let r = clipping(&subject, &clip);
    assert_eq!(r.result, vec![pts(&[(2, 1), (2, 2), (1, 2), (1, 1), (2, 1)])]);
}

/// Whether, along both chains, the first intersection after one from which a
/// walk follows the chain is of the other kind.
fn alternates(t: &VertexTable) -> bool {
    for x in t.clip_end..t.records.len() {
        let (subject, wanted) = match t.records[x].origin {
            Origin::Intersection(Crossing::Entering) => (true, Crossing::Exiting),
            Origin::Intersection(Crossing::Exiting) => (false, Crossing::Entering),
            _ => unreachable!(),
        };
        let mut cur = x;
        loop {
            cur = if subject { t.records[cur].next_subject } else { t.records[cur].next_clip };
            if let Origin::Intersection(kind) = t.records[cur].origin {
                if kind != wanted {
                    return false;
                }
                break;
            }
        }
    }
    true
}

#[test]
fn walks_come_back_where_the_crossings_alternate() {
    let mut numbers = Numbers(7);
    let mut alternating = 0;
    let mut others = 0;
    for _ in 0..2000 {
        let subject = vec![star(0, 0, 100)];
        let clip = vec![star(numbers.coordinate(60), numbers.coordinate(60), 100)];
        let mut t = build_table(&subject, &clip);
        insert_intersections(&mut t);
        let r = clipping(&subject, &clip);
        if alternates(&t) {
            alternating += 1;
            for contour in &r.result {
                assert!(contour.len() >= 2);
                assert_eq!(contour.first(), contour.last());
            }
        } else {
            others += 1;
        }
    }
    assert!(alternating > 500);
    assert!(others > 10);
}

/// The edges of a polygon, each from a vertex to the one after it and from
/// the last vertex of a contour back to the first.
fn ring_edges(p: &Vec<Vec<Point>>) -> Vec<Segment> {
    let mut edges = Vec::new();
    for c in p {
        let n = c.len() - 1;
        for i in 0..n {
            edges.push(Segment { start: c[i], end: c[if i + 1 < n { i + 1 } else { 0 }] });
        }
    }
    edges
}

#[test]
fn every_point_is_a_vertex_or_a_crossing() {
    let mut numbers = Numbers(8);
    let mut crossings = 0;
    for _ in 0..200 {
        let subject = vec![star(0, 0, 100), star(300, 0, 100)];
        let clip = vec![star(numbers.coordinate(150), numbers.coordinate(150), 100)];
        let mut sources: Vec<Point> = Vec::new();
        for c in subject.iter().chain(clip.iter()) {
            sources.extend(c[..c.len() - 1].iter());
        }
        let vertices = sources.len();
        for l1 in ring_edges(&subject) {
            for l2 in ring_edges(&clip) {
                if let Some(hit) = intersection(&l1, &l2) {
                    sources.push(hit.point);
                }
            }
        }
        crossings += sources.len() - vertices;
        let r = clipping(&subject, &clip);
        let all = r.result.iter().chain(r.leftover_subject.iter()).chain(r.leftover_clip.iter());
        for q in all.flatten() {
            assert!(sources.contains(q));
        }
    }
    assert!(crossings > 200);
}
