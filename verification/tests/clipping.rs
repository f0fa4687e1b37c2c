use polygon_clip::clip::clipping;
use polygon_clip::insert::insert_intersections;
use polygon_clip::point::Point;
use polygon_clip::ratio::Ratio;
use polygon_clip::segment::Crossing;
use polygon_clip::table::{build_table, Origin, VertexRecord, VertexTable};
use polygon_clip::walk::{walk_table, ClipResult};

fn pts(v: &[(i64, i64)]) -> Vec<Point> {
    v.iter().map(|&(x, y)| Point::new(x, y)).collect()
}

fn subject_square() -> Vec<Vec<Point>> {
    vec![pts(&[(0, 0), (2, 0), (2, 2), (0, 2), (0, 0)])]
}

fn clip_square() -> Vec<Vec<Point>> {
    vec![pts(&[(1, 1), (3, 1), (3, 3), (1, 3), (1, 1)])]
}

fn original(x: i64, y: i64, origin: Origin, next_subject: usize, next_clip: usize) -> VertexRecord {
    VertexRecord {
        point: Point::new(x, y),
        origin,
        param_subject: Ratio::one(),
        param_clip: Ratio::one(),
        next_subject,
        next_clip,
        visited: false,
    }
}

fn subject_links(t: &VertexTable) -> Vec<usize> {
    t.records.iter().map(|r| r.next_subject).collect()
}

fn clip_links(t: &VertexTable) -> Vec<usize> {
    t.records.iter().map(|r| r.next_clip).collect()
}

#[test]
fn table_of_two_squares() {
    let t = build_table(&subject_square(), &clip_square());
    assert_eq!(t.subject_end, 4);
    assert_eq!(t.clip_end, 8);
    assert_eq!(
        t.records,
        vec![
            original(0, 0, Origin::SubjectOriginal, 1, 0),
            original(2, 0, Origin::SubjectOriginal, 2, 0),
            original(2, 2, Origin::SubjectOriginal, 3, 0),
            original(0, 2, Origin::SubjectOriginal, 0, 0),
            original(1, 1, Origin::ClipOriginal, 0, 5),
            original(3, 1, Origin::ClipOriginal, 0, 6),
            original(3, 3, Origin::ClipOriginal, 0, 7),
            original(1, 3, Origin::ClipOriginal, 0, 4),
        ]
    );
}

#[test]
fn table_links_each_contour_to_itself() {
    let subject = vec![
        pts(&[(0, 0), (0, 2), (2, 2), (0, 0)]),
        pts(&[(5, 5), (5, 7), (7, 7), (7, 5), (5, 5)]),
    ];
    let clip = vec![pts(&[(10, 10), (10, 12), (12, 12), (10, 10)])];
    let t = build_table(&subject, &clip);
    assert_eq!(t.subject_end, 7);
    assert_eq!(t.clip_end, 10);
    assert_eq!(subject_links(&t), vec![1, 2, 0, 4, 5, 6, 3, 0, 0, 0]);
    assert_eq!(clip_links(&t), vec![0, 0, 0, 0, 0, 0, 0, 8, 9, 7]);
    assert!(t.records.iter().all(|r| !r.visited));
    assert!(t.records.iter().all(|r| r.param_subject == Ratio::one()));
    assert!(t.records.iter().all(|r| r.param_clip == Ratio::one()));
    assert_eq!(t.records[3].point, Point::new(5, 5));
    assert_eq!(t.records[6].point, Point::new(7, 5));
}

#[test]
fn table_of_empty_polygons_is_empty() {
    let t = build_table(&vec![], &vec![]);
    assert_eq!(t.records, vec![]);
    assert_eq!(t.subject_end, 0);
    assert_eq!(t.clip_end, 0);
}

#[test]
fn table_of_short_contours() {
    // A contour of one point gives no record, one of two points a record
    // linked to itself.
    let t = build_table(&vec![pts(&[(1, 1)]), pts(&[(2, 2), (2, 2)])], &vec![]);
    assert_eq!(t.records, vec![original(2, 2, Origin::SubjectOriginal, 0, 0)]);
    assert_eq!(t.subject_end, 1);
    assert_eq!(t.clip_end, 1);
}

#[test]
fn intersections_of_two_squares() {
    let mut t = build_table(&subject_square(), &clip_square());
    insert_intersections(&mut t);
    assert_eq!(t.subject_end, 4);
    assert_eq!(t.clip_end, 8);
    assert_eq!(t.records.len(), 10);
    assert_eq!(
        t.records[8],
        VertexRecord {
            point: Point::new(2, 1),
            origin: Origin::Intersection(Crossing::Entering),
            param_subject: Ratio { num: 2, den: 4 },
            param_clip: Ratio { num: 2, den: 4 },
            next_subject: 2,
            next_clip: 5,
            visited: false,
        }
    );
    assert_eq!(
        t.records[9],
        VertexRecord {
            point: Point::new(1, 2),
            origin: Origin::Intersection(Crossing::Exiting),
            param_subject: Ratio { num: 2, den: 4 },
            param_clip: Ratio { num: 2, den: 4 },
            next_subject: 3,
            next_clip: 4,
            visited: false,
        }
    );
    assert_eq!(subject_links(&t), vec![1, 8, 9, 0, 0, 0, 0, 0, 2, 3]);
    assert_eq!(clip_links(&t), vec![0, 0, 0, 0, 8, 6, 7, 9, 5, 4]);
}

#[test]
fn intersections_on_one_edge_are_ordered_by_position() {
    let subject = vec![pts(&[(0, 0), (10, 0), (10, 10), (0, 10), (0, 0)])];
    let clip = vec![pts(&[(4, -5), (6, -5), (6, 15), (4, 15), (4, -5)])];
    let mut t = build_table(&subject, &clip);
    insert_intersections(&mut t);
    assert_eq!(t.records.len(), 12);
    let points: Vec<Point> = t.records[8..].iter().map(|r| r.point).collect();
    assert_eq!(points, pts(&[(6, 0), (4, 0), (6, 10), (4, 10)]));
    let kinds: Vec<Origin> = t.records[8..].iter().map(|r| r.origin).collect();
    assert_eq!(
        kinds,
        vec![
            Origin::Intersection(Crossing::Exiting),
            Origin::Intersection(Crossing::Entering),
            Origin::Intersection(Crossing::Entering),
            Origin::Intersection(Crossing::Exiting),
        ]
    );
    let positions: Vec<(u64, u64)> =
        t.records[8..].iter().map(|r| (r.param_subject.num, r.param_clip.num)).collect();
    assert_eq!(positions, vec![(120, 50), (80, 150), (80, 150), (120, 50)]);
    assert!(t.records[8..].iter().all(|r| r.param_subject.den == 200));
    assert!(t.records[8..].iter().all(|r| r.param_clip.den == 200));
    // Subject chain: 0, (4,0), (6,0), 1, 2, (6,10), (4,10), 3, back to 0.
    assert_eq!(subject_links(&t), vec![9, 2, 10, 0, 0, 0, 0, 0, 1, 8, 11, 3]);
    // Clip chain: 4, 5, (6,0), (6,10), 6, 7, (4,10), (4,0), back to 4.
    assert_eq!(clip_links(&t), vec![0, 0, 0, 0, 5, 8, 7, 11, 10, 4, 6, 9]);
}

#[test]
fn intersections_at_the_same_position_put_the_later_one_first() {
    let subject = vec![pts(&[(0, 0), (10, 0), (5, -10), (0, 0)])];
    let clip = vec![pts(&[(3, 5), (5, 0), (7, 5), (3, 5)])];
    let mut t = build_table(&subject, &clip);
    insert_intersections(&mut t);
    assert_eq!(t.records.len(), 8);
    assert_eq!(t.records[6].point, Point::new(5, 0));
    assert_eq!(t.records[6].origin, Origin::Intersection(Crossing::Entering));
    assert_eq!(t.records[6].param_subject, Ratio { num: 25, den: 50 });
    assert_eq!(t.records[6].param_clip, Ratio { num: 50, den: 50 });
    assert_eq!(t.records[7].point, Point::new(5, 0));
    assert_eq!(t.records[7].origin, Origin::Intersection(Crossing::Exiting));
    assert_eq!(t.records[7].param_subject, Ratio { num: 25, den: 50 });
    assert_eq!(t.records[7].param_clip, Ratio { num: 0, den: 50 });
    assert_eq!(subject_links(&t), vec![7, 2, 0, 0, 0, 0, 1, 6]);
    assert_eq!(clip_links(&t), vec![0, 0, 0, 6, 7, 3, 4, 5]);
}

#[test]
fn intersections_of_disjoint_squares_are_none() {
    let clip = vec![pts(&[(5, 5), (5, 7), (7, 7), (7, 5), (5, 5)])];
    let built = build_table(&subject_square(), &clip);
    let mut t = built.clone();
    insert_intersections(&mut t);
    assert_eq!(t, built);
}

#[test]
fn clip_of_two_squares() {
    let r = clipping(&subject_square(), &clip_square());
    assert_eq!(r.result, vec![pts(&[(2, 1), (2, 2), (1, 2), (1, 1), (2, 1)])]);
    assert_eq!(
        r.leftover_subject,
        vec![pts(&[(0, 0), (2, 0), (2, 1)]), pts(&[(1, 2), (0, 2), (0, 0)])]
    );
    assert_eq!(
        r.leftover_clip,
        vec![pts(&[(3, 1), (3, 3), (1, 3), (1, 2)]), pts(&[(2, 1), (3, 1)])]
    );
}

#[test]
fn clip_result_is_the_overlap_of_the_squares() {
    let r = clipping(&subject_square(), &clip_square());
    assert_eq!(r.result.len(), 1);
    let contour = &r.result[0];
    assert_eq!(contour.first(), contour.last());
    let mut corners: Vec<(i64, i64)> =
        contour[..contour.len() - 1].iter().map(|p| (p.x, p.y)).collect();
    corners.sort();
    assert_eq!(corners, vec![(1, 1), (1, 2), (2, 1), (2, 2)]);
    assert!(!r.leftover_subject.is_empty());
    assert!(!r.leftover_clip.is_empty());
    // What is left of either polygon shares no edge with the overlap.
    let edges = |c: &Vec<Point>| -> Vec<(Point, Point)> {
        c.windows(2).map(|w| (w[0], w[1])).collect()
    };
    let overlap = edges(contour);
    for piece in r.leftover_subject.iter().chain(r.leftover_clip.iter()) {
        for e in edges(piece) {
            assert!(!overlap.contains(&e));
            assert!(!overlap.contains(&(e.1, e.0)));
        }
    }
}

#[test]
fn clip_leftovers_lie_outside_the_other_square() {
    let r = clipping(&subject_square(), &clip_square());
    // What is left of the subject keeps out of the inside of the clip
    // square, and what is left of the clip polygon out of the inside of the
    // subject.
    for q in r.leftover_subject.iter().flatten() {
        assert!(!(1 < q.x && q.x < 3 && 1 < q.y && q.y < 3));
    }
    for q in r.leftover_clip.iter().flatten() {
        assert!(!(0 < q.x && q.x < 2 && 0 < q.y && q.y < 2));
    }
    // The clipped region lies in both squares.
    for q in r.result.iter().flatten() {
        assert!(0 <= q.x && q.x <= 2 && 0 <= q.y && q.y <= 2);
        assert!(1 <= q.x && q.x <= 3 && 1 <= q.y && q.y <= 3);
    }
    // The corners (2,2) and (1,1) lie inside the other square: they belong
    // to the clipped region and to no leftover.
    assert!(r.result[0].contains(&Point::new(2, 2)));
    assert!(r.result[0].contains(&Point::new(1, 1)));
    assert!(r.leftover_subject.iter().flatten().all(|q| *q != Point::new(2, 2)));
    assert!(r.leftover_clip.iter().flatten().all(|q| *q != Point::new(1, 1)));
}

#[test]
fn clip_of_squares_drawn_the_other_way_round() {
    // With both squares drawn the other way round every crossing changes its
    // kind, and the walk follows the outline of the two squares together.
    let subject = vec![pts(&[(0, 0), (0, 2), (2, 2), (2, 0), (0, 0)])];
    let clip = vec![pts(&[(1, 1), (1, 3), (3, 3), (3, 1), (1, 1)])];
    let r = clipping(&subject, &clip);
    assert_eq!(
        r.result,
        vec![pts(&[(1, 2), (1, 3), (3, 3), (3, 1), (2, 1), (2, 0), (0, 0), (0, 2), (1, 2)])]
    );
    assert_eq!(r.leftover_subject, vec![pts(&[(2, 2), (2, 1)]), pts(&[(1, 2), (2, 2)])]);
    assert_eq!(r.leftover_clip, vec![pts(&[(1, 1), (1, 2)]), pts(&[(2, 1), (1, 1)])]);
}

#[test]
fn clip_of_a_square_by_a_bar() {
    let subject = vec![pts(&[(0, 0), (10, 0), (10, 10), (0, 10), (0, 0)])];
    let clip = vec![pts(&[(4, -5), (6, -5), (6, 15), (4, 15), (4, -5)])];
    let r = clipping(&subject, &clip);
    assert_eq!(r.result, vec![pts(&[(6, 0), (6, 10), (4, 10), (4, 0), (6, 0)])]);
    assert_eq!(
        r.leftover_subject,
        vec![
            pts(&[(0, 0), (4, 0)]),
            pts(&[(6, 0), (10, 0), (10, 10), (6, 10)]),
            pts(&[(4, 10), (0, 10), (0, 0)]),
        ]
    );
    assert_eq!(
        r.leftover_clip,
        vec![
            pts(&[(4, -5), (6, -5), (6, 0)]),
            pts(&[(6, 10), (6, 15), (4, 15), (4, 10)]),
            pts(&[(4, 0), (4, -5)]),
        ]
    );
}

#[test]
fn clip_of_a_square_crossed_twice_on_one_edge() {
    // A rectangle that pokes through the top edge of the square from inside.
    let subject = vec![pts(&[(0, 0), (4, 0), (4, 4), (0, 4), (0, 0)])];
    let clip = vec![pts(&[(1, 2), (3, 2), (3, 6), (1, 6), (1, 2)])];
    let r = clipping(&subject, &clip);
    assert_eq!(r.result.len(), 1);
    let contour = &r.result[0];
    assert_eq!(contour.first(), contour.last());
    let mut corners: Vec<(i64, i64)> =
        contour[..contour.len() - 1].iter().map(|q| (q.x, q.y)).collect();
    corners.sort();
    assert_eq!(corners, vec![(1, 2), (1, 4), (3, 2), (3, 4)]);
}

#[test]
fn clip_of_disjoint_squares() {
    let subject = subject_square();
    let clip = vec![pts(&[(5, 5), (5, 7), (7, 7), (7, 5), (5, 5)])];
    let r = clipping(&subject, &clip);
    assert_eq!(r.result, Vec::<Vec<Point>>::new());
    assert_eq!(r.leftover_subject, subject);
    assert_eq!(r.leftover_clip, clip);
}

#[test]
fn clip_of_disjoint_polygons_of_several_contours() {
    let subject = vec![
        pts(&[(0, 0), (0, 2), (2, 2), (0, 0)]),
        pts(&[(10, 0), (10, 2), (12, 2), (12, 0), (10, 0)]),
    ];
    let clip = vec![
        pts(&[(0, 20), (0, 22), (2, 22), (0, 20)]),
        pts(&[(10, 20), (10, 22), (12, 22), (10, 20)]),
    ];
    let r = clipping(&subject, &clip);
    assert_eq!(r.result, Vec::<Vec<Point>>::new());
    assert_eq!(r.leftover_subject, subject);
    assert_eq!(r.leftover_clip, clip);
}

#[test]
fn clip_of_nested_squares_finds_no_overlap() {
    // No edge of one meets an edge of the other, so nothing tells the inner
    // square from a square outside.
    let subject = vec![pts(&[(0, 0), (0, 10), (10, 10), (10, 0), (0, 0)])];
    let clip = vec![pts(&[(4, 4), (4, 6), (6, 6), (6, 4), (4, 4)])];
    let r = clipping(&subject, &clip);
    assert_eq!(r.result, Vec::<Vec<Point>>::new());
    assert_eq!(r.leftover_subject, subject);
    assert_eq!(r.leftover_clip, clip);
}

#[test]
fn clip_of_empty_polygons() {
    let r = clipping(&vec![], &vec![]);
    assert_eq!(
        r,
        ClipResult { result: vec![], leftover_subject: vec![], leftover_clip: vec![] }
    );
    let r = clipping(&subject_square(), &vec![]);
    assert_eq!(r.result, Vec::<Vec<Point>>::new());
    assert_eq!(r.leftover_subject, subject_square());
    assert_eq!(r.leftover_clip, Vec::<Vec<Point>>::new());
}

#[test]
fn clip_twice_gives_the_same() {
    let subject = vec![pts(&[(0, 0), (10, 0), (10, 10), (0, 10), (0, 0)])];
    let clip = vec![pts(&[(4, -5), (6, -5), (6, 15), (4, 15), (4, -5)])];
    let first = clipping(&subject, &clip);
    let second = clipping(&subject, &clip);
    assert_eq!(first, second);
    // The overlap clipped by itself, twice over.
    let again = clipping(&first.result, &first.result);
    assert_eq!(again, clipping(&first.result, &first.result));
}

#[test]
fn clip_is_walk_after_insert_after_build() {
    let mut t = build_table(&subject_square(), &clip_square());
    insert_intersections(&mut t);
    assert_eq!(walk_table(t), clipping(&subject_square(), &clip_square()));
}

#[test]
fn walk_along_a_chain_that_never_comes_back_is_cut() {
    let t = VertexTable {
        records: vec![
            original(0, 0, Origin::SubjectOriginal, 1, 0),
            original(1, 1, Origin::SubjectOriginal, 1, 0),
        ],
        subject_end: 2,
        clip_end: 2,
    };
    let r = walk_table(t);
    assert_eq!(r.result, Vec::<Vec<Point>>::new());
    assert_eq!(r.leftover_subject, vec![pts(&[(0, 0), (1, 1), (1, 1)])]);
    assert_eq!(r.leftover_clip, Vec::<Vec<Point>>::new());
}

#[test]
fn walk_of_the_overlap_that_never_comes_back_is_cut() {
    let t = VertexTable {
        records: vec![
            original(6, 6, Origin::SubjectOriginal, 0, 0),
            VertexRecord {
                point: Point::new(5, 5),
                origin: Origin::Intersection(Crossing::Entering),
                param_subject: Ratio { num: 1, den: 2 },
                param_clip: Ratio { num: 1, den: 2 },
                next_subject: 0,
                next_clip: 1,
                visited: false,
            },
        ],
        subject_end: 1,
        clip_end: 1,
    };
    let r = walk_table(t);
    assert_eq!(r.result, vec![pts(&[(5, 5), (6, 6)])]);
    assert_eq!(r.leftover_subject, Vec::<Vec<Point>>::new());
    assert_eq!(r.leftover_clip, Vec::<Vec<Point>>::new());
}

#[test]
fn walk_skips_records_already_visited() {
    let mut t = build_table(&subject_square(), &clip_square());
    for r in t.records.iter_mut() {
        r.visited = true;
    }
    let r = walk_table(t);
    assert_eq!(
        r,
        ClipResult { result: vec![], leftover_subject: vec![], leftover_clip: vec![] }
    );
}
