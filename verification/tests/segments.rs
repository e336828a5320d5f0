use boxybox::geometry::{segment_intersects_segment, Point, Segment};

fn p(x: i64, y: i64) -> Point {
    Point::new(x, y, 0)
}

#[test]
fn segment_intersects_segment_test_1() {
    // collinear
    let a = Segment(p(0, 0), p(1, 0));
    let b = Segment(p(0, 0), p(1, 0));

    assert!(!segment_intersects_segment(&a, &b))
}

#[test]
fn segment_intersects_segment_test_2() {
    // parallel
    let a = Segment(p(0, 0), p(1, 0));
    let b = Segment(p(0, 1), p(1, 1));

    assert!(!segment_intersects_segment(&a, &b))
}

#[test]
fn segment_intersects_segment_test_3() {
    // orthogonal, non-intersecting
    let a = Segment(p(-1, 0), p(1, 0));
    let b = Segment(p(0, 1), p(0, 2));

    assert!(!segment_intersects_segment(&a, &b))
}

#[test]
fn segment_intersects_segment_test_4() {
    // orthogonal, intersecting
    let a = Segment(p(-1, 0), p(1, 0));
    let b = Segment(p(0, -1), p(0, 1));

    assert!(segment_intersects_segment(&a, &b))
}

#[test]
fn collinear_overlapping_segments_do_not_intersect() {
    let a = Segment(p(0, 0), p(10, 5));
    let b = Segment(p(4, 2), p(20, 10));
    assert!(!segment_intersects_segment(&a, &b));
    assert!(!segment_intersects_segment(&b, &a));
    // one inside the other
    let c = Segment(p(2, 1), p(6, 3));
    assert!(!segment_intersects_segment(&a, &c));
    // sharing one end only
    let d = Segment(p(10, 5), p(12, 6));
    assert!(!segment_intersects_segment(&a, &d));
}

#[test]
fn parallel_distinct_segments_do_not_intersect() {
    let a = Segment(p(-3, -3), p(3, 3));
    let b = Segment(p(-3, -2), p(3, 4));
    assert!(!segment_intersects_segment(&a, &b));
    // opposite directions are parallel as well
    let c = Segment(p(3, 4), p(-3, -2));
    assert!(!segment_intersects_segment(&a, &c));
}

#[test]
fn degenerate_segment_never_intersects() {
    let dot = Segment(p(0, 0), p(0, 0));
    let through = Segment(p(-1, -1), p(1, 1));
    assert!(!segment_intersects_segment(&dot, &through));
    assert!(!segment_intersects_segment(&through, &dot));
}

#[test]
fn touching_at_an_end_counts_as_intersecting() {
    // s = 1 and t = 0 are both inside the closed interval
    let a = Segment(p(0, 0), p(2, 0));
    let b = Segment(p(2, 0), p(2, 5));
    assert!(segment_intersects_segment(&a, &b));
    // t-shaped: the end of one lies in the middle of the other
    let c = Segment(p(1, 0), p(1, 3));
    assert!(segment_intersects_segment(&a, &c));
    // just short of touching
    let d = Segment(p(1, 1), p(1, 3));
    assert!(!segment_intersects_segment(&a, &d));
}

#[test]
fn lines_cross_but_segments_do_not() {
    // the lines meet at (5, 5), on b but beyond the end of a
    let a = Segment(p(0, 0), p(4, 4));
    let b = Segment(p(0, 10), p(10, 0));
    assert!(!segment_intersects_segment(&a, &b));
    let longer = Segment(p(0, 0), p(5, 5));
    assert!(segment_intersects_segment(&longer, &b));
}

#[test]
fn intersection_is_symmetric_and_ignores_direction() {
    let a = Segment(p(-7, 2), p(9, -4));
    let b = Segment(p(1, -8), p(0, 6));
    let ra = Segment(a.1, a.0);
    let rb = Segment(b.1, b.0);
    assert!(segment_intersects_segment(&a, &b));
    assert!(segment_intersects_segment(&b, &a));
    assert!(segment_intersects_segment(&ra, &b));
    assert!(segment_intersects_segment(&a, &rb));
    assert!(segment_intersects_segment(&ra, &rb));
}

#[test]
fn depth_is_ignored() {
    let a = Segment(Point::new(-1, 0, 5), Point::new(1, 0, -9));
    let b = Segment(Point::new(0, -1, 100), Point::new(0, 1, 3));
    assert!(segment_intersects_segment(&a, &b));
}

#[test]
fn far_points_do_not_overflow() {
    let far = boxybox::geometry::FAR_LIMIT;
    let a = Segment(p(-far, -far), p(far, far));
    let b = Segment(p(-far, far), p(far, -far));
    assert!(segment_intersects_segment(&a, &b));
    let c = Segment(p(-far, far), p(-far + 1, far));
    assert!(!segment_intersects_segment(&a, &c));
}
