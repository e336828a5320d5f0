//! Walls: rectangles that block sight.

use crate::geometry::{
    lemma_denominators_are_opposite, lemma_intersection_ignores_direction,
    lemma_positions_name_one_point, quotient_in_unit_interval, s_denominator, s_numerator,
    segment_intersects_segment, segments_intersect, t_denominator, t_numerator, Point, Segment,
};
use vstd::prelude::*;

verus! {

/// An axis-aligned rectangular obstacle, given by two opposite corners.
///
/// With `y` growing upwards, `top_left` is the upper left corner.
#[derive(Clone, Copy, Debug, PartialEq, Eq, Structural)]
pub struct Occluder {
    pub top_left: Point,
    pub bottom_right: Point,
}

impl Occluder {
    /// The corners are the right way round and span a real rectangle.
    pub open spec fn well_formed(self) -> bool {
        &&& self.top_left.x < self.bottom_right.x
        &&& self.top_left.y > self.bottom_right.y
    }

    /// Both corners are points a scene may hold.
    pub open spec fn in_scene(self) -> bool {
        self.top_left.in_scene() && self.bottom_right.in_scene()
    }

    /// Both corners are points the engine can compute with.
    pub open spec fn in_reach(self) -> bool {
        self.top_left.in_reach() && self.bottom_right.in_reach()
    }

    /// The upper edge, from the left corner to the right.
    pub open spec fn top(self) -> Segment {
        Segment(self.top_left, Point { x: self.bottom_right.x, ..self.top_left })
    }

    /// The lower edge, from the left corner to the right.
    pub open spec fn bottom(self) -> Segment {
        Segment(Point { x: self.top_left.x, ..self.bottom_right }, self.bottom_right)
    }

    /// The left edge, from the upper corner down.
    pub open spec fn left(self) -> Segment {
        Segment(self.top_left, Point { y: self.bottom_right.y, ..self.top_left })
    }

    /// The right edge, from the upper corner down.
    pub open spec fn right(self) -> Segment {
        Segment(Point { y: self.top_left.y, ..self.bottom_right }, self.bottom_right)
    }

    /// The point stands, in the plane, on one of the four corners.
    pub open spec fn has_corner_at(self, p: Point) -> bool {
        &&& p.x == self.top_left.x || p.x == self.bottom_right.x
        &&& p.y == self.top_left.y || p.y == self.bottom_right.y
    }

    /// The four edges in the order every consumer relies on.
    pub open spec fn segments(self) -> Seq<Segment> {
        seq![self.top(), self.bottom(), self.left(), self.right()]
    }

    /// The wall between the two corners, if they are the right way round:
    /// `top_left` strictly to the left of and strictly above
    /// `bottom_right`.
    pub fn new(top_left: Point, bottom_right: Point) -> (occluder: Option<Occluder>)
        ensures
            occluder == if top_left.x < bottom_right.x && top_left.y > bottom_right.y {
                Some(Occluder { top_left, bottom_right })
            } else {
                None
            },
            occluder matches Some(wall) ==> wall.well_formed(),
    {
        if top_left.x < bottom_right.x && top_left.y > bottom_right.y {
            Some(Occluder { top_left, bottom_right })
        } else {
            None
        }
    }

    /// Whether both corners are points a scene may hold.
    pub fn fits_scene(&self) -> (fits: bool)
        ensures
            fits == self.in_scene(),
    {
        self.top_left.fits_scene() && self.bottom_right.fits_scene()
    }

    /// Whether the point stands, in the plane, on one of the four corners.
    pub fn corner_at(&self, p: &Point) -> (on_corner: bool)
        ensures
            on_corner == self.has_corner_at(*p),
    {
        (p.x == self.top_left.x || p.x == self.bottom_right.x) && (p.y == self.top_left.y || p.y
            == self.bottom_right.y)
    }

    /// The four edges: top, bottom, left, right.
    pub fn iter_segments(&self) -> (edges: [Segment; 4])
        ensures
            edges@ == self.segments(),
    {
        let top = Segment(
            self.top_left,
            Point { x: self.bottom_right.x, y: self.top_left.y, z: self.top_left.z },
        );
        let bottom = Segment(
            Point { x: self.top_left.x, y: self.bottom_right.y, z: self.bottom_right.z },
            self.bottom_right,
        );
        let left = Segment(
            self.top_left,
            Point { x: self.top_left.x, y: self.bottom_right.y, z: self.top_left.z },
        );
        let right = Segment(
            Point { x: self.bottom_right.x, y: self.top_left.y, z: self.bottom_right.z },
            self.bottom_right,
        );
        let edges = [top, bottom, left, right];
        assert(edges@ =~= self.segments());
        edges
    }
}

/// The segment crosses at least one edge of the occluder.
pub open spec fn segment_crosses_occluder(segment: Segment, occluder: Occluder) -> bool {
    exists|i: int|
        0 <= i < 4 && segments_intersect(segment, #[trigger] occluder.segments()[i])
}

/// The point lies in the rectangle of the wall, off its border.
pub open spec fn strictly_inside(p: Point, occluder: Occluder) -> bool {
    &&& occluder.top_left.x < p.x < occluder.bottom_right.x
    &&& occluder.bottom_right.y < p.y < occluder.top_left.y
}

/// A quotient between 0 and 1 is not one whose numerator exceeds its
/// denominator or has the other sign: the segment stays on one side of
/// the line the edge lies on.
proof fn lemma_misses_level(w: int, from: int, to: int, level: int)
    by (nonlinear_arith)
    requires
        w > 0,
        (from < level && to < level) || (from > level && to > level),
    ensures
        !quotient_in_unit_interval(w * (level - from), (to - from) * w),
{
}

/// The edge lies along `x` and runs to the right, or along `y` and runs
/// down: the two ways the edges of a wall run.
spec fn runs_along_axis(edge: Segment) -> bool {
    ||| edge.0.y == edge.1.y && edge.0.x < edge.1.x
    ||| edge.0.x == edge.1.x && edge.0.y > edge.1.y
}

/// A segment that stays strictly on one side of the line an edge lies on
/// does not cross the edge.
proof fn lemma_misses_edge(segment: Segment, edge: Segment)
    requires
        runs_along_axis(edge),
        edge.0.y == edge.1.y ==> (segment.0.y < edge.0.y && segment.1.y < edge.0.y) || (
        segment.0.y > edge.0.y && segment.1.y > edge.0.y),
        edge.0.x == edge.1.x ==> (segment.0.x < edge.0.x && segment.1.x < edge.0.x) || (
        segment.0.x > edge.0.x && segment.1.x > edge.0.x),
    ensures
        !segments_intersect(segment, edge),
{
    let sn = s_numerator(segment, edge);
    let sd = s_denominator(segment, edge);
    if edge.0.y == edge.1.y {
        let w = edge.1.x - edge.0.x;
        lemma_misses_level(w, segment.0.y as int, segment.1.y as int, edge.0.y as int);
        assert(sn == w * (edge.0.y - segment.0.y)) by (nonlinear_arith)
            requires
                sn == (edge.1.y - edge.0.y) * (segment.0.x - edge.0.x) - (edge.1.x - edge.0.x) * (
                segment.0.y - edge.0.y),
                edge.0.y == edge.1.y,
                w == edge.1.x - edge.0.x,
        ;
        assert(sd == (segment.1.y - segment.0.y) * w) by (nonlinear_arith)
            requires
                sd == (segment.1.y - segment.0.y) * (edge.1.x - edge.0.x) - (segment.1.x
                    - segment.0.x) * (edge.1.y - edge.0.y),
                edge.0.y == edge.1.y,
                w == edge.1.x - edge.0.x,
        ;
    } else {
        let w = edge.0.y - edge.1.y;
        lemma_misses_level(w, segment.0.x as int, segment.1.x as int, edge.0.x as int);
        assert(sn == w * (edge.0.x - segment.0.x)) by (nonlinear_arith)
            requires
                sn == (edge.1.y - edge.0.y) * (segment.0.x - edge.0.x) - (edge.1.x - edge.0.x) * (
                segment.0.y - edge.0.y),
                edge.0.x == edge.1.x,
                w == edge.0.y - edge.1.y,
        ;
        assert(sd == (segment.1.x - segment.0.x) * w) by (nonlinear_arith)
            requires
                sd == (segment.1.y - segment.0.y) * (edge.1.x - edge.0.x) - (segment.1.x
                    - segment.0.x) * (edge.1.y - edge.0.y),
                edge.0.x == edge.1.x,
                w == edge.0.y - edge.1.y,
        ;
    }
}

/// A point part of the way from one number to another lies between the
/// two; here everything is scaled by `d`, the denominator of the part.
proof fn lemma_between_ends(d: int, n: int, from: int, to: int, meet: int)
    by (nonlinear_arith)
    requires
        (d > 0 && 0 <= n <= d) || (d < 0 && d <= n <= 0),
        meet == d * from + n * (to - from),
    ensures
        d * from <= meet <= d * to || d * to <= meet <= d * from,
{
}

/// Scaling by a number that is not zero keeps order or turns it round.
proof fn lemma_scaled_order(d: int, x: int, y: int)
    by (nonlinear_arith)
    requires
        d != 0,
        x < y,
    ensures
        d > 0 ==> d * x < d * y,
        d < 0 ==> d * x > d * y,
{
}

/// Two stretches of one axis that lie apart have no point in common:
/// no point can be part of the way along both.
proof fn lemma_stretches_apart(
    d: int,
    sn: int,
    tn: int,
    a0: int,
    a1: int,
    b0: int,
    b1: int,
)
    requires
        quotient_in_unit_interval(sn, d),
        quotient_in_unit_interval(tn, -d),
        d * a0 + sn * (a1 - a0) == d * b0 - tn * (b1 - b0),
    ensures
        !(a0 < b0 && a0 < b1 && a1 < b0 && a1 < b1),
        !(a0 > b0 && a0 > b1 && a1 > b0 && a1 > b1),
{
    let meet = d * a0 + sn * (a1 - a0);
    lemma_between_ends(d, sn, a0, a1, meet);
    assert((-tn) * (b1 - b0) == -(tn * (b1 - b0))) by (nonlinear_arith);
    lemma_between_ends(d, -tn, b0, b1, meet);
    if a0 < b0 && a0 < b1 && a1 < b0 && a1 < b1 {
        lemma_scaled_order(d, a0, b0);
        lemma_scaled_order(d, a0, b1);
        lemma_scaled_order(d, a1, b0);
        lemma_scaled_order(d, a1, b1);
    }
    if a0 > b0 && a0 > b1 && a1 > b0 && a1 > b1 {
        lemma_scaled_order(d, b0, a0);
        lemma_scaled_order(d, b1, a0);
        lemma_scaled_order(d, b0, a1);
        lemma_scaled_order(d, b1, a1);
    }
}

/// A segment that stays beyond one end of an edge, measured along the
/// edge, does not cross it.
proof fn lemma_misses_span(segment: Segment, edge: Segment)
    requires
        runs_along_axis(edge),
        edge.0.y == edge.1.y ==> (segment.0.x < edge.0.x && segment.1.x < edge.0.x) || (
        segment.0.x > edge.1.x && segment.1.x > edge.1.x),
        edge.0.x == edge.1.x ==> (segment.0.y < edge.1.y && segment.1.y < edge.1.y) || (
        segment.0.y > edge.0.y && segment.1.y > edge.0.y),
    ensures
        !segments_intersect(segment, edge),
{
    lemma_positions_name_one_point(segment, edge);
    lemma_denominators_are_opposite(segment, edge);
    if segments_intersect(segment, edge) {
        let sn = s_numerator(segment, edge);
        let sd = s_denominator(segment, edge);
        let tn = t_numerator(segment, edge);
        if edge.0.y == edge.1.y {
            lemma_stretches_apart(
                sd,
                sn,
                tn,
                segment.0.x as int,
                segment.1.x as int,
                edge.0.x as int,
                edge.1.x as int,
            );
        } else {
            lemma_stretches_apart(
                sd,
                sn,
                tn,
                segment.0.y as int,
                segment.1.y as int,
                edge.0.y as int,
                edge.1.y as int,
            );
        }
    }
}

/// A point part of the way along a segment strays no further sideways
/// than the ends of the segment do.
proof fn lemma_sideways_bound(p: int, k: int, q: int, u: int, v: int)
    by (nonlinear_arith)
    requires
        p > 0,
        0 <= k <= p,
        -v <= q <= u,
        u >= 0,
        v >= 0,
    ensures
        q * k <= u * p,
        q * k >= -(v * p),
        0 <= k * (u + v) <= p * (u + v),
{
}

/// A segment that reaches the line of an upright edge from its left, and
/// stays between the heights of the two ends of the edge, crosses it.
proof fn lemma_crosses_upright_edge(segment: Segment, edge: Segment)
    requires
        edge.0.x == edge.1.x,
        edge.0.y > edge.1.y,
        segment.0.x <= edge.0.x <= segment.1.x,
        segment.0.x < segment.1.x,
        edge.1.y <= segment.0.y <= edge.0.y,
        edge.1.y <= segment.1.y <= edge.0.y,
    ensures
        segments_intersect(segment, edge),
{
    let p = segment.1.x - segment.0.x;
    let k = edge.0.x - segment.0.x;
    let q = segment.1.y - segment.0.y;
    let u = edge.0.y - segment.0.y;
    let v = segment.0.y - edge.1.y;
    let w = u + v;
    lemma_sideways_bound(p, k, q, u, v);
    let sn = s_numerator(segment, edge);
    let sd = s_denominator(segment, edge);
    let tn = t_numerator(segment, edge);
    let td = t_denominator(segment, edge);
    assert(sn == k * w && sd == p * w && tn == q * k - u * p && td == -(p * w) && p * w == u * p
        + v * p && p * w > 0) by (nonlinear_arith)
        requires
            sn == (edge.1.y - edge.0.y) * (segment.0.x - edge.0.x) - (edge.1.x - edge.0.x) * (
            segment.0.y - edge.0.y),
            sd == (segment.1.y - segment.0.y) * (edge.1.x - edge.0.x) - (segment.1.x
                - segment.0.x) * (edge.1.y - edge.0.y),
            tn == (segment.1.y - segment.0.y) * (edge.0.x - segment.0.x) + (segment.1.x
                - segment.0.x) * (segment.0.y - edge.0.y),
            td == (segment.1.x - segment.0.x) * (edge.1.y - edge.0.y) - (segment.1.y
                - segment.0.y) * (edge.1.x - edge.0.x),
            edge.0.x == edge.1.x,
            p == segment.1.x - segment.0.x,
            k == edge.0.x - segment.0.x,
            q == segment.1.y - segment.0.y,
            u == edge.0.y - segment.0.y,
            v == segment.0.y - edge.1.y,
            w == u + v,
            w > 0,
            p > 0,
    ;
}

/// A segment that reaches the line of a level edge from below, and stays
/// between the two ends of the edge, crosses it.
proof fn lemma_crosses_level_edge(segment: Segment, edge: Segment)
    requires
        edge.0.y == edge.1.y,
        edge.0.x < edge.1.x,
        segment.0.y <= edge.0.y <= segment.1.y,
        segment.0.y < segment.1.y,
        edge.0.x <= segment.0.x <= edge.1.x,
        edge.0.x <= segment.1.x <= edge.1.x,
    ensures
        segments_intersect(segment, edge),
{
    let p = segment.1.y - segment.0.y;
    let k = edge.0.y - segment.0.y;
    let q = segment.1.x - segment.0.x;
    let u = edge.1.x - segment.0.x;
    let v = segment.0.x - edge.0.x;
    let w = u + v;
    lemma_sideways_bound(p, k, q, u, v);
    let sn = s_numerator(segment, edge);
    let sd = s_denominator(segment, edge);
    let tn = t_numerator(segment, edge);
    let td = t_denominator(segment, edge);
    assert(sn == k * w && sd == p * w && tn == -(v * p) - q * k && td == -(p * w) && p * w == u
        * p + v * p && p * w > 0) by (nonlinear_arith)
        requires
            sn == (edge.1.y - edge.0.y) * (segment.0.x - edge.0.x) - (edge.1.x - edge.0.x) * (
            segment.0.y - edge.0.y),
            sd == (segment.1.y - segment.0.y) * (edge.1.x - edge.0.x) - (segment.1.x
                - segment.0.x) * (edge.1.y - edge.0.y),
            tn == (segment.1.y - segment.0.y) * (edge.0.x - segment.0.x) + (segment.1.x
                - segment.0.x) * (segment.0.y - edge.0.y),
            td == (segment.1.x - segment.0.x) * (edge.1.y - edge.0.y) - (segment.1.y
                - segment.0.y) * (edge.1.x - edge.0.x),
            edge.0.y == edge.1.y,
            p == segment.1.y - segment.0.y,
            k == edge.0.y - segment.0.y,
            q == segment.1.x - segment.0.x,
            u == edge.1.x - segment.0.x,
            v == segment.0.x - edge.0.x,
            w == u + v,
            w > 0,
            p > 0,
    ;
}

/// The segment runs across the wall from side to side: its ends lie on
/// or beyond opposite sides, the left and the right one, and between the
/// heights of top and bottom; or on or beyond top and bottom, and between
/// left and right.
pub open spec fn runs_across(segment: Segment, occluder: Occluder) -> bool {
    let (a, b) = (segment.0, segment.1);
    let (left, right) = (occluder.top_left.x, occluder.bottom_right.x);
    let (top, bottom) = (occluder.top_left.y, occluder.bottom_right.y);
    ||| bottom <= a.y <= top && bottom <= b.y <= top && ((a.x <= left && b.x >= right) || (b.x
        <= left && a.x >= right))
    ||| left <= a.x <= right && left <= b.x <= right && ((a.y <= bottom && b.y >= top) || (b.y
        <= bottom && a.y >= top))
}

/// A wall blocks every segment that runs across it from side to side.
pub proof fn lemma_segment_across_wall_is_blocked(segment: Segment, occluder: Occluder)
    requires
        occluder.well_formed(),
        runs_across(segment, occluder),
    ensures
        segment_crosses_occluder(segment, occluder),
{
    let (a, b) = (segment.0, segment.1);
    let (left, right) = (occluder.top_left.x, occluder.bottom_right.x);
    let (top, bottom) = (occluder.top_left.y, occluder.bottom_right.y);
    lemma_intersection_ignores_direction(segment, occluder.left());
    lemma_intersection_ignores_direction(segment, occluder.top());
    if bottom <= a.y <= top && bottom <= b.y <= top && ((a.x <= left && b.x >= right) || (b.x
        <= left && a.x >= right)) {
        if a.x <= left {
            lemma_crosses_upright_edge(segment, occluder.left());
        } else {
            lemma_crosses_upright_edge(segment.reversed(), occluder.left());
        }
        assert(occluder.segments()[2] == occluder.left());
    } else {
        if a.y <= bottom {
            lemma_crosses_level_edge(segment, occluder.top());
        } else {
            lemma_crosses_level_edge(segment.reversed(), occluder.top());
        }
        assert(occluder.segments()[0] == occluder.top());
    }
}

/// A segment between two points inside a wall crosses none of its edges:
/// a wall hides what is behind it, not what is in it.
pub proof fn lemma_segment_inside_wall_is_not_blocked(segment: Segment, occluder: Occluder)
    requires
        occluder.well_formed(),
        strictly_inside(segment.0, occluder),
        strictly_inside(segment.1, occluder),
    ensures
        !segment_crosses_occluder(segment, occluder),
{
    lemma_misses_edge(segment, occluder.top());
    lemma_misses_edge(segment, occluder.bottom());
    lemma_misses_edge(segment, occluder.left());
    lemma_misses_edge(segment, occluder.right());
}

/// A segment that stays strictly to one side of a wall (above it, below
/// it, to its left or to its right) is not blocked by it.
pub proof fn lemma_segment_beside_wall_is_not_blocked(segment: Segment, occluder: Occluder)
    requires
        occluder.well_formed(),
        (segment.0.y > occluder.top_left.y && segment.1.y > occluder.top_left.y) || (segment.0.y
            < occluder.bottom_right.y && segment.1.y < occluder.bottom_right.y) || (segment.0.x
            < occluder.top_left.x && segment.1.x < occluder.top_left.x) || (segment.0.x
            > occluder.bottom_right.x && segment.1.x > occluder.bottom_right.x),
    ensures
        !segment_crosses_occluder(segment, occluder),
{
    let above = segment.0.y > occluder.top_left.y && segment.1.y > occluder.top_left.y;
    let below = segment.0.y < occluder.bottom_right.y && segment.1.y < occluder.bottom_right.y;
    if above || below {
        lemma_misses_edge(segment, occluder.top());
        lemma_misses_edge(segment, occluder.bottom());
        lemma_misses_span(segment, occluder.left());
        lemma_misses_span(segment, occluder.right());
    } else {
        lemma_misses_edge(segment, occluder.left());
        lemma_misses_edge(segment, occluder.right());
        lemma_misses_span(segment, occluder.top());
        lemma_misses_span(segment, occluder.bottom());
    }
}

/// Decides whether a segment crosses the boundary of an occluder.
pub fn segment_intersects_occluder(segment: &Segment, occluder: &Occluder) -> (blocked: bool)
    requires
        segment.in_reach(),
        occluder.in_reach(),
    ensures
        blocked == segment_crosses_occluder(*segment, *occluder),
{
    let edges = occluder.iter_segments();
    let mut i: usize = 0;
    while i < 4
        invariant
            0 <= i <= 4,
            segment.in_reach(),
            occluder.in_reach(),
            edges@ == occluder.segments(),
            forall|j: int| 0 <= j < i ==> !segments_intersect(*segment, #[trigger] edges@[j]),
        decreases 4 - i,
    {
        if segment_intersects_segment(segment, &edges[i]) {
            return true;
        }
        i += 1;
    }
    false
}

} // verus!
