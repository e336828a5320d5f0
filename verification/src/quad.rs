//! Quadrilaterals and the order of their corners around their centre.

use crate::geometry::{cross, lemma_product_bound, Point, FAR_LIMIT};
use vstd::prelude::*;

verus! {

/// Four corners, in whatever order they were found.
#[derive(Clone, Copy, Debug, PartialEq, Eq, Structural)]
pub struct Quad(pub Point, pub Point, pub Point, pub Point);

/// Which quarter turn a direction belongs to, counted counter-clockwise
/// from the positive `x` axis: 0 for the axis itself (and for no direction
/// at all), 1 above it, 2 for the negative axis, 3 below.
pub open spec fn sector(vx: int, vy: int) -> int {
    if vy > 0 {
        1
    } else if vy < 0 {
        3
    } else if vx >= 0 {
        0
    } else {
        2
    }
}

/// The direction `u` makes a smaller counter-clockwise angle with the
/// positive `x` axis than the direction `v`, angles taken from 0 up to,
/// not including, a full turn.
pub open spec fn angle_before(ux: int, uy: int, vx: int, vy: int) -> bool {
    sector(ux, uy) < sector(vx, vy) || (sector(ux, uy) == sector(vx, vy) && cross(ux, uy, vx, vy)
        > 0)
}

/// The identity that lets three directions be compared in pairs.
proof fn lemma_cross_chain(ax: int, ay: int, bx: int, by: int, cx: int, cy: int)
    ensures
        cross(ax, ay, bx, by) * cy + cross(bx, by, cx, cy) * ay == by * cross(ax, ay, cx, cy),
{
    assert((ax * by - ay * bx) * cy == (ax * by) * cy - (ay * bx) * cy) by (nonlinear_arith);
    assert((bx * cy - by * cx) * ay == (bx * cy) * ay - (by * cx) * ay) by (nonlinear_arith);
    assert(by * (ax * cy - ay * cx) == by * (ax * cy) - by * (ay * cx)) by (nonlinear_arith);
    assert((ax * by) * cy == by * (ax * cy)) by (nonlinear_arith);
    assert((ay * bx) * cy == (bx * cy) * ay) by (nonlinear_arith);
    assert((by * cx) * ay == by * (ay * cx)) by (nonlinear_arith);
}

/// Signs of a sum of two products with factors of one sign.
proof fn lemma_weighted_sign(p: int, q: int, w1: int, w2: int, m: int, r: int)
    by (nonlinear_arith)
    requires
        p * w1 + q * w2 == m * r,
        (w1 > 0 && w2 > 0 && m > 0) || (w1 < 0 && w2 < 0 && m < 0),
    ensures
        p > 0 && q > 0 ==> r > 0,
        p <= 0 && q <= 0 ==> r <= 0,
        p >= 0 && q > 0 ==> r > 0,
        p > 0 && q >= 0 ==> r > 0,
{
}

/// Directions along the `x` axis are all parallel.
proof fn lemma_cross_on_axis(ux: int, vx: int)
    by (nonlinear_arith)
    ensures
        cross(ux, 0, vx, 0) == 0,
{
}

/// A smaller angle than a smaller angle is a smaller angle.
pub proof fn lemma_angle_before_is_transitive(
    ax: int,
    ay: int,
    bx: int,
    by: int,
    cx: int,
    cy: int,
)
    requires
        angle_before(ax, ay, bx, by),
        angle_before(bx, by, cx, cy),
    ensures
        angle_before(ax, ay, cx, cy),
{
    if sector(ax, ay) == sector(bx, by) && sector(bx, by) == sector(cx, cy) {
        if ay == 0 {
            lemma_cross_on_axis(ax, bx);
        } else {
            lemma_cross_chain(ax, ay, bx, by, cx, cy);
            lemma_weighted_sign(
                cross(ax, ay, bx, by),
                cross(bx, by, cx, cy),
                cy,
                ay,
                by,
                cross(ax, ay, cx, cy),
            );
        }
    }
}

/// If neither of two angles is smaller than the next, the first is not
/// smaller than the last.
pub proof fn lemma_angle_not_before_is_transitive(
    ax: int,
    ay: int,
    bx: int,
    by: int,
    cx: int,
    cy: int,
)
    requires
        !angle_before(ax, ay, bx, by),
        !angle_before(bx, by, cx, cy),
    ensures
        !angle_before(ax, ay, cx, cy),
{
    if sector(ax, ay) == sector(bx, by) && sector(bx, by) == sector(cx, cy) {
        if ay == 0 {
            lemma_cross_on_axis(ax, cx);
        } else {
            lemma_cross_chain(ax, ay, bx, by, cx, cy);
            lemma_weighted_sign(
                cross(ax, ay, bx, by),
                cross(bx, by, cx, cy),
                cy,
                ay,
                by,
                cross(ax, ay, cx, cy),
            );
        }
    }
}

/// No angle is smaller than itself, and of two angles at most one is the
/// smaller.
pub proof fn lemma_angle_before_is_asymmetric(ax: int, ay: int, bx: int, by: int)
    ensures
        !angle_before(ax, ay, ax, ay),
        angle_before(ax, ay, bx, by) ==> !angle_before(bx, by, ax, ay),
{
    assert(cross(ax, ay, ax, ay) == 0) by (nonlinear_arith);
    assert(cross(bx, by, ax, ay) == -cross(ax, ay, bx, by)) by (nonlinear_arith);
}

/// 1 for a true statement, 0 for a false one.
pub open spec fn count(holds: bool) -> int {
    if holds {
        1
    } else {
        0
    }
}

impl Quad {
    /// All four corners are points the engine can compute with.
    pub open spec fn in_reach(self) -> bool {
        self.0.in_reach() && self.1.in_reach() && self.2.in_reach() && self.3.in_reach()
    }

    /// The corners as a sequence, in the order they are stored.
    pub open spec fn corners(self) -> Seq<Point> {
        seq![self.0, self.1, self.2, self.3]
    }

    /// Four times the way from the barycentre to corner `i`, along `x`.
    /// The barycentre is the mean of the corners; the factor keeps the
    /// arm an integer and leaves its direction alone.
    pub open spec fn arm_x(self, i: int) -> int {
        4 * self.corners()[i].x - (self.0.x + self.1.x + self.2.x + self.3.x)
    }

    /// Four times the way from the barycentre to corner `i`, along `y`.
    pub open spec fn arm_y(self, i: int) -> int {
        4 * self.corners()[i].y - (self.0.y + self.1.y + self.2.y + self.3.y)
    }

    /// Seen from the barycentre, corner `i` lies at a smaller
    /// counter-clockwise angle than corner `j`.
    pub open spec fn before(self, i: int, j: int) -> bool {
        angle_before(self.arm_x(i), self.arm_y(i), self.arm_x(j), self.arm_y(j))
    }

    /// Corner `i` comes ahead of corner `j` when the corners are put in
    /// counter-clockwise order: it lies at a smaller angle, or at the same
    /// angle and was stored first.
    pub open spec fn precedes(self, i: int, j: int) -> bool {
        self.before(i, j) || (!self.before(j, i) && i < j)
    }

    /// The place of corner `i` in counter-clockwise order: the number of
    /// corners that come ahead of it.
    pub open spec fn rank(self, i: int) -> int {
        count(self.precedes(0, i)) + count(self.precedes(1, i)) + count(self.precedes(2, i))
            + count(self.precedes(3, i))
    }

    /// Which corner stands at place `k` of the counter-clockwise order.
    pub open spec fn corner_at(self, k: int) -> int {
        if self.rank(0) == k {
            0
        } else if self.rank(1) == k {
            1
        } else if self.rank(2) == k {
            2
        } else {
            3
        }
    }

    /// The corners in counter-clockwise order around their barycentre,
    /// corners at one angle in the order they are stored.
    pub open spec fn sorted_corners(self) -> Seq<Point> {
        Seq::new(4, |k: int| self.corners()[self.corner_at(k)])
    }

    /// The point lies in the quadrilateral or on its border: walking the
    /// corners in counter-clockwise order, it is never on the right.
    pub open spec fn contains(self, p: Point) -> bool {
        let c = self.sorted_corners();
        &&& on_left(c[0], c[1], p)
        &&& on_left(c[1], c[2], p)
        &&& on_left(c[2], c[3], p)
        &&& on_left(c[3], c[0], p)
    }

    /// The point is enclosed by the outline that runs through the corners
    /// in the order they are stored: walking that outline one way round or
    /// the other, the point is never on the right.
    pub open spec fn encloses(self, p: Point) -> bool {
        ||| on_left(self.0, self.1, p) && on_left(self.1, self.2, p) && on_left(self.2, self.3, p)
            && on_left(self.3, self.0, p)
        ||| on_left(self.1, self.0, p) && on_left(self.2, self.1, p) && on_left(self.3, self.2, p)
            && on_left(self.0, self.3, p)
    }

    /// How far, seen from the barycentre, the way turns from corner `i`
    /// to corner `j`: positive for a turn to the left of less than half a
    /// turn.
    pub open spec fn turn(self, i: int, j: int) -> int {
        cross(self.arm_x(i), self.arm_y(i), self.arm_x(j), self.arm_y(j))
    }

    /// The corners are stored counter-clockwise around a figure that
    /// bulges everywhere: seen from the barycentre, each lies strictly to
    /// the left of the one before, all the way round.
    pub open spec fn runs_counter_clockwise(self) -> bool {
        self.turn(0, 1) > 0 && self.turn(1, 2) > 0 && self.turn(2, 3) > 0 && self.turn(3, 0) > 0
    }

    /// The corners are stored clockwise around a figure that bulges
    /// everywhere.
    pub open spec fn runs_clockwise(self) -> bool {
        self.turn(1, 0) > 0 && self.turn(2, 1) > 0 && self.turn(3, 2) > 0 && self.turn(0, 3) > 0
    }

    /// Coming ahead is an order: of three corners, the first comes ahead
    /// of the third if it comes ahead of the second and that of the third.
    pub proof fn lemma_precedes_is_transitive(self, i: int, j: int, k: int)
        requires
            self.precedes(i, j),
            self.precedes(j, k),
        ensures
            self.precedes(i, k),
    {
        let (ax, ay) = (self.arm_x(i), self.arm_y(i));
        let (bx, by) = (self.arm_x(j), self.arm_y(j));
        let (cx, cy) = (self.arm_x(k), self.arm_y(k));
        lemma_angle_before_is_asymmetric(ax, ay, bx, by);
        lemma_angle_before_is_asymmetric(bx, by, cx, cy);
        lemma_angle_before_is_asymmetric(ax, ay, cx, cy);
        if self.before(i, j) && self.before(j, k) {
            lemma_angle_before_is_transitive(ax, ay, bx, by, cx, cy);
        } else if self.before(i, j) {
            // j and k share an angle
            if !self.before(i, k) {
                lemma_angle_not_before_is_transitive(ax, ay, cx, cy, bx, by);
            }
        } else if self.before(j, k) {
            // i and j share an angle
            if !self.before(i, k) {
                lemma_angle_not_before_is_transitive(bx, by, ax, ay, cx, cy);
            }
        } else {
            lemma_angle_not_before_is_transitive(cx, cy, bx, by, ax, ay);
            lemma_angle_not_before_is_transitive(ax, ay, bx, by, cx, cy);
        }
    }

    /// Of two different corners exactly one comes ahead of the other, and
    /// no corner comes ahead of itself.
    pub proof fn lemma_precedes_is_total(self, i: int, j: int)
        ensures
            !self.precedes(i, i),
            i != j ==> (self.precedes(i, j) <==> !self.precedes(j, i)),
    {
        lemma_angle_before_is_asymmetric(
            self.arm_x(i),
            self.arm_y(i),
            self.arm_x(j),
            self.arm_y(j),
        );
    }

    /// A corner that comes ahead of another has the smaller rank.
    pub proof fn lemma_rank_follows_order(self, i: int, j: int)
        requires
            0 <= i < 4,
            self.precedes(i, j),
        ensures
            self.rank(i) < self.rank(j),
    {
        self.lemma_precedes_is_total(i, i);
        if self.precedes(0, i) {
            self.lemma_precedes_is_transitive(0, i, j);
        }
        if self.precedes(1, i) {
            self.lemma_precedes_is_transitive(1, i, j);
        }
        if self.precedes(2, i) {
            self.lemma_precedes_is_transitive(2, i, j);
        }
        if self.precedes(3, i) {
            self.lemma_precedes_is_transitive(3, i, j);
        }
    }

    /// In counter-clockwise order every corner stands at the place its
    /// rank names, and the corner at an earlier place comes ahead of the
    /// corner at a later one.
    pub proof fn lemma_sorted_corners_are_in_order(self)
        ensures
            forall|i: int|
                0 <= i < 4 ==> self.sorted_corners()[#[trigger] self.rank(i)]
                    == self.corners()[i],
            forall|k: int, l: int|
                0 <= k < l < 4 ==> self.precedes(
                    #[trigger] self.corner_at(k),
                    #[trigger] self.corner_at(l),
                ),
    {
        self.lemma_ranks_are_a_permutation();
        assert forall|k: int, l: int| 0 <= k < l < 4 implies self.precedes(
            #[trigger] self.corner_at(k),
            #[trigger] self.corner_at(l),
        ) by {
            let i = self.corner_at(k);
            let j = self.corner_at(l);
            assert(self.rank(i) == k);
            assert(self.rank(j) == l);
            self.lemma_precedes_is_total(i, j);
            if self.precedes(j, i) {
                self.lemma_rank_follows_order(j, i);
            }
        }
    }

    /// Where corner `j` lies strictly to the left of corner `i`, it comes
    /// after `i` unless the way from `i` to `j` passes the direction all
    /// angles are counted from: unless `i` lies below that axis and `j` on
    /// or above it.
    proof fn lemma_step_to_the_left(self, i: int, j: int)
        requires
            self.turn(i, j) > 0,
        ensures
            self.precedes(j, i) <==> self.arm_y(i) < 0 && self.arm_y(j) >= 0,
            self.precedes(i, j) <==> !(self.arm_y(i) < 0 && self.arm_y(j) >= 0),
    {
        let (ux, uy) = (self.arm_x(i), self.arm_y(i));
        let (vx, vy) = (self.arm_x(j), self.arm_y(j));
        lemma_angle_before_is_asymmetric(ux, uy, vx, vy);
        assert(cross(ux, uy, vx, vy) > 0);
        if uy == 0 && vy == 0 {
            lemma_cross_on_axis(ux, vx);
        }
        if uy == 0 {
            assert(cross(ux, uy, vx, vy) == ux * vy) by (nonlinear_arith)
                requires
                    uy == 0,
            ;
            assert(ux > 0 ==> vy > 0) by (nonlinear_arith)
                requires
                    ux * vy > 0,
            ;
            assert(ux < 0 ==> vy < 0) by (nonlinear_arith)
                requires
                    ux * vy > 0,
            ;
            assert(ux != 0) by (nonlinear_arith)
                requires
                    ux * vy > 0,
            ;
        } else if vy == 0 {
            assert(cross(ux, uy, vx, vy) == -(uy * vx)) by (nonlinear_arith)
                requires
                    vy == 0,
            ;
            assert(uy > 0 ==> vx < 0) by (nonlinear_arith)
                requires
                    -(uy * vx) > 0,
            ;
            assert(uy < 0 ==> vx > 0) by (nonlinear_arith)
                requires
                    -(uy * vx) > 0,
            ;
        }
    }

    /// Two steps to the left cannot both pass the direction angles are
    /// counted from, if two more steps to the left lead from the end of
    /// each to the start of the other.
    proof fn lemma_one_way_round(self, a: int, b: int, c: int, d: int)
        requires
            self.turn(a, b) > 0,
            self.turn(b, c) > 0,
            self.turn(c, d) > 0,
            self.turn(d, a) > 0,
        ensures
            !(self.arm_y(a) < 0 && self.arm_y(b) >= 0 && self.arm_y(c) < 0 && self.arm_y(d) >= 0),
    {
        let (ux, uy) = (self.arm_x(a), self.arm_y(a));
        let (vx, vy) = (self.arm_x(b), self.arm_y(b));
        let (wx, wy) = (self.arm_x(c), self.arm_y(c));
        let (zx, zy) = (self.arm_x(d), self.arm_y(d));
        if uy < 0 && vy >= 0 && wy < 0 && zy >= 0 {
            lemma_cross_chain(ux, uy, vx, vy, wx, wy);
            lemma_cross_chain(wx, wy, zx, zy, ux, uy);
            let across = cross(ux, uy, wx, wy);
            assert(cross(wx, wy, ux, uy) == -across) by (nonlinear_arith)
                requires
                    across == ux * wy - uy * wx,
                    cross(wx, wy, ux, uy) == wx * uy - wy * ux,
            ;
            assert(vy * across < 0) by (nonlinear_arith)
                requires
                    cross(ux, uy, vx, vy) * wy + cross(vx, vy, wx, wy) * uy == vy * across,
                    cross(ux, uy, vx, vy) > 0,
                    cross(vx, vy, wx, wy) > 0,
                    wy < 0,
                    uy < 0,
            ;
            assert(zy * (-across) < 0) by (nonlinear_arith)
                requires
                    cross(wx, wy, zx, zy) * uy + cross(zx, zy, ux, uy) * wy == zy * (-across),
                    cross(wx, wy, zx, zy) > 0,
                    cross(zx, zy, ux, uy) > 0,
                    wy < 0,
                    uy < 0,
            ;
            assert(false) by (nonlinear_arith)
                requires
                    vy * across < 0,
                    zy * (-across) < 0,
                    vy >= 0,
                    zy >= 0,
            ;
        }
    }

    /// Four corners of which each comes ahead of the next stand at the
    /// places 0 to 3 in that order.
    proof fn lemma_order_gives_places(self, a: int, b: int, c: int, d: int, p: Point)
        requires
            0 <= a < 4 && 0 <= b < 4 && 0 <= c < 4 && 0 <= d < 4,
            a != b && a != c && a != d && b != c && b != d && c != d,
            self.precedes(a, b),
            self.precedes(a, c),
            self.precedes(a, d),
            self.precedes(b, c),
            self.precedes(b, d),
            self.precedes(c, d),
        ensures
            self.sorted_corners() == seq![
                self.corners()[a],
                self.corners()[b],
                self.corners()[c],
                self.corners()[d],
            ],
            self.contains(p) == (on_left(self.corners()[a], self.corners()[b], p) && on_left(
                self.corners()[b],
                self.corners()[c],
                p,
            ) && on_left(self.corners()[c], self.corners()[d], p) && on_left(
                self.corners()[d],
                self.corners()[a],
                p,
            )),
    {
        self.lemma_precedes_is_total(a, a);
        self.lemma_precedes_is_total(b, b);
        self.lemma_precedes_is_total(c, c);
        self.lemma_precedes_is_total(d, d);
        self.lemma_precedes_is_total(a, b);
        self.lemma_precedes_is_total(a, c);
        self.lemma_precedes_is_total(a, d);
        self.lemma_precedes_is_total(b, c);
        self.lemma_precedes_is_total(b, d);
        self.lemma_precedes_is_total(c, d);
        assert(self.rank(a) == 0);
        assert(self.rank(b) == 1);
        assert(self.rank(c) == 2);
        assert(self.rank(d) == 3);
        assert(self.corner_at(0) == a);
        assert(self.corner_at(1) == b);
        assert(self.corner_at(2) == c);
        assert(self.corner_at(3) == d);
        assert(self.sorted_corners() =~= seq![
            self.corners()[a],
            self.corners()[b],
            self.corners()[c],
            self.corners()[d],
        ]);
    }

    /// Corners `i` and `j` stand in the same place of the plane.
    pub open spec fn same_place(self, i: int, j: int) -> bool {
        self.corners()[i].x == self.corners()[j].x && self.corners()[i].y == self.corners()[j].y
    }

    /// Corners in the same place have the same arm, and neither comes
    /// ahead of the other but by the order they are stored in.
    proof fn lemma_step_on_the_spot(self, i: int, j: int)
        requires
            0 <= i < 4,
            0 <= j < 4,
            self.same_place(i, j),
        ensures
            self.arm_x(i) == self.arm_x(j),
            self.arm_y(i) == self.arm_y(j),
            self.precedes(i, j) <==> i < j,
            self.precedes(j, i) <==> j < i,
    {
        lemma_angle_before_is_asymmetric(
            self.arm_x(i),
            self.arm_y(i),
            self.arm_x(j),
            self.arm_y(j),
        );
    }

    /// Two arms that point in opposite directions have different angles:
    /// one of the two corners comes ahead of the other whatever the order
    /// they are stored in.
    proof fn lemma_step_half_way_round(self, i: int, j: int)
        requires
            self.arm_x(j) == -self.arm_x(i),
            self.arm_y(j) == -self.arm_y(i),
            self.arm_x(i) != 0 || self.arm_y(i) != 0,
        ensures
            self.before(i, j) != self.before(j, i),
            self.precedes(i, j) == self.before(i, j),
            self.precedes(j, i) == self.before(j, i),
    {
        lemma_angle_before_is_asymmetric(
            self.arm_x(i),
            self.arm_y(i),
            self.arm_x(j),
            self.arm_y(j),
        );
    }

    /// The corners `a`, `b`, `c`, `d` follow each other counter-clockwise
    /// round the barycentre, where `a` and `b` may stand in one place and
    /// so may `c` and `d`; if both pairs do, the two places differ.
    pub open spec fn goes_round(self, a: int, b: int, c: int, d: int) -> bool {
        &&& self.turn(a, b) > 0 || self.same_place(a, b)
        &&& self.turn(c, d) > 0 || self.same_place(c, d)
        &&& (self.turn(b, c) > 0 && self.turn(d, a) > 0) || (self.same_place(a, b)
            && self.same_place(c, d) && !self.same_place(b, c))
    }

    /// A quadrilateral whose corners are stored in order round its
    /// outline, one way or the other, contains exactly the points that
    /// are not on the right of any of its sides, walked counter-clockwise.
    /// Two corners next to each other may stand in one place, as they do
    /// where a ray ends on the very point it passes through.
    pub proof fn lemma_sorting_keeps_the_outline(self, a: int, b: int, c: int, d: int, p: Point)
        requires
            (a == 0 && b == 1 && c == 2 && d == 3) || (a == 3 && b == 2 && c == 1 && d == 0),
            self.goes_round(a, b, c, d),
        ensures
            self.contains(p) == (on_left(self.corners()[a], self.corners()[b], p) && on_left(
                self.corners()[b],
                self.corners()[c],
                p,
            ) && on_left(self.corners()[c], self.corners()[d], p) && on_left(
                self.corners()[d],
                self.corners()[a],
                p,
            )),
    {
        if self.turn(a, b) > 0 {
            self.lemma_step_to_the_left(a, b);
        } else {
            self.lemma_step_on_the_spot(a, b);
        }
        if self.turn(c, d) > 0 {
            self.lemma_step_to_the_left(c, d);
        } else {
            self.lemma_step_on_the_spot(c, d);
        }
        if self.turn(b, c) > 0 && self.turn(d, a) > 0 {
            self.lemma_step_to_the_left(b, c);
            self.lemma_step_to_the_left(d, a);
            if self.turn(a, b) > 0 && self.turn(c, d) > 0 {
                self.lemma_one_way_round(a, b, c, d);
                self.lemma_one_way_round(b, c, d, a);
            }
        } else {
            self.lemma_step_on_the_spot(a, b);
            self.lemma_step_on_the_spot(c, d);
            self.lemma_step_half_way_round(b, c);
            self.lemma_step_half_way_round(a, d);
            self.lemma_step_half_way_round(a, c);
            self.lemma_step_half_way_round(b, d);
        }
        self.lemma_precedes_is_total(a, b);
        self.lemma_precedes_is_total(a, c);
        self.lemma_precedes_is_total(a, d);
        self.lemma_precedes_is_total(b, c);
        self.lemma_precedes_is_total(b, d);
        self.lemma_precedes_is_total(c, d);
        assert forall|i: int, j: int, k: int|
            #![trigger self.precedes(i, j), self.precedes(j, k)]
            self.precedes(i, j) && self.precedes(j, k) implies self.precedes(i, k) by {
            self.lemma_precedes_is_transitive(i, j, k);
        }
        // one after the other, the orders the corners can come out in
        if self.precedes(a, b) && self.precedes(b, c) && self.precedes(c, d) {
            self.lemma_order_gives_places(a, b, c, d, p);
        } else if self.precedes(b, a) && self.precedes(a, c) && self.precedes(c, d) {
            self.lemma_order_gives_places(b, a, c, d, p);
        } else if self.precedes(a, b) && self.precedes(b, d) && self.precedes(d, c) {
            self.lemma_order_gives_places(a, b, d, c, p);
        } else if self.precedes(b, a) && self.precedes(a, d) && self.precedes(d, c) {
            self.lemma_order_gives_places(b, a, d, c, p);
        } else if self.precedes(c, d) && self.precedes(d, a) && self.precedes(a, b) {
            self.lemma_order_gives_places(c, d, a, b, p);
        } else if self.precedes(d, c) && self.precedes(c, a) && self.precedes(a, b) {
            self.lemma_order_gives_places(d, c, a, b, p);
        } else if self.precedes(c, d) && self.precedes(d, b) && self.precedes(b, a) {
            self.lemma_order_gives_places(c, d, b, a, p);
        } else if self.precedes(d, c) && self.precedes(c, b) && self.precedes(b, a) {
            self.lemma_order_gives_places(d, c, b, a, p);
        } else if self.precedes(b, c) && self.precedes(c, d) && self.precedes(d, a) {
            self.lemma_order_gives_places(b, c, d, a, p);
        } else if self.precedes(b, d) && self.precedes(d, c) && self.precedes(c, a) {
            self.lemma_order_gives_places(b, d, c, a, p);
        } else if self.precedes(d, b) && self.precedes(b, a) && self.precedes(a, c) {
            self.lemma_order_gives_places(d, b, a, c, p);
        } else {
            assert(self.precedes(d, a) && self.precedes(a, b) && self.precedes(b, c));
            self.lemma_order_gives_places(d, a, b, c, p);
        }
    }

    /// A quadrilateral whose corners are stored counter-clockwise, and
    /// which bulges everywhere, contains exactly the points that are not
    /// on the right of any of its sides, walked in the stored order.
    pub proof fn lemma_counter_clockwise_quad_contains(self, p: Point)
        requires
            self.runs_counter_clockwise(),
        ensures
            self.contains(p) == (on_left(self.0, self.1, p) && on_left(self.1, self.2, p)
                && on_left(self.2, self.3, p) && on_left(self.3, self.0, p)),
    {
        self.lemma_sorting_keeps_the_outline(0, 1, 2, 3, p);
    }

    /// A quadrilateral whose corners are stored clockwise, and which
    /// bulges everywhere, contains exactly the points that are not on the
    /// right of any of its sides, walked against the stored order.
    pub proof fn lemma_clockwise_quad_contains(self, p: Point)
        requires
            self.runs_clockwise(),
        ensures
            self.contains(p) == (on_left(self.1, self.0, p) && on_left(self.2, self.1, p)
                && on_left(self.3, self.2, p) && on_left(self.0, self.3, p)),
    {
        self.lemma_sorting_keeps_the_outline(3, 2, 1, 0, p);
    }

    /// The ranks of the four corners are the four numbers from 0 to 3,
    /// each once.
    pub proof fn lemma_ranks_are_a_permutation(self)
        ensures
            forall|i: int| 0 <= i < 4 ==> 0 <= #[trigger] self.rank(i) < 4,
            forall|i: int, j: int|
                0 <= i < 4 && 0 <= j < 4 && i != j ==> #[trigger] self.rank(i)
                    != #[trigger] self.rank(j),
    {
        assert forall|i: int| 0 <= i < 4 implies 0 <= #[trigger] self.rank(i) < 4 by {
            self.lemma_precedes_is_total(i, i);
        }
        assert forall|i: int, j: int| 0 <= i < 4 && 0 <= j < 4 && i != j implies #[trigger]
            self.rank(i) != #[trigger] self.rank(j) by {
            self.lemma_precedes_is_total(i, j);
            if self.precedes(i, j) {
                self.lemma_rank_follows_order(i, j);
            } else {
                self.lemma_rank_follows_order(j, i);
            }
        }
    }
}

/// Walking from `a` to `b`, the point `p` is on the left or straight
/// ahead or behind, not on the right.
pub open spec fn on_left(a: Point, b: Point, p: Point) -> bool {
    cross(b.x - a.x, b.y - a.y, p.x - a.x, p.y - a.y) >= 0
}

/// Whether `p` is not on the right of the way from `a` to `b`.
fn is_on_left(a: &Point, b: &Point, p: &Point) -> (left: bool)
    requires
        a.in_reach(),
        b.in_reach(),
        p.in_reach(),
    ensures
        left == on_left(*a, *b, *p),
{
    let ux: i128 = b.x as i128 - a.x as i128;
    let uy: i128 = b.y as i128 - a.y as i128;
    let vx: i128 = p.x as i128 - a.x as i128;
    let vy: i128 = p.y as i128 - a.y as i128;
    proof {
        let m: int = 2 * FAR_LIMIT;
        lemma_product_bound(ux as int, vy as int, m, m);
        lemma_product_bound(uy as int, vx as int, m, m);
        assert(m * m < 0x4000_0000_0000_0000_0000_0000_0000_0000) by (nonlinear_arith)
            requires
                m == 2 * 576_460_752_303_423_488int,
        ;
    }
    ux * vy - uy * vx >= 0
}

/// The quarter turn of a direction, computed.
fn sector_of(vx: i64, vy: i64) -> (s: u8)
    ensures
        s == sector(vx as int, vy as int),
{
    if vy > 0 {
        1
    } else if vy < 0 {
        3
    } else if vx >= 0 {
        0
    } else {
        2
    }
}

impl Quad {
    /// Corner `i`, counted from 0 in the order the corners are stored.
    pub fn corner(&self, i: usize) -> (p: Point)
        requires
            i < 4,
        ensures
            p == self.corners()[i as int],
    {
        if i == 0 {
            self.0
        } else if i == 1 {
            self.1
        } else if i == 2 {
            self.2
        } else {
            self.3
        }
    }

    /// Four times the way from the barycentre to corner `i`.
    fn arm(&self, i: usize) -> (v: (i64, i64))
        requires
            self.in_reach(),
            i < 4,
        ensures
            v.0 == self.arm_x(i as int),
            v.1 == self.arm_y(i as int),
            -8 * FAR_LIMIT <= v.0 <= 8 * FAR_LIMIT,
            -8 * FAR_LIMIT <= v.1 <= 8 * FAR_LIMIT,
    {
        let c = self.corner(i);
        let sum_x = self.0.x + self.1.x + self.2.x + self.3.x;
        let sum_y = self.0.y + self.1.y + self.2.y + self.3.y;
        (4 * c.x - sum_x, 4 * c.y - sum_y)
    }

    /// Whether corner `i` lies at a smaller angle than corner `j`.
    fn lies_before(&self, i: usize, j: usize) -> (b: bool)
        requires
            self.in_reach(),
            i < 4,
            j < 4,
        ensures
            b == self.before(i as int, j as int),
    {
        let u = self.arm(i);
        let v = self.arm(j);
        let su = sector_of(u.0, u.1);
        let sv = sector_of(v.0, v.1);
        if su != sv {
            return su < sv;
        }
        proof {
            let m: int = 8 * FAR_LIMIT;
            lemma_product_bound(u.0 as int, v.1 as int, m, m);
            lemma_product_bound(u.1 as int, v.0 as int, m, m);
            assert(m * m < 0x4000_0000_0000_0000_0000_0000_0000_0000) by (nonlinear_arith)
                requires
                    m == 8 * 576_460_752_303_423_488int,
            ;
        }
        let turn: i128 = (u.0 as i128) * (v.1 as i128) - (u.1 as i128) * (v.0 as i128);
        turn > 0
    }

    /// Whether corner `i` comes ahead of corner `j` in counter-clockwise
    /// order.
    fn comes_ahead(&self, i: usize, j: usize) -> (b: bool)
        requires
            self.in_reach(),
            i < 4,
            j < 4,
        ensures
            b == self.precedes(i as int, j as int),
    {
        self.lies_before(i, j) || (!self.lies_before(j, i) && i < j)
    }

    /// The number of corners that come ahead of corner `i`.
    fn rank_of(&self, i: usize) -> (r: usize)
        requires
            self.in_reach(),
            i < 4,
        ensures
            r == self.rank(i as int),
            r < 4,
    {
        proof {
            self.lemma_ranks_are_a_permutation();
        }
        let mut r: usize = 0;
        if self.comes_ahead(0, i) {
            r += 1;
        }
        if self.comes_ahead(1, i) {
            r += 1;
        }
        if self.comes_ahead(2, i) {
            r += 1;
        }
        if self.comes_ahead(3, i) {
            r += 1;
        }
        r
    }

    /// Whether the point lies in the quadrilateral, border included.
    pub fn contains_point(&self, p: &Point) -> (inside: bool)
        requires
            self.in_reach(),
            p.in_reach(),
        ensures
            inside == self.contains(*p),
    {
        let c = self.counter_clockwise();
        proof {
            self.lemma_ranks_are_a_permutation();
            assert(c@[0].in_reach() && c@[1].in_reach() && c@[2].in_reach() && c@[3].in_reach());
        }
        is_on_left(&c[0], &c[1], p) && is_on_left(&c[1], &c[2], p) && is_on_left(&c[2], &c[3], p)
            && is_on_left(&c[3], &c[0], p)
    }

    /// The corners in counter-clockwise order around their barycentre.
    ///
    /// The angle of a corner is that of the way from the barycentre to it,
    /// measured from the positive `x` axis, from 0 up to a full turn; a
    /// corner that sits on the barycentre has angle 0. Corners at one
    /// angle stay in the order they are stored in.
    pub fn counter_clockwise(&self) -> (positions: [Point; 4])
        requires
            self.in_reach(),
        ensures
            positions@ == self.sorted_corners(),
    {
        proof {
            self.lemma_ranks_are_a_permutation();
        }
        let r0 = self.rank_of(0);
        let r1 = self.rank_of(1);
        let r2 = self.rank_of(2);
        let r3 = self.rank_of(3);
        let mut positions = [self.0, self.0, self.0, self.0];
        positions[r0] = self.0;
        positions[r1] = self.1;
        positions[r2] = self.2;
        positions[r3] = self.3;
        assert(positions@ =~= self.sorted_corners());
        positions
    }
}

} // verus!
