//! What lies behind an edge lies in its shadow.
//!
//! Lines of sight and shadows are two ways of telling what a wall hides.
//! This module proves that they agree where both apply: a point that a
//! line of sight finds behind an edge is a point the shadow of that edge
//! contains.

use crate::geometry::{
    cross, lemma_cross_of_differences, lemma_cross_of_stretched,
    lemma_intersection_ignores_direction, lemma_intersection_is_symmetric, lemma_mixture,
    lemma_sign_of_product, lemma_weights_are_small, s_denominator, s_numerator,
    segments_intersect, t_denominator, t_numerator, Point, Segment,
};
use crate::light::{
    apart, player_shadow, segment_shadow, shadow_quad, viewer_in_window, visible_among_shadows,
    Observable, PlayerShadow,
};
use crate::occluder::Occluder;
use crate::projection::{
    axis_exit, exit_distance, inside_window, lemma_exit_distance_is_larger,
    lemma_projection_lies_beyond, projection, ray_in_window, ray_through,
};
use crate::quad::on_left;
use crate::sight::Entity;
use vstd::prelude::*;

verus! {

/// The projection lies on the ray itself, not just next to it: nothing
/// was lost to rounding.
pub open spec fn projection_is_exact(width: int, height: int, from: Point, through: Point) -> bool {
    let ray = ray_through(from, through);
    let t = exit_distance(width, height, ray);
    let end = projection(width, height, from, through);
    &&& t.den * (end.x - from.x) == t.num * ray.direction.x
    &&& t.den * (end.y - from.y) == t.num * ray.direction.y
}

/// The edge runs along one of the axes, as the edges of a wall do.
pub open spec fn along_an_axis(edge: Segment) -> bool {
    edge.0.x == edge.1.x || edge.0.y == edge.1.y
}

/// The viewer and the edge are such that the edge throws a shadow worth
/// the name: the viewer stands in the window and off the line the edge
/// lies on, the edge lies in the window along an axis, and the two rays
/// through its ends are projected without rounding.
pub open spec fn throws_exact_shadow(width: int, height: int, viewer: Point, edge: Segment) -> bool {
    &&& viewer_in_window(width, height, viewer)
    &&& edge.0.in_scene() && inside_window(width, height, edge.0)
    &&& edge.1.in_scene() && inside_window(width, height, edge.1)
    &&& along_an_axis(edge)
    &&& cross(
        edge.0.x - viewer.x,
        edge.0.y - viewer.y,
        edge.1.x - viewer.x,
        edge.1.y - viewer.y,
    ) != 0
    &&& projection_is_exact(width, height, viewer, edge.0)
    &&& projection_is_exact(width, height, viewer, edge.1)
}

/// Stepping outwards along a ray keeps to the left what the ray has on
/// its left, and stepping inwards what it has on its right.
proof fn lemma_side_of_ray(
    m: int,
    n: int,
    ux: int,
    uy: int,
    sx: int,
    sy: int,
    qx: int,
    qy: int,
)
    requires
        m > 0,
        n >= m,
        m * sx == n * ux,
        m * sy == n * uy,
    ensures
        cross(ux, uy, qx, qy) >= 0 ==> cross(sx - ux, sy - uy, qx - ux, qy - uy) >= 0,
        cross(ux, uy, qx, qy) <= 0 ==> cross(ux - sx, uy - sy, qx - sx, qy - sy) >= 0,
{
    let turn = cross(ux, uy, qx, qy);
    // outwards: from `u` to `s`, seen from `u`
    lemma_cross_of_differences(sx, sy, qx, qy, ux, uy);
    lemma_cross_of_stretched(m, n, ux, uy, sx, sy, qx, qy);
    lemma_cross_of_stretched(m, n, ux, uy, sx, sy, ux, uy);
    let out = cross(sx - ux, sy - uy, qx - ux, qy - uy);
    assert(m * out == (n - m) * turn) by (nonlinear_arith)
        requires
            out == cross(sx, sy, qx, qy) - turn - cross(sx, sy, ux, uy),
            m * cross(sx, sy, qx, qy) == n * turn,
            m * cross(sx, sy, ux, uy) == n * 0,
    ;
    // inwards: from `s` to `u`, seen from `s`
    lemma_cross_of_differences(ux, uy, qx, qy, sx, sy);
    lemma_cross_of_differences(ux, uy, sx, sy, ux, uy);
    let back = cross(ux - sx, uy - sy, qx - sx, qy - sy);
    assert(m * back == (m - n) * turn) by (nonlinear_arith)
        requires
            back == turn - cross(sx, sy, qx, qy) - cross(ux, uy, sx, sy),
            m * cross(sx, sy, qx, qy) == n * turn,
            cross(ux, uy, sx, sy) == -cross(sx, sy, ux, uy),
            m * cross(sx, sy, ux, uy) == n * 0,
    ;
    if turn >= 0 {
        assert((n - m) * turn >= 0) by (nonlinear_arith)
            requires
                n >= m,
                turn >= 0,
        ;
        lemma_sign_of_product(m, out, (n - m) * turn);
    }
    if turn <= 0 {
        assert((m - n) * turn >= 0) by (nonlinear_arith)
            requires
                n >= m,
                turn <= 0,
        ;
        lemma_sign_of_product(m, back, (m - n) * turn);
    }
}

/// The far side of a shadow, seen along one axis. Two rays from a common
/// start both end at or beyond a level (`2 * s_ >= g`), and a point
/// between the rays stays at or below it: then the point lies on the
/// near side of the line through the two ends.
proof fn lemma_far_side(
    sax: int,
    say: int,
    sbx: int,
    sby: int,
    qx: int,
    qy: int,
    ha: int,
    hb: int,
    hq: int,
    g: int,
)
    requires
        cross(sax, say, sbx, sby) > 0,
        cross(sax, say, qx, qy) >= 0,
        cross(qx, qy, sbx, sby) >= 0,
        (ha == sax && hb == sbx && hq == qx) || (ha == -sax && hb == -sbx && hq == -qx) || (ha
            == say && hb == sby && hq == qy) || (ha == -say && hb == -sby && hq == -qy),
        g > 0,
        2 * ha >= g,
        2 * hb >= g,
        2 * hq <= g,
    ensures
        cross(sbx - sax, sby - say, qx - sax, qy - say) >= 0,
{
    let c = cross(sax, say, sbx, sby);
    let m = cross(qx, qy, sbx, sby);
    let n = cross(sax, say, qx, qy);
    lemma_mixture(sax, say, sbx, sby, qx, qy);
    assert(c * hq == m * ha + n * hb) by (nonlinear_arith)
        requires
            c * qx == m * sax + n * sbx,
            c * qy == m * say + n * sby,
            (ha == sax && hb == sbx && hq == qx) || (ha == -sax && hb == -sbx && hq == -qx) || (ha
                == say && hb == sby && hq == qy) || (ha == -say && hb == -sby && hq == -qy),
    ;
    lemma_weights_are_small(c, m, n, ha, hb, hq, g);
    lemma_cross_of_differences(sbx, sby, qx, qy, sax, say);
}

/// The end of the ray through `through` lies beyond `through`, as far
/// out as the window reaches along either axis the ray moves along.
proof fn lemma_end_of_ray(width: int, height: int, viewer: Point, through: Point)
    requires
        viewer_in_window(width, height, viewer),
        through.in_scene(),
        inside_window(width, height, through),
        apart(viewer, through),
        projection_is_exact(width, height, viewer, through),
    ensures
        ({
            let t = exit_distance(width, height, ray_through(viewer, through));
            let end = projection(width, height, viewer, through);
            &&& t.den > 0
            &&& t.num >= t.den
            &&& t.den * (end.x - viewer.x) == t.num * (through.x - viewer.x)
            &&& t.den * (end.y - viewer.y) == t.num * (through.y - viewer.y)
            &&& through.x > viewer.x ==> 2 * (end.x - viewer.x) >= width - 2 * viewer.x
            &&& through.x < viewer.x ==> 2 * (viewer.x - end.x) >= width + 2 * viewer.x
            &&& through.y > viewer.y ==> 2 * (end.y - viewer.y) >= height - 2 * viewer.y
            &&& through.y < viewer.y ==> 2 * (viewer.y - end.y) >= height + 2 * viewer.y
        }),
{
    let ray = ray_through(viewer, through);
    let t = exit_distance(width, height, ray);
    let end = projection(width, height, viewer, through);
    let dx = through.x - viewer.x;
    let dy = through.y - viewer.y;
    assert(ray.direction.x == dx && ray.direction.y == dy);
    assert(ray_in_window(width, height, ray));
    lemma_projection_lies_beyond(width, height, viewer, through);
    lemma_exit_distance_is_larger(width, height, ray);
    let ex = end.x - viewer.x;
    let ey = end.y - viewer.y;
    if dx != 0 {
        let h = axis_exit(width, viewer.x as int, dx).unwrap();
        assert(2 * (t.den * ex) == 2 * (t.num * dx));
        if dx > 0 {
            assert(2 * ex >= width - 2 * viewer.x) by (nonlinear_arith)
                requires
                    t.den > 0,
                    t.num * (2 * dx) >= (width - 2 * viewer.x) * t.den,
                    t.den * ex == t.num * dx,
            ;
        } else {
            assert(2 * (-ex) >= width + 2 * viewer.x) by (nonlinear_arith)
                requires
                    t.den > 0,
                    t.num * (-2 * dx) >= (width + 2 * viewer.x) * t.den,
                    t.den * ex == t.num * dx,
            ;
        }
    }
    if dy != 0 {
        let v = axis_exit(height, viewer.y as int, dy).unwrap();
        if dy > 0 {
            assert(2 * ey >= height - 2 * viewer.y) by (nonlinear_arith)
                requires
                    t.den > 0,
                    t.num * (2 * dy) >= (height - 2 * viewer.y) * t.den,
                    t.den * ey == t.num * dy,
            ;
        } else {
            assert(2 * (-ey) >= height + 2 * viewer.y) by (nonlinear_arith)
                requires
                    t.den > 0,
                    t.num * (-2 * dy) >= (height + 2 * viewer.y) * t.den,
                    t.den * ey == t.num * dy,
            ;
        }
    }
}

/// A vanishing factor makes a cross product of two level vectors vanish.
proof fn lemma_level_vectors(ux: int, vx: int, e: int)
    by (nonlinear_arith)
    ensures
        cross(ux, e, vx, e) == e * (ux - vx),
        cross(e, ux, e, vx) == e * (vx - ux),
        e == 0 ==> cross(ux, e, vx, e) == 0 && cross(e, ux, e, vx) == 0,
{
}

/// With the ends of the edge counter-clockwise as seen from the viewer,
/// a point behind the edge is on the left of each side of the shadow's
/// outline, walked from the start of the edge out along the first ray,
/// across the far side, back along the second ray and along the edge.
proof fn lemma_outline_counter_clockwise(
    width: int,
    height: int,
    viewer: Point,
    edge: Segment,
    p: Point,
)
    requires
        throws_exact_shadow(width, height, viewer, edge),
        cross(
            edge.0.x - viewer.x,
            edge.0.y - viewer.y,
            edge.1.x - viewer.x,
            edge.1.y - viewer.y,
        ) > 0,
        inside_window(width, height, p),
        segments_intersect(Segment(viewer, p), edge),
    ensures
        ({
            let quad = shadow_quad(width, height, viewer, edge);
            &&& on_left(quad.0, quad.1, p)
            &&& on_left(quad.1, quad.2, p)
            &&& on_left(quad.2, quad.3, p)
            &&& on_left(quad.3, quad.0, p)
        }),
{
    let quad = shadow_quad(width, height, viewer, edge);
    let sight = Segment(viewer, p);
    // everything as seen from the viewer
    let (ax, ay) = (edge.0.x - viewer.x, edge.0.y - viewer.y);
    let (bx, by) = (edge.1.x - viewer.x, edge.1.y - viewer.y);
    let (qx, qy) = (p.x - viewer.x, p.y - viewer.y);
    let (sax, say) = (quad.1.x - viewer.x, quad.1.y - viewer.y);
    let (sbx, sby) = (quad.2.x - viewer.x, quad.2.y - viewer.y);
    let o = cross(ax, ay, bx, by);
    let ta = exit_distance(width, height, ray_through(viewer, edge.0));
    let tb = exit_distance(width, height, ray_through(viewer, edge.1));
    lemma_level_vectors(ax, bx, ay);
    lemma_level_vectors(ay, by, ax);
    assert(apart(viewer, edge.0) && apart(viewer, edge.1)) by {
        if !apart(viewer, edge.0) {
            assert(cross(0, 0, bx, by) == 0) by (nonlinear_arith);
        }
        if !apart(viewer, edge.1) {
            assert(cross(ax, ay, 0, 0) == 0) by (nonlinear_arith);
        }
    }
    lemma_end_of_ray(width, height, viewer, edge.0);
    lemma_end_of_ray(width, height, viewer, edge.1);

    // what crossing the edge says, in cross products
    let sn = s_numerator(sight, edge);
    let sd = s_denominator(sight, edge);
    let tn = t_numerator(sight, edge);
    let td = t_denominator(sight, edge);
    let turn_a = cross(ax, ay, qx, qy);
    let turn_b = cross(bx, by, qx, qy);
    assert(sn == -o && tn == turn_a && sd == turn_b - turn_a && td == -sd) by (nonlinear_arith)
        requires
            sn == (edge.1.y - edge.0.y) * (viewer.x - edge.0.x) - (edge.1.x - edge.0.x) * (viewer.y
                - edge.0.y),
            sd == (p.y - viewer.y) * (edge.1.x - edge.0.x) - (p.x - viewer.x) * (edge.1.y
                - edge.0.y),
            tn == (p.y - viewer.y) * (edge.0.x - viewer.x) + (p.x - viewer.x) * (viewer.y
                - edge.0.y),
            td == (p.x - viewer.x) * (edge.1.y - edge.0.y) - (p.y - viewer.y) * (edge.1.x
                - edge.0.x),
            o == ax * by - ay * bx,
            turn_a == ax * qy - ay * qx,
            turn_b == bx * qy - by * qx,
            ax == edge.0.x - viewer.x,
            ay == edge.0.y - viewer.y,
            bx == edge.1.x - viewer.x,
            by == edge.1.y - viewer.y,
            qx == p.x - viewer.x,
            qy == p.y - viewer.y,
    ;
    assert(sd < 0 && sd <= sn);
    assert(0 <= turn_a && turn_b <= 0);

    // along the first ray, and back along the second
    lemma_side_of_ray(ta.den, ta.num, ax, ay, sax, say, qx, qy);
    lemma_side_of_ray(tb.den, tb.num, bx, by, sbx, sby, qx, qy);
    assert(on_left(quad.0, quad.1, p));
    assert(on_left(quad.2, quad.3, p));

    // along the edge
    lemma_cross_of_differences(ax, ay, qx, qy, bx, by);
    assert(cross(ax - bx, ay - by, qx - bx, qy - by) == turn_a - turn_b - o);
    assert(on_left(quad.3, quad.0, p));

    // across the far side
    lemma_cross_of_stretched(ta.den, ta.num, ax, ay, sax, say, qx, qy);
    lemma_cross_of_stretched(tb.den, tb.num, bx, by, sbx, sby, qx, qy);
    lemma_cross_of_stretched(ta.den, ta.num, ax, ay, sax, say, sbx, sby);
    lemma_cross_of_stretched(tb.den, tb.num, bx, by, sbx, sby, ax, ay);
    let far = cross(sax, say, sbx, sby);
    lemma_sign_of_product(ta.den, cross(sax, say, qx, qy), ta.num * turn_a);
    assert(ta.num * turn_a >= 0) by (nonlinear_arith)
        requires
            ta.num >= 0,
            turn_a >= 0,
    ;
    lemma_sign_of_product(tb.den, cross(qx, qy, sbx, sby), tb.num * cross(qx, qy, bx, by));
    lemma_cross_of_differences(qx, qy, bx, by, 0, 0);
    assert(tb.num * cross(qx, qy, bx, by) >= 0) by (nonlinear_arith)
        requires
            tb.num >= 0,
            cross(qx, qy, bx, by) == -turn_b,
            turn_b <= 0,
    ;
    assert(far > 0) by {
        // ta.den * tb.den * far == ta.num * tb.num * o
        let half = cross(ax, ay, sbx, sby);
        assert(ta.den * far == ta.num * half);
        assert(tb.den * half == tb.num * o);
        assert(half > 0) by (nonlinear_arith)
            requires
                tb.den > 0,
                tb.num > 0,
                o > 0,
                tb.den * half == tb.num * o,
        ;
        assert(far > 0) by (nonlinear_arith)
            requires
                ta.den > 0,
                ta.num > 0,
                half > 0,
                ta.den * far == ta.num * half,
        ;
    }
    if edge.0.y == edge.1.y {
        if ay > 0 {
            lemma_far_side(sax, say, sbx, sby, qx, qy, say, sby, qy, height - 2 * viewer.y);
        } else {
            lemma_far_side(sax, say, sbx, sby, qx, qy, -say, -sby, -qy, height + 2 * viewer.y);
        }
    } else {
        if ax > 0 {
            lemma_far_side(sax, say, sbx, sby, qx, qy, sax, sbx, qx, width - 2 * viewer.x);
        } else {
            lemma_far_side(sax, say, sbx, sby, qx, qy, -sax, -sbx, -qx, width + 2 * viewer.x);
        }
    }
    assert(on_left(quad.1, quad.2, p));
}

/// The turn between two arms of a figure of four corners, in the turns
/// between the corners themselves. With `s` the sum of the four corners,
/// the arm of a corner `x` is `4 * x - s`.
proof fn lemma_turn_between_arms(
    xx: int,
    xy: int,
    yx: int,
    yy: int,
    sx: int,
    sy: int,
)
    by (nonlinear_arith)
    ensures
        cross(4 * xx - sx, 4 * xy - sy, 4 * yx - sx, 4 * yy - sy) == 16 * cross(xx, xy, yx, yy) - 4
            * cross(xx, xy, sx, sy) - 4 * cross(sx, sy, yx, yy),
{
}

/// The cross product with a sum of four vectors, on either side.
proof fn lemma_cross_with_sum(
    ux: int,
    uy: int,
    ax: int,
    ay: int,
    bx: int,
    by: int,
    cx: int,
    cy: int,
    dx: int,
    dy: int,
)
    by (nonlinear_arith)
    ensures
        cross(ux, uy, ax + bx + cx + dx, ay + by + cy + dy) == cross(ux, uy, ax, ay) + cross(
            ux,
            uy,
            bx,
            by,
        ) + cross(ux, uy, cx, cy) + cross(ux, uy, dx, dy),
        cross(ax + bx + cx + dx, ay + by + cy + dy, ux, uy) == cross(ax, ay, ux, uy) + cross(
            bx,
            by,
            ux,
            uy,
        ) + cross(cx, cy, ux, uy) + cross(dx, dy, ux, uy),
{
}

/// What the four turns of a shadow come to, once the lengths of the two
/// rays are put in.
proof fn lemma_turns_in_lengths(
    ma: int,
    na: int,
    mb: int,
    nb: int,
    o: int,
    k2: int,
    k3: int,
    k4: int,
)
    requires
        ma * k2 == na * o,
        mb * k3 == nb * o,
        ma * k4 == na * k3,
    ensures
        (ma * mb) * (k4 + k2 - k3 - o) == o * ((na - ma) * (nb + mb)),
        (ma * mb) * (2 * k4 - k2 - k3) == o * (na * (nb - mb) + nb * (na - ma)),
        (ma * mb) * (k3 + k4 - o - k2) == o * ((nb - mb) * (ma + na)),
        (ma * mb) * (k2 + k3 - 2 * o) == o * (mb * (na - ma) + ma * (nb - mb)),
{
    let scale = ma * mb;
    // the four turns, each times the scale
    let p1 = o * (ma * mb);
    let p2 = o * (na * mb);
    let p3 = o * (ma * nb);
    let p4 = o * (na * nb);
    assert(scale * o == p1) by (nonlinear_arith)
        requires
            scale == ma * mb,
            p1 == o * (ma * mb),
    ;
    assert(scale * k2 == p2) by (nonlinear_arith)
        requires
            scale == ma * mb,
            p2 == o * (na * mb),
            ma * k2 == na * o,
    ;
    assert(scale * k3 == p3) by (nonlinear_arith)
        requires
            scale == ma * mb,
            p3 == o * (ma * nb),
            mb * k3 == nb * o,
    ;
    assert(mb * (na * k3) == na * (nb * o)) by (nonlinear_arith)
        requires
            mb * k3 == nb * o,
    ;
    assert(scale * k4 == p4) by (nonlinear_arith)
        requires
            scale == ma * mb,
            p4 == o * (na * nb),
            ma * k4 == na * k3,
            mb * (na * k3) == na * (nb * o),
    ;
    // sums of them
    assert(scale * (k4 + k2 - k3 - o) == scale * k4 + scale * k2 - scale * k3 - scale * o)
        by (nonlinear_arith);
    assert(scale * (2 * k4 - k2 - k3) == 2 * (scale * k4) - scale * k2 - scale * k3)
        by (nonlinear_arith);
    assert(scale * (k3 + k4 - o - k2) == scale * k3 + scale * k4 - scale * o - scale * k2)
        by (nonlinear_arith);
    assert(scale * (k2 + k3 - 2 * o) == scale * k2 + scale * k3 - 2 * (scale * o))
        by (nonlinear_arith);
    // the same sums, from the lengths
    assert((na - ma) * (nb + mb) == na * nb + na * mb - ma * nb - ma * mb) by (nonlinear_arith);
    assert(na * (nb - mb) + nb * (na - ma) == 2 * (na * nb) - na * mb - ma * nb)
        by (nonlinear_arith);
    assert((nb - mb) * (ma + na) == ma * nb + na * nb - ma * mb - na * mb) by (nonlinear_arith);
    assert(mb * (na - ma) + ma * (nb - mb) == na * mb + ma * nb - 2 * (ma * mb))
        by (nonlinear_arith);
    let (w1, w2, w3, w4) = (ma * mb, na * mb, ma * nb, na * nb);
    assert(o * (w4 + w2 - w3 - w1) == o * w4 + o * w2 - o * w3 - o * w1) by (nonlinear_arith);
    assert(o * (2 * w4 - w2 - w3) == 2 * (o * w4) - o * w2 - o * w3) by (nonlinear_arith);
    assert(o * (w3 + w4 - w1 - w2) == o * w3 + o * w4 - o * w1 - o * w2) by (nonlinear_arith);
    assert(o * (w2 + w3 - 2 * w1) == o * w2 + o * w3 - 2 * (o * w1)) by (nonlinear_arith);
}

/// A product of a sign and a weight that is not negative.
proof fn lemma_sign_or_nothing(scale: int, value: int, o: int, weight: int)
    by (nonlinear_arith)
    requires
        scale > 0,
        weight >= 0,
        scale * value == o * weight,
    ensures
        weight == 0 ==> value == 0,
        o > 0 && weight > 0 ==> value > 0,
        o < 0 && weight > 0 ==> value < 0,
{
}

/// A ray of length one ends on the point it passes through.
proof fn lemma_ray_of_length_one(m: int, end: int, through: int)
    by (nonlinear_arith)
    requires
        m > 0,
        m * end == m * through,
    ensures
        end == through,
{
}

/// Seen from its barycentre, the corners of a shadow follow each other
/// round its outline the way the ends of the edge follow each other seen
/// from the viewer. A ray may end on the very point it passes through,
/// when that point lies on the border of the window.
proof fn lemma_shadow_goes_round(width: int, height: int, viewer: Point, edge: Segment)
    requires
        throws_exact_shadow(width, height, viewer, edge),
    ensures
        cross(
            edge.0.x - viewer.x,
            edge.0.y - viewer.y,
            edge.1.x - viewer.x,
            edge.1.y - viewer.y,
        ) > 0 ==> shadow_quad(width, height, viewer, edge).goes_round(0, 1, 2, 3),
        cross(
            edge.0.x - viewer.x,
            edge.0.y - viewer.y,
            edge.1.x - viewer.x,
            edge.1.y - viewer.y,
        ) < 0 ==> shadow_quad(width, height, viewer, edge).goes_round(3, 2, 1, 0),
{
    let quad = shadow_quad(width, height, viewer, edge);
    let (ax, ay) = (edge.0.x - viewer.x, edge.0.y - viewer.y);
    let (bx, by) = (edge.1.x - viewer.x, edge.1.y - viewer.y);
    let (sax, say) = (quad.1.x - viewer.x, quad.1.y - viewer.y);
    let (sbx, sby) = (quad.2.x - viewer.x, quad.2.y - viewer.y);
    let o = cross(ax, ay, bx, by);
    let ta = exit_distance(width, height, ray_through(viewer, edge.0));
    let tb = exit_distance(width, height, ray_through(viewer, edge.1));
    assert(apart(viewer, edge.0) && apart(viewer, edge.1)) by {
        if !apart(viewer, edge.0) {
            assert(cross(0, 0, bx, by) == 0) by (nonlinear_arith);
        }
        if !apart(viewer, edge.1) {
            assert(cross(ax, ay, 0, 0) == 0) by (nonlinear_arith);
        }
    }
    lemma_end_of_ray(width, height, viewer, edge.0);
    lemma_end_of_ray(width, height, viewer, edge.1);
    let (ma, na, mb, nb) = (ta.den, ta.num, tb.den, tb.num);

    // the turns between the corners, seen from the viewer
    let k2 = cross(sax, say, bx, by);
    let k3 = cross(ax, ay, sbx, sby);
    let k4 = cross(sax, say, sbx, sby);
    lemma_cross_of_stretched(ma, na, ax, ay, sax, say, bx, by);
    lemma_cross_of_stretched(mb, nb, bx, by, sbx, sby, ax, ay);
    lemma_cross_of_stretched(ma, na, ax, ay, sax, say, sbx, sby);
    lemma_cross_of_stretched(ma, na, ax, ay, sax, say, ax, ay);
    lemma_cross_of_stretched(mb, nb, bx, by, sbx, sby, bx, by);
    lemma_cross_of_differences(ax, ay, bx, by, 0, 0);
    lemma_cross_of_differences(sax, say, ax, ay, 0, 0);
    lemma_cross_of_differences(sbx, sby, bx, by, 0, 0);
    lemma_cross_of_differences(sax, say, bx, by, 0, 0);
    lemma_cross_of_differences(ax, ay, sbx, sby, 0, 0);
    lemma_cross_of_differences(sax, say, sbx, sby, 0, 0);
    // a ray and its end point the same way
    lemma_cross_of_differences(0, 0, 0, 0, ax, ay);
    lemma_cross_of_differences(0, 0, 0, 0, bx, by);
    assert(ma * cross(sax, say, ax, ay) == 0 && ma * cross(ax, ay, sax, say) == 0) by {
        assert(na * cross(ax, ay, ax, ay) == 0);
    }
    assert(mb * cross(sbx, sby, bx, by) == 0 && mb * cross(bx, by, sbx, sby) == 0) by {
        assert(nb * cross(bx, by, bx, by) == 0);
    }
    lemma_sign_of_product(ma, cross(sax, say, ax, ay), 0);
    lemma_sign_of_product(ma, cross(ax, ay, sax, say), 0);
    lemma_sign_of_product(mb, cross(sbx, sby, bx, by), 0);
    lemma_sign_of_product(mb, cross(bx, by, sbx, sby), 0);
    lemma_turns_in_lengths(ma, na, mb, nb, o, k2, k3, k4);

    // the arms, and the turns between them
    let (sx, sy) = (ax + sax + sbx + bx, ay + say + sby + by);
    assert(quad.arm_x(0) == 4 * ax - sx && quad.arm_y(0) == 4 * ay - sy);
    assert(quad.arm_x(1) == 4 * sax - sx && quad.arm_y(1) == 4 * say - sy);
    assert(quad.arm_x(2) == 4 * sbx - sx && quad.arm_y(2) == 4 * sby - sy);
    assert(quad.arm_x(3) == 4 * bx - sx && quad.arm_y(3) == 4 * by - sy);
    lemma_cross_with_sum(ax, ay, ax, ay, sax, say, sbx, sby, bx, by);
    lemma_cross_with_sum(sax, say, ax, ay, sax, say, sbx, sby, bx, by);
    lemma_cross_with_sum(sbx, sby, ax, ay, sax, say, sbx, sby, bx, by);
    lemma_cross_with_sum(bx, by, ax, ay, sax, say, sbx, sby, bx, by);
    lemma_turn_between_arms(ax, ay, sax, say, sx, sy);
    lemma_turn_between_arms(sax, say, sbx, sby, sx, sy);
    lemma_turn_between_arms(sbx, sby, bx, by, sx, sy);
    lemma_turn_between_arms(bx, by, ax, ay, sx, sy);
    assert(quad.turn(0, 1) == 4 * (k4 + k2 - k3 - o));
    assert(quad.turn(1, 2) == 4 * (2 * k4 - k2 - k3));
    assert(quad.turn(2, 3) == 4 * (k3 + k4 - o - k2));
    assert(quad.turn(3, 0) == 4 * (k2 + k3 - 2 * o));
    assert(quad.turn(1, 0) == -quad.turn(0, 1) && quad.turn(2, 1) == -quad.turn(1, 2)
        && quad.turn(3, 2) == -quad.turn(2, 3) && quad.turn(0, 3) == -quad.turn(3, 0)) by {
        lemma_cross_of_differences(quad.arm_x(0), quad.arm_y(0), quad.arm_x(1), quad.arm_y(1), 0, 0);
        lemma_cross_of_differences(quad.arm_x(1), quad.arm_y(1), quad.arm_x(2), quad.arm_y(2), 0, 0);
        lemma_cross_of_differences(quad.arm_x(2), quad.arm_y(2), quad.arm_x(3), quad.arm_y(3), 0, 0);
        lemma_cross_of_differences(quad.arm_x(3), quad.arm_y(3), quad.arm_x(0), quad.arm_y(0), 0, 0);
    }

    // their signs
    let scale = ma * mb;
    assert(scale > 0) by (nonlinear_arith)
        requires
            scale == ma * mb,
            ma > 0,
            mb > 0,
    ;
    let w01 = (na - ma) * (nb + mb);
    let w12 = na * (nb - mb) + nb * (na - ma);
    let w23 = (nb - mb) * (ma + na);
    let w30 = mb * (na - ma) + ma * (nb - mb);
    assert(w01 >= 0 && w12 >= 0 && w23 >= 0 && w30 >= 0 && (na > ma ==> w01 > 0 && w12 > 0 && w30
        > 0) && (nb > mb ==> w23 > 0 && w12 > 0 && w30 > 0)) by (nonlinear_arith)
        requires
            ma > 0,
            mb > 0,
            na >= ma,
            nb >= mb,
            w01 == (na - ma) * (nb + mb),
            w12 == na * (nb - mb) + nb * (na - ma),
            w23 == (nb - mb) * (ma + na),
            w30 == mb * (na - ma) + ma * (nb - mb),
    ;
    lemma_sign_or_nothing(scale, k4 + k2 - k3 - o, o, w01);
    lemma_sign_or_nothing(scale, 2 * k4 - k2 - k3, o, w12);
    lemma_sign_or_nothing(scale, k3 + k4 - o - k2, o, w23);
    lemma_sign_or_nothing(scale, k2 + k3 - 2 * o, o, w30);

    // a ray of length one stops where it passes through
    if na == ma {
        lemma_ray_of_length_one(ma, sax, ax);
        lemma_ray_of_length_one(ma, say, ay);
        assert(quad.same_place(0, 1) && quad.same_place(1, 0));
    }
    if nb == mb {
        lemma_ray_of_length_one(mb, sbx, bx);
        lemma_ray_of_length_one(mb, sby, by);
        assert(quad.same_place(2, 3) && quad.same_place(3, 2));
    }
    if na == ma && nb == mb {
        // the two ends of the edge are apart, or it would not turn
        if quad.same_place(1, 2) {
            assert(ax == bx && ay == by);
            assert(cross(ax, ay, ax, ay) == 0);
        }
        assert(!quad.same_place(1, 2) && !quad.same_place(2, 1));
    }
}

/// Every point of the window that lies behind an edge lies in the shadow of
/// that edge: the point-in-shadow test finds it there.
///
/// A point lies behind the edge when the straight line from the viewer to
/// it crosses the edge. The rays through the ends of the edge have to be
/// projected without rounding: an end moved to the nearest grid point can
/// leave a point on the very border of the shadow outside.
pub proof fn lemma_shadow_contains_what_is_behind_its_edge(
    width: int,
    height: int,
    viewer: Point,
    edge: Segment,
    p: Point,
)
    requires
        throws_exact_shadow(width, height, viewer, edge),
        inside_window(width, height, p),
        segments_intersect(Segment(viewer, p), edge),
    ensures
        shadow_quad(width, height, viewer, edge).contains(p),
        forall|marked: bool|
            (#[trigger] segment_shadow(width, height, viewer, edge, marked)).contains(p),
{
    let quad = shadow_quad(width, height, viewer, edge);
    let o = cross(
        edge.0.x - viewer.x,
        edge.0.y - viewer.y,
        edge.1.x - viewer.x,
        edge.1.y - viewer.y,
    );
    lemma_shadow_goes_round(width, height, viewer, edge);
    if o > 0 {
        lemma_outline_counter_clockwise(width, height, viewer, edge, p);
        quad.lemma_sorting_keeps_the_outline(0, 1, 2, 3, p);
    } else {
        let turned = edge.reversed();
        let sight = Segment(viewer, p);
        lemma_cross_of_differences(
            edge.0.x - viewer.x,
            edge.0.y - viewer.y,
            edge.1.x - viewer.x,
            edge.1.y - viewer.y,
            0,
            0,
        );
        lemma_intersection_is_symmetric(sight, edge);
        lemma_intersection_ignores_direction(edge, sight);
        lemma_intersection_is_symmetric(turned, sight);
        lemma_outline_counter_clockwise(width, height, viewer, turned, p);
        let other = shadow_quad(width, height, viewer, turned);
        assert(other.0 == quad.3 && other.1 == quad.2 && other.2 == quad.1 && other.3 == quad.0);
        quad.lemma_sorting_keeps_the_outline(3, 2, 1, 0, p);
    }
}

/// A thing whose four corners all lie behind one and the same edge of a
/// wall, as lines of sight tell it, is hidden, as the shadows tell it:
/// where both ways of telling apply, the shadows hide whatever the lines
/// of sight hide.
///
/// The wall is another entity than the thing, its shadows are among
/// those kept, and the edge throws an exact shadow.
pub proof fn lemma_what_lies_behind_an_edge_is_hidden(
    width: int,
    height: int,
    viewer: Point,
    shadows: Seq<PlayerShadow>,
    group: int,
    wall: Entity,
    occluder: Occluder,
    marked: bool,
    edge: int,
    thing: Observable,
)
    requires
        0 <= group < shadows.len(),
        shadows[group] == player_shadow(width, height, viewer, wall, occluder, marked),
        wall != thing.entity,
        0 <= edge < 4,
        throws_exact_shadow(width, height, viewer, occluder.segments()[edge]),
        thing.footprint matches Some(footprint) && forall|c: int|
            0 <= c < 4 ==> inside_window(width, height, #[trigger] footprint.corners(thing.position)[c])
                && segments_intersect(
                Segment(viewer, footprint.corners(thing.position)[c]),
                occluder.segments()[edge],
            ),
    ensures
        !visible_among_shadows(shadows, thing),
{
    let footprint = thing.footprint.unwrap();
    let side = occluder.segments()[edge];
    let shadow = shadows[group].children[edge];
    assert(shadow == segment_shadow(width, height, viewer, side, marked));
    assert forall|c: int| 0 <= c < 4 implies shadow.contains(
        #[trigger] footprint.corners(thing.position)[c],
    ) by {
        lemma_shadow_contains_what_is_behind_its_edge(
            width,
            height,
            viewer,
            side,
            footprint.corners(thing.position)[c],
        );
    }
    assert(shadow.swallows(thing.position, footprint));
    assert(shadows[group].swallows(thing.position, footprint));
}

/// Every point of the window that lies behind an edge lies in the shadow of
/// that edge, taken as the figure its four corners outline: the edge, the
/// two rays through its ends, and the far side between the ends of the
/// rays.
///
/// A point lies behind the edge when the straight line from the viewer to
/// it crosses the edge. The rays have to be projected without rounding;
/// an end moved to the nearest grid point can leave a point on the very
/// border of the shadow outside.
pub proof fn lemma_shadow_encloses_what_is_behind_its_edge(
    width: int,
    height: int,
    viewer: Point,
    edge: Segment,
    p: Point,
)
    requires
        throws_exact_shadow(width, height, viewer, edge),
        inside_window(width, height, p),
        segments_intersect(Segment(viewer, p), edge),
    ensures
        shadow_quad(width, height, viewer, edge).encloses(p),
{
    let o = cross(
        edge.0.x - viewer.x,
        edge.0.y - viewer.y,
        edge.1.x - viewer.x,
        edge.1.y - viewer.y,
    );
    if o > 0 {
        lemma_outline_counter_clockwise(width, height, viewer, edge, p);
    } else {
        let turned = edge.reversed();
        let sight = Segment(viewer, p);
        lemma_cross_of_differences(
            edge.0.x - viewer.x,
            edge.0.y - viewer.y,
            edge.1.x - viewer.x,
            edge.1.y - viewer.y,
            0,
            0,
        );
        lemma_intersection_is_symmetric(sight, edge);
        lemma_intersection_ignores_direction(edge, sight);
        lemma_intersection_is_symmetric(turned, sight);
        lemma_outline_counter_clockwise(width, height, viewer, turned, p);
        let quad = shadow_quad(width, height, viewer, edge);
        let other = shadow_quad(width, height, viewer, turned);
        assert(other.0 == quad.3 && other.1 == quad.2 && other.2 == quad.1 && other.3 == quad.0);
    }
}

} // verus!
