//! Points, segments and the segment intersection test.

use vstd::prelude::*;

verus! {

/// Largest magnitude of a coordinate that a scene may place an object at.
///
/// Two to the 28th, the largest power of two for which everything the
/// engine computes from scene coordinates fits the integers of the
/// machine.
pub const SCENE_LIMIT: i64 = 268_435_456;

/// Largest magnitude of a coordinate the engine itself produces or accepts.
///
/// Following a ray to the border of the window multiplies two scene
/// distances; two to the 59th bounds every point that comes of it, and
/// leaves the products of two differences of such points within 128
/// bits.
pub const FAR_LIMIT: i64 = 576_460_752_303_423_488;

/// A position on the grid. Geometry reads `x` and `y`; `z` is the drawing
/// depth, carried along and never consulted.
#[derive(Clone, Copy, Debug, PartialEq, Eq, Structural)]
pub struct Point {
    pub x: i64,
    pub y: i64,
    pub z: i64,
}

impl Point {
    /// All three coordinates are at most `limit` in magnitude.
    pub open spec fn within(self, limit: int) -> bool {
        &&& -limit <= self.x <= limit
        &&& -limit <= self.y <= limit
        &&& -limit <= self.z <= limit
    }

    /// The point may be handed to the scene: viewer, wall corner, sprite.
    pub open spec fn in_scene(self) -> bool {
        self.within(SCENE_LIMIT as int)
    }

    /// The point is one the engine can compute with.
    pub open spec fn in_reach(self) -> bool {
        self.within(FAR_LIMIT as int)
    }

    /// Whether the point may be handed to the scene.
    pub fn fits_scene(&self) -> (fits: bool)
        ensures
            fits == self.in_scene(),
    {
        -SCENE_LIMIT <= self.x && self.x <= SCENE_LIMIT && -SCENE_LIMIT <= self.y && self.y
            <= SCENE_LIMIT && -SCENE_LIMIT <= self.z && self.z <= SCENE_LIMIT
    }

    /// Whether the point is one the engine can compute with.
    pub fn fits_reach(&self) -> (fits: bool)
        ensures
            fits == self.in_reach(),
    {
        -FAR_LIMIT <= self.x && self.x <= FAR_LIMIT && -FAR_LIMIT <= self.y && self.y
            <= FAR_LIMIT && -FAR_LIMIT <= self.z && self.z <= FAR_LIMIT
    }

    pub fn new(x: i64, y: i64, z: i64) -> (p: Point)
        ensures
            p == (Point { x, y, z }),
    {
        Point { x, y, z }
    }
}

/// The straight piece of line from `.0` to `.1`: the points
/// `.0 + s * (.1 - .0)` for `0 <= s <= 1`.
#[derive(Clone, Copy, Debug, PartialEq, Eq, Structural)]
pub struct Segment(pub Point, pub Point);

impl Segment {
    /// Both ends are points the engine can compute with.
    pub open spec fn in_reach(self) -> bool {
        self.0.in_reach() && self.1.in_reach()
    }

    /// Horizontal extent, signed, from start to end.
    pub open spec fn dx(self) -> int {
        self.1.x - self.0.x
    }

    /// Vertical extent, signed, from start to end.
    pub open spec fn dy(self) -> int {
        self.1.y - self.0.y
    }

    /// The same set of points walked from the other end.
    pub open spec fn reversed(self) -> Segment {
        Segment(self.1, self.0)
    }
}

/// Twice the signed area of the triangle `(0, u, v)`: positive when `v`
/// lies counter-clockwise of `u`, zero when the two are parallel.
pub open spec fn cross(ux: int, uy: int, vx: int, vy: int) -> int {
    ux * vy - uy * vx
}

/// Numerator of the position `s` along `a` at which the line through `a`
/// meets the line through `b`.
pub open spec fn s_numerator(a: Segment, b: Segment) -> int {
    (b.1.y - b.0.y) * (a.0.x - b.0.x) - (b.1.x - b.0.x) * (a.0.y - b.0.y)
}

/// Denominator of `s`.
pub open spec fn s_denominator(a: Segment, b: Segment) -> int {
    (a.1.y - a.0.y) * (b.1.x - b.0.x) - (a.1.x - a.0.x) * (b.1.y - b.0.y)
}

/// Numerator of the position `t` along `b` of the same meeting point.
pub open spec fn t_numerator(a: Segment, b: Segment) -> int {
    (a.1.y - a.0.y) * (b.0.x - a.0.x) + (a.1.x - a.0.x) * (a.0.y - b.0.y)
}

/// Denominator of `t`.
pub open spec fn t_denominator(a: Segment, b: Segment) -> int {
    (a.1.x - a.0.x) * (b.1.y - b.0.y) - (a.1.y - a.0.y) * (b.1.x - b.0.x)
}

/// The quotient `n / d` exists and lies in the closed interval from 0 to 1.
pub open spec fn quotient_in_unit_interval(n: int, d: int) -> bool {
    if d > 0 {
        0 <= n <= d
    } else if d < 0 {
        d <= n <= 0
    } else {
        false
    }
}

/// The two segments cross in exactly one point, which belongs to both.
///
/// Parallel segments never do, not even when they lie on one line and
/// overlap: the denominators are zero then and no quotient exists.
pub open spec fn segments_intersect(a: Segment, b: Segment) -> bool {
    &&& quotient_in_unit_interval(s_numerator(a, b), s_denominator(a, b))
    &&& quotient_in_unit_interval(t_numerator(a, b), t_denominator(a, b))
}

/// The two segments have the same direction or opposite directions, or one
/// of them is a single point.
pub open spec fn parallel(a: Segment, b: Segment) -> bool {
    cross(a.dx(), a.dy(), b.dx(), b.dy()) == 0
}

/// Both ends of `b` lie on the line through `a`.
pub open spec fn collinear(a: Segment, b: Segment) -> bool {
    &&& cross(a.dx(), a.dy(), b.0.x - a.0.x, b.0.y - a.0.y) == 0
    &&& cross(a.dx(), a.dy(), b.1.x - a.0.x, b.1.y - a.0.y) == 0
}

/// The two denominators are one number with opposite signs.
pub proof fn lemma_denominators_are_opposite(a: Segment, b: Segment)
    ensures
        t_denominator(a, b) == -s_denominator(a, b),
{
}

/// The cross product is linear in its second vector.
proof fn lemma_cross_of_difference(ux: int, uy: int, px: int, py: int, qx: int, qy: int)
    by (nonlinear_arith)
    ensures
        cross(ux, uy, qx - px, qy - py) == cross(ux, uy, qx, qy) - cross(ux, uy, px, py),
{
}

/// Swapping the two vectors of a cross product flips its sign.
proof fn lemma_cross_swapped(ux: int, uy: int, vx: int, vy: int)
    by (nonlinear_arith)
    ensures
        cross(vx, vy, ux, uy) == -cross(ux, uy, vx, vy),
        cross(ux, uy, vx, vy) == -(uy * vx - ux * vy),
{
}

/// Parallel segments are never reported as crossing, whether or not they
/// touch.
pub proof fn lemma_parallel_segments_never_intersect(a: Segment, b: Segment)
    requires
        parallel(a, b),
    ensures
        !segments_intersect(a, b),
{
    lemma_cross_swapped(a.dx(), a.dy(), b.dx(), b.dy());
    assert(s_denominator(a, b) == 0);
}

/// Segments that lie on one line are never reported as crossing, however
/// much they overlap.
pub proof fn lemma_collinear_segments_never_intersect(a: Segment, b: Segment)
    requires
        collinear(a, b),
    ensures
        !segments_intersect(a, b),
{
    lemma_cross_of_difference(
        a.dx(),
        a.dy(),
        b.0.x - a.0.x,
        b.0.y - a.0.y,
        b.1.x - a.0.x,
        b.1.y - a.0.y,
    );
    assert(parallel(a, b));
    lemma_parallel_segments_never_intersect(a, b);
}

/// A segment is never reported as crossing itself.
pub proof fn lemma_segment_never_intersects_itself(a: Segment)
    ensures
        !segments_intersect(a, a),
{
    lemma_cross_swapped(a.dx(), a.dy(), a.dx(), a.dy());
    lemma_parallel_segments_never_intersect(a, a);
}

/// Three factors may be multiplied in any grouping and order.
proof fn lemma_three_factors(a: int, b: int, c: int)
    by (nonlinear_arith)
    ensures
        (a * b) * c == (a * c) * b,
        (a * b) * c == (b * c) * a,
        (a * b) * c == (c * b) * a,
{
}

/// A difference times a factor is the difference of the products.
proof fn lemma_difference_times(p: int, q: int, c: int)
    by (nonlinear_arith)
    ensures
        (p - q) * c == p * c - q * c,
        (p + q) * c == p * c + q * c,
{
}

/// Cramer's rule for the two lines, cleared of its division.
proof fn lemma_meeting_point(adx: int, ady: int, bdx: int, bdy: int, rx: int, ry: int)
    ensures
        (ady * bdx - adx * bdy) * rx + (bdy * rx - bdx * ry) * adx + (ady * (-rx) + adx * ry)
            * bdx == 0,
        (ady * bdx - adx * bdy) * ry + (bdy * rx - bdx * ry) * ady + (ady * (-rx) + adx * ry)
            * bdy == 0,
{
    assert(ady * (-rx) == -(ady * rx)) by (nonlinear_arith);
    lemma_difference_times(ady * bdx, adx * bdy, rx);
    lemma_difference_times(bdy * rx, bdx * ry, adx);
    lemma_difference_times(adx * ry, ady * rx, bdx);
    lemma_three_factors(ady, bdx, rx);
    lemma_three_factors(adx, bdy, rx);
    lemma_three_factors(bdx, ry, adx);

    lemma_difference_times(ady * bdx, adx * bdy, ry);
    lemma_difference_times(bdy * rx, bdx * ry, ady);
    lemma_difference_times(adx * ry, ady * rx, bdy);
    lemma_three_factors(ady, bdx, ry);
    lemma_three_factors(adx, bdy, ry);
    lemma_three_factors(bdy, rx, ady);
}

/// The positions `s` and `t` name one and the same point: walking `s` of
/// the way along `a` and `t` of the way along `b` ends in the same place.
/// With `d` the denominator of `s` (that of `t` is `-d`), and both sides
/// multiplied by `d` to stay among the integers:
/// `d * a.0 + s_numerator * (a.1 - a.0) == d * b.0 - t_numerator * (b.1 - b.0)`.
pub proof fn lemma_positions_name_one_point(a: Segment, b: Segment)
    ensures
        s_denominator(a, b) * a.0.x + s_numerator(a, b) * a.dx() == s_denominator(a, b) * b.0.x
            - t_numerator(a, b) * b.dx(),
        s_denominator(a, b) * a.0.y + s_numerator(a, b) * a.dy() == s_denominator(a, b) * b.0.y
            - t_numerator(a, b) * b.dy(),
{
    let d = s_denominator(a, b);
    let rx = a.0.x - b.0.x;
    let ry = a.0.y - b.0.y;
    lemma_meeting_point(a.dx(), a.dy(), b.dx(), b.dy(), rx, ry);
    assert(t_numerator(a, b) == a.dy() * (-rx) + a.dx() * ry);
    assert(d * rx == d * a.0.x - d * b.0.x) by (nonlinear_arith)
        requires
            rx == a.0.x - b.0.x,
    ;
    assert(d * ry == d * a.0.y - d * b.0.y) by (nonlinear_arith)
        requires
            ry == a.0.y - b.0.y,
    ;
}

/// The test does not care which segment is named first.
pub proof fn lemma_intersection_is_symmetric(a: Segment, b: Segment)
    ensures
        segments_intersect(a, b) == segments_intersect(b, a),
{
    assert(s_numerator(b, a) == t_numerator(a, b)) by (nonlinear_arith)
        requires
            s_numerator(b, a) == (a.1.y - a.0.y) * (b.0.x - a.0.x) - (a.1.x - a.0.x) * (b.0.y
                - a.0.y),
            t_numerator(a, b) == (a.1.y - a.0.y) * (b.0.x - a.0.x) + (a.1.x - a.0.x) * (a.0.y
                - b.0.y),
    ;
    assert(s_denominator(b, a) == t_denominator(a, b)) by (nonlinear_arith)
        requires
            s_denominator(b, a) == (b.1.y - b.0.y) * (a.1.x - a.0.x) - (b.1.x - b.0.x) * (a.1.y
                - a.0.y),
            t_denominator(a, b) == (a.1.x - a.0.x) * (b.1.y - b.0.y) - (a.1.y - a.0.y) * (b.1.x
                - b.0.x),
    ;
    assert(t_numerator(b, a) == s_numerator(a, b)) by (nonlinear_arith)
        requires
            t_numerator(b, a) == (b.1.y - b.0.y) * (a.0.x - b.0.x) + (b.1.x - b.0.x) * (b.0.y
                - a.0.y),
            s_numerator(a, b) == (b.1.y - b.0.y) * (a.0.x - b.0.x) - (b.1.x - b.0.x) * (a.0.y
                - b.0.y),
    ;
    assert(t_denominator(b, a) == s_denominator(a, b)) by (nonlinear_arith)
        requires
            t_denominator(b, a) == (b.1.x - b.0.x) * (a.1.y - a.0.y) - (b.1.y - b.0.y) * (a.1.x
                - a.0.x),
            s_denominator(a, b) == (a.1.y - a.0.y) * (b.1.x - b.0.x) - (a.1.x - a.0.x) * (b.1.y
                - b.0.y),
    ;
}

/// The algebra behind walking a segment from its other end.
proof fn lemma_reversed_quotients(adx: int, ady: int, bdx: int, bdy: int, rx: int, ry: int)
    by (nonlinear_arith)
    ensures
        bdy * (rx + adx) - bdx * (ry + ady) == (bdy * rx - bdx * ry) - (ady * bdx - adx * bdy),
        (-ady) * bdx - (-adx) * bdy == -(ady * bdx - adx * bdy),
        (-ady) * (-(rx + adx)) + (-adx) * (ry + ady) == -(ady * (-rx) + adx * ry),
        (-adx) * bdy - (-ady) * bdx == -(adx * bdy - ady * bdx),
{
}

/// A segment is a set of points: walking it from the other end changes
/// nothing about what it crosses.
pub proof fn lemma_intersection_ignores_direction(a: Segment, b: Segment)
    ensures
        segments_intersect(a.reversed(), b) == segments_intersect(a, b),
{
    let rx = a.0.x - b.0.x;
    let ry = a.0.y - b.0.y;
    lemma_reversed_quotients(a.dx(), a.dy(), b.dx(), b.dy(), rx, ry);
    let r = a.reversed();
    assert(s_numerator(r, b) == s_numerator(a, b) - s_denominator(a, b));
    assert(s_denominator(r, b) == -s_denominator(a, b));
    assert(t_numerator(r, b) == -t_numerator(a, b));
    assert(t_denominator(r, b) == -t_denominator(a, b));
}

/// A product of two bounded factors is bounded by the product of the bounds.
pub proof fn lemma_product_bound(x: int, y: int, bx: int, by: int)
    by (nonlinear_arith)
    requires
        -bx <= x <= bx,
        -by <= y <= by,
    ensures
        -(bx * by) <= x * y <= bx * by,
{
}

/// Decides whether two segments cross.
pub fn segment_intersects_segment(a: &Segment, b: &Segment) -> (crossing: bool)
    requires
        a.in_reach(),
        b.in_reach(),
    ensures
        crossing == segments_intersect(*a, *b),
{
    let adx: i128 = a.1.x as i128 - a.0.x as i128;
    let ady: i128 = a.1.y as i128 - a.0.y as i128;
    let bdx: i128 = b.1.x as i128 - b.0.x as i128;
    let bdy: i128 = b.1.y as i128 - b.0.y as i128;
    let rx: i128 = a.0.x as i128 - b.0.x as i128;
    let ry: i128 = a.0.y as i128 - b.0.y as i128;
    proof {
        let m: int = 2 * FAR_LIMIT;
        lemma_product_bound(bdy as int, rx as int, m, m);
        lemma_product_bound(bdx as int, ry as int, m, m);
        lemma_product_bound(ady as int, bdx as int, m, m);
        lemma_product_bound(adx as int, bdy as int, m, m);
        lemma_product_bound(ady as int, -rx as int, m, m);
        lemma_product_bound(adx as int, ry as int, m, m);
        assert(m * m < 0x4000_0000_0000_0000_0000_0000_0000_0000) by (nonlinear_arith)
            requires
                m == 2 * 576_460_752_303_423_488int,
        ;
    }
    let s_num: i128 = bdy * rx - bdx * ry;
    let s_den: i128 = ady * bdx - adx * bdy;
    if s_den == 0 {
        return false;
    }
    let t_num: i128 = ady * (-rx) + adx * ry;
    let t_den: i128 = adx * bdy - ady * bdx;
    if t_den == 0 {
        return false;
    }
    in_unit_interval(s_num, s_den) && in_unit_interval(t_num, t_den)
}

/// Decides whether `n / d` lies between 0 and 1, ends included, without
/// dividing.
fn in_unit_interval(n: i128, d: i128) -> (inside: bool)
    ensures
        inside == quotient_in_unit_interval(n as int, d as int),
{
    if d > 0 {
        0 <= n && n <= d
    } else if d < 0 {
        d <= n && n <= 0
    } else {
        false
    }
}

/// `a / d` rounded to the nearest integer, halves away from zero.
pub open spec fn round_div(a: int, d: int) -> int
    recommends
        d > 0,
{
    if a >= 0 {
        (2 * a + d) / (2 * d)
    } else {
        -((2 * (-a) + d) / (2 * d))
    }
}

/// Rounding to the nearest integer misses the exact quotient by at most a
/// half: `|d * round_div(a, d) - a| <= d / 2`.
pub proof fn lemma_round_div_is_nearest(a: int, d: int)
    requires
        d > 0,
    ensures
        -d <= 2 * (d * round_div(a, d) - a) <= d,
{
    let m = if a >= 0 {
        a
    } else {
        -a
    };
    let q = (2 * m + d) / (2 * d);
    vstd::arithmetic::div_mod::lemma_fundamental_div_mod(2 * m + d, 2 * d);
    vstd::arithmetic::div_mod::lemma_mod_bound(2 * m + d, 2 * d);
    assert((2 * d) * q == 2 * (d * q)) by (nonlinear_arith);
    if a < 0 {
        assert(d * (-q) == -(d * q)) by (nonlinear_arith);
    }
}

/// The rounded quotient is no larger in magnitude than half the dividend,
/// rounded up, once the divisor is at least 2.
pub proof fn lemma_round_div_bound(a: int, d: int)
    requires
        d >= 2,
    ensures
        a >= 0 ==> 0 <= round_div(a, d) && 2 * round_div(a, d) <= a + 1,
        a <= 0 ==> 0 >= round_div(a, d) && 2 * round_div(a, d) >= a - 1,
{
    lemma_round_div_is_nearest(a, d);
    let q = round_div(a, d);
    let m = if a >= 0 {
        a
    } else {
        -a
    };
    let p = (2 * m + d) / (2 * d);
    vstd::arithmetic::div_mod::lemma_div_pos_is_pos(2 * m + d, 2 * d);
    assert(d * (-p) == -(d * p)) by (nonlinear_arith);
    assert(2 * p <= m + 1) by (nonlinear_arith)
        requires
            d >= 2,
            p >= 0,
            m >= 0,
            2 * (d * p - m) <= d,
    ;
}

/// `a / d` rounded to the nearest integer, computed.
pub(crate) fn round_quotient(a: i128, d: i128) -> (q: i128)
    requires
        d >= 2,
        d <= 0x1_0000_0000,
        -0x1_0000_0000_0000_0000 <= a <= 0x1_0000_0000_0000_0000,
    ensures
        q == round_div(a as int, d as int),
        a >= 0 ==> 0 <= q && 2 * q <= a + 1,
        a <= 0 ==> 0 >= q && 2 * q >= a - 1,
{
    proof {
        lemma_round_div_bound(a as int, d as int);
    }
    if a >= 0 {
        (2 * a + d) / (2 * d)
    } else {
        -((2 * (-a) + d) / (2 * d))
    }
}

/// A vector stretched by `n / m` turns against any other vector as the
/// vector itself does, `n / m` times as far.
pub(crate) proof fn lemma_cross_of_stretched(
    m: int,
    n: int,
    ux: int,
    uy: int,
    sx: int,
    sy: int,
    vx: int,
    vy: int,
)
    requires
        m * sx == n * ux,
        m * sy == n * uy,
    ensures
        m * cross(sx, sy, vx, vy) == n * cross(ux, uy, vx, vy),
        m * cross(vx, vy, sx, sy) == n * cross(vx, vy, ux, uy),
{
    assert(m * (sx * vy - sy * vx) == (m * sx) * vy - (m * sy) * vx) by (nonlinear_arith);
    assert(n * (ux * vy - uy * vx) == (n * ux) * vy - (n * uy) * vx) by (nonlinear_arith);
    assert(m * (vx * sy - vy * sx) == vx * (m * sy) - vy * (m * sx)) by (nonlinear_arith);
    assert(n * (vx * uy - vy * ux) == vx * (n * uy) - vy * (n * ux)) by (nonlinear_arith);
}

/// The cross product of two differences, written out.
pub(crate) proof fn lemma_cross_of_differences(
    ux: int,
    uy: int,
    vx: int,
    vy: int,
    wx: int,
    wy: int,
)
    by (nonlinear_arith)
    ensures
        cross(ux - wx, uy - wy, vx - wx, vy - wy) == cross(ux, uy, vx, vy) - cross(wx, wy, vx, vy)
            - cross(ux, uy, wx, wy),
        cross(wx, wy, wx, wy) == 0,
        cross(ux, uy, vx, vy) == -cross(vx, vy, ux, uy),
{
}

/// Any vector is a mixture of two others, with cross products for
/// weights: `cross(a, b) * q == cross(q, b) * a + cross(a, q) * b`.
pub(crate) proof fn lemma_mixture(ax: int, ay: int, bx: int, by: int, qx: int, qy: int)
    ensures
        cross(ax, ay, bx, by) * qx == cross(qx, qy, bx, by) * ax + cross(ax, ay, qx, qy) * bx,
        cross(ax, ay, bx, by) * qy == cross(qx, qy, bx, by) * ay + cross(ax, ay, qx, qy) * by,
{
    assert((ax * by - ay * bx) * qx == (ax * by) * qx - (ay * bx) * qx) by (nonlinear_arith);
    assert((qx * by - qy * bx) * ax == (qx * by) * ax - (qy * bx) * ax) by (nonlinear_arith);
    assert((ax * qy - ay * qx) * bx == (ax * qy) * bx - (ay * qx) * bx) by (nonlinear_arith);
    assert((ax * by) * qx == (qx * by) * ax) by (nonlinear_arith);
    assert((ay * bx) * qx == (ay * qx) * bx) by (nonlinear_arith);
    assert((qy * bx) * ax == (ax * qy) * bx) by (nonlinear_arith);
    assert((ax * by - ay * bx) * qy == (ax * by) * qy - (ay * bx) * qy) by (nonlinear_arith);
    assert((qx * by - qy * bx) * ay == (qx * by) * ay - (qy * bx) * ay) by (nonlinear_arith);
    assert((ax * qy - ay * qx) * by == (ax * qy) * by - (ay * qx) * by) by (nonlinear_arith);
    assert((ax * by) * qy == (ax * qy) * by) by (nonlinear_arith);
    assert((ay * bx) * qy == (qy * bx) * ay) by (nonlinear_arith);
    assert((qx * by) * ay == (ay * qx) * by) by (nonlinear_arith);
}

/// A product with a positive factor has the sign of the other factor.
pub(crate) proof fn lemma_sign_of_product(m: int, x: int, y: int)
    by (nonlinear_arith)
    requires
        m > 0,
        m * x == y,
    ensures
        y >= 0 ==> x >= 0,
        y <= 0 ==> x <= 0,
        y > 0 ==> x > 0,
{
}

/// A mixture of two heights that both reach a level reaches it as well;
/// if it stays below, the weights are small.
pub(crate) proof fn lemma_weights_are_small(c: int, m: int, n: int, ya: int, yb: int, yq: int, g: int)
    by (nonlinear_arith)
    requires
        c * yq == m * ya + n * yb,
        c > 0,
        m >= 0,
        n >= 0,
        g > 0,
        2 * ya >= g,
        2 * yb >= g,
        2 * yq <= g,
    ensures
        m + n <= c,
{
}

} // verus!
