//! Following a ray to the border of the window.
//!
//! The window is a rectangle centred on the origin. A ray that starts in
//! it is followed until it has passed both the side and the top or
//! bottom it is heading for; where it stands then is its projection.

use crate::geometry::{
    lemma_product_bound, lemma_round_div_bound, lemma_round_div_is_nearest, round_div,
    round_quotient, Point, FAR_LIMIT, SCENE_LIMIT,
};
use vstd::prelude::*;

verus! {

/// A distance along a ray, as the exact quotient `num / den` of the length
/// of the ray's direction.
#[derive(Clone, Copy, Debug, PartialEq, Eq, Structural)]
pub struct Distance {
    pub num: i64,
    pub den: i64,
}

/// A quotient of two integers, for stating what a `Distance` is.
pub struct Fraction {
    pub num: int,
    pub den: int,
}

impl Fraction {
    /// This quotient is at least as large as the other, both having
    /// positive denominators.
    pub open spec fn at_least(self, other: Fraction) -> bool {
        self.num * other.den >= other.num * self.den
    }
}

impl View for Distance {
    type V = Fraction;

    open spec fn view(&self) -> Fraction {
        Fraction { num: self.num as int, den: self.den as int }
    }
}

impl Distance {
    /// The quotient exists and is not negative.
    pub open spec fn well_formed(self) -> bool {
        self.num >= 0 && self.den > 0
    }
}

/// A half line: it starts at `origin` and runs along `direction` for ever.
#[derive(Clone, Copy, Debug, PartialEq, Eq, Structural)]
pub struct Ray {
    pub origin: Point,
    pub direction: Point,
}

/// The window is one a scene fits in: no side is negative, and no point
/// inside it lies beyond what a scene may hold.
pub open spec fn window_in_scene(width: int, height: int) -> bool {
    &&& 0 <= width <= 2 * SCENE_LIMIT
    &&& 0 <= height <= 2 * SCENE_LIMIT
}

/// The point lies in the window, which is centred on the origin; its
/// border counts as inside.
pub open spec fn inside_window(width: int, height: int, p: Point) -> bool {
    &&& -width <= 2 * p.x <= width
    &&& -height <= 2 * p.y <= height
}

/// How far a ray travels along one axis until it reaches the side of the
/// window it is heading for, or `None` if it does not move along that axis.
///
/// Of the two sides, at `extent / 2` and at `-extent / 2`, that is the one
/// with the larger distance; the other lies behind the origin.
pub open spec fn axis_exit(extent: int, origin: int, direction: int) -> Option<Fraction> {
    if direction > 0 {
        Some(Fraction { num: extent - 2 * origin, den: 2 * direction })
    } else if direction < 0 {
        Some(Fraction { num: extent + 2 * origin, den: -2 * direction })
    } else {
        None
    }
}

/// The distance at which the ray has left the window through both the
/// side and the top or bottom it is heading for: the larger of the two
/// axis distances, or the only one there is.
pub open spec fn exit_distance(width: int, height: int, ray: Ray) -> Fraction {
    match (
        axis_exit(width, ray.origin.x as int, ray.direction.x as int),
        axis_exit(height, ray.origin.y as int, ray.direction.y as int),
    ) {
        (Some(h), Some(v)) => if h.at_least(v) {
            h
        } else {
            v
        },
        (Some(h), None) => h,
        (None, Some(v)) => v,
        (None, None) => Fraction { num: 0, den: 1 },
    }
}

/// The grid point nearest to `origin + (num / den) * direction`.
pub open spec fn point_at(ray: Ray, num: int, den: int) -> Point {
    Point {
        x: (ray.origin.x + round_div(num * ray.direction.x, den)) as i64,
        y: (ray.origin.y + round_div(num * ray.direction.y, den)) as i64,
        z: (ray.origin.z + round_div(num * ray.direction.z, den)) as i64,
    }
}

/// The ray that starts at `from` and passes through `through`.
pub open spec fn ray_through(from: Point, through: Point) -> Ray {
    Ray {
        origin: from,
        direction: Point {
            x: (through.x - from.x) as i64,
            y: (through.y - from.y) as i64,
            z: (through.z - from.z) as i64,
        },
    }
}

/// Where the ray from `from` through `through` has left the window.
pub open spec fn projection(width: int, height: int, from: Point, through: Point) -> Point {
    let ray = ray_through(from, through);
    let t = exit_distance(width, height, ray);
    point_at(ray, t.num, t.den)
}

/// The ray can be followed to the border of the window: it starts inside,
/// it points somewhere, and its numbers are in range.
pub open spec fn ray_in_window(width: int, height: int, ray: Ray) -> bool {
    &&& window_in_scene(width, height)
    &&& inside_window(width, height, ray.origin)
    &&& ray.origin.in_scene()
    &&& ray.direction.within(2 * SCENE_LIMIT)
    &&& ray.direction.x != 0 || ray.direction.y != 0
}

/// At its axis distance the ray stands exactly on the side of the window
/// it is heading for: at `extent / 2` when it runs in the positive
/// direction, at `-extent / 2` when it runs in the negative one. Both
/// sides of the equation are multiplied by twice the denominator.
pub proof fn lemma_axis_exit_reaches_side(extent: int, origin: int, direction: int)
    requires
        direction != 0,
    ensures
        ({
            let t = axis_exit(extent, origin, direction).unwrap();
            2 * (t.den * origin + t.num * direction) == if direction > 0 {
                t.den * extent
            } else {
                -(t.den * extent)
            }
        }),
{
    let t = axis_exit(extent, origin, direction).unwrap();
    assert(2 * (t.den * origin + t.num * direction) == if direction > 0 {
        t.den * extent
    } else {
        -(t.den * extent)
    }) by (nonlinear_arith)
        requires
            direction != 0,
            direction > 0 ==> t.num == extent - 2 * origin && t.den == 2 * direction,
            direction < 0 ==> t.num == extent + 2 * origin && t.den == -2 * direction,
    ;
}

/// Of the two sides of the window across an axis, the one the ray is
/// heading for is the one it reaches later: the distance to either side,
/// `(extent / 2 - origin) / direction` and
/// `(-extent / 2 - origin) / direction`, is at most the axis distance.
/// The side behind the origin has a distance that is not positive.
pub proof fn lemma_axis_exit_is_the_later_side(extent: int, origin: int, direction: int)
    requires
        direction != 0,
        -extent <= 2 * origin <= extent,
    ensures
        ({
            let t = axis_exit(extent, origin, direction).unwrap();
            let upper = if direction > 0 {
                Fraction { num: extent - 2 * origin, den: 2 * direction }
            } else {
                Fraction { num: 2 * origin - extent, den: -2 * direction }
            };
            let lower = if direction > 0 {
                Fraction { num: -extent - 2 * origin, den: 2 * direction }
            } else {
                Fraction { num: 2 * origin + extent, den: -2 * direction }
            };
            &&& t.den > 0 && t.num >= 0
            &&& if direction > 0 {
                t == upper && lower.num <= 0
            } else {
                t == lower && upper.num <= 0
            }
            &&& t.at_least(upper)
            &&& t.at_least(lower)
        }),
{
    let t = axis_exit(extent, origin, direction).unwrap();
    assert(forall|n: int| n <= t.num ==> #[trigger] (n * t.den) <= t.num * t.den) by {
        assert forall|n: int| n <= t.num implies #[trigger] (n * t.den) <= t.num * t.den by {
            assert(n * t.den <= t.num * t.den) by (nonlinear_arith)
                requires
                    n <= t.num,
                    t.den > 0,
            ;
        }
    }
    if direction > 0 {
        assert((extent - 2 * origin) * t.den <= t.num * t.den);
        assert((-extent - 2 * origin) * t.den <= t.num * t.den);
    } else {
        assert((2 * origin + extent) * t.den <= t.num * t.den);
        assert((2 * origin - extent) * t.den <= t.num * t.den);
    }
}

/// A ray that starts inside the window leaves it at a distance that is
/// not negative.
pub proof fn lemma_exit_distance_is_not_negative(width: int, height: int, ray: Ray)
    requires
        ray_in_window(width, height, ray),
    ensures
        exit_distance(width, height, ray).num >= 0,
        exit_distance(width, height, ray).den > 0,
{
}

/// The exit distance is at least as long as the distance along either
/// axis: of the two, it is the larger.
pub proof fn lemma_exit_distance_is_larger(width: int, height: int, ray: Ray)
    requires
        ray_in_window(width, height, ray),
    ensures
        ({
            let t = exit_distance(width, height, ray);
            &&& axis_exit(width, ray.origin.x as int, ray.direction.x as int) matches Some(h)
                ==> t.at_least(h)
            &&& axis_exit(height, ray.origin.y as int, ray.direction.y as int) matches Some(v)
                ==> t.at_least(v)
        }),
{
}

/// A ray through a point inside the window leaves the window at or
/// beyond that point: the exit distance is at least the whole length of
/// the way from the origin to the point.
pub proof fn lemma_projection_lies_beyond(width: int, height: int, from: Point, through: Point)
    requires
        ray_in_window(width, height, ray_through(from, through)),
        through.in_scene(),
        inside_window(width, height, through),
    ensures
        exit_distance(width, height, ray_through(from, through)).num >= exit_distance(
            width,
            height,
            ray_through(from, through),
        ).den,
{
    let ray = ray_through(from, through);
    lemma_exit_distance_is_larger(width, height, ray);
    let t = exit_distance(width, height, ray);
    let dx = ray.direction.x as int;
    let dy = ray.direction.y as int;
    assert(dx == through.x - from.x);
    assert(dy == through.y - from.y);
    if dx != 0 {
        let h = axis_exit(width, from.x as int, dx).unwrap();
        assert(h.num >= h.den);
        assert(t.num >= t.den) by (nonlinear_arith)
            requires
                t.num * h.den >= h.num * t.den,
                h.num >= h.den,
                h.den > 0,
                t.den > 0,
                t.num >= 0,
        ;
    } else {
        let v = axis_exit(height, from.y as int, dy).unwrap();
        assert(v.num >= v.den);
        assert(t == v);
    }
}

/// The projection is the grid point nearest to the exact point where the
/// ray stands at its exit distance: along each axis it misses the exact
/// point by half a step at most.
pub proof fn lemma_projection_is_on_ray(width: int, height: int, from: Point, through: Point)
    requires
        ray_in_window(width, height, ray_through(from, through)),
    ensures
        ({
            let ray = ray_through(from, through);
            let t = exit_distance(width, height, ray);
            let end = projection(width, height, from, through);
            &&& -t.den <= 2 * (t.den * (end.x - from.x) - t.num * ray.direction.x) <= t.den
            &&& -t.den <= 2 * (t.den * (end.y - from.y) - t.num * ray.direction.y) <= t.den
            &&& -t.den <= 2 * (t.den * (end.z - from.z) - t.num * ray.direction.z) <= t.den
        }),
{
    let ray = ray_through(from, through);
    let t = exit_distance(width, height, ray);
    lemma_round_div_is_nearest(t.num * ray.direction.x, t.den);
    lemma_round_div_is_nearest(t.num * ray.direction.y, t.den);
    lemma_round_div_is_nearest(t.num * ray.direction.z, t.den);
    lemma_offset_fits(t, ray.direction.x as int);
    lemma_offset_fits(t, ray.direction.y as int);
    lemma_offset_fits(t, ray.direction.z as int);
}

/// The rounded offset of a ray in the window, added to a scene
/// coordinate, is a number within reach.
proof fn lemma_offset_fits(t: Fraction, direction: int)
    requires
        0 <= t.num <= 4 * SCENE_LIMIT,
        2 <= t.den <= 4 * SCENE_LIMIT,
        -2 * SCENE_LIMIT <= direction <= 2 * SCENE_LIMIT,
    ensures
        -(FAR_LIMIT - SCENE_LIMIT) <= round_div(t.num * direction, t.den) <= FAR_LIMIT
            - SCENE_LIMIT,
{
    lemma_product_bound(t.num, direction, 4 * SCENE_LIMIT, 2 * SCENE_LIMIT);
    assert((4 * SCENE_LIMIT) * (2 * SCENE_LIMIT) == FAR_LIMIT) by (nonlinear_arith)
        requires
            SCENE_LIMIT == 268_435_456,
            FAR_LIMIT == 576_460_752_303_423_488,
    ;
    lemma_round_div_bound(t.num * direction, t.den);
}

/// Whether the window is one a scene fits in.
pub fn window_fits_scene(width: i64, height: i64) -> (fits: bool)
    ensures
        fits == window_in_scene(width as int, height as int),
{
    0 <= width && width <= 2 * SCENE_LIMIT && 0 <= height && height <= 2 * SCENE_LIMIT
}

/// Whether the point lies in the window, border included.
pub fn is_inside_window(width: i64, height: i64, p: &Point) -> (inside: bool)
    requires
        window_in_scene(width as int, height as int),
        p.in_scene(),
    ensures
        inside == inside_window(width as int, height as int, *p),
{
    -width <= 2 * p.x && 2 * p.x <= width && -height <= 2 * p.y && 2 * p.y <= height
}

/// The distance of one axis, computed.
fn axis_exit_distance(extent: i64, origin: i64, direction: i64) -> (exit: Option<Distance>)
    requires
        0 <= extent <= 2 * SCENE_LIMIT,
        -extent <= 2 * origin <= extent,
        -2 * SCENE_LIMIT <= direction <= 2 * SCENE_LIMIT,
    ensures
        match exit {
            Some(t) => axis_exit(extent as int, origin as int, direction as int) == Some(t@)
                && t.well_formed() && t.num <= 4 * SCENE_LIMIT && t.den <= 4 * SCENE_LIMIT && t.den
                >= 2,
            None => axis_exit(extent as int, origin as int, direction as int) is None,
        },
{
    if direction > 0 {
        let t = Distance { num: extent - 2 * origin, den: 2 * direction };
        Some(t)
    } else if direction < 0 {
        let t = Distance { num: extent + 2 * origin, den: 0 - 2 * direction };
        Some(t)
    } else {
        None
    }
}

/// How far along the ray the border of the window lies.
///
/// The ray has to start inside the window and to point somewhere. The
/// result is never negative.
pub fn project_ray_to_window_edge(width: i64, height: i64, ray: Ray) -> (t: Distance)
    requires
        ray_in_window(width as int, height as int, ray),
    ensures
        t@ == exit_distance(width as int, height as int, ray),
        t.well_formed(),
        t.num <= 4 * SCENE_LIMIT,
        2 <= t.den <= 4 * SCENE_LIMIT,
{
    let t_left_right = axis_exit_distance(width, ray.origin.x, ray.direction.x);
    let t_top_bottom = axis_exit_distance(height, ray.origin.y, ray.direction.y);
    match (t_left_right, t_top_bottom) {
        (Some(h), Some(v)) => {
            assert(h.num * v.den <= 0x1_0000_0000_0000_0000 && v.num * h.den
                <= 0x1_0000_0000_0000_0000) by (nonlinear_arith)
                requires
                    0 <= h.num <= 4 * 268_435_456,
                    0 <= v.num <= 4 * 268_435_456,
                    0 <= h.den <= 4 * 268_435_456,
                    0 <= v.den <= 4 * 268_435_456,
            ;
            if h.num as i128 * v.den as i128 >= v.num as i128 * h.den as i128 {
                h
            } else {
                v
            }
        },
        (Some(h), None) => h,
        (None, Some(v)) => v,
        (None, None) => {
            proof {
                assert(false);
            }
            Distance { num: 0, den: 1 }
        },
    }
}

impl Ray {
    /// The distance can be walked along this ray without leaving the
    /// numbers the engine computes with.
    pub open spec fn reaches(self, t: Distance) -> bool {
        &&& self.origin.in_scene()
        &&& self.direction.within(2 * SCENE_LIMIT)
        &&& t.well_formed()
        &&& t.num <= 4 * SCENE_LIMIT
        &&& 2 <= t.den <= 4 * SCENE_LIMIT
    }

    /// The grid point nearest to the point at distance `t` along the ray.
    pub fn get_point(&self, t: Distance) -> (p: Point)
        requires
            self.reaches(t),
        ensures
            p == point_at(*self, t.num as int, t.den as int),
            p.in_reach(),
    {
        let x = self.origin.x + offset_along(t, self.direction.x);
        let y = self.origin.y + offset_along(t, self.direction.y);
        let z = self.origin.z + offset_along(t, self.direction.z);
        Point { x, y, z }
    }
}

/// How far the point at distance `t` lies from the origin of its ray along
/// one axis, rounded to the grid.
fn offset_along(t: Distance, direction: i64) -> (offset: i64)
    requires
        t.well_formed(),
        t.num <= 4 * SCENE_LIMIT,
        2 <= t.den <= 4 * SCENE_LIMIT,
        -2 * SCENE_LIMIT <= direction <= 2 * SCENE_LIMIT,
    ensures
        offset == round_div(t.num * direction, t.den as int),
        -(FAR_LIMIT - SCENE_LIMIT) <= offset <= FAR_LIMIT - SCENE_LIMIT,
{
    proof {
        lemma_product_bound(
            t.num as int,
            direction as int,
            4 * SCENE_LIMIT,
            2 * SCENE_LIMIT,
        );
        assert((4 * SCENE_LIMIT) * (2 * SCENE_LIMIT) == FAR_LIMIT) by (nonlinear_arith)
            requires
                SCENE_LIMIT == 268_435_456,
                FAR_LIMIT == 576_460_752_303_423_488,
        ;
    }
    let product: i128 = t.num as i128 * direction as i128;
    let q = round_quotient(product, t.den as i128);
    q as i64
}

/// Follows the ray from one point through another until it has left the
/// window, and returns the grid point where it ends.
///
/// The first point has to lie inside the window, and the two points must
/// differ in `x` or `y`.
pub fn project_points_to_window_edge(
    width: i64,
    height: i64,
    from_point: &Point,
    through_point: &Point,
) -> (end: Point)
    requires
        window_in_scene(width as int, height as int),
        inside_window(width as int, height as int, *from_point),
        from_point.in_scene(),
        through_point.in_scene(),
        from_point.x != through_point.x || from_point.y != through_point.y,
    ensures
        end == projection(width as int, height as int, *from_point, *through_point),
        end.in_reach(),
{
    let ray = Ray {
        origin: *from_point,
        direction: Point {
            x: through_point.x - from_point.x,
            y: through_point.y - from_point.y,
            z: through_point.z - from_point.z,
        },
    };
    let t = project_ray_to_window_edge(width, height, ray);
    ray.get_point(t)
}

} // verus!
