//! Shadows: where the viewer cannot see because a wall is in the way.
//!
//! Each edge of a wall throws one shadow, the quadrilateral between the
//! edge and the two points where the rays from the viewer through the ends
//! of the edge leave the window.

use crate::geometry::{round_div, round_quotient, Point, Segment, FAR_LIMIT, SCENE_LIMIT};
use crate::mesh::Line;
use crate::occluder::Occluder;
use crate::projection::{
    inside_window, is_inside_window, project_points_to_window_edge, projection,
    window_fits_scene, window_in_scene,
};
use crate::quad::Quad;
use crate::sight::Entity;
use vstd::prelude::*;

verus! {

/// Whether rays and barycentres are kept for display unless told otherwise.
pub const DEBUG: bool = false;

/// The shadow one edge of a wall throws.
#[derive(Clone, Copy, Debug, PartialEq, Eq, Structural)]
pub struct SegmentShadow {
    /// The edge.
    pub segment: Segment,
    /// The edge, and where the rays through its two ends leave the window.
    pub quad: Quad,
    /// Where the marker of the barycentre is drawn, if one is kept.
    pub barycentre: Option<Point>,
}

/// The shadows of one wall: one for each edge, in the order of the edges.
#[derive(Clone, Copy, Debug, PartialEq, Eq)]
pub struct PlayerShadow {
    /// The wall. It is named, not owned: when the wall goes, the shadows
    /// are found by this name.
    pub occluder: Entity,
    pub children: [SegmentShadow; 4],
}

/// A ray from the viewer through a corner of a wall, kept for display.
#[derive(Clone, Copy, Debug, PartialEq, Eq, Structural)]
pub struct PlayerRay {
    /// The wall whose corner the ray passes through.
    pub occluder: Entity,
    /// Where the viewer stood when the ray was last computed.
    pub start: Point,
    /// The corner.
    pub through: Point,
    /// Where the ray leaves the window.
    pub end: Point,
}

/// The two points differ in the plane.
pub open spec fn apart(p: Point, q: Point) -> bool {
    p.x != q.x || p.y != q.y
}

/// Whether the two points differ in the plane.
pub fn is_apart(p: &Point, q: &Point) -> (differ: bool)
    ensures
        differ == apart(*p, *q),
{
    p.x != q.x || p.y != q.y
}

/// The corners of the shadow behind `segment` for a viewer at `viewer`.
pub open spec fn shadow_quad(width: int, height: int, viewer: Point, segment: Segment) -> Quad {
    Quad(
        segment.0,
        projection(width, height, viewer, segment.0),
        projection(width, height, viewer, segment.1),
        segment.1,
    )
}

/// Where the marker of a quadrilateral's barycentre is drawn: at the mean
/// of the four corners, rounded to the grid.
pub open spec fn barycentre_marker(quad: Quad) -> Point {
    Point {
        x: round_div(quad.0.x + quad.1.x + quad.2.x + quad.3.x, 4) as i64,
        y: round_div(quad.0.y + quad.1.y + quad.2.y + quad.3.y, 4) as i64,
        z: round_div(quad.0.z + quad.1.z + quad.2.z + quad.3.z, 4) as i64,
    }
}

/// The shadow behind `segment` for a viewer at `viewer`.
pub open spec fn segment_shadow(
    width: int,
    height: int,
    viewer: Point,
    segment: Segment,
    marked: bool,
) -> SegmentShadow {
    let quad = shadow_quad(width, height, viewer, segment);
    SegmentShadow {
        segment,
        quad,
        barycentre: if marked {
            Some(barycentre_marker(quad))
        } else {
            None
        },
    }
}

/// The shadows of a wall for a viewer at `viewer`.
pub open spec fn player_shadow(
    width: int,
    height: int,
    viewer: Point,
    entity: Entity,
    occluder: Occluder,
    marked: bool,
) -> PlayerShadow {
    PlayerShadow {
        occluder: entity,
        children: [
            segment_shadow(width, height, viewer, occluder.top(), marked),
            segment_shadow(width, height, viewer, occluder.bottom(), marked),
            segment_shadow(width, height, viewer, occluder.left(), marked),
            segment_shadow(width, height, viewer, occluder.right(), marked),
        ],
    }
}

/// The ray from `viewer` through `through`, a corner of the wall `entity`.
pub open spec fn player_ray(
    width: int,
    height: int,
    viewer: Point,
    entity: Entity,
    through: Point,
) -> PlayerRay {
    PlayerRay {
        occluder: entity,
        start: viewer,
        through,
        end: projection(width, height, viewer, through),
    }
}

/// The ends of the four edges of a wall, edge by edge: the eight points
/// that rays are drawn through.
pub open spec fn ray_targets(occluder: Occluder) -> Seq<Point> {
    seq![
        occluder.top().0,
        occluder.top().1,
        occluder.bottom().0,
        occluder.bottom().1,
        occluder.left().0,
        occluder.left().1,
        occluder.right().0,
        occluder.right().1,
    ]
}

impl SegmentShadow {
    /// The edge is one a scene may hold and the corners are within reach.
    pub open spec fn well_formed(self) -> bool {
        &&& self.segment.0.in_scene()
        &&& self.segment.1.in_scene()
        &&& self.quad.in_reach()
    }

    /// The viewer may stand at `viewer`: on neither end of the edge.
    pub open spec fn clear_of(self, viewer: Point) -> bool {
        apart(viewer, self.segment.0) && apart(viewer, self.segment.1)
    }

    /// The same shadow after the viewer has moved to `viewer`: the edge
    /// stays, the corners are projected anew, and the marker, if there is
    /// one, moves with them.
    pub open spec fn recast(self, width: int, height: int, viewer: Point) -> SegmentShadow {
        segment_shadow(width, height, viewer, self.segment, self.barycentre is Some)
    }
}

impl PlayerShadow {
    /// All four shadows are well formed.
    pub open spec fn well_formed(self) -> bool {
        forall|i: int| 0 <= i < 4 ==> (#[trigger] self.children[i]).well_formed()
    }

    /// The viewer may stand at `viewer`: on no end of any edge.
    pub open spec fn clear_of(self, viewer: Point) -> bool {
        forall|i: int| 0 <= i < 4 ==> (#[trigger] self.children[i]).clear_of(viewer)
    }

    /// The same shadows after the viewer has moved to `viewer`.
    pub open spec fn recast(self, width: int, height: int, viewer: Point) -> PlayerShadow {
        PlayerShadow {
            occluder: self.occluder,
            children: [
                self.children[0].recast(width, height, viewer),
                self.children[1].recast(width, height, viewer),
                self.children[2].recast(width, height, viewer),
                self.children[3].recast(width, height, viewer),
            ],
        }
    }
}

impl PlayerRay {
    /// The same ray after the viewer has moved to `viewer`.
    pub open spec fn recast(self, width: int, height: int, viewer: Point) -> PlayerRay {
        player_ray(width, height, viewer, self.occluder, self.through)
    }

    /// The line to draw: from the viewer to where the ray leaves the window.
    pub fn line(&self) -> (line: Line)
        ensures
            line == (Line { start: self.start, end: self.end }),
    {
        Line { start: self.start, end: self.end }
    }
}

/// Casting a shadow anew for a viewer who has not moved changes nothing:
/// the second result is the first, corner for corner.
pub proof fn lemma_recast_is_idempotent(shadow: PlayerShadow, width: int, height: int, viewer: Point)
    ensures
        shadow.recast(width, height, viewer).recast(width, height, viewer) == shadow.recast(
            width,
            height,
            viewer,
        ),
{
    let once = shadow.recast(width, height, viewer);
    let twice = once.recast(width, height, viewer);
    assert(twice.children =~= once.children);
}

/// A shadow that has just been cast is already up to date: casting it
/// anew for the same viewer gives the same shadow.
pub proof fn lemma_fresh_shadow_is_up_to_date(
    width: int,
    height: int,
    viewer: Point,
    entity: Entity,
    occluder: Occluder,
    marked: bool,
)
    ensures
        player_shadow(width, height, viewer, entity, occluder, marked).recast(
            width,
            height,
            viewer,
        ) == player_shadow(width, height, viewer, entity, occluder, marked),
{
    let fresh = player_shadow(width, height, viewer, entity, occluder, marked);
    assert(fresh.recast(width, height, viewer).children =~= fresh.children);
}

/// Drawing a ray anew for a viewer who has not moved changes nothing.
pub proof fn lemma_ray_recast_is_idempotent(ray: PlayerRay, width: int, height: int, viewer: Point)
    ensures
        ray.recast(width, height, viewer).recast(width, height, viewer) == ray.recast(
            width,
            height,
            viewer,
        ),
{
}

/// Bringing all shadows and rays up to date twice, with the viewer in one
/// place, gives what bringing them up to date once gives.
pub proof fn lemma_update_is_idempotent(
    shadows: Seq<PlayerShadow>,
    rays: Seq<PlayerRay>,
    width: int,
    height: int,
    viewer: Point,
)
    ensures
        ({
            let renew = |shadow: PlayerShadow| shadow.recast(width, height, viewer);
            shadows.map_values(renew).map_values(renew) == shadows.map_values(renew)
        }),
        ({
            let renew = |ray: PlayerRay| ray.recast(width, height, viewer);
            rays.map_values(renew).map_values(renew) == rays.map_values(renew)
        }),
{
    let renew = |shadow: PlayerShadow| shadow.recast(width, height, viewer);
    assert forall|i: int| 0 <= i < shadows.len() implies shadows.map_values(renew).map_values(
        renew,
    )[i] == shadows.map_values(renew)[i] by {
        lemma_recast_is_idempotent(shadows[i], width, height, viewer);
    }
    assert(shadows.map_values(renew).map_values(renew) =~= shadows.map_values(renew));
    let redraw = |ray: PlayerRay| ray.recast(width, height, viewer);
    assert(rays.map_values(redraw).map_values(redraw) =~= rays.map_values(redraw));
}

/// When walls go, exactly the shadows that name one of them go with
/// them: a shadow is there afterwards if and only if it was there before
/// and its wall is not among the removed; and if no shadow names a
/// removed wall, nothing changes at all.
pub proof fn lemma_removal_takes_only_what_names_a_removed_wall(
    shadows: Seq<PlayerShadow>,
    removed: Seq<Entity>,
)
    ensures
        ({
            let keep = |shadow: PlayerShadow| !removed.contains(shadow.occluder);
            &&& forall|shadow: PlayerShadow|
                shadows.filter(keep).contains(shadow) <==> shadows.contains(shadow)
                    && !removed.contains(shadow.occluder)
            &&& (forall|i: int|
                0 <= i < shadows.len() ==> !removed.contains((#[trigger] shadows[i]).occluder))
                ==> shadows.filter(keep) == shadows
        }),
{
    let keep = |shadow: PlayerShadow| !removed.contains(shadow.occluder);
    lemma_filter_membership(shadows, keep);
    if forall|i: int| 0 <= i < shadows.len() ==> !removed.contains((#[trigger] shadows[i]).occluder) {
        lemma_filter_keeps_all(shadows, keep);
    }
}

/// When walls go, exactly the rays that name one of them go with them.
pub proof fn lemma_removal_takes_only_rays_of_a_removed_wall(
    rays: Seq<PlayerRay>,
    removed: Seq<Entity>,
)
    ensures
        ({
            let keep = |ray: PlayerRay| !removed.contains(ray.occluder);
            &&& forall|ray: PlayerRay|
                rays.filter(keep).contains(ray) <==> rays.contains(ray) && !removed.contains(
                    ray.occluder,
                )
            &&& (forall|i: int|
                0 <= i < rays.len() ==> !removed.contains((#[trigger] rays[i]).occluder))
                ==> rays.filter(keep) == rays
        }),
{
    let keep = |ray: PlayerRay| !removed.contains(ray.occluder);
    lemma_filter_membership(rays, keep);
    if forall|i: int| 0 <= i < rays.len() ==> !removed.contains((#[trigger] rays[i]).occluder) {
        lemma_filter_keeps_all(rays, keep);
    }
}

/// A filter keeps exactly the members that pass it.
proof fn lemma_filter_membership<A>(all: Seq<A>, keep: spec_fn(A) -> bool)
    ensures
        forall|a: A| all.filter(keep).contains(a) <==> all.contains(a) && keep(a),
{
    assert forall|a: A| all.filter(keep).contains(a) <==> all.contains(a) && keep(a) by {
        if all.filter(keep).contains(a) {
            let i = choose|i: int| 0 <= i < all.filter(keep).len() && all.filter(keep)[i] == a;
            all.lemma_filter_pred(keep, i);
            all.lemma_filter_contains_rev(keep, a);
        }
        if all.contains(a) && keep(a) {
            let i = choose|i: int| 0 <= i < all.len() && all[i] == a;
            all.lemma_filter_contains(keep, i);
        }
    }
}

/// A filter that every member passes changes nothing.
proof fn lemma_filter_keeps_all<A>(all: Seq<A>, keep: spec_fn(A) -> bool)
    requires
        forall|i: int| 0 <= i < all.len() ==> keep(#[trigger] all[i]),
    ensures
        all.filter(keep) == all,
    decreases all.len(),
{
    reveal(Seq::filter);
    if all.len() > 0 {
        lemma_filter_keeps_all(all.drop_last(), keep);
        assert(all.drop_last().push(all.last()) =~= all);
    }
}

/// The viewer stands where shadows can be cast from: inside the window.
pub open spec fn viewer_in_window(width: int, height: int, viewer: Point) -> bool {
    &&& window_in_scene(width, height)
    &&& inside_window(width, height, viewer)
    &&& viewer.in_scene()
}

/// Whether shadows can be cast for a viewer at `viewer` in a window of
/// this size.
pub fn can_cast_from(width: i64, height: i64, viewer: &Point) -> (able: bool)
    ensures
        able == viewer_in_window(width as int, height as int, *viewer),
{
    window_fits_scene(width, height) && viewer.fits_scene() && is_inside_window(
        width,
        height,
        viewer,
    )
}

/// `(a + b + c + d) / 4`, rounded to the grid.
fn mean_of_four(a: i64, b: i64, c: i64, d: i64) -> (m: i64)
    requires
        -FAR_LIMIT <= a <= FAR_LIMIT,
        -FAR_LIMIT <= b <= FAR_LIMIT,
        -FAR_LIMIT <= c <= FAR_LIMIT,
        -FAR_LIMIT <= d <= FAR_LIMIT,
    ensures
        m == round_div(a + b + c + d, 4),
        -2 * FAR_LIMIT - 1 <= m <= 2 * FAR_LIMIT + 1,
{
    let sum: i128 = a as i128 + b as i128 + c as i128 + d as i128;
    let q = round_quotient(sum, 4);
    q as i64
}

/// Casts the shadow of one edge.
fn cast_segment_shadow(
    width: i64,
    height: i64,
    viewer: &Point,
    segment: Segment,
    marked: bool,
) -> (shadow: SegmentShadow)
    requires
        viewer_in_window(width as int, height as int, *viewer),
        segment.0.in_scene(),
        segment.1.in_scene(),
        apart(*viewer, segment.0),
        apart(*viewer, segment.1),
    ensures
        shadow == segment_shadow(width as int, height as int, *viewer, segment, marked),
        shadow.well_formed(),
{
    let ray_1_end = project_points_to_window_edge(width, height, viewer, &segment.0);
    let ray_2_end = project_points_to_window_edge(width, height, viewer, &segment.1);
    let v1 = segment.0;
    let v2 = ray_1_end;
    let v3 = ray_2_end;
    let v4 = segment.1;
    let barycentre = if marked {
        Some(
            Point {
                x: mean_of_four(v1.x, v2.x, v3.x, v4.x),
                y: mean_of_four(v1.y, v2.y, v3.y, v4.y),
                z: mean_of_four(v1.z, v2.z, v3.z, v4.z),
            },
        )
    } else {
        None
    };
    SegmentShadow { segment, quad: Quad(v1, v2, v3, v4), barycentre }
}

/// The four edges of a wall the scene may hold end in points the scene
/// may hold, and the viewer is apart from all of them if it stands on no
/// corner.
pub proof fn lemma_edges_of_wall(occluder: Occluder, viewer: Point)
    requires
        occluder.in_scene(),
    ensures
        forall|i: int|
            0 <= i < 8 ==> (#[trigger] ray_targets(occluder)[i]).in_scene(),
        !occluder.has_corner_at(viewer) ==> forall|i: int|
            0 <= i < 8 ==> apart(viewer, #[trigger] ray_targets(occluder)[i]),
{
}

/// Casts the shadows of one wall.
fn cast_player_shadow(
    width: i64,
    height: i64,
    viewer: &Point,
    entity: Entity,
    occluder: &Occluder,
    marked: bool,
) -> (shadow: PlayerShadow)
    requires
        viewer_in_window(width as int, height as int, *viewer),
        occluder.in_scene(),
        !occluder.has_corner_at(*viewer),
    ensures
        shadow == player_shadow(
            width as int,
            height as int,
            *viewer,
            entity,
            *occluder,
            marked,
        ),
        shadow.well_formed(),
        shadow.clear_of(*viewer),
{
    let edges = occluder.iter_segments();
    proof {
        lemma_edges_of_wall(*occluder, *viewer);
        let targets = ray_targets(*occluder);
        assert(targets[0].in_scene() && targets[1].in_scene() && targets[2].in_scene()
            && targets[3].in_scene() && targets[4].in_scene() && targets[5].in_scene()
            && targets[6].in_scene() && targets[7].in_scene());
        assert(apart(*viewer, targets[0]) && apart(*viewer, targets[1]) && apart(
            *viewer,
            targets[2],
        ) && apart(*viewer, targets[3]) && apart(*viewer, targets[4]) && apart(
            *viewer,
            targets[5],
        ) && apart(*viewer, targets[6]) && apart(*viewer, targets[7]));
    }
    let top = cast_segment_shadow(width, height, viewer, edges[0], marked);
    let bottom = cast_segment_shadow(width, height, viewer, edges[1], marked);
    let left = cast_segment_shadow(width, height, viewer, edges[2], marked);
    let right = cast_segment_shadow(width, height, viewer, edges[3], marked);
    PlayerShadow { occluder: entity, children: [top, bottom, left, right] }
}

/// Casts the ray through one corner.
fn cast_player_ray(
    width: i64,
    height: i64,
    viewer: &Point,
    entity: Entity,
    through: Point,
) -> (ray: PlayerRay)
    requires
        viewer_in_window(width as int, height as int, *viewer),
        through.in_scene(),
        apart(*viewer, through),
    ensures
        ray == player_ray(width as int, height as int, *viewer, entity, through),
{
    let end = project_points_to_window_edge(width, height, viewer, &through);
    PlayerRay { occluder: entity, start: *viewer, through, end }
}

/// The rays of one wall: two for each edge, in the order of the edges.
pub open spec fn rays_of(
    width: int,
    height: int,
    viewer: Point,
    entity: Entity,
    occluder: Occluder,
) -> Seq<PlayerRay> {
    Seq::new(
        8,
        |i: int| player_ray(width, height, viewer, entity, ray_targets(occluder)[i]),
    )
}

/// The shadows of newly seen walls, wall by wall.
pub open spec fn shadows_cast(
    width: int,
    height: int,
    viewer: Point,
    added: Seq<(Entity, Occluder)>,
    marked: bool,
) -> Seq<PlayerShadow> {
    Seq::new(
        added.len(),
        |k: int| player_shadow(width, height, viewer, added[k].0, added[k].1, marked),
    )
}

/// The rays of newly seen walls: eight for each wall, wall by wall.
pub open spec fn rays_cast(
    width: int,
    height: int,
    viewer: Point,
    added: Seq<(Entity, Occluder)>,
) -> Seq<PlayerRay> {
    Seq::new(
        8 * added.len(),
        |i: int| rays_of(width, height, viewer, added[i / 8].0, added[i / 8].1)[i % 8],
    )
}

/// One more wall adds its shadows at the end.
proof fn lemma_shadows_cast_grows(
    width: int,
    height: int,
    viewer: Point,
    added: Seq<(Entity, Occluder)>,
    marked: bool,
    k: int,
)
    requires
        0 <= k < added.len(),
    ensures
        shadows_cast(width, height, viewer, added.take(k + 1), marked) == shadows_cast(
            width,
            height,
            viewer,
            added.take(k),
            marked,
        ).push(player_shadow(width, height, viewer, added[k].0, added[k].1, marked)),
{
    assert(shadows_cast(width, height, viewer, added.take(k + 1), marked) =~= shadows_cast(
        width,
        height,
        viewer,
        added.take(k),
        marked,
    ).push(player_shadow(width, height, viewer, added[k].0, added[k].1, marked)));
}

/// One more wall adds its eight rays at the end.
proof fn lemma_rays_cast_grows(
    width: int,
    height: int,
    viewer: Point,
    added: Seq<(Entity, Occluder)>,
    k: int,
)
    requires
        0 <= k < added.len(),
    ensures
        rays_cast(width, height, viewer, added.take(k + 1)) == rays_cast(
            width,
            height,
            viewer,
            added.take(k),
        ) + rays_of(width, height, viewer, added[k].0, added[k].1),
{
    let longer = rays_cast(width, height, viewer, added.take(k + 1));
    let shorter = rays_cast(width, height, viewer, added.take(k));
    let last = rays_of(width, height, viewer, added[k].0, added[k].1);
    assert(longer.len() == shorter.len() + last.len());
    assert forall|i: int| 0 <= i < longer.len() implies longer[i] == (shorter + last)[i] by {
        if i < 8 * k {
            assert(added.take(k + 1)[i / 8] == added.take(k)[i / 8]);
        } else {
            assert(i / 8 == k);
            assert(i % 8 == i - 8 * k);
        }
    }
    assert(longer =~= shorter + last);
}

/// Casts the eight rays of one wall and appends them.
fn push_player_rays(
    rays: &mut Vec<PlayerRay>,
    width: i64,
    height: i64,
    viewer: &Point,
    entity: Entity,
    occluder: &Occluder,
)
    requires
        viewer_in_window(width as int, height as int, *viewer),
        occluder.in_scene(),
        !occluder.has_corner_at(*viewer),
    ensures
        final(rays)@ == old(rays)@ + rays_of(
            width as int,
            height as int,
            *viewer,
            entity,
            *occluder,
        ),
{
    let edges = occluder.iter_segments();
    let ghost rays_before = rays@;
    let ghost targets = ray_targets(*occluder);
    proof {
        lemma_edges_of_wall(*occluder, *viewer);
        assert(targets[0].in_scene() && targets[1].in_scene() && targets[2].in_scene()
            && targets[3].in_scene() && targets[4].in_scene() && targets[5].in_scene()
            && targets[6].in_scene() && targets[7].in_scene());
        assert(apart(*viewer, targets[0]) && apart(*viewer, targets[1]) && apart(
            *viewer,
            targets[2],
        ) && apart(*viewer, targets[3]) && apart(*viewer, targets[4]) && apart(
            *viewer,
            targets[5],
        ) && apart(*viewer, targets[6]) && apart(*viewer, targets[7]));
    }
    let mut e: usize = 0;
    while e < 4
        invariant
            0 <= e <= 4,
            viewer_in_window(width as int, height as int, *viewer),
            edges@ == occluder.segments(),
            targets == ray_targets(*occluder),
            forall|i: int|
                0 <= i < 8 ==> (#[trigger] targets[i]).in_scene() && apart(*viewer, targets[i]),
            rays@.len() == rays_before.len() + 2 * e,
            forall|i: int| 0 <= i < rays_before.len() ==> rays@[i] == rays_before[i],
            forall|i: int|
                0 <= i < 2 * e ==> rays@[rays_before.len() + i] == player_ray(
                    width as int,
                    height as int,
                    *viewer,
                    entity,
                    targets[i],
                ),
        decreases 4 - e,
    {
        let segment = edges[e];
        assert(segment.0 == targets[2 * e]);
        assert(segment.1 == targets[2 * e + 1]);
        let ray_1 = cast_player_ray(width, height, viewer, entity, segment.0);
        let ray_2 = cast_player_ray(width, height, viewer, entity, segment.1);
        rays.push(ray_1);
        rays.push(ray_2);
        e += 1;
    }
    assert(rays@ =~= rays_before + rays_of(
        width as int,
        height as int,
        *viewer,
        entity,
        *occluder,
    ));
}

/// No wall has more than one group of shadows.
pub open spec fn one_group_per_wall(shadows: Seq<PlayerShadow>) -> bool {
    forall|i: int, j: int|
        0 <= i < j < shadows.len() ==> (#[trigger] shadows[i]).occluder != (
        #[trigger] shadows[j]).occluder
}

/// The walls are all different, and none of them has shadows yet.
pub open spec fn all_new(shadows: Seq<PlayerShadow>, added: Seq<(Entity, Occluder)>) -> bool {
    &&& forall|k: int, l: int|
        0 <= k < l < added.len() ==> (#[trigger] added[k]).0 != (#[trigger] added[l]).0
    &&& forall|i: int, k: int|
        0 <= i < shadows.len() && 0 <= k < added.len() ==> (#[trigger] shadows[i]).occluder != (
        #[trigger] added[k]).0
}

/// Dropping groups leaves no wall with more than one group, if none had
/// more than one before.
pub proof fn lemma_dropping_keeps_one_group_per_wall(
    shadows: Seq<PlayerShadow>,
    keep: spec_fn(PlayerShadow) -> bool,
)
    requires
        one_group_per_wall(shadows),
    ensures
        one_group_per_wall(shadows.filter(keep)),
    decreases shadows.len(),
{
    reveal(Seq::filter);
    if shadows.len() > 0 {
        let front = shadows.drop_last();
        lemma_dropping_keeps_one_group_per_wall(front, keep);
        let kept = front.filter(keep);
        if keep(shadows.last()) {
            assert forall|i: int| 0 <= i < kept.len() implies (#[trigger] kept[i]).occluder
                != shadows.last().occluder by {
                lemma_kept_is_part(front, keep);
                let at = choose|at: int| 0 <= at < front.len() && front[at] == kept[i];
                assert(shadows[at] == kept[i]);
                assert(shadows[shadows.len() - 1] == shadows.last());
            }
        }
    }
}

/// All the shadows the viewer casts, wall by wall, and, where they are
/// kept for display, the rays that bound them.
pub struct Shadows {
    pub player_shadows: Vec<PlayerShadow>,
    pub player_rays: Vec<PlayerRay>,
    /// Whether new shadows get rays and a barycentre marker.
    pub debug: bool,
}

impl Shadows {
    /// Every shadow is well formed and every ray passes through a point a
    /// scene may hold.
    pub open spec fn well_formed(self) -> bool {
        &&& forall|i: int|
            0 <= i < self.player_shadows@.len() ==> (#[trigger] self.player_shadows@[i]).well_formed()
        &&& forall|i: int|
            0 <= i < self.player_rays@.len() ==> (#[trigger] self.player_rays@[i]).through.in_scene()
    }

    /// The viewer may stand at `viewer`: on no end of an edge that throws
    /// a shadow and on no point a ray passes through.
    pub open spec fn clear_of(self, viewer: Point) -> bool {
        &&& forall|i: int|
            0 <= i < self.player_shadows@.len() ==> (#[trigger] self.player_shadows@[i]).clear_of(
                viewer,
            )
        &&& forall|i: int|
            0 <= i < self.player_rays@.len() ==> apart(
                viewer,
                (#[trigger] self.player_rays@[i]).through,
            )
    }

    /// Whether the viewer may stand at `viewer`: on no end of an edge
    /// that throws a shadow and on no point a ray passes through.
    pub fn is_clear_of(&self, viewer: &Point) -> (clear: bool)
        ensures
            clear == self.clear_of(*viewer),
    {
        let mut i: usize = 0;
        while i < self.player_shadows.len()
            invariant
                0 <= i <= self.player_shadows@.len(),
                forall|j: int| 0 <= j < i ==> (#[trigger] self.player_shadows@[j]).clear_of(*viewer),
            decreases self.player_shadows@.len() - i,
        {
            let group = &self.player_shadows[i];
            let mut e: usize = 0;
            while e < 4
                invariant
                    0 <= e <= 4,
                    0 <= i < self.player_shadows@.len(),
                    *group == self.player_shadows@[i as int],
                    forall|d: int| 0 <= d < e ==> (#[trigger] group.children[d]).clear_of(*viewer),
                decreases 4 - e,
            {
                let segment = group.children[e].segment;
                if !(is_apart(viewer, &segment.0) && is_apart(viewer, &segment.1)) {
                    assert(!group.children[e as int].clear_of(*viewer));
                    return false;
                }
                e += 1;
            }
            i += 1;
        }
        let mut i: usize = 0;
        while i < self.player_rays.len()
            invariant
                0 <= i <= self.player_rays@.len(),
                forall|j: int|
                    0 <= j < self.player_shadows@.len() ==> (#[trigger] self.player_shadows@[j]).clear_of(
                        *viewer,
                    ),
                forall|j: int|
                    0 <= j < i ==> apart(*viewer, (#[trigger] self.player_rays@[j]).through),
            decreases self.player_rays@.len() - i,
        {
            if !is_apart(viewer, &self.player_rays[i].through) {
                return false;
            }
            i += 1;
        }
        true
    }

    /// No shadows yet.
    pub fn new(debug: bool) -> (shadows: Shadows)
        ensures
            shadows.player_shadows@.len() == 0,
            shadows.player_rays@.len() == 0,
            shadows.debug == debug,
            shadows.well_formed(),
    {
        Shadows { player_shadows: Vec::new(), player_rays: Vec::new(), debug }
    }

    /// Casts the shadows of walls that have just appeared, for a viewer
    /// standing at `viewer`.
    ///
    /// Each wall gets one group of four shadows, appended in the order the
    /// walls are given. The viewer has to stand inside the window and on
    /// no corner of a new wall.
    pub fn add_player_shadows(
        &mut self,
        width: i64,
        height: i64,
        viewer: &Point,
        added: &Vec<(Entity, Occluder)>,
    )
        requires
            old(self).well_formed(),
            viewer_in_window(width as int, height as int, *viewer),
            forall|k: int|
                0 <= k < added@.len() ==> (#[trigger] added@[k]).1.in_scene() && !added@[k].1.has_corner_at(
                    *viewer,
                ),
        ensures
            final(self).player_shadows@ == old(self).player_shadows@ + shadows_cast(
                width as int,
                height as int,
                *viewer,
                added@,
                old(self).debug,
            ),
            final(self).player_rays@ == old(self).player_rays@ + if old(self).debug {
                rays_cast(width as int, height as int, *viewer, added@)
            } else {
                Seq::empty()
            },
            final(self).debug == old(self).debug,
            final(self).well_formed(),
            old(self).clear_of(*viewer) ==> final(self).clear_of(*viewer),
            one_group_per_wall(old(self).player_shadows@) && all_new(
                old(self).player_shadows@,
                added@,
            ) ==> one_group_per_wall(final(self).player_shadows@),
    {
        let ghost w = width as int;
        let ghost h = height as int;
        let ghost before = *self;
        let mut k: usize = 0;
        assert(added@.take(0) =~= Seq::empty());
        assert(self.player_shadows@ =~= before.player_shadows@ + shadows_cast(
            w,
            h,
            *viewer,
            added@.take(0),
            before.debug,
        ));
        assert(self.player_rays@ =~= before.player_rays@ + rays_cast(w, h, *viewer, added@.take(0)));
        assert(self.player_rays@ =~= before.player_rays@ + Seq::empty());
        while k < added.len()
            invariant
                0 <= k <= added@.len(),
                w == width,
                h == height,
                self.debug == before.debug,
                self.well_formed(),
                before.clear_of(*viewer) ==> self.clear_of(*viewer),
                viewer_in_window(w, h, *viewer),
                forall|k: int|
                    0 <= k < added@.len() ==> (#[trigger] added@[k]).1.in_scene() && !added@[k].1.has_corner_at(
                        *viewer,
                    ),
                self.player_shadows@ == before.player_shadows@ + shadows_cast(
                    w,
                    h,
                    *viewer,
                    added@.take(k as int),
                    before.debug,
                ),
                self.player_rays@ == before.player_rays@ + if before.debug {
                    rays_cast(w, h, *viewer, added@.take(k as int))
                } else {
                    Seq::empty()
                },
            decreases added@.len() - k,
        {
            let entity = added[k].0;
            let occluder = added[k].1;
            let group = cast_player_shadow(width, height, viewer, entity, &occluder, self.debug);
            let ghost shadows_before = self.player_shadows@;
            let ghost rays_before = self.player_rays@;
            self.player_shadows.push(group);
            proof {
                lemma_shadows_cast_grows(w, h, *viewer, added@, before.debug, k as int);
                assert(self.player_shadows@ =~= before.player_shadows@ + shadows_cast(
                    w,
                    h,
                    *viewer,
                    added@.take(k + 1),
                    before.debug,
                ));
            }
            if self.debug {
                push_player_rays(&mut self.player_rays, width, height, viewer, entity, &occluder);
                proof {
                    lemma_rays_cast_grows(w, h, *viewer, added@, k as int);
                    lemma_edges_of_wall(occluder, *viewer);
                    let cast = rays_of(w, h, *viewer, entity, occluder);
                    assert(self.player_rays@ =~= before.player_rays@ + rays_cast(
                        w,
                        h,
                        *viewer,
                        added@.take(k + 1),
                    ));
                    assert forall|i: int| 0 <= i < self.player_rays@.len() implies (
                    #[trigger] self.player_rays@[i]).through.in_scene() && (before.clear_of(*viewer)
                        ==> apart(*viewer, self.player_rays@[i].through)) by {
                        if i < rays_before.len() {
                            assert(self.player_rays@[i] == rays_before[i]);
                        } else {
                            let j = i - rays_before.len();
                            assert(self.player_rays@[i] == cast[j]);
                            assert(cast[j].through == ray_targets(occluder)[j]);
                        }
                    }
                }
            }
            proof {
                assert forall|i: int| 0 <= i < self.player_shadows@.len() implies (
                #[trigger] self.player_shadows@[i]).well_formed() && (before.clear_of(*viewer)
                    ==> self.player_shadows@[i].clear_of(*viewer)) by {
                    if i < shadows_before.len() {
                        assert(self.player_shadows@[i] == shadows_before[i]);
                    }
                }
            }
            k += 1;
        }
        assert(added@.take(k as int) =~= added@);
        proof {
            if one_group_per_wall(before.player_shadows@) && all_new(before.player_shadows@, added@) {
                let cast = shadows_cast(w, h, *viewer, added@, before.debug);
                let n = before.player_shadows@.len() as int;
                assert forall|i: int, j: int| 0 <= i < j < self.player_shadows@.len() implies (
                #[trigger] self.player_shadows@[i]).occluder != (
                #[trigger] self.player_shadows@[j]).occluder by {
                    if j < n {
                        assert(self.player_shadows@[i] == before.player_shadows@[i]);
                        assert(self.player_shadows@[j] == before.player_shadows@[j]);
                    } else if i < n {
                        assert(self.player_shadows@[i] == before.player_shadows@[i]);
                        assert(self.player_shadows@[j] == cast[j - n]);
                        assert(cast[j - n].occluder == added@[j - n].0);
                    } else {
                        assert(self.player_shadows@[i] == cast[i - n]);
                        assert(self.player_shadows@[j] == cast[j - n]);
                        assert(cast[i - n].occluder == added@[i - n].0);
                        assert(cast[j - n].occluder == added@[j - n].0);
                    }
                }
            }
        }
    }

    /// Brings every shadow and every ray up to date with a viewer who has
    /// moved to `viewer`.
    ///
    /// Nothing is created or dropped: each edge keeps its shadow, whose
    /// corners are projected anew, each marker moves to the new
    /// barycentre, and each ray is drawn from the new position.
    pub fn update_player_shadows(&mut self, width: i64, height: i64, viewer: &Point)
        requires
            old(self).well_formed(),
            old(self).clear_of(*viewer),
            viewer_in_window(width as int, height as int, *viewer),
        ensures
            final(self).player_shadows@ == old(self).player_shadows@.map_values(
                |shadow: PlayerShadow| shadow.recast(width as int, height as int, *viewer),
            ),
            final(self).player_rays@ == old(self).player_rays@.map_values(
                |ray: PlayerRay| ray.recast(width as int, height as int, *viewer),
            ),
            final(self).debug == old(self).debug,
            final(self).well_formed(),
            final(self).clear_of(*viewer),
            one_group_per_wall(old(self).player_shadows@) ==> one_group_per_wall(
                final(self).player_shadows@,
            ),
    {
        let ghost w = width as int;
        let ghost h = height as int;
        let ghost before = *self;
        let mut i: usize = 0;
        while i < self.player_rays.len()
            invariant
                0 <= i <= self.player_rays@.len(),
                w == width,
                h == height,
                viewer_in_window(w, h, *viewer),
                before.well_formed(),
                before.clear_of(*viewer),
                self.debug == before.debug,
                self.player_shadows@ == before.player_shadows@,
                self.player_rays@.len() == before.player_rays@.len(),
                forall|j: int|
                    0 <= j < i ==> self.player_rays@[j] == (#[trigger] before.player_rays@[j]).recast(
                        w,
                        h,
                        *viewer,
                    ),
                forall|j: int|
                    i <= j < self.player_rays@.len() ==> self.player_rays@[j]
                        == before.player_rays@[j],
            decreases self.player_rays@.len() - i,
        {
            let ray = self.player_rays[i];
            assert(ray == before.player_rays@[i as int]);
            let renewed = cast_player_ray(width, height, viewer, ray.occluder, ray.through);
            self.player_rays[i] = renewed;
            i += 1;
        }
        let mut i: usize = 0;
        while i < self.player_shadows.len()
            invariant
                0 <= i <= self.player_shadows@.len(),
                w == width,
                h == height,
                viewer_in_window(w, h, *viewer),
                before.well_formed(),
                before.clear_of(*viewer),
                self.debug == before.debug,
                self.player_shadows@.len() == before.player_shadows@.len(),
                forall|j: int|
                    0 <= j < before.player_rays@.len() ==> self.player_rays@[j] == (
                    #[trigger] before.player_rays@[j]).recast(w, h, *viewer),
                self.player_rays@.len() == before.player_rays@.len(),
                forall|j: int|
                    0 <= j < i ==> self.player_shadows@[j] == (
                    #[trigger] before.player_shadows@[j]).recast(w, h, *viewer)
                        && self.player_shadows@[j].well_formed() && self.player_shadows@[j].clear_of(
                        *viewer,
                    ),
                forall|j: int|
                    i <= j < self.player_shadows@.len() ==> self.player_shadows@[j]
                        == before.player_shadows@[j],
            decreases self.player_shadows@.len() - i,
        {
            let shadow = self.player_shadows[i];
            assert(shadow == before.player_shadows@[i as int]);
            let renewed = recast_player_shadow(width, height, viewer, &shadow);
            self.player_shadows[i] = renewed;
            i += 1;
        }
        assert(self.player_shadows@ =~= before.player_shadows@.map_values(
            |shadow: PlayerShadow| shadow.recast(w, h, *viewer),
        ));
        assert(self.player_rays@ =~= before.player_rays@.map_values(
            |ray: PlayerRay| ray.recast(w, h, *viewer),
        ));
        assert forall|i: int| 0 <= i < self.player_shadows@.len() implies (
        #[trigger] self.player_shadows@[i]).occluder == before.player_shadows@[i].occluder by {
            assert(self.player_shadows@[i] == before.player_shadows@[i].recast(w, h, *viewer));
        }
    }

    /// Drops the shadows and the rays of walls that are gone.
    ///
    /// What belongs to a wall named in `removed` is dropped, all of it;
    /// everything else stays as it is and in the order it was in.
    pub fn remove_player_shadows(&mut self, removed: &Vec<Entity>)
        ensures
            final(self).player_shadows@ == old(self).player_shadows@.filter(
                |shadow: PlayerShadow| !removed@.contains(shadow.occluder),
            ),
            final(self).player_rays@ == old(self).player_rays@.filter(
                |ray: PlayerRay| !removed@.contains(ray.occluder),
            ),
            final(self).debug == old(self).debug,
            old(self).well_formed() ==> final(self).well_formed(),
            forall|viewer: Point| old(self).clear_of(viewer) ==> final(self).clear_of(viewer),
            one_group_per_wall(old(self).player_shadows@) ==> one_group_per_wall(
                final(self).player_shadows@,
            ),
    {
        let ghost before = *self;
        let ghost keep_ray = |ray: PlayerRay| !removed@.contains(ray.occluder);
        let ghost keep_shadow = |shadow: PlayerShadow| !removed@.contains(shadow.occluder);
        let mut rays: Vec<PlayerRay> = Vec::new();
        let mut i: usize = 0;
        assert(before.player_rays@.take(0) =~= Seq::empty());
        proof {
            reveal(Seq::filter);
        }
        while i < self.player_rays.len()
            invariant
                0 <= i <= self.player_rays@.len(),
                *self == before,
                keep_ray == |ray: PlayerRay| !removed@.contains(ray.occluder),
                rays@ == before.player_rays@.take(i as int).filter(keep_ray),
            decreases self.player_rays@.len() - i,
        {
            let ray = self.player_rays[i];
            proof {
                before.player_rays@.take(i as int).lemma_filter_push(ray, keep_ray);
                assert(before.player_rays@.take(i as int).push(ray) =~= before.player_rays@.take(
                    i + 1,
                ));
            }
            if !names_entity(removed, ray.occluder) {
                rays.push(ray);
            }
            i += 1;
        }
        assert(before.player_rays@.take(i as int) =~= before.player_rays@);
        let mut shadows: Vec<PlayerShadow> = Vec::new();
        let mut i: usize = 0;
        assert(before.player_shadows@.take(0) =~= Seq::empty());
        while i < self.player_shadows.len()
            invariant
                0 <= i <= self.player_shadows@.len(),
                *self == before,
                keep_shadow == |shadow: PlayerShadow| !removed@.contains(shadow.occluder),
                shadows@ == before.player_shadows@.take(i as int).filter(keep_shadow),
            decreases self.player_shadows@.len() - i,
        {
            let shadow = self.player_shadows[i];
            proof {
                before.player_shadows@.take(i as int).lemma_filter_push(shadow, keep_shadow);
                assert(before.player_shadows@.take(i as int).push(shadow)
                    =~= before.player_shadows@.take(i + 1));
            }
            if !names_entity(removed, shadow.occluder) {
                shadows.push(shadow);
            }
            i += 1;
        }
        assert(before.player_shadows@.take(i as int) =~= before.player_shadows@);
        self.player_rays = rays;
        self.player_shadows = shadows;
        proof {
            lemma_kept_is_part(before.player_rays@, keep_ray);
            lemma_kept_is_part(before.player_shadows@, keep_shadow);
            if one_group_per_wall(before.player_shadows@) {
                lemma_dropping_keeps_one_group_per_wall(before.player_shadows@, keep_shadow);
            }
        }
    }
}

/// Whatever a filter keeps was there before.
proof fn lemma_kept_is_part<A>(all: Seq<A>, keep: spec_fn(A) -> bool)
    ensures
        forall|i: int|
            0 <= i < all.filter(keep).len() ==> all.contains(#[trigger] all.filter(keep)[i])
                && keep(all.filter(keep)[i]),
{
    let kept = all.filter(keep);
    assert forall|i: int| 0 <= i < kept.len() implies all.contains(#[trigger] kept[i]) && keep(
        kept[i],
    ) by {
        all.lemma_filter_pred(keep, i);
        assert(kept.contains(kept[i]));
        all.lemma_filter_contains_rev(keep, kept[i]);
    }
}

/// Whether the list names the entity.
fn names_entity(list: &Vec<Entity>, entity: Entity) -> (named: bool)
    ensures
        named == list@.contains(entity),
{
    let mut i: usize = 0;
    while i < list.len()
        invariant
            0 <= i <= list@.len(),
            forall|j: int| 0 <= j < i ==> list@[j] != entity,
        decreases list@.len() - i,
    {
        if list[i].0 == entity.0 {
            return true;
        }
        i += 1;
    }
    false
}

/// Casts the shadows of one wall anew.
fn recast_player_shadow(width: i64, height: i64, viewer: &Point, shadow: &PlayerShadow) -> (renewed:
    PlayerShadow)
    requires
        viewer_in_window(width as int, height as int, *viewer),
        shadow.well_formed(),
        shadow.clear_of(*viewer),
    ensures
        renewed == shadow.recast(width as int, height as int, *viewer),
        renewed.well_formed(),
        renewed.clear_of(*viewer),
{
    let c0 = shadow.children[0];
    let c1 = shadow.children[1];
    let c2 = shadow.children[2];
    let c3 = shadow.children[3];
    let r0 = cast_segment_shadow(width, height, viewer, c0.segment, c0.barycentre.is_some());
    let r1 = cast_segment_shadow(width, height, viewer, c1.segment, c1.barycentre.is_some());
    let r2 = cast_segment_shadow(width, height, viewer, c2.segment, c2.barycentre.is_some());
    let r3 = cast_segment_shadow(width, height, viewer, c3.segment, c3.barycentre.is_some());
    PlayerShadow { occluder: shadow.occluder, children: [r0, r1, r2, r3] }
}

/// The rectangle a sprite covers, by how far it reaches from its centre
/// to either side and up and down.
#[derive(Clone, Copy, Debug, PartialEq, Eq, Structural)]
pub struct Footprint {
    pub half_width: i64,
    pub half_height: i64,
}

/// Something that can be seen or hidden: which entity it is, where its
/// centre stands, and what it covers if that is known.
#[derive(Clone, Copy, Debug, PartialEq, Eq, Structural)]
pub struct Observable {
    pub entity: Entity,
    pub position: Point,
    pub footprint: Option<Footprint>,
}

impl Footprint {
    /// The rectangle fits in a scene.
    pub open spec fn in_scene(self) -> bool {
        &&& 0 <= self.half_width <= SCENE_LIMIT
        &&& 0 <= self.half_height <= SCENE_LIMIT
    }

    /// The four corners of the rectangle around `center`: upper left,
    /// upper right, lower right, lower left.
    pub open spec fn corners(self, center: Point) -> Seq<Point> {
        seq![
            Point {
                x: (center.x - self.half_width) as i64,
                y: (center.y + self.half_height) as i64,
                z: center.z,
            },
            Point {
                x: (center.x + self.half_width) as i64,
                y: (center.y + self.half_height) as i64,
                z: center.z,
            },
            Point {
                x: (center.x + self.half_width) as i64,
                y: (center.y - self.half_height) as i64,
                z: center.z,
            },
            Point {
                x: (center.x - self.half_width) as i64,
                y: (center.y - self.half_height) as i64,
                z: center.z,
            },
        ]
    }
}

impl Observable {
    /// Whether position and footprint fit in a scene.
    pub fn fits_scene(&self) -> (fits: bool)
        ensures
            fits == self.in_scene(),
    {
        self.position.fits_scene() && match self.footprint {
            Some(footprint) => 0 <= footprint.half_width && footprint.half_width <= SCENE_LIMIT
                && 0 <= footprint.half_height && footprint.half_height <= SCENE_LIMIT,
            None => true,
        }
    }

    /// Position and footprint fit in a scene.
    pub open spec fn in_scene(self) -> bool {
        &&& self.position.in_scene()
        &&& self.footprint matches Some(footprint) ==> footprint.in_scene()
    }
}

impl SegmentShadow {
    /// The point lies in this shadow, border included.
    pub open spec fn contains(self, p: Point) -> bool {
        self.quad.contains(p)
    }

    /// All four corners of the rectangle lie in this shadow.
    pub open spec fn swallows(self, center: Point, footprint: Footprint) -> bool {
        forall|c: int| 0 <= c < 4 ==> self.contains(#[trigger] footprint.corners(center)[c])
    }

    /// Whether the point lies in this shadow, border included.
    pub fn contains_point(&self, p: &Point) -> (inside: bool)
        requires
            self.well_formed(),
            p.in_reach(),
        ensures
            inside == self.contains(*p),
    {
        self.quad.contains_point(p)
    }

    /// Whether all four corners of the rectangle lie in this shadow.
    fn swallows_footprint(&self, center: &Point, footprint: &Footprint) -> (swallowed: bool)
        requires
            self.well_formed(),
            center.in_scene(),
            footprint.in_scene(),
        ensures
            swallowed == self.swallows(*center, *footprint),
    {
        let corners = [
            Point {
                x: center.x - footprint.half_width,
                y: center.y + footprint.half_height,
                z: center.z,
            },
            Point {
                x: center.x + footprint.half_width,
                y: center.y + footprint.half_height,
                z: center.z,
            },
            Point {
                x: center.x + footprint.half_width,
                y: center.y - footprint.half_height,
                z: center.z,
            },
            Point {
                x: center.x - footprint.half_width,
                y: center.y - footprint.half_height,
                z: center.z,
            },
        ];
        assert(corners@ =~= footprint.corners(*center));
        let mut c: usize = 0;
        while c < 4
            invariant
                0 <= c <= 4,
                self.well_formed(),
                center.in_scene(),
                footprint.in_scene(),
                corners@ == footprint.corners(*center),
                forall|d: int| 0 <= d < c ==> self.contains(#[trigger] footprint.corners(*center)[d]),
            decreases 4 - c,
        {
            if !self.contains_point(&corners[c]) {
                return false;
            }
            c += 1;
        }
        true
    }
}

impl PlayerShadow {
    /// One of the four shadows holds all four corners of the rectangle.
    pub open spec fn swallows(self, center: Point, footprint: Footprint) -> bool {
        exists|i: int| 0 <= i < 4 && (#[trigger] self.children[i]).swallows(center, footprint)
    }

    /// Whether one of the four shadows holds all four corners.
    fn swallows_footprint(&self, center: &Point, footprint: &Footprint) -> (swallowed: bool)
        requires
            self.well_formed(),
            center.in_scene(),
            footprint.in_scene(),
        ensures
            swallowed == self.swallows(*center, *footprint),
    {
        let mut i: usize = 0;
        while i < 4
            invariant
                0 <= i <= 4,
                self.well_formed(),
                center.in_scene(),
                footprint.in_scene(),
                forall|j: int|
                    0 <= j < i ==> !(#[trigger] self.children[j]).swallows(*center, *footprint),
            decreases 4 - i,
        {
            if self.children[i].swallows_footprint(center, footprint) {
                return true;
            }
            i += 1;
        }
        false
    }
}

/// The entity is wholly in shadow: some single shadow of some wall other
/// than the entity itself holds all four corners of its footprint.
pub open spec fn in_player_shadows(
    shadows: Seq<PlayerShadow>,
    entity: Entity,
    center: Point,
    footprint: Footprint,
) -> bool {
    exists|i: int|
        0 <= i < shadows.len() && (#[trigger] shadows[i]).occluder != entity
            && shadows[i].swallows(center, footprint)
}

/// Whether the viewer can see the thing, going by the shadows: it is
/// hidden only when it is wholly in one shadow. A thing whose footprint is
/// not known cannot be placed in a shadow and counts as seen.
pub open spec fn visible_among_shadows(shadows: Seq<PlayerShadow>, thing: Observable) -> bool {
    match thing.footprint {
        Some(footprint) => !in_player_shadows(shadows, thing.entity, thing.position, footprint),
        None => true,
    }
}

/// Whether the entity is wholly in the shadow of a wall other than itself.
pub fn entity_in_player_shadows(
    entity: Entity,
    center: &Point,
    footprint: &Footprint,
    shadows: &Shadows,
) -> (hidden: bool)
    requires
        shadows.well_formed(),
        center.in_scene(),
        footprint.in_scene(),
    ensures
        hidden == in_player_shadows(shadows.player_shadows@, entity, *center, *footprint),
{
    let mut i: usize = 0;
    while i < shadows.player_shadows.len()
        invariant
            0 <= i <= shadows.player_shadows@.len(),
            shadows.well_formed(),
            center.in_scene(),
            footprint.in_scene(),
            forall|j: int|
                0 <= j < i ==> !((#[trigger] shadows.player_shadows@[j]).occluder != entity
                    && shadows.player_shadows@[j].swallows(*center, *footprint)),
        decreases shadows.player_shadows@.len() - i,
    {
        let group = &shadows.player_shadows[i];
        if group.occluder.0 != entity.0 && group.swallows_footprint(center, footprint) {
            return true;
        }
        i += 1;
    }
    false
}

/// Tells for each thing whether the viewer sees it, going by the shadows
/// as they stand.
pub fn object_visibility(things: &Vec<Observable>, shadows: &Shadows) -> (visible: Vec<bool>)
    requires
        shadows.well_formed(),
        forall|i: int| 0 <= i < things@.len() ==> (#[trigger] things@[i]).in_scene(),
    ensures
        visible@.len() == things@.len(),
        forall|i: int|
            0 <= i < things@.len() ==> visible@[i] == visible_among_shadows(
                shadows.player_shadows@,
                #[trigger] things@[i],
            ),
{
    let mut visible: Vec<bool> = Vec::new();
    let mut i: usize = 0;
    while i < things.len()
        invariant
            0 <= i <= things@.len(),
            shadows.well_formed(),
            forall|i: int| 0 <= i < things@.len() ==> (#[trigger] things@[i]).in_scene(),
            visible@.len() == i,
            forall|j: int|
                0 <= j < i ==> visible@[j] == visible_among_shadows(
                    shadows.player_shadows@,
                    #[trigger] things@[j],
                ),
        decreases things@.len() - i,
    {
        let thing = things[i];
        let seen = match thing.footprint {
            Some(footprint) => !entity_in_player_shadows(
                thing.entity,
                &thing.position,
                &footprint,
                shadows,
            ),
            None => true,
        };
        visible.push(seen);
        i += 1;
    }
    visible
}

} // verus!
