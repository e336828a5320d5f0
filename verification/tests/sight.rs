use boxybox::geometry::{Point, Segment};
use boxybox::occluder::{segment_intersects_occluder, Occluder};
use boxybox::sight::{object_visibility, see_player, CheckVisibility, Entity};

fn p(x: i64, y: i64) -> Point {
    Point::new(x, y, 0)
}

fn wall() -> Occluder {
    Occluder { top_left: p(-55, 50), bottom_right: p(-45, -50) }
}

#[test]
fn occluder_edges_come_top_bottom_left_right() {
    let occluder = Occluder { top_left: Point::new(-5, 50, 1), bottom_right: Point::new(5, -50, 2) };
    let edges = occluder.iter_segments();
    assert_eq!(edges.len(), 4);
    assert_eq!(edges[0], Segment(Point::new(-5, 50, 1), Point::new(5, 50, 1)));
    assert_eq!(edges[1], Segment(Point::new(-5, -50, 2), Point::new(5, -50, 2)));
    assert_eq!(edges[2], Segment(Point::new(-5, 50, 1), Point::new(-5, -50, 1)));
    assert_eq!(edges[3], Segment(Point::new(5, 50, 2), Point::new(5, -50, 2)));
}

#[test]
fn segment_through_occluder_is_blocked() {
    let through = Segment(p(-100, 0), p(0, 0));
    assert!(segment_intersects_occluder(&through, &wall()));
    // enters through the top and stops inside
    let into = Segment(p(-50, 80), p(-50, 0));
    assert!(segment_intersects_occluder(&into, &wall()));
}

#[test]
fn segment_beside_occluder_is_not_blocked() {
    let above = Segment(p(-100, 60), p(0, 60));
    assert!(!segment_intersects_occluder(&above, &wall()));
    let short = Segment(p(-100, 0), p(-60, 0));
    assert!(!segment_intersects_occluder(&short, &wall()));
    // wholly inside the rectangle: no edge is crossed
    let inside = Segment(p(-52, 10), p(-48, -10));
    assert!(!segment_intersects_occluder(&inside, &wall()));
}

#[test]
fn segment_along_an_edge_is_not_blocked_by_that_edge() {
    // lies on the line of the top edge and overlaps it; it crosses no
    // edge it is not parallel to either, since it ends before the sides
    let along = Segment(p(-54, 50), p(-46, 50));
    assert!(!segment_intersects_occluder(&along, &wall()));
}

fn scene() -> (CheckVisibility, Entity, Entity, Entity) {
    let viewer = Entity(0);
    let candidate = Entity(1);
    let obstacle = Entity(2);
    let mut check = CheckVisibility::new();
    check.insert_sighted(viewer);
    check.insert_transform(viewer, p(-100, 0));
    check.insert_visible(candidate);
    check.insert_transform(candidate, p(0, 0));
    check.insert_occluder(obstacle, wall());
    check.insert_transform(obstacle, p(-50, 0));
    (check, viewer, candidate, obstacle)
}

#[test]
fn occluder_between_viewer_and_candidate_blocks_sight() {
    let (check, viewer, candidate, _) = scene();
    assert!(!check.sees(viewer, candidate));
}

#[test]
fn candidate_with_clear_line_of_sight_is_seen() {
    let (mut check, viewer, candidate, _) = scene();
    check.insert_transform(candidate, p(-100, 100));
    assert!(check.sees(viewer, candidate));
    check.insert_transform(candidate, p(0, 120));
    assert!(check.sees(viewer, candidate));
    check.insert_transform(candidate, p(0, 10));
    assert!(!check.sees(viewer, candidate));
}

#[test]
fn removing_the_occluder_restores_sight() {
    let (mut check, viewer, candidate, obstacle) = scene();
    assert!(!check.sees(viewer, candidate));
    check.remove_occluder(obstacle);
    assert!(check.sees(viewer, candidate));
}

#[test]
fn candidate_without_visible_capability_is_never_seen() {
    let viewer = Entity(3);
    let hidden = Entity(7);
    let mut check = CheckVisibility::new();
    check.insert_sighted(viewer);
    check.insert_transform(viewer, p(0, 0));
    check.insert_transform(hidden, p(5, 5));
    // no occluders at all, and still not seen
    assert!(!check.sees(viewer, hidden));
    // not even an entity the scene knows nothing about
    assert!(!check.sees(viewer, Entity(1000)));
    check.insert_visible(hidden);
    assert!(check.sees(viewer, hidden));
}

#[test]
fn any_one_occluder_blocks() {
    let (mut check, viewer, candidate, obstacle) = scene();
    check.remove_occluder(obstacle);
    check.insert_occluder(Entity(10), Occluder { top_left: p(200, 300), bottom_right: p(210, 200) });
    check.insert_occluder(Entity(11), Occluder { top_left: p(-20, 5), bottom_right: p(-10, -5) });
    check.insert_occluder(Entity(12), Occluder { top_left: p(-300, 5), bottom_right: p(-290, -5) });
    assert!(!check.sees(viewer, candidate));
    check.remove_occluder(Entity(11));
    assert!(check.sees(viewer, candidate));
}

#[test]
fn object_visibility_lists_every_visible_entity_but_the_player() {
    let player = Entity(0);
    let mut check = CheckVisibility::new();
    check.insert_sighted(player);
    check.insert_visible(player);
    check.insert_transform(player, p(-100, 0));
    // behind the wall
    check.insert_visible(Entity(1));
    check.insert_transform(Entity(1), p(0, 0));
    // Entity(2) is the wall, which can be looked at as well
    check.insert_occluder(Entity(2), wall());
    check.insert_visible(Entity(2));
    check.insert_transform(Entity(2), p(-50, 0));
    // in the open
    check.insert_visible(Entity(4));
    check.insert_transform(Entity(4), p(-100, 200));
    let flags = object_visibility(&check, player);
    assert_eq!(flags, vec![None, Some(false), Some(false), None, Some(true)]);
}

#[test]
fn see_player_answers_for_each_sighted_npc() {
    let player = Entity(0);
    let mut check = CheckVisibility::new();
    check.insert_visible(player);
    check.insert_transform(player, p(0, 0));
    check.insert_occluder(Entity(9), wall());
    // behind the wall
    check.insert_sighted(Entity(1));
    check.insert_transform(Entity(1), p(-100, 0));
    // in the open
    check.insert_sighted(Entity(2));
    check.insert_transform(Entity(2), p(100, 0));
    // cannot look
    check.insert_transform(Entity(3), p(50, 50));
    let seen = see_player(&check, player, &vec![Entity(1), Entity(2), Entity(3)]);
    assert_eq!(seen, vec![Some(false), Some(true), None]);
}

#[test]
fn occluder_new_wants_the_corners_the_right_way_round() {
    assert_eq!(
        Occluder::new(p(-5, 50), p(5, -50)),
        Some(Occluder { top_left: p(-5, 50), bottom_right: p(5, -50) })
    );
    // mirrored corners
    assert_eq!(Occluder::new(p(5, 50), p(-5, -50)), None);
    assert_eq!(Occluder::new(p(-5, -50), p(5, 50)), None);
    // no width, no height
    assert_eq!(Occluder::new(p(5, 50), p(5, -50)), None);
    assert_eq!(Occluder::new(p(-5, 50), p(5, 50)), None);
}

#[test]
fn occluder_knows_its_corners_and_whether_it_fits() {
    let occluder = wall();
    assert!(occluder.corner_at(&p(-55, 50)));
    assert!(occluder.corner_at(&p(-45, 50)));
    assert!(occluder.corner_at(&p(-55, -50)));
    assert!(occluder.corner_at(&Point::new(-45, -50, 9)));
    assert!(!occluder.corner_at(&p(-55, 0)));
    assert!(!occluder.corner_at(&p(-50, 50)));
    assert!(!occluder.corner_at(&p(0, 0)));
    assert!(occluder.fits_scene());
    let limit = boxybox::geometry::SCENE_LIMIT;
    assert!(Occluder { top_left: p(-limit, limit), bottom_right: p(limit, -limit) }.fits_scene());
    assert!(!Occluder { top_left: p(-limit - 1, limit), bottom_right: p(limit, -limit) }.fits_scene());
    assert!(!Occluder { top_left: p(0, 0), bottom_right: Point::new(1, -1, limit + 1) }.fits_scene());
}

#[test]
fn scene_answers_what_it_was_told() {
    let (mut check, viewer, candidate, obstacle) = scene();
    assert!(check.is_sighted(viewer));
    assert!(!check.is_sighted(candidate));
    assert!(!check.is_sighted(Entity(500)));
    assert!(check.is_visible(candidate));
    assert!(!check.is_visible(viewer));
    assert_eq!(check.get_transform(viewer), Some(p(-100, 0)));
    assert_eq!(check.get_transform(Entity(500)), None);
    assert_eq!(check.get_occluder(obstacle), Some(wall()));
    assert_eq!(check.get_occluder(viewer), None);
    // storing again replaces, and leaves the others alone
    check.insert_transform(viewer, p(7, 7));
    check.insert_occluder(obstacle, Occluder { top_left: p(0, 1), bottom_right: p(1, 0) });
    assert_eq!(check.get_transform(viewer), Some(p(7, 7)));
    assert_eq!(check.get_transform(candidate), Some(p(0, 0)));
    assert_eq!(
        check.get_occluder(obstacle),
        Some(Occluder { top_left: p(0, 1), bottom_right: p(1, 0) })
    );
    check.remove_occluder(obstacle);
    assert_eq!(check.get_occluder(obstacle), None);
    check.remove_occluder(Entity(900));
    assert_eq!(check.get_occluder(Entity(900)), None);
    assert!(check.is_sighted(viewer));
    assert!(check.is_visible(candidate));
}

#[test]
fn sight_is_mutual_between_entities_that_can_be_looked_at() {
    let (mut check, viewer, candidate, obstacle) = scene();
    check.insert_visible(viewer);
    check.insert_sighted(candidate);
    assert!(!check.sees(viewer, candidate));
    assert!(!check.sees(candidate, viewer));
    check.remove_occluder(obstacle);
    assert!(check.sees(viewer, candidate));
    assert!(check.sees(candidate, viewer));
}

#[test]
fn an_entity_sees_itself_when_it_can_be_looked_at() {
    let mut check = CheckVisibility::new();
    check.insert_sighted(Entity(0));
    check.insert_visible(Entity(0));
    check.insert_transform(Entity(0), p(3, 4));
    check.insert_occluder(Entity(1), wall());
    // the line of sight is a single point, which crosses nothing
    assert!(check.sees(Entity(0), Entity(0)));
}

#[test]
fn point_knows_whether_it_fits() {
    let scene = boxybox::geometry::SCENE_LIMIT;
    let far = boxybox::geometry::FAR_LIMIT;
    assert_eq!(scene, 1 << 28);
    assert_eq!(far, 1 << 59);
    assert!(Point::new(scene, -scene, 0).fits_scene());
    assert!(!Point::new(scene + 1, 0, 0).fits_scene());
    assert!(!Point::new(0, -scene - 1, 0).fits_scene());
    assert!(!Point::new(0, 0, scene + 1).fits_scene());
    assert!(Point::new(far, -far, far).fits_reach());
    assert!(!Point::new(far + 1, 0, 0).fits_reach());
    assert!(!Point::new(0, 0, -far - 1).fits_reach());
}
