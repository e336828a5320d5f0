use boxybox::geometry::{segment_intersects_segment, Point, Segment};
use boxybox::light::{
    can_cast_from, entity_in_player_shadows, is_apart, object_visibility, Footprint, Observable,
    PlayerRay, SegmentShadow, Shadows,
};
use boxybox::occluder::Occluder;
use boxybox::projection::{
    is_inside_window, project_points_to_window_edge, project_ray_to_window_edge,
    window_fits_scene, Distance, Ray,
};
use boxybox::quad::Quad;
use boxybox::sight::Entity;

fn p(x: i64, y: i64) -> Point {
    Point::new(x, y, 0)
}

fn wall() -> Occluder {
    Occluder { top_left: p(-55, 50), bottom_right: p(-45, -50) }
}

#[test]
fn ray_along_an_axis_leaves_through_the_side_ahead() {
    let east = Ray { origin: p(0, 0), direction: p(10, 0) };
    assert_eq!(project_ray_to_window_edge(800, 600, east), Distance { num: 800, den: 20 });
    let south = Ray { origin: p(0, 0), direction: p(0, -7) };
    assert_eq!(project_ray_to_window_edge(800, 600, south), Distance { num: 600, den: 14 });
    let west = Ray { origin: p(100, 50), direction: p(-3, 0) };
    assert_eq!(project_ray_to_window_edge(800, 600, west), Distance { num: 1000, den: 6 });
}

#[test]
fn slanted_ray_takes_the_larger_of_the_two_distances() {
    // 800 / 20 = 40 along x, 600 / 20 = 30 along y
    let ray = Ray { origin: p(0, 0), direction: p(10, 10) };
    assert_eq!(project_ray_to_window_edge(800, 600, ray), Distance { num: 800, den: 20 });
    // 1000 / 6 along x, 500 / 8 along y
    let ray = Ray { origin: p(100, 50), direction: p(-3, 4) };
    assert_eq!(project_ray_to_window_edge(800, 600, ray), Distance { num: 1000, den: 6 });
    // 600 / 60 = 10 along x, 500 / 40 = 12.5 along y
    let ray = Ray { origin: p(100, 50), direction: p(30, 20) };
    assert_eq!(project_ray_to_window_edge(800, 600, ray), Distance { num: 500, den: 40 });
}

#[test]
fn equal_distances_give_the_horizontal_one() {
    let ray = Ray { origin: p(0, 0), direction: p(4, 3) };
    assert_eq!(project_ray_to_window_edge(800, 600, ray), Distance { num: 800, den: 8 });
}

#[test]
fn ray_from_the_border_may_have_distance_zero() {
    let ray = Ray { origin: p(400, 0), direction: p(5, 0) };
    assert_eq!(project_ray_to_window_edge(800, 600, ray), Distance { num: 0, den: 10 });
}

#[test]
fn point_along_a_ray_is_rounded_to_the_nearest_grid_point() {
    let ray = Ray { origin: Point::new(100, 50, 0), direction: Point::new(30, 20, 3) };
    // 12.5 times the direction is (375, 250, 37.5)
    assert_eq!(ray.get_point(Distance { num: 500, den: 40 }), Point::new(475, 300, 38));
    let back = Ray { origin: Point::new(100, 50, 0), direction: Point::new(-30, -20, -3) };
    assert_eq!(back.get_point(Distance { num: 500, den: 40 }), Point::new(-275, -200, -38));
    // a third and two thirds round to different sides
    let ray = Ray { origin: p(0, 0), direction: p(1, 2) };
    assert_eq!(ray.get_point(Distance { num: 1, den: 3 }), p(0, 1));
}

#[test]
fn projection_ends_where_the_ray_has_left_the_window() {
    assert_eq!(project_points_to_window_edge(800, 600, &p(0, 0), &p(10, 0)), p(400, 0));
    assert_eq!(project_points_to_window_edge(800, 600, &p(0, 0), &p(10, 10)), p(400, 400));
    assert_eq!(project_points_to_window_edge(800, 600, &p(0, 0), &p(0, -7)), p(0, -300));
    assert_eq!(project_points_to_window_edge(800, 600, &p(-100, 0), &p(-45, 50)), p(400, 455));
    assert_eq!(project_points_to_window_edge(800, 600, &p(-100, 0), &p(-45, -50)), p(400, -455));
    assert_eq!(project_points_to_window_edge(800, 600, &p(-100, 0), &p(-55, 50)), p(400, 556));
    assert_eq!(
        project_points_to_window_edge(
            800,
            600,
            &Point::new(100, 50, 0),
            &Point::new(130, 70, 3)
        ),
        Point::new(475, 300, 38)
    );
}

#[test]
fn projection_rounds_halves_away_from_zero() {
    assert_eq!(project_points_to_window_edge(5, 5, &p(0, 0), &p(2, 0)), p(3, 0));
    assert_eq!(project_points_to_window_edge(5, 5, &p(0, 0), &p(-2, 0)), p(-3, 0));
    assert_eq!(project_points_to_window_edge(5, 5, &p(0, 0), &p(0, 1)), p(0, 3));
    assert_eq!(project_points_to_window_edge(5, 5, &p(0, 0), &p(0, -1)), p(0, -3));
}

#[test]
fn projection_at_the_limits_of_the_scene() {
    let limit = boxybox::geometry::SCENE_LIMIT;
    // from one corner of the largest window towards the far side, almost flat
    let from = p(-limit, limit);
    let through = p(limit, limit - 1);
    // 2 * limit along x takes distance 1; 2 * limit along y takes 2 * limit
    let end = project_points_to_window_edge(2 * limit, 2 * limit, &from, &through);
    assert_eq!(end, p(-limit + 2 * limit * 2 * limit, -limit));
}

fn shadows_of_the_wall(debug: bool) -> Shadows {
    let mut shadows = Shadows::new(debug);
    shadows.add_player_shadows(800, 600, &p(-100, 0), &vec![(Entity(2), wall())]);
    shadows
}

#[test]
fn new_wall_gets_one_shadow_for_each_edge() {
    let shadows = shadows_of_the_wall(false);
    assert_eq!(shadows.player_shadows.len(), 1);
    assert!(shadows.player_rays.is_empty());
    let group = shadows.player_shadows[0];
    assert_eq!(group.occluder, Entity(2));
    let edges = wall().iter_segments();
    assert_eq!(
        group.children,
        [
            SegmentShadow {
                segment: edges[0],
                quad: Quad(p(-55, 50), p(400, 556), p(400, 455), p(-45, 50)),
                barycentre: None,
            },
            SegmentShadow {
                segment: edges[1],
                quad: Quad(p(-55, -50), p(400, -556), p(400, -455), p(-45, -50)),
                barycentre: None,
            },
            SegmentShadow {
                segment: edges[2],
                quad: Quad(p(-55, 50), p(400, 556), p(400, -556), p(-55, -50)),
                barycentre: None,
            },
            SegmentShadow {
                segment: edges[3],
                quad: Quad(p(-45, 50), p(400, 455), p(400, -455), p(-45, -50)),
                barycentre: None,
            },
        ]
    );
}

#[test]
fn debug_keeps_markers_and_two_rays_for_each_edge() {
    let shadows = shadows_of_the_wall(true);
    let group = shadows.player_shadows[0];
    // the mean of the corners
    assert_eq!(group.children[0].barycentre, Some(Point::new(175, 278, 0)));
    assert_eq!(group.children[1].barycentre, Some(Point::new(175, -278, 0)));
    assert_eq!(group.children[2].barycentre, Some(Point::new(173, 0, 0)));
    assert_eq!(group.children[3].barycentre, Some(Point::new(178, 0, 0)));
    let ray = |through: Point, end: Point| PlayerRay {
        occluder: Entity(2),
        start: p(-100, 0),
        through,
        end,
    };
    assert_eq!(
        shadows.player_rays,
        vec![
            ray(p(-55, 50), p(400, 556)),
            ray(p(-45, 50), p(400, 455)),
            ray(p(-55, -50), p(400, -556)),
            ray(p(-45, -50), p(400, -455)),
            ray(p(-55, 50), p(400, 556)),
            ray(p(-55, -50), p(400, -556)),
            ray(p(-45, 50), p(400, 455)),
            ray(p(-45, -50), p(400, -455)),
        ]
    );
    let line = shadows.player_rays[1].line();
    assert_eq!(line.start, p(-100, 0));
    assert_eq!(line.end, p(400, 455));
}

#[test]
fn adding_nothing_changes_nothing() {
    let mut shadows = shadows_of_the_wall(true);
    let groups = shadows.player_shadows.clone();
    let rays = shadows.player_rays.clone();
    shadows.add_player_shadows(800, 600, &p(-100, 0), &vec![]);
    assert_eq!(shadows.player_shadows, groups);
    assert_eq!(shadows.player_rays, rays);
}

#[test]
fn walls_are_added_in_the_order_given_after_those_there() {
    let mut shadows = shadows_of_the_wall(true);
    let second = Occluder { top_left: p(100, 100), bottom_right: p(120, 80) };
    let third = Occluder { top_left: p(-300, -100), bottom_right: p(-200, -200) };
    shadows.add_player_shadows(800, 600, &p(-100, 0), &vec![(Entity(5), second), (Entity(3), third)]);
    let names: Vec<Entity> = shadows.player_shadows.iter().map(|g| g.occluder).collect();
    assert_eq!(names, vec![Entity(2), Entity(5), Entity(3)]);
    assert_eq!(shadows.player_rays.len(), 24);
    assert!(shadows.player_rays[..8].iter().all(|r| r.occluder == Entity(2)));
    assert!(shadows.player_rays[8..16].iter().all(|r| r.occluder == Entity(5)));
    assert!(shadows.player_rays[16..].iter().all(|r| r.occluder == Entity(3)));
    assert_eq!(shadows.player_shadows[1].children[0].segment, second.iter_segments()[0]);
    assert_eq!(shadows.player_shadows[2].children[3].segment, third.iter_segments()[3]);
}

#[test]
fn update_follows_the_viewer() {
    let mut shadows = shadows_of_the_wall(true);
    shadows.update_player_shadows(800, 600, &p(-100, 20));
    let group = shadows.player_shadows[0];
    assert_eq!(group.occluder, Entity(2));
    let edges = wall().iter_segments();
    assert_eq!(group.children[0].segment, edges[0]);
    assert_eq!(group.children[0].quad, Quad(p(-55, 50), p(400, 353), p(413, 300), p(-45, 50)));
    assert_eq!(group.children[1].quad, Quad(p(-55, -50), p(400, -758), p(400, -616), p(-45, -50)));
    assert_eq!(group.children[2].quad, Quad(p(-55, 50), p(400, 353), p(400, -758), p(-55, -50)));
    assert_eq!(group.children[3].quad, Quad(p(-45, 50), p(413, 300), p(400, -616), p(-45, -50)));
    assert_eq!(group.children[0].barycentre, Some(Point::new(178, 188, 0)));
    assert_eq!(group.children[1].barycentre, Some(Point::new(175, -369, 0)));
    assert_eq!(group.children[2].barycentre, Some(Point::new(173, -101, 0)));
    assert_eq!(group.children[3].barycentre, Some(Point::new(181, -79, 0)));
    assert_eq!(shadows.player_rays.len(), 8);
    assert_eq!(
        shadows.player_rays[1],
        PlayerRay { occluder: Entity(2), start: p(-100, 20), through: p(-45, 50), end: p(413, 300) }
    );
    assert!(shadows.player_rays.iter().all(|r| r.start == p(-100, 20)));
}

#[test]
fn update_without_markers_adds_none() {
    let mut shadows = shadows_of_the_wall(false);
    shadows.update_player_shadows(800, 600, &p(-100, 20));
    assert!(shadows.player_shadows[0].children.iter().all(|c| c.barycentre.is_none()));
    assert!(shadows.player_rays.is_empty());
}

#[test]
fn recomputing_twice_without_movement_gives_identical_shadows() {
    let mut shadows = shadows_of_the_wall(true);
    shadows.add_player_shadows(
        800,
        600,
        &p(-100, 0),
        &vec![(Entity(9), Occluder { top_left: p(13, 77), bottom_right: p(29, -31) })],
    );
    // a fresh cast is already up to date
    let fresh_groups = shadows.player_shadows.clone();
    let fresh_rays = shadows.player_rays.clone();
    shadows.update_player_shadows(800, 600, &p(-100, 0));
    assert_eq!(shadows.player_shadows, fresh_groups);
    assert_eq!(shadows.player_rays, fresh_rays);
    // and so is an update, after the viewer has moved
    shadows.update_player_shadows(800, 600, &p(-171, 33));
    let once_groups = shadows.player_shadows.clone();
    let once_rays = shadows.player_rays.clone();
    assert_ne!(once_groups, fresh_groups);
    shadows.update_player_shadows(800, 600, &p(-171, 33));
    assert_eq!(shadows.player_shadows, once_groups);
    assert_eq!(shadows.player_rays, once_rays);
}

#[test]
fn removing_a_wall_removes_its_shadows_and_rays_and_no_others() {
    let mut shadows = shadows_of_the_wall(true);
    let second = Occluder { top_left: p(100, 100), bottom_right: p(120, 80) };
    let third = Occluder { top_left: p(-300, -100), bottom_right: p(-200, -200) };
    shadows.add_player_shadows(800, 600, &p(-100, 0), &vec![(Entity(5), second), (Entity(3), third)]);
    let before_groups = shadows.player_shadows.clone();
    let before_rays = shadows.player_rays.clone();

    shadows.remove_player_shadows(&vec![Entity(5)]);
    assert_eq!(shadows.player_shadows, vec![before_groups[0], before_groups[2]]);
    let mut kept_rays = before_rays[..8].to_vec();
    kept_rays.extend_from_slice(&before_rays[16..]);
    assert_eq!(shadows.player_rays, kept_rays);
    assert!(shadows.debug);

    // a wall that throws no shadow, named twice: nothing happens
    shadows.remove_player_shadows(&vec![Entity(77), Entity(77)]);
    assert_eq!(shadows.player_shadows, vec![before_groups[0], before_groups[2]]);
    assert_eq!(shadows.player_rays, kept_rays);

    // no wall removed: nothing happens
    shadows.remove_player_shadows(&vec![]);
    assert_eq!(shadows.player_shadows.len(), 2);

    shadows.remove_player_shadows(&vec![Entity(3), Entity(2)]);
    assert!(shadows.player_shadows.is_empty());
    assert!(shadows.player_rays.is_empty());
}

#[test]
fn removing_takes_every_group_that_names_the_wall() {
    let mut shadows = shadows_of_the_wall(false);
    shadows.add_player_shadows(800, 600, &p(0, 0), &vec![(Entity(2), wall()), (Entity(4), wall())]);
    assert_eq!(shadows.player_shadows.len(), 3);
    shadows.remove_player_shadows(&vec![Entity(2)]);
    assert_eq!(shadows.player_shadows.len(), 1);
    assert_eq!(shadows.player_shadows[0].occluder, Entity(4));
}

#[test]
fn segment_shadow_contains_points_behind_its_edge() {
    let shadows = shadows_of_the_wall(false);
    let right = shadows.player_shadows[0].children[3];
    assert!(right.contains_point(&p(0, 0)));
    assert!(right.contains_point(&p(-45, 50)));
    assert!(right.contains_point(&p(0, 60)));
    assert!(!right.contains_point(&p(0, 100)));
    assert!(!right.contains_point(&p(-50, 0)));
    assert!(!right.contains_point(&p(-100, 0)));
}

fn thing(entity: u32, x: i64, y: i64, half_width: i64, half_height: i64) -> Observable {
    Observable {
        entity: Entity(entity),
        position: p(x, y),
        footprint: Some(Footprint { half_width, half_height }),
    }
}

#[test]
fn object_is_hidden_only_when_one_shadow_holds_all_four_corners() {
    let shadows = shadows_of_the_wall(false);
    let things = vec![
        thing(1, 0, 0, 5, 5),
        thing(3, -100, 100, 5, 5),
        thing(4, 0, 90, 5, 5),
        // two corners in, two out
        thing(5, 0, 110, 5, 5),
        thing(6, 0, 120, 5, 5),
        // the wall itself is not hidden by its own shadow
        thing(2, -50, 0, 5, 50),
        // something else in the same place is
        thing(7, -50, 0, 5, 50),
        // between viewer and wall
        thing(8, -70, 0, 5, 5),
        thing(9, 300, 0, 100, 100),
        thing(11, -44, 0, 1, 1),
        thing(12, -45, 0, 0, 0),
    ];
    assert_eq!(
        object_visibility(&things, &shadows),
        vec![false, true, false, true, true, true, false, true, false, false, false]
    );
}

#[test]
fn object_without_footprint_is_visible() {
    let shadows = shadows_of_the_wall(false);
    let things =
        vec![Observable { entity: Entity(1), position: p(0, 0), footprint: None }];
    assert_eq!(object_visibility(&things, &shadows), vec![true]);
}

#[test]
fn without_shadows_everything_is_visible() {
    let shadows = Shadows::new(false);
    let things = vec![thing(1, 0, 0, 5, 5), thing(2, -50, 0, 5, 50)];
    assert_eq!(object_visibility(&things, &shadows), vec![true, true]);
    assert!(object_visibility(&vec![], &shadows).is_empty());
}

#[test]
fn entity_in_player_shadows_skips_the_shadows_of_the_entity_itself() {
    let shadows = shadows_of_the_wall(false);
    let footprint = Footprint { half_width: 5, half_height: 50 };
    assert!(!entity_in_player_shadows(Entity(2), &p(-50, 0), &footprint, &shadows));
    assert!(entity_in_player_shadows(Entity(7), &p(-50, 0), &footprint, &shadows));
    let small = Footprint { half_width: 5, half_height: 5 };
    assert!(entity_in_player_shadows(Entity(1), &p(0, 0), &small, &shadows));
    assert!(!entity_in_player_shadows(Entity(1), &p(0, 110), &small, &shadows));
}

#[test]
fn every_point_behind_an_edge_lies_in_the_shadow_of_that_edge() {
    // a wall up and to the right of the viewer, neither centred on it
    let (width, height) = (80, 60);
    let viewer = p(-30, -5);
    let occluder = Occluder { top_left: p(-12, 0), bottom_right: p(-1, -6) };
    let mut shadows = Shadows::new(false);
    shadows.add_player_shadows(width, height, &viewer, &vec![(Entity(0), occluder)]);
    let group = shadows.player_shadows[0];
    assert_eq!(group.children[0].quad, Quad(p(-12, 0), p(96, 30), p(173, 30), p(-1, 0)));
    assert_eq!(group.children[1].quad, Quad(p(-12, -6), p(420, -30), p(695, -30), p(-1, -6)));
    assert_eq!(group.children[2].quad, Quad(p(-12, 0), p(96, 30), p(420, -30), p(-12, -6)));
    assert_eq!(group.children[3].quad, Quad(p(-1, 0), p(173, 30), p(695, -30), p(-1, -6)));
    let mut behind = 0;
    let mut in_shadow_not_behind = 0;
    for child in group.children.iter() {
        for x in -width / 2..=width / 2 {
            for y in -height / 2..=height / 2 {
                let point = p(x, y);
                let line_of_sight = Segment(viewer, point);
                if segment_intersects_segment(&line_of_sight, &child.segment) {
                    behind += 1;
                    assert!(child.contains_point(&point), "{:?} behind {:?}", point, child.segment);
                } else if child.contains_point(&point) {
                    in_shadow_not_behind += 1;
                }
            }
        }
    }
    assert_eq!(behind, 1511);
    // the shadow holds nothing in the window that is not behind its edge
    assert_eq!(in_shadow_not_behind, 0);
}

#[test]
fn window_and_viewer_are_tested_before_shadows_are_cast() {
    let limit = boxybox::geometry::SCENE_LIMIT;
    assert!(window_fits_scene(800, 600));
    assert!(window_fits_scene(0, 0));
    assert!(window_fits_scene(2 * limit, 2 * limit));
    assert!(!window_fits_scene(2 * limit + 1, 600));
    assert!(!window_fits_scene(800, -1));
    assert!(is_inside_window(800, 600, &p(400, -300)));
    assert!(is_inside_window(801, 601, &p(400, -300)));
    assert!(!is_inside_window(799, 600, &p(400, 0)));
    assert!(!is_inside_window(800, 600, &p(0, 301)));
    assert!(can_cast_from(800, 600, &p(-100, 0)));
    assert!(can_cast_from(800, 600, &p(-400, 300)));
    assert!(!can_cast_from(800, 600, &p(-401, 0)));
    assert!(!can_cast_from(800, 600, &Point::new(0, 0, limit + 1)));
    assert!(!can_cast_from(-800, 600, &p(0, 0)));
    assert!(is_apart(&p(0, 0), &p(0, 1)));
    assert!(is_apart(&p(0, 0), &p(1, 0)));
    assert!(!is_apart(&Point::new(3, 4, 0), &Point::new(3, 4, 7)));
}

#[test]
fn viewer_is_clear_of_shadows_unless_it_stands_on_a_corner() {
    let shadows = shadows_of_the_wall(true);
    assert!(shadows.is_clear_of(&p(-100, 0)));
    assert!(shadows.is_clear_of(&p(-50, 0)));
    assert!(!shadows.is_clear_of(&p(-55, 50)));
    assert!(!shadows.is_clear_of(&p(-45, 50)));
    assert!(!shadows.is_clear_of(&p(-55, -50)));
    assert!(!shadows.is_clear_of(&Point::new(-45, -50, 3)));
    assert!(Shadows::new(false).is_clear_of(&p(-55, 50)));
    // rays alone pin the viewer down as well
    let mut rays_only = shadows_of_the_wall(true);
    rays_only.player_shadows.clear();
    assert!(!rays_only.is_clear_of(&p(-45, 50)));
    assert!(rays_only.is_clear_of(&p(-45, 49)));
}

#[test]
fn observable_knows_whether_it_fits() {
    let limit = boxybox::geometry::SCENE_LIMIT;
    assert!(thing(1, 0, 0, 5, 5).fits_scene());
    assert!(thing(1, limit, -limit, limit, 0).fits_scene());
    assert!(!thing(1, limit + 1, 0, 5, 5).fits_scene());
    assert!(!thing(1, 0, 0, -1, 5).fits_scene());
    assert!(!thing(1, 0, 0, 5, limit + 1).fits_scene());
    assert!(Observable { entity: Entity(1), position: p(0, 0), footprint: None }.fits_scene());
}

#[test]
fn debug_is_off_unless_asked_for() {
    assert!(!boxybox::light::DEBUG);
    let shadows = Shadows::new(boxybox::light::DEBUG);
    assert!(!shadows.debug);
    assert!(shadows.player_shadows.is_empty());
    assert!(shadows.player_rays.is_empty());
}

#[test]
fn rounding_at_the_border_of_a_shadow_can_leave_a_point_outside() {
    // the ray through (5, -8) ends at (64.23.., -30), which is stored as
    // (64, -30); the point (40, -21) lies on that very ray
    let (width, height) = (80, 60);
    let viewer = p(-30, 5);
    let edge = Segment(p(-10, -8), p(5, -8));
    assert_eq!(project_points_to_window_edge(width, height, &viewer, &edge.1), p(64, -30));
    let point = p(40, -21);
    assert!(segment_intersects_segment(&Segment(viewer, point), &edge));
    let mut shadows = Shadows::new(false);
    let occluder = Occluder { top_left: p(-10, 20), bottom_right: p(5, -8) };
    shadows.add_player_shadows(width, height, &viewer, &vec![(Entity(0), occluder)]);
    let bottom = shadows.player_shadows[0].children[1];
    assert_eq!(bottom.segment, edge);
    assert!(!bottom.contains_point(&point));
    // one step further in, the point is found
    assert!(bottom.contains_point(&p(40, -22)));
}

#[test]
fn barycentre_is_the_rounded_mean_of_the_corners_in_all_three_coordinates() {
    let mut shadows = Shadows::new(true);
    let viewer = Point::new(-100, 0, 2);
    let occluder = Occluder {
        top_left: Point::new(-55, 50, 7),
        bottom_right: Point::new(-45, -50, -5),
    };
    shadows.add_player_shadows(800, 600, &viewer, &vec![(Entity(2), occluder)]);
    let top = shadows.player_shadows[0].children[0];
    // both ends of the top edge have depth 7; the rays carry the depth on
    assert_eq!(
        top.quad,
        Quad(
            Point::new(-55, 50, 7),
            Point::new(400, 556, 58),
            Point::new(400, 455, 47),
            Point::new(-45, 50, 7)
        )
    );
    // (-55 + 400 + 400 - 45) / 4 = 175, (50 + 556 + 455 + 50) / 4 = 277.75,
    // (7 + 58 + 47 + 7) / 4 = 29.75
    assert_eq!(top.barycentre, Some(Point::new(175, 278, 30)));
}
