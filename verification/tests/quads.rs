use boxybox::geometry::Point;
use boxybox::mesh::{Line, Mesh, PrimitiveTopology};
use boxybox::quad::Quad;

fn p(x: i64, y: i64) -> Point {
    Point::new(x, y, 0)
}

#[test]
fn corners_on_the_axes_come_out_east_north_west_south() {
    let quad = Quad(p(0, -1), p(-1, 0), p(1, 0), p(0, 1));
    assert_eq!(quad.counter_clockwise(), [p(1, 0), p(0, 1), p(-1, 0), p(0, -1)]);
}

#[test]
fn corners_on_the_diagonals_come_out_by_quadrant() {
    let quad = Quad(p(1, -1), p(-1, -1), p(-1, 1), p(1, 1));
    assert_eq!(quad.counter_clockwise(), [p(1, 1), p(-1, 1), p(-1, -1), p(1, -1)]);
}

#[test]
fn the_eight_compass_directions_are_ordered_by_angle() {
    // angles 0, 1/8, 4/8 and 5/8 of a turn
    let first = Quad(p(-1, -1), p(-1, 0), p(1, 1), p(1, 0));
    assert_eq!(first.counter_clockwise(), [p(1, 0), p(1, 1), p(-1, 0), p(-1, -1)]);
    // angles 2/8, 3/8, 6/8 and 7/8 of a turn
    let second = Quad(p(1, -1), p(0, -1), p(-1, 1), p(0, 1));
    assert_eq!(second.counter_clockwise(), [p(0, 1), p(-1, 1), p(0, -1), p(1, -1)]);
}

#[test]
fn order_is_taken_around_the_barycentre_not_the_origin() {
    // a square far from the origin
    let quad = Quad(p(100, 100), p(110, 110), p(100, 110), p(110, 100));
    assert_eq!(
        quad.counter_clockwise(),
        [p(110, 110), p(100, 110), p(100, 100), p(110, 100)]
    );
}

#[test]
fn corners_at_one_angle_keep_their_stored_order() {
    let a = Point::new(2, 0, 1);
    let b = Point::new(2, 0, 2);
    let c = Point::new(-2, 0, 3);
    let d = Point::new(-2, 0, 4);
    assert_eq!(Quad(d, b, c, a).counter_clockwise(), [b, a, d, c]);
    assert_eq!(Quad(a, b, c, d).counter_clockwise(), [a, b, c, d]);
    assert_eq!(Quad(c, d, b, a).counter_clockwise(), [b, a, c, d]);
}

#[test]
fn corner_on_the_barycentre_has_angle_zero() {
    // the first corner is the mean of all four
    let quad = Quad(p(0, 0), p(3, 0), p(0, 3), p(-3, -3));
    assert_eq!(quad.counter_clockwise(), [p(0, 0), p(3, 0), p(0, 3), p(-3, -3)]);
    let quad = Quad(p(0, 3), p(3, 0), p(-3, -3), p(0, 0));
    assert_eq!(quad.counter_clockwise(), [p(3, 0), p(0, 0), p(0, 3), p(-3, -3)]);
}

#[test]
fn all_corners_in_one_place() {
    let a = Point::new(7, 7, 0);
    let b = Point::new(7, 7, 1);
    let c = Point::new(7, 7, 2);
    let d = Point::new(7, 7, 3);
    assert_eq!(Quad(a, b, c, d).counter_clockwise(), [a, b, c, d]);
    assert_eq!(Quad(d, c, b, a).counter_clockwise(), [d, c, b, a]);
}

#[test]
fn corner_is_read_by_index() {
    let quad = Quad(p(1, 2), p(3, 4), p(5, 6), p(7, 8));
    assert_eq!(quad.corner(0), p(1, 2));
    assert_eq!(quad.corner(1), p(3, 4));
    assert_eq!(quad.corner(2), p(5, 6));
    assert_eq!(quad.corner(3), p(7, 8));
}

#[test]
fn square_contains_its_inside_and_its_border() {
    let quad = Quad(p(0, 0), p(10, 10), p(10, 0), p(0, 10));
    assert!(quad.contains_point(&p(5, 5)));
    assert!(quad.contains_point(&p(1, 9)));
    // border and corners
    assert!(quad.contains_point(&p(0, 5)));
    assert!(quad.contains_point(&p(10, 5)));
    assert!(quad.contains_point(&p(5, 0)));
    assert!(quad.contains_point(&p(0, 0)));
    assert!(quad.contains_point(&p(10, 10)));
    // outside
    assert!(!quad.contains_point(&p(11, 5)));
    assert!(!quad.contains_point(&p(-1, 5)));
    assert!(!quad.contains_point(&p(5, 11)));
    assert!(!quad.contains_point(&p(5, -1)));
    assert!(!quad.contains_point(&p(11, 11)));
}

#[test]
fn slanted_quad_contains_by_half_planes() {
    let quad = Quad(p(-45, 50), p(400, 455), p(400, -455), p(-45, -50));
    assert!(quad.contains_point(&p(0, 0)));
    assert!(quad.contains_point(&p(200, 0)));
    assert!(quad.contains_point(&p(0, 60)));
    assert!(quad.contains_point(&p(-45, 0)));
    assert!(quad.contains_point(&p(400, 455)));
    assert!(quad.contains_point(&p(399, 400)));
    assert!(!quad.contains_point(&p(0, 100)));
    assert!(!quad.contains_point(&p(-46, 0)));
    assert!(!quad.contains_point(&p(401, 0)));
    assert!(!quad.contains_point(&p(-200, 0)));
}

#[test]
fn mesh_of_a_quad_is_two_triangles_over_sorted_corners() {
    let quad = Quad(p(-45, 50), p(400, 455), p(400, -455), p(-45, -50));
    let mesh = Mesh::from_quad(quad);
    assert_eq!(mesh.primitive_topology, PrimitiveTopology::TriangleList);
    assert_eq!(mesh.positions, vec![p(400, 455), p(-45, 50), p(-45, -50), p(400, -455)]);
    assert_eq!(mesh.indices, vec![0, 1, 2, 0, 2, 3]);
}

#[test]
fn mesh_of_a_line_is_its_two_ends() {
    let line = Line { start: Point::new(-100, 0, 1), end: Point::new(400, 455, 2) };
    let mesh = Mesh::from_line(line);
    assert_eq!(mesh.primitive_topology, PrimitiveTopology::LineList);
    assert_eq!(mesh.positions, vec![Point::new(-100, 0, 1), Point::new(400, 455, 2)]);
    assert_eq!(mesh.indices, vec![0, 1]);
}
