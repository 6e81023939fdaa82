use gjk2d::gjk::{gjk, is_admissible, Inconclusive, Verdict, COORD_LIMIT, VERTEX_LIMIT};
use gjk2d::vec2::Vec2;

fn shape(coords: &[(i128, i128)]) -> Vec<Vec2> {
    coords.iter().map(|&(x, y)| Vec2::new(x, y)).collect()
}

fn verdict(a: &[(i128, i128)], b: &[(i128, i128)]) -> Result<Verdict, Inconclusive> {
    let a = shape(a);
    let b = shape(b);
    assert!(is_admissible(&a));
    assert!(is_admissible(&b));
    gjk(&a, &b)
}

#[test]
fn identical_triangles_intersect() {
    let t = [(4, 11), (5, 5), (9, 9)];
    assert_eq!(verdict(&t, &t), Ok(Verdict::Intersecting));
}

#[test]
fn far_apart_triangles_are_disjoint() {
    assert_eq!(verdict(&[(0, 0), (2, 0), (0, 2)], &[(10, 10), (12, 10), (10, 12)]), Ok(Verdict::Disjoint));
}

// Every point of the first triangle has x + y <= 4 and every point of
// the second x + y >= 6: the line x + y = 5 passes between them.
#[test]
fn triangles_apart_at_a_corner_are_disjoint() {
    assert_eq!(verdict(&[(0, 0), (4, 0), (0, 4)], &[(3, 3), (6, 3), (3, 6)]), Ok(Verdict::Disjoint));
}

#[test]
fn triangles_overlapping_at_a_corner_intersect() {
    assert_eq!(verdict(&[(0, 0), (4, 0), (0, 4)], &[(1, 1), (6, 3), (3, 6)]), Ok(Verdict::Intersecting));
}

// The corner (2, 2) of the second triangle lies on the long side of
// the first: they touch and do not overlap.
#[test]
fn triangle_touching_a_side_with_a_corner_is_disjoint() {
    assert_eq!(verdict(&[(0, 0), (4, 0), (0, 4)], &[(2, 2), (6, 3), (3, 6)]), Ok(Verdict::Disjoint));
}

// Shapes that touch along an edge count as disjoint: the first probe
// that does not pass the origin ends the search, and a probe that
// only reaches the origin does not pass it.
#[test]
fn squares_sharing_an_edge_are_disjoint() {
    let left = [(0, 0), (1, 0), (1, 1), (0, 1)];
    let right = [(1, 0), (2, 0), (2, 1), (1, 1)];
    let above = [(0, 1), (1, 1), (1, 2), (0, 2)];
    assert_eq!(verdict(&left, &right), Ok(Verdict::Disjoint));
    assert_eq!(verdict(&right, &left), Ok(Verdict::Disjoint));
    assert_eq!(verdict(&left, &above), Ok(Verdict::Disjoint));
    assert_eq!(verdict(&above, &left), Ok(Verdict::Disjoint));
}

#[test]
fn triangles_sharing_a_vertex_are_disjoint() {
    assert_eq!(verdict(&[(0, 0), (4, 0), (0, 4)], &[(4, 0), (8, 0), (4, 4)]), Ok(Verdict::Disjoint));
}

// A touching pair that is found intersecting: the point lies on the
// side of the triangle through which the search enters it. The same
// pair reflected in the x axis is found disjoint.
#[test]
fn touching_verdict_depends_on_the_side() {
    assert_eq!(verdict(&[(-2, 0), (5, 0), (0, -1)], &[(0, 0)]), Ok(Verdict::Intersecting));
    assert_eq!(verdict(&[(-2, 0), (5, 0), (0, 1)], &[(0, 0)]), Ok(Verdict::Disjoint));
}

#[test]
fn squares_overlapping_by_one_unit_intersect() {
    assert_eq!(
        verdict(&[(0, 0), (4, 0), (4, 4), (0, 4)], &[(3, 3), (7, 3), (7, 7), (3, 7)]),
        Ok(Verdict::Intersecting)
    );
}

#[test]
fn squares_one_unit_apart_are_disjoint() {
    assert_eq!(
        verdict(&[(0, 0), (4, 0), (4, 4), (0, 4)], &[(5, 0), (9, 0), (9, 4), (5, 4)]),
        Ok(Verdict::Disjoint)
    );
}

#[test]
fn nested_squares_intersect() {
    assert_eq!(
        verdict(&[(0, 0), (10, 0), (10, 10), (0, 10)], &[(4, 4), (6, 4), (6, 6), (4, 6)]),
        Ok(Verdict::Intersecting)
    );
}

// Both centroids are the origin, so the first probe goes along the x
// axis.
#[test]
fn shapes_with_one_centroid_intersect() {
    assert_eq!(
        verdict(&[(-5, -5), (5, -5), (5, 5), (-5, 5)], &[(-1, -1), (1, -1), (1, 1), (-1, 1)]),
        Ok(Verdict::Intersecting)
    );
}

// After two probes the origin lies on the line through the two points
// found, so the third probe goes along that segment turned a quarter.
#[test]
fn crossing_segments_intersect() {
    assert_eq!(verdict(&[(-1, 0), (1, 0)], &[(0, -1), (0, 1)]), Ok(Verdict::Intersecting));
    assert_eq!(verdict(&[(0, -1), (0, 1)], &[(-1, 0), (1, 0)]), Ok(Verdict::Intersecting));
}

// Flat shapes on one line have no inside to share.
#[test]
fn overlapping_segments_on_one_line_are_disjoint() {
    assert_eq!(verdict(&[(0, 0), (2, 0)], &[(1, 0), (3, 0)]), Ok(Verdict::Disjoint));
}

#[test]
fn single_points() {
    assert_eq!(verdict(&[(0, 0)], &[(0, 0)]), Ok(Verdict::Disjoint));
    assert_eq!(verdict(&[(0, 0)], &[(3, 4)]), Ok(Verdict::Disjoint));
}

#[test]
fn point_inside_a_triangle_intersects() {
    assert_eq!(verdict(&[(0, 0), (6, 0), (0, 6)], &[(1, 1)]), Ok(Verdict::Intersecting));
}

#[test]
fn point_on_the_side_of_a_triangle() {
    assert_eq!(verdict(&[(0, 0), (6, 0), (0, 6)], &[(3, 0)]), Ok(Verdict::Disjoint));
}

#[test]
fn shapes_at_the_coordinate_limit() {
    let m = COORD_LIMIT;
    let big = [(-m, -m), (m, -m), (m, m), (-m, m)];
    let corner = [(m - 1, m - 1), (m, m - 1), (m, m), (m - 1, m)];
    let near = [(-m, -m), (-m + 3, -m), (-m, -m + 3)];
    assert_eq!(verdict(&big, &corner), Ok(Verdict::Intersecting));
    assert_eq!(verdict(&corner, &near), Ok(Verdict::Disjoint));
    assert_eq!(verdict(&big, &big), Ok(Verdict::Intersecting));
}

#[test]
fn polygon_with_many_vertices() {
    // the lattice points of the parabola y = x * x, -40 <= x <= 40, form a convex polygon
    let bowl: Vec<(i128, i128)> = (-40..=40).map(|x| (x, x * x)).collect();
    let inside = [(-1, 10), (1, 10), (0, 12)];
    let below = [(-1, -3), (1, -3), (0, -1)];
    let beside = [(30, 100), (39, 100), (39, 200)];
    assert_eq!(verdict(&bowl, &inside), Ok(Verdict::Intersecting));
    assert_eq!(verdict(&bowl, &below), Ok(Verdict::Disjoint));
    assert_eq!(verdict(&bowl, &beside), Ok(Verdict::Disjoint));
    assert_eq!(verdict(&bowl, &bowl), Ok(Verdict::Intersecting));
}

// Pairs on which the search replaces a kept point several times
// before it ends.
#[test]
fn searches_of_several_rounds() {
    // no line separates these
    assert_eq!(verdict(&[(-3, -3), (0, 0)], &[(-2, 4), (1, -4), (6, 1)]), Ok(Verdict::Intersecting));
    assert_eq!(
        verdict(&[(-10, -2), (-3, -2), (-7, 9)], &[(-13, -5), (4, -5), (-4, -1)]),
        Ok(Verdict::Intersecting)
    );
    assert_eq!(
        verdict(&[(-10, 7), (-3, -6), (6, -2), (10, 7)], &[(-4, -7), (19, -2), (19, 1), (3, -3)]),
        Ok(Verdict::Intersecting)
    );
    // a line passes between these
    assert_eq!(verdict(&[(-4, -1), (5, 1), (5, 2)], &[(0, -3), (8, 3)]), Ok(Verdict::Disjoint));
    assert_eq!(
        verdict(
            &[(-27, -17), (-23, -17), (16, -1)],
            &[(-51, 5), (-24, -14), (-1, -7), (41, 8), (43, 20)]
        ),
        Ok(Verdict::Disjoint)
    );
    // the corner (18, 18) of the second lies on the side of the first from (-5, -5) to (24, 24)
    assert_eq!(
        verdict(&[(-8, -17), (24, 24), (-5, -5)], &[(-36, 27), (-33, -9), (18, 18)]),
        Ok(Verdict::Disjoint)
    );
}

#[test]
fn admissible_shapes() {
    assert!(is_admissible(&shape(&[(0, 0)])));
    assert!(is_admissible(&shape(&[(COORD_LIMIT, -COORD_LIMIT), (0, 0)])));
    assert!(!is_admissible(&shape(&[])));
    assert!(!is_admissible(&shape(&[(0, 0), (COORD_LIMIT + 1, 0)])));
    assert!(!is_admissible(&shape(&[(0, -COORD_LIMIT - 1)])));
    assert_eq!(COORD_LIMIT, 1 << 29);
    assert_eq!(VERTEX_LIMIT as u64, u32::MAX as u64);
}
