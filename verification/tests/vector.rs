use gjk2d::vec2::{Centroid, Vec2};

fn shape(coords: &[(i128, i128)]) -> Vec<Vec2> {
    coords.iter().map(|&(x, y)| Vec2::new(x, y)).collect()
}

#[test]
fn new_keeps_both_coordinates() {
    let v = Vec2::new(-7, 12);
    assert_eq!((v.x, v.y), (-7, 12));
}

#[test]
fn subtract_in_place() {
    let mut v = Vec2::new(3, 4);
    v.subtract(&Vec2::new(1, 6));
    assert_eq!((v.x, v.y), (2, -2));
}

#[test]
fn subtract_copy_leaves_arguments() {
    let a = Vec2::new(3, 4);
    let b = Vec2::new(1, 6);
    let r = Vec2::subtract_copy(&a, &b);
    assert_eq!((r.x, r.y), (2, -2));
    assert_eq!((a.x, a.y), (3, 4));
    assert_eq!((b.x, b.y), (1, 6));
}

#[test]
fn negate_in_place() {
    let mut v = Vec2::new(2, -3);
    v.negate();
    assert_eq!((v.x, v.y), (-2, 3));
}

#[test]
fn negate_copy_leaves_argument() {
    let v = Vec2::new(2, -3);
    let r = v.negate_copy();
    assert_eq!((r.x, r.y), (-2, 3));
    assert_eq!((v.x, v.y), (2, -3));
}

#[test]
fn in_place_operations_chain() {
    let mut v = Vec2::new(3, 4);
    v.subtract(&Vec2::new(1, 1)).negate().perpendicular();
    assert_eq!((v.x, v.y), (-3, 2));
}

#[test]
fn perpendicular_turns_clockwise() {
    let mut v = Vec2::new(3, 4);
    v.perpendicular();
    assert_eq!((v.x, v.y), (4, -3));
    let mut e = Vec2::new(1, 0);
    e.perpendicular();
    assert_eq!((e.x, e.y), (0, -1));
}

#[test]
fn perpendicular_copy_turns_clockwise() {
    let v = Vec2::new(0, 1);
    let r = v.perpendicular_copy();
    assert_eq!((r.x, r.y), (1, 0));
    assert_eq!((v.x, v.y), (0, 1));
}

#[test]
fn four_quarter_turns_come_back() {
    let v = Vec2::new(5, -2);
    let r = v.perpendicular_copy().perpendicular_copy().perpendicular_copy().perpendicular_copy();
    assert_eq!((r.x, r.y), (5, -2));
}

#[test]
fn dot_product_value() {
    assert_eq!(Vec2::new(1, 2).dot_product(&Vec2::new(3, 4)), 11);
    assert_eq!(Vec2::new(1, 2).dot_product(&Vec2::new(-2, 1)), 0);
    assert_eq!(Vec2::new(-3, 5).dot_product(&Vec2::new(2, -1)), -11);
}

#[test]
fn length_squared_value() {
    assert_eq!(Vec2::new(3, 4).length_squared(), 25);
    assert_eq!(Vec2::new(0, 0).length_squared(), 0);
    assert_eq!(Vec2::new(-6, 8).length_squared(), 100);
}

#[test]
fn triple_product_value() {
    let a = Vec2::new(1, 0);
    let b = Vec2::new(0, 1);
    let c = Vec2::new(1, 1);
    let r = Vec2::triple_product(&a, &b, &c);
    assert_eq!((r.x, r.y), (-1, 1));
    let a = Vec2::new(2, 3);
    let b = Vec2::new(-1, 4);
    let c = Vec2::new(5, -2);
    // a . c = 4, b . c = -13: b * 4 - a * (-13) = (-4, 16) + (26, 39)
    let r = Vec2::triple_product(&a, &b, &c);
    assert_eq!((r.x, r.y), (22, 55));
}

#[test]
fn triple_product_is_at_right_angles_to_its_last_argument() {
    let a = Vec2::new(2, 3);
    let b = Vec2::new(-1, 4);
    let c = Vec2::new(5, -2);
    let r = Vec2::triple_product(&a, &b, &c);
    assert_eq!(r.dot_product(&c), 0);
}

#[test]
fn triple_product_of_parallel_vectors_vanishes() {
    let ab = Vec2::new(4, 6);
    let ao = Vec2::new(-2, -3);
    let r = Vec2::triple_product(&ab, &ao, &ab);
    assert_eq!((r.x, r.y), (0, 0));
    assert_eq!(r.length_squared(), 0);
}

#[test]
fn average_point_is_sum_over_count() {
    let c = Vec2::average_point(&shape(&[(4, 11), (5, 5), (9, 9)]));
    assert_eq!((c.sum.x, c.sum.y, c.count), (18, 25, 3));
    let c = Vec2::average_point(&shape(&[(-3, 7)]));
    assert_eq!((c.sum.x, c.sum.y, c.count), (-3, 7, 1));
}

#[test]
fn centroid_difference_is_scaled_by_both_counts() {
    let a = Vec2::average_point(&shape(&[(4, 11), (5, 5), (9, 9)]));
    let b = Vec2::average_point(&shape(&[(0, 0), (2, 2)]));
    // centroids (6, 25/3) and (1, 1): their difference (5, 22/3), times 3 * 2
    let d = Centroid::subtract_copy(&a, &b);
    assert_eq!((d.x, d.y), (30, 44));
    let e = Centroid::subtract_copy(&b, &a);
    assert_eq!((e.x, e.y), (-30, -44));
}

#[test]
fn centroid_difference_of_equal_centroids_vanishes() {
    let a = Vec2::average_point(&shape(&[(-5, -5), (5, -5), (5, 5), (-5, 5)]));
    let b = Vec2::average_point(&shape(&[(-1, 0), (1, 0)]));
    let d = Centroid::subtract_copy(&a, &b);
    assert_eq!((d.x, d.y), (0, 0));
}

#[test]
fn furthest_point_along_each_axis() {
    let s = shape(&[(0, 0), (4, 1), (2, 5), (-3, 2)]);
    assert_eq!(Vec2::new(1, 0).index_of_furthest_point(&s), 1);
    assert_eq!(Vec2::new(0, 1).index_of_furthest_point(&s), 2);
    assert_eq!(Vec2::new(-1, 0).index_of_furthest_point(&s), 3);
    assert_eq!(Vec2::new(0, -1).index_of_furthest_point(&s), 0);
}

#[test]
fn furthest_point_keeps_the_first_of_equals() {
    let s = shape(&[(0, 0), (2, 1), (2, 5), (1, 9), (2, -4)]);
    assert_eq!(Vec2::new(1, 0).index_of_furthest_point(&s), 1);
    let flat = shape(&[(3, 3), (3, 3), (3, 3)]);
    assert_eq!(Vec2::new(5, -7).index_of_furthest_point(&flat), 0);
    assert_eq!(Vec2::new(0, 0).index_of_furthest_point(&s), 0);
}

#[test]
fn furthest_point_of_a_single_vertex() {
    let s = shape(&[(8, -8)]);
    assert_eq!(Vec2::new(-1, -1).index_of_furthest_point(&s), 0);
}

#[test]
fn minkowski_sum_is_the_support_of_the_difference() {
    let a = shape(&[(0, 0), (2, 0), (0, 2)]);
    let b = shape(&[(10, 10), (12, 10), (10, 12)]);
    // furthest of a along (1, 0) is (2, 0); furthest of b along (-1, 0) is (10, 10), the first of two
    let r = Vec2::new(1, 0).minkowski_sum(&a, &b);
    assert_eq!((r.x, r.y), (-8, -10));
    // furthest of a along (-1, -1) is (0, 0); furthest of b along (1, 1) is (12, 10), the first of two
    let r = Vec2::new(-1, -1).minkowski_sum(&a, &b);
    assert_eq!((r.x, r.y), (-12, -10));
}

#[test]
fn minkowski_sum_reflects_when_shapes_are_exchanged() {
    let a = shape(&[(0, 0), (4, 1), (2, 5), (-3, 2)]);
    let b = shape(&[(1, 1), (6, 3), (3, 6)]);
    let d = Vec2::new(3, -2);
    let r = d.minkowski_sum(&a, &b);
    let s = d.negate_copy().minkowski_sum(&b, &a);
    assert_eq!((s.x, s.y), (-r.x, -r.y));
}
