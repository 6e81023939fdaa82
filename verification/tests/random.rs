use gjk2d::gjk::{gjk, Verdict};
use gjk2d::vec2::Vec2;

// One unit of the vertices below is this many steps of the lattice.
const GRID: i128 = 1 << 20;

// The smallest change of a coordinate: one step of the lattice.
const EPSILON: f64 = 1.0;

fn perturbation() -> i128 {
    let size = (rand::random::<u32>() as f64 / u32::max_value() as f64) * EPSILON * 100.0;
    let sign = if rand::random::<u8>() % 2 == 1 { 1 } else { -1 };
    (size as i128) * sign
}

fn jostle_copy(vec: &Vec2) -> Vec2 {
    Vec2::new(vec.x + perturbation(), vec.y + perturbation())
}

#[test]
fn test_random_detections() {
    let vertices1 = [
        Vec2::new(4 * GRID, 11 * GRID),
        Vec2::new(5 * GRID, 5 * GRID),
        Vec2::new(9 * GRID, 9 * GRID),
    ];
    let vertices2 = [
        Vec2::new(4 * GRID, 11 * GRID),
        Vec2::new(5 * GRID, 5 * GRID),
        Vec2::new(9 * GRID, 9 * GRID),
    ];

    let mut num_no_collisions = 0;

    for _iter in 0..100 {
        let a = vertices1.iter().map(|v| jostle_copy(v)).collect::<Vec<Vec2>>();

        let b = vertices2.iter().map(|v| jostle_copy(v)).collect::<Vec<Vec2>>();

        if gjk(&a[..], &b[..]) == Ok(Verdict::Intersecting) {
            num_no_collisions += 1;
        }
    }

    assert!(num_no_collisions > 0);
}

#[test]
fn jostled_triangles_always_intersect() {
    let vertices = [
        Vec2::new(4 * GRID, 11 * GRID),
        Vec2::new(5 * GRID, 5 * GRID),
        Vec2::new(9 * GRID, 9 * GRID),
    ];
    for _iter in 0..1000 {
        let a = vertices.iter().map(|v| jostle_copy(v)).collect::<Vec<Vec2>>();
        let b = vertices.iter().map(|v| jostle_copy(v)).collect::<Vec<Vec2>>();
        assert_eq!(gjk(&a, &b), Ok(Verdict::Intersecting));
        assert_eq!(gjk(&b, &a), Ok(Verdict::Intersecting));
    }
}
