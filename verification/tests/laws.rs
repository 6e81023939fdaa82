use gjk2d::gjk::{gjk, Inconclusive, Verdict};
use gjk2d::vec2::Vec2;

fn shape(coords: &[(i128, i128)]) -> Vec<Vec2> {
    coords.iter().map(|&(x, y)| Vec2::new(x, y)).collect()
}

fn moved(coords: &[(i128, i128)], t: (i128, i128)) -> Vec<(i128, i128)> {
    coords.iter().map(|&(x, y)| (x + t.0, y + t.1)).collect()
}

fn verdict(a: &[(i128, i128)], b: &[(i128, i128)]) -> Result<Verdict, Inconclusive> {
    gjk(&shape(a), &shape(b))
}

fn samples() -> Vec<Vec<(i128, i128)>> {
    vec![
        vec![(0, 0), (4, 0), (0, 4)],
        vec![(3, 3), (6, 3), (3, 6)],
        vec![(1, 1), (6, 3), (3, 6)],
        vec![(2, 2), (6, 3), (3, 6)],
        vec![(0, 0), (1, 0), (1, 1), (0, 1)],
        vec![(1, 0), (2, 0), (2, 1), (1, 1)],
        vec![(-5, -5), (5, -5), (5, 5), (-5, 5)],
        vec![(-1, 0), (1, 0)],
        vec![(0, -1), (0, 1)],
        vec![(0, 0)],
        vec![(-2, 0), (5, 0), (0, -1)],
        vec![(-2, 0), (5, 0), (0, 1)],
        vec![(4, 11), (5, 5), (9, 9)],
    ]
}

#[test]
fn verdict_is_the_same_in_either_order() {
    let shapes = samples();
    for a in shapes.iter() {
        for b in shapes.iter() {
            assert_eq!(verdict(a, b), verdict(b, a));
        }
    }
}

#[test]
fn verdict_survives_moving_both_shapes() {
    let shapes = samples();
    let moves = [(1, 0), (0, -1), (17, 23), (-1000, 999), (123456, -654321)];
    for a in shapes.iter() {
        for b in shapes.iter() {
            for &t in moves.iter() {
                assert_eq!(verdict(&moved(a, t), &moved(b, t)), verdict(a, b));
            }
        }
    }
}

#[test]
fn a_verdict_is_always_reached() {
    let shapes = samples();
    for a in shapes.iter() {
        for b in shapes.iter() {
            assert!(verdict(a, b).is_ok());
        }
    }
}

#[test]
fn shapes_with_an_inside_intersect_themselves() {
    for a in samples().iter() {
        let has_inside = a.len() >= 3;
        let expected = if has_inside { Verdict::Intersecting } else { Verdict::Disjoint };
        assert_eq!(verdict(a, a), Ok(expected));
    }
}

// The squares are 6 apart along the x axis. Moved towards the second
// by less than 6 the first stays disjoint from it; moved by 6 they
// touch along an edge and still count as disjoint; moved by 7 they
// overlap.
#[test]
fn closing_a_gap() {
    let a = [(0, 0), (4, 0), (4, 4), (0, 4)];
    let b = [(10, 0), (14, 0), (14, 4), (10, 4)];
    for step in 0..6 {
        assert_eq!(verdict(&moved(&a, (step, 0)), &b), Ok(Verdict::Disjoint));
        assert_eq!(verdict(&moved(&a, (step, 3)), &b), Ok(Verdict::Disjoint));
    }
    assert_eq!(verdict(&moved(&a, (6, 0)), &b), Ok(Verdict::Disjoint));
    assert_eq!(verdict(&moved(&a, (7, 0)), &b), Ok(Verdict::Intersecting));
}

// The triangles are apart along (1, 1): x + y <= 4 on the first and
// x + y >= 6 on the second.
#[test]
fn closing_a_slanted_gap() {
    let a = [(0, 0), (4, 0), (0, 4)];
    let b = [(3, 3), (6, 3), (3, 6)];
    assert_eq!(verdict(&a, &b), Ok(Verdict::Disjoint));
    assert_eq!(verdict(&moved(&a, (1, 0)), &b), Ok(Verdict::Disjoint));
    assert_eq!(verdict(&moved(&a, (0, 1)), &b), Ok(Verdict::Disjoint));
    assert_eq!(verdict(&moved(&a, (1, 1)), &b), Ok(Verdict::Disjoint));
    assert_eq!(verdict(&moved(&a, (2, 1)), &b), Ok(Verdict::Intersecting));
}
