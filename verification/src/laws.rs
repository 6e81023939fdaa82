use vstd::prelude::*;
use crate::plane::{V2, triple};
use crate::shape::{
    vertex_sum, centroid_offset, furthest, furthest_among, support, translate, lemma_furthest,
};
use crate::identities::{
    lemma_cross_swap, lemma_dot_linear, lemma_scale_dot, lemma_weighted_corners,
    lemma_weighted_corners_along, lemma_cross_sum, lemma_orthogonal_to_same, lemma_mul3,
    lemma_distribute,
};
use crate::triangle::encloses_origin;
use crate::gjk::{
    Verdict, refine, pair_up, gjk_outcome, seed_direction, edge_direction, round_limit,
};
use crate::search::{
    difference, holds_origin, separated_along, strictly_separated_along, separable,
    lemma_gjk_concludes, lemma_gjk_sound,
};

verus! {

/// The search reaches a verdict on every pair of shapes: it never
/// runs out of rounds.
pub proof fn lemma_verdict_reached(a: Seq<V2>, b: Seq<V2>)
    requires
        a.len() > 0,
        b.len() > 0,
    ensures
        gjk_outcome(a, b) == Some(Verdict::Disjoint) || gjk_outcome(a, b) == Some(Verdict::Intersecting),
{
    lemma_gjk_concludes(a, b);
}

/// Shapes that no line separates are found intersecting.
pub proof fn lemma_inseparable_intersect(a: Seq<V2>, b: Seq<V2>)
    requires
        a.len() > 0,
        b.len() > 0,
        !separable(a, b),
    ensures
        gjk_outcome(a, b) == Some(Verdict::Intersecting),
{
    lemma_gjk_concludes(a, b);
    lemma_gjk_sound(a, b);
}

/// A triangle that holds the origin has a corner that is not behind
/// the origin along `d`, whatever `d` is.
proof fn lemma_enclosing_triangle_reaches(p: V2, q: V2, r: V2, d: V2)
    requires
        encloses_origin(p, q, r),
    ensures
        p.dot(d) >= 0 || q.dot(d) >= 0 || r.dot(d) >= 0,
{
    let t = q.minus(p).cross(r.minus(p));
    let wp = q.cross(r);
    let wq = r.cross(p);
    let wr = p.cross(q);
    lemma_cross_sum(p, q, r);
    lemma_weighted_corners_along(p, q, r, d);
    let xp = p.dot(d);
    let xq = q.dot(d);
    let xr = r.dot(d);
    if xp < 0 && xq < 0 && xr < 0 {
        assert(false) by (nonlinear_arith)
            requires
                t == wp + wq + wr,
                t != 0,
                t * wp >= 0,
                t * wq >= 0,
                t * wr >= 0,
                wp * xp + wq * xq + wr * xr == 0,
                xp < 0,
                xq < 0,
                xr < 0,
        ;
    }
}

/// Shapes with a line passing between them are found disjoint.
pub proof fn lemma_apart_is_disjoint(a: Seq<V2>, b: Seq<V2>, d: V2)
    requires
        a.len() > 0,
        b.len() > 0,
        strictly_separated_along(a, b, d),
    ensures
        gjk_outcome(a, b) == Some(Verdict::Disjoint),
{
    lemma_gjk_concludes(a, b);
    lemma_gjk_sound(a, b);
    if gjk_outcome(a, b) == Some(Verdict::Intersecting) {
        let (p, q, r) = choose|p: V2, q: V2, r: V2| #[trigger] holds_origin(a, b, p, q, r);
        lemma_enclosing_triangle_reaches(p, q, r, d);
    }
}

/// Moving a shape does not change which of its vertices is furthest
/// along a direction.
pub proof fn lemma_furthest_translate(d: V2, s: Seq<V2>, t: V2, n: nat)
    requires
        n <= s.len(),
    ensures
        furthest_among(d, translate(s, t), n) == furthest_among(d, s, n),
        n > 0 ==> 0 <= furthest_among(d, s, n) < n,
    decreases n,
{
    if n > 1 {
        lemma_furthest_translate(d, s, t, (n - 1) as nat);
        let k = furthest_among(d, s, (n - 1) as nat);
        let m = translate(s, t);
        assert(m[n - 1] == s[n - 1].plus(t));
        assert(m[k] == s[k].plus(t));
        assert(d.dot(s[n - 1].plus(t)) == d.dot(s[n - 1]) + d.dot(t)) by (nonlinear_arith)
            requires
                d.dot(s[n - 1].plus(t)) == d.x * (s[n - 1].x + t.x) + d.y * (s[n - 1].y + t.y),
                d.dot(s[n - 1]) == d.x * s[n - 1].x + d.y * s[n - 1].y,
                d.dot(t) == d.x * t.x + d.y * t.y,
        ;
        assert(d.dot(s[k].plus(t)) == d.dot(s[k]) + d.dot(t)) by (nonlinear_arith)
            requires
                d.dot(s[k].plus(t)) == d.x * (s[k].x + t.x) + d.y * (s[k].y + t.y),
                d.dot(s[k]) == d.x * s[k].x + d.y * s[k].y,
                d.dot(t) == d.x * t.x + d.y * t.y,
        ;
    }
}

/// Moving both shapes alike leaves every support point where it is.
pub proof fn lemma_support_translate(d: V2, a: Seq<V2>, b: Seq<V2>, t: V2)
    requires
        a.len() > 0,
        b.len() > 0,
    ensures
        support(d, translate(a, t), translate(b, t)) == support(d, a, b),
{
    lemma_furthest_translate(d, a, t, a.len());
    lemma_furthest_translate(d.neg(), b, t, b.len());
}

/// Moving a shape by `t` moves the sum of its vertices by `t` for
/// each of them.
pub proof fn lemma_vertex_sum_translate(s: Seq<V2>, t: V2)
    ensures
        vertex_sum(translate(s, t)) == vertex_sum(s).plus(t.scale(s.len() as int)),
    decreases s.len(),
{
    let m = translate(s, t);
    if s.len() > 0 {
        lemma_vertex_sum_translate(s.drop_last(), t);
        assert(m.drop_last() =~= translate(s.drop_last(), t));
        assert(m.last() == s.last().plus(t));
        let n = s.len() as int;
        assert((n - 1) * t.x + t.x == n * t.x && (n - 1) * t.y + t.y == n * t.y) by (nonlinear_arith);
    } else {
        assert(0 * t.x == 0 && 0 * t.y == 0);
    }
}

/// Moving both shapes alike leaves the search on triangles as it is.
pub proof fn lemma_refine_translate(
    a: Seq<V2>,
    b: Seq<V2>,
    t: V2,
    older: V2,
    newer: V2,
    d: V2,
    rounds: nat,
)
    requires
        a.len() > 0,
        b.len() > 0,
    ensures
        refine(translate(a, t), translate(b, t), older, newer, d, rounds) == refine(
            a,
            b,
            older,
            newer,
            d,
            rounds,
        ),
    decreases rounds,
{
    if rounds > 0 {
        lemma_support_translate(d, a, b, t);
        let p = support(d, a, b);
        let ab = newer.minus(p);
        let ac = older.minus(p);
        lemma_refine_translate(a, b, t, older, p, triple(ab, ac, ac), (rounds - 1) as nat);
        lemma_refine_translate(a, b, t, newer, p, triple(ac, ab, ab), (rounds - 1) as nat);
    }
}

/// Moving both shapes by the same vector never changes the verdict.
pub proof fn lemma_translation_invariance(a: Seq<V2>, b: Seq<V2>, t: V2)
    requires
        a.len() > 0,
        b.len() > 0,
    ensures
        gjk_outcome(translate(a, t), translate(b, t)) == gjk_outcome(a, b),
{
    let ta = translate(a, t);
    let tb = translate(b, t);
    let na = a.len() as int;
    let nb = b.len() as int;
    lemma_vertex_sum_translate(a, t);
    lemma_vertex_sum_translate(b, t);
    let sa = vertex_sum(a);
    let sb = vertex_sum(b);
    assert(nb * (sa.x + na * t.x) - na * (sb.x + nb * t.x) == nb * sa.x - na * sb.x) by (nonlinear_arith);
    assert(nb * (sa.y + na * t.y) - na * (sb.y + nb * t.y) == nb * sa.y - na * sb.y) by (nonlinear_arith);
    assert(centroid_offset(ta, tb) == centroid_offset(a, b));
    let d = seed_direction(a, b);
    lemma_support_translate(d, a, b, t);
    let first = support(d, a, b);
    lemma_support_translate(first.neg(), a, b, t);
    let second = support(first.neg(), a, b);
    lemma_refine_translate(a, b, t, first, second, edge_direction(first, second), round_limit(a, b));
}

/// With the shapes exchanged and the direction reversed, the support
/// point is reflected through the origin.
pub proof fn lemma_support_mirror(d: V2, a: Seq<V2>, b: Seq<V2>)
    ensures
        support(d.neg(), b, a) == support(d, a, b).neg(),
{
    assert(d.neg().neg() == d);
}

/// The triple product of the reflected vectors is the reflected
/// triple product.
proof fn lemma_triple_mirror(a: V2, b: V2, c: V2)
    ensures
        triple(a.neg(), b.neg(), c.neg()) == triple(a, b, c).neg(),
{
    lemma_dot_linear(a, a, c.neg());
    lemma_dot_linear(b, b, c.neg());
    lemma_dot_linear(c, c, a);
    lemma_dot_linear(c, c, b);
    lemma_cross_swap(c, a);
    lemma_cross_swap(c, b);
    let s = a.dot(c);
    let t = b.dot(c);
    assert(a.neg().dot(c.neg()) == s);
    assert(b.neg().dot(c.neg()) == t);
    assert((-b.x) * s - (-a.x) * t == -(b.x * s - a.x * t)) by (nonlinear_arith);
    assert((-b.y) * s - (-a.y) * t == -(b.y * s - a.y * t)) by (nonlinear_arith);
}

/// Reflecting both vectors through the origin keeps their scalar
/// product.
proof fn lemma_dot_mirror(a: V2, b: V2)
    ensures
        a.neg().dot(b.neg()) == a.dot(b),
{
    assert((-a.x) * (-b.x) + (-a.y) * (-b.y) == a.x * b.x + a.y * b.y) by (nonlinear_arith);
}

/// With the shapes exchanged, and the kept points and the direction
/// reflected through the origin, the search on triangles runs as
/// before.
pub proof fn lemma_refine_mirror(a: Seq<V2>, b: Seq<V2>, older: V2, newer: V2, d: V2, rounds: nat)
    ensures
        refine(b, a, older.neg(), newer.neg(), d.neg(), rounds) == refine(a, b, older, newer, d, rounds),
    decreases rounds,
{
    if rounds > 0 {
        let p = support(d, a, b);
        let ao = p.neg();
        let ab = newer.minus(p);
        let ac = older.minus(p);
        let acperp = triple(ab, ac, ac);
        let abperp = triple(ac, ab, ab);
        lemma_support_mirror(d, a, b);
        lemma_dot_mirror(p, d);
        assert(newer.neg().minus(p.neg()) == ab.neg());
        assert(older.neg().minus(p.neg()) == ac.neg());
        lemma_triple_mirror(ab, ac, ac);
        lemma_triple_mirror(ac, ab, ab);
        lemma_dot_mirror(acperp, ao);
        lemma_dot_mirror(abperp, ao);
        lemma_refine_mirror(a, b, older, p, acperp, (rounds - 1) as nat);
        lemma_refine_mirror(a, b, newer, p, abperp, (rounds - 1) as nat);
    }
}

/// With the shapes exchanged and the first point reflected through
/// the origin, the search runs as before.
proof fn lemma_pair_up_mirror(a: Seq<V2>, b: Seq<V2>, first: V2)
    ensures
        pair_up(b, a, first.neg()) == pair_up(a, b, first),
{
    let d = first.neg();
    let p = support(d, a, b);
    lemma_support_mirror(d, a, b);
    lemma_dot_mirror(p, d);
    let ab = first.minus(p);
    let t = triple(ab, p.neg(), ab);
    assert(first.neg().minus(p.neg()) == ab.neg());
    lemma_triple_mirror(ab, p.neg(), ab);
    lemma_dot_mirror(t, t);
    assert(ab.neg().perp() == ab.perp().neg());
    assert(edge_direction(first.neg(), p.neg()) == edge_direction(first, p).neg());
    assert(a.len() * b.len() == b.len() * a.len()) by (nonlinear_arith);
    lemma_refine_mirror(a, b, first, p, edge_direction(first, p), round_limit(a, b));
}

/// The sum of the vertices of `s`, measured along `d`, is at most
/// `s.len()` times a bound on each of them, and falls short of it
/// unless every vertex meets the bound.
proof fn lemma_sum_along(s: Seq<V2>, d: V2, m: int)
    requires
        forall|i: int| 0 <= i < s.len() ==> (#[trigger] s[i]).dot(d) <= m,
    ensures
        vertex_sum(s).dot(d) <= s.len() * m,
        vertex_sum(s).dot(d) == s.len() * m ==> forall|i: int| 0 <= i < s.len() ==> (#[trigger] s[i]).dot(d) == m,
    decreases s.len(),
{
    if s.len() > 0 {
        let r = s.drop_last();
        assert forall|i: int| 0 <= i < r.len() implies (#[trigger] r[i]).dot(d) <= m by {
            assert(r[i] == s[i]);
        }
        lemma_sum_along(r, d, m);
        let x = s.last();
        assert(x.dot(d) <= m);
        assert(vertex_sum(s).dot(d) == vertex_sum(r).dot(d) + x.dot(d)) by (nonlinear_arith)
            requires
                vertex_sum(s).dot(d) == (vertex_sum(r).x + x.x) * d.x + (vertex_sum(r).y + x.y) * d.y,
                vertex_sum(r).dot(d) == vertex_sum(r).x * d.x + vertex_sum(r).y * d.y,
                x.dot(d) == x.x * d.x + x.y * d.y,
        ;
        assert(s.len() * m == r.len() * m + m) by (nonlinear_arith)
            requires
                s.len() == r.len() + 1,
        ;
        if vertex_sum(s).dot(d) == s.len() * m {
            assert forall|i: int| 0 <= i < s.len() implies (#[trigger] s[i]).dot(d) == m by {
                if i < r.len() {
                    assert(r[i] == s[i]);
                }
            }
        }
    } else {
        assert(vertex_sum(s).dot(d) == 0) by (nonlinear_arith)
            requires
                vertex_sum(s).dot(d) == 0 * d.x + 0 * d.y,
        ;
        assert(s.len() * m == 0) by (nonlinear_arith)
            requires
                s.len() == 0,
        ;
    }
}

/// Shapes with one centroid that a line separates lie on that line
/// altogether.
proof fn lemma_balanced_and_separated(a: Seq<V2>, b: Seq<V2>, d: V2)
    requires
        a.len() > 0,
        b.len() > 0,
        centroid_offset(a, b) == V2::zero(),
        separated_along(a, b, d),
    ensures
        forall|i: int, j: int|
            0 <= i < a.len() && 0 <= j < b.len() ==> (#[trigger] difference(a, b, i, j)).dot(d) == 0,
{
    let na = a.len() as int;
    let nb = b.len() as int;
    let fi = furthest(d, a);
    let fj = furthest(d.neg(), b);
    lemma_furthest(d, a);
    lemma_furthest(d.neg(), b);
    let f = a[fi].dot(d);
    let g = b[fj].dot(d);
    assert(difference(a, b, fi, fj).dot(d) <= 0);
    lemma_dot_linear(a[fi], b[fj], d);
    assert(f <= g);
    assert forall|i: int| 0 <= i < a.len() implies (#[trigger] a[i]).dot(d) <= f by {
        lemma_cross_swap(d, a[i]);
        lemma_cross_swap(d, a[fi]);
    }
    assert forall|j: int| 0 <= j < b.len() implies (#[trigger] b[j]).dot(d.neg()) <= -g by {
        lemma_cross_swap(d.neg(), b[j]);
        lemma_cross_swap(d.neg(), b[fj]);
        lemma_dot_linear(d, d, b[j]);
        lemma_dot_linear(d, d, b[fj]);
        lemma_cross_swap(d, b[j]);
        lemma_cross_swap(d, b[fj]);
    }
    lemma_sum_along(a, d, f);
    lemma_sum_along(b, d.neg(), -g);
    let sa = vertex_sum(a).dot(d);
    let sb = vertex_sum(b).dot(d);
    lemma_dot_linear(d, d, vertex_sum(b));
    lemma_cross_swap(d.neg(), vertex_sum(b));
    lemma_cross_swap(d, vertex_sum(b));
    assert(vertex_sum(b).dot(d.neg()) == -sb);
    lemma_scale_dot(nb, vertex_sum(a), d);
    lemma_scale_dot(na, vertex_sum(b), d);
    lemma_dot_linear(vertex_sum(a).scale(nb), vertex_sum(b).scale(na), d);
    assert(V2::zero().dot(d) == 0) by (nonlinear_arith)
        requires
            V2::zero().dot(d) == 0 * d.x + 0 * d.y,
    ;
    assert(nb * sa == na * sb);
    assert(sa == na * f && sb == nb * g && f == g) by (nonlinear_arith)
        requires
            nb * sa == na * sb,
            sa <= na * f,
            -sb <= nb * (-g),
            f <= g,
            na > 0,
            nb > 0,
    ;
    assert(nb * (-g) == -(nb * g)) by (nonlinear_arith);
    assert forall|i: int, j: int| 0 <= i < a.len() && 0 <= j < b.len() implies (#[trigger] difference(
        a,
        b,
        i,
        j,
    )).dot(d) == 0 by {
        lemma_dot_linear(a[i], b[j], d);
        assert(a[i].dot(d) == f);
        assert(b[j].dot(d.neg()) == -g);
        lemma_dot_linear(d, d, b[j]);
        lemma_cross_swap(d.neg(), b[j]);
        lemma_cross_swap(d, b[j]);
    }
}

/// Shapes that lie on one line through their common points are found
/// disjoint: the search never forms a triangle with an inside.
proof fn lemma_flat_is_disjoint(a: Seq<V2>, b: Seq<V2>, d: V2)
    requires
        a.len() > 0,
        b.len() > 0,
        d.x != 0 || d.y != 0,
        forall|i: int, j: int|
            0 <= i < a.len() && 0 <= j < b.len() ==> (#[trigger] difference(a, b, i, j)).dot(d) == 0,
    ensures
        gjk_outcome(a, b) == Some(Verdict::Disjoint),
{
    lemma_gjk_concludes(a, b);
    lemma_gjk_sound(a, b);
    if gjk_outcome(a, b) == Some(Verdict::Intersecting) {
        let (p, q, r) = choose|p: V2, q: V2, r: V2| #[trigger] holds_origin(a, b, p, q, r);
        assert(p.dot(d) == 0);
        assert(q.dot(d) == 0);
        assert(r.dot(d) == 0);
        lemma_dot_linear(q, p, d);
        lemma_dot_linear(r, p, d);
        lemma_orthogonal_to_same(q.minus(p), r.minus(p), d);
    }
}

/// A line that separates `a` from `b` separates `b` from `a`.
proof fn lemma_separable_mirror(a: Seq<V2>, b: Seq<V2>)
    requires
        separable(a, b),
    ensures
        separable(b, a),
{
    let d = choose|d: V2| (d.x != 0 || d.y != 0) && #[trigger] separated_along(a, b, d);
    assert forall|j: int, i: int| 0 <= j < b.len() && 0 <= i < a.len() implies (#[trigger] difference(
        b,
        a,
        j,
        i,
    )).dot(d.neg()) <= 0 by {
        assert(difference(a, b, i, j).dot(d) <= 0);
        assert(difference(b, a, j, i) == difference(a, b, i, j).neg());
        lemma_dot_mirror(difference(a, b, i, j), d);
    }
    assert(separated_along(b, a, d.neg()));
}

/// The verdict does not depend on the order in which the two shapes
/// are given.
pub proof fn lemma_symmetry(a: Seq<V2>, b: Seq<V2>)
    requires
        a.len() > 0,
        b.len() > 0,
    ensures
        gjk_outcome(b, a) == gjk_outcome(a, b),
{
    let c = centroid_offset(a, b);
    let na = a.len() as int;
    let nb = b.len() as int;
    assert(centroid_offset(b, a) == c.neg());
    if c.x == 0 && c.y == 0 {
        if separable(a, b) {
            let d = choose|d: V2| (d.x != 0 || d.y != 0) && #[trigger] separated_along(a, b, d);
            lemma_balanced_and_separated(a, b, d);
            lemma_flat_is_disjoint(a, b, d);
            assert forall|j: int, i: int| 0 <= j < b.len() && 0 <= i < a.len() implies (#[trigger] difference(
                b,
                a,
                j,
                i,
            )).dot(d) == 0 by {
                assert(difference(a, b, i, j).dot(d) == 0);
                assert(difference(b, a, j, i) == difference(a, b, i, j).neg());
                lemma_dot_linear(difference(a, b, i, j), difference(a, b, i, j), d);
            }
            lemma_flat_is_disjoint(b, a, d);
        } else {
            if separable(b, a) {
                lemma_separable_mirror(b, a);
            }
            lemma_inseparable_intersect(a, b);
            lemma_inseparable_intersect(b, a);
        }
    } else {
        let d = seed_direction(a, b);
        assert(seed_direction(b, a) == d.neg());
        lemma_support_mirror(d, a, b);
        let first = support(d, a, b);
        lemma_dot_mirror(first, d);
        lemma_pair_up_mirror(a, b, first);
    }
}

/// Twice the signed area of the triangle of the vertices `i`, `j`
/// and `k` of `a`.
pub open spec fn corner_area(a: Seq<V2>, i: int, j: int, k: int) -> int {
    a[j].minus(a[i]).cross(a[k].minus(a[i]))
}

/// The shape has an inside: three of its vertices are not on one
/// line.
pub open spec fn has_inside(a: Seq<V2>) -> bool {
    exists|i: int, j: int, k: int|
        0 <= i < a.len() && 0 <= j < a.len() && 0 <= k < a.len() && #[trigger] corner_area(a, i, j, k) != 0
}

/// A shape with an inside intersects itself.
pub proof fn lemma_self_overlap(a: Seq<V2>)
    requires
        has_inside(a),
    ensures
        gjk_outcome(a, a) == Some(Verdict::Intersecting),
{
    let (i, j, k) = choose|i: int, j: int, k: int|
        0 <= i < a.len() && 0 <= j < a.len() && 0 <= k < a.len() && #[trigger] corner_area(a, i, j, k) != 0;
    if separable(a, a) {
        let d = choose|d: V2| (d.x != 0 || d.y != 0) && #[trigger] separated_along(a, a, d);
        assert(difference(a, a, j, i).dot(d) <= 0);
        assert(difference(a, a, i, j).dot(d) <= 0);
        assert(difference(a, a, k, i).dot(d) <= 0);
        assert(difference(a, a, i, k).dot(d) <= 0);
        lemma_dot_linear(a[j], a[i], d);
        lemma_dot_linear(a[i], a[j], d);
        lemma_dot_linear(a[k], a[i], d);
        lemma_dot_linear(a[i], a[k], d);
        lemma_orthogonal_to_same(a[j].minus(a[i]), a[k].minus(a[i]), d);
    }
    lemma_inseparable_intersect(a, a);
}

/// Two shapes that a gap parts along `axis` stay disjoint when the
/// first is moved towards the second by less than the gap, both
/// measured along `axis`.
pub proof fn lemma_separation_monotone(a: Seq<V2>, b: Seq<V2>, axis: V2, gap: int, t: V2)
    requires
        a.len() > 0,
        b.len() > 0,
        forall|i: int, j: int|
            0 <= i < a.len() && 0 <= j < b.len() ==> (#[trigger] difference(a, b, i, j)).dot(axis) <= -gap,
        t.dot(axis) < gap,
    ensures
        gjk_outcome(translate(a, t), b) == Some(Verdict::Disjoint),
{
    let m = translate(a, t);
    assert forall|i: int, j: int| 0 <= i < m.len() && 0 <= j < b.len() implies (#[trigger] difference(
        m,
        b,
        i,
        j,
    )).dot(axis) < 0 by {
        assert(difference(a, b, i, j).dot(axis) <= -gap);
        assert(m[i] == a[i].plus(t));
        let x = difference(a, b, i, j);
        assert(difference(m, b, i, j) == x.plus(t));
        assert(x.plus(t).dot(axis) == x.dot(axis) + t.dot(axis)) by (nonlinear_arith)
            requires
                x.plus(t).dot(axis) == (x.x + t.x) * axis.x + (x.y + t.y) * axis.y,
                x.dot(axis) == x.x * axis.x + x.y * axis.y,
                t.dot(axis) == t.x * axis.x + t.y * axis.y,
        ;
    }
    lemma_apart_is_disjoint(m, b, axis);
}

/// Where a triangle of points of the Minkowski difference holds the
/// origin, the same weights, none negative and not all zero, put on
/// the vertices of `a` and on the vertices of `b` that the corners
/// are made of, give the same point: one that lies in both convex
/// hulls.
pub proof fn lemma_overlap_shares_point(a: Seq<V2>, b: Seq<V2>, i: (int, int, int), j: (int, int, int))
    requires
        encloses_origin(difference(a, b, i.0, j.0), difference(a, b, i.1, j.1), difference(a, b, i.2, j.2)),
    ensures
        ({
            let p = difference(a, b, i.0, j.0);
            let q = difference(a, b, i.1, j.1);
            let r = difference(a, b, i.2, j.2);
            let t = q.minus(p).cross(r.minus(p));
            let w0 = t * q.cross(r);
            let w1 = t * r.cross(p);
            let w2 = t * p.cross(q);
            &&& w0 >= 0 && w1 >= 0 && w2 >= 0 && w0 + w1 + w2 > 0
            &&& a[i.0].scale(w0).plus(a[i.1].scale(w1)).plus(a[i.2].scale(w2)) == b[j.0].scale(w0).plus(
                b[j.1].scale(w1),
            ).plus(b[j.2].scale(w2))
        }),
{
    let p = difference(a, b, i.0, j.0);
    let q = difference(a, b, i.1, j.1);
    let r = difference(a, b, i.2, j.2);
    let t = q.minus(p).cross(r.minus(p));
    let u0 = q.cross(r);
    let u1 = r.cross(p);
    let u2 = p.cross(q);
    let w0 = t * u0;
    let w1 = t * u1;
    let w2 = t * u2;
    lemma_cross_sum(p, q, r);
    lemma_weighted_corners(p, q, r);
    lemma_distribute(t, u0 + u1, u2);
    lemma_distribute(t, u0, u1);
    assert(t * t > 0) by (nonlinear_arith)
        requires
            t != 0,
    ;
    // the weighted corners add up to the origin
    lemma_mul3(t, u0, p.x);
    lemma_mul3(t, u1, q.x);
    lemma_mul3(t, u2, r.x);
    lemma_distribute(t, u0 * p.x + u1 * q.x, u2 * r.x);
    lemma_distribute(t, u0 * p.x, u1 * q.x);
    lemma_mul3(t, u0, p.y);
    lemma_mul3(t, u1, q.y);
    lemma_mul3(t, u2, r.y);
    lemma_distribute(t, u0 * p.y + u1 * q.y, u2 * r.y);
    lemma_distribute(t, u0 * p.y, u1 * q.y);
    assert(t * 0 == 0);
    assert(w0 * p.x + w1 * q.x + w2 * r.x == 0);
    assert(w0 * p.y + w1 * q.y + w2 * r.y == 0);
    // each corner is a vertex of `a` less a vertex of `b`
    lemma_distribute(w0, a[i.0].x, b[j.0].x);
    lemma_distribute(w1, a[i.1].x, b[j.1].x);
    lemma_distribute(w2, a[i.2].x, b[j.2].x);
    lemma_distribute(w0, a[i.0].y, b[j.0].y);
    lemma_distribute(w1, a[i.1].y, b[j.1].y);
    lemma_distribute(w2, a[i.2].y, b[j.2].y);
}

} // verus!
