use vstd::prelude::*;
use crate::plane::{V2, triple, fits_i128};
use crate::shape::{vertex_sum, support, centroid_offset};
use crate::bounds::{
    lemma_product_bound, lemma_dot_bound, lemma_vertex_sum_bound, lemma_support_bound,
};
use crate::identities::lemma_norm_sq;
use crate::search::{
    separable, overlapping, apart, strictly_separated_along, lemma_gjk_concludes, lemma_gjk_sound,
};
use crate::laws::lemma_apart_is_disjoint;
use crate::vec2::{Vec2, Centroid, points, sums_fit};

verus! {

/// Whether two convex shapes overlap.
#[derive(Clone, Copy, Debug, PartialEq, Eq, Structural)]
pub enum Verdict {
    Disjoint,
    Intersecting,
}

/// The search ran out of rounds before it reached a verdict.
#[derive(Clone, Copy, Debug, PartialEq, Eq, Structural)]
pub struct Inconclusive;

/// The greatest magnitude of a vertex coordinate that `gjk` accepts.
pub const COORD_LIMIT: i128 = 536_870_912;

/// The bound on every direction that the search probes: 2^95.
pub const DIRECTION_LIMIT: i128 = 39_614_081_257_132_168_796_771_975_168;

/// The greatest number of vertices of a shape that `gjk` accepts.
pub const VERTEX_LIMIT: usize = 4_294_967_295;

/// A shape that `gjk` accepts: not empty, of at most `VERTEX_LIMIT`
/// vertices, each coordinate within `COORD_LIMIT` of zero.
pub open spec fn admissible(s: Seq<Vec2>) -> bool {
    &&& 0 < s.len() <= VERTEX_LIMIT
    &&& forall|i: int| 0 <= i < s.len() ==> (#[trigger] s[i])@.within(COORD_LIMIT as int)
}

/// The direction of the first probe: from the centroid of `b` towards
/// the centroid of `a`, or along the x axis where the two coincide.
pub open spec fn seed_direction(a: Seq<V2>, b: Seq<V2>) -> V2 {
    let c = centroid_offset(a, b);
    if c.x == 0 && c.y == 0 {
        V2 { x: 1, y: 0 }
    } else {
        c
    }
}

/// The direction in which to look for the third point of the simplex:
/// at right angles to the segment from `newer` to `older`, on the
/// side of the origin; where the origin lies on the line through them,
/// the segment turned a quarter clockwise.
pub open spec fn edge_direction(older: V2, newer: V2) -> V2 {
    let ab = older.minus(newer);
    let t = triple(ab, newer.neg(), ab);
    if t.norm_sq() == 0 {
        ab.perp()
    } else {
        t
    }
}

/// The number of rounds granted to the search on triangles.
pub open spec fn round_limit(a: Seq<V2>, b: Seq<V2>) -> nat {
    a.len() * b.len() + 2
}

/// The search on triangles. `older` and `newer` are the two points
/// kept so far and `d` the direction of the next probe. Each round
/// adds the support point `p` along `d`. If `p` does not pass the
/// origin, the shapes are disjoint. Else the origin is looked for
/// beyond the edge from `p` to `older`, then beyond the edge from `p`
/// to `newer`: where it is found, that edge is kept and the search
/// goes on at right angles to it; where it is beyond neither, the
/// triangle holds the origin and the shapes intersect.
pub open spec fn refine(a: Seq<V2>, b: Seq<V2>, older: V2, newer: V2, d: V2, rounds: nat) -> Option<Verdict>
    decreases rounds,
{
    if rounds == 0 {
        None
    } else {
        let p = support(d, a, b);
        if p.dot(d) <= 0 {
            Some(Verdict::Disjoint)
        } else {
            let ao = p.neg();
            let ab = newer.minus(p);
            let ac = older.minus(p);
            let acperp = triple(ab, ac, ac);
            if acperp.dot(ao) >= 0 {
                refine(a, b, older, p, acperp, (rounds - 1) as nat)
            } else {
                let abperp = triple(ac, ab, ab);
                if abperp.dot(ao) < 0 {
                    Some(Verdict::Intersecting)
                } else {
                    refine(a, b, newer, p, abperp, (rounds - 1) as nat)
                }
            }
        }
    }
}

/// The search from its first point `first` on: the second probe, and
/// then the search on triangles.
pub open spec fn pair_up(a: Seq<V2>, b: Seq<V2>, first: V2) -> Option<Verdict> {
    let d = first.neg();
    let p = support(d, a, b);
    if p.dot(d) <= 0 {
        Some(Verdict::Disjoint)
    } else {
        refine(a, b, first, p, edge_direction(first, p), round_limit(a, b))
    }
}

/// What the search says of the shapes with vertices `a` and `b`;
/// `None` where it runs out of rounds.
pub open spec fn gjk_outcome(a: Seq<V2>, b: Seq<V2>) -> Option<Verdict> {
    let d = seed_direction(a, b);
    let p = support(d, a, b);
    if p.dot(d) <= 0 {
        Some(Verdict::Disjoint)
    } else {
        pair_up(a, b, p)
    }
}

/// The partial sums of an admissible shape fit a machine word.
proof fn lemma_admissible_sums(s: Seq<Vec2>)
    requires
        admissible(s),
    ensures
        sums_fit(points(s)),
        vertex_sum(points(s)).within(s.len() * COORD_LIMIT),
{
    let limit = COORD_LIMIT as int;
    assert forall|n: int| 0 <= n <= s.len() implies (#[trigger] vertex_sum(points(s).take(n))).fits() by {
        let t = points(s).take(n);
        lemma_vertex_sum_bound(t, limit);
        lemma_product_bound(t.len() as int, limit, VERTEX_LIMIT as int, limit);
    }
    lemma_vertex_sum_bound(points(s), COORD_LIMIT as int);
}

/// Every vertex of an admissible shape can be measured along a
/// direction within 2^95, and so can a support point.
proof fn lemma_probe_fits(d: V2, a: Seq<Vec2>, b: Seq<Vec2>)
    requires
        admissible(a),
        admissible(b),
        d.within(DIRECTION_LIMIT as int),
    ensures
        d.neg().fits(),
        forall|i: int| 0 <= i < a.len() ==> d.dot_fits(#[trigger] a[i]@),
        forall|j: int| 0 <= j < b.len() ==> d.neg().dot_fits(#[trigger] b[j]@),
        support(d, points(a), points(b)).within(2 * COORD_LIMIT),
        support(d, points(a), points(b)).dot_fits(d),
{
    assert forall|i: int| 0 <= i < a.len() implies d.dot_fits(#[trigger] a[i]@) by {
        lemma_dot_bound(d, a[i]@, DIRECTION_LIMIT as int, COORD_LIMIT as int);
    }
    assert forall|j: int| 0 <= j < b.len() implies d.neg().dot_fits(#[trigger] b[j]@) by {
        lemma_dot_bound(d.neg(), b[j]@, DIRECTION_LIMIT as int, COORD_LIMIT as int);
    }
    lemma_support_bound(d, points(a), points(b), COORD_LIMIT as int);
    lemma_dot_bound(support(d, points(a), points(b)), d, 2 * COORD_LIMIT, DIRECTION_LIMIT as int);
}

/// The triple product of three differences of support points can be
/// formed in machine words, and lies within 2^95.
proof fn lemma_triple_fits(a: V2, b: V2, c: V2)
    requires
        a.within(4 * COORD_LIMIT),
        b.within(4 * COORD_LIMIT),
        c.within(4 * COORD_LIMIT),
    ensures
        a.dot_fits(c),
        b.dot_fits(c),
        fits_i128(b.x * a.dot(c)),
        fits_i128(a.x * b.dot(c)),
        fits_i128(b.y * a.dot(c)),
        fits_i128(a.y * b.dot(c)),
        triple(a, b, c).within(DIRECTION_LIMIT as int),
{
    let m: int = 2_147_483_648;
    let mm: int = 9_223_372_036_854_775_808;
    assert(m * m == 4_611_686_018_427_387_904) by (nonlinear_arith)
        requires
            m == 2_147_483_648,
    ;
    assert(m * mm == 19_807_040_628_566_084_398_385_987_584) by (nonlinear_arith)
        requires
            m == 2_147_483_648,
            mm == 9_223_372_036_854_775_808,
    ;
    lemma_dot_bound(a, c, m, m);
    lemma_dot_bound(b, c, m, m);
    lemma_product_bound(b.x, a.dot(c), m, mm);
    lemma_product_bound(a.x, b.dot(c), m, mm);
    lemma_product_bound(b.y, a.dot(c), m, mm);
    lemma_product_bound(a.y, b.dot(c), m, mm);
}

/// Tells whether `gjk` accepts the shape.
pub fn is_admissible(vertices: &[Vec2]) -> (ok: bool)
    ensures
        ok == admissible(vertices@),
{
    if vertices.len() == 0 || vertices.len() > VERTEX_LIMIT {
        return false;
    }
    let mut i: usize = 0;
    while i < vertices.len()
        invariant
            i <= vertices.len(),
            forall|k: int| 0 <= k < i ==> (#[trigger] vertices@[k])@.within(COORD_LIMIT as int),
        decreases vertices.len() - i,
    {
        let v = vertices[i];
        if v.x < -COORD_LIMIT || v.x > COORD_LIMIT || v.y < -COORD_LIMIT || v.y > COORD_LIMIT {
            return false;
        }
        i += 1;
    }
    true
}

/// Decides whether two convex shapes, given by their vertices, overlap.
///
/// The search walks the Minkowski difference of the two shapes by
/// support points and is granted one round for each pair of vertices
/// and three more. It always ends within them: `Inconclusive` is what
/// it would say if it did not, and is never returned.
///
/// `Disjoint` is said only of shapes that a line separates, and of all
/// shapes with a line passing between them. `Intersecting` is said
/// only of shapes whose convex hulls share a point, and of all shapes
/// that no line separates. Of shapes that only touch, the verdict is
/// the one that `gjk_outcome` spells out.
pub fn gjk(vertices1: &[Vec2], vertices2: &[Vec2]) -> (r: Result<Verdict, Inconclusive>)
    requires
        admissible(vertices1@),
        admissible(vertices2@),
    ensures
        r is Ok,
        r.ok() == gjk_outcome(points(vertices1@), points(vertices2@)),
        r.ok() == Some(Verdict::Disjoint) ==> separable(points(vertices1@), points(vertices2@)),
        r.ok() == Some(Verdict::Intersecting) ==> overlapping(points(vertices1@), points(vertices2@)),
        apart(points(vertices1@), points(vertices2@)) ==> r.ok() == Some(Verdict::Disjoint),
{
    let ghost pa = points(vertices1@);
    let ghost pb = points(vertices2@);
    let mut index: usize = 0;

    proof {
        lemma_gjk_concludes(pa, pb);
        lemma_gjk_sound(pa, pb);
        if apart(pa, pb) {
            let gap = choose|d: V2| #[trigger] strictly_separated_along(pa, pb, d);
            lemma_apart_is_disjoint(pa, pb, gap);
        }
        lemma_admissible_sums(vertices1@);
        lemma_admissible_sums(vertices2@);
    }
    let position1 = Vec2::average_point(vertices1);
    let position2 = Vec2::average_point(vertices2);

    proof {
        let n1 = vertices1.len() as int;
        let n2 = vertices2.len() as int;
        let lim = VERTEX_LIMIT as int;
        lemma_product_bound(n1, COORD_LIMIT as int, lim, COORD_LIMIT as int);
        lemma_product_bound(n2, COORD_LIMIT as int, lim, COORD_LIMIT as int);
        lemma_product_bound(n2, position1.sum.x as int, lim, lim * COORD_LIMIT);
        lemma_product_bound(n2, position1.sum.y as int, lim, lim * COORD_LIMIT);
        lemma_product_bound(n1, position2.sum.x as int, lim, lim * COORD_LIMIT);
        lemma_product_bound(n1, position2.sum.y as int, lim, lim * COORD_LIMIT);
    }
    let mut d = Centroid::subtract_copy(&position1, &position2);

    if (d.x == 0) && (d.y == 0) {
        d.x = 1;
    }
    assert(d@ == seed_direction(pa, pb));

    let zero = Vec2::new(0, 0);
    let mut simplex: [Vec2; 3] = [zero, zero, zero];

    proof {
        lemma_probe_fits(d@, vertices1@, vertices2@);
    }
    let mut a = d.minkowski_sum(vertices1, vertices2);

    simplex[0] = a;

    if a.dot_product(&d) <= 0 {
        return Ok(Verdict::Disjoint);
    }

    d = a.negate_copy();

    proof {
        let lim = VERTEX_LIMIT as int;
        lemma_product_bound(vertices1.len() as int, vertices2.len() as int, lim, lim);
    }
    let mut rounds_left: u128 = (vertices1.len() as u128) * (vertices2.len() as u128) + 3;

    loop
        invariant
            admissible(vertices1@),
            admissible(vertices2@),
            pa == points(vertices1@),
            pb == points(vertices2@),
            index <= 1,
            gjk_outcome(pa, pb) is Some,
            gjk_outcome(pa, pb) == Some(Verdict::Disjoint) ==> separable(pa, pb),
            gjk_outcome(pa, pb) == Some(Verdict::Intersecting) ==> overlapping(pa, pb),
            apart(pa, pb) ==> gjk_outcome(pa, pb) == Some(Verdict::Disjoint),
            d@.within(DIRECTION_LIMIT as int),
            simplex[0]@.within(2 * COORD_LIMIT),
            simplex[1]@.within(2 * COORD_LIMIT),
            index == 0 ==> gjk_outcome(pa, pb) == pair_up(pa, pb, simplex[0]@) && d@ == simplex[0]@.neg()
                && rounds_left == round_limit(pa, pb) + 1,
            index == 1 ==> gjk_outcome(pa, pb) == refine(
                pa,
                pb,
                simplex[0]@,
                simplex[1]@,
                d@,
                rounds_left as nat,
            ),
        decreases rounds_left,
    {
        if rounds_left == 0 {
            return Err(Inconclusive);
        }
        rounds_left -= 1;
        index += 1;

        proof {
            lemma_probe_fits(d@, vertices1@, vertices2@);
        }
        simplex[index] = d.minkowski_sum(vertices1, vertices2);

        a = simplex[index];

        if a.dot_product(&d) <= 0 {
            return Ok(Verdict::Disjoint);
        }

        let ao = a.negate_copy();

        if index < 2 {
            let b = simplex[0];
            let ab = Vec2::subtract_copy(&b, &a);
            proof {
                lemma_triple_fits(ab@, ao@, ab@);
                lemma_norm_sq(triple(ab@, ao@, ab@));
            }
            d = Vec2::triple_product(&ab, &ao, &ab);
            // the squared length need not fit a machine word; it is zero where both components are
            if d.x == 0 && d.y == 0 {
                d = ab.perpendicular_copy();
            }
            continue;
        }

        let b = simplex[1];
        let c = simplex[0];
        let ab = Vec2::subtract_copy(&b, &a);
        let ac = Vec2::subtract_copy(&c, &a);

        proof {
            lemma_triple_fits(ab@, ac@, ac@);
            lemma_dot_bound(triple(ab@, ac@, ac@), ao@, DIRECTION_LIMIT as int, 2 * COORD_LIMIT);
        }
        let acperp = Vec2::triple_product(&ab, &ac, &ac);

        if acperp.dot_product(&ao) >= 0 {
            d = acperp;
        } else {
            proof {
                lemma_triple_fits(ac@, ab@, ab@);
                lemma_dot_bound(triple(ac@, ab@, ab@), ao@, DIRECTION_LIMIT as int, 2 * COORD_LIMIT);
            }
            let abperp = Vec2::triple_product(&ac, &ab, &ab);

            if abperp.dot_product(&ao) < 0 {
                return Ok(Verdict::Intersecting);
            }

            simplex[0] = simplex[1];

            d = abperp;
        }

        simplex[1] = simplex[2];
        index -= 1;
    }
}

} // verus!
