use vstd::prelude::*;
use vstd::arithmetic::div_mod::lemma_fundamental_div_mod_converse;
use vstd::set_lib::{set_int_range, lemma_int_range, lemma_len_subset};
use crate::plane::{V2, triple};
use crate::shape::{furthest, support, lemma_furthest};
use crate::identities::{
    lemma_cross_swap, lemma_dot_linear, lemma_norm_sq, lemma_triple_along, lemma_triple_as_perp,
    lemma_dot_perp,
};
use crate::triangle::{
    edge_ok, in_cone, encloses_origin, lemma_keep_older, lemma_keep_newer, lemma_enclosed,
    lemma_flat_edge_encloses, lemma_cone_symmetric, lemma_cone_grows,
};
use crate::gjk::{Verdict, refine, gjk_outcome, seed_direction, edge_direction, round_limit};

verus! {

/// The vertex `i` of `a` less the vertex `j` of `b`: a point of the
/// Minkowski difference of the two shapes.
pub open spec fn difference(a: Seq<V2>, b: Seq<V2>, i: int, j: int) -> V2 {
    a[i].minus(b[j])
}

/// `p` is a vertex of `a` less a vertex of `b`.
pub open spec fn in_difference(a: Seq<V2>, b: Seq<V2>, p: V2) -> bool {
    exists|i: int, j: int| 0 <= i < a.len() && 0 <= j < b.len() && #[trigger] difference(a, b, i, j) == p
}

/// No vertex of `a` lies further along `d` than any vertex of `b`:
/// a line at right angles to `d` has `a` on one side and `b` on the
/// other, and either may touch it.
pub open spec fn separated_along(a: Seq<V2>, b: Seq<V2>, d: V2) -> bool {
    forall|i: int, j: int|
        0 <= i < a.len() && 0 <= j < b.len() ==> (#[trigger] difference(a, b, i, j)).dot(d) <= 0
}

/// Every vertex of `b` lies further along `d` than every vertex of
/// `a`: a line at right angles to `d` passes between the two shapes.
pub open spec fn strictly_separated_along(a: Seq<V2>, b: Seq<V2>, d: V2) -> bool {
    forall|i: int, j: int|
        0 <= i < a.len() && 0 <= j < b.len() ==> (#[trigger] difference(a, b, i, j)).dot(d) < 0
}

/// Some line passes between the two shapes and touches neither.
pub open spec fn apart(a: Seq<V2>, b: Seq<V2>) -> bool {
    exists|d: V2| #[trigger] strictly_separated_along(a, b, d)
}

/// Some line has `a` on one side and `b` on the other; they may touch
/// it, and so each other, but their insides share no point.
pub open spec fn separable(a: Seq<V2>, b: Seq<V2>) -> bool {
    exists|d: V2| (d.x != 0 || d.y != 0) && #[trigger] separated_along(a, b, d)
}

/// `p`, `q` and `r` are points of the Minkowski difference, and the
/// triangle that they form has an inside and holds the origin.
pub open spec fn holds_origin(a: Seq<V2>, b: Seq<V2>, p: V2, q: V2, r: V2) -> bool {
    &&& in_difference(a, b, p)
    &&& in_difference(a, b, q)
    &&& in_difference(a, b, r)
    &&& encloses_origin(p, q, r)
}

/// Three points of the Minkowski difference form a triangle with an
/// inside that holds the origin: the convex hulls of `a` and `b`
/// share a point.
pub open spec fn overlapping(a: Seq<V2>, b: Seq<V2>) -> bool {
    exists|p: V2, q: V2, r: V2| #[trigger] holds_origin(a, b, p, q, r)
}

/// The support point along `d` is a point of the Minkowski
/// difference, and none of its points lies further along `d`.
pub proof fn lemma_support(d: V2, a: Seq<V2>, b: Seq<V2>)
    requires
        a.len() > 0,
        b.len() > 0,
    ensures
        in_difference(a, b, support(d, a, b)),
        forall|i: int, j: int|
            0 <= i < a.len() && 0 <= j < b.len() ==> (#[trigger] difference(a, b, i, j)).dot(d) <= support(
                d,
                a,
                b,
            ).dot(d),
{
    let fi = furthest(d, a);
    let fj = furthest(d.neg(), b);
    lemma_furthest(d, a);
    lemma_furthest(d.neg(), b);
    assert(difference(a, b, fi, fj) == support(d, a, b));
    assert forall|i: int, j: int| 0 <= i < a.len() && 0 <= j < b.len() implies (#[trigger] difference(
        a,
        b,
        i,
        j,
    )).dot(d) <= support(d, a, b).dot(d) by {
        lemma_dot_linear(a[i], b[j], d);
        lemma_dot_linear(a[fi], b[fj], d);
        lemma_cross_swap(d, a[i]);
        lemma_cross_swap(d, a[fi]);
        lemma_dot_linear(d, d, b[j]);
        lemma_dot_linear(d, d, b[fj]);
        lemma_cross_swap(d, b[j]);
        lemma_cross_swap(d, b[fj]);
        assert(d.dot(a[i]) <= d.dot(a[fi]));
        assert(d.neg().dot(b[j]) <= d.neg().dot(b[fj]));
    }
}

/// Where the support point along `d` does not pass the origin, `d`
/// separates the shapes.
pub proof fn lemma_probe_separates(d: V2, a: Seq<V2>, b: Seq<V2>)
    requires
        a.len() > 0,
        b.len() > 0,
        d.x != 0 || d.y != 0,
        support(d, a, b).dot(d) <= 0,
    ensures
        separable(a, b),
{
    lemma_support(d, a, b);
    assert(separated_along(a, b, d));
}

/// The point of the Minkowski difference with running number `k`,
/// the pairs of vertices counted row by row.
pub open spec fn pair_point(a: Seq<V2>, b: Seq<V2>, k: int) -> V2 {
    difference(a, b, k / (b.len() as int), k % (b.len() as int))
}

/// The running numbers of the points of the Minkowski difference
/// outside the wedge from `u` to `v`.
pub open spec fn beyond(a: Seq<V2>, b: Seq<V2>, u: V2, v: V2) -> Set<int> {
    Set::new(|k: int| 0 <= k < a.len() * b.len() && !in_cone(u, v, pair_point(a, b, k)))
}

/// A bound on the rounds that the search on triangles still needs
/// with `u` and `v` kept, less one: none where the origin lies on the
/// line through them, else one more than there are points outside the
/// wedge.
pub open spec fn rank(a: Seq<V2>, b: Seq<V2>, u: V2, v: V2) -> nat {
    if u.cross(v) == 0 {
        0
    } else {
        beyond(a, b, u, v).len() + 1
    }
}

/// There are no more points outside a wedge than pairs of vertices.
pub proof fn lemma_beyond_bound(a: Seq<V2>, b: Seq<V2>, u: V2, v: V2)
    ensures
        beyond(a, b, u, v).finite(),
        beyond(a, b, u, v).len() <= a.len() * b.len(),
{
    let n = (a.len() * b.len()) as int;
    assert(n >= 0) by (nonlinear_arith)
        requires
            n == a.len() * b.len(),
    ;
    lemma_int_range(0, n);
    assert(beyond(a, b, u, v).subset_of(set_int_range(0, n)));
    lemma_len_subset(beyond(a, b, u, v), set_int_range(0, n));
}

/// A wedge that grows and takes in one more point of the Minkowski
/// difference leaves fewer points outside.
pub proof fn lemma_beyond_shrinks(a: Seq<V2>, b: Seq<V2>, u: V2, v: V2, u2: V2, w: V2, i: int, j: int)
    requires
        0 <= i < a.len(),
        0 <= j < b.len(),
        forall|q: V2| #[trigger] in_cone(u, v, q) ==> in_cone(u2, w, q),
        !in_cone(u, v, difference(a, b, i, j)),
        in_cone(u2, w, difference(a, b, i, j)),
    ensures
        beyond(a, b, u2, w).len() < beyond(a, b, u, v).len(),
{
    let nb = b.len() as int;
    let k = i * nb + j;
    assert(0 <= k < a.len() * b.len()) by (nonlinear_arith)
        requires
            0 <= i < a.len(),
            0 <= j < nb,
            nb == b.len(),
            k == i * nb + j,
    ;
    lemma_fundamental_div_mod_converse(k, nb, i, j);
    assert(pair_point(a, b, k) == difference(a, b, i, j));
    let old_set = beyond(a, b, u, v);
    let new_set = beyond(a, b, u2, w);
    lemma_beyond_bound(a, b, u, v);
    assert(old_set.contains(k));
    assert(!new_set.contains(k));
    assert forall|m: int| new_set.contains(m) implies old_set.remove(k).contains(m) by {
        if in_cone(u, v, pair_point(a, b, m)) {
            assert(in_cone(u2, w, pair_point(a, b, m)));
        }
    }
    assert(new_set.subset_of(old_set.remove(k)));
    lemma_len_subset(new_set, old_set.remove(k));
}

/// A point lies in every wedge of which it is an end.
proof fn lemma_cone_holds_end(u: V2, w: V2)
    ensures
        in_cone(u, w, w),
{
    let s = u.cross(w);
    assert(s * s >= 0) by (nonlinear_arith);
    assert(w.cross(w) == 0) by (nonlinear_arith)
        requires
            w.cross(w) == w.x * w.y - w.y * w.x,
    ;
    assert(s * w.cross(w) == 0) by (nonlinear_arith)
        requires
            w.cross(w) == 0,
    ;
}

/// With more rounds left than the rank of the kept points, the search
/// on triangles reaches a verdict.
pub proof fn lemma_refine_concludes(a: Seq<V2>, b: Seq<V2>, older: V2, newer: V2, d: V2, rounds: nat)
    requires
        a.len() > 0,
        b.len() > 0,
        edge_ok(older, newer, d),
        rounds > rank(a, b, older, newer),
    ensures
        refine(a, b, older, newer, d, rounds) is Some,
    decreases rounds,
{
    let p = support(d, a, b);
    if p.dot(d) > 0 {
        let ao = p.neg();
        let ab = newer.minus(p);
        let ac = older.minus(p);
        let acperp = triple(ab, ac, ac);
        let abperp = triple(ac, ab, ab);
        lemma_support(d, a, b);
        let (i, j) = choose|i: int, j: int|
            0 <= i < a.len() && 0 <= j < b.len() && #[trigger] difference(a, b, i, j) == p;
        if older.cross(newer) == 0 {
            lemma_flat_edge_encloses(p, newer, older, d);
        } else if acperp.dot(ao) >= 0 {
            lemma_keep_older(p, newer, older, d);
            if older.cross(p) != 0 {
                assert forall|q: V2| #[trigger] in_cone(older, newer, q) implies in_cone(older, p, q) by {
                    lemma_cone_grows(older, newer, p, q);
                }
                lemma_cone_holds_end(older, p);
                lemma_beyond_shrinks(a, b, older, newer, older, p, i, j);
            }
            lemma_refine_concludes(a, b, older, p, acperp, (rounds - 1) as nat);
        } else if abperp.dot(ao) >= 0 {
            lemma_keep_newer(p, newer, older, d);
            lemma_cross_swap(older, newer);
            if newer.cross(p) != 0 {
                assert forall|q: V2| #[trigger] in_cone(older, newer, q) implies in_cone(newer, p, q) by {
                    lemma_cone_symmetric(older, newer, q);
                    lemma_cone_grows(newer, older, p, q);
                }
                lemma_cone_holds_end(newer, p);
                lemma_beyond_shrinks(a, b, older, newer, newer, p, i, j);
            }
            lemma_refine_concludes(a, b, newer, p, abperp, (rounds - 1) as nat);
        }
    }
}

/// The search on triangles says `Disjoint` only of shapes that a
/// line separates, and `Intersecting` only of shapes whose Minkowski
/// difference holds the origin in a triangle.
pub proof fn lemma_refine_sound(a: Seq<V2>, b: Seq<V2>, older: V2, newer: V2, d: V2, rounds: nat)
    requires
        a.len() > 0,
        b.len() > 0,
        edge_ok(older, newer, d),
        in_difference(a, b, older),
        in_difference(a, b, newer),
    ensures
        refine(a, b, older, newer, d, rounds) == Some(Verdict::Disjoint) ==> separable(a, b),
        refine(a, b, older, newer, d, rounds) == Some(Verdict::Intersecting) ==> overlapping(a, b),
    decreases rounds,
{
    if rounds > 0 {
        let p = support(d, a, b);
        lemma_support(d, a, b);
        if p.dot(d) <= 0 {
            lemma_probe_separates(d, a, b);
        } else {
            let ao = p.neg();
            let ab = newer.minus(p);
            let ac = older.minus(p);
            let acperp = triple(ab, ac, ac);
            let abperp = triple(ac, ab, ab);
            if acperp.dot(ao) >= 0 {
                lemma_keep_older(p, newer, older, d);
                lemma_refine_sound(a, b, older, p, acperp, (rounds - 1) as nat);
            } else if abperp.dot(ao) < 0 {
                lemma_enclosed(p, newer, older, d);
                assert(holds_origin(a, b, p, newer, older));
            } else {
                lemma_keep_newer(p, newer, older, d);
                lemma_refine_sound(a, b, newer, p, abperp, (rounds - 1) as nat);
            }
        }
    }
}

/// The first two points of the search, with the direction taken from
/// them, are fit for the search on triangles.
pub proof fn lemma_first_edge(first: V2, second: V2)
    requires
        second.dot(first.neg()) > 0,
    ensures
        edge_ok(first, second, edge_direction(first, second)),
{
    let ab = first.minus(second);
    let ao = second.neg();
    let t = triple(ab, ao, ab);
    let d = edge_direction(first, second);
    let k = first.cross(second);
    lemma_dot_linear(first, first, second);
    lemma_cross_swap(first, second);
    assert(first.dot(second) < 0);
    lemma_norm_sq(first);
    lemma_norm_sq(t);
    assert(ab.x != 0 || ab.y != 0) by {
        if ab.x == 0 && ab.y == 0 {
            assert(first == second);
        }
    }
    lemma_triple_as_perp(ab, ao, ab);
    assert(ao.cross(ab) == k) by (nonlinear_arith)
        requires
            ao.cross(ab) == (-second.x) * (first.y - second.y) - (-second.y) * (first.x - second.x),
            k == first.x * second.y - first.y * second.x,
    ;
    assert(first.cross(ab) == -k) by (nonlinear_arith)
        requires
            first.cross(ab) == first.x * (first.y - second.y) - first.y * (first.x - second.x),
            k == first.x * second.y - first.y * second.x,
    ;
    assert(ab.cross(ab) == 0) by (nonlinear_arith)
        requires
            ab.cross(ab) == ab.x * ab.y - ab.y * ab.x,
    ;
    lemma_dot_linear(first, second, d);
    lemma_cross_swap(d, ab);
    if t.norm_sq() == 0 {
        assert(k == 0) by (nonlinear_arith)
            requires
                k * ab.y == 0,
                k * (-ab.x) == 0,
                ab.x != 0 || ab.y != 0,
        ;
        lemma_dot_perp(ab, ab);
        lemma_dot_perp(first, ab);
        lemma_cross_swap(first, d);
    } else {
        lemma_triple_along(ab, ao, ab, ab);
        lemma_triple_along(ab, ao, ab, first);
        assert(k * ab.cross(ab) == 0) by (nonlinear_arith)
            requires
                ab.cross(ab) == 0,
        ;
        assert(k * (-k) <= 0) by (nonlinear_arith);
        lemma_cross_swap(first, d);
    }
}

/// The search always reaches a verdict within the rounds it is given.
pub proof fn lemma_gjk_concludes(a: Seq<V2>, b: Seq<V2>)
    requires
        a.len() > 0,
        b.len() > 0,
    ensures
        gjk_outcome(a, b) is Some,
{
    let d = seed_direction(a, b);
    let first = support(d, a, b);
    if first.dot(d) > 0 {
        let second = support(first.neg(), a, b);
        if second.dot(first.neg()) > 0 {
            lemma_first_edge(first, second);
            lemma_beyond_bound(a, b, first, second);
            lemma_refine_concludes(a, b, first, second, edge_direction(first, second), round_limit(a, b));
        }
    }
}

/// The search says `Disjoint` only of shapes that a line separates,
/// and `Intersecting` only of shapes whose Minkowski difference holds
/// the origin in a triangle.
pub proof fn lemma_gjk_sound(a: Seq<V2>, b: Seq<V2>)
    requires
        a.len() > 0,
        b.len() > 0,
    ensures
        gjk_outcome(a, b) == Some(Verdict::Disjoint) ==> separable(a, b),
        gjk_outcome(a, b) == Some(Verdict::Intersecting) ==> overlapping(a, b),
{
    let d = seed_direction(a, b);
    let first = support(d, a, b);
    lemma_support(d, a, b);
    if first.dot(d) <= 0 {
        lemma_probe_separates(d, a, b);
    } else {
        let d1 = first.neg();
        let second = support(d1, a, b);
        lemma_support(d1, a, b);
        if first.x == 0 && first.y == 0 {
            assert(first.dot(d) == 0) by (nonlinear_arith)
                requires
                    first.x == 0,
                    first.y == 0,
                    first.dot(d) == first.x * d.x + first.y * d.y,
            ;
        }
        if second.dot(d1) <= 0 {
            lemma_probe_separates(d1, a, b);
        } else {
            lemma_first_edge(first, second);
            lemma_refine_sound(a, b, first, second, edge_direction(first, second), round_limit(a, b));
        }
    }
}

} // verus!
