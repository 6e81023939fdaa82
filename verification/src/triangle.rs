use vstd::prelude::*;
use crate::plane::{V2, triple};
use crate::identities::{
    lemma_cross_sum, lemma_cross_swap, lemma_triple_along, lemma_triple_as_perp, lemma_norm_sq,
    lemma_orthogonal_to_same, lemma_parallel_keeps_right_angle, lemma_weighted_corners_along,
    lemma_four_vectors, lemma_dot_linear,
};

verus! {

/// What the search on triangles keeps between two rounds: the probe
/// direction `d` is not the origin and measures both kept points
/// alike, neither lies ahead of the origin along `d`, and the origin
/// is not on the line through them unless it lies between them.
pub open spec fn edge_ok(older: V2, newer: V2, d: V2) -> bool {
    &&& (d.x != 0 || d.y != 0)
    &&& newer.dot(d) == older.dot(d)
    &&& older.dot(d) <= 0
    &&& (older.cross(newer) != 0 || older.dot(newer) < 0)
}

/// `q` lies in the closed wedge that the rays from the origin through
/// `u` and `v` bound (`u` and `v` not on one line through the origin).
pub open spec fn in_cone(u: V2, v: V2, q: V2) -> bool {
    &&& u.cross(v) * u.cross(q) >= 0
    &&& u.cross(v) * q.cross(v) >= 0
}

/// The origin lies in the closed triangle `p q r`, which has an
/// inside: the three cross products of its corners, which add up to
/// twice its signed area, all have the sign of that area or vanish.
pub open spec fn encloses_origin(p: V2, q: V2, r: V2) -> bool {
    let t = q.minus(p).cross(r.minus(p));
    &&& t != 0
    &&& t * q.cross(r) >= 0
    &&& t * r.cross(p) >= 0
    &&& t * p.cross(q) >= 0
}

/// Twice the signed area of the triangle `p newer older`.
pub open spec fn area2(p: V2, newer: V2, older: V2) -> int {
    newer.cross(older) + older.cross(p) + p.cross(newer)
}

/// The two tests of a round, in terms of the cross products of the
/// corners of the triangle.
pub proof fn lemma_round_tests(p: V2, newer: V2, older: V2)
    ensures
        triple(newer.minus(p), older.minus(p), older.minus(p)).dot(p.neg()) == -(area2(p, newer, older)
            * older.cross(p)),
        triple(older.minus(p), newer.minus(p), newer.minus(p)).dot(p.neg()) == -(area2(p, newer, older)
            * p.cross(newer)),
        newer.minus(p).cross(older.minus(p)) == area2(p, newer, older),
{
    let ab = newer.minus(p);
    let ac = older.minus(p);
    let ao = p.neg();
    let t = area2(p, newer, older);
    lemma_cross_sum(p, newer, older);
    lemma_cross_swap(ac, ab);
    lemma_triple_along(ab, ac, ac, ao);
    lemma_triple_along(ac, ab, ab, ao);
    assert(ao.cross(ac) == older.cross(p)) by (nonlinear_arith)
        requires
            ao.cross(ac) == (-p.x) * (older.y - p.y) - (-p.y) * (older.x - p.x),
            older.cross(p) == older.x * p.y - older.y * p.x,
    ;
    assert(ao.cross(ab) == -p.cross(newer)) by (nonlinear_arith)
        requires
            ao.cross(ab) == (-p.x) * (newer.y - p.y) - (-p.y) * (newer.x - p.x),
            p.cross(newer) == p.x * newer.y - p.y * newer.x,
    ;
    assert((-t) * older.cross(p) == -(t * older.cross(p))) by (nonlinear_arith);
    assert(t * (-p.cross(newer)) == -(t * p.cross(newer))) by (nonlinear_arith);
}

/// Along the probe direction the origin lies strictly ahead of the
/// kept points exactly if it is off the line through them; and
/// neither kept point is the origin.
pub proof fn lemma_edge_height(older: V2, newer: V2, d: V2)
    requires
        edge_ok(older, newer, d),
    ensures
        older.cross(newer) != 0 <==> older.dot(d) < 0,
        older.norm_sq() > 0,
        newer.norm_sq() > 0,
{
    let h = older.dot(d);
    lemma_norm_sq(older);
    lemma_norm_sq(newer);
    if older.cross(newer) != 0 {
        if older.x == 0 && older.y == 0 {
            assert(older.cross(newer) == 0) by (nonlinear_arith)
                requires
                    older.x == 0,
                    older.y == 0,
                    older.cross(newer) == older.x * newer.y - older.y * newer.x,
            ;
        }
        if newer.x == 0 && newer.y == 0 {
            assert(older.cross(newer) == 0) by (nonlinear_arith)
                requires
                    newer.x == 0,
                    newer.y == 0,
                    older.cross(newer) == older.x * newer.y - older.y * newer.x,
            ;
        }
        if h == 0 {
            lemma_orthogonal_to_same(older, newer, d);
        }
    } else {
        if older.x == 0 && older.y == 0 {
            assert(older.dot(newer) == 0) by (nonlinear_arith)
                requires
                    older.x == 0,
                    older.y == 0,
                    older.dot(newer) == older.x * newer.x + older.y * newer.y,
            ;
        }
        if newer.x == 0 && newer.y == 0 {
            assert(older.dot(newer) == 0) by (nonlinear_arith)
                requires
                    newer.x == 0,
                    newer.y == 0,
                    older.dot(newer) == older.x * newer.x + older.y * newer.y,
            ;
        }
        // (older . older)(newer . d) - (newer . older)(older . d) == (newer x older)(d x older)
        lemma_triple_along(older, newer, older, d);
        lemma_cross_swap(older, newer);
        let n = older.norm_sq();
        let k = newer.dot(older);
        assert(h == 0) by (nonlinear_arith)
            requires
                n * h - k * h == newer.cross(older) * d.cross(older),
                newer.cross(older) == 0,
                n > 0,
                k < 0,
        ;
    }
}

/// The sign of the area of the triangle that a round forms, and of
/// the cross products of its corners.
pub proof fn lemma_round_area(p: V2, newer: V2, older: V2, d: V2)
    requires
        edge_ok(older, newer, d),
        p.dot(d) > 0,
    ensures
        area2(p, newer, older) != 0,
        area2(p, newer, older) * newer.cross(older) >= 0,
        newer.cross(older) != 0 ==> area2(p, newer, older) * newer.cross(older) > 0 && (older.cross(p)
            + p.cross(newer)) * newer.cross(older) > 0,
        newer.cross(older) == 0 ==> area2(p, newer, older) * older.cross(p) > 0 && area2(p, newer, older)
            * p.cross(newer) > 0,
{
    let al = newer.cross(older);
    let be = older.cross(p);
    let ga = p.cross(newer);
    let t = area2(p, newer, older);
    let h = older.dot(d);
    let da = p.dot(d);
    lemma_edge_height(older, newer, d);
    lemma_cross_swap(older, newer);
    lemma_weighted_corners_along(p, newer, older, d);
    assert(be * h + ga * h == (be + ga) * h) by (nonlinear_arith);
    assert(al * da + (be + ga) * h == 0);
    if al != 0 {
        assert(h < 0);
        assert((be + ga) * al > 0) by (nonlinear_arith)
            requires
                al * da + (be + ga) * h == 0,
                da > 0,
                h < 0,
                al != 0,
        ;
        assert(t * al > 0) by (nonlinear_arith)
            requires
                t == al + (be + ga),
                (be + ga) * al > 0,
                al != 0,
        ;
    } else {
        assert(h == 0);
        lemma_weighted_corners_along(p, newer, older, older);
        let k = newer.dot(older);
        let n = older.norm_sq();
        assert(k < 0);
        assert(al * p.dot(older) == 0) by (nonlinear_arith)
            requires
                al == 0,
        ;
        assert(be * k + ga * n == 0);
        if be == 0 {
            lemma_cross_swap(older, p);
            lemma_norm_sq(older);
            lemma_parallel_keeps_right_angle(older, p, d);
        }
        assert(be * ga > 0) by (nonlinear_arith)
            requires
                be * k + ga * n == 0,
                k < 0,
                n > 0,
                be != 0,
        ;
        assert(t * be > 0 && t * ga > 0) by (nonlinear_arith)
            requires
                t == be + ga,
                be * ga > 0,
        ;
        assert(t * al == 0) by (nonlinear_arith)
            requires
                al == 0,
        ;
    }
}

/// A vector that is not the origin, turned a quarter and stretched
/// by a factor that is not zero, is not the origin.
proof fn lemma_perp_scaled_nonzero(v: V2, k: int)
    requires
        v.x != 0 || v.y != 0,
        k != 0,
    ensures
        v.perp().scale(k).x != 0 || v.perp().scale(k).y != 0,
{
    assert(k * v.y != 0 || k * (-v.x) != 0) by (nonlinear_arith)
        requires
            v.x != 0 || v.y != 0,
            k != 0,
    ;
}

/// The probe direction at right angles to the edge from `p` to `kept`
/// measures both its ends alike.
proof fn lemma_turned_edge(p: V2, kept: V2, other: V2)
    ensures
        ({
            let e = kept.minus(p);
            let dir = triple(other.minus(p), e, e);
            p.dot(dir) == kept.dot(dir)
        }),
{
    let e = kept.minus(p);
    let dir = triple(other.minus(p), e, e);
    lemma_triple_along(other.minus(p), e, e, e);
    assert(e.cross(e) == 0) by (nonlinear_arith)
        requires
            e.cross(e) == e.x * e.y - e.y * e.x,
    ;
    assert(e.cross(other.minus(p)) * e.cross(e) == 0) by (nonlinear_arith)
        requires
            e.cross(e) == 0,
    ;
    lemma_dot_linear(kept, p, dir);
    lemma_cross_swap(p, dir);
    lemma_cross_swap(kept, dir);
}

/// A point ahead of the origin along `d` and a point not ahead of it,
/// on one line through the origin, lie on opposite sides of it.
proof fn lemma_opposite_on_line(p: V2, kept: V2, d: V2)
    requires
        p.dot(d) > 0,
        kept.dot(d) < 0,
        kept.cross(p) == 0,
    ensures
        kept.dot(p) < 0,
{
    // (p . d)(kept . p) - (kept . d)(p . p) == (kept x p)(p x d)
    lemma_triple_along(p, kept, d, p);
    lemma_norm_sq(p);
    if p.x == 0 && p.y == 0 {
        assert(p.dot(d) == 0) by (nonlinear_arith)
            requires
                p.x == 0,
                p.y == 0,
                p.dot(d) == p.x * d.x + p.y * d.y,
        ;
    }
    let n = p.norm_sq();
    let k = kept.dot(p);
    let h = kept.dot(d);
    let da = p.dot(d);
    assert(k < 0) by (nonlinear_arith)
        requires
            da * k - h * n == kept.cross(p) * p.cross(d),
            kept.cross(p) == 0,
            da > 0,
            h < 0,
            n > 0,
    ;
}

/// Where the origin was found beyond the edge from `p` to `older`,
/// that edge and the direction at right angles to it serve the next
/// round; the wedge grows and takes `p` in.
pub proof fn lemma_keep_older(p: V2, newer: V2, older: V2, d: V2)
    requires
        edge_ok(older, newer, d),
        p.dot(d) > 0,
        triple(newer.minus(p), older.minus(p), older.minus(p)).dot(p.neg()) >= 0,
    ensures
        edge_ok(older, p, triple(newer.minus(p), older.minus(p), older.minus(p))),
        older.cross(newer) != 0,
        older.cross(p) != 0 ==> in_cone(older, p, newer) && !in_cone(older, newer, p),
{
    let ab = newer.minus(p);
    let ac = older.minus(p);
    let dir = triple(ab, ac, ac);
    let al = newer.cross(older);
    let be = older.cross(p);
    let ga = p.cross(newer);
    let t = area2(p, newer, older);
    lemma_round_tests(p, newer, older);
    lemma_round_area(p, newer, older, d);
    lemma_edge_height(older, newer, d);
    lemma_cross_swap(older, newer);
    lemma_cross_swap(newer, p);
    assert(t * be <= 0);
    assert(al != 0);
    // the direction is not the origin
    lemma_triple_as_perp(ab, ac, ac);
    lemma_cross_swap(ac, ab);
    assert(ac.x != 0 || ac.y != 0) by {
        if ac.x == 0 && ac.y == 0 {
            assert(older == p);
        }
    }
    lemma_perp_scaled_nonzero(ac, ac.cross(ab));
    // it measures both ends alike, and neither lies ahead
    lemma_turned_edge(p, older, newer);
    lemma_dot_linear(p, p, dir);
    lemma_cross_swap(p, dir);
    assert(p.dot(dir) == t * be);
    // the origin is off the new line, or between its ends
    if be == 0 {
        lemma_opposite_on_line(p, older, d);
    } else {
        assert(al * be < 0) by (nonlinear_arith)
            requires
                t * al > 0,
                t * be <= 0,
                be != 0,
        ;
        assert(al * ga > 0) by (nonlinear_arith)
            requires
                (be + ga) * al > 0,
                al * be < 0,
        ;
        assert(be * ga < 0) by (nonlinear_arith)
            requires
                al * ga > 0,
                al * be < 0,
        ;
        assert(be * (-al) >= 0 && be * (-ga) >= 0 && (-al) * ga < 0) by (nonlinear_arith)
            requires
                al * be < 0,
                be * ga < 0,
                al * ga > 0,
        ;
    }
}

/// Where the origin was found beyond the edge from `p` to `newer`,
/// that edge and the direction at right angles to it serve the next
/// round; the wedge grows and takes `p` in.
pub proof fn lemma_keep_newer(p: V2, newer: V2, older: V2, d: V2)
    requires
        edge_ok(older, newer, d),
        p.dot(d) > 0,
        triple(newer.minus(p), older.minus(p), older.minus(p)).dot(p.neg()) < 0,
        triple(older.minus(p), newer.minus(p), newer.minus(p)).dot(p.neg()) >= 0,
    ensures
        edge_ok(newer, p, triple(older.minus(p), newer.minus(p), newer.minus(p))),
        older.cross(newer) != 0,
        newer.cross(p) != 0 ==> in_cone(newer, p, older) && !in_cone(older, newer, p),
{
    let ab = newer.minus(p);
    let ac = older.minus(p);
    let dir = triple(ac, ab, ab);
    let al = newer.cross(older);
    let be = older.cross(p);
    let ga = p.cross(newer);
    let t = area2(p, newer, older);
    lemma_round_tests(p, newer, older);
    lemma_round_area(p, newer, older, d);
    lemma_edge_height(older, newer, d);
    lemma_cross_swap(older, newer);
    lemma_cross_swap(newer, p);
    assert(t * be > 0);
    assert(t * ga <= 0);
    assert(al != 0);
    // the direction is not the origin
    lemma_triple_as_perp(ac, ab, ab);
    assert(ab.x != 0 || ab.y != 0) by {
        if ab.x == 0 && ab.y == 0 {
            assert(newer == p);
        }
    }
    lemma_perp_scaled_nonzero(ab, ab.cross(ac));
    // it measures both ends alike, and neither lies ahead
    lemma_turned_edge(p, newer, older);
    lemma_dot_linear(p, p, dir);
    lemma_cross_swap(p, dir);
    assert(p.dot(dir) == t * ga);
    // the origin is off the new line, or between its ends
    if ga == 0 {
        lemma_opposite_on_line(p, newer, d);
    } else {
        assert(al * ga < 0 && al * be > 0 && be * ga < 0) by (nonlinear_arith)
            requires
                t * al > 0,
                t * be > 0,
                t * ga <= 0,
                ga != 0,
        ;
        assert((-ga) * al >= 0 && (-ga) * be >= 0 && (-al) * be < 0) by (nonlinear_arith)
            requires
                al * ga < 0,
                be * ga < 0,
                al * be > 0,
        ;
    }
}

/// Where the origin was found beyond neither edge at `p`, the
/// triangle holds it.
pub proof fn lemma_enclosed(p: V2, newer: V2, older: V2, d: V2)
    requires
        edge_ok(older, newer, d),
        p.dot(d) > 0,
        triple(newer.minus(p), older.minus(p), older.minus(p)).dot(p.neg()) < 0,
        triple(older.minus(p), newer.minus(p), newer.minus(p)).dot(p.neg()) < 0,
    ensures
        encloses_origin(p, newer, older),
{
    lemma_round_tests(p, newer, older);
    lemma_round_area(p, newer, older, d);
}

/// Where the origin lies on the line through the kept points, the
/// round that passes the origin ends the search: the triangle holds
/// the origin.
pub proof fn lemma_flat_edge_encloses(p: V2, newer: V2, older: V2, d: V2)
    requires
        edge_ok(older, newer, d),
        older.cross(newer) == 0,
        p.dot(d) > 0,
    ensures
        triple(newer.minus(p), older.minus(p), older.minus(p)).dot(p.neg()) < 0,
        triple(older.minus(p), newer.minus(p), newer.minus(p)).dot(p.neg()) < 0,
{
    lemma_round_tests(p, newer, older);
    lemma_round_area(p, newer, older, d);
    lemma_cross_swap(older, newer);
}

/// The wedge is the same whichever of its two rays is named first.
pub proof fn lemma_cone_symmetric(u: V2, v: V2, q: V2)
    ensures
        in_cone(u, v, q) == in_cone(v, u, q),
{
    lemma_cross_swap(u, v);
    lemma_cross_swap(u, q);
    lemma_cross_swap(v, q);
    let s = u.cross(v);
    let x = u.cross(q);
    let y = q.cross(v);
    assert((-s) * (-y) == s * y && (-s) * (-x) == s * x) by (nonlinear_arith);
}

/// A wedge from `u` to `w` that holds `v` holds the whole wedge from
/// `u` to `v`.
pub proof fn lemma_cone_grows(u: V2, v: V2, w: V2, q: V2)
    requires
        u.cross(v) != 0,
        u.cross(w) != 0,
        in_cone(u, w, v),
        in_cone(u, v, q),
    ensures
        in_cone(u, w, q),
{
    let s = u.cross(v);
    let sw = u.cross(w);
    let x = u.cross(q);
    let y = q.cross(v);
    let z = v.cross(w);
    let g = q.cross(w);
    lemma_four_vectors(u, v, q, w);
    assert(s * g == y * sw + x * z);
    if s > 0 {
        assert(sw > 0 && x >= 0 && y >= 0) by (nonlinear_arith)
            requires
                s > 0,
                sw != 0,
                sw * s >= 0,
                s * x >= 0,
                s * y >= 0,
        ;
        assert(z >= 0) by (nonlinear_arith)
            requires
                sw > 0,
                sw * z >= 0,
        ;
        assert(g >= 0) by (nonlinear_arith)
            requires
                s * g == y * sw + x * z,
                s > 0,
                sw > 0,
                x >= 0,
                y >= 0,
                z >= 0,
        ;
        assert(sw * x >= 0 && sw * g >= 0) by (nonlinear_arith)
            requires
                sw > 0,
                x >= 0,
                g >= 0,
        ;
    } else {
        assert(sw < 0 && x <= 0 && y <= 0) by (nonlinear_arith)
            requires
                s < 0,
                sw != 0,
                sw * s >= 0,
                s * x >= 0,
                s * y >= 0,
        ;
        assert(z <= 0) by (nonlinear_arith)
            requires
                sw < 0,
                sw * z >= 0,
        ;
        assert(g <= 0) by (nonlinear_arith)
            requires
                s * g == y * sw + x * z,
                s < 0,
                sw < 0,
                x <= 0,
                y <= 0,
                z <= 0,
        ;
        assert(sw * x >= 0 && sw * g >= 0) by (nonlinear_arith)
            requires
                sw < 0,
                x <= 0,
                g <= 0,
        ;
    }
}

} // verus!
