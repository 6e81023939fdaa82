use vstd::prelude::*;
use crate::plane::{V2, triple};

verus! {

/// A product of three factors, however it is grouped.
pub proof fn lemma_mul3(a: int, b: int, c: int)
    by (nonlinear_arith)
    ensures
        a * (b * c) == (a * b) * c,
        a * (b * c) == b * (a * c),
        a * (b * c) == (a * c) * b,
{
}

/// A factor spreads over a sum and over a difference.
pub proof fn lemma_distribute(k: int, x: int, y: int)
    by (nonlinear_arith)
    ensures
        k * (x + y) == k * x + k * y,
        k * (x - y) == k * x - k * y,
        (x + y) * k == x * k + y * k,
        (x - y) * k == x * k - y * k,
{
}

/// Stretching one factor stretches the scalar product.
pub proof fn lemma_scale_dot(k: int, a: V2, d: V2)
    ensures
        k * a.dot(d) == (k * a.x) * d.x + (k * a.y) * d.y,
        a.scale(k).dot(d) == k * a.dot(d),
{
    lemma_distribute(k, a.x * d.x, a.y * d.y);
    lemma_mul3(k, a.x, d.x);
    lemma_mul3(k, a.y, d.y);
}

/// The scalar product with a vector turned a quarter clockwise is a
/// cross product.
pub proof fn lemma_dot_perp(a: V2, w: V2)
    ensures
        a.dot(w.perp()) == a.cross(w),
        w.perp().dot(a) == a.cross(w),
{
    assert(a.x * w.y + a.y * (-w.x) == a.x * w.y - a.y * w.x) by (nonlinear_arith);
    assert(w.y * a.x + (-w.x) * a.y == a.x * w.y - a.y * w.x) by (nonlinear_arith);
}

/// The triple product of `a`, `b`, `c` is `c` turned a quarter
/// clockwise and stretched by `b x a`.
pub proof fn lemma_triple_as_perp(a: V2, b: V2, c: V2)
    ensures
        triple(a, b, c) == c.perp().scale(b.cross(a)),
{
    lemma_distribute(b.x, a.x * c.x, a.y * c.y);
    lemma_distribute(a.x, b.x * c.x, b.y * c.y);
    lemma_distribute(b.y, a.x * c.x, a.y * c.y);
    lemma_distribute(a.y, b.x * c.x, b.y * c.y);
    lemma_mul3(b.x, a.x, c.x);
    lemma_mul3(b.y, a.y, c.y);
    lemma_distribute(c.y, b.x * a.y, b.y * a.x);
    lemma_distribute(-c.x, b.x * a.y, b.y * a.x);
    // x: b.x (a.y c.y) - a.x (b.y c.y) == (b.x a.y - b.y a.x) c.y
    lemma_mul3(b.x, a.y, c.y);
    lemma_mul3(a.x, b.y, c.y);
    assert((b.x * a.y) * c.y == c.y * (b.x * a.y)) by (nonlinear_arith);
    assert((b.y * a.x) * c.y == c.y * (b.y * a.x)) by (nonlinear_arith);
    assert(a.x * (b.y * c.y) == (b.y * a.x) * c.y) by (nonlinear_arith);
    // y: b.y (a.x c.x) - a.y (b.x c.x) == (b.x a.y - b.y a.x) (-c.x)
    lemma_mul3(b.y, a.x, c.x);
    lemma_mul3(a.y, b.x, c.x);
    assert(b.y * (a.x * c.x) == -((-c.x) * (b.y * a.x))) by (nonlinear_arith);
    assert(a.y * (b.x * c.x) == -((-c.x) * (b.x * a.y))) by (nonlinear_arith);
}

/// The three cross products of the corners of a triangle add up to
/// twice its signed area.
pub proof fn lemma_cross_sum(a: V2, b: V2, c: V2)
    ensures
        b.cross(c) + c.cross(a) + a.cross(b) == b.minus(a).cross(c.minus(a)),
{
    assert((b.x * c.y - b.y * c.x) + (c.x * a.y - c.y * a.x) + (a.x * b.y - a.y * b.x) == (b.x - a.x) * (c.y
        - a.y) - (b.y - a.y) * (c.x - a.x)) by (nonlinear_arith);
}

/// The corners of a triangle, each weighted by the cross product of
/// the other two, add up to the origin.
pub proof fn lemma_weighted_corners(a: V2, b: V2, c: V2)
    ensures
        b.cross(c) * a.x + c.cross(a) * b.x + a.cross(b) * c.x == 0,
        b.cross(c) * a.y + c.cross(a) * b.y + a.cross(b) * c.y == 0,
{
    assert((b.x * c.y - b.y * c.x) * a.x + (c.x * a.y - c.y * a.x) * b.x + (a.x * b.y - a.y * b.x) * c.x == 0)
        by (nonlinear_arith);
    assert((b.x * c.y - b.y * c.x) * a.y + (c.x * a.y - c.y * a.x) * b.y + (a.x * b.y - a.y * b.x) * c.y == 0)
        by (nonlinear_arith);
}

/// The weighted corners of a triangle, measured along `d`.
pub proof fn lemma_weighted_corners_along(a: V2, b: V2, c: V2, d: V2)
    ensures
        b.cross(c) * a.dot(d) + c.cross(a) * b.dot(d) + a.cross(b) * c.dot(d) == 0,
{
    lemma_weighted_corners(a, b, c);
    let al = b.cross(c);
    let be = c.cross(a);
    let ga = a.cross(b);
    lemma_scale_dot(al, a, d);
    lemma_scale_dot(be, b, d);
    lemma_scale_dot(ga, c, d);
    lemma_distribute(d.x, al * a.x + be * b.x, ga * c.x);
    lemma_distribute(d.x, al * a.x, be * b.x);
    lemma_distribute(d.y, al * a.y + be * b.y, ga * c.y);
    lemma_distribute(d.y, al * a.y, be * b.y);
}

/// The weighted corners of a triangle, measured across `w`.
pub proof fn lemma_weighted_corners_across(a: V2, b: V2, c: V2, w: V2)
    ensures
        b.cross(c) * a.cross(w) + c.cross(a) * b.cross(w) + a.cross(b) * c.cross(w) == 0,
{
    lemma_weighted_corners_along(a, b, c, w.perp());
    lemma_dot_perp(a, w);
    lemma_dot_perp(b, w);
    lemma_dot_perp(c, w);
}

/// Exchanging the two sides of a cross product changes its sign.
pub proof fn lemma_cross_swap(a: V2, b: V2)
    ensures
        a.cross(b) == -b.cross(a),
        a.dot(b) == b.dot(a),
{
    assert(a.x * b.y - a.y * b.x == -(b.x * a.y - b.y * a.x)) by (nonlinear_arith);
    assert(a.x * b.x + a.y * b.y == b.x * a.x + b.y * a.y) by (nonlinear_arith);
}

/// The triple product measured along `e`.
pub proof fn lemma_triple_along(a: V2, b: V2, c: V2, e: V2)
    ensures
        triple(a, b, c).dot(e) == a.dot(c) * b.dot(e) - b.dot(c) * a.dot(e),
        triple(a, b, c).dot(e) == b.cross(a) * e.cross(c),
{
    let s = a.dot(c);
    let t = b.dot(c);
    lemma_distribute(e.x, b.x * s, a.x * t);
    lemma_distribute(e.y, b.y * s, a.y * t);
    lemma_distribute(s, b.x * e.x, b.y * e.y);
    lemma_distribute(t, a.x * e.x, a.y * e.y);
    lemma_mul3(s, b.x, e.x);
    lemma_mul3(s, b.y, e.y);
    lemma_mul3(t, a.x, e.x);
    lemma_mul3(t, a.y, e.y);
    assert((b.x * s) * e.x == s * (b.x * e.x)) by (nonlinear_arith);
    assert((b.y * s) * e.y == s * (b.y * e.y)) by (nonlinear_arith);
    assert((a.x * t) * e.x == t * (a.x * e.x)) by (nonlinear_arith);
    assert((a.y * t) * e.y == t * (a.y * e.y)) by (nonlinear_arith);
    lemma_triple_as_perp(a, b, c);
    lemma_scale_dot(b.cross(a), c.perp(), e);
    lemma_dot_perp(e, c);
}

/// Two vectors at right angles to a third one that is not the origin
/// are parallel.
pub proof fn lemma_orthogonal_to_same(u: V2, v: V2, d: V2)
    requires
        u.dot(d) == 0,
        v.dot(d) == 0,
        d.x != 0 || d.y != 0,
    ensures
        u.cross(v) == 0,
{
    lemma_triple_as_perp(u, v, d);
    let k = v.cross(u);
    lemma_cross_swap(u, v);
    assert(v.x * u.dot(d) == 0 && u.x * v.dot(d) == 0 && v.y * u.dot(d) == 0 && u.y * v.dot(d) == 0)
        by (nonlinear_arith)
        requires
            u.dot(d) == 0,
            v.dot(d) == 0,
    ;
    assert(k == 0) by (nonlinear_arith)
        requires
            k * d.y == 0,
            k * (-d.x) == 0,
            d.x != 0 || d.y != 0,
    ;
}

/// A vector parallel to one that is at right angles to `d`, and is
/// not the origin, is at right angles to `d` too.
pub proof fn lemma_parallel_keeps_right_angle(c: V2, a: V2, d: V2)
    requires
        c.cross(a) == 0,
        c.dot(d) == 0,
        c.x != 0 || c.y != 0,
    ensures
        a.dot(d) == 0,
{
    // a (c . d) - c (a . d) == perp(d) (a x c)
    lemma_triple_as_perp(c, a, d);
    lemma_cross_swap(c, a);
    let k = a.dot(d);
    assert(a.x * c.dot(d) == 0 && a.y * c.dot(d) == 0) by (nonlinear_arith)
        requires
            c.dot(d) == 0,
    ;
    assert(d.perp().scale(a.cross(c)) == V2::zero()) by (nonlinear_arith)
        requires
            a.cross(c) == 0,
            d.perp().scale(a.cross(c)).x == a.cross(c) * d.perp().x,
            d.perp().scale(a.cross(c)).y == a.cross(c) * d.perp().y,
    ;
    assert(k == 0) by (nonlinear_arith)
        requires
            c.x * k == 0,
            c.y * k == 0,
            c.x != 0 || c.y != 0,
    ;
}

/// The relation between the six cross products of four vectors.
pub proof fn lemma_four_vectors(u: V2, v: V2, q: V2, w: V2)
    ensures
        u.cross(v) * q.cross(w) == q.cross(v) * u.cross(w) + u.cross(q) * v.cross(w),
{
    lemma_weighted_corners_across(u, v, q, w);
    lemma_cross_swap(v, q);
    lemma_cross_swap(q, u);
    assert((-q.cross(v)) * u.cross(w) == -(q.cross(v) * u.cross(w))) by (nonlinear_arith);
    assert((-u.cross(q)) * v.cross(w) == -(u.cross(q) * v.cross(w))) by (nonlinear_arith);
}

/// The scalar product spreads over a difference and follows a change
/// of sign.
pub proof fn lemma_dot_linear(a: V2, b: V2, d: V2)
    ensures
        a.minus(b).dot(d) == a.dot(d) - b.dot(d),
        d.dot(a.minus(b)) == a.dot(d) - b.dot(d),
        a.neg().dot(d) == -a.dot(d),
        d.dot(a.neg()) == -a.dot(d),
{
    assert((a.x - b.x) * d.x + (a.y - b.y) * d.y == (a.x * d.x + a.y * d.y) - (b.x * d.x + b.y * d.y))
        by (nonlinear_arith);
    assert(d.x * (a.x - b.x) + d.y * (a.y - b.y) == (a.x * d.x + a.y * d.y) - (b.x * d.x + b.y * d.y))
        by (nonlinear_arith);
    assert((-a.x) * d.x + (-a.y) * d.y == -(a.x * d.x + a.y * d.y)) by (nonlinear_arith);
    assert(d.x * (-a.x) + d.y * (-a.y) == -(a.x * d.x + a.y * d.y)) by (nonlinear_arith);
}

/// A squared length is never negative, and zero only at the origin.
pub proof fn lemma_norm_sq(v: V2)
    ensures
        v.norm_sq() >= 0,
        v.norm_sq() == 0 <==> (v.x == 0 && v.y == 0),
{
    assert(v.x * v.x >= 0 && (v.x * v.x == 0 ==> v.x == 0)) by (nonlinear_arith);
    assert(v.y * v.y >= 0 && (v.y * v.y == 0 ==> v.y == 0)) by (nonlinear_arith);
}

} // verus!
