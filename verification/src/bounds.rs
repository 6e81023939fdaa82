use vstd::prelude::*;
use crate::plane::V2;
use crate::shape::{vertex_sum, furthest, support, lemma_furthest};

verus! {

/// A product is bounded by the product of the bounds of its factors.
pub proof fn lemma_product_bound(x: int, y: int, mx: int, my: int)
    by (nonlinear_arith)
    requires
        -mx <= x <= mx,
        -my <= y <= my,
    ensures
        -(mx * my) <= x * y <= mx * my,
{
}

/// A scalar product is bounded by twice the product of the bounds of
/// its factors, and each of its two products by that product.
pub proof fn lemma_dot_bound(a: V2, b: V2, ma: int, mb: int)
    requires
        a.within(ma),
        b.within(mb),
    ensures
        -(ma * mb) <= a.x * b.x <= ma * mb,
        -(ma * mb) <= a.y * b.y <= ma * mb,
        -2 * (ma * mb) <= a.dot(b) <= 2 * (ma * mb),
{
    lemma_product_bound(a.x, b.x, ma, mb);
    lemma_product_bound(a.y, b.y, ma, mb);
}

/// The sum of `n` vertices within `m` lies within `n * m`.
pub proof fn lemma_vertex_sum_bound(s: Seq<V2>, m: int)
    requires
        forall|i: int| 0 <= i < s.len() ==> (#[trigger] s[i]).within(m),
    ensures
        vertex_sum(s).within(s.len() * m),
    decreases s.len(),
{
    if s.len() > 0 {
        let t = s.drop_last();
        assert forall|i: int| 0 <= i < t.len() implies (#[trigger] t[i]).within(m) by {
            assert(t[i] == s[i]);
        }
        lemma_vertex_sum_bound(t, m);
        assert(s.last().within(m));
        assert(s.len() * m == t.len() * m + m) by (nonlinear_arith)
            requires
                s.len() == t.len() + 1,
        ;
    } else {
        assert(s.len() * m == 0) by (nonlinear_arith)
            requires
                s.len() == 0,
        ;
    }
}

/// A support point of shapes within `m` lies within `2 * m`.
pub proof fn lemma_support_bound(d: V2, a: Seq<V2>, b: Seq<V2>, m: int)
    requires
        a.len() > 0,
        b.len() > 0,
        forall|i: int| 0 <= i < a.len() ==> (#[trigger] a[i]).within(m),
        forall|j: int| 0 <= j < b.len() ==> (#[trigger] b[j]).within(m),
    ensures
        support(d, a, b).within(2 * m),
{
    lemma_furthest(d, a);
    lemma_furthest(d.neg(), b);
    assert(a[furthest(d, a)].within(m));
    assert(b[furthest(d.neg(), b)].within(m));
}

} // verus!
