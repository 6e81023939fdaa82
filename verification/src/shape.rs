use vstd::prelude::*;
use crate::plane::V2;

verus! {

/// The sum of all vertices of `s`; the centroid of `s` is this sum
/// over `s.len()`.
pub open spec fn vertex_sum(s: Seq<V2>) -> V2
    decreases s.len(),
{
    if s.len() == 0 {
        V2::zero()
    } else {
        vertex_sum(s.drop_last()).plus(s.last())
    }
}

/// The displacement from the centroid of `b` to the centroid of `a`,
/// stretched by `a.len() * b.len()` so that it stays on the lattice.
pub open spec fn centroid_offset(a: Seq<V2>, b: Seq<V2>) -> V2 {
    vertex_sum(a).scale(b.len() as int).minus(vertex_sum(b).scale(a.len() as int))
}

/// Among the first `n` vertices of `s`, the index of the one furthest
/// along `d`; of several equally far, the first.
pub open spec fn furthest_among(d: V2, s: Seq<V2>, n: nat) -> int
    decreases n,
{
    if n <= 1 {
        0
    } else {
        let k = furthest_among(d, s, (n - 1) as nat);
        if d.dot(s[n - 1]) > d.dot(s[k]) {
            n - 1
        } else {
            k
        }
    }
}

/// The index of the vertex of `s` furthest along `d`; of several
/// equally far, the first.
pub open spec fn furthest(d: V2, s: Seq<V2>) -> int {
    furthest_among(d, s, s.len())
}

/// `k` is the first index at which `d . s[i]` is greatest.
pub open spec fn is_first_maximum(d: V2, s: Seq<V2>, k: int) -> bool {
    &&& 0 <= k < s.len()
    &&& forall|i: int| 0 <= i < s.len() ==> d.dot(#[trigger] s[i]) <= d.dot(s[k])
    &&& forall|i: int| 0 <= i < k ==> d.dot(#[trigger] s[i]) < d.dot(s[k])
}

/// The support point of the Minkowski difference of `a` and `b` along
/// `d`: the vertex of `a` furthest along `d` less the vertex of `b`
/// furthest against it.
pub open spec fn support(d: V2, a: Seq<V2>, b: Seq<V2>) -> V2 {
    a[furthest(d, a)].minus(b[furthest(d.neg(), b)])
}

/// Every vertex of `s` moved by `t`.
pub open spec fn translate(s: Seq<V2>, t: V2) -> Seq<V2> {
    Seq::new(s.len(), |i: int| s[i].plus(t))
}

/// `furthest_among` picks, among the first `n` vertices, the first
/// index at which the scalar product with `d` is greatest.
pub proof fn lemma_furthest_among(d: V2, s: Seq<V2>, n: nat)
    requires
        0 < n <= s.len(),
    ensures
        is_first_maximum(d, s.take(n as int), furthest_among(d, s, n)),
    decreases n,
{
    let k = furthest_among(d, s, n);
    let t = s.take(n as int);
    if n > 1 {
        lemma_furthest_among(d, s, (n - 1) as nat);
        let k0 = furthest_among(d, s, (n - 1) as nat);
        let t0 = s.take(n - 1);
        assert(t0[k0] == s[k0]);
        assert forall|i: int| 0 <= i < t.len() implies d.dot(#[trigger] t[i]) <= d.dot(t[k]) by {
            if i < n - 1 {
                assert(t0[i] == t[i]);
            }
        }
        assert forall|i: int| 0 <= i < k implies d.dot(#[trigger] t[i]) < d.dot(t[k]) by {
            assert(t0[i] == t[i]);
        }
    }
}

/// `furthest` picks the first index at which the scalar product with
/// `d` is greatest.
pub proof fn lemma_furthest(d: V2, s: Seq<V2>)
    requires
        s.len() > 0,
    ensures
        is_first_maximum(d, s, furthest(d, s)),
{
    lemma_furthest_among(d, s, s.len());
    assert(s.take(s.len() as int) =~= s);
}

} // verus!
