use vstd::prelude::*;
use crate::plane::{V2, triple, fits_i128};
use crate::shape::{vertex_sum, furthest, furthest_among, is_first_maximum, support, lemma_furthest};

verus! {

/// A lattice point of the plane, or a direction in it.
#[derive(Clone, Copy, Debug)]
pub struct Vec2 {
    pub x: i128,
    pub y: i128,
}

impl View for Vec2 {
    type V = V2;

    open spec fn view(&self) -> V2 {
        V2 { x: self.x as int, y: self.y as int }
    }
}

/// The vertices of a shape as points of the plane.
pub open spec fn points(s: Seq<Vec2>) -> Seq<V2> {
    Seq::new(s.len(), |i: int| s[i]@)
}

/// The vertices of `s` can be added up one after the other in signed
/// 128-bit machine words.
pub open spec fn sums_fit(s: Seq<V2>) -> bool {
    forall|n: int| 0 <= n <= s.len() ==> (#[trigger] vertex_sum(s.take(n))).fits()
}

/// The centroid of a vertex list, kept exact: the sum of the vertices
/// over their number.
#[derive(Clone, Copy, Debug)]
pub struct Centroid {
    pub sum: Vec2,
    pub count: usize,
}

impl Vec2 {
    /// The point with coordinates `x` and `y`.
    pub fn new(x: i128, y: i128) -> (v: Vec2)
        ensures
            v.x == x,
            v.y == y,
    {
        Vec2 { x: x, y: y }
    }

    /// Takes `a` away from `self`, in place.
    pub fn subtract(&mut self, a: &Vec2) -> (r: &mut Vec2)
        requires
            old(self)@.minus(a@).fits(),
        ensures
            r@ == old(self)@.minus(a@),
            *final(self) == *final(r),
    {
        self.x -= a.x;
        self.y -= a.y;
        self
    }

    /// `a - b` as a new value.
    pub fn subtract_copy(a: &Vec2, b: &Vec2) -> (r: Vec2)
        requires
            a@.minus(b@).fits(),
        ensures
            r@ == a@.minus(b@),
    {
        Vec2::new(a.x - b.x, a.y - b.y)
    }

    /// Turns `self` into its opposite, in place.
    pub fn negate(&mut self) -> (r: &mut Vec2)
        requires
            old(self)@.neg().fits(),
        ensures
            r@ == old(self)@.neg(),
            *final(self) == *final(r),
    {
        self.x = -self.x;
        self.y = -self.y;
        self
    }

    /// The opposite of `self` as a new value.
    pub fn negate_copy(&self) -> (r: Vec2)
        requires
            self@.neg().fits(),
        ensures
            r@ == self@.neg(),
    {
        Vec2::new(-self.x, -self.y)
    }

    /// Turns `self` a quarter clockwise, in place: `(x, y)` becomes `(y, -x)`.
    pub fn perpendicular(&mut self) -> (r: &mut Vec2)
        requires
            old(self)@.perp().fits(),
        ensures
            r@ == old(self)@.perp(),
            *final(self) == *final(r),
    {
        let temp_x: i128 = self.x;
        self.x = self.y;
        self.y = -temp_x;
        self
    }

    /// `self` turned a quarter clockwise, as a new value.
    pub fn perpendicular_copy(&self) -> (r: Vec2)
        requires
            self@.perp().fits(),
        ensures
            r@ == self@.perp(),
    {
        Vec2::new(self.y, -self.x)
    }

    /// Scalar product of `self` and `other_vec`.
    pub fn dot_product(&self, other_vec: &Vec2) -> (r: i128)
        requires
            self@.dot_fits(other_vec@),
        ensures
            r == self@.dot(other_vec@),
    {
        (self.x * other_vec.x) + (self.y * other_vec.y)
    }

    /// Squared length of `self`.
    pub fn length_squared(&self) -> (r: i128)
        requires
            self@.dot_fits(self@),
        ensures
            r == self@.norm_sq(),
    {
        (self.x * self.x) + (self.y * self.y)
    }

    /// `b (a . c) - a (b . c)`: a vector at right angles to `c`, whose
    /// side is chosen by the turn from `a` to `b`.
    pub fn triple_product(a: &Vec2, b: &Vec2, c: &Vec2) -> (r: Vec2)
        requires
            a@.dot_fits(c@),
            b@.dot_fits(c@),
            fits_i128(b.x * a@.dot(c@)),
            fits_i128(a.x * b@.dot(c@)),
            fits_i128(b.y * a@.dot(c@)),
            fits_i128(a.y * b@.dot(c@)),
            triple(a@, b@, c@).fits(),
        ensures
            r@ == triple(a@, b@, c@),
    {
        let ac: i128 = a.dot_product(c);
        let bc: i128 = b.dot_product(c);
        Vec2::new(b.x * ac - a.x * bc, b.y * ac - a.y * bc)
    }

    /// The centroid of `vertices`, as their sum and their number.
    pub fn average_point(vertices: &[Vec2]) -> (avg: Centroid)
        requires
            vertices.len() > 0,
            sums_fit(points(vertices@)),
        ensures
            avg.sum@ == vertex_sum(points(vertices@)),
            avg.count == vertices.len(),
    {
        let mut avg = Vec2::new(0, 0);
        let mut i: usize = 0;
        while i < vertices.len()
            invariant
                i <= vertices.len(),
                avg@ == vertex_sum(points(vertices@).take(i as int)),
                sums_fit(points(vertices@)),
            decreases vertices.len() - i,
        {
            proof {
                let p = points(vertices@);
                assert(p.take(i + 1).drop_last() =~= p.take(i as int));
                assert(p.take(i + 1).last() == vertices@[i as int]@);
                assert(vertex_sum(p.take(i + 1)).fits());
            }
            avg.x += vertices[i].x;
            avg.y += vertices[i].y;
            i += 1;
        }
        proof {
            assert(points(vertices@).take(vertices.len() as int) =~= points(vertices@));
        }
        Centroid { sum: avg, count: vertices.len() }
    }

    /// The index of the vertex furthest along `self`; of several
    /// equally far, the first.
    pub fn index_of_furthest_point(&self, vertices: &[Vec2]) -> (idx: usize)
        requires
            vertices.len() > 0,
            forall|i: int| 0 <= i < vertices.len() ==> self@.dot_fits(#[trigger] vertices@[i]@),
        ensures
            idx == furthest(self@, points(vertices@)),
            is_first_maximum(self@, points(vertices@), idx as int),
    {
        let mut max_product: i128 = self.dot_product(&vertices[0]);
        let mut idx: usize = 0;
        let mut i: usize = 1;
        while i < vertices.len()
            invariant
                1 <= i <= vertices.len(),
                idx < i,
                idx == furthest_among(self@, points(vertices@), i as nat),
                max_product == self@.dot(vertices@[idx as int]@),
                forall|k: int| 0 <= k < vertices.len() ==> self@.dot_fits(#[trigger] vertices@[k]@),
            decreases vertices.len() - i,
        {
            let product: i128 = self.dot_product(&vertices[i]);
            if product > max_product {
                max_product = product;
                idx = i;
            }
            i += 1;
        }
        proof {
            lemma_furthest(self@, points(vertices@));
        }
        idx
    }

    /// The support point of the Minkowski difference of the two shapes
    /// along `self`: the vertex of the first furthest along `self`
    /// less the vertex of the second furthest against it.
    pub fn minkowski_sum(&self, vertices1: &[Vec2], vertices2: &[Vec2]) -> (r: Vec2)
        requires
            vertices1.len() > 0,
            vertices2.len() > 0,
            self@.neg().fits(),
            forall|i: int| 0 <= i < vertices1.len() ==> self@.dot_fits(#[trigger] vertices1@[i]@),
            forall|j: int| 0 <= j < vertices2.len() ==> self@.neg().dot_fits(#[trigger] vertices2@[j]@),
            support(self@, points(vertices1@), points(vertices2@)).fits(),
        ensures
            r@ == support(self@, points(vertices1@), points(vertices2@)),
    {
        let i = self.index_of_furthest_point(vertices1);
        let j = self.negate_copy().index_of_furthest_point(vertices2);
        Vec2::subtract_copy(&vertices1[i], &vertices2[j])
    }
}

impl Centroid {
    /// The displacement from centroid `b` to centroid `a`, stretched by
    /// the product of the two counts so that it stays on the lattice.
    pub fn subtract_copy(a: &Centroid, b: &Centroid) -> (r: Vec2)
        requires
            a.sum@.scale(b.count as int).fits(),
            b.sum@.scale(a.count as int).fits(),
            a.sum@.scale(b.count as int).minus(b.sum@.scale(a.count as int)).fits(),
        ensures
            r@ == a.sum@.scale(b.count as int).minus(b.sum@.scale(a.count as int)),
    {
        let na: i128 = a.count as i128;
        let nb: i128 = b.count as i128;
        Vec2::new(nb * a.sum.x - na * b.sum.x, nb * a.sum.y - na * b.sum.y)
    }
}

} // verus!
