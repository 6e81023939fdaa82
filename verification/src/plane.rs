use vstd::prelude::*;

verus! {

/// A point (or a displacement) of the integer plane.
pub struct V2 {
    pub x: int,
    pub y: int,
}

impl V2 {
    /// The origin.
    pub open spec fn zero() -> V2 {
        V2 { x: 0, y: 0 }
    }

    /// Componentwise sum.
    pub open spec fn plus(self, o: V2) -> V2 {
        V2 { x: self.x + o.x, y: self.y + o.y }
    }

    /// Componentwise difference.
    pub open spec fn minus(self, o: V2) -> V2 {
        V2 { x: self.x - o.x, y: self.y - o.y }
    }

    /// The opposite vector.
    pub open spec fn neg(self) -> V2 {
        V2 { x: -self.x, y: -self.y }
    }

    /// The vector turned a quarter clockwise: `(y, -x)`.
    pub open spec fn perp(self) -> V2 {
        V2 { x: self.y, y: -self.x }
    }

    /// The vector stretched by `k`.
    pub open spec fn scale(self, k: int) -> V2 {
        V2 { x: k * self.x, y: k * self.y }
    }

    /// Scalar product.
    pub open spec fn dot(self, o: V2) -> int {
        self.x * o.x + self.y * o.y
    }

    /// Planar cross product: twice the signed area of the triangle
    /// from the origin over `self` to `o`.
    pub open spec fn cross(self, o: V2) -> int {
        self.x * o.y - self.y * o.x
    }

    /// Squared length.
    pub open spec fn norm_sq(self) -> int {
        self.dot(self)
    }

    /// Both components lie within `-m ..= m`.
    pub open spec fn within(self, m: int) -> bool {
        -m <= self.x <= m && -m <= self.y <= m
    }

    /// Both components fit a signed 128-bit machine word.
    pub open spec fn fits(self) -> bool {
        fits_i128(self.x) && fits_i128(self.y)
    }

    /// The scalar product with `o` can be formed in signed 128-bit
    /// machine words: both products fit, and so does their sum.
    pub open spec fn dot_fits(self, o: V2) -> bool {
        fits_i128(self.x * o.x) && fits_i128(self.y * o.y) && fits_i128(self.dot(o))
    }
}

/// The value fits a signed 128-bit machine word.
pub open spec fn fits_i128(v: int) -> bool {
    i128::MIN <= v <= i128::MAX
}

/// The planar form of `a x (b x c)`: `b (a . c) - a (b . c)`.
pub open spec fn triple(a: V2, b: V2, c: V2) -> V2 {
    V2 {
        x: b.x * a.dot(c) - a.x * b.dot(c),
        y: b.y * a.dot(c) - a.y * b.dot(c),
    }
}

} // verus!
