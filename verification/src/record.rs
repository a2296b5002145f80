use vstd::prelude::*;

verus! {

/// Capability set the sort engine asks of a record kind: a total order given
/// by an integer key, and an executable comparison that decides it. The
/// engine never looks further into a record; it only compares, moves and
/// copies whole records.
pub trait Record: Sized + Copy {
    /// The key that orders records of this kind.
    spec fn key(self) -> int;

    /// Decides `self.key() <= other.key()`.
    fn le(&self, other: &Self) -> (b: bool)
        ensures
            b == (self.key() <= other.key()),
    ;
}

/// A point of the plane with integer coordinates.
#[derive(Clone, Copy, Debug, PartialEq, Eq, Structural)]
pub struct Point {
    pub x: i32,
    pub y: i32,
}

/// A triangle given by its three corners. Triangles are ordered by area.
#[derive(Clone, Copy, Debug, PartialEq, Eq, Structural)]
pub struct Triangle {
    pub a: Point,
    pub b: Point,
    pub c: Point,
}

impl Triangle {
    /// Twice the signed area of the triangle: the cross product of the edge
    /// vectors `a -> b` and `a -> c`.
    pub open spec fn cross(self) -> int {
        (self.b.x - self.a.x) * (self.c.y - self.a.y)
            - (self.b.y - self.a.y) * (self.c.x - self.a.x)
    }

    /// Twice the area of the triangle, an exact integer. Ordering triangles
    /// by this quantity orders them by area.
    pub open spec fn doubled_area_spec(self) -> int {
        if self.cross() < 0 {
            -self.cross()
        } else {
            self.cross()
        }
    }

    /// Twice the area of the triangle.
    pub fn doubled_area(&self) -> (r: i128)
        ensures
            r == self.doubled_area_spec(),
            r >= 0,
    {
        let dx1: i128 = self.b.x as i128 - self.a.x as i128;
        let dy1: i128 = self.b.y as i128 - self.a.y as i128;
        let dx2: i128 = self.c.x as i128 - self.a.x as i128;
        let dy2: i128 = self.c.y as i128 - self.a.y as i128;
        proof {
            assert(dx1 * dy2 <= 0x1_0000_0000i128 * 0x1_0000_0000i128 && dx1 * dy2
                >= -(0x1_0000_0000i128 * 0x1_0000_0000i128)) by (nonlinear_arith)
                requires
                    -0x1_0000_0000 <= dx1 <= 0x1_0000_0000,
                    -0x1_0000_0000 <= dy2 <= 0x1_0000_0000,
            ;
            assert(dy1 * dx2 <= 0x1_0000_0000i128 * 0x1_0000_0000i128 && dy1 * dx2
                >= -(0x1_0000_0000i128 * 0x1_0000_0000i128)) by (nonlinear_arith)
                requires
                    -0x1_0000_0000 <= dy1 <= 0x1_0000_0000,
                    -0x1_0000_0000 <= dx2 <= 0x1_0000_0000,
            ;
        }
        let cross: i128 = dx1 * dy2 - dy1 * dx2;
        if cross < 0 {
            -cross
        } else {
            cross
        }
    }
}

impl Record for Triangle {
    open spec fn key(self) -> int {
        self.doubled_area_spec()
    }

    fn le(&self, other: &Self) -> (b: bool) {
        self.doubled_area() <= other.doubled_area()
    }
}

} // verus!
