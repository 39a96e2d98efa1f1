//! Integer points, vectors and triangles.
use vstd::prelude::*;

verus! {

/// Bound on coordinates: every coordinate lies strictly between
/// `-2^30` and `2^30`, so point differences and cross/dot products of such
/// differences fit in `i64`.
pub const SAFE_LIMIT: i32 = 0x4000_0000;

/// A two-dimensional integer point.
#[derive(Clone, Copy, Debug, PartialEq, Eq, Structural)]
pub struct IntPoint {
    pub x: i32,
    pub y: i32,
}

/// A difference of two points, in wide components.
#[derive(Clone, Copy, Debug, PartialEq, Eq, Structural)]
pub struct IntVector {
    pub x: i64,
    pub y: i64,
}

pub open spec fn in_safe_range(v: int) -> bool {
    -0x4000_0000 < v < 0x4000_0000
}

/// A vector component that is the difference of two safe coordinates.
pub open spec fn in_diff_range(v: int) -> bool {
    -0x8000_0000 < v < 0x8000_0000
}

/// Twice the signed area of the triangle `abc` (positive when counter-clockwise).
pub open spec fn area_two_spec(a: IntPoint, b: IntPoint, c: IntPoint) -> int {
    (b.x - a.x) * (c.y - a.y) - (b.y - a.y) * (c.x - a.x)
}

impl IntPoint {
    pub open spec fn is_safe(self) -> bool {
        in_safe_range(self.x as int) && in_safe_range(self.y as int)
    }

    pub fn new(x: i32, y: i32) -> (p: Self)
        ensures
            p.x == x,
            p.y == y,
    {
        IntPoint { x, y }
    }

    /// Whether both coordinates lie in the range in which all the
    /// predicates of this crate are exact.
    pub fn is_in_safe_range(&self) -> (r: bool)
        ensures
            r == self.is_safe(),
    {
        self.x > -SAFE_LIMIT && self.x < SAFE_LIMIT && self.y > -SAFE_LIMIT && self.y < SAFE_LIMIT
    }

    /// `self - other` as a wide vector.
    pub fn subtract(self, other: IntPoint) -> (v: IntVector)
        ensures
            v.x == self.x - other.x,
            v.y == self.y - other.y,
    {
        IntVector { x: self.x as i64 - other.x as i64, y: self.y as i64 - other.y as i64 }
    }
}

impl IntVector {
    pub open spec fn is_small(self) -> bool {
        in_diff_range(self.x as int) && in_diff_range(self.y as int)
    }

    pub open spec fn cross_spec(self, v: IntVector) -> int {
        self.x * v.y - self.y * v.x
    }

    pub open spec fn dot_spec(self, v: IntVector) -> int {
        self.x * v.x + self.y * v.y
    }

    pub fn cross_product(self, v: IntVector) -> (r: i64)
        requires
            self.is_small(),
            v.is_small(),
        ensures
            r == self.cross_spec(v),
    {
        proof {
            lemma_small_product(self.x as int, v.y as int);
            lemma_small_product(self.y as int, v.x as int);
        }
        self.x * v.y - self.y * v.x
    }

    pub fn dot_product(self, v: IntVector) -> (r: i64)
        requires
            self.is_small(),
            v.is_small(),
        ensures
            r == self.dot_spec(v),
    {
        proof {
            lemma_small_product(self.x as int, v.x as int);
            lemma_small_product(self.y as int, v.y as int);
        }
        self.x * v.x + self.y * v.y
    }
}

pub proof fn lemma_small_product(a: int, b: int)
    requires
        in_diff_range(a),
        in_diff_range(b),
    ensures
        -0x4000_0000_0000_0000 < a * b < 0x4000_0000_0000_0000,
{
    assert(-0x4000_0000_0000_0000 < a * b < 0x4000_0000_0000_0000) by (nonlinear_arith)
        requires
            -0x8000_0000 < a < 0x8000_0000,
            -0x8000_0000 < b < 0x8000_0000,
    ;
}

/// Twice the signed area of the triangle `abc`.
pub fn area_two(a: IntPoint, b: IntPoint, c: IntPoint) -> (r: i64)
    requires
        a.is_safe(),
        b.is_safe(),
        c.is_safe(),
    ensures
        r == area_two_spec(a, b, c),
{
    b.subtract(a).cross_product(c.subtract(a))
}

/// A point together with its index in a point buffer.
#[derive(Clone, Copy, Debug, PartialEq, Eq, Structural)]
pub struct IndexPoint {
    pub index: usize,
    pub point: IntPoint,
}

impl IndexPoint {
    pub fn new(index: usize, point: IntPoint) -> (r: Self)
        ensures
            r.index == index,
            r.point == point,
    {
        IndexPoint { index, point }
    }

    /// A placeholder that addresses no point.
    pub fn empty() -> (r: Self)
        ensures
            r.index == usize::MAX,
            r.point == (IntPoint { x: 0, y: 0 }),
    {
        IndexPoint { index: usize::MAX, point: IntPoint { x: 0, y: 0 } }
    }
}

/// Marks a missing neighbour.
pub const NO_NEIGHBOR: usize = usize::MAX;

/// A triangle of a mesh: three vertices, and for each vertex the index of
/// the triangle across the opposite edge (`usize::MAX` where there is none).
#[derive(Clone, Copy, Debug)]
pub struct IntTriangle {
    pub vertices: [IndexPoint; 3],
    pub neighbors: [usize; 3],
}

impl IntTriangle {
    pub fn abc(a: IndexPoint, b: IndexPoint, c: IndexPoint) -> (t: Self)
        ensures
            t.vertices@ == seq![a, b, c],
            t.neighbors@ == seq![NO_NEIGHBOR, NO_NEIGHBOR, NO_NEIGHBOR],
    {
        IntTriangle { vertices: [a, b, c], neighbors: [NO_NEIGHBOR, NO_NEIGHBOR, NO_NEIGHBOR] }
    }

    pub fn set_neighbor(&mut self, vertex: usize, neighbor: usize)
        requires
            vertex < 3,
        ensures
            final(self).vertices == old(self).vertices,
            final(self).neighbors@ == old(self).neighbors@.update(vertex as int, neighbor),
    {
        self.neighbors[vertex] = neighbor;
    }

    /// Drops the link across the edge opposite `vertex`.
    pub fn remove_neighbor(&mut self, vertex: usize)
        requires
            vertex < 3,
        ensures
            final(self).vertices == old(self).vertices,
            final(self).neighbors@ == old(self).neighbors@.update(vertex as int, NO_NEIGHBOR),
    {
        self.neighbors[vertex] = NO_NEIGHBOR;
    }

    /// The position (0, 1 or 2) of the vertex whose index is neither `a`
    /// nor `b`; 2 when the first two positions both hold `a` or `b`.
    pub fn other_vertex(&self, a: usize, b: usize) -> (r: usize)
        ensures
            r < 3,
            r == 0 <==> (self.vertices[0].index != a && self.vertices[0].index != b),
            r == 1 <==> (!(self.vertices[0].index != a && self.vertices[0].index != b)
                && self.vertices[1].index != a && self.vertices[1].index != b),
    {
        if self.vertices[0].index != a && self.vertices[0].index != b {
            0
        } else if self.vertices[1].index != a && self.vertices[1].index != b {
            1
        } else {
            2
        }
    }
}

/// An axis-aligned rectangle, borders included.
#[derive(Clone, Copy, Debug, PartialEq, Eq, Structural)]
pub struct IntRect {
    pub min_x: i32,
    pub max_x: i32,
    pub min_y: i32,
    pub max_y: i32,
}

impl IntRect {
    pub open spec fn has(self, p: IntPoint) -> bool {
        self.min_x <= p.x <= self.max_x && self.min_y <= p.y <= self.max_y
    }

    /// The rectangle that holds `point` alone.
    pub fn with_point(point: IntPoint) -> (r: Self)
        ensures
            r == (IntRect { min_x: point.x, max_x: point.x, min_y: point.y, max_y: point.y }),
    {
        IntRect { min_x: point.x, max_x: point.x, min_y: point.y, max_y: point.y }
    }

    /// Grows the rectangle to hold `point`; the rectangle must be
    /// ordered (`min <= max` on both axes).
    pub fn unsafe_add_point(&mut self, point: &IntPoint)
        requires
            old(self).min_x <= old(self).max_x,
            old(self).min_y <= old(self).max_y,
        ensures
            final(self).min_x == if point.x < old(self).min_x { point.x } else { old(self).min_x },
            final(self).max_x == if point.x > old(self).max_x { point.x } else { old(self).max_x },
            final(self).min_y == if point.y < old(self).min_y { point.y } else { old(self).min_y },
            final(self).max_y == if point.y > old(self).max_y { point.y } else { old(self).max_y },
    {
        if self.min_x > point.x {
            self.min_x = point.x
        } else if self.max_x < point.x {
            self.max_x = point.x
        }
        if self.min_y > point.y {
            self.min_y = point.y
        } else if self.max_y < point.y {
            self.max_y = point.y
        }
    }

    /// Whether `point` lies in the rectangle or on its border.
    pub fn contains(&self, point: IntPoint) -> (r: bool)
        ensures
            r == self.has(point),
    {
        self.min_x <= point.x && point.x <= self.max_x && self.min_y <= point.y && point.y <= self.max_y
    }
}

} // verus!
