//! Where a point lies relative to a triangulation.
use vstd::prelude::*;

verus! {

/// The position of a triangle in a triangle list; its three vertex indices
/// in a flat index buffer are `3 * index`, `3 * index + 1` and `3 * index + 2`.
#[derive(Clone, Copy, Debug, PartialEq, Eq, PartialOrd, Ord, Structural)]
pub struct TriangleIndex(pub usize);

impl TriangleIndex {
    pub fn new(index: usize) -> (r: Self)
        ensures
            r.0 == index,
    {
        TriangleIndex(index)
    }

    pub fn index(&self) -> (r: usize)
        ensures
            r == self.0,
    {
        self.0
    }

    /// The positions of this triangle's three vertex indices in a flat
    /// index buffer.
    pub fn to_vertex_indices(&self) -> (r: [usize; 3])
        requires
            3 * self.0 + 2 <= usize::MAX,
        ensures
            r@ == seq![3 * self.0 as int, 3 * self.0 + 1, 3 * self.0 + 2].map_values(|v: int| v as usize),
            r[0] == 3 * self.0,
            r[1] == 3 * self.0 + 1,
            r[2] == 3 * self.0 + 2,
    {
        let offset = 3 * self.0;
        let r = [offset, offset + 1, offset + 2];
        assert(r@ =~= seq![3 * self.0 as int, 3 * self.0 + 1, 3 * self.0 + 2].map_values(|v: int| v as usize));
        r
    }
}

/// The location of a query point in a triangulation.
#[derive(Clone, Debug, PartialEq, Eq)]
pub enum PointLocationInTriangulation {
    /// The point is outside every triangle.
    Outside,
    /// The point is strictly inside one triangle.
    InsideTriangle(TriangleIndex),
    /// The point lies on an edge that belongs to one triangle only.
    OnExteriorEdge(TriangleIndex),
    /// The point lies on an edge shared by two triangles.
    OnInteriorEdge(TriangleIndex, TriangleIndex),
    /// The point coincides with a vertex; all triangles around it.
    OnVertex(Vec<TriangleIndex>),
}

} // verus!
