//! Concatenation of triangulations over any point type.
use vstd::prelude::*;

verus! {

/// A point list and a flat index buffer, three indices per triangle.
#[derive(Debug)]
pub struct Triangulation<P> {
    pub points: Vec<P>,
    pub indices: Vec<usize>,
}

/// Collects triangulations into one.
pub struct TriangulationBuilder<P> {
    points: Vec<P>,
    indices: Vec<usize>,
}

impl<P> TriangulationBuilder<P> {
    pub closed spec fn spec_points(&self) -> Seq<P> {
        self.points@
    }

    pub closed spec fn spec_indices(&self) -> Seq<usize> {
        self.indices@
    }

    /// An empty builder.
    pub fn new() -> (r: Self)
        ensures
            r.spec_points().len() == 0,
            r.spec_indices().len() == 0,
    {
        TriangulationBuilder { points: Vec::new(), indices: Vec::new() }
    }

    /// Appends another `Triangulation`; its indices are moved past the
    /// points already collected.
    pub fn append(&mut self, triangulation: Triangulation<P>) -> (r: &mut Self)
        requires
            forall|k: int|
                0 <= k < triangulation.indices@.len() ==> #[trigger] triangulation.indices@[k]
                    + old(self).spec_points().len() <= usize::MAX,
        ensures
            r.spec_points() == old(self).spec_points() + triangulation.points@,
            r.spec_indices() == old(self).spec_indices() + triangulation.indices@.map_values(
                |i: usize| (i + old(self).spec_points().len()) as usize,
            ),
            *final(self) == *final(r),
    {
        let offset = self.points.len();
        let mut points = triangulation.points;
        self.points.append(&mut points);
        let ghost start = self.indices@;
        let mut k: usize = 0;
        while k < triangulation.indices.len()
            invariant
                k <= triangulation.indices@.len(),
                offset == old(self).points@.len(),
                self.points@ == old(self).points@ + triangulation.points@,
                start == old(self).indices@,
                forall|m: int|
                    0 <= m < triangulation.indices@.len() ==> #[trigger] triangulation.indices@[m] + offset
                        <= usize::MAX,
                self.indices@ == start + triangulation.indices@.subrange(0, k as int).map_values(
                    |i: usize| (i + offset) as usize,
                ),
            decreases triangulation.indices@.len() - k,
        {
            let i = triangulation.indices[k];
            self.indices.push(i + offset);
            k += 1;
            assert(triangulation.indices@.subrange(0, k as int).map_values(|i: usize| (i + offset) as usize)
                =~= triangulation.indices@.subrange(0, k - 1).map_values(|i: usize| (i + offset) as usize).push(
                (i + offset) as usize,
            ));
        }
        assert(triangulation.indices@.subrange(0, k as int) =~= triangulation.indices@);
        self
    }

    /// The collected triangulation.
    pub fn build(self) -> (r: Triangulation<P>)
        ensures
            r.points@ == self.spec_points(),
            r.indices@ == self.spec_indices(),
    {
        Triangulation { points: self.points, indices: self.indices }
    }
}

impl<P> Default for TriangulationBuilder<P> {
    fn default() -> (r: Self)
        ensures
            r.spec_points().len() == 0,
            r.spec_indices().len() == 0,
    {
        TriangulationBuilder { points: Vec::new(), indices: Vec::new() }
    }
}


/// Law: appending a triangulation keeps every triangle, its own and the
/// collected ones: each index, moved past the points collected before,
/// addresses the same point as before.
pub proof fn law_append_keeps_triangles<P>(
    b0: TriangulationBuilder<P>,
    t: Triangulation<P>,
    b1: TriangulationBuilder<P>,
)
    requires
        forall|k: int| 0 <= k < t.indices@.len() ==> (#[trigger] t.indices@[k]) < t.points@.len(),
        forall|k: int|
            0 <= k < t.indices@.len() ==> #[trigger] t.indices@[k] + b0.spec_points().len() <= usize::MAX,
        b1.spec_points() == b0.spec_points() + t.points@,
        b1.spec_indices() == b0.spec_indices() + t.indices@.map_values(
            |i: usize| (i + b0.spec_points().len()) as usize,
        ),
    ensures
        forall|k: int|
            0 <= k < t.indices@.len() ==> b1.spec_points()[b1.spec_indices()[b0.spec_indices().len() + k] as int]
                == t.points@[#[trigger] t.indices@[k] as int],
        forall|k: int|
            0 <= k < b0.spec_indices().len() && #[trigger] b0.spec_indices()[k] < b0.spec_points().len()
                ==> b1.spec_points()[b1.spec_indices()[k] as int] == b0.spec_points()[b0.spec_indices()[k] as int],
{
    let n0 = b0.spec_points().len();
    assert forall|k: int| 0 <= k < t.indices@.len() implies b1.spec_points()[b1.spec_indices()[b0.spec_indices().len()
        + k] as int] == t.points@[#[trigger] t.indices@[k] as int] by {
        assert(b1.spec_indices()[b0.spec_indices().len() + k] == (t.indices@[k] + n0) as usize);
    }
    assert forall|k: int|
        0 <= k < b0.spec_indices().len() && #[trigger] b0.spec_indices()[k] < b0.spec_points().len()
            implies b1.spec_points()[b1.spec_indices()[k] as int] == b0.spec_points()[b0.spec_indices()[k] as int] by {
        assert(b1.spec_indices()[k] == b0.spec_indices()[k]);
    }
}

} // verus!
