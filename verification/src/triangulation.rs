//! Triangle meshes: a flat index buffer form and a form with neighbour links.
use crate::geom::{area_two, area_two_spec, IntPoint, IntTriangle};
use crate::index::IndexType;
use vstd::prelude::*;

verus! {

/// The vertex indices of `ts`, three per triangle, in order.
pub open spec fn vertex_index_seq(ts: Seq<IntTriangle>) -> Seq<int> {
    Seq::new(3 * ts.len(), |k: int| ts[k / 3].vertices[k % 3].index as int)
}

/// The values of an index buffer.
pub open spec fn index_values<N: IndexType>(indices: Seq<N>) -> Seq<int> {
    indices.map_values(|i: N| i.value() as int)
}

/// Sum of twice the signed areas of the first `k` triangles of a flat
/// index buffer.
pub open spec fn flat_area_sum(points: Seq<IntPoint>, idx: Seq<int>, k: nat) -> int
    decreases k,
{
    if k == 0 {
        0
    } else {
        let t = k - 1;
        flat_area_sum(points, idx, t as nat) + area_two_spec(
            points[idx[3 * t]],
            points[idx[3 * t + 1]],
            points[idx[3 * t + 2]],
        )
    }
}

/// Sum of twice the signed areas of the first `k` mesh triangles.
pub open spec fn mesh_area_sum(ts: Seq<IntTriangle>, k: nat) -> int
    decreases k,
{
    if k == 0 {
        0
    } else {
        let t = ts[k - 1];
        mesh_area_sum(ts, (k - 1) as nat) + area_two_spec(
            t.vertices[0].point,
            t.vertices[1].point,
            t.vertices[2].point,
        )
    }
}

pub open spec fn fits_i64(v: int) -> bool {
    i64::MIN <= v <= i64::MAX
}

proof fn lemma_div3(t: int, r: int)
    requires
        t >= 0,
        0 <= r < 3,
    ensures
        (3 * t + r) / 3 == t,
        (3 * t + r) % 3 == r,
{
}

/// Writes the vertex indices of `triangles` into `indices` (cleared first).
pub fn feed_indices<N: IndexType>(triangles: &Vec<IntTriangle>, max_count: usize, indices: &mut Vec<N>)
    requires
        max_count <= N::index_limit(),
        forall|t: int, k: int|
            0 <= t < triangles@.len() && 0 <= k < 3 ==> (#[trigger] triangles@[t].vertices[k]).index
                <= max_count,
    ensures
        index_values(final(indices)@) == vertex_index_seq(triangles@),
        final(indices)@.len() == 3 * triangles@.len(),
{
    let count = triangles.len();
    indices.clear();
    let mut i: usize = 0;
    while i < count
        invariant
            count == triangles@.len(),
            i <= count,
            indices@.len() == 3 * i,
            max_count <= N::index_limit(),
            forall|t: int, k: int|
                0 <= t < triangles@.len() && 0 <= k < 3 ==> (#[trigger] triangles@[t].vertices[k]).index
                    <= max_count,
            forall|k: int| 0 <= k < 3 * i ==> #[trigger] indices@[k].value() == triangles@[k / 3].vertices[k % 3].index,
        decreases count - i,
    {
        let t = triangles[i];
        proof {
            assert(t.vertices[0].index <= max_count);
            assert(t.vertices[1].index <= max_count);
            assert(t.vertices[2].index <= max_count);
        }
        let i0 = N::from_usize(t.vertices[0].index);
        let i1 = N::from_usize(t.vertices[1].index);
        let i2 = N::from_usize(t.vertices[2].index);
        indices.push(i0);
        indices.push(i1);
        indices.push(i2);
        proof {
            assert forall|k: int| 0 <= k < 3 * (i + 1) implies #[trigger] indices@[k].value()
                == triangles@[k / 3].vertices[k % 3].index by {
                if k >= 3 * i {
                    lemma_div3(i as int, k - 3 * i);
                }
            }
        }
        i += 1;
    }
    assert(index_values(indices@) =~= vertex_index_seq(triangles@));
}

/// A triangle mesh with neighbour links: each triangle keeps its vertices
/// (index and point) and the triangle across each edge.
#[derive(Debug)]
pub struct RawIntTriangulation {
    pub triangles: Vec<IntTriangle>,
    pub points: Vec<IntPoint>,
}

impl RawIntTriangulation {
    /// Every vertex addresses a point of the mesh.
    pub open spec fn wf(&self) -> bool {
        forall|t: int, k: int|
            0 <= t < self.triangles@.len() && 0 <= k < 3 ==> (#[trigger] self.triangles@[t].vertices[k]).index
                < self.points@.len()
    }

    pub fn new(triangles: Vec<IntTriangle>, points: Vec<IntPoint>) -> (r: Self)
        ensures
            r.triangles@ == triangles@,
            r.points@ == points@,
    {
        RawIntTriangulation { triangles, points }
    }

    pub fn empty() -> (r: Self)
        ensures
            r.triangles@.len() == 0,
            r.points@.len() == 0,
    {
        RawIntTriangulation { triangles: Vec::new(), points: Vec::new() }
    }

    /// Whether the mesh has no triangles.
    pub fn is_empty(&self) -> (r: bool)
        ensures
            r == (self.triangles@.len() == 0),
    {
        self.triangles.len() == 0
    }

    pub fn points(&self) -> (r: &Vec<IntPoint>)
        ensures
            r@ == self.points@,
    {
        &self.points
    }

    /// The vertex indices of all triangles, three per triangle.
    pub fn triangle_indices<N: IndexType>(&self) -> (r: Vec<N>)
        requires
            self.wf(),
            self.points@.len() <= N::index_limit(),
        ensures
            index_values(r@) == vertex_index_seq(self.triangles@),
    {
        let mut indices = Vec::new();
        feed_indices(&self.triangles, self.points.len(), &mut indices);
        indices
    }

    /// The neighbours of each triangle.
    pub fn triangle_neighbors(&self) -> (r: Vec<[usize; 3]>)
        ensures
            r@.len() == self.triangles@.len(),
            forall|t: int| 0 <= t < r@.len() ==> #[trigger] r@[t] == self.triangles@[t].neighbors,
    {
        let mut r: Vec<[usize; 3]> = Vec::with_capacity(self.triangles.len());
        let mut i: usize = 0;
        while i < self.triangles.len()
            invariant
                i <= self.triangles@.len(),
                r@.len() == i,
                forall|t: int| 0 <= t < i ==> #[trigger] r@[t] == self.triangles@[t].neighbors,
            decreases self.triangles@.len() - i,
        {
            r.push(self.triangles[i].neighbors);
            i += 1;
        }
        r
    }

    /// The mesh as an index buffer over its points.
    pub fn into_triangulation<N: IndexType>(self) -> (r: IntTriangulation<N>)
        requires
            self.wf(),
            self.points@.len() <= N::index_limit(),
        ensures
            r.points@ == self.points@,
            index_values(r.indices@) == vertex_index_seq(self.triangles@),
    {
        let indices = self.triangle_indices();
        IntTriangulation { indices, points: self.points }
    }

    /// The mesh as an index buffer over a copy of its points.
    pub fn to_triangulation<N: IndexType>(&self) -> (r: IntTriangulation<N>)
        requires
            self.wf(),
            self.points@.len() <= N::index_limit(),
        ensures
            r.points@ == self.points@,
            index_values(r.indices@) == vertex_index_seq(self.triangles@),
    {
        let indices = self.triangle_indices();
        let mut points = Vec::with_capacity(self.points.len());
        let mut i: usize = 0;
        while i < self.points.len()
            invariant
                i <= self.points@.len(),
                points@ == self.points@.subrange(0, i as int),
            decreases self.points@.len() - i,
        {
            points.push(self.points[i]);
            i += 1;
            assert(points@ =~= self.points@.subrange(0, i as int));
        }
        assert(points@ =~= self.points@);
        IntTriangulation { indices, points }
    }

    /// Moves every vertex index up by `points_offset` and every neighbour
    /// link up by `triangle_offset` (saturating, so a missing neighbour
    /// stays missing).
    pub fn shift(&mut self, points_offset: usize, triangle_offset: usize)
        requires
            forall|t: int, k: int|
                0 <= t < old(self).triangles@.len() && 0 <= k < 3 ==> (#[trigger] old(
                    self,
                ).triangles@[t].vertices[k]).index + points_offset <= usize::MAX,
        ensures
            final(self).points@ == old(self).points@,
            final(self).triangles@.len() == old(self).triangles@.len(),
            forall|t: int, k: int|
                0 <= t < final(self).triangles@.len() && 0 <= k < 3 ==> {
                    &&& (#[trigger] final(self).triangles@[t].vertices[k]).index == old(
                        self,
                    ).triangles@[t].vertices[k].index + points_offset
                    &&& final(self).triangles@[t].vertices[k].point == old(
                        self,
                    ).triangles@[t].vertices[k].point
                    &&& final(self).triangles@[t].neighbors[k] == if old(self).triangles@[t].neighbors[k]
                        + triangle_offset > usize::MAX {
                        usize::MAX as int
                    } else {
                        old(self).triangles@[t].neighbors[k] + triangle_offset
                    }
                },
    {
        let n = self.triangles.len();
        let mut i: usize = 0;
        while i < n
            invariant
                n == self.triangles@.len(),
                n == old(self).triangles@.len(),
                i <= n,
                self.points@ == old(self).points@,
                forall|t: int, k: int|
                    0 <= t < old(self).triangles@.len() && 0 <= k < 3 ==> (#[trigger] old(
                        self,
                    ).triangles@[t].vertices[k]).index + points_offset <= usize::MAX,
                forall|t: int| i <= t < n ==> #[trigger] self.triangles@[t] == old(self).triangles@[t],
                forall|t: int, k: int|
                    0 <= t < i && 0 <= k < 3 ==> {
                        &&& (#[trigger] self.triangles@[t].vertices[k]).index == old(
                            self,
                        ).triangles@[t].vertices[k].index + points_offset
                        &&& self.triangles@[t].vertices[k].point == old(
                            self,
                        ).triangles@[t].vertices[k].point
                        &&& self.triangles@[t].neighbors[k] == if old(self).triangles@[t].neighbors[k]
                            + triangle_offset > usize::MAX {
                            usize::MAX as int
                        } else {
                            old(self).triangles@[t].neighbors[k] + triangle_offset
                        }
                    },
            decreases n - i,
        {
            let mut t = self.triangles[i];
            proof {
                assert(old(self).triangles@[i as int].vertices[0].index + points_offset <= usize::MAX);
                assert(old(self).triangles@[i as int].vertices[1].index + points_offset <= usize::MAX);
                assert(old(self).triangles@[i as int].vertices[2].index + points_offset <= usize::MAX);
            }
            t.vertices[0].index = t.vertices[0].index + points_offset;
            t.vertices[1].index = t.vertices[1].index + points_offset;
            t.vertices[2].index = t.vertices[2].index + points_offset;
            t.neighbors[0] = t.neighbors[0].saturating_add(triangle_offset);
            t.neighbors[1] = t.neighbors[1].saturating_add(triangle_offset);
            t.neighbors[2] = t.neighbors[2].saturating_add(triangle_offset);
            self.triangles.set(i, t);
            proof {
                assert forall|u: int, k: int|
                    0 <= u < i + 1 && 0 <= k < 3 implies {
                        &&& (#[trigger] self.triangles@[u].vertices[k]).index == old(
                            self,
                        ).triangles@[u].vertices[k].index + points_offset
                        &&& self.triangles@[u].vertices[k].point == old(
                            self,
                        ).triangles@[u].vertices[k].point
                        &&& self.triangles@[u].neighbors[k] == if old(self).triangles@[u].neighbors[k]
                            + triangle_offset > usize::MAX {
                            usize::MAX as int
                        } else {
                            old(self).triangles@[u].neighbors[k] + triangle_offset
                        }
                    } by {
                    if u == i {
                        assert(self.triangles@[u] == t);
                        assert(k == 0 || k == 1 || k == 2);
                    }
                }
            }
            i += 1;
        }
    }

    /// Whether every triangle has non-negative area and every neighbour
    /// link is returned by the neighbour (links to `usize::MAX` mean none).
    pub fn validate(&self) -> (r: bool)
        requires
            forall|t: int, k: int|
                0 <= t < self.triangles@.len() && 0 <= k < 3 ==> (#[trigger] self.triangles@[t].vertices[k]).point.is_safe(),
        ensures
            r == self.is_valid(),
    {
        let n = self.triangles.len();
        let mut i: usize = 0;
        while i < n
            invariant
                n == self.triangles@.len(),
                i <= n,
                forall|t: int, k: int|
                    0 <= t < self.triangles@.len() && 0 <= k < 3 ==> (#[trigger] self.triangles@[t].vertices[k]).point.is_safe(),
                forall|t: int| 0 <= t < i ==> self.triangle_valid(t),
            decreases n - i,
        {
            let t = self.triangles[i];
            proof {
                assert(t.vertices[0].point.is_safe());
                assert(t.vertices[1].point.is_safe());
                assert(t.vertices[2].point.is_safe());
            }
            let area = area_two(t.vertices[0].point, t.vertices[1].point, t.vertices[2].point);
            if area < 0 {
                proof {
                    assert(!self.triangle_valid(i as int));
                }
                return false;
            }
            let mut k: usize = 0;
            while k < 3
                invariant
                    n == self.triangles@.len(),
                    i < n,
                    t == self.triangles@[i as int],
                    k <= 3,
                    forall|m: int| 0 <= m < k ==> self.link_valid(i as int, m),
                decreases 3 - k,
            {
                let nb = t.neighbors[k];
                if nb != usize::MAX {
                    if nb >= n {
                        proof {
                            assert(!self.link_valid(i as int, k as int));
                            assert(!self.triangle_valid(i as int));
                        }
                        return false;
                    }
                    let other = self.triangles[nb];
                    if other.neighbors[0] != i && other.neighbors[1] != i && other.neighbors[2] != i {
                        proof {
                            assert(!other.neighbors@.contains(i)) by {
                                if other.neighbors@.contains(i) {
                                    let w = choose|w: int| 0 <= w < 3 && other.neighbors@[w] == i;
                                    assert(w == 0 || w == 1 || w == 2);
                                }
                            }
                            assert(!self.link_valid(i as int, k as int));
                            assert(!self.triangle_valid(i as int));
                        }
                        return false;
                    }
                    proof {
                        if other.neighbors[0] == i {
                            assert(other.neighbors@[0] == i);
                        } else if other.neighbors[1] == i {
                            assert(other.neighbors@[1] == i);
                        } else {
                            assert(other.neighbors@[2] == i);
                        }
                        assert(self.link_valid(i as int, k as int));
                    }
                }
                k += 1;
            }
            proof {
                assert(self.triangle_valid(i as int));
            }
            i += 1;
        }
        true
    }

    pub open spec fn link_valid(&self, t: int, k: int) -> bool {
        let nb = self.triangles@[t].neighbors[k];
        nb == usize::MAX || (nb < self.triangles@.len() && self.triangles@[nb as int].neighbors@.contains(
            t as usize,
        ))
    }

    pub open spec fn triangle_valid(&self, t: int) -> bool {
        let tr = self.triangles@[t];
        &&& area_two_spec(tr.vertices[0].point, tr.vertices[1].point, tr.vertices[2].point) >= 0
        &&& forall|k: int| 0 <= k < 3 ==> self.link_valid(t, k)
    }

    /// Every triangle has non-negative area and its neighbour links are
    /// mutual.
    pub open spec fn is_valid(&self) -> bool {
        forall|t: int| 0 <= t < self.triangles@.len() ==> self.triangle_valid(t)
    }

    /// Twice the total signed area of the mesh.
    pub fn area_two(&self) -> (r: i64)
        requires
            forall|t: int, k: int|
                0 <= t < self.triangles@.len() && 0 <= k < 3 ==> (#[trigger] self.triangles@[t].vertices[k]).point.is_safe(),
            forall|k: nat| k <= self.triangles@.len() ==> fits_i64(#[trigger] mesh_area_sum(self.triangles@, k)),
        ensures
            r == mesh_area_sum(self.triangles@, self.triangles@.len()),
    {
        let n = self.triangles.len();
        let mut s: i64 = 0;
        let mut i: usize = 0;
        while i < n
            invariant
                n == self.triangles@.len(),
                i <= n,
                s == mesh_area_sum(self.triangles@, i as nat),
                forall|t: int, k: int|
                    0 <= t < self.triangles@.len() && 0 <= k < 3 ==> (#[trigger] self.triangles@[t].vertices[k]).point.is_safe(),
                forall|k: nat| k <= self.triangles@.len() ==> fits_i64(#[trigger] mesh_area_sum(self.triangles@, k)),
            decreases n - i,
        {
            let t = self.triangles[i];
            proof {
                assert(t.vertices[0].point.is_safe());
                assert(t.vertices[1].point.is_safe());
                assert(t.vertices[2].point.is_safe());
                assert(fits_i64(mesh_area_sum(self.triangles@, (i + 1) as nat)));
            }
            let a = area_two(t.vertices[0].point, t.vertices[1].point, t.vertices[2].point);
            s = s + a;
            i += 1;
        }
        s
    }
}

impl RawIntTriangulation {
    /// Twice the total signed area of the mesh, as `area_two` gives it.
    pub fn area(&self) -> (r: i64)
        requires
            forall|t: int, k: int|
                0 <= t < self.triangles@.len() && 0 <= k < 3 ==> (#[trigger] self.triangles@[t].vertices[k]).point.is_safe(),
            forall|k: nat| k <= self.triangles@.len() ==> fits_i64(#[trigger] mesh_area_sum(self.triangles@, k)),
        ensures
            r == mesh_area_sum(self.triangles@, self.triangles@.len()),
    {
        self.area_two()
    }
}

impl Default for RawIntTriangulation {
    fn default() -> (r: Self)
        ensures
            r.triangles@.len() == 0,
            r.points@.len() == 0,
    {
        RawIntTriangulation { triangles: Vec::new(), points: Vec::new() }
    }
}

/// A triangulation as a point list and a flat index buffer, three indices
/// per triangle.
#[derive(Debug, Clone)]
pub struct IntTriangulation<N> {
    pub points: Vec<IntPoint>,
    pub indices: Vec<N>,
}

impl<N> Default for IntTriangulation<N> {
    fn default() -> (r: Self)
        ensures
            r.points@.len() == 0,
            r.indices@.len() == 0,
    {
        IntTriangulation { points: Vec::new(), indices: Vec::new() }
    }
}

impl<N: IndexType> IntTriangulation<N> {
    pub fn empty() -> (r: Self)
        ensures
            r.points@.len() == 0,
            r.indices@.len() == 0,
    {
        IntTriangulation { points: Vec::new(), indices: Vec::new() }
    }

    pub fn with_capacity(capacity: usize) -> (r: Self)
        requires
            3 * capacity <= usize::MAX,
        ensures
            r.points@.len() == 0,
            r.indices@.len() == 0,
    {
        IntTriangulation { points: Vec::with_capacity(capacity), indices: Vec::with_capacity(3 * capacity) }
    }

    /// The offset `join` adds to the other triangulation's indices: the
    /// current point count when the index type can hold it, 0 otherwise.
    pub open spec fn join_offset(&self) -> int {
        if self.points@.len() <= N::index_limit() {
            self.points@.len() as int
        } else {
            0
        }
    }

    /// Appends `other`, moving its indices past the current points.
    pub fn join(&mut self, other: &Self)
        requires
            forall|k: int|
                0 <= k < other.indices@.len() ==> (#[trigger] other.indices@[k]).value()
                    + old(self).join_offset() <= N::index_limit(),
        ensures
            final(self).points@ == old(self).points@ + other.points@,
            index_values(final(self).indices@) == index_values(old(self).indices@) + index_values(
                other.indices@,
            ).map_values(|v: int| v + old(self).join_offset()),
    {
        let ghost offset = self.join_offset();
        let points_offset = match N::try_from_usize(self.points.len()) {
            Some(v) => v,
            None => N::zero(),
        };
        let ghost old_indices = self.indices@;
        let mut i: usize = 0;
        while i < other.indices.len()
            invariant
                i <= other.indices@.len(),
                points_offset.value() == offset,
                self.points@ == old(self).points@,
                offset == old(self).join_offset(),
                forall|k: int|
                    0 <= k < other.indices@.len() ==> (#[trigger] other.indices@[k]).value() + offset
                        <= N::index_limit(),
                index_values(self.indices@) == index_values(old_indices) + index_values(
                    other.indices@.subrange(0, i as int),
                ).map_values(|v: int| v + offset),
            decreases other.indices@.len() - i,
        {
            let v = other.indices[i];
            let w = v.add(points_offset);
            let ghost before = self.indices@;
            self.indices.push(w);
            proof {
                assert(index_values(self.indices@) =~= index_values(before).push(w.value() as int));
                assert(index_values(other.indices@.subrange(0, i + 1)).map_values(|v: int| v + offset)
                    =~= index_values(other.indices@.subrange(0, i as int)).map_values(|v: int| v + offset).push(
                    v.value() + offset,
                ));
            }
            i += 1;
        }
        assert(other.indices@.subrange(0, other.indices@.len() as int) =~= other.indices@);
        assert(index_values(other.indices@.subrange(0, i as int)) == index_values(other.indices@));
        assert(index_values(other.indices@).map_values(|v: int| v + offset) =~= index_values(
            other.indices@,
        ).map_values(|v: int| v + old(self).join_offset()));
        assert(index_values(self.indices@) == index_values(old(self).indices@) + index_values(
            other.indices@,
        ).map_values(|v: int| v + old(self).join_offset()));
        let ghost joined = self.indices@;
        let mut j: usize = 0;
        while j < other.points.len()
            invariant
                self.indices@ == joined,
                j <= other.points@.len(),
                self.points@ == old(self).points@ + other.points@.subrange(0, j as int),
            decreases other.points@.len() - j,
        {
            self.points.push(other.points[j]);
            j += 1;
            assert(self.points@ =~= old(self).points@ + other.points@.subrange(0, j as int));
        }
        assert(other.points@.subrange(0, other.points@.len() as int) =~= other.points@);
    }

    /// The points of every triangle, in index-buffer order; a trailing
    /// incomplete triple is left out.
    pub fn triangles(&self) -> (r: Vec<[IntPoint; 3]>)
        requires
            forall|k: int|
                0 <= k < self.indices@.len() ==> (#[trigger] self.indices@[k]).value() < self.points@.len(),
        ensures
            r@.len() == self.indices@.len() / 3,
            forall|t: int, k: int|
                0 <= t < r@.len() && 0 <= k < 3 ==> #[trigger] r@[t][k] == self.points@[self.indices@[3
                    * t + k].value() as int],
    {
        let mut r: Vec<[IntPoint; 3]> = Vec::new();
        let mut i: usize = 0;
        while self.indices.len() - i >= 3
            invariant
                i == 3 * r@.len(),
                i <= self.indices@.len(),
                forall|k: int|
                    0 <= k < self.indices@.len() ==> (#[trigger] self.indices@[k]).value()
                        < self.points@.len(),
                forall|t: int, k: int|
                    0 <= t < r@.len() && 0 <= k < 3 ==> #[trigger] r@[t][k] == self.points@[self.indices@[3
                        * t + k].value() as int],
            decreases self.indices@.len() - i,
        {
            let a = self.indices[i];
            let b = self.indices[i + 1];
            let c = self.indices[i + 2];
            proof {
                assert(a.value() < self.points@.len());
                assert(b.value() < self.points@.len());
                assert(c.value() < self.points@.len());
            }
            let plen = self.points.len();
            let a_at = a.into_usize();
            let b_at = b.into_usize();
            let c_at = c.into_usize();
            let pa = self.points[a_at];
            let pb = self.points[b_at];
            let pc = self.points[c_at];
            let ghost before = r@;
            r.push([pa, pb, pc]);
            proof {
                assert forall|u: int, k: int|
                    0 <= u < r@.len() && 0 <= k < 3 implies #[trigger] r@[u][k] == self.points@[self.indices@[3
                        * u + k].value() as int] by {
                    if u < before.len() {
                        assert(r@[u] == before[u]);
                    } else {
                        assert(u == before.len());
                        assert(3 * u == i);
                        assert(k == 0 || k == 1 || k == 2);
                    }
                }
            }
            i += 3;
        }
        r
    }

    /// Empties the triangulation, keeping room for `new_len` points.
    pub fn reserve_and_clear(&mut self, new_len: usize)
        requires
            3 * new_len <= usize::MAX,
        ensures
            final(self).points@.len() == 0,
            final(self).indices@.len() == 0,
    {
        self.points.clear();
        self.points.reserve(new_len);
        self.indices.clear();
        self.indices.reserve(3 * new_len);
    }

    /// Replaces the content with the index-buffer form of `triangulation`.
    pub fn fill_with_raw(&mut self, triangulation: &RawIntTriangulation)
        requires
            triangulation.wf(),
            triangulation.points@.len() <= N::index_limit(),
        ensures
            final(self).points@ == triangulation.points@,
            index_values(final(self).indices@) == vertex_index_seq(triangulation.triangles@),
    {
        self.points.clear();
        let mut i: usize = 0;
        while i < triangulation.points.len()
            invariant
                i <= triangulation.points@.len(),
                self.points@ == triangulation.points@.subrange(0, i as int),
            decreases triangulation.points@.len() - i,
        {
            self.points.push(triangulation.points[i]);
            i += 1;
            assert(self.points@ =~= triangulation.points@.subrange(0, i as int));
        }
        assert(self.points@ =~= triangulation.points@);
        feed_indices(&triangulation.triangles, triangulation.points.len(), &mut self.indices);
    }

    /// Whether every triangle has positive area and the areas add up to
    /// `shape_x2_area`.
    pub fn validate(&self, shape_x2_area: i64) -> (r: bool)
        requires
            self.indices@.len() % 3 == 0,
            forall|k: int|
                0 <= k < self.indices@.len() ==> (#[trigger] self.indices@[k]).value() < self.points@.len(),
            forall|k: int| 0 <= k < self.points@.len() ==> (#[trigger] self.points@[k]).is_safe(),
            forall|k: nat|
                k <= self.indices@.len() / 3 ==> fits_i64(
                    #[trigger] flat_area_sum(self.points@, index_values(self.indices@), k),
                ),
        ensures
            r == ((forall|t: int|
                0 <= t < self.indices@.len() / 3 ==> #[trigger] area_two_spec(
                    self.points@[index_values(self.indices@)[3 * t]],
                    self.points@[index_values(self.indices@)[3 * t + 1]],
                    self.points@[index_values(self.indices@)[3 * t + 2]],
                ) > 0) && flat_area_sum(
                self.points@,
                index_values(self.indices@),
                (self.indices@.len() / 3) as nat,
            ) == shape_x2_area),
    {
        let ghost idx = index_values(self.indices@);
        let mut s: i64 = 0;
        let mut i: usize = 0;
        let mut t: usize = 0;
        while i < self.indices.len()
            invariant
                self.indices@.len() % 3 == 0,
                i == 3 * t,
                i <= self.indices@.len(),
                idx == index_values(self.indices@),
                forall|k: int|
                    0 <= k < self.indices@.len() ==> (#[trigger] self.indices@[k]).value()
                        < self.points@.len(),
                forall|k: int| 0 <= k < self.points@.len() ==> (#[trigger] self.points@[k]).is_safe(),
                forall|k: nat|
                    k <= self.indices@.len() / 3 ==> fits_i64(#[trigger] flat_area_sum(self.points@, idx, k)),
                s == flat_area_sum(self.points@, idx, t as nat),
                forall|u: int|
                    0 <= u < t ==> #[trigger] area_two_spec(
                        self.points@[idx[3 * u]],
                        self.points@[idx[3 * u + 1]],
                        self.points@[idx[3 * u + 2]],
                    ) > 0,
            decreases self.indices@.len() - i,
        {
            let ai = self.indices[i];
            let bi = self.indices[i + 1];
            let ci = self.indices[i + 2];
            proof {
                assert(ai.value() < self.points@.len());
                assert(bi.value() < self.points@.len());
                assert(ci.value() < self.points@.len());
            }
            let plen = self.points.len();
            let a_at = ai.into_usize();
            let b_at = bi.into_usize();
            let c_at = ci.into_usize();
            proof {
                assert(a_at == ai.value());
                assert(b_at == bi.value());
                assert(c_at == ci.value());
            }
            let a = self.points[a_at];
            let b = self.points[b_at];
            let c = self.points[c_at];
            proof {
                assert(a.is_safe());
                assert(b.is_safe());
                assert(c.is_safe());
                assert(idx[3 * t as int] == ai.value());
                assert(idx[3 * t + 1] == bi.value());
                assert(idx[3 * t + 2] == ci.value());
                assert(fits_i64(flat_area_sum(self.points@, idx, (t + 1) as nat)));
            }
            let abc = area_two(a, b, c);
            proof {
                assert(a == self.points@[idx[3 * t as int]]);
                assert(b == self.points@[idx[3 * t + 1]]);
                assert(c == self.points@[idx[3 * t + 2]]);
            }
            if abc <= 0 {
                proof {
                    assert(3 * t < self.indices@.len());
                    assert(t < self.indices@.len() / 3);
                    assert(area_two_spec(
                        self.points@[index_values(self.indices@)[3 * t as int]],
                        self.points@[index_values(self.indices@)[3 * t + 1]],
                        self.points@[index_values(self.indices@)[3 * t + 2]],
                    ) <= 0);
                }
                return false;
            }
            proof {
                assert(flat_area_sum(self.points@, idx, (t + 1) as nat) == flat_area_sum(self.points@, idx, t as nat) + abc);
            }
            s = s + abc;
            i += 3;
            t += 1;
        }
        s == shape_x2_area
    }
}


/// Law: joining a triangulation whose index type can hold the current
/// point count keeps every triangle: each joined index addresses the same
/// point as in the joined triangulation, and the earlier ones are kept.
pub proof fn law_join_keeps_triangles<N: IndexType>(
    t0: IntTriangulation<N>,
    other: IntTriangulation<N>,
    t1: IntTriangulation<N>,
)
    requires
        t0.points@.len() <= N::index_limit(),
        forall|k: int| 0 <= k < other.indices@.len() ==> (#[trigger] other.indices@[k]).value() < other.points@.len(),
        t1.points@ == t0.points@ + other.points@,
        index_values(t1.indices@) == index_values(t0.indices@) + index_values(other.indices@).map_values(
            |v: int| v + t0.join_offset(),
        ),
    ensures
        forall|k: int|
            0 <= k < other.indices@.len() ==> t1.points@[index_values(t1.indices@)[t0.indices@.len() + k]]
                == other.points@[(#[trigger] other.indices@[k]).value() as int],
        forall|k: int|
            0 <= k < t0.indices@.len() && (#[trigger] t0.indices@[k]).value() < t0.points@.len() ==> t1.points@[index_values(
                t1.indices@,
            )[k]] == t0.points@[t0.indices@[k].value() as int],
{
    let n0 = t0.points@.len();
    assert forall|k: int| 0 <= k < other.indices@.len() implies t1.points@[index_values(t1.indices@)[t0.indices@.len()
        + k]] == other.points@[(#[trigger] other.indices@[k]).value() as int] by {
        assert(index_values(t1.indices@)[t0.indices@.len() + k] == index_values(other.indices@)[k] + n0);
    }
    assert forall|k: int|
        0 <= k < t0.indices@.len() && (#[trigger] t0.indices@[k]).value() < t0.points@.len() implies t1.points@[index_values(
            t1.indices@,
        )[k]] == t0.points@[t0.indices@[k].value() as int] by {
        assert(index_values(t1.indices@)[k] == index_values(t0.indices@)[k]);
    }
}

/// Index buffers with the same values are the same.
proof fn lemma_index_values_injective<N: IndexType>(x: Seq<N>, y: Seq<N>)
    requires
        index_values(x) == index_values(y),
    ensures
        x == y,
{
    assert(x.len() == index_values(x).len());
    assert(y.len() == index_values(y).len());
    assert forall|k: int| 0 <= k < x.len() implies x[k] == y[k] by {
        assert(index_values(x)[k] == x[k].value());
        assert(index_values(y)[k] == y[k].value());
        N::lemma_value_injective(x[k], y[k]);
    }
    assert(x =~= y);
}

/// Law: a mesh's conversions agree: the index buffer made by copying the
/// mesh (`to_triangulation`), the one made by moving it
/// (`into_triangulation`) and `triangle_indices` are the same buffer, over
/// the mesh's points.
pub proof fn law_conversions_agree<N: IndexType>(
    r: RawIntTriangulation,
    copied: IntTriangulation<N>,
    moved: IntTriangulation<N>,
    indices: Seq<N>,
)
    requires
        copied.points@ == r.points@,
        index_values(copied.indices@) == vertex_index_seq(r.triangles@),
        moved.points@ == r.points@,
        index_values(moved.indices@) == vertex_index_seq(r.triangles@),
        index_values(indices) == vertex_index_seq(r.triangles@),
    ensures
        copied.points@ == moved.points@,
        copied.indices@ == indices,
        moved.indices@ == indices,
{
    lemma_index_values_injective(copied.indices@, indices);
    lemma_index_values_injective(moved.indices@, indices);
}

} // verus!
