//! Triangle and vertex counts of a triangulation before it is built.
use crate::geom::IntPoint;
use vstd::prelude::*;

verus! {

/// Sizes of the mesh that a triangulation will produce.
pub struct MeshMeta {
    pub triangles_count: usize,
    pub vertices_count: usize,
}

/// Sum, over the first `k` contours, of `len - 2`.
pub open spec fn contours_triangles(shape: Seq<Vec<IntPoint>>, k: nat) -> int
    decreases k,
{
    if k == 0 {
        0
    } else {
        contours_triangles(shape, (k - 1) as nat) + shape[k - 1]@.len() - 2
    }
}

/// Sum of the lengths of the first `k` contours.
pub open spec fn contours_points(shape: Seq<Vec<IntPoint>>, k: nat) -> int
    decreases k,
{
    if k == 0 {
        0
    } else {
        contours_points(shape, (k - 1) as nat) + shape[k - 1]@.len()
    }
}

/// Triangles of a triangulated contour with `points_count` inner points.
pub fn contour_triangles_count(contour: &Vec<IntPoint>, points_count: usize) -> (r: usize)
    requires
        contour@.len() >= 2,
        contour@.len() - 2 + 2 * points_count <= usize::MAX,
    ensures
        r == contour@.len() - 2 + 2 * points_count,
{
    contour.len() - 2 + 2 * points_count
}

/// Triangles of a triangulated shape (contours with holes) with
/// `points_count` inner points.
pub fn shape_triangles_count(shape: &Vec<Vec<IntPoint>>, points_count: usize) -> (r: usize)
    requires
        forall|i: int| 0 <= i < shape@.len() ==> #[trigger] shape@[i]@.len() >= 2,
        forall|k: nat|
            k <= shape@.len() ==> 0 <= 2 * points_count + #[trigger] contours_triangles(shape@, k)
                <= usize::MAX,
    ensures
        r == 2 * points_count + contours_triangles(shape@, shape@.len()),
{
    proof {
        assert(0 <= 2 * points_count + contours_triangles(shape@, 0) <= usize::MAX);
    }
    let mut count = 2 * points_count;
    let mut i: usize = 0;
    while i < shape.len()
        invariant
            i <= shape@.len(),
            count == 2 * points_count + contours_triangles(shape@, i as nat),
            forall|i: int| 0 <= i < shape@.len() ==> #[trigger] shape@[i]@.len() >= 2,
            forall|k: nat|
                k <= shape@.len() ==> 0 <= 2 * points_count + #[trigger] contours_triangles(shape@, k)
                    <= usize::MAX,
        decreases shape@.len() - i,
    {
        proof {
            assert(shape@[i as int]@.len() >= 2);
            assert(0 <= 2 * points_count + contours_triangles(shape@, (i + 1) as nat) <= usize::MAX);
        }
        count = count + (shape[i].len() - 2);
        i += 1;
    }
    count
}

/// Sizes of the mesh of a contour with `points_count` inner points.
pub fn contour_meta(contour: &Vec<IntPoint>, points_count: usize) -> (r: MeshMeta)
    requires
        contour@.len() >= 2,
        contour@.len() + 2 * points_count <= usize::MAX,
    ensures
        r.triangles_count == contour@.len() - 2 + 2 * points_count,
        r.vertices_count == contour@.len() + points_count,
{
    MeshMeta {
        triangles_count: contour_triangles_count(contour, points_count),
        vertices_count: contour.len() + points_count,
    }
}

/// Sizes of the mesh of a shape with `points_count` inner points.
pub fn shape_meta(shape: &Vec<Vec<IntPoint>>, points_count: usize) -> (r: MeshMeta)
    requires
        forall|i: int| 0 <= i < shape@.len() ==> #[trigger] shape@[i]@.len() >= 2,
        forall|k: nat|
            k <= shape@.len() ==> 2 * points_count + #[trigger] contours_points(shape@, k) <= usize::MAX,
    ensures
        r.triangles_count == 2 * points_count + contours_triangles(shape@, shape@.len()),
        r.vertices_count == points_count + contours_points(shape@, shape@.len()),
{
    proof {
        assert(2 * points_count + contours_points(shape@, 0) <= usize::MAX);
    }
    let mut triangles_count = 2 * points_count;
    let mut vertices_count = points_count;
    let mut i: usize = 0;
    while i < shape.len()
        invariant
            i <= shape@.len(),
            triangles_count == 2 * points_count + contours_triangles(shape@, i as nat),
            vertices_count == points_count + contours_points(shape@, i as nat),
            forall|i: int| 0 <= i < shape@.len() ==> #[trigger] shape@[i]@.len() >= 2,
            forall|k: nat|
                k <= shape@.len() ==> 2 * points_count + #[trigger] contours_points(shape@, k) <= usize::MAX,
        decreases shape@.len() - i,
    {
        proof {
            assert(shape@[i as int]@.len() >= 2);
            assert(2 * points_count + contours_points(shape@, (i + 1) as nat) <= usize::MAX);
            lemma_triangles_below_points(shape@, i as nat);
        }
        let len = shape[i].len();
        triangles_count = triangles_count + (len - 2);
        vertices_count = vertices_count + len;
        i += 1;
    }
    MeshMeta { triangles_count, vertices_count }
}

proof fn lemma_triangles_below_points(shape: Seq<Vec<IntPoint>>, k: nat)
    requires
        k <= shape.len(),
        forall|i: int| 0 <= i < shape.len() ==> #[trigger] shape[i]@.len() >= 2,
    ensures
        0 <= contours_triangles(shape, k) <= contours_points(shape, k),
    decreases k,
{
    if k > 0 {
        lemma_triangles_below_points(shape, (k - 1) as nat);
        assert(shape[k - 1]@.len() >= 2);
    }
}

} // verus!
