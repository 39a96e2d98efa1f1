//! Meshes of evenly spread points: the boundary edges are split to a
//! length, the geometry is simplified keeping every point, and the inside
//! is filled with a triangular lattice of that spacing before the sweep
//! triangulates it.
use crate::geom::IntPoint;
use crate::solver::{points_count, simplified_raw_with_points, triangulate_simplified_with_points};
use crate::split::{contour_safe, sliced_contour, SliceContour};
use crate::triangulation::RawIntTriangulation;
use crate::triangulator::{
    all_safe, auto_solver, check_shape_safe, overlay_source_contour, shape_safe, overlay_source_shape, overlay_source_shapes, ContourDirection, FillRuleKind,
    OverlayEngine, OverlayOptions, OverlaySolver,
};
use crate::uniform::{
    contours_points, grid_candidates, shapes_containment, shapes_edges, shapes_points, uniform_result, IntUniformGrid,
};
use vstd::prelude::*;

verus! {

/// Options that keep every point, the collinear ones of the input and of
/// the output.
pub open spec fn all_points_options() -> OverlayOptions {
    OverlayOptions {
        preserve_input_collinear: true,
        output_direction: ContourDirection::CounterClockwise,
        preserve_output_collinear: true,
        min_output_area: 0,
        ogc: false,
    }
}

/// Options that keep every point, the collinear ones of the input and of
/// the output.
pub fn keep_all_points() -> (r: OverlayOptions)
    ensures
        r == all_points_options(),
{
    OverlayOptions {
        preserve_input_collinear: true,
        output_direction: ContourDirection::CounterClockwise,
        preserve_output_collinear: true,
        min_output_area: 0,
        ogc: false,
    }
}

/// A length that both splits the boundary and spaces the lattice: greater
/// than one and within the coordinate budget.
pub open spec fn uniform_length(edge_length: u64) -> bool {
    1 < edge_length <= 0xFFFF_FFFF
}

/// Every point of the shapes is in the safe range.
pub open spec fn shapes_safe(shapes: Seq<Vec<Vec<IntPoint>>>) -> bool {
    forall|i: int, j: int, k: int|
        0 <= i < shapes.len() && 0 <= j < shapes[i]@.len() && 0 <= k < shapes[i]@[j]@.len()
            ==> (#[trigger] shapes[i]@[j]@[k]).is_safe()
}

/// The lattice points for `edge_length` that lie inside the shapes, away
/// from their edges.
pub open spec fn lattice(shapes: Seq<Vec<Vec<IntPoint>>>, edge_length: u64) -> Seq<IntPoint> {
    let points = shapes_points(shapes);
    uniform_result(
        points,
        shapes_edges(shapes),
        edge_length as int,
        shapes_containment(shapes, grid_candidates(points, edge_length as int)),
    )
}

/// The mesh of simplified shapes for a length: when their points are in
/// the safe range, their triangulation with the lattice inside them as
/// lone points; otherwise nothing.
pub open spec fn uniform_mesh(shapes: Seq<Vec<Vec<IntPoint>>>, edge_length: u64, r: RawIntTriangulation) -> bool {
    &&& shapes_safe(shapes) ==> simplified_raw_with_points(shapes, lattice(shapes, edge_length), r)
    &&& !shapes_safe(shapes) ==> r.points@.len() == 0 && r.triangles@.len() == 0
}

proof fn lemma_contours_points_safe(cs: Seq<Vec<IntPoint>>)
    requires
        forall|j: int, k: int| 0 <= j < cs.len() && 0 <= k < cs[j]@.len() ==> (#[trigger] cs[j]@[k]).is_safe(),
    ensures
        forall|k: int| 0 <= k < contours_points(cs).len() ==> (#[trigger] contours_points(cs)[k]).is_safe(),
    decreases cs.len(),
{
    if cs.len() > 0 {
        let init = cs.drop_last();
        assert forall|j: int, k: int| 0 <= j < init.len() && 0 <= k < init[j]@.len() implies (#[trigger] init[j]@[k]).is_safe() by {
            assert(init[j] == cs[j]);
        }
        lemma_contours_points_safe(init);
        let head = contours_points(init);
        let last = cs.last()@;
        assert forall|k: int| 0 <= k < contours_points(cs).len() implies (#[trigger] contours_points(cs)[k]).is_safe() by {
            if k < head.len() {
                assert(contours_points(cs)[k] == head[k]);
            } else {
                assert(contours_points(cs)[k] == last[k - head.len()]);
                assert(cs[cs.len() - 1]@[k - head.len()].is_safe());
            }
        }
    }
}

proof fn lemma_shapes_points_safe(ss: Seq<Vec<Vec<IntPoint>>>)
    requires
        shapes_safe(ss),
    ensures
        forall|k: int| 0 <= k < shapes_points(ss).len() ==> (#[trigger] shapes_points(ss)[k]).is_safe(),
    decreases ss.len(),
{
    if ss.len() > 0 {
        let init = ss.drop_last();
        assert(shapes_safe(init)) by {
            assert forall|i: int, j: int, k: int|
                0 <= i < init.len() && 0 <= j < init[i]@.len() && 0 <= k < init[i]@[j]@.len() implies (
            #[trigger] init[i]@[j]@[k]).is_safe() by {
                assert(init[i] == ss[i]);
            }
        }
        lemma_shapes_points_safe(init);
        let last = ss.last()@;
        assert forall|j: int, k: int| 0 <= j < last.len() && 0 <= k < last[j]@.len() implies (#[trigger] last[j]@[k]).is_safe() by {
            assert(ss[ss.len() - 1]@[j]@[k].is_safe());
        }
        lemma_contours_points_safe(last);
        let head = shapes_points(init);
        let tail = contours_points(last);
        assert forall|k: int| 0 <= k < shapes_points(ss).len() implies (#[trigger] shapes_points(ss)[k]).is_safe() by {
            if k < head.len() {
                assert(shapes_points(ss)[k] == head[k]);
            } else {
                assert(shapes_points(ss)[k] == tail[k - head.len()]);
            }
        }
    }
}

/// Whether every point of the shapes is in the safe range.
pub fn check_shapes_safe(shapes: &Vec<Vec<Vec<IntPoint>>>) -> (r: bool)
    ensures
        r == shapes_safe(shapes@),
{
    let mut i: usize = 0;
    while i < shapes.len()
        invariant
            i <= shapes@.len(),
            forall|a: int, j: int, k: int|
                0 <= a < i && 0 <= j < shapes@[a]@.len() && 0 <= k < shapes@[a]@[j]@.len()
                    ==> (#[trigger] shapes@[a]@[j]@[k]).is_safe(),
        decreases shapes@.len() - i,
    {
        let shape = &shapes[i];
        let mut j: usize = 0;
        while j < shape.len()
            invariant
                i < shapes@.len(),
                *shape == shapes@[i as int],
                j <= shape@.len(),
                forall|b: int, k: int|
                    0 <= b < j && 0 <= k < shape@[b]@.len() ==> (#[trigger] shape@[b]@[k]).is_safe(),
            decreases shape@.len() - j,
        {
            let contour = &shape[j];
            let mut k: usize = 0;
            while k < contour.len()
                invariant
                    i < shapes@.len(),
                    *shape == shapes@[i as int],
                    j < shape@.len(),
                    *contour == shape@[j as int],
                    k <= contour@.len(),
                    forall|c: int| 0 <= c < k ==> (#[trigger] contour@[c]).is_safe(),
                decreases contour@.len() - k,
            {
                if !contour[k].is_in_safe_range() {
                    proof {
                        assert(!shapes@[i as int]@[j as int]@[k as int].is_safe());
                    }
                    return false;
                }
                k += 1;
            }
            j += 1;
        }
        i += 1;
    }
    true
}

/// Triangulates simplified shapes with the lattice for `edge_length`
/// inside them; an empty mesh where a point is out of the safe range.
pub fn build_uniform(shapes: Vec<Vec<Vec<IntPoint>>>, edge_length: u64) -> (r: RawIntTriangulation)
    requires
        uniform_length(edge_length),
    ensures
        uniform_mesh(shapes@, edge_length, r),
{
    if !check_shapes_safe(&shapes) {
        return RawIntTriangulation::empty();
    }
    proof {
        lemma_shapes_points_safe(shapes@);
    }
    let grid = shapes.uniform_grid(edge_length);
    let r = triangulate_simplified_with_points(&shapes, &grid);
    proof {
        assert(grid@ == lattice(shapes@, edge_length));
    }
    r
}

/// A mesh of evenly spread points over the geometry: its edges split to
/// at most `edge_length`, the geometry simplified by the non-zero rule
/// keeping every point, and a lattice of that spacing inside it. The mesh
/// is the sweep's; it is not turned into a Delaunay mesh here.
pub trait IntUniformTriangulatable: SliceContour {
    fn uniform_triangulate(&self, edge_length: u64) -> (r: RawIntTriangulation)
        requires
            self.slice_ready(),
            uniform_length(edge_length),
        ensures
            r.wf(),
    ;
}

impl IntUniformTriangulatable for Vec<IntPoint> {
    fn uniform_triangulate(&self, edge_length: u64) -> (r: RawIntTriangulation)
        ensures
            contour_safe(sliced_contour(self@, edge_length)) ==> uniform_mesh(
                overlay_source_contour(
                    sliced_contour(self@, edge_length),
                    FillRuleKind::NonZero,
                    (all_points_options(), auto_solver()),
                ),
                edge_length,
                r,
            ),
            !contour_safe(sliced_contour(self@, edge_length)) ==> r.points@.len() == 0 && r.triangles@.len() == 0,
    {
        let sliced = self.slice_contour(edge_length);
        if !all_safe(&sliced) {
            return RawIntTriangulation::empty();
        }
        let mut overlay = OverlayEngine::new_custom(sliced.len(), keep_all_points(), OverlaySolver::auto());
        let shapes = overlay.simplify_contour_source(&sliced, FillRuleKind::NonZero);
        build_uniform(shapes, edge_length)
    }
}

impl IntUniformTriangulatable for Vec<Vec<IntPoint>> {
    fn uniform_triangulate(&self, edge_length: u64) -> (r: RawIntTriangulation)
        ensures
            exists|sliced: Vec<Vec<IntPoint>>|
                #![trigger self.is_slice_of(edge_length, sliced)]
                {
                    &&& self.is_slice_of(edge_length, sliced)
                    &&& shape_safe(sliced@) ==> uniform_mesh(
                        overlay_source_shape(sliced@, FillRuleKind::NonZero, (all_points_options(), auto_solver())),
                        edge_length,
                        r,
                    )
                    &&& !shape_safe(sliced@) ==> r.points@.len() == 0 && r.triangles@.len() == 0
                },
    {
        let sliced = self.slice_contour(edge_length);
        if !check_shape_safe(&sliced) {
            return RawIntTriangulation::empty();
        }
        let mut overlay = OverlayEngine::new_custom(points_count(&sliced), keep_all_points(), OverlaySolver::auto());
        let shapes = overlay.simplify_shape_source(&sliced, FillRuleKind::NonZero);
        let r = build_uniform(shapes, edge_length);
        proof {
            assert(self.is_slice_of(edge_length, sliced));
        }
        r
    }
}

impl IntUniformTriangulatable for Vec<Vec<Vec<IntPoint>>> {
    fn uniform_triangulate(&self, edge_length: u64) -> (r: RawIntTriangulation)
        ensures
            exists|sliced: Vec<Vec<Vec<IntPoint>>>|
                #![trigger self.is_slice_of(edge_length, sliced)]
                {
                    &&& self.is_slice_of(edge_length, sliced)
                    &&& shapes_safe(sliced@) ==> uniform_mesh(
                        overlay_source_shapes(sliced@, FillRuleKind::NonZero, (all_points_options(), auto_solver())),
                        edge_length,
                        r,
                    )
                    &&& !shapes_safe(sliced@) ==> r.points@.len() == 0 && r.triangles@.len() == 0
                },
    {
        let sliced = self.slice_contour(edge_length);
        if !check_shapes_safe(&sliced) {
            return RawIntTriangulation::empty();
        }
        let mut capacity: usize = 0;
        let mut i: usize = 0;
        while i < sliced.len()
            invariant
                i <= sliced@.len(),
            decreases sliced@.len() - i,
        {
            let n = points_count(&sliced[i]);
            capacity = if n > usize::MAX - capacity {
                usize::MAX
            } else {
                capacity + n
            };
            i += 1;
        }
        let mut overlay = OverlayEngine::new_custom(capacity, keep_all_points(), OverlaySolver::auto());
        let shapes = overlay.simplify_shapes_source(&sliced, FillRuleKind::NonZero);
        let r = build_uniform(shapes, edge_length);
        proof {
            assert(self.is_slice_of(edge_length, sliced));
        }
        r
    }
}

} // verus!
