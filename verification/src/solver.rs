//! Triangulation of contours, shapes and lists of shapes taken as valid:
//! outer contours counter-clockwise, holes clockwise, no self
//! intersections, lone points strictly inside.
use crate::binder::{group_by_shapes, groups_total, on_shape_boundary, paths_nonempty};
use crate::geom::IntPoint;
use crate::monotone::{lemma_shape_size, shape_size, MonotoneTriangulator};
use crate::triangulation::RawIntTriangulation;
use crate::triangulator::{
    auto_solver, output_points_options, overlay_source_contour, overlay_source_shape, overlay_source_shapes, OverlayEngine, OverlaySolver,
    FillRuleKind, Validation, all_safe, check_shape_safe, shape_safe,
};
use crate::split::contour_safe;
use crate::uniform_mesh::{check_shapes_safe, shapes_safe};
use crate::vertex::{
    contour_vertices, lemma_sweep_points_empty, shape_vertices, steiner_vertices, sweep_points, ChainVertex,
};
use vstd::prelude::*;

verus! {

/// Triangulates a contour.
pub struct ContourSolver;

/// Triangulates a shape: an outer contour and its holes.
pub struct ShapeSolver;

/// Triangulates a list of shapes.
pub struct ShapesSolver;

/// The number of points of the first `k` shapes.
pub open spec fn shapes_size(shapes: Seq<Vec<Vec<IntPoint>>>, k: int) -> int
    decreases k,
{
    if k <= 0 {
        0
    } else {
        shapes_size(shapes, k - 1) + shape_size(shapes[k - 1]@, shapes[k - 1]@.len() as int)
    }
}

/// Every contour of the shape has at least two points.
pub open spec fn shape_ready(shape: Seq<Vec<IntPoint>>) -> bool {
    forall|i: int| 0 <= i < shape.len() ==> (#[trigger] shape[i])@.len() >= 2
}

/// A shape with a contour has vertices.
proof fn lemma_shape_vertices_nonempty(shape: Seq<Vec<IntPoint>>)
    requires
        shape_ready(shape),
        shape.len() > 0,
    ensures
        shape_vertices(shape, shape.len() as int).len() > 0,
        shape_vertices(shape, shape.len() as int) != Seq::<ChainVertex>::empty(),
{
    let last = shape[shape.len() - 1]@;
    assert(last.len() >= 2);
    assert(shape_vertices(shape, shape.len() as int) == shape_vertices(shape, shape.len() - 1) + contour_vertices(
        last,
    ));
    assert(contour_vertices(last).len() == last.len());
}

impl ContourSolver {
    /// The linked triangulation of the contour; none for fewer than three
    /// points.
    pub fn uncheck_triangulate(contour: &Vec<IntPoint>) -> (r: RawIntTriangulation)
        ensures
            r.wf(),
            r.points@.len() <= contour@.len(),
            contour@.len() < 3 ==> r.triangles@.len() == 0 && r.points@.len() == 0,
            contour@.len() >= 3 ==> sweep_points(contour_vertices(contour@), r.points@),
    {
        if contour.len() < 3 {
            RawIntTriangulation::empty()
        } else {
            let mut raw = RawIntTriangulation::empty();
            let mut triangulator = MonotoneTriangulator::default();
            triangulator.contour_into_net_triangulation(contour, None, &mut raw);
            proof {
                let vs = triangulator.vertices@;
                assert(contour_vertices(contour@) + MonotoneTriangulator::lone_vertices(None) =~= contour_vertices(
                    contour@,
                ));
                assert(raw.points@ == crate::vertex::distinct_points(vs, vs.len() as int));
            }
            raw
        }
    }

    /// The linked triangulation of the contour with the lone points
    /// inside it; none for fewer than three contour points.
    pub fn uncheck_triangulate_with_steiner_points(contour: &Vec<IntPoint>, points: &Vec<IntPoint>) -> (r:
        RawIntTriangulation)
        ensures
            r.wf(),
            r.points@.len() <= contour@.len() + points@.len(),
            contour@.len() < 3 ==> r.triangles@.len() == 0 && r.points@.len() == 0,
            contour@.len() >= 3 ==> sweep_points(contour_vertices(contour@) + steiner_vertices(points@), r.points@),
    {
        if contour.len() < 3 {
            RawIntTriangulation::empty()
        } else {
            let mut raw = RawIntTriangulation::empty();
            let mut triangulator = MonotoneTriangulator::default();
            triangulator.contour_into_net_triangulation(contour, Some(points), &mut raw);
            proof {
                let vs = triangulator.vertices@;
                assert(raw.points@ == crate::vertex::distinct_points(vs, vs.len() as int));
            }
            raw
        }
    }
}

impl ShapeSolver {
    /// The linked triangulation of the shape.
    pub fn uncheck_triangulate(shape: &Vec<Vec<IntPoint>>) -> (r: RawIntTriangulation)
        requires
            shape_ready(shape@),
        ensures
            r.wf(),
            r.points@.len() <= shape_size(shape@, shape@.len() as int),
            sweep_points(shape_vertices(shape@, shape@.len() as int), r.points@),
    {
        let mut raw = RawIntTriangulation::empty();
        let mut triangulator = MonotoneTriangulator::default();
        triangulator.shape_into_net_triangulation(shape, None, &mut raw);
        proof {
            if shape@.len() == 0 {
                assert(shape_vertices(shape@, 0) + MonotoneTriangulator::lone_vertices(None) =~= Seq::<
                    ChainVertex,
                >::empty());
                assert(raw.points@ =~= Seq::<IntPoint>::empty());
                lemma_sweep_points_empty();
            } else {
                lemma_shape_vertices_nonempty(shape@);
                let input = shape_vertices(shape@, shape@.len() as int);
                assert(input + MonotoneTriangulator::lone_vertices(None) =~= input);
                let vs = triangulator.vertices@;
                assert(raw.points@ == crate::vertex::distinct_points(vs, vs.len() as int));
            }
        }
        raw
    }

    /// The linked triangulation of the shape with the lone points inside
    /// it; a shape of one contour is triangulated as that contour, and an
    /// empty one gives nothing.
    pub fn uncheck_triangulate_with_steiner_points(shape: &Vec<Vec<IntPoint>>, points: &Vec<IntPoint>) -> (r:
        RawIntTriangulation)
        requires
            shape_ready(shape@),
        ensures
            r.wf(),
            r.points@.len() <= shape_size(shape@, shape@.len() as int) + points@.len(),
            shape@.len() > 1 || shape@.len() == 1 && shape@[0]@.len() >= 3 ==> sweep_points(
                shape_vertices(shape@, shape@.len() as int) + steiner_vertices(points@),
                r.points@,
            ),
    {
        if shape.len() <= 1 {
            if shape.len() == 1 {
                proof {
                    reveal_with_fuel(shape_size, 2);
                    assert(shape_vertices(shape@, 0) =~= Seq::<ChainVertex>::empty());
                    assert(shape_vertices(shape@, 1) =~= contour_vertices(shape@[0]@));
                }
                return ContourSolver::uncheck_triangulate_with_steiner_points(&shape[0], points);
            }
            return RawIntTriangulation::empty();
        }
        let mut raw = RawIntTriangulation::empty();
        let mut triangulator = MonotoneTriangulator::default();
        triangulator.shape_into_net_triangulation(shape, Some(points), &mut raw);
        proof {
            lemma_shape_vertices_nonempty(shape@);
            let input = shape_vertices(shape@, shape@.len() as int) + steiner_vertices(points@);
            assert(input.len() > 0);
            assert(input != Seq::<ChainVertex>::empty());
            let vs = triangulator.vertices@;
            assert(raw.points@ == crate::vertex::distinct_points(vs, vs.len() as int));
        }
        raw
    }
}

/// The point lists `parts` one after another, the first `k` of them.
pub open spec fn joined_points(parts: Seq<Seq<IntPoint>>, k: int) -> Seq<IntPoint>
    decreases k,
{
    if k <= 0 {
        Seq::empty()
    } else {
        joined_points(parts, k - 1) + parts[k - 1]
    }
}

/// The views of a list of point groups.
pub open spec fn group_views(groups: Seq<Vec<IntPoint>>) -> Seq<Seq<IntPoint>> {
    Seq::new(groups.len(), |i: int| groups[i]@)
}

/// No lone points for any of `n` shapes.
pub open spec fn no_groups(n: int) -> Seq<Seq<IntPoint>> {
    Seq::new(n as nat, |i: int| Seq::<IntPoint>::empty())
}

/// `part` holds the points of a sweep over the shape with its lone points.
#[verifier::opaque]
pub open spec fn shape_part(shape: Seq<Vec<IntPoint>>, group: Seq<IntPoint>, part: Seq<IntPoint>) -> bool {
    sweep_points(shape_vertices(shape, shape.len() as int) + steiner_vertices(group), part)
}

proof fn lemma_shape_part(shape: Seq<Vec<IntPoint>>, group: Seq<IntPoint>, part: Seq<IntPoint>)
    requires
        sweep_points(shape_vertices(shape, shape.len() as int) + steiner_vertices(group), part),
    ensures
        shape_part(shape, group, part),
{
    reveal(shape_part);
}

proof fn lemma_shape_part_alone(shape: Seq<Vec<IntPoint>>, part: Seq<IntPoint>)
    requires
        sweep_points(shape_vertices(shape, shape.len() as int), part),
    ensures
        shape_part(shape, Seq::empty(), part),
{
    let input = shape_vertices(shape, shape.len() as int);
    assert(input + steiner_vertices(Seq::<IntPoint>::empty()) =~= input);
    reveal(shape_part);
}

/// `points` are the points of a sweep over each shape, with its group of
/// lone points, one shape after another.
pub open spec fn joined_sweep_points(
    shapes: Seq<Vec<Vec<IntPoint>>>,
    groups: Seq<Seq<IntPoint>>,
    points: Seq<IntPoint>,
) -> bool {
    exists|parts: Seq<Seq<IntPoint>>|
        {
            &&& parts.len() == shapes.len()
            &&& forall|i: int| 0 <= i < shapes.len() ==> shape_part(shapes[i]@, groups[i], #[trigger] parts[i])
            &&& points == joined_points(parts, shapes.len() as int)
        }
}

/// `points` are, shape after shape, the points of a sweep over each shape
/// with a group of the lone points: groups of points off the boundary of
/// their shape, drawn from `lone`.
pub open spec fn grouped_sweep_points(
    shapes: Seq<Vec<Vec<IntPoint>>>,
    lone: Seq<IntPoint>,
    points: Seq<IntPoint>,
) -> bool {
    exists|groups: Seq<Vec<IntPoint>>|
        {
            &&& groups.len() == shapes.len()
            &&& forall|g: int, k: int|
                0 <= g < groups.len() && 0 <= k < groups[g]@.len() ==> lone.contains(#[trigger] groups[g]@[k])
                    && !on_shape_boundary(shapes[g]@, groups[g]@[k])
            &&& joined_sweep_points(shapes, group_views(groups), points)
        }
}

proof fn lemma_grouped_witness(
    shapes: Seq<Vec<Vec<IntPoint>>>,
    lone: Seq<IntPoint>,
    groups: Seq<Vec<IntPoint>>,
    points: Seq<IntPoint>,
)
    requires
        groups.len() == shapes.len(),
        forall|g: int, k: int|
            0 <= g < groups.len() && 0 <= k < groups[g]@.len() ==> lone.contains(#[trigger] groups[g]@[k]),
        forall|g: int, k: int|
            0 <= g < groups.len() && 0 <= k < groups[g]@.len() ==> !on_shape_boundary(shapes[g]@, #[trigger] groups[g]@[k]),
        joined_sweep_points(shapes, group_views(groups), points),
    ensures
        grouped_sweep_points(shapes, lone, points),
{
}

/// Every vertex of the triangles addresses one of the points.
pub open spec fn mesh_ok(triangles: Seq<crate::geom::IntTriangle>, points: Seq<IntPoint>) -> bool {
    forall|t: int, k: int|
        0 <= t < triangles.len() && 0 <= k < 3 ==> (#[trigger] triangles[t].vertices[k]).index < points.len()
}

/// Appends a shifted triangulation, keeping the joined one sound.
fn append_shifted(
    triangles: &mut Vec<crate::geom::IntTriangle>,
    points: &mut Vec<IntPoint>,
    raw: RawIntTriangulation,
)
    requires
        mesh_ok(old(triangles)@, old(points)@),
        raw.wf(),
        old(points)@.len() + raw.points@.len() <= usize::MAX,
    ensures
        mesh_ok(final(triangles)@, final(points)@),
        final(points)@ == old(points)@ + raw.points@,
{
    let mut raw = raw;
    let points_offset = points.len();
    let triangle_offset = triangles.len();
    proof {
        assert forall|t: int, k: int|
            0 <= t < raw.triangles@.len() && 0 <= k < 3 implies (#[trigger] raw.triangles@[t].vertices[k]).index
            + points_offset <= usize::MAX by {
            assert(raw.triangles@[t].vertices[k].index < raw.points@.len());
        }
    }
    let ghost before = raw;
    raw.shift(points_offset, triangle_offset);
    let ghost t0 = triangles@;
    let ghost p0 = points@;
    let ghost moved_triangles = raw.triangles@;
    let ghost moved_points = raw.points@;
    triangles.append(&mut raw.triangles);
    points.append(&mut raw.points);
    proof {
        assert(points@ =~= p0 + before.points@);
        assert forall|t: int, k: int|
            0 <= t < triangles@.len() && 0 <= k < 3 implies (#[trigger] triangles@[t].vertices[k]).index
            < points@.len() by {
            if t < t0.len() {
                assert(triangles@[t] == t0[t]);
                assert(t0[t].vertices[k].index < p0.len());
            } else {
                let u = t - t0.len();
                assert(triangles@[t] == moved_triangles[u]);
                assert(before.triangles@[u].vertices[k].index < before.points@.len());
            }
        }
    }
}

impl ShapesSolver {
    /// The linked triangulations of the shapes, joined: each one's points
    /// follow those of the shapes before it.
    pub fn uncheck_triangulate(shapes: &Vec<Vec<Vec<IntPoint>>>) -> (r: RawIntTriangulation)
        requires
            forall|i: int| 0 <= i < shapes@.len() ==> shape_ready(#[trigger] shapes@[i]@),
            shapes_size(shapes@, shapes@.len() as int) <= usize::MAX,
        ensures
            r.wf(),
            joined_sweep_points(shapes@, no_groups(shapes@.len() as int), r.points@),
    {
        let ghost none = no_groups(shapes@.len() as int);
        if shapes.len() <= 1 {
            if shapes.len() == 1 {
                proof {
                    assert(shape_ready(shapes@[0]@));
                }
                let r = ShapeSolver::uncheck_triangulate(&shapes[0]);
                proof {
                    let parts = seq![r.points@];
                    lemma_shape_part_alone(shapes@[0]@, r.points@);
                    assert(none[0] == Seq::<IntPoint>::empty());
                    assert(joined_points(parts, 0) =~= Seq::<IntPoint>::empty());
                    assert(r.points@ =~= joined_points(parts, 1));
                    assert(forall|j: int| 0 <= j < 1 ==> shape_part(shapes@[j]@, none[j], #[trigger] parts[j]));
                    lemma_joined_witness(shapes@, none, parts, r.points@);
                }
                return r;
            }
            let r = RawIntTriangulation::empty();
            proof {
                let parts = Seq::<Seq<IntPoint>>::empty();
                assert(r.points@ =~= joined_points(parts, 0));
                lemma_joined_witness(shapes@, none, parts, r.points@);
            }
            return r;
        }
        let mut triangles: Vec<crate::geom::IntTriangle> = Vec::new();
        let mut points: Vec<IntPoint> = Vec::new();
        let ghost mut parts: Seq<Seq<IntPoint>> = Seq::empty();
        let mut i: usize = 0;
        while i < shapes.len()
            invariant
                i <= shapes@.len(),
                forall|j: int| 0 <= j < shapes@.len() ==> shape_ready(#[trigger] shapes@[j]@),
                shapes_size(shapes@, shapes@.len() as int) <= usize::MAX,
                mesh_ok(triangles@, points@),
                points@.len() <= shapes_size(shapes@, i as int),
                none == no_groups(shapes@.len() as int),
                parts.len() == i,
                forall|j: int| 0 <= j < i ==> shape_part(shapes@[j]@, none[j], #[trigger] parts[j]),
                points@ == joined_points(parts, i as int),
            decreases shapes@.len() - i,
        {
            proof {
                assert(shape_ready(shapes@[i as int]@));
                lemma_shape_size(shapes@[i as int]@, shapes@[i as int]@.len() as int);
                lemma_shapes_size_grows(shapes@, i + 1, shapes@.len() as int);
            }
            let raw = ShapeSolver::uncheck_triangulate(&shapes[i]);
            let ghost before = points@;
            let ghost part = raw.points@;
            append_shifted(&mut triangles, &mut points, raw);
            proof {
                lemma_shape_part_alone(shapes@[i as int]@, part);
                assert(none[i as int] == Seq::<IntPoint>::empty());
                let old_parts = parts;
                parts = parts.push(part);
                lemma_joined_prefix(old_parts, parts, i as int);
                assert forall|j: int| 0 <= j < i + 1 implies shape_part(shapes@[j]@, none[j], #[trigger] parts[j]) by {
                    if j < i {
                        assert(parts[j] == old_parts[j]);
                    }
                }
            }
            i += 1;
        }
        let r = RawIntTriangulation::new(triangles, points);
        proof {
            assert(r.points@ == joined_points(parts, shapes@.len() as int));
            lemma_joined_witness(shapes@, none, parts, r.points@);
        }
        r
    }
}

impl ShapesSolver {
    /// The linked triangulations of the shapes, each with its group of
    /// lone points, joined as `uncheck_triangulate` joins them.
    #[verifier::spinoff_prover]
    #[verifier::rlimit(30)]
    pub fn uncheck_triangulate_with_steiner_points(
        shapes: &Vec<Vec<Vec<IntPoint>>>,
        groups: &Vec<Vec<IntPoint>>,
    ) -> (r: RawIntTriangulation)
        requires
            forall|i: int| 0 <= i < shapes@.len() ==> shape_ready(#[trigger] shapes@[i]@),
            groups@.len() >= shapes@.len(),
            shapes_size(shapes@, shapes@.len() as int) + groups_total(groups@, shapes@.len() as int)
                <= usize::MAX,
        ensures
            r.wf(),
            shapes@.len() != 1 || shapes@[0]@.len() > 1 || shapes@[0]@.len() == 1 && shapes@[0]@[0]@.len() >= 3
                ==> joined_sweep_points(shapes@, group_views(groups@), r.points@),
    {
        let ghost views = group_views(groups@);
        if shapes.len() <= 1 {
            if shapes.len() == 1 {
                proof {
                    assert(shape_ready(shapes@[0]@));
                }
                let r = ShapeSolver::uncheck_triangulate_with_steiner_points(&shapes[0], &groups[0]);
                proof {
                    if shapes@[0]@.len() > 1 || shapes@[0]@.len() == 1 && shapes@[0]@[0]@.len() >= 3 {
                        let parts = seq![r.points@];
                        assert(views[0] == groups@[0]@);
                        lemma_shape_part(shapes@[0]@, views[0], r.points@);
                        assert(joined_points(parts, 0) =~= Seq::<IntPoint>::empty());
                        assert(r.points@ =~= joined_points(parts, 1));
                        lemma_joined_witness(shapes@, views, parts, r.points@);
                    }
                }
                return r;
            }
            let r = RawIntTriangulation::empty();
            proof {
                let parts = Seq::<Seq<IntPoint>>::empty();
                assert(r.points@ =~= joined_points(parts, 0));
                lemma_joined_witness(shapes@, views, parts, r.points@);
            }
            return r;
        }
        let mut triangles: Vec<crate::geom::IntTriangle> = Vec::new();
        let mut points: Vec<IntPoint> = Vec::new();
        let mut triangulator = MonotoneTriangulator::default();
        let ghost mut parts: Seq<Seq<IntPoint>> = Seq::empty();
        let mut i: usize = 0;
        while i < shapes.len()
            invariant
                i <= shapes@.len(),
                groups@.len() >= shapes@.len(),
                forall|j: int| 0 <= j < shapes@.len() ==> shape_ready(#[trigger] shapes@[j]@),
                shapes_size(shapes@, shapes@.len() as int) + groups_total(groups@, shapes@.len() as int)
                    <= usize::MAX,
                mesh_ok(triangles@, points@),
                points@.len() <= shapes_size(shapes@, i as int) + groups_total(groups@, i as int),
                views == group_views(groups@),
                parts.len() == i,
                forall|j: int| 0 <= j < i ==> shape_part(shapes@[j]@, views[j], #[trigger] parts[j]),
                points@ == joined_points(parts, i as int),
            decreases shapes@.len() - i,
        {
            proof {
                assert(shape_ready(shapes@[i as int]@));
                lemma_shape_size(shapes@[i as int]@, shapes@[i as int]@.len() as int);
                lemma_shapes_size_grows(shapes@, i + 1, shapes@.len() as int);
                lemma_groups_total_grows(groups@, i + 1, shapes@.len() as int);
            }
            let mut raw = RawIntTriangulation::empty();
            triangulator.shape_into_net_triangulation(&shapes[i], Some(&groups[i]), &mut raw);
            let ghost part = raw.points@;
            proof {
                let shape = shapes@[i as int]@;
                let input = shape_vertices(shape, shape.len() as int) + steiner_vertices(groups@[i as int]@);
                assert(MonotoneTriangulator::lone_vertices(Some(&groups[i as int])) == steiner_vertices(
                    groups@[i as int]@,
                ));
                if input == Seq::<ChainVertex>::empty() {
                    assert(part =~= Seq::<IntPoint>::empty());
                    lemma_sweep_points_empty();
                } else {
                    let vs = triangulator.vertices@;
                    assert(part == crate::vertex::distinct_points(vs, vs.len() as int));
                }
                assert(views[i as int] == groups@[i as int]@);
                lemma_shape_part(shape, views[i as int], part);
            }
            append_shifted(&mut triangles, &mut points, raw);
            proof {
                let old_parts = parts;
                parts = parts.push(part);
                lemma_joined_prefix(old_parts, parts, i as int);
                assert forall|j: int| 0 <= j < i + 1 implies shape_part(shapes@[j]@, views[j], #[trigger] parts[j]) by {
                    if j < i {
                        assert(parts[j] == old_parts[j]);
                    }
                }
            }
            i += 1;
        }
        let r = RawIntTriangulation::new(triangles, points);
        proof {
            lemma_joined_witness(shapes@, views, parts, r.points@);
        }
        r
    }
}

proof fn lemma_joined_witness(
    shapes: Seq<Vec<Vec<IntPoint>>>,
    groups: Seq<Seq<IntPoint>>,
    parts: Seq<Seq<IntPoint>>,
    points: Seq<IntPoint>,
)
    requires
        parts.len() == shapes.len(),
        forall|i: int| 0 <= i < shapes.len() ==> shape_part(shapes[i]@, groups[i], #[trigger] parts[i]),
        points == joined_points(parts, shapes.len() as int),
    ensures
        joined_sweep_points(shapes, groups, points),
{
}

proof fn lemma_joined_prefix(a: Seq<Seq<IntPoint>>, b: Seq<Seq<IntPoint>>, n: int)
    requires
        0 <= n <= a.len(),
        n <= b.len(),
        forall|i: int| 0 <= i < n ==> a[i] == b[i],
    ensures
        joined_points(a, n) == joined_points(b, n),
    decreases n,
{
    if n > 0 {
        lemma_joined_prefix(a, b, n - 1);
    }
}

proof fn lemma_groups_total_grows(groups: Seq<Vec<IntPoint>>, k: int, n: int)
    requires
        0 <= k <= n <= groups.len(),
    ensures
        groups_total(groups, k) <= groups_total(groups, n),
    decreases n - k,
{
    if k < n {
        lemma_groups_total_grows(groups, k, n - 1);
    }
}

/// Every path of a ready shape has a point.
proof fn lemma_ready_paths(shapes: Seq<Vec<Vec<IntPoint>>>)
    requires
        forall|i: int| 0 <= i < shapes.len() ==> shape_ready(#[trigger] shapes[i]@),
    ensures
        paths_nonempty(shapes),
{
    assert forall|i: int, j: int| 0 <= i < shapes.len() && 0 <= j < shapes[i]@.len() implies (
    #[trigger] shapes[i]@[j])@.len() >= 1 by {
        assert(shape_ready(shapes[i]@));
    }
}

proof fn lemma_shapes_size_grows(shapes: Seq<Vec<Vec<IntPoint>>>, k: int, n: int)
    requires
        0 <= k <= n <= shapes.len(),
        forall|j: int| 0 <= j < shapes.len() ==> shape_ready(#[trigger] shapes[j]@),
    ensures
        shapes_size(shapes, k) <= shapes_size(shapes, n),
    decreases n - k,
{
    if k < n {
        lemma_shapes_size_grows(shapes, k, n - 1);
        assert(shape_ready(shapes[n - 1]@));
        lemma_shape_size(shapes[n - 1]@, shapes[n - 1]@.len() as int);
    }
}

/// Triangulation of geometry taken as valid, skipping every check.
pub trait IntUncheckedTriangulatable: Sized {
    /// Every contour has at least two points.
    spec fn unchecked_ready(&self) -> bool;

    /// The number of points of the geometry.
    spec fn unchecked_size(&self) -> int;

    /// The linked triangulation, without simplifying the geometry.
    fn uncheck_triangulate(&self) -> (r: RawIntTriangulation)
        requires
            self.unchecked_ready(),
        ensures
            r.wf(),
    ;

    /// The linked triangulation with lone points inside the geometry.
    fn uncheck_triangulate_with_steiner_points(&self, points: &Vec<IntPoint>) -> (r: RawIntTriangulation)
        requires
            self.unchecked_ready(),
            self.unchecked_size() + points@.len() <= usize::MAX,
        ensures
            r.wf(),
    ;
}

impl IntUncheckedTriangulatable for Vec<IntPoint> {
    open spec fn unchecked_ready(&self) -> bool {
        true
    }

    open spec fn unchecked_size(&self) -> int {
        self@.len() as int
    }

    fn uncheck_triangulate(&self) -> (r: RawIntTriangulation)
        ensures
            r.points@.len() <= self@.len(),
            self@.len() < 3 ==> r.triangles@.len() == 0 && r.points@.len() == 0,
            self@.len() >= 3 ==> sweep_points(contour_vertices(self@), r.points@),
    {
        ContourSolver::uncheck_triangulate(self)
    }

    fn uncheck_triangulate_with_steiner_points(&self, points: &Vec<IntPoint>) -> (r: RawIntTriangulation)
        ensures
            self@.len() < 3 ==> r.triangles@.len() == 0 && r.points@.len() == 0,
            self@.len() >= 3 ==> sweep_points(contour_vertices(self@) + steiner_vertices(points@), r.points@),
    {
        ContourSolver::uncheck_triangulate_with_steiner_points(self, points)
    }
}

impl IntUncheckedTriangulatable for Vec<Vec<Vec<IntPoint>>> {
    open spec fn unchecked_ready(&self) -> bool {
        &&& forall|i: int| 0 <= i < self@.len() ==> shape_ready(#[trigger] self@[i]@)
        &&& shapes_size(self@, self@.len() as int) <= usize::MAX
    }

    open spec fn unchecked_size(&self) -> int {
        shapes_size(self@, self@.len() as int)
    }

    fn uncheck_triangulate(&self) -> (r: RawIntTriangulation)
        ensures
            joined_sweep_points(self@, no_groups(self@.len() as int), r.points@),
    {
        ShapesSolver::uncheck_triangulate(self)
    }

    /// Each lone point goes to the shape that holds it.
    fn uncheck_triangulate_with_steiner_points(&self, points: &Vec<IntPoint>) -> (r: RawIntTriangulation)
        ensures
            self@.len() != 1 || self@[0]@.len() > 1 || self@[0]@.len() == 1 && self@[0]@[0]@.len() >= 3
                ==> grouped_sweep_points(self@, points@, r.points@),
    {
        proof {
            lemma_ready_paths(self@);
        }
        let groups = group_by_shapes(self, points);
        proof {
            lemma_groups_total_grows(groups@, self@.len() as int, groups@.len() as int);
        }
        let r = ShapesSolver::uncheck_triangulate_with_steiner_points(self, &groups);
        proof {
            if self@.len() != 1 || self@[0]@.len() > 1 || self@[0]@.len() == 1 && self@[0]@[0]@.len() >= 3 {
                lemma_grouped_witness(self@, points@, groups@, r.points@);
            }
        }
        r
    }
}

impl IntUncheckedTriangulatable for Vec<Vec<IntPoint>> {
    open spec fn unchecked_ready(&self) -> bool {
        shape_ready(self@)
    }

    open spec fn unchecked_size(&self) -> int {
        shape_size(self@, self@.len() as int)
    }

    fn uncheck_triangulate(&self) -> (r: RawIntTriangulation)
        ensures
            sweep_points(shape_vertices(self@, self@.len() as int), r.points@),
    {
        ShapeSolver::uncheck_triangulate(self)
    }

    fn uncheck_triangulate_with_steiner_points(&self, points: &Vec<IntPoint>) -> (r: RawIntTriangulation)
        ensures
            self@.len() > 1 || self@.len() == 1 && self@[0]@.len() >= 3 ==> sweep_points(
                shape_vertices(self@, self@.len() as int) + steiner_vertices(points@),
                r.points@,
            ),
    {
        ShapeSolver::uncheck_triangulate_with_steiner_points(self, points)
    }
}

/// Every contour of every shape has at least two points, and all their
/// points, with `extra` more, can be counted.
pub open spec fn shapes_ready(shapes: Seq<Vec<Vec<IntPoint>>>, extra: int) -> bool {
    &&& forall|i: int| 0 <= i < shapes.len() ==> shape_ready(#[trigger] shapes[i]@)
    &&& shapes_size(shapes, shapes.len() as int) + extra <= usize::MAX
}

/// Whether every contour of every shape has at least two points and all
/// their points, with `extra` more, can be counted.
fn check_shapes_ready(shapes: &Vec<Vec<Vec<IntPoint>>>, extra: usize) -> (r: bool)
    ensures
        r == shapes_ready(shapes@, extra as int),
{
    let mut total: usize = extra;
    let mut i: usize = 0;
    while i < shapes.len()
        invariant
            i <= shapes@.len(),
            total == shapes_size(shapes@, i as int) + extra,
            forall|j: int| 0 <= j < i ==> shape_ready(#[trigger] shapes@[j]@),
        decreases shapes@.len() - i,
    {
        let shape = &shapes[i];
        let mut k: usize = 0;
        let mut size: usize = 0;
        while k < shape.len()
            invariant
                i < shapes@.len(),
                *shape == shapes@[i as int],
                total == shapes_size(shapes@, i as int) + extra,
                k <= shape@.len(),
                size == shape_size(shape@, k as int),
                size <= usize::MAX - total,
                forall|j: int| 0 <= j < k ==> (#[trigger] shape@[j])@.len() >= 2,
            decreases shape@.len() - k,
        {
            let n = shape[k].len();
            if n < 2 {
                proof {
                    assert(shape@[k as int]@.len() < 2);
                    assert(!shape_ready(shapes@[i as int]@));
                }
                return false;
            }
            if n > usize::MAX - total - size {
                proof {
                    lemma_shape_size_grows(shape@, k + 1, shape@.len() as int);
                    assert(shapes_size(shapes@, i + 1) == shapes_size(shapes@, i as int) + shape_size(
                        shapes@[i as int]@,
                        shapes@[i as int]@.len() as int,
                    ));
                    lemma_shapes_size_monotone(shapes@, i + 1, shapes@.len() as int);
                }
                return false;
            }
            size += n;
            k += 1;
        }
        total += size;
        i += 1;
    }
    proof {
        assert forall|j: int| 0 <= j < shapes@.len() implies shape_ready(#[trigger] shapes@[j]@) by {}
    }
    true
}

/// The number of points of a contour list, saturating.
pub(crate) fn points_count(shape: &Vec<Vec<IntPoint>>) -> (r: usize)
    ensures
        r == if shape_size(shape@, shape@.len() as int) <= usize::MAX {
            shape_size(shape@, shape@.len() as int)
        } else {
            usize::MAX as int
        },
{
    let mut total: usize = 0;
    let mut k: usize = 0;
    while k < shape.len()
        invariant
            k <= shape@.len(),
            total == if shape_size(shape@, k as int) <= usize::MAX {
                shape_size(shape@, k as int)
            } else {
                usize::MAX as int
            },
        decreases shape@.len() - k,
    {
        let n = shape[k].len();
        proof {
            lemma_shape_size_grows(shape@, k as int, k + 1);
        }
        total = if n > usize::MAX - total {
            usize::MAX
        } else {
            total + n
        };
        k += 1;
    }
    total
}

proof fn lemma_shape_size_grows(shape: Seq<Vec<IntPoint>>, k: int, n: int)
    requires
        0 <= k <= n,
    ensures
        shape_size(shape, k) <= shape_size(shape, n),
    decreases n - k,
{
    if k < n {
        lemma_shape_size_grows(shape, k, n - 1);
    }
}

proof fn lemma_shape_size_nonneg(shape: Seq<Vec<IntPoint>>, k: int)
    ensures
        shape_size(shape, k) >= 0,
{
    if k > 0 {
        lemma_shape_size_grows(shape, 0, k);
    }
}

proof fn lemma_shapes_size_monotone(shapes: Seq<Vec<Vec<IntPoint>>>, k: int, n: int)
    requires
        0 <= k <= n,
    ensures
        shapes_size(shapes, k) <= shapes_size(shapes, n),
    decreases n - k,
{
    if k < n {
        lemma_shapes_size_monotone(shapes, k, n - 1);
        lemma_shape_size_nonneg(shapes[n - 1]@, shapes[n - 1]@.len() as int);
    }
}

/// What triangulating shapes that simplification gave yields: when they
/// are ready, the points of a sweep over each in turn; otherwise nothing.
pub open spec fn simplified_raw(shapes: Seq<Vec<Vec<IntPoint>>>, r: RawIntTriangulation) -> bool {
    &&& r.wf()
    &&& shapes_ready(shapes, 0) ==> joined_sweep_points(shapes, no_groups(shapes.len() as int), r.points@)
    &&& !shapes_ready(shapes, 0) ==> r.points@.len() == 0 && r.triangles@.len() == 0
}

/// What triangulating shapes that simplification gave yields with lone
/// points: when they are ready, the points of a sweep over each shape
/// with the points it holds (for one shape of one contour of fewer than
/// three points, nothing is stated); otherwise nothing.
pub open spec fn simplified_raw_with_points(
    shapes: Seq<Vec<Vec<IntPoint>>>,
    points: Seq<IntPoint>,
    r: RawIntTriangulation,
) -> bool {
    &&& r.wf()
    &&& shapes_ready(shapes, points.len() as int) && (shapes.len() != 1 || shapes[0]@.len() > 1 || shapes[0]@.len()
        == 1 && shapes[0]@[0]@.len() >= 3) ==> grouped_sweep_points(shapes, points, r.points@)
    &&& !shapes_ready(shapes, points.len() as int) ==> r.points@.len() == 0 && r.triangles@.len() == 0
}

/// Triangulates simplified shapes, when they are ready; an empty
/// triangulation otherwise.
pub fn triangulate_simplified(shapes: &Vec<Vec<Vec<IntPoint>>>) -> (r: RawIntTriangulation)
    ensures
        simplified_raw(shapes@, r),
{
    if check_shapes_ready(shapes, 0) {
        ShapesSolver::uncheck_triangulate(shapes)
    } else {
        RawIntTriangulation::empty()
    }
}

/// Triangulates simplified shapes with lone points, each given to the
/// shape that holds it, when they are ready; an empty triangulation
/// otherwise.
pub fn triangulate_simplified_with_points(shapes: &Vec<Vec<Vec<IntPoint>>>, points: &Vec<IntPoint>) -> (r:
    RawIntTriangulation)
    ensures
        simplified_raw_with_points(shapes@, points@, r),
{
    if check_shapes_ready(shapes, points.len()) {
        shapes.uncheck_triangulate_with_steiner_points(points)
    } else {
        RawIntTriangulation::empty()
    }
}

impl ContourSolver {
    /// Simplifies the contour by the validation, then triangulates what it
    /// covers.
    pub fn triangulate(validation: Validation, contour: &Vec<IntPoint>) -> (r: RawIntTriangulation)
        ensures
            r.wf(),
            contour_safe(contour@) ==> simplified_raw(overlay_source_contour(contour@, validation.fill_rule, (validation.options, auto_solver())), r),
            !contour_safe(contour@) ==> r.points@.len() == 0 && r.triangles@.len() == 0,
    {
        if !all_safe(contour) {
            return RawIntTriangulation::empty();
        }
        let mut overlay = OverlayEngine::new_custom(contour.len(), validation.options, OverlaySolver::auto());
        let shapes = overlay.simplify_contour_source(contour, validation.fill_rule);
        triangulate_simplified(&shapes)
    }

    /// Simplifies the contour by the validation, then triangulates what it
    /// covers with the lone points inside it.
    pub fn triangulate_with_steiner_points(validation: Validation, contour: &Vec<IntPoint>, points: &Vec<IntPoint>) -> (r:
        RawIntTriangulation)
        ensures
            r.wf(),
            contour_safe(contour@) ==> simplified_raw_with_points(
                overlay_source_contour(contour@, validation.fill_rule, (validation.options, auto_solver())),
                points@,
                r,
            ),
            !contour_safe(contour@) ==> r.points@.len() == 0 && r.triangles@.len() == 0,
    {
        if !all_safe(contour) {
            return RawIntTriangulation::empty();
        }
        let mut overlay = OverlayEngine::new_custom(contour.len(), validation.options, OverlaySolver::auto());
        let shapes = overlay.simplify_contour_source(contour, validation.fill_rule);
        triangulate_simplified_with_points(&shapes, points)
    }
}

impl ShapeSolver {
    /// Simplifies the shape by the validation, then triangulates what it
    /// covers.
    pub fn triangulate(validation: Validation, shape: &Vec<Vec<IntPoint>>) -> (r: RawIntTriangulation)
        ensures
            r.wf(),
            shape_safe(shape@) ==> simplified_raw(overlay_source_shape(shape@, validation.fill_rule, (validation.options, auto_solver())), r),
            !shape_safe(shape@) ==> r.points@.len() == 0 && r.triangles@.len() == 0,
    {
        if !check_shape_safe(shape) {
            return RawIntTriangulation::empty();
        }
        let mut overlay = OverlayEngine::new_custom(points_count(shape), validation.options, OverlaySolver::auto());
        let shapes = overlay.simplify_shape_source(shape, validation.fill_rule);
        triangulate_simplified(&shapes)
    }

    /// Simplifies the shape by the validation, then triangulates what it
    /// covers with the lone points inside it.
    pub fn triangulate_with_steiner_points(validation: Validation, shape: &Vec<Vec<IntPoint>>, points: &Vec<IntPoint>) -> (r:
        RawIntTriangulation)
        ensures
            r.wf(),
            shape_safe(shape@) ==> simplified_raw_with_points(
                overlay_source_shape(shape@, validation.fill_rule, (validation.options, auto_solver())),
                points@,
                r,
            ),
            !shape_safe(shape@) ==> r.points@.len() == 0 && r.triangles@.len() == 0,
    {
        if !check_shape_safe(shape) {
            return RawIntTriangulation::empty();
        }
        let mut overlay = OverlayEngine::new_custom(points_count(shape), validation.options, OverlaySolver::auto());
        let shapes = overlay.simplify_shape_source(shape, validation.fill_rule);
        triangulate_simplified_with_points(&shapes, points)
    }
}

impl ShapesSolver {
    /// Simplifies the union of the shapes by the validation, then
    /// triangulates what it covers.
    pub fn triangulate(validation: Validation, shapes: &Vec<Vec<Vec<IntPoint>>>) -> (r: RawIntTriangulation)
        ensures
            r.wf(),
            shapes_safe(shapes@) ==> simplified_raw(overlay_source_shapes(shapes@, validation.fill_rule, (validation.options, auto_solver())), r),
            !shapes_safe(shapes@) ==> r.points@.len() == 0 && r.triangles@.len() == 0,
    {
        if !check_shapes_safe(shapes) {
            return RawIntTriangulation::empty();
        }
        let mut capacity: usize = 0;
        let mut i: usize = 0;
        while i < shapes.len()
            invariant
                i <= shapes@.len(),
            decreases shapes@.len() - i,
        {
            let n = points_count(&shapes[i]);
            capacity = if n > usize::MAX - capacity {
                usize::MAX
            } else {
                capacity + n
            };
            i += 1;
        }
        let mut overlay = OverlayEngine::new_custom(capacity, validation.options, OverlaySolver::auto());
        let simple = overlay.simplify_shapes_source(shapes, validation.fill_rule);
        triangulate_simplified(&simple)
    }

    /// Simplifies the union of the shapes by the validation, then
    /// triangulates what it covers with the lone points, each given to the
    /// shape that holds it.
    pub fn triangulate_with_steiner_points(
        validation: Validation,
        shapes: &Vec<Vec<Vec<IntPoint>>>,
        points: &Vec<IntPoint>,
    ) -> (r: RawIntTriangulation)
        ensures
            r.wf(),
            shapes_safe(shapes@) ==> simplified_raw_with_points(
                overlay_source_shapes(shapes@, validation.fill_rule, (validation.options, auto_solver())),
                points@,
                r,
            ),
            !shapes_safe(shapes@) ==> r.points@.len() == 0 && r.triangles@.len() == 0,
    {
        if !check_shapes_safe(shapes) {
            return RawIntTriangulation::empty();
        }
        let mut capacity: usize = 0;
        let mut i: usize = 0;
        while i < shapes.len()
            invariant
                i <= shapes@.len(),
            decreases shapes@.len() - i,
        {
            let n = points_count(&shapes[i]);
            capacity = if n > usize::MAX - capacity {
                usize::MAX
            } else {
                capacity + n
            };
            i += 1;
        }
        let mut overlay = OverlayEngine::new_custom(capacity, validation.options, OverlaySolver::auto());
        let simple = overlay.simplify_shapes_source(shapes, validation.fill_rule);
        triangulate_simplified_with_points(&simple, points)
    }
}

/// Triangulation with simplification by the default validation: the
/// non-zero fill rule, keeping the output's collinear points, outer
/// contours counter-clockwise and holes clockwise.
pub trait IntTriangulatable {
    /// Simplifies the geometry, then triangulates what it covers. Should
    /// simplification give a contour of fewer than two points, or more
    /// points than can be counted, the triangulation is empty.
    fn triangulate(&self) -> (r: RawIntTriangulation)
        ensures
            r.wf(),
    ;

    /// Simplifies the geometry, then triangulates what it covers with the
    /// lone points inside it, as `triangulate` does.
    fn triangulate_with_steiner_points(&self, points: &Vec<IntPoint>) -> (r: RawIntTriangulation)
        ensures
            r.wf(),
    ;
}

impl IntTriangulatable for Vec<IntPoint> {
    fn triangulate(&self) -> (r: RawIntTriangulation)
        ensures
            r.wf(),
            contour_safe(self@) ==> simplified_raw(overlay_source_contour(self@, FillRuleKind::NonZero, (output_points_options(), auto_solver())), r),
            !contour_safe(self@) ==> r.points@.len() == 0 && r.triangles@.len() == 0,
    {
        ContourSolver::triangulate(Validation::default(), self)
    }

    fn triangulate_with_steiner_points(&self, points: &Vec<IntPoint>) -> (r: RawIntTriangulation)
        ensures
            r.wf(),
            contour_safe(self@) ==> simplified_raw_with_points(
                overlay_source_contour(self@, FillRuleKind::NonZero, (output_points_options(), auto_solver())),
                points@,
                r,
            ),
            !contour_safe(self@) ==> r.points@.len() == 0 && r.triangles@.len() == 0,
    {
        ContourSolver::triangulate_with_steiner_points(Validation::default(), self, points)
    }
}

impl IntTriangulatable for Vec<Vec<IntPoint>> {
    fn triangulate(&self) -> (r: RawIntTriangulation)
        ensures
            r.wf(),
            shape_safe(self@) ==> simplified_raw(overlay_source_shape(self@, FillRuleKind::NonZero, (output_points_options(), auto_solver())), r),
            !shape_safe(self@) ==> r.points@.len() == 0 && r.triangles@.len() == 0,
    {
        ShapeSolver::triangulate(Validation::default(), self)
    }

    fn triangulate_with_steiner_points(&self, points: &Vec<IntPoint>) -> (r: RawIntTriangulation)
        ensures
            r.wf(),
            shape_safe(self@) ==> simplified_raw_with_points(
                overlay_source_shape(self@, FillRuleKind::NonZero, (output_points_options(), auto_solver())),
                points@,
                r,
            ),
            !shape_safe(self@) ==> r.points@.len() == 0 && r.triangles@.len() == 0,
    {
        ShapeSolver::triangulate_with_steiner_points(Validation::default(), self, points)
    }
}

impl IntTriangulatable for Vec<Vec<Vec<IntPoint>>> {
    fn triangulate(&self) -> (r: RawIntTriangulation)
        ensures
            r.wf(),
            shapes_safe(self@) ==> simplified_raw(overlay_source_shapes(self@, FillRuleKind::NonZero, (output_points_options(), auto_solver())), r),
            !shapes_safe(self@) ==> r.points@.len() == 0 && r.triangles@.len() == 0,
    {
        ShapesSolver::triangulate(Validation::default(), self)
    }

    fn triangulate_with_steiner_points(&self, points: &Vec<IntPoint>) -> (r: RawIntTriangulation)
        ensures
            r.wf(),
            shapes_safe(self@) ==> simplified_raw_with_points(
                overlay_source_shapes(self@, FillRuleKind::NonZero, (output_points_options(), auto_solver())),
                points@,
                r,
            ),
            !shapes_safe(self@) ==> r.points@.len() == 0 && r.triangles@.len() == 0,
    {
        ShapesSolver::triangulate_with_steiner_points(Validation::default(), self, points)
    }
}

/// Triangulation with a chosen fill rule and output options: the geometry is
/// simplified under `validation`, then triangulated as `IntTriangulatable`
/// does.
pub trait IntCustomTriangulatable {
    /// Simplifies the geometry under `validation`, then triangulates it.
    fn custom_triangulate(&self, validation: Validation) -> (r: RawIntTriangulation)
        ensures
            r.wf(),
    ;

    /// Simplifies the geometry under `validation`, then triangulates it with
    /// the lone points inside it.
    fn custom_triangulate_with_steiner_points(&self, points: &Vec<IntPoint>, validation: Validation) -> (r:
        RawIntTriangulation)
        ensures
            r.wf(),
    ;
}

impl IntCustomTriangulatable for Vec<IntPoint> {
    fn custom_triangulate(&self, validation: Validation) -> (r: RawIntTriangulation)
        ensures
            r.wf(),
            contour_safe(self@) ==> simplified_raw(overlay_source_contour(self@, validation.fill_rule, (validation.options, auto_solver())), r),
            !contour_safe(self@) ==> r.points@.len() == 0 && r.triangles@.len() == 0,
    {
        ContourSolver::triangulate(validation, self)
    }

    fn custom_triangulate_with_steiner_points(&self, points: &Vec<IntPoint>, validation: Validation) -> (r:
        RawIntTriangulation)
        ensures
            r.wf(),
            contour_safe(self@) ==> simplified_raw_with_points(
                overlay_source_contour(self@, validation.fill_rule, (validation.options, auto_solver())),
                points@,
                r,
            ),
            !contour_safe(self@) ==> r.points@.len() == 0 && r.triangles@.len() == 0,
    {
        ContourSolver::triangulate_with_steiner_points(validation, self, points)
    }
}

impl IntCustomTriangulatable for Vec<Vec<IntPoint>> {
    fn custom_triangulate(&self, validation: Validation) -> (r: RawIntTriangulation)
        ensures
            r.wf(),
            shape_safe(self@) ==> simplified_raw(overlay_source_shape(self@, validation.fill_rule, (validation.options, auto_solver())), r),
            !shape_safe(self@) ==> r.points@.len() == 0 && r.triangles@.len() == 0,
    {
        ShapeSolver::triangulate(validation, self)
    }

    fn custom_triangulate_with_steiner_points(&self, points: &Vec<IntPoint>, validation: Validation) -> (r:
        RawIntTriangulation)
        ensures
            r.wf(),
            shape_safe(self@) ==> simplified_raw_with_points(
                overlay_source_shape(self@, validation.fill_rule, (validation.options, auto_solver())),
                points@,
                r,
            ),
            !shape_safe(self@) ==> r.points@.len() == 0 && r.triangles@.len() == 0,
    {
        ShapeSolver::triangulate_with_steiner_points(validation, self, points)
    }
}

impl IntCustomTriangulatable for Vec<Vec<Vec<IntPoint>>> {
    fn custom_triangulate(&self, validation: Validation) -> (r: RawIntTriangulation)
        ensures
            r.wf(),
            shapes_safe(self@) ==> simplified_raw(overlay_source_shapes(self@, validation.fill_rule, (validation.options, auto_solver())), r),
            !shapes_safe(self@) ==> r.points@.len() == 0 && r.triangles@.len() == 0,
    {
        ShapesSolver::triangulate(validation, self)
    }

    fn custom_triangulate_with_steiner_points(&self, points: &Vec<IntPoint>, validation: Validation) -> (r:
        RawIntTriangulation)
        ensures
            r.wf(),
            shapes_safe(self@) ==> simplified_raw_with_points(
                overlay_source_shapes(self@, validation.fill_rule, (validation.options, auto_solver())),
                points@,
                r,
            ),
            !shapes_safe(self@) ==> r.points@.len() == 0 && r.triangles@.len() == 0,
    {
        ShapesSolver::triangulate_with_steiner_points(validation, self, points)
    }
}

} // verus!
