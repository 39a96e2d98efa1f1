//! A reusable triangulator: simplifies the geometry with i_overlay, then
//! triangulates it by ear clipping (small contours) or by a sweep line.
use crate::earcut::{clipped_or_stalled, first_vertex_fan, flat_triples, one_fan, triples_positive, Earcut64};
use crate::geom::IntPoint;
use crate::index::IndexType;
use crate::monotone::{shape_size, MonotoneTriangulator};
use crate::solver::{joined_points, shape_ready};
use crate::split::contour_safe;
use crate::uniform_mesh::{check_shapes_safe, shapes_safe};
use crate::vertex::{contour_vertices, lemma_sweep_points_empty, shape_vertices, sweep_points, ChainVertex};
use crate::triangulation::{IntTriangulation, RawIntTriangulation};
use i_overlay::i_float::int::point::IntPoint as OutsidePoint;
use vstd::prelude::*;

verus! {

#[verifier::external_type_specification]
#[verifier::external_body]
pub struct ExFillRule(i_overlay::core::fill_rule::FillRule);

#[verifier::external_type_specification]
#[verifier::external_body]
pub struct ExSolver(i_overlay::core::solver::Solver);

/// Which areas a contour covers: those it winds around an odd number of
/// times, a non-zero number of times, or positively or negatively.
#[derive(Clone, Copy, Debug, PartialEq, Eq, Structural)]
pub enum FillRuleKind {
    EvenOdd,
    NonZero,
    Positive,
    Negative,
}

/// i_overlay's `FillRule` with the variant of the same name. Nothing is
/// stated of it: Verus does not see inside i_overlay's values, and the
/// names of what simplification gives take the rule as `FillRuleKind`.
#[verifier::external_body]
fn outside_fill_rule(fill_rule: FillRuleKind) -> (r: i_overlay::core::fill_rule::FillRule) {
    match fill_rule {
        FillRuleKind::EvenOdd => i_overlay::core::fill_rule::FillRule::EvenOdd,
        FillRuleKind::NonZero => i_overlay::core::fill_rule::FillRule::NonZero,
        FillRuleKind::Positive => i_overlay::core::fill_rule::FillRule::Positive,
        FillRuleKind::Negative => i_overlay::core::fill_rule::FillRule::Negative,
    }
}

/// Which way outer contours of a simplified geometry run (holes the other
/// way).
#[derive(Clone, Copy, Debug, PartialEq, Eq, Structural)]
pub enum ContourDirection {
    CounterClockwise,
    Clockwise,
}

/// The overlay options of i_overlay, as plain values.
#[derive(Clone, Copy, Debug, PartialEq, Eq, Structural)]
pub struct OverlayOptions {
    pub preserve_input_collinear: bool,
    pub output_direction: ContourDirection,
    pub preserve_output_collinear: bool,
    pub min_output_area: u64,
    pub ogc: bool,
}

/// Options that keep the collinear points of the output.
pub open spec fn output_points_options() -> OverlayOptions {
    OverlayOptions {
        preserve_input_collinear: false,
        output_direction: ContourDirection::CounterClockwise,
        preserve_output_collinear: true,
        min_output_area: 0,
        ogc: false,
    }
}

impl OverlayOptions {
    /// Options that keep the collinear points of the output.
    pub fn keep_output_points() -> (r: Self)
        ensures
            r == output_points_options(),
    {
        OverlayOptions {
            preserve_input_collinear: false,
            output_direction: ContourDirection::CounterClockwise,
            preserve_output_collinear: true,
            min_output_area: 0,
            ogc: false,
        }
    }
}

/// How i_overlay's solver picks its way of splitting and filling.
#[derive(Clone, Copy, Debug, PartialEq, Eq, Structural)]
pub enum SolverStrategy {
    List,
    Tree,
    Frag,
    Auto,
}

/// i_overlay's solver settings, as plain values: the strategy, the
/// precision's start and progression exponents, and the least count for a
/// parallel sort (`None`: no parallel sort).
#[derive(Clone, Copy, Debug, PartialEq, Eq, Structural)]
pub struct OverlaySolver {
    pub strategy: SolverStrategy,
    pub precision_start: usize,
    pub precision_progression: usize,
    pub par_sort_min_size: Option<usize>,
}

/// i_overlay's default solver: the automatic strategy, high precision.
pub open spec fn auto_solver() -> OverlaySolver {
    OverlaySolver {
        strategy: SolverStrategy::Auto,
        precision_start: 0,
        precision_progression: 1,
        par_sort_min_size: Some(32768),
    }
}

impl OverlaySolver {
    /// i_overlay's default solver: the automatic strategy, high precision.
    pub fn auto() -> (r: Self)
        ensures
            r == auto_solver(),
    {
        OverlaySolver {
            strategy: SolverStrategy::Auto,
            precision_start: 0,
            precision_progression: 1,
            par_sort_min_size: Some(32768),
        }
    }
}

/// i_overlay's `Solver` with these settings. Nothing is stated of it:
/// Verus does not see inside i_overlay's values, and the names of what
/// simplification gives take the settings as `OverlaySolver`.
#[verifier::external_body]
fn outside_solver(solver: OverlaySolver) -> (r: i_overlay::core::solver::Solver) {
    i_overlay::core::solver::Solver {
        strategy: match solver.strategy {
            SolverStrategy::List => i_overlay::core::solver::Strategy::List,
            SolverStrategy::Tree => i_overlay::core::solver::Strategy::Tree,
            SolverStrategy::Frag => i_overlay::core::solver::Strategy::Frag,
            SolverStrategy::Auto => i_overlay::core::solver::Strategy::Auto,
        },
        precision: i_overlay::core::solver::Precision {
            start: solver.precision_start,
            progression: solver.precision_progression,
        },
        multithreading: solver.par_sort_min_size.map(|n| i_overlay::core::solver::MultithreadOptions { par_sort_min_size: n }),
    }
}

/// The shapes that i_overlay's `Overlay::simplify_contour` gives for a
/// contour under a fill rule, on an overlay made with these options and
/// solver settings: `None` when the contour is already simple and
/// oriented.
pub uninterp spec fn overlay_simplified_contour(
    contour: Seq<IntPoint>,
    fill_rule: FillRuleKind,
    config: (OverlayOptions, OverlaySolver),
) -> Option<Vec<Vec<Vec<IntPoint>>>>;

/// The shapes that i_overlay's `Overlay::simplify_shape` gives for a
/// shape, as `overlay_simplified_contour` does for a contour.
pub uninterp spec fn overlay_simplified_shape(
    shape: Seq<Vec<IntPoint>>,
    fill_rule: FillRuleKind,
    config: (OverlayOptions, OverlaySolver),
) -> Option<Vec<Vec<Vec<IntPoint>>>>;

/// The shapes that i_overlay's `Overlay::simplify_shapes` gives for the
/// union of a list of shapes.
pub uninterp spec fn overlay_simplified_shapes(
    shapes: Seq<Vec<Vec<IntPoint>>>,
    fill_rule: FillRuleKind,
    config: (OverlayOptions, OverlaySolver),
) -> Seq<Vec<Vec<IntPoint>>>;

/// The shapes that i_overlay's `Overlay::simplify_source` gives for a
/// contour.
pub uninterp spec fn overlay_source_contour(
    contour: Seq<IntPoint>,
    fill_rule: FillRuleKind,
    config: (OverlayOptions, OverlaySolver),
) -> Seq<Vec<Vec<IntPoint>>>;

/// The shapes that i_overlay's `Overlay::simplify_source` gives for a
/// shape.
pub uninterp spec fn overlay_source_shape(
    shape: Seq<Vec<IntPoint>>,
    fill_rule: FillRuleKind,
    config: (OverlayOptions, OverlaySolver),
) -> Seq<Vec<Vec<IntPoint>>>;

/// The shapes that i_overlay's `Overlay::simplify_source` gives for a list
/// of shapes.
pub uninterp spec fn overlay_source_shapes(
    shapes: Seq<Vec<Vec<IntPoint>>>,
    fill_rule: FillRuleKind,
    config: (OverlayOptions, OverlaySolver),
) -> Seq<Vec<Vec<IntPoint>>>;

/// An i_overlay overlay on `i32` points. Verus cannot declare the
/// overlay's type, whose parameter is bound by an i_overlay trait, so it
/// is held here, out of Verus's sight.
#[verifier::external_body]
pub struct OverlayCore {
    overlay: i_overlay::core::overlay::Overlay<i32>,
}

/// An overlay with the options and solver settings it was made with.
pub struct OverlayEngine {
    core: OverlayCore,
    config: Ghost<(OverlayOptions, OverlaySolver)>,
}

impl View for OverlayEngine {
    type V = (OverlayOptions, OverlaySolver);

    closed spec fn view(&self) -> (OverlayOptions, OverlaySolver) {
        self.config@
    }
}

/// i_overlay's `Overlay::new_custom`: an overlay with room for `capacity`
/// points, the options and the solver. Nothing is stated of it; the
/// engine that holds it records the options and solver settings.
#[verifier::external_body]
fn new_overlay_core(capacity: usize, options: OverlayOptions, solver: i_overlay::core::solver::Solver) -> (r: OverlayCore) {
    let o = i_overlay::core::overlay::IntOverlayOptions {
        preserve_input_collinear: options.preserve_input_collinear,
        output_direction: match options.output_direction {
            ContourDirection::CounterClockwise => i_overlay::core::overlay::ContourDirection::CounterClockwise,
            ContourDirection::Clockwise => i_overlay::core::overlay::ContourDirection::Clockwise,
        },
        preserve_output_collinear: options.preserve_output_collinear,
        min_output_area: options.min_output_area,
        ogc: options.ogc,
    };
    OverlayCore { overlay: i_overlay::core::overlay::Overlay::new_custom(capacity, o, solver) }
}

impl OverlayEngine {
    /// An overlay with room for `capacity` points, the options and the
    /// solver settings.
    pub fn new_custom(capacity: usize, options: OverlayOptions, solver: OverlaySolver) -> (r: Self)
        ensures
            r@ == (options, solver),
    {
        OverlayEngine { core: new_overlay_core(capacity, options, outside_solver(solver)), config: Ghost((options, solver)) }
    }

    /// i_overlay's `Overlay::simplify_contour`, for coordinates in i_overlay's
    /// range (which it does not check): `None` when the contour is
    /// already simple and oriented for the fill rule, else the shapes it
    /// covers. What they are is named, not stated.
    #[verifier::external_body]
    fn simplify_contour(&mut self, contour: &Vec<IntPoint>, fill_rule: FillRuleKind) -> (r: Option<Vec<Vec<Vec<IntPoint>>>>)
        requires
            contour_safe(contour@),
        ensures
            final(self)@ == old(self)@,
            r == overlay_simplified_contour(contour@, fill_rule, old(self)@),
    {
        let path: Vec<OutsidePoint<i32>> = contour.iter().map(|p| OutsidePoint::new(p.x, p.y)).collect();
        self.core.overlay.simplify_contour(&path, outside_fill_rule(fill_rule)).map(
            |r| r.iter().map(|s| s.iter().map(|c| c.iter().map(|p| IntPoint::new(p.x, p.y)).collect()).collect()).collect(),
        )
    }

    /// i_overlay's `Overlay::simplify_shape`, for coordinates in i_overlay's
    /// range: `None` when the shape is one
    /// contour already simple and oriented for the fill rule, else the
    /// shapes it covers. What they are is named, not stated.
    #[verifier::external_body]
    fn simplify_shape(&mut self, shape: &Vec<Vec<IntPoint>>, fill_rule: FillRuleKind) -> (r: Option<Vec<Vec<Vec<IntPoint>>>>)
        requires
            shape_safe(shape@),
        ensures
            final(self)@ == old(self)@,
            r == overlay_simplified_shape(shape@, fill_rule, old(self)@),
    {
        let source: Vec<Vec<OutsidePoint<i32>>> = shape.iter().map(
            |c| c.iter().map(|p| OutsidePoint::new(p.x, p.y)).collect(),
        ).collect();
        self.core.overlay.simplify_shape(&source, outside_fill_rule(fill_rule)).map(
            |r| r.iter().map(|s| s.iter().map(|c| c.iter().map(|p| IntPoint::new(p.x, p.y)).collect()).collect()).collect(),
        )
    }

    /// i_overlay's `Overlay::simplify_shapes`, for coordinates in i_overlay's
    /// range: the shapes the union of the
    /// shapes covers. What they are is named, not stated.
    #[verifier::external_body]
    #[allow(deprecated)]
    fn simplify_shapes(&mut self, shapes: &Vec<Vec<Vec<IntPoint>>>, fill_rule: FillRuleKind) -> (r: Vec<Vec<Vec<IntPoint>>>)
        requires
            shapes_safe(shapes@),
        ensures
            final(self)@ == old(self)@,
            r@ == overlay_simplified_shapes(shapes@, fill_rule, old(self)@),
    {
        let source: Vec<Vec<Vec<OutsidePoint<i32>>>> = shapes.iter().map(
            |s| s.iter().map(|c| c.iter().map(|p| OutsidePoint::new(p.x, p.y)).collect()).collect(),
        ).collect();
        let r = self.core.overlay.simplify_shapes(&source, outside_fill_rule(fill_rule));
        r.iter().map(|s| s.iter().map(|c| c.iter().map(|p| IntPoint::new(p.x, p.y)).collect()).collect()).collect()
    }

    /// i_overlay's `Overlay::simplify_source` on a contour, for coordinates in
    /// i_overlay's range: the shapes the
    /// contour covers by the fill rule (the contour itself when it is
    /// already simple and needs no area filter). What they are is named,
    /// not stated.
    #[verifier::external_body]
    pub(crate) fn simplify_contour_source(&mut self, contour: &Vec<IntPoint>, fill_rule: FillRuleKind) -> (r: Vec<
        Vec<Vec<IntPoint>>,
    >)
        requires
            contour_safe(contour@),
        ensures
            final(self)@ == old(self)@,
            r@ == overlay_source_contour(contour@, fill_rule, old(self)@),
    {
        let path: Vec<OutsidePoint<i32>> = contour.iter().map(|p| OutsidePoint::new(p.x, p.y)).collect();
        let r = self.core.overlay.simplify_source(path.as_slice(), outside_fill_rule(fill_rule));
        r.iter().map(|s| s.iter().map(|c| c.iter().map(|p| IntPoint::new(p.x, p.y)).collect()).collect()).collect()
    }

    /// i_overlay's `Overlay::simplify_source` on a shape, for coordinates in
    /// i_overlay's range: the shapes it
    /// covers by the fill rule. What they are is named, not stated.
    #[verifier::external_body]
    pub(crate) fn simplify_shape_source(&mut self, shape: &Vec<Vec<IntPoint>>, fill_rule: FillRuleKind) -> (r: Vec<
        Vec<Vec<IntPoint>>,
    >)
        requires
            shape_safe(shape@),
        ensures
            final(self)@ == old(self)@,
            r@ == overlay_source_shape(shape@, fill_rule, old(self)@),
    {
        let source: Vec<Vec<OutsidePoint<i32>>> = shape.iter().map(
            |c| c.iter().map(|p| OutsidePoint::new(p.x, p.y)).collect(),
        ).collect();
        let r = self.core.overlay.simplify_source(source.as_slice(), outside_fill_rule(fill_rule));
        r.iter().map(|s| s.iter().map(|c| c.iter().map(|p| IntPoint::new(p.x, p.y)).collect()).collect()).collect()
    }

    /// i_overlay's `Overlay::simplify_source` on a list of shapes, for
    /// coordinates in i_overlay's range: the
    /// shapes their union covers by the fill rule. What they are is named,
    /// not stated.
    #[verifier::external_body]
    pub(crate) fn simplify_shapes_source(&mut self, shapes: &Vec<Vec<Vec<IntPoint>>>, fill_rule: FillRuleKind) -> (r: Vec<
        Vec<Vec<IntPoint>>,
    >)
        requires
            shapes_safe(shapes@),
        ensures
            final(self)@ == old(self)@,
            r@ == overlay_source_shapes(shapes@, fill_rule, old(self)@),
    {
        let source: Vec<Vec<Vec<OutsidePoint<i32>>>> = shapes.iter().map(
            |s| s.iter().map(|c| c.iter().map(|p| OutsidePoint::new(p.x, p.y)).collect()).collect(),
        ).collect();
        let r = self.core.overlay.simplify_source(source.as_slice(), outside_fill_rule(fill_rule));
        r.iter().map(|s| s.iter().map(|c| c.iter().map(|p| IntPoint::new(p.x, p.y)).collect()).collect()).collect()
    }
}

/// How geometry is simplified before triangulation: the fill rule and the
/// overlay options.
#[derive(Clone, Copy)]
pub struct Validation {
    pub fill_rule: FillRuleKind,
    pub options: OverlayOptions,
}

impl Validation {
    /// The fill rule, with options that keep the output's collinear points.
    pub fn with_fill_rule(fill_rule: FillRuleKind) -> (r: Self)
        ensures
            r.fill_rule == fill_rule,
            r.options == output_points_options(),
    {
        Validation { fill_rule, options: OverlayOptions::keep_output_points() }
    }
}

impl Default for Validation {
    /// The non-zero fill rule, keeping the output's collinear points.
    fn default() -> (r: Self)
        ensures
            r.fill_rule == FillRuleKind::NonZero,
            r.options == output_points_options(),
    {
        Validation { fill_rule: FillRuleKind::NonZero, options: OverlayOptions::keep_output_points() }
    }
}

/// The triangulation is whole triangles whose indices address its points.
pub open spec fn flat_ok<N: IndexType>(t: IntTriangulation<N>) -> bool {
    &&& t.indices@.len() % 3 == 0
    &&& forall|k: int| 0 <= k < t.indices@.len() ==> (#[trigger] t.indices@[k]).value() < t.points@.len()
}

/// Contours of at least two points, all in the safe range, and no more
/// points than the index type can address.
pub open spec fn contour_fits<N: IndexType>(contour: Seq<IntPoint>) -> bool {
    &&& contour.len() >= 2
    &&& contour.len() <= N::index_limit()
    &&& forall|k: int| 0 <= k < contour.len() ==> (#[trigger] contour[k]).is_safe()
}

/// Every contour of the shape fits, and so do its points together.
pub open spec fn shape_fits<N: IndexType>(shape: Seq<Vec<IntPoint>>) -> bool {
    &&& forall|i: int| 0 <= i < shape.len() ==> contour_fits::<N>(#[trigger] shape[i]@)
    &&& shape_size(shape, shape.len() as int) <= N::index_limit()
}

/// A flat triangulation filled from a sound linked one is sound.
proof fn lemma_filled_ok<N: IndexType>(t: IntTriangulation<N>, raw: RawIntTriangulation)
    requires
        raw.wf(),
        t.points@ == raw.points@,
        crate::triangulation::index_values(t.indices@) == crate::triangulation::vertex_index_seq(raw.triangles@),
    ensures
        flat_ok(t),
{
    let vs = crate::triangulation::vertex_index_seq(raw.triangles@);
    assert(t.indices@.len() == vs.len());
    assert(t.indices@.len() == 3 * raw.triangles@.len());
    assert forall|k: int| 0 <= k < t.indices@.len() implies (#[trigger] t.indices@[k]).value() < t.points@.len() by {
        assert(crate::triangulation::index_values(t.indices@)[k] == t.indices@[k].value());
        let q = k / 3;
        let r = k % 3;
        assert(0 <= q < raw.triangles@.len() && 0 <= r < 3) by (nonlinear_arith)
            requires
                0 <= k < 3 * raw.triangles@.len(),
                q == k / 3,
                r == k % 3,
        ;
        assert(vs[k] == raw.triangles@[q].vertices[r].index);
    }
}

/// The points of a contour's triangulation: the contour as it is where
/// ear clipping takes it (on, and at most 64 points), else the points of a
/// sweep over its vertices.
pub open spec fn contour_mesh_points(earcut: bool, contour: Seq<IntPoint>, points: Seq<IntPoint>) -> bool {
    if earcut && contour.len() <= 64 {
        points == contour
    } else {
        sweep_points(contour_vertices(contour), points)
    }
}

/// What triangulating shapes that simplification gave yields: when they
/// fit the index type, the points of their triangulation, shape after
/// shape; otherwise nothing.
pub open spec fn simplified_mesh<N: IndexType>(earcut: bool, shapes: Seq<Vec<Vec<IntPoint>>>, t: IntTriangulation<N>) -> bool {
    if shapes_fit::<N>(shapes) {
        shapes_mesh_points(earcut, shapes, t.points@)
    } else {
        t.points@.len() == 0 && t.indices@.len() == 0
    }
}

/// Every point of the shape's contours is in the safe range.
pub open spec fn shape_safe(shape: Seq<Vec<IntPoint>>) -> bool {
    forall|i: int| 0 <= i < shape.len() ==> contour_safe(#[trigger] shape[i]@)
}

/// Whether every point of the shape is in the safe range.
pub fn check_shape_safe(shape: &Vec<Vec<IntPoint>>) -> (r: bool)
    ensures
        r == shape_safe(shape@),
{
    let mut i: usize = 0;
    while i < shape.len()
        invariant
            i <= shape@.len(),
            forall|j: int| 0 <= j < i ==> contour_safe(#[trigger] shape@[j]@),
        decreases shape@.len() - i,
    {
        if !all_safe(&shape[i]) {
            return false;
        }
        i += 1;
    }
    true
}

/// Whether every point is in the safe range.
pub fn all_safe(contour: &Vec<IntPoint>) -> (r: bool)
    ensures
        r == contour_safe(contour@),
{
    let mut k: usize = 0;
    while k < contour.len()
        invariant
            k <= contour@.len(),
            forall|j: int| 0 <= j < k ==> (#[trigger] contour@[j]).is_safe(),
        decreases contour@.len() - k,
    {
        if !contour[k].is_in_safe_range() {
            return false;
        }
        k += 1;
    }
    true
}

/// Whether a shape fits, checked.
fn check_shape_fits<N: IndexType>(shape: &Vec<Vec<IntPoint>>) -> (r: bool)
    ensures
        r == shape_fits::<N>(shape@),
{
    let limit = N::max_index();
    let mut total: usize = 0;
    let mut i: usize = 0;
    while i < shape.len()
        invariant
            i <= shape@.len(),
            limit == N::index_limit(),
            total == shape_size(shape@, i as int),
            total <= limit,
            forall|j: int| 0 <= j < i ==> contour_fits::<N>(#[trigger] shape@[j]@),
        decreases shape@.len() - i,
    {
        let contour = &shape[i];
        if contour.len() < 2 || contour.len() > limit || !all_safe(contour) || contour.len() > limit - total {
            proof {
                if contour_fits::<N>(shape@[i as int]@) {
                    lemma_shape_size_bound(shape@, i + 1, shape@.len() as int);
                }
            }
            return false;
        }
        total += contour.len();
        i += 1;
    }
    true
}

proof fn lemma_shape_size_bound(shape: Seq<Vec<IntPoint>>, k: int, n: int)
    requires
        0 <= k <= n <= shape.len(),
    ensures
        shape_size(shape, k) <= shape_size(shape, n),
    decreases n - k,
{
    if k < n {
        lemma_shape_size_bound(shape, k, n - 1);
    }
}

/// Triangulates contours, shapes and lists of shapes into flat index
/// buffers, reusing its buffers between calls.
pub struct IntTriangulator<N> {
    pub overlay: OverlayEngine,
    pub fill_rule: FillRuleKind,
    pub earcut: bool,
    pub delaunay: bool,
    pub triangulator: MonotoneTriangulator,
    pub shapes_buffer: Option<IntTriangulation<N>>,
    pub raw_buffer: Option<RawIntTriangulation>,
}


/// The points that triangulating a shape gives: the points of its one
/// contour as they are, where ear clipping takes it (on, and at most 64
/// points), else the points of a sweep over its vertices.
#[verifier::opaque]
pub open spec fn mesh_points(earcut: bool, shape: Seq<Vec<IntPoint>>, points: Seq<IntPoint>) -> bool {
    if earcut && shape.len() == 1 && shape[0]@.len() <= 64 {
        points == shape[0]@
    } else {
        sweep_points(shape_vertices(shape, shape.len() as int), points)
    }
}

/// The points that triangulating shapes gives: those of each shape, one
/// shape after another.
pub open spec fn shapes_mesh_points(earcut: bool, shapes: Seq<Vec<Vec<IntPoint>>>, points: Seq<IntPoint>) -> bool {
    exists|parts: Seq<Seq<IntPoint>>|
        {
            &&& parts.len() == shapes.len()
            &&& forall|i: int| 0 <= i < shapes.len() ==> mesh_points(earcut, shapes[i]@, #[trigger] parts[i])
            &&& points == joined_points(parts, shapes.len() as int)
        }
}

proof fn lemma_shapes_mesh_witness(
    earcut: bool,
    shapes: Seq<Vec<Vec<IntPoint>>>,
    parts: Seq<Seq<IntPoint>>,
    points: Seq<IntPoint>,
)
    requires
        parts.len() == shapes.len(),
        forall|i: int| 0 <= i < shapes.len() ==> mesh_points(earcut, shapes[i]@, #[trigger] parts[i]),
        points == joined_points(parts, shapes.len() as int),
    ensures
        shapes_mesh_points(earcut, shapes, points),
{
}

proof fn lemma_joined_points_prefix(a: Seq<Seq<IntPoint>>, b: Seq<Seq<IntPoint>>, n: int)
    requires
        0 <= n <= a.len(),
        n <= b.len(),
        forall|i: int| 0 <= i < n ==> a[i] == b[i],
    ensures
        joined_points(a, n) == joined_points(b, n),
    decreases n,
{
    if n > 0 {
        lemma_joined_points_prefix(a, b, n - 1);
    }
}

/// The points of a contour's triangulation are those of the shape of that
/// one contour.
proof fn lemma_contour_mesh_points(earcut: bool, shape: Seq<Vec<IntPoint>>, points: Seq<IntPoint>)
    requires
        shape.len() == 1,
        earcut && shape[0]@.len() <= 64 ==> points == shape[0]@,
        !(earcut && shape[0]@.len() <= 64) ==> sweep_points(contour_vertices(shape[0]@), points),
    ensures
        mesh_points(earcut, shape, points),
{
    reveal(mesh_points);
    assert(shape_vertices(shape, 0) =~= Seq::<ChainVertex>::empty());
    assert(shape_vertices(shape, 1) =~= contour_vertices(shape[0]@));
}

proof fn lemma_sweep_mesh_points(earcut: bool, shape: Seq<Vec<IntPoint>>, points: Seq<IntPoint>)
    requires
        shape.len() != 1,
        sweep_points(shape_vertices(shape, shape.len() as int), points),
    ensures
        mesh_points(earcut, shape, points),
{
    reveal(mesh_points);
}

impl<N: IndexType> IntTriangulator<N> {
    /// A triangulator whose overlay holds up to `max_points_count` points,
    /// simplifying by the validation's fill rule and options; ear clipping
    /// on, the sweep's linked mesh off.
    pub fn new(
        max_points_count: usize,
        validation: Validation,
        solver: OverlaySolver,
    ) -> (r: Self)
        ensures
            r.fill_rule == validation.fill_rule,
            r.overlay@ == (validation.options, solver),
            r.earcut,
            !r.delaunay,
    {
        IntTriangulator {
            overlay: OverlayEngine::new_custom(max_points_count, validation.options, solver),
            fill_rule: validation.fill_rule,
            earcut: true,
            delaunay: false,
            triangulator: MonotoneTriangulator::default(),
            shapes_buffer: None,
            raw_buffer: None,
        }
    }

    /// Triangulates a contour taken as valid into `triangulation`: by ear
    /// clipping when it has at most 64 points and ear clipping is on, else
    /// by the sweep; with the linked mesh on, through a linked mesh. Ear
    /// clipping covers the contour's area, unless it stalled on a ring of
    /// vertices none of which closes it as one convex fan.
    pub fn uncheck_triangulate_contour_into(&mut self, contour: &Vec<IntPoint>, triangulation: &mut IntTriangulation<N>)
        requires
            contour_fits::<N>(contour@),
            N::index_limit() >= 63,
        ensures
            flat_ok(*final(triangulation)),
            final(triangulation).points@.len() <= contour@.len(),
            final(self).earcut == old(self).earcut,
            contour_mesh_points(old(self).earcut, contour@, final(triangulation).points@),
            old(self).earcut && contour@.len() <= 64 && one_fan(contour@) ==> {
                &&& flat_triples(final(triangulation).indices@) == first_vertex_fan(contour@.len() as int)
                &&& triples_positive(contour@, flat_triples(final(triangulation).indices@))
            },
            old(self).earcut && contour@.len() <= 64 ==> clipped_or_stalled(
                contour@,
                *final(triangulation),
            ),
    {
        let small = contour.len() <= 64;
        if self.delaunay {
            let mut raw = match self.raw_buffer.take() {
                Some(raw) => raw,
                None => RawIntTriangulation::empty(),
            };
            let ghost clipped = self.earcut && small;
            if self.earcut && small {
                contour.earcut_net_triangulate_into(&mut raw);
            } else {
                self.triangulator.contour_into_net_triangulation(contour, None, &mut raw);
                proof {
                    let vs = self.triangulator.vertices@;
                    assert(contour_vertices(contour@) + MonotoneTriangulator::lone_vertices(None) =~= contour_vertices(
                        contour@,
                    ));
                    assert(raw.points@ == crate::vertex::distinct_points(vs, vs.len() as int));
                }
            }
            triangulation.fill_with_raw(&raw);
            proof {
                lemma_filled_ok(*triangulation, raw);
                if clipped {
                    let ts = raw.triangles@;
                    crate::earcut::lemma_mesh_flat_area(contour@, ts, ts.len() as nat);
                    crate::earcut::lemma_mesh_flat_triples(ts, triangulation.indices@);
                    assert(crate::triangulation::index_values(triangulation.indices@).len() == triangulation.indices@.len());
                    assert(triangulation.indices@.len() / 3 == ts.len());
                }
            }
            self.raw_buffer = Some(raw);
        } else if self.earcut && small {
            contour.earcut_flat_triangulate_into(triangulation);
        } else {
            self.triangulator.contour_into_flat_triangulation(contour, triangulation);
            proof {
                let vs = self.triangulator.vertices@;
                assert(triangulation.points@ == crate::vertex::distinct_points(vs, vs.len() as int));
            }
        }
    }

    /// The triangulation of a contour taken as valid.
    pub fn uncheck_triangulate_contour(&mut self, contour: &Vec<IntPoint>) -> (r: IntTriangulation<N>)
        requires
            contour_fits::<N>(contour@),
            N::index_limit() >= 63,
        ensures
            flat_ok(r),
            contour_mesh_points(old(self).earcut, contour@, r.points@),
            old(self).earcut && contour@.len() <= 64 && one_fan(contour@) ==> {
                &&& flat_triples(r.indices@) == first_vertex_fan(contour@.len() as int)
                &&& triples_positive(contour@, flat_triples(r.indices@))
            },
            old(self).earcut && contour@.len() <= 64 ==> clipped_or_stalled(contour@, r),
    {
        let mut triangulation = IntTriangulation::empty();
        self.uncheck_triangulate_contour_into(contour, &mut triangulation);
        triangulation
    }

    /// Triangulates a shape taken as valid into `triangulation`: a shape
    /// of one contour as that contour, else by the sweep.
    pub fn uncheck_triangulate_shape_into(&mut self, shape: &Vec<Vec<IntPoint>>, triangulation: &mut IntTriangulation<N>)
        requires
            shape_fits::<N>(shape@),
            N::index_limit() >= 63,
        ensures
            flat_ok(*final(triangulation)),
            final(triangulation).points@.len() <= shape_size(shape@, shape@.len() as int),
            final(self).earcut == old(self).earcut,
            mesh_points(old(self).earcut, shape@, final(triangulation).points@),
    {
        if shape.len() == 1 {
            proof {
                assert(contour_fits::<N>(shape@[0]@));
                reveal_with_fuel(shape_size, 2);
            }
            self.uncheck_triangulate_contour_into(&shape[0], triangulation);
            proof {
                lemma_contour_mesh_points(self.earcut, shape@, triangulation.points@);
            }
            return;
        }
        proof {
            assert(shape_ready(shape@)) by {
                assert forall|i: int| 0 <= i < shape@.len() implies (#[trigger] shape@[i])@.len() >= 2 by {
                    assert(contour_fits::<N>(shape@[i]@));
                }
            }
        }
        if self.delaunay {
            let mut raw = match self.raw_buffer.take() {
                Some(raw) => raw,
                None => RawIntTriangulation::empty(),
            };
            self.triangulator.shape_into_net_triangulation(shape, None, &mut raw);
            proof {
                let input = shape_vertices(shape@, shape@.len() as int);
                assert(input + MonotoneTriangulator::lone_vertices(None) =~= input);
                if shape@.len() == 0 {
                    assert(input =~= Seq::<ChainVertex>::empty());
                    assert(raw.points@ =~= Seq::<IntPoint>::empty());
                    lemma_sweep_points_empty();
                } else {
                    let vs = self.triangulator.vertices@;
                    assert(raw.points@ == crate::vertex::distinct_points(vs, vs.len() as int));
                }
            }
            triangulation.fill_with_raw(&raw);
            proof {
                lemma_filled_ok(*triangulation, raw);
                lemma_sweep_mesh_points(self.earcut, shape@, triangulation.points@);
            }
            self.raw_buffer = Some(raw);
        } else {
            self.triangulator.shape_into_flat_triangulation(shape, triangulation);
            proof {
                if shape@.len() == 0 {
                    assert(shape_vertices(shape@, 0) =~= Seq::<ChainVertex>::empty());
                    assert(triangulation.points@ =~= Seq::<IntPoint>::empty());
                    lemma_sweep_points_empty();
                } else {
                    let vs = self.triangulator.vertices@;
                    assert(triangulation.points@ == crate::vertex::distinct_points(vs, vs.len() as int));
                }
                lemma_sweep_mesh_points(self.earcut, shape@, triangulation.points@);
            }
        }
    }

    /// The triangulation of a shape taken as valid.
    pub fn uncheck_triangulate_shape(&mut self, shape: &Vec<Vec<IntPoint>>) -> (r: IntTriangulation<N>)
        requires
            shape_fits::<N>(shape@),
            N::index_limit() >= 63,
        ensures
            flat_ok(r),
            mesh_points(old(self).earcut, shape@, r.points@),
    {
        let mut triangulation = IntTriangulation::empty();
        self.uncheck_triangulate_shape_into(shape, &mut triangulation);
        triangulation
    }

    /// Triangulates a list of shapes taken as valid into `triangulation`:
    /// one shape as that shape, else each in turn, joined after the
    /// points of those before.
    pub fn uncheck_triangulate_shapes_into(
        &mut self,
        shapes: &Vec<Vec<Vec<IntPoint>>>,
        triangulation: &mut IntTriangulation<N>,
    )
        requires
            shapes_fit::<N>(shapes@),
            N::index_limit() >= 63,
        ensures
            flat_ok(*final(triangulation)),
            final(self).earcut == old(self).earcut,
            shapes_mesh_points(old(self).earcut, shapes@, final(triangulation).points@),
    {
        if shapes.len() == 1 {
            proof {
                assert(shape_fits::<N>(shapes@[0]@));
            }
            self.uncheck_triangulate_shape_into(&shapes[0], triangulation);
            proof {
                let parts = seq![triangulation.points@];
                assert(joined_points(parts, 0) =~= Seq::<IntPoint>::empty());
                assert(triangulation.points@ =~= joined_points(parts, 1));
                lemma_shapes_mesh_witness(self.earcut, shapes@, parts, triangulation.points@);
            }
            return;
        }
        let ghost earcut = self.earcut;
        let ghost mut parts: Seq<Seq<IntPoint>> = Seq::empty();
        triangulation.points.clear();
        triangulation.indices.clear();
        proof {
            assert(triangulation.points@ =~= joined_points(parts, 0));
        }
        let mut buffer = match self.shapes_buffer.take() {
            Some(buffer) => buffer,
            None => IntTriangulation::empty(),
        };
        let mut i: usize = 0;
        while i < shapes.len()
            invariant
                i <= shapes@.len(),
                shapes_fit::<N>(shapes@),
                N::index_limit() >= 63,
                flat_ok(*triangulation),
                triangulation.points@.len() <= shapes_points(shapes@, i as int),
                self.earcut == earcut,
                parts.len() == i,
                forall|j: int| 0 <= j < i ==> mesh_points(earcut, shapes@[j]@, #[trigger] parts[j]),
                triangulation.points@ == joined_points(parts, i as int),
            decreases shapes@.len() - i,
        {
            proof {
                assert(shape_fits::<N>(shapes@[i as int]@));
                lemma_shapes_points_grows(shapes@, i + 1, shapes@.len() as int);
            }
            self.uncheck_triangulate_shape_into(&shapes[i], &mut buffer);
            proof {
                assert forall|k: int| 0 <= k < buffer.indices@.len() implies (#[trigger] buffer.indices@[k]).value()
                    + triangulation.join_offset() <= N::index_limit() by {
                    assert(buffer.indices@[k].value() < buffer.points@.len());
                }
            }
            let ghost before = *triangulation;
            triangulation.join(&buffer);
            proof {
                lemma_joined_ok(before, buffer, *triangulation);
                let old_parts = parts;
                parts = parts.push(buffer.points@);
                lemma_joined_points_prefix(old_parts, parts, i as int);
                assert forall|j: int| 0 <= j < i + 1 implies mesh_points(earcut, shapes@[j]@, #[trigger] parts[j]) by {
                    if j < i {
                        assert(parts[j] == old_parts[j]);
                    }
                }
            }
            i += 1;
        }
        self.shapes_buffer = Some(buffer);
        proof {
            lemma_shapes_mesh_witness(earcut, shapes@, parts, triangulation.points@);
        }
    }

    /// The triangulation of a list of shapes taken as valid.
    pub fn uncheck_triangulate_shapes(&mut self, shapes: &Vec<Vec<Vec<IntPoint>>>) -> (r: IntTriangulation<N>)
        requires
            shapes_fit::<N>(shapes@),
            N::index_limit() >= 63,
        ensures
            flat_ok(r),
            shapes_mesh_points(old(self).earcut, shapes@, r.points@),
    {
        let mut triangulation = IntTriangulation::empty();
        self.uncheck_triangulate_shapes_into(shapes, &mut triangulation);
        triangulation
    }

    /// Simplifies the contour by the fill rule, then triangulates it, or
    /// the shapes it simplifies to. Simplified shapes with a contour of
    /// fewer than two points, a point out of the safe range, or more points
    /// than the index type can address give an empty triangulation.
    pub fn triangulate_contour_into(&mut self, contour: &Vec<IntPoint>, triangulation: &mut IntTriangulation<N>)
        requires
            contour_fits::<N>(contour@),
            N::index_limit() >= 63,
        ensures
            flat_ok(*final(triangulation)),
            final(self).earcut == old(self).earcut,
            match overlay_simplified_contour(contour@, old(self).fill_rule, old(self).overlay@) {
                None => {
                    &&& contour_mesh_points(old(self).earcut, contour@, final(triangulation).points@)
                    &&& old(self).earcut && contour@.len() <= 64 && one_fan(contour@) ==> {
                        &&& flat_triples(final(triangulation).indices@) == first_vertex_fan(contour@.len() as int)
                        &&& triples_positive(contour@, flat_triples(final(triangulation).indices@))
                    }
                    &&& old(self).earcut && contour@.len() <= 64 ==> clipped_or_stalled(
                        contour@,
                        *final(triangulation),
                    )
                },
                Some(shapes) => simplified_mesh(old(self).earcut, shapes@, *final(triangulation)),
            },
    {
        match self.overlay.simplify_contour(contour, self.fill_rule) {
            None => self.uncheck_triangulate_contour_into(contour, triangulation),
            Some(shapes) => self.triangulate_simplified_into(&shapes, triangulation),
        }
    }

    /// The triangulation of the simplified contour.
    pub fn triangulate_contour(&mut self, contour: &Vec<IntPoint>) -> (r: IntTriangulation<N>)
        requires
            contour_fits::<N>(contour@),
            N::index_limit() >= 63,
        ensures
            flat_ok(r),
            match overlay_simplified_contour(contour@, old(self).fill_rule, old(self).overlay@) {
                None => {
                    &&& contour_mesh_points(old(self).earcut, contour@, r.points@)
                    &&& old(self).earcut && contour@.len() <= 64 && one_fan(contour@) ==> {
                        &&& flat_triples(r.indices@) == first_vertex_fan(contour@.len() as int)
                        &&& triples_positive(contour@, flat_triples(r.indices@))
                    }
                    &&& old(self).earcut && contour@.len() <= 64 ==> clipped_or_stalled(contour@, r)
                },
                Some(shapes) => simplified_mesh(old(self).earcut, shapes@, r),
            },
    {
        let mut triangulation = IntTriangulation::empty();
        self.triangulate_contour_into(contour, &mut triangulation);
        triangulation
    }

    /// Simplifies the shape by the fill rule, then triangulates it, or the
    /// shapes it simplifies to, as `triangulate_contour_into` does.
    pub fn triangulate_shape_into(&mut self, shape: &Vec<Vec<IntPoint>>, triangulation: &mut IntTriangulation<N>)
        requires
            shape_fits::<N>(shape@),
            N::index_limit() >= 63,
        ensures
            flat_ok(*final(triangulation)),
            final(self).earcut == old(self).earcut,
            match overlay_simplified_shape(shape@, old(self).fill_rule, old(self).overlay@) {
                None => mesh_points(old(self).earcut, shape@, final(triangulation).points@),
                Some(shapes) => simplified_mesh(old(self).earcut, shapes@, *final(triangulation)),
            },
    {
        match self.overlay.simplify_shape(shape, self.fill_rule) {
            None => self.uncheck_triangulate_shape_into(shape, triangulation),
            Some(shapes) => self.triangulate_simplified_into(&shapes, triangulation),
        }
    }

    /// The triangulation of the simplified shape.
    pub fn triangulate_shape(&mut self, shape: &Vec<Vec<IntPoint>>) -> (r: IntTriangulation<N>)
        requires
            shape_fits::<N>(shape@),
            N::index_limit() >= 63,
        ensures
            flat_ok(r),
            match overlay_simplified_shape(shape@, old(self).fill_rule, old(self).overlay@) {
                None => mesh_points(old(self).earcut, shape@, r.points@),
                Some(shapes) => simplified_mesh(old(self).earcut, shapes@, r),
            },
    {
        let mut triangulation = IntTriangulation::empty();
        self.triangulate_shape_into(shape, &mut triangulation);
        triangulation
    }

    /// Simplifies the union of the shapes by the fill rule, then
    /// triangulates the result, as `triangulate_contour_into` does.
    pub fn triangulate_shapes_into(&mut self, shapes: &Vec<Vec<Vec<IntPoint>>>, triangulation: &mut IntTriangulation<N>)
        requires
            N::index_limit() >= 63,
        ensures
            flat_ok(*final(triangulation)),
            final(self).earcut == old(self).earcut,
            shapes_safe(shapes@) ==> simplified_mesh(
                old(self).earcut,
                overlay_simplified_shapes(shapes@, old(self).fill_rule, old(self).overlay@),
                *final(triangulation),
            ),
            !shapes_safe(shapes@) ==> final(triangulation).points@.len() == 0 && final(triangulation).indices@.len() == 0,
    {
        if !check_shapes_safe(shapes) {
            triangulation.points.clear();
            triangulation.indices.clear();
            proof {
                assert(flat_ok(*triangulation));
            }
            return;
        }
        let simple = self.overlay.simplify_shapes(shapes, self.fill_rule);
        self.triangulate_simplified_into(&simple, triangulation);
    }

    /// The triangulation of the simplified union of the shapes.
    pub fn triangulate_shapes(&mut self, shapes: &Vec<Vec<Vec<IntPoint>>>) -> (r: IntTriangulation<N>)
        requires
            N::index_limit() >= 63,
        ensures
            flat_ok(r),
            shapes_safe(shapes@) ==> simplified_mesh(
                old(self).earcut,
                overlay_simplified_shapes(shapes@, old(self).fill_rule, old(self).overlay@),
                r,
            ),
            !shapes_safe(shapes@) ==> r.points@.len() == 0 && r.indices@.len() == 0,
    {
        let mut triangulation = IntTriangulation::empty();
        self.triangulate_shapes_into(shapes, &mut triangulation);
        triangulation
    }

    /// Triangulates shapes that simplification gave, when they fit;
    /// otherwise leaves the triangulation empty.
    pub fn triangulate_simplified_into(&mut self, shapes: &Vec<Vec<Vec<IntPoint>>>, triangulation: &mut IntTriangulation<N>)
        requires
            N::index_limit() >= 63,
        ensures
            flat_ok(*final(triangulation)),
            final(self).earcut == old(self).earcut,
            simplified_mesh(old(self).earcut, shapes@, *final(triangulation)),
    {
        if check_shapes_fit::<N>(shapes) {
            self.uncheck_triangulate_shapes_into(shapes, triangulation);
        } else {
            triangulation.points.clear();
            triangulation.indices.clear();
            proof {
                assert(flat_ok(*triangulation));
            }
        }
    }
}

impl<N: IndexType> Default for IntTriangulator<N> {
    /// A triangulator for up to 64 points with the default validation and
    /// solver.
    fn default() -> (r: Self)
        ensures
            r.earcut,
            !r.delaunay,
    {
        Self::new(64, Validation::default(), OverlaySolver::auto())
    }
}

/// The number of points of the first `k` shapes.
pub open spec fn shapes_points(shapes: Seq<Vec<Vec<IntPoint>>>, k: int) -> int
    decreases k,
{
    if k <= 0 {
        0
    } else {
        shapes_points(shapes, k - 1) + shape_size(shapes[k - 1]@, shapes[k - 1]@.len() as int)
    }
}

/// Every shape fits, and so do all their points together.
pub open spec fn shapes_fit<N: IndexType>(shapes: Seq<Vec<Vec<IntPoint>>>) -> bool {
    &&& forall|i: int| 0 <= i < shapes.len() ==> shape_fits::<N>(#[trigger] shapes[i]@)
    &&& shapes_points(shapes, shapes.len() as int) <= N::index_limit()
}

proof fn lemma_shapes_points_grows(shapes: Seq<Vec<Vec<IntPoint>>>, k: int, n: int)
    requires
        0 <= k <= n <= shapes.len(),
    ensures
        shapes_points(shapes, k) <= shapes_points(shapes, n),
    decreases n - k,
{
    if k < n {
        lemma_shapes_points_grows(shapes, k, n - 1);
        lemma_shape_size_nonneg(shapes[n - 1]@, shapes[n - 1]@.len() as int);
    }
}

proof fn lemma_shape_size_nonneg(shape: Seq<Vec<IntPoint>>, k: int)
    ensures
        shape_size(shape, k) >= 0,
    decreases k,
{
    if k > 0 {
        lemma_shape_size_nonneg(shape, k - 1);
    }
}

/// Joining a sound triangulation whose indices fit keeps it sound.
proof fn lemma_joined_ok<N: IndexType>(a: IntTriangulation<N>, b: IntTriangulation<N>, joined: IntTriangulation<N>)
    requires
        flat_ok(a),
        flat_ok(b),
        a.points@.len() <= N::index_limit(),
        joined.points@ == a.points@ + b.points@,
        crate::triangulation::index_values(joined.indices@) == crate::triangulation::index_values(a.indices@)
            + crate::triangulation::index_values(b.indices@).map_values(|v: int| v + a.join_offset()),
    ensures
        flat_ok(joined),
{
    let va = crate::triangulation::index_values(a.indices@);
    let vb = crate::triangulation::index_values(b.indices@);
    let vj = crate::triangulation::index_values(joined.indices@);
    assert(joined.indices@.len() == vj.len());
    assert(vj.len() == a.indices@.len() + b.indices@.len());
    assert forall|k: int| 0 <= k < joined.indices@.len() implies (#[trigger] joined.indices@[k]).value()
        < joined.points@.len() by {
        assert(vj[k] == joined.indices@[k].value());
        if k < a.indices@.len() {
            assert(vj[k] == va[k]);
            assert(va[k] == a.indices@[k].value());
        } else {
            let u = k - a.indices@.len();
            assert(vj[k] == vb[u] + a.join_offset());
            assert(vb[u] == b.indices@[u].value());
        }
    }
}

/// Whether the shapes fit, checked.
fn check_shapes_fit<N: IndexType>(shapes: &Vec<Vec<Vec<IntPoint>>>) -> (r: bool)
    ensures
        r == shapes_fit::<N>(shapes@),
{
    let limit = N::max_index();
    let mut total: usize = 0;
    let mut i: usize = 0;
    while i < shapes.len()
        invariant
            i <= shapes@.len(),
            limit == N::index_limit(),
            total == shapes_points(shapes@, i as int),
            total <= limit,
            forall|j: int| 0 <= j < i ==> shape_fits::<N>(#[trigger] shapes@[j]@),
        decreases shapes@.len() - i,
    {
        if !check_shape_fits::<N>(&shapes[i]) {
            proof {
                assert(!shape_fits::<N>(shapes@[i as int]@));
            }
            return false;
        }
        let size = shape_points_count::<N>(&shapes[i]);
        if size > limit - total {
            proof {
                assert(shapes_points(shapes@, i + 1) > N::index_limit());
                lemma_shapes_points_grows(shapes@, i + 1, shapes@.len() as int);
            }
            return false;
        }
        total += size;
        i += 1;
    }
    true
}

/// The number of points of a shape that fits.
fn shape_points_count<N: IndexType>(shape: &Vec<Vec<IntPoint>>) -> (r: usize)
    requires
        shape_fits::<N>(shape@),
    ensures
        r == shape_size(shape@, shape@.len() as int),
{
    let limit = N::max_index();
    let mut total: usize = 0;
    let mut i: usize = 0;
    while i < shape.len()
        invariant
            i <= shape@.len(),
            shape_fits::<N>(shape@),
            limit == N::index_limit(),
            total == shape_size(shape@, i as int),
        decreases shape@.len() - i,
    {
        proof {
            lemma_shape_size_bound(shape@, i + 1, shape@.len() as int);
        }
        total += shape[i].len();
        i += 1;
    }
    total
}

} // verus!
