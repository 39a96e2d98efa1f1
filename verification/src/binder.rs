//! Assigning lone points to the shapes that hold them, by a sweep line.
use crate::geom::{area_two_spec, IntPoint};
use crate::monotone::{insert_position, insert_section, lemma_insert_position, SweepKey};
use crate::segment::VSegment;
use crate::vertex::{area_two_wide, sign};
use vstd::prelude::*;

verus! {

broadcast use {
    vstd::seq_lib::group_to_multiset_ensures,
    vstd::multiset::group_multiset_properties,
    vstd::multiset::group_multiset_axioms,
};

/// Which shape an edge belongs to, and whether it runs to the right (an
/// edge under the inside of its shape).
#[derive(Clone, Copy, Debug, PartialEq, Eq, Structural)]
pub struct SegmentData {
    pub direction: bool,
    pub shape_index: usize,
}

/// A contour edge, from its left end to its right end.
#[derive(Clone, Copy, Debug)]
pub struct IdSegment {
    pub data: SegmentData,
    pub v_segment: VSegment,
}

impl SweepKey for IdSegment {
    open spec fn key_spec(&self) -> VSegment {
        self.v_segment
    }

    fn key(&self) -> (r: VSegment) {
        self.v_segment
    }
}

/// std's `sort_unstable_by_key` with a point's `x` as the key: the
/// documentation describes a sort by the key that may reorder equal keys;
/// the result is a permutation of the input.
#[verifier::external_body]
fn sort_by_x(points: &mut Vec<IntPoint>)
    ensures
        final(points)@.to_multiset() == old(points)@.to_multiset(),
        final(points)@.len() == old(points)@.len(),
        forall|a: int, b: int|
            0 <= a < b < final(points)@.len()
                ==> (#[trigger] final(points)@[a]).x <= (#[trigger] final(points)@[b]).x,
{
    points.sort_unstable_by_key(|p: &IntPoint| p.x);
}

/// std's `sort_unstable_by_key` with the `x` of a segment's left end as the
/// key: the documentation describes a sort by the key that may reorder
/// equal keys; the result is a permutation of the input.
#[verifier::external_body]
fn sort_by_left_x(segments: &mut Vec<IdSegment>)
    ensures
        final(segments)@.to_multiset() == old(segments)@.to_multiset(),
        final(segments)@.len() == old(segments)@.len(),
        forall|a: int, b: int|
            0 <= a < b < final(segments)@.len() ==> (#[trigger] final(segments)@[a]).v_segment.a.x
                <= (#[trigger] final(segments)@[b]).v_segment.a.x,
{
    segments.sort_unstable_by_key(|s: &IdSegment| s.v_segment.a.x);
}

/// How the point lies against the segment: below it (positive), on its
/// line (zero) or above it (negative).
pub open spec fn point_order(s: VSegment, p: IntPoint) -> int {
    sign(area_two_spec(s.a, p, s.b))
}

/// From `k` on, the first segment that does not pass under the point.
pub open spec fn first_not_under(segs: Seq<IdSegment>, p: IntPoint, k: int) -> int
    decreases segs.len() - k,
{
    if 0 <= k < segs.len() && point_order(segs[k].v_segment, p) < 0 {
        first_not_under(segs, p, k + 1)
    } else {
        k
    }
}

proof fn lemma_first_not_under(segs: Seq<IdSegment>, p: IntPoint, k: int)
    requires
        0 <= k <= segs.len(),
    ensures
        k <= first_not_under(segs, p, k) <= segs.len(),
    decreases segs.len() - k,
{
    if k < segs.len() && point_order(segs[k].v_segment, p) < 0 {
        lemma_first_not_under(segs, p, k + 1);
    }
}

proof fn lemma_first_not_under_step(segs: Seq<IdSegment>, p: IntPoint, k: int, n: int)
    requires
        0 <= k <= n < segs.len(),
        n <= first_not_under(segs, p, k),
        point_order(segs[n].v_segment, p) < 0,
    ensures
        n + 1 <= first_not_under(segs, p, k),
    decreases n - k,
{
    if k < n {
        assert(first_not_under(segs, p, k) == first_not_under(segs, p, k + 1));
        lemma_first_not_under_step(segs, p, k + 1, n);
    } else {
        lemma_first_not_under(segs, p, n + 1);
    }
}

proof fn lemma_first_not_under_stop(segs: Seq<IdSegment>, p: IntPoint, k: int, n: int)
    requires
        0 <= k <= n < segs.len(),
        n <= first_not_under(segs, p, k),
        point_order(segs[n].v_segment, p) >= 0,
    ensures
        n == first_not_under(segs, p, k),
    decreases n - k,
{
    if k < n {
        assert(first_not_under(segs, p, k) == first_not_under(segs, p, k + 1));
        lemma_first_not_under_stop(segs, p, k + 1, n);
    }
}

/// The data of the segment through the point, else of the last one under
/// it, else `default`.
pub open spec fn data_at(segs: Seq<IdSegment>, p: IntPoint, default: SegmentData) -> SegmentData {
    let j = first_not_under(segs, p, 0);
    if j < segs.len() && point_order(segs[j].v_segment, p) == 0 {
        segs[j].data
    } else if j > 0 {
        segs[j - 1].data
    } else {
        default
    }
}

/// The segments that have not expired at `time`: those whose right end
/// lies after it, in order.
pub open spec fn unexpired(segs: Seq<IdSegment>, time: i32) -> Seq<IdSegment> {
    segs.filter(|s: IdSegment| s.v_segment.b.x > time)
}

/// The segments crossing a vertical sweep line, ordered from the bottom.
pub struct ExpiringSegments {
    pub segments: Vec<IdSegment>,
}

impl ExpiringSegments {
    /// Drops the segments whose right end lies at or before `time`.
    pub fn clear_expired(&mut self, time: i32)
        ensures
            final(self).segments@ == unexpired(old(self).segments@, time),
    {
        let ghost start = self.segments@;
        let mut kept: Vec<IdSegment> = Vec::new();
        let mut k: usize = 0;
        while k < self.segments.len()
            invariant
                k <= start.len(),
                self.segments@ == start,
                kept@ == unexpired(start.subrange(0, k as int), time),
            decreases start.len() - k,
        {
            let s = self.segments[k];
            proof {
                assert(start.subrange(0, k + 1).drop_last() =~= start.subrange(0, k as int));
                reveal(Seq::filter);
            }
            if s.v_segment.b.x > time {
                kept.push(s);
            }
            k += 1;
            proof {
                assert(kept@ =~= unexpired(start.subrange(0, k as int), time));
            }
        }
        proof {
            assert(start.subrange(0, k as int) =~= start);
        }
        self.segments = kept;
    }

    /// Drops the expired segments, then inserts `s` before the first
    /// segment that is not under it.
    pub fn insert(&mut self, s: IdSegment, time: i32)
        ensures
            final(self).segments@ == unexpired(old(self).segments@, time).insert(
                insert_position(unexpired(old(self).segments@, time), s.v_segment, 0),
                s,
            ),
    {
        self.clear_expired(time);
        insert_section(&mut self.segments, s);
    }

    /// Drops the expired segments, then gives the data of the segment
    /// through `p`, else of the last one under it, else `default`.
    pub fn first_less_or_equal_by(&mut self, time: i32, default: SegmentData, p: IntPoint) -> (r: SegmentData)
        ensures
            final(self).segments@ == unexpired(old(self).segments@, time),
            r == data_at(final(self).segments@, p, default),
    {
        self.clear_expired(time);
        let len = self.segments.len();
        let mut j: usize = 0;
        proof {
            lemma_first_not_under(self.segments@, p, 0);
        }
        while j < len
            invariant
                len == self.segments@.len(),
                j <= first_not_under(self.segments@, p, 0) <= len,
            ensures
                j == first_not_under(self.segments@, p, 0),
            decreases len - j,
        {
            let s = self.segments[j].v_segment;
            if area_two_wide(s.a, p, s.b) >= 0 {
                proof {
                    lemma_first_not_under_stop(self.segments@, p, 0, j as int);
                }
                break;
            }
            proof {
                lemma_first_not_under_step(self.segments@, p, 0, j as int);
            }
            j += 1;
        }
        if j < len {
            let s = self.segments[j].v_segment;
            if area_two_wide(s.a, p, s.b) == 0 {
                return self.segments[j].data;
            }
        }
        if j > 0 {
            self.segments[j - 1].data
        } else {
            default
        }
    }
}

/// Every path of every shape has a point.
pub open spec fn paths_nonempty(shapes: Seq<Vec<Vec<IntPoint>>>) -> bool {
    forall|i: int, j: int|
        0 <= i < shapes.len() && 0 <= j < shapes[i]@.len() ==> (#[trigger] shapes[i]@[j])@.len() >= 1
}

/// The edge from `a` to `b` as a segment of shape `si`, from its left end,
/// when it is not vertical and reaches the range `[x_min, x_max]`.
pub open spec fn edge_segment(a: IntPoint, b: IntPoint, si: int, x_min: int, x_max: int) -> Seq<IdSegment> {
    if a.x == b.x || a.x < x_min && b.x < x_min || a.x > x_max && b.x > x_max {
        Seq::empty()
    } else {
        seq![
            IdSegment {
                data: SegmentData { direction: a.x < b.x, shape_index: si as usize },
                v_segment: if a.x < b.x {
                    VSegment { a, b }
                } else {
                    VSegment { a: b, b: a }
                },
            },
        ]
    }
}

/// The segments of the first `k` edges of a closed path, each edge ending
/// at its point.
pub open spec fn path_segments(path: Seq<IntPoint>, si: int, x_min: int, x_max: int, k: int) -> Seq<IdSegment>
    decreases k,
{
    if k <= 0 {
        Seq::empty()
    } else {
        path_segments(path, si, x_min, x_max, k - 1) + edge_segment(
            if k - 1 == 0 {
                path[path.len() - 1]
            } else {
                path[k - 2]
            },
            path[k - 1],
            si,
            x_min,
            x_max,
        )
    }
}

/// The segments of the first `k` paths of shape `si`.
pub open spec fn shape_segments(shape: Seq<Vec<IntPoint>>, si: int, x_min: int, x_max: int, k: int) -> Seq<IdSegment>
    decreases k,
{
    if k <= 0 {
        Seq::empty()
    } else {
        shape_segments(shape, si, x_min, x_max, k - 1) + path_segments(
            shape[k - 1]@,
            si,
            x_min,
            x_max,
            shape[k - 1]@.len() as int,
        )
    }
}

/// The segments of the first `k` shapes.
pub open spec fn shapes_segments(shapes: Seq<Vec<Vec<IntPoint>>>, x_min: int, x_max: int, k: int) -> Seq<IdSegment>
    decreases k,
{
    if k <= 0 {
        Seq::empty()
    } else {
        shapes_segments(shapes, x_min, x_max, k - 1) + shape_segments(
            shapes[k - 1]@,
            k - 1,
            x_min,
            x_max,
            shapes[k - 1]@.len() as int,
        )
    }
}

/// Collects the edges of the shapes that are not vertical and reach the
/// range `[x_min, x_max]`, each from its left end, with its shape and
/// whether it runs to the right. The sweep takes them by their left ends.
fn collect_segments(shapes: &Vec<Vec<Vec<IntPoint>>>, x_min: i32, x_max: i32) -> (r: Vec<IdSegment>)
    requires
        paths_nonempty(shapes@),
    ensures
        r@ == shapes_segments(shapes@, x_min as int, x_max as int, shapes@.len() as int),
{
    let mut segments: Vec<IdSegment> = Vec::new();
    let mut shape_index: usize = 0;
    while shape_index < shapes.len()
        invariant
            shape_index <= shapes@.len(),
            paths_nonempty(shapes@),
            segments@ == shapes_segments(shapes@, x_min as int, x_max as int, shape_index as int),
        decreases shapes@.len() - shape_index,
    {
        let shape = &shapes[shape_index];
        let mut pi: usize = 0;
        proof {
            assert(segments@ =~= shapes_segments(shapes@, x_min as int, x_max as int, shape_index as int)
                + shape_segments(shape@, shape_index as int, x_min as int, x_max as int, 0));
        }
        while pi < shape.len()
            invariant
                shape_index < shapes@.len(),
                *shape == shapes@[shape_index as int],
                pi <= shape@.len(),
                paths_nonempty(shapes@),
                segments@ == shapes_segments(shapes@, x_min as int, x_max as int, shape_index as int)
                    + shape_segments(shape@, shape_index as int, x_min as int, x_max as int, pi as int),
            decreases shape@.len() - pi,
        {
            let path = &shape[pi];
            proof {
                assert(shapes@[shape_index as int]@[pi as int]@.len() >= 1);
            }
            let mut a = path[path.len() - 1];
            let mut k: usize = 0;
            let ghost head = segments@;
            proof {
                assert(segments@ =~= head + path_segments(path@, shape_index as int, x_min as int, x_max as int, 0));
            }
            while k < path.len()
                invariant
                    k <= path@.len(),
                    path@.len() >= 1,
                    a == if k == 0 {
                        path@[path@.len() - 1]
                    } else {
                        path@[k - 1]
                    },
                    segments@ == head + path_segments(path@, shape_index as int, x_min as int, x_max as int, k as int),
                decreases path@.len() - k,
            {
                let b = path[k];
                if !(a.x == b.x || a.x < x_min && b.x < x_min || a.x > x_max && b.x > x_max) {
                    let direction = a.x < b.x;
                    let v_segment = if direction {
                        VSegment { a, b }
                    } else {
                        VSegment { a: b, b: a }
                    };
                    segments.push(IdSegment { data: SegmentData { direction, shape_index }, v_segment });
                }
                proof {
                    assert(segments@ =~= head + path_segments(
                        path@,
                        shape_index as int,
                        x_min as int,
                        x_max as int,
                        k + 1,
                    ));
                }
                a = b;
                k += 1;
            }
            proof {
                assert(segments@ =~= shapes_segments(shapes@, x_min as int, x_max as int, shape_index as int)
                    + shape_segments(shape@, shape_index as int, x_min as int, x_max as int, pi + 1));
            }
            pi += 1;
        }
        proof {
            assert(segments@ =~= shapes_segments(shapes@, x_min as int, x_max as int, shape_index + 1));
        }
        shape_index += 1;
    }
    segments
}

proof fn lemma_groups_total_prefix(a: Seq<Vec<IntPoint>>, b: Seq<Vec<IntPoint>>, n: int)
    requires
        0 <= n <= a.len(),
        n <= b.len(),
        forall|i: int| 0 <= i < n ==> a[i] == b[i],
    ensures
        groups_total(a, n) == groups_total(b, n),
    decreases n,
{
    if n > 0 {
        lemma_groups_total_prefix(a, b, n - 1);
    }
}

/// The number of points in the first `n` groups.
pub open spec fn groups_total(groups: Seq<Vec<IntPoint>>, n: int) -> int
    decreases n,
{
    if n <= 0 {
        0
    } else {
        groups_total(groups, n - 1) + groups[n - 1]@.len()
    }
}

proof fn lemma_groups_total_update(groups: Seq<Vec<IntPoint>>, s: int, x: Vec<IntPoint>, n: int)
    requires
        0 <= s < groups.len(),
        0 <= n <= groups.len(),
    ensures
        groups_total(groups.update(s, x), n) == groups_total(groups, n) + if s < n {
            x@.len() - groups[s]@.len()
        } else {
            0
        },
    decreases n,
{
    if n > 0 {
        lemma_groups_total_update(groups, s, x, n - 1);
    }
}

/// `p` lies on the closed segment from `a` to `b`.
pub open spec fn on_edge(a: IntPoint, b: IntPoint, p: IntPoint) -> bool {
    &&& area_two_spec(a, p, b) == 0
    &&& (a.x <= p.x <= b.x || b.x <= p.x <= a.x)
    &&& (a.y <= p.y <= b.y || b.y <= p.y <= a.y)
}

/// The edge of a closed path that ends at its `k`-th point starts here.
pub open spec fn edge_start(path: Seq<IntPoint>, k: int) -> IntPoint {
    if k == 0 {
        path[path.len() - 1]
    } else {
        path[k - 1]
    }
}

/// `p` lies on an edge of the shape (a vertex included).
pub open spec fn on_shape_boundary(shape: Seq<Vec<IntPoint>>, p: IntPoint) -> bool {
    exists|i: int, k: int|
        0 <= i < shape.len() && 0 <= k < shape[i]@.len() && #[trigger] on_edge(
            edge_start(shape[i]@, k),
            shape[i]@[k],
            p,
        )
}

/// Whether `p` lies on an edge of the shape.
pub fn is_on_shape_boundary(shape: &Vec<Vec<IntPoint>>, p: IntPoint) -> (r: bool)
    ensures
        r == on_shape_boundary(shape@, p),
{
    let mut i: usize = 0;
    while i < shape.len()
        invariant
            i <= shape@.len(),
            forall|j: int, k: int|
                0 <= j < i && 0 <= k < shape@[j]@.len() ==> !#[trigger] on_edge(
                    edge_start(shape@[j]@, k),
                    shape@[j]@[k],
                    p,
                ),
        decreases shape@.len() - i,
    {
        let path = &shape[i];
        let n = path.len();
        let mut k: usize = 0;
        while k < n
            invariant
                i < shape@.len(),
                *path == shape@[i as int],
                n == path@.len(),
                k <= n,
                forall|m: int| 0 <= m < k ==> !#[trigger] on_edge(edge_start(path@, m), path@[m], p),
            decreases n - k,
        {
            let a = if k == 0 {
                path[n - 1]
            } else {
                path[k - 1]
            };
            let b = path[k];
            let within_x = a.x <= p.x && p.x <= b.x || b.x <= p.x && p.x <= a.x;
            let within_y = a.y <= p.y && p.y <= b.y || b.y <= p.y && p.y <= a.y;
            if within_x && within_y && area_two_wide(a, p, b) == 0 {
                proof {
                    assert(on_edge(edge_start(shape@[i as int]@, k as int), shape@[i as int]@[k as int], p));
                }
                return true;
            }
            k += 1;
        }
        i += 1;
    }
    false
}

/// The sweep tree after inserting `s` at `time`: the expired segments are
/// dropped, and `s` goes before the first segment that is not under it.
pub open spec fn tree_insert(tree: Seq<IdSegment>, s: IdSegment, time: i32) -> Seq<IdSegment> {
    let t = unexpired(tree, time);
    t.insert(insert_position(t, s.v_segment, 0), s)
}

/// The sweep at `x` takes the segments from `i` on whose left end is not
/// right of `x`, inserting those that reach past `x`: the tree and the
/// position of the first segment it did not take.
pub open spec fn advance(segs: Seq<IdSegment>, tree: Seq<IdSegment>, i: int, x: i32) -> (Seq<IdSegment>, int)
    decreases segs.len() - i,
{
    if i < 0 || i >= segs.len() || x < segs[i].v_segment.a.x {
        (tree, i)
    } else {
        let t = if x < segs[i].v_segment.b.x {
            tree_insert(tree, segs[i], x)
        } else {
            tree
        };
        advance(segs, t, i + 1, x)
    }
}

/// The sweep's tree and position after the first `k` points.
pub open spec fn sweep_at(segs: Seq<IdSegment>, pts: Seq<IntPoint>, k: int) -> (Seq<IdSegment>, int)
    decreases k,
{
    if k <= 0 {
        (Seq::empty(), 0)
    } else {
        let before = sweep_at(segs, pts, k - 1);
        let after = advance(segs, before.0, before.1, pts[k - 1].x);
        (unexpired(after.0, pts[k - 1].x), after.1)
    }
}

/// No shape: the data found where no segment is under a point.
pub open spec fn no_holder() -> SegmentData {
    SegmentData { direction: false, shape_index: usize::MAX }
}

/// The data the sweep finds for point `k`: that of the segment through it,
/// else of the last one under it, among those that cross its vertical.
pub open spec fn holder(segs: Seq<IdSegment>, pts: Seq<IntPoint>, k: int) -> SegmentData {
    let before = sweep_at(segs, pts, k);
    let after = advance(segs, before.0, before.1, pts[k].x);
    data_at(unexpired(after.0, pts[k].x), pts[k], no_holder())
}

/// Shape `g` holds point `k`: the edge the sweep finds for it is one of
/// `g` that runs to the right, and the point is not on `g`'s boundary.
pub open spec fn holds(shapes: Seq<Vec<Vec<IntPoint>>>, segs: Seq<IdSegment>, pts: Seq<IntPoint>, k: int, g: int) -> bool {
    let d = holder(segs, pts, k);
    &&& d.direction
    &&& d.shape_index == g
    &&& !on_shape_boundary(shapes[g]@, pts[k])
}

/// The first `n` points that shape `g` holds, in the sweep's order.
pub open spec fn held_points(
    shapes: Seq<Vec<Vec<IntPoint>>>,
    segs: Seq<IdSegment>,
    pts: Seq<IntPoint>,
    n: int,
    g: int,
) -> Seq<IntPoint>
    decreases n,
{
    if n <= 0 {
        Seq::empty()
    } else if holds(shapes, segs, pts, n - 1, g) {
        held_points(shapes, segs, pts, n - 1, g).push(pts[n - 1])
    } else {
        held_points(shapes, segs, pts, n - 1, g)
    }
}

/// The points in the order the sweep takes them: the given points sorted
/// by `x`.
pub open spec fn sweep_order(points: Seq<IntPoint>, pts: Seq<IntPoint>) -> bool {
    &&& pts.to_multiset() == points.to_multiset()
    &&& pts.len() == points.len()
    &&& forall|a: int, b: int| 0 <= a < b < pts.len() ==> (#[trigger] pts[a]).x <= (#[trigger] pts[b]).x
}

/// The segments in the order the sweep takes them: the shapes' segments in
/// the points' range, sorted by their left ends.
pub open spec fn segment_order(shapes: Seq<Vec<Vec<IntPoint>>>, pts: Seq<IntPoint>, segs: Seq<IdSegment>) -> bool {
    let all = shapes_segments(shapes, pts[0].x as int, pts[pts.len() - 1].x as int, shapes.len() as int);
    &&& segs.to_multiset() == all.to_multiset()
    &&& segs.len() == all.len()
    &&& forall|a: int, b: int|
        0 <= a < b < segs.len() ==> (#[trigger] segs[a]).v_segment.a.x <= (#[trigger] segs[b]).v_segment.a.x
}

/// Each group is exactly the points its shape holds, in the sweep's order.
pub open spec fn grouped(
    shapes: Seq<Vec<Vec<IntPoint>>>,
    points: Seq<IntPoint>,
    groups: Seq<Vec<IntPoint>>,
) -> bool {
    &&& groups.len() == shapes.len()
    &&& points.len() == 0 ==> forall|g: int| 0 <= g < groups.len() ==> (#[trigger] groups[g])@.len() == 0
    &&& points.len() > 0 ==> exists|pts: Seq<IntPoint>, segs: Seq<IdSegment>|
        {
            &&& sweep_order(points, pts)
            &&& segment_order(shapes, pts, segs)
            &&& forall|g: int|
                0 <= g < groups.len() ==> (#[trigger] groups[g])@ == held_points(shapes, segs, pts, pts.len() as int, g)
        }
}

proof fn lemma_advance_step(segs: Seq<IdSegment>, tree: Seq<IdSegment>, i: int, x: i32)
    requires
        0 <= i < segs.len(),
        segs[i].v_segment.a.x <= x,
    ensures
        advance(segs, tree, i, x) == advance(
            segs,
            if x < segs[i].v_segment.b.x {
                tree_insert(tree, segs[i], x)
            } else {
                tree
            },
            i + 1,
            x,
        ),
{
}

/// Groups lone points by the shape that holds them: a point goes to the
/// shape of the edge right under it (or through it) on a sweep line, when
/// that edge runs to the right and the point is not on that shape's
/// boundary; points held by no shape are dropped. The groups follow the
/// shapes; within a group the points come in the sweep's order, by `x`.
pub fn group_by_shapes(shapes: &Vec<Vec<Vec<IntPoint>>>, points: &Vec<IntPoint>) -> (r: Vec<Vec<IntPoint>>)
    requires
        points@.len() > 0 ==> paths_nonempty(shapes@),
    ensures
        grouped(shapes@, points@, r@),
        forall|g: int, k: int|
            0 <= g < r@.len() && 0 <= k < r@[g]@.len() ==> points@.contains(#[trigger] r@[g]@[k]),
        groups_total(r@, r@.len() as int) <= points@.len(),
        forall|g: int, k: int|
            0 <= g < r@.len() && 0 <= k < r@[g]@.len() ==> !on_shape_boundary(shapes@[g]@, #[trigger] r@[g]@[k]),
{
    let mut groups: Vec<Vec<IntPoint>> = Vec::new();
    let mut g: usize = 0;
    while g < shapes.len()
        invariant
            g <= shapes@.len(),
            groups@.len() == g,
            forall|i: int| 0 <= i < g ==> (#[trigger] groups@[i])@.len() == 0,
            groups_total(groups@, g as int) == 0,
        decreases shapes@.len() - g,
    {
        let ghost before = groups@;
        groups.push(Vec::new());
        proof {
            assert(groups_total(groups@, g as int) == groups_total(before, g as int)) by {
                lemma_groups_total_prefix(before, groups@, g as int);
            }
        }
        g += 1;
    }
    if points.len() == 0 {
        return groups;
    }
    let mut sorted = points.clone();
    proof {
        assert(sorted@ =~= points@);
    }
    sort_by_x(&mut sorted);
    let x_min = sorted[0].x;
    let x_max = sorted[sorted.len() - 1].x;
    let mut segments = collect_segments(shapes, x_min, x_max);
    sort_by_left_x(&mut segments);
    let ghost pts = sorted@;
    let ghost segs = segments@;
    proof {
        assert(sweep_order(points@, pts));
        assert(segment_order(shapes@, pts, segs));
    }
    let empty_data = SegmentData { direction: false, shape_index: usize::MAX };
    let mut tree = ExpiringSegments { segments: Vec::new() };
    let mut i: usize = 0;
    let mut k: usize = 0;
    proof {
        assert forall|g: int| 0 <= g < groups@.len() implies (#[trigger] groups@[g])@ == held_points(
            shapes@,
            segs,
            pts,
            0,
            g,
        ) by {
            assert(groups@[g]@ =~= Seq::<IntPoint>::empty());
        }
    }
    while k < sorted.len()
        invariant
            k <= sorted@.len(),
            sorted@ == pts,
            segments@ == segs,
            sorted@.to_multiset() == points@.to_multiset(),
            groups@.len() == shapes@.len(),
            i <= segments@.len(),
            empty_data == no_holder(),
            (tree.segments@, i as int) == sweep_at(segs, pts, k as int),
            forall|g: int| 0 <= g < groups@.len() ==> (#[trigger] groups@[g])@ == held_points(shapes@, segs, pts, k as int, g),
            forall|g: int, j: int|
                0 <= g < groups@.len() && 0 <= j < groups@[g]@.len() ==> points@.contains(#[trigger] groups@[g]@[j]),
            groups_total(groups@, groups@.len() as int) <= k,
            forall|g: int, j: int|
                0 <= g < groups@.len() && 0 <= j < groups@[g]@.len() ==> !on_shape_boundary(
                    shapes@[g]@,
                    #[trigger] groups@[g]@[j],
                ),
        decreases sorted@.len() - k,
    {
        let p = sorted[k];
        let ghost t0 = tree.segments@;
        let ghost i0 = i as int;
        while i < segments.len()
            invariant
                i <= segments@.len(),
                segments@ == segs,
                advance(segs, t0, i0, p.x) == advance(segs, tree.segments@, i as int, p.x),
            ensures
                advance(segs, t0, i0, p.x) == (tree.segments@, i as int),
            decreases segments@.len() - i,
        {
            let id_segment = segments[i];
            if p.x < id_segment.v_segment.a.x {
                break;
            }
            proof {
                lemma_advance_step(segs, tree.segments@, i as int, p.x);
            }
            if p.x < id_segment.v_segment.b.x {
                tree.insert(id_segment, p.x);
            }
            i += 1;
        }
        let segment_data = tree.first_less_or_equal_by(p.x, empty_data, p);
        proof {
            assert(segment_data == holder(segs, pts, k as int));
            assert((tree.segments@, i as int) == sweep_at(segs, pts, k + 1));
        }
        let ghost before = groups@;
        if segment_data.direction && segment_data.shape_index < groups.len() && !is_on_shape_boundary(
            &shapes[segment_data.shape_index],
            p,
        ) {
            let mut group = groups.remove(segment_data.shape_index);
            group.push(p);
            groups.insert(segment_data.shape_index, group);
            proof {
                assert(groups@ =~= before.update(segment_data.shape_index as int, group));
                lemma_groups_total_update(before, segment_data.shape_index as int, group, before.len() as int);
                assert(sorted@.contains(p)) by {
                    assert(sorted@[k as int] == p);
                }
                assert(sorted@.to_multiset().count(p) > 0);
                assert(points@.to_multiset().count(p) > 0);
                let s = segment_data.shape_index as int;
                assert forall|g: int, j: int|
                    0 <= g < groups@.len() && 0 <= j < groups@[g]@.len() implies points@.contains(
                    #[trigger] groups@[g]@[j],
                ) by {
                    if g != s {
                        assert(groups@[g] == before[g]);
                    } else if j < before[s]@.len() {
                        assert(groups@[g]@[j] == before[s]@[j]);
                    }
                }
                assert forall|g: int, j: int|
                    0 <= g < groups@.len() && 0 <= j < groups@[g]@.len() implies !on_shape_boundary(
                    shapes@[g]@,
                    #[trigger] groups@[g]@[j],
                ) by {
                    if g != s {
                        assert(groups@[g] == before[g]);
                    } else if j < before[s]@.len() {
                        assert(groups@[g]@[j] == before[s]@[j]);
                    }
                }
            }
        }
        proof {
            assert forall|g: int| 0 <= g < groups@.len() implies (#[trigger] groups@[g])@ == held_points(
                shapes@,
                segs,
                pts,
                k + 1,
                g,
            ) by {
                assert(pts[k as int] == p);
                if holds(shapes@, segs, pts, k as int, g) {
                    assert(g == segment_data.shape_index);
                } else if g != segment_data.shape_index {
                    assert(groups@[g] == before[g]);
                }
            }
        }
        k += 1;
    }
    proof {
        assert(grouped(shapes@, points@, groups@)) by {
            assert(sweep_order(points@, pts));
            assert(segment_order(shapes@, pts, segs));
        }
    }
    groups
}

} // verus!
