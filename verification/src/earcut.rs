//! Ear clipping for contours of at most 64 points, with the remaining
//! vertices kept in a 64-bit mask.
use crate::bits::{
    count_ones, dist, fwd, is_next, is_prev, lemma_clear_bit, lemma_count_at_least, lemma_count_single,
    lemma_count_subset, lemma_count_sum4, lemma_mask_ops, lemma_mask_single, lemma_next_dist,
    lemma_next_unique, lemma_prev_dist, lemma_trailing_zeros, lemma_has_is_mask, mask_has, next_of, popcount, prev_of,
    Bit,
};
use vstd::std_specs::bits::u64_trailing_zeros;
use crate::chain::{lemma_steps, lemma_steps_distinct, step};
use crate::ring::{
    contour_area, lemma_cut_ear, lemma_cut_ear_closed, lemma_fan_ring, lemma_fan_ring_closed, lemma_ring_full,
    lemma_ring_small, lemma_tris_area_append, lemma_walk_last, ring_area, tris_area,
};
use crate::geom::{area_two_spec, IndexPoint, IntPoint, IntRect, IntTriangle, IntVector};
use crate::index::IndexType;
use crate::triangulation::{IntTriangulation, RawIntTriangulation};
use vstd::prelude::*;

verus! {

/// Where a point lies relative to a triangle whose edge `ca` is open.
#[derive(Clone, Copy, Debug, PartialEq, Eq, Structural)]
pub enum ABCExcludeResult {
    Inside,
    Outside,
    OutsideEdge,
}

/// The point `p` lies strictly inside the counter-clockwise triangle `abc`.
pub open spec fn strictly_inside(a: IntPoint, b: IntPoint, c: IntPoint, p: IntPoint) -> bool {
    area_two_spec(a, b, p) > 0 && area_two_spec(b, c, p) > 0 && area_two_spec(c, a, p) > 0
}

/// `p` lies strictly between `a` and `b`, given that the three are on a line.
pub open spec fn strictly_between(a: IntPoint, b: IntPoint, p: IntPoint) -> bool {
    (a.x - p.x) * (b.x - p.x) + (a.y - p.y) * (b.y - p.y) < 0
}

pub open spec fn exclude_ca_spec(a: IntPoint, b: IntPoint, c: IntPoint, p: IntPoint) -> ABCExcludeResult {
    if area_two_spec(a, b, p) <= 0 || area_two_spec(b, c, p) <= 0 {
        ABCExcludeResult::Outside
    } else if area_two_spec(c, a, p) > 0 {
        ABCExcludeResult::Inside
    } else if area_two_spec(c, a, p) == 0 && strictly_between(a, c, p) {
        ABCExcludeResult::Inside
    } else {
        ABCExcludeResult::OutsideEdge
    }
}

/// A triangle with its edge vectors.
pub struct Abc {
    a: IntPoint,
    b: IntPoint,
    c: IntPoint,
    ab: IntVector,
    bc: IntVector,
    ca: IntVector,
}

impl Abc {
    pub closed spec fn wf(&self) -> bool {
        &&& self.a.is_safe() && self.b.is_safe() && self.c.is_safe()
        &&& self.ab.x == self.b.x - self.a.x && self.ab.y == self.b.y - self.a.y
        &&& self.bc.x == self.c.x - self.b.x && self.bc.y == self.c.y - self.b.y
        &&& self.ca.x == self.a.x - self.c.x && self.ca.y == self.a.y - self.c.y
    }

    pub closed spec fn spec_a(&self) -> IntPoint {
        self.a
    }

    pub closed spec fn spec_b(&self) -> IntPoint {
        self.b
    }

    pub closed spec fn spec_c(&self) -> IntPoint {
        self.c
    }

    pub fn new(a: IntPoint, b: IntPoint, c: IntPoint) -> (r: Self)
        requires
            a.is_safe(),
            b.is_safe(),
            c.is_safe(),
        ensures
            r.wf(),
            r.spec_a() == a,
            r.spec_b() == b,
            r.spec_c() == c,
    {
        let ab = b.subtract(a);
        let bc = c.subtract(b);
        let ca = a.subtract(c);
        Abc { a, b, c, ab, bc, ca }
    }

    /// Whether `p` lies strictly inside the triangle.
    pub fn contains(&self, p: IntPoint) -> (r: bool)
        requires
            self.wf(),
            p.is_safe(),
        ensures
            r == strictly_inside(self.spec_a(), self.spec_b(), self.spec_c(), p),
    {
        let ap = p.subtract(self.a);
        let a_cross = ap.cross_product(self.ab);
        if a_cross >= 0 {
            return false;
        }
        let bp = p.subtract(self.b);
        let b_cross = bp.cross_product(self.bc);
        if b_cross >= 0 {
            return false;
        }
        let cp = p.subtract(self.c);
        let c_cross = cp.cross_product(self.ca);
        c_cross < 0
    }

    /// Like `contains`, but a point on the open edge `ca` counts as inside
    /// and a point beyond `ca` (inside the other two edges) is told apart.
    pub fn contains_exclude_ca(&self, p: IntPoint) -> (r: ABCExcludeResult)
        requires
            self.wf(),
            p.is_safe(),
        ensures
            r == exclude_ca_spec(self.spec_a(), self.spec_b(), self.spec_c(), p),
    {
        let ap = p.subtract(self.a);
        let a_cross = ap.cross_product(self.ab);
        if a_cross >= 0 {
            return ABCExcludeResult::Outside;
        }
        let bp = p.subtract(self.b);
        let b_cross = bp.cross_product(self.bc);
        if b_cross >= 0 {
            return ABCExcludeResult::Outside;
        }
        let cp = p.subtract(self.c);
        let c_cross = cp.cross_product(self.ca);
        if c_cross < 0 {
            ABCExcludeResult::Inside
        } else if c_cross == 0 {
            if ab_contains(self.a, self.c, p) {
                ABCExcludeResult::Inside
            } else {
                ABCExcludeResult::OutsideEdge
            }
        } else {
            ABCExcludeResult::OutsideEdge
        }
    }
}

/// Whether `p`, on the line through `a` and `b`, lies strictly between them.
pub fn ab_contains(a: IntPoint, b: IntPoint, p: IntPoint) -> (r: bool)
    requires
        a.is_safe(),
        b.is_safe(),
        p.is_safe(),
    ensures
        r == strictly_between(a, b, p),
{
    let ap = a.subtract(p);
    let bp = b.subtract(p);
    ap.dot_product(bp) < 0
}

// ---------------------------------------------------------------------------
// Emitted triangles.

/// The fan of `count` triangles around `start` over the indices of `bits`,
/// each triangle as three contour indices.
pub open spec fn fan(bits: u64, start: int, count: nat) -> Seq<(int, int, int)> {
    Seq::new(
        count,
        |k: int|
            (start, step(bits, start, (k + 1) as nat), step(bits, start, (k + 2) as nat)),
    )
}

/// Every index of the mask addresses one of the first `n` points.
pub open spec fn mask_below(x: u64, n: int) -> bool {
    forall|j: int| #[trigger] mask_has(x, j) ==> j < n
}

pub proof fn lemma_step_in(bits: u64, start: int, k: nat, n: int)
    requires
        mask_has(bits, start),
        mask_below(bits, n),
    ensures
        mask_has(bits, step(bits, start, k)),
        0 <= step(bits, start, k) < n,
    decreases k,
{
    if k > 0 {
        lemma_step_in(bits, start, (k - 1) as nat, n);
        let p = step(bits, start, (k - 1) as nat);
        let q = next_of(bits, p);
        assert(exists|r: int| is_next(bits, p, r)) by {
            crate::bits::lemma_least_member_exists(bits, p);
        }
        assert(is_next(bits, p, q));
    }
}

/// Where ear clipping puts the triangles it finds.
pub trait EarcutStore {
    /// The triangles stored so far, as contour index triples.
    spec fn emitted(&self) -> Seq<(int, int, int)>;

    /// The store is consistent for the contour.
    spec fn store_inv(&self, contour: Seq<IntPoint>) -> bool;

    /// Stores the fan of `count` triangles around `start` over `bits`.
    fn collect_triangles(&mut self, contour: &Vec<IntPoint>, start: usize, bits: u64, count: u32)
        requires
            old(self).store_inv(contour@),
            contour@.len() <= 64,
            mask_has(bits, start as int),
            mask_below(bits, contour@.len() as int),
            count + 2 <= popcount(bits),
            old(self).emitted().len() + count <= 64,
        ensures
            final(self).store_inv(contour@),
            final(self).emitted() == old(self).emitted() + fan(bits, start as int, count as nat),
    ;
}

/// Collects triangles as a flat index buffer.
pub struct FlatEarcutStore<I> {
    pub indices: Vec<I>,
}

/// The triangles of a flat index buffer, three consecutive indices each.
pub open spec fn flat_triples<I: IndexType>(indices: Seq<I>) -> Seq<(int, int, int)> {
    Seq::new(
        indices.len() / 3,
        |t: int| (indices[3 * t].value() as int, indices[3 * t + 1].value() as int, indices[3 * t + 2].value() as int),
    )
}

/// The area sum of a flat index buffer is that of its triangles.
proof fn lemma_flat_area<I: IndexType>(pts: Seq<IntPoint>, indices: Seq<I>, k: nat)
    requires
        k <= indices.len() / 3,
    ensures
        crate::triangulation::flat_area_sum(pts, crate::triangulation::index_values(indices), k) == tris_area(
            pts,
            flat_triples(indices).subrange(0, k as int),
        ),
    decreases k,
{
    if k > 0 {
        lemma_flat_area(pts, indices, (k - 1) as nat);
        assert(flat_triples(indices).subrange(0, k as int).drop_last() =~= flat_triples(indices).subrange(
            0,
            k - 1,
        ));
    }
}

impl<I: IndexType> EarcutStore for FlatEarcutStore<I> {
    open spec fn emitted(&self) -> Seq<(int, int, int)> {
        flat_triples(self.indices@)
    }

    open spec fn store_inv(&self, contour: Seq<IntPoint>) -> bool {
        &&& self.indices@.len() % 3 == 0
        &&& I::index_limit() >= 63
        &&& forall|k: int| 0 <= k < self.indices@.len() ==> (#[trigger] self.indices@[k]).value() < contour.len()
    }

    fn collect_triangles(&mut self, contour: &Vec<IntPoint>, start: usize, bits: u64, count: u32) {
        let n = contour.len();
        let ghost e0 = self.emitted();
        proof {
            lemma_step_in(bits, start as int, 0, n as int);
            lemma_step_in(bits, start as int, 1, n as int);
        }
        let mut i = start;
        let a = I::from_usize(i);
        i = bits.next_wrapped_index(i);
        let mut b = I::from_usize(i);
        let mut k: u32 = 0;
        while k < count
            invariant
                k <= count,
                n == contour@.len(),
                n <= 64,
                mask_has(bits, start as int),
                mask_below(bits, n as int),
                I::index_limit() >= 63,
                a.value() == start,
                i == step(bits, start as int, (k + 1) as nat),
                b.value() == i,
                self.indices@.len() % 3 == 0,
                forall|m: int| 0 <= m < self.indices@.len() ==> (#[trigger] self.indices@[m]).value() < n,
                self.emitted() == e0 + fan(bits, start as int, k as nat),
            decreases count - k,
        {
            proof {
                lemma_step_in(bits, start as int, (k + 1) as nat, n as int);
                lemma_step_in(bits, start as int, (k + 2) as nat, n as int);
                assert(mask_has(bits, start as int));
            }
            i = bits.next_wrapped_index(i);
            let c = I::from_usize(i);
            let ghost before = self.indices@;
            proof {
                assert(self.emitted().len() == e0.len() + k);
                assert(before.len() / 3 == e0.len() + k);
            }
            self.indices.push(a);
            self.indices.push(b);
            self.indices.push(c);
            proof {
                assert(self.indices@.len() == before.len() + 3);
                assert forall|m: int| 0 <= m < self.indices@.len() implies (#[trigger] self.indices@[m]).value()
                    < n by {
                    if m < before.len() {
                        assert(self.indices@[m] == before[m]);
                    }
                }
                let t0: int = (before.len() / 3) as int;
                assert(t0 == e0.len() + k);
                assert(3 * t0 == before.len());
                assert(c.value() == step(bits, start as int, (k + 2) as nat));
                assert(self.emitted()[t0] == (start as int, step(bits, start as int, (k + 1) as nat), step(bits, start as int, (k + 2) as nat)));
                assert forall|t: int| 0 <= t < self.indices@.len() / 3 implies #[trigger] self.emitted()[t]
                    == (e0 + fan(bits, start as int, (k + 1) as nat))[t] by {
                    if t < t0 {
                        assert(self.indices@[3 * t] == before[3 * t]);
                        assert(self.indices@[3 * t + 1] == before[3 * t + 1]);
                        assert(self.indices@[3 * t + 2] == before[3 * t + 2]);
                        assert(self.emitted()[t] == (e0 + fan(bits, start as int, k as nat))[t]);
                        if t >= e0.len() {
                            assert(fan(bits, start as int, k as nat)[t - e0.len()] == fan(bits, start as int, (k + 1) as nat)[t - e0.len()]);
                        }
                    }
                }
                assert(self.emitted() =~= e0 + fan(bits, start as int, (k + 1) as nat));
            }
            b = c;
            k += 1;
        }
    }
}

// ---------------------------------------------------------------------------
// The solver.

/// The contour and the mask of remaining vertices are consistent.
pub open spec fn solver_ok(contour: Seq<IntPoint>, available: u64) -> bool {
    &&& 1 <= contour.len() <= 64
    &&& forall|k: int| 0 <= k < contour.len() ==> (#[trigger] contour[k]).is_safe()
    &&& mask_below(available, contour.len() as int)
}

/// The outcome of the search for a convex chain after a vertex.
#[derive(Clone, Copy, Debug, PartialEq, Eq, Structural)]
pub enum ConvexSearchResult {
    /// The whole remaining contour is convex from the start vertex.
    Circle,
    /// The convex chain ends at this vertex; `true` when the end sits on
    /// the start point.
    Index(usize, bool),
    /// No ear starts at the vertex.
    Empty,
}

proof fn lemma_next_member(x: u64, i: int)
    requires
        0 <= i < 64,
        exists|k: int| mask_has(x, k),
    ensures
        is_next(x, i, next_of(x, i)),
        mask_has(x, next_of(x, i)),
{
    crate::bits::lemma_least_member_exists(x, i);
}

fn point(contour: &Vec<IntPoint>, i: usize) -> (p: IntPoint)
    requires
        i < contour@.len(),
    ensures
        p == contour@[i as int],
{
    contour[i]
}

/// The vector from `q` to `p`.
pub open spec fn diff(p: IntPoint, q: IntPoint) -> IntVector {
    IntVector { x: (p.x - q.x) as i64, y: (p.y - q.y) as i64 }
}

/// The walk of `find_convex_part` from vertex `i`, whose incoming edge is
/// `ce`: it goes on while the chain from `i0` keeps turning
/// counter-clockwise with its closing edge inside; `fuel` bounds the steps.
pub open spec fn convex_walk(pts: Seq<IntPoint>, available: u64, i0: int, i1: int, i: int, ce: IntVector, fuel: nat) -> ConvexSearchResult
    decreases fuel,
{
    if i == i0 || fuel == 0 {
        ConvexSearchResult::Circle
    } else {
        let a = pts[i0];
        let ab = diff(pts[i1], a);
        let j = next_of(available, i);
        let cj = pts[j];
        let cc = diff(cj, pts[i]);
        let ca = diff(a, cj);
        if ab.cross_spec(ca) >= 0 || cc.cross_spec(ca) <= 0 || cc.cross_spec(ce) > 0 {
            if i == i1 {
                ConvexSearchResult::Empty
            } else if j == i0 {
                ConvexSearchResult::Circle
            } else if ab.cross_spec(ca) == 0 && a == cj {
                ConvexSearchResult::Index(j as usize, true)
            } else {
                ConvexSearchResult::Index(i as usize, false)
            }
        } else {
            convex_walk(pts, available, i0, i1, j, cc, (fuel - 1) as nat)
        }
    }
}

/// Looks for the longest convex chain of remaining vertices that starts
/// at `i0` and whose closing edge back to `i0` stays inside.
pub(crate) fn find_convex_part(contour: &Vec<IntPoint>, available: u64, i0: usize) -> (r: ConvexSearchResult)
    requires
        solver_ok(contour@, available),
        mask_has(available, i0 as int),
    ensures
        r matches ConvexSearchResult::Index(e, same) ==> {
            &&& mask_has(available, e as int)
            &&& e != i0
            &&& exists|u: int|
                mask_has(available, u) && 0 < dist(i0 as int, u) < dist(i0 as int, e as int)
            &&& same ==> contour@[e as int] == contour@[i0 as int]
        },
        r == convex_walk(
            contour@,
            available,
            i0 as int,
            next_of(available, i0 as int),
            next_of(available, i0 as int),
            diff(contour@[next_of(available, i0 as int)], contour@[i0 as int]),
            64,
        ),
{
    let ghost n = contour@.len() as int;
    proof {
        lemma_next_member(available, i0 as int);
    }
    let a = point(contour, i0);
    let i1 = available.next_wrapped_index(i0);
    let b = point(contour, i1);
    let mut i = i1;
    let ab = b.subtract(a);
    let mut ce = ab;
    let mut cj = point(contour, i);
    let ghost mut fuel: nat = 64;
    proof {
        assert(ab == diff(b, a));
    }
    while i != i0
        invariant
            fuel >= 1,
            i != i0 ==> fuel + dist(i0 as int, i as int) >= 65,
            convex_walk(contour@, available, i0 as int, i1 as int, i as int, ce, fuel) == convex_walk(
                contour@,
                available,
                i0 as int,
                i1 as int,
                i1 as int,
                ab,
                64,
            ),
            ab == diff(contour@[i1 as int], a),
            i1 as int == next_of(available, i0 as int),
            solver_ok(contour@, available),
            n == contour@.len(),
            mask_has(available, i0 as int),
            mask_has(available, i as int),
            is_next(available, i0 as int, i1 as int),
            mask_has(available, i1 as int),
            i == i0 || i == i1 || 0 < dist(i0 as int, i1 as int) < dist(i0 as int, i as int),
            i != i0 ==> dist(i0 as int, i1 as int) > 0,
            a == contour@[i0 as int],
            cj == contour@[i as int],
            ab.is_small(),
            ce.is_small(),
        decreases if i == i0 {
            0
        } else {
            64 - dist(i0 as int, i as int)
        },
    {
        proof {
            lemma_next_member(available, i as int);
            lemma_next_dist(available, i0 as int, i as int, next_of(available, i as int));
        }
        let j = available.next_wrapped_index(i);
        let ci = cj;
        cj = point(contour, j);
        proof {
            assert(contour@[i as int].is_safe());
            assert(contour@[j as int].is_safe());
        }
        let cc = cj.subtract(ci);
        let ca = a.subtract(cj);
        let cross_a = ab.cross_product(ca);
        let cross_c = cc.cross_product(ca);
        let cross_v = cc.cross_product(ce);
        if cross_a >= 0 || cross_c <= 0 || cross_v > 0 {
            if i == i1 {
                return ConvexSearchResult::Empty;
            } else if j == i0 {
                return ConvexSearchResult::Circle;
            }
            if cross_a == 0 && a == cj {
                return ConvexSearchResult::Index(j, true);
            }
            return ConvexSearchResult::Index(i, false);
        }
        proof {
            assert(cc == diff(cj, ci));
            assert(ca == diff(a, cj));
            if j != i0 {
                assert(dist(i0 as int, j as int) > dist(i0 as int, i as int));
            }
            fuel = (fuel - 1) as nat;
        }
        i = j;
        ce = cc;
    }
    ConvexSearchResult::Circle
}


/// The index of the lowest member of a non-empty mask.
fn lowest(bits: u64) -> (r: usize)
    requires
        bits != 0,
    ensures
        r < 64,
        mask_has(bits, r as int),
        bits & !(1u64 << (r as u64)) < bits,
        forall|j: int| #[trigger] mask_has(bits & !(1u64 << (r as u64)), j) == (mask_has(bits, j) && j != r),
{
    proof {
        lemma_trailing_zeros(bits);
        lemma_clear_bit(bits, u64_trailing_zeros(bits) as u64);
    }
    bits.trailing_zeros() as usize
}

/// Whether a remaining vertex outside the ear lies inside the triangle
/// `abc` (strictly, or on the open edge `ca` when the ear does not end on
/// its start point).
pub(crate) fn triangle_contains(
    contour: &Vec<IntPoint>,
    available: u64,
    a: IntPoint,
    b: IntPoint,
    c: IntPoint,
    ear_indices: u64,
    same_point: bool,
) -> (r: bool)
    requires
        solver_ok(contour@, available),
        a.is_safe(),
        b.is_safe(),
        c.is_safe(),
    ensures
        r == exists|j: int|
            mask_has(available, j) && !mask_has(ear_indices, j) && (if same_point {
                strictly_inside(a, b, c, contour@[j])
            } else {
                exclude_ca_spec(a, b, c, contour@[j]) == ABCExcludeResult::Inside
            }),
{
    let abc = Abc::new(a, b, c);
    let mut bits = available & !ear_indices;
    proof {
        lemma_mask_ops(available, ear_indices);
        lemma_mask_ops(available, !ear_indices);
        lemma_mask_ops(ear_indices, available);
    }
    while bits != 0
        invariant
            solver_ok(contour@, available),
            abc.wf(),
            abc.spec_a() == a && abc.spec_b() == b && abc.spec_c() == c,
            forall|j: int| #[trigger] mask_has(bits, j) ==> mask_has(available, j) && !mask_has(ear_indices, j),
            forall|j: int|
                mask_has(available, j) && !mask_has(ear_indices, j) && !mask_has(bits, j) ==> !(if same_point {
                    strictly_inside(a, b, c, contour@[j])
                } else {
                    exclude_ca_spec(a, b, c, contour@[j]) == ABCExcludeResult::Inside
                }),
        decreases bits,
    {
        let i = lowest(bits);
        bits = bits & !(1u64 << (i as u64));
        proof {
            assert(mask_has(available, i as int));
            assert(contour@[i as int].is_safe());
        }
        let p = point(contour, i);
        if same_point {
            if abc.contains(p) {
                return true;
            }
        } else {
            if abc.contains_exclude_ca(p) == ABCExcludeResult::Inside {
                return true;
            }
        }
    }
    proof {
        crate::bits::lemma_bit_zero(bits);
    }
    false
}

/// The bounding box of the points of a non-empty mask: it holds every
/// point, and each of its sides passes through one.
pub(crate) fn bounding_box(contour: &Vec<IntPoint>, indices: u64) -> (r: IntRect)
    requires
        indices != 0,
        mask_below(indices, contour@.len() as int),
    ensures
        r.min_x <= r.max_x && r.min_y <= r.max_y,
        forall|j: int| mask_has(indices, j) ==> r.has(#[trigger] contour@[j]),
        exists|j: int| mask_has(indices, j) && r.min_x == (#[trigger] contour@[j]).x,
        exists|j: int| mask_has(indices, j) && r.max_x == (#[trigger] contour@[j]).x,
        exists|j: int| mask_has(indices, j) && r.min_y == (#[trigger] contour@[j]).y,
        exists|j: int| mask_has(indices, j) && r.max_y == (#[trigger] contour@[j]).y,
{
    let i0 = lowest(indices);
    let mut bits = indices & !(1u64 << (i0 as u64));
    let mut rect = IntRect::with_point(point(contour, i0));
    let ghost mut w: (int, int, int, int) = (i0 as int, i0 as int, i0 as int, i0 as int);
    while bits != 0
        invariant
            mask_below(indices, contour@.len() as int),
            rect.min_x <= rect.max_x && rect.min_y <= rect.max_y,
            forall|j: int| #[trigger] mask_has(bits, j) ==> mask_has(indices, j),
            forall|j: int| mask_has(indices, j) && !mask_has(bits, j) ==> rect.has(#[trigger] contour@[j]),
            mask_has(indices, w.0) && rect.min_x == contour@[w.0].x,
            mask_has(indices, w.1) && rect.max_x == contour@[w.1].x,
            mask_has(indices, w.2) && rect.min_y == contour@[w.2].y,
            mask_has(indices, w.3) && rect.max_y == contour@[w.3].y,
        decreases bits,
    {
        let i = lowest(bits);
        bits = bits & !(1u64 << (i as u64));
        let p = point(contour, i);
        proof {
            if p.x < rect.min_x {
                w.0 = i as int;
            }
            if p.x > rect.max_x {
                w.1 = i as int;
            }
            if p.y < rect.min_y {
                w.2 = i as int;
            }
            if p.y > rect.max_y {
                w.3 = i as int;
            }
        }
        rect.unsafe_add_point(&p);
    }
    proof {
        crate::bits::lemma_bit_zero(bits);
    }
    rect
}

/// `p` lies in the bounding box of the points of the members of `ear`.
#[verifier::opaque]
pub open spec fn in_ear_box(contour: Seq<IntPoint>, ear: u64, p: IntPoint) -> bool {
    &&& exists|j: int| mask_has(ear, j) && (#[trigger] contour[j]).x <= p.x
    &&& exists|j: int| mask_has(ear, j) && p.x <= (#[trigger] contour[j]).x
    &&& exists|j: int| mask_has(ear, j) && (#[trigger] contour[j]).y <= p.y
    &&& exists|j: int| mask_has(ear, j) && p.y <= (#[trigger] contour[j]).y
}

/// The cross product of `p - a` and `a - e`: negative when `p` lies on the
/// inner side of the closing edge from `e` to `a`.
pub open spec fn closing_side(a: IntPoint, e: IntPoint, p: IntPoint) -> int {
    (p.x - a.x) * (a.y - e.y) - (p.y - a.y) * (a.x - e.x)
}

/// A remaining vertex outside the ear that the filter looks at: in the
/// ear's box and on the inner side of the closing edge (or on it, unless
/// the ear ends on its start point).
pub open spec fn filter_candidate(
    contour: Seq<IntPoint>,
    available: u64,
    ear: u64,
    a: IntPoint,
    e: IntPoint,
    same_point: bool,
    j: int,
) -> bool {
    &&& mask_has(available, j)
    &&& !mask_has(ear, j)
    &&& in_ear_box(contour, ear, contour[j])
    &&& closing_side(a, e, contour[j]) <= 0
    &&& !(closing_side(a, e, contour[j]) == 0 && same_point)
}

/// Keeps the remaining vertices outside the ear that may cut it: those in
/// the ear's bounding box, on the inner side of the closing edge and
/// beyond the first triangle's open edge `ca`. `None` when one lies inside
/// the first triangle.
pub fn fast_filter(
    contour: &Vec<IntPoint>,
    available: u64,
    a: IntPoint,
    b: IntPoint,
    c: IntPoint,
    e: IntPoint,
    ear_indices: u64,
    same_point: bool,
) -> (r: Option<u64>)
    requires
        solver_ok(contour@, available),
        ear_indices != 0,
        forall|j: int| #[trigger] mask_has(ear_indices, j) ==> mask_has(available, j),
        a.is_safe(),
        b.is_safe(),
        c.is_safe(),
        e.is_safe(),
    ensures
        r is None <==> exists|j: int|
            filter_candidate(contour@, available, ear_indices, a, e, same_point, j) && exclude_ca_spec(
                a,
                b,
                c,
                #[trigger] contour@[j],
            ) == ABCExcludeResult::Inside,
        r matches Some(f) ==> forall|j: int|
            #[trigger] mask_has(f, j) <==> filter_candidate(contour@, available, ear_indices, a, e, same_point, j)
                && exclude_ca_spec(a, b, c, contour@[j]) == ABCExcludeResult::OutsideEdge,
{
    let rect = bounding_box(contour, ear_indices);
    let abc = Abc::new(a, b, c);
    let ae = a.subtract(e);
    let mut filtered: u64 = 0;
    let mut bits = available & !ear_indices;
    let ghost pts = contour@;
    proof {
        lemma_mask_ops(available, ear_indices);
        lemma_mask_ops(available, !ear_indices);
        lemma_mask_ops(ear_indices, available);
        crate::bits::lemma_bit_zero(0u64);
        assert forall|p: IntPoint| #[trigger] rect.has(p) == in_ear_box(pts, ear_indices, p) by {
            reveal(in_ear_box);
            if in_ear_box(pts, ear_indices, p) {
                let j0 = choose|j: int| mask_has(ear_indices, j) && (#[trigger] pts[j]).x <= p.x;
                let j1 = choose|j: int| mask_has(ear_indices, j) && p.x <= (#[trigger] pts[j]).x;
                let j2 = choose|j: int| mask_has(ear_indices, j) && (#[trigger] pts[j]).y <= p.y;
                let j3 = choose|j: int| mask_has(ear_indices, j) && p.y <= (#[trigger] pts[j]).y;
                assert(rect.has(pts[j0]));
                assert(rect.has(pts[j1]));
                assert(rect.has(pts[j2]));
                assert(rect.has(pts[j3]));
            }
        }
    }
    while bits != 0
        invariant
            solver_ok(contour@, available),
            pts == contour@,
            abc.wf(),
            abc.spec_a() == a && abc.spec_b() == b && abc.spec_c() == c,
            a.is_safe(),
            ae.is_small(),
            ae.x == a.x - e.x && ae.y == a.y - e.y,
            forall|p: IntPoint| #[trigger] rect.has(p) == in_ear_box(pts, ear_indices, p),
            forall|j: int| #[trigger] mask_has(bits, j) ==> mask_has(available, j) && !mask_has(ear_indices, j),
            forall|j: int|
                mask_has(available, j) && !mask_has(ear_indices, j) && !mask_has(bits, j) ==> !(
                filter_candidate(pts, available, ear_indices, a, e, same_point, j) && exclude_ca_spec(
                    a,
                    b,
                    c,
                    #[trigger] pts[j],
                ) == ABCExcludeResult::Inside),
            forall|j: int|
                #[trigger] mask_has(filtered, j) <==> (mask_has(available, j) && !mask_has(ear_indices, j)
                    && !mask_has(bits, j) && filter_candidate(pts, available, ear_indices, a, e, same_point, j)
                    && exclude_ca_spec(a, b, c, pts[j]) == ABCExcludeResult::OutsideEdge),
        decreases bits,
    {
        let index = lowest(bits);
        let ghost bits_before = bits;
        bits = bits & !(1u64 << (index as u64));
        proof {
            assert(mask_has(available, index as int));
            assert(contour@[index as int].is_safe());
        }
        let p = point(contour, index);
        if !rect.contains(p) {
            continue;
        }
        let ap = p.subtract(a);
        let e_cross = ap.cross_product(ae);
        proof {
            assert(e_cross == closing_side(a, e, p));
        }
        if e_cross > 0 {
            continue;
        }
        if e_cross == 0 && same_point {
            continue;
        }
        let inside = abc.contains_exclude_ca(p);
        if inside == ABCExcludeResult::Inside {
            proof {
                assert(filter_candidate(pts, available, ear_indices, a, e, same_point, index as int));
            }
            return None;
        }
        if inside == ABCExcludeResult::Outside {
            continue;
        }
        proof {
            lemma_mask_ops(filtered, 1u64 << (index as u64));
            lemma_mask_single(index as u64);
        }
        filtered = filtered | (1u64 << (index as u64));
    }
    proof {
        crate::bits::lemma_bit_zero(bits);
    }
    Some(filtered)
}

/// The cross product of the vectors `u1 - u0` and `v1 - v0`.
pub open spec fn vec_cross(u0: IntPoint, u1: IntPoint, v0: IntPoint, v1: IntPoint) -> int {
    (u1.x - u0.x) * (v1.y - v0.y) - (u1.y - u0.y) * (v1.x - v0.x)
}

/// The walk of `find_point` over the fan of the ear around `start`, from
/// the fan vertex `i` backward, with at most `fuel` steps: at each step
/// the previous member `j` gives the fan triangle `a`, `j`, `i`. The walk
/// stops with nothing when `p` is not strictly on the inner side of the
/// border edge `j`-`i`; it gives `j` when `p` is strictly inside the
/// triangle, the member before `j` when `p` lies strictly inside the inner
/// edge `a`-`j`, nothing when `p` is on that edge's line elsewhere, and
/// goes on from `j` otherwise. Nothing either when it reaches `start`.
pub open spec fn fan_walk(
    contour: Seq<IntPoint>,
    ear: u64,
    a: IntPoint,
    start: int,
    p: IntPoint,
    i: int,
    fuel: nat,
) -> Option<int>
    decreases fuel,
{
    if fuel == 0 || i == start {
        None
    } else {
        let j = prev_of(ear, i);
        let b = contour[i];
        let c = contour[j];
        if vec_cross(c, b, b, p) <= 0 {
            None
        } else if vec_cross(c, a, c, p) < 0 {
            Some(j)
        } else if vec_cross(c, a, c, p) == 0 {
            if strictly_between(a, c, p) {
                Some(prev_of(ear, j))
            } else {
                None
            }
        } else {
            fan_walk(contour, ear, a, start, p, j, (fuel - 1) as nat)
        }
    }
}

/// Walks the ear fan backward from `end` to `start` looking for the fan
/// triangle that holds `p`; gives the vertex that the ear must be cut
/// back to, if any.
pub fn find_point(
    contour: &Vec<IntPoint>,
    a: IntPoint,
    start: usize,
    end: usize,
    p: IntPoint,
    ear_indices: u64,
) -> (r: Option<usize>)
    requires
        1 <= contour@.len() <= 64,
        forall|k: int| 0 <= k < contour@.len() ==> (#[trigger] contour@[k]).is_safe(),
        mask_below(ear_indices, contour@.len() as int),
        mask_has(ear_indices, start as int),
        mask_has(ear_indices, end as int),
        a == contour@[start as int],
        p.is_safe(),
    ensures
        r == (match fan_walk(contour@, ear_indices, a, start as int, p, end as int, 64) {
            Some(x) => Some(x as usize),
            None => None,
        }),
        r matches Some(x) ==> mask_has(ear_indices, x as int) && dist(start as int, x as int) <= dist(
            start as int,
            end as int,
        ),
{
    let ghost pts = contour@;
    let ghost target = fan_walk(pts, ear_indices, a, start as int, p, end as int, 64);
    let ghost mut fuel: nat = 64;
    let mut i = end;
    let mut b = point(contour, i);
    while i != start
        invariant
            1 <= contour@.len() <= 64,
            pts == contour@,
            forall|k: int| 0 <= k < contour@.len() ==> (#[trigger] contour@[k]).is_safe(),
            mask_below(ear_indices, contour@.len() as int),
            mask_has(ear_indices, start as int),
            mask_has(ear_indices, i as int),
            dist(start as int, i as int) <= dist(start as int, end as int),
            fuel > dist(start as int, i as int),
            target == fan_walk(pts, ear_indices, a, start as int, p, i as int, fuel),
            target == fan_walk(pts, ear_indices, a, start as int, p, end as int, 64),
            b == contour@[i as int],
            a == contour@[start as int],
            p.is_safe(),
        decreases dist(start as int, i as int),
    {
        proof {
            crate::bits::lemma_prev_member(ear_indices, i as int);
            lemma_prev_dist(ear_indices, start as int, i as int, prev_of(ear_indices, i as int));
            assert(ear_indices.has(start as int));
        }
        let prev = ear_indices.prev_wrapped_index(i);
        proof {
            crate::bits::lemma_prev_unique(ear_indices, i as int, prev as int);
        }
        let ghost i_before = i as int;
        i = prev;
        let c = point(contour, i);
        proof {
            assert(contour@[i as int].is_safe());
        }
        let bc = b.subtract(c);
        let bp = p.subtract(b);
        let b_cross = bc.cross_product(bp);
        let ac = a.subtract(c);
        let cp = p.subtract(c);
        let c_cross = ac.cross_product(cp);
        proof {
            assert(b_cross == vec_cross(c, b, b, p));
            assert(c_cross == vec_cross(c, a, c, p));
            assert(target == if b_cross <= 0 {
                None
            } else if c_cross < 0 {
                Some(i as int)
            } else if c_cross == 0 {
                if strictly_between(a, c, p) {
                    Some(prev_of(ear_indices, i as int))
                } else {
                    None
                }
            } else {
                fan_walk(pts, ear_indices, a, start as int, p, i as int, (fuel - 1) as nat)
            });
        }
        if b_cross <= 0 {
            return None;
        }
        if c_cross < 0 {
            return Some(i);
        } else if c_cross == 0 {
            if ab_contains(a, c, p) {
                proof {
                    if i == start {
                        assert(c == a);
                        assert((a.x - p.x) * (a.x - p.x) + (a.y - p.y) * (a.y - p.y) >= 0) by (nonlinear_arith);
                    }
                    crate::bits::lemma_prev_member(ear_indices, i as int);
                    lemma_prev_dist(ear_indices, start as int, i as int, prev_of(ear_indices, i as int));
                }
                proof {
                    assert(ear_indices.has(start as int));
                }
                let q = ear_indices.prev_wrapped_index(i);
                proof {
                    crate::bits::lemma_prev_unique(ear_indices, i as int, q as int);
                }
                return Some(q);
            } else {
                return None;
            }
        }
        b = c;
        proof {
            fuel = (fuel - 1) as nat;
        }
    }
    None
}

pub open spec fn max2(x: int) -> int {
    if x < 2 {
        2
    } else {
        x
    }
}

/// Membership in the cyclic range from `start` to `end` (distinct) is
/// being no farther from `start` than `end`.
proof fn lemma_range_dist(start: int, end: int, j: int)
    requires
        0 <= start < 64,
        0 <= end < 64,
        0 <= j < 64,
        start != end,
    ensures
        (if start < end {
            start <= j <= end
        } else {
            j <= end || start <= j
        }) <==> dist(start, j) <= dist(start, end),
{
}

/// The ear `ear` (the remaining vertices from `start` to `end`) cannot be
/// cut at all: for a triangle (or a triangle closed on its start point),
/// another remaining vertex lies inside it; for a longer ear, a remaining
/// vertex off the ear that the filter keeps lies inside the triangle of
/// its first three vertices.
pub open spec fn ear_blocked(pts: Seq<IntPoint>, available: u64, ear: u64, start: int, end: int, same_point: bool) -> bool {
    let a = pts[start];
    let i1 = next_of(ear, start);
    let b = pts[i1];
    let c = pts[next_of(ear, i1)];
    if popcount(ear) == 3 || popcount(ear) == 4 && same_point {
        exists|j: int|
            mask_has(available, j) && !mask_has(ear, j) && (if same_point {
                strictly_inside(a, b, c, #[trigger] pts[j])
            } else {
                exclude_ca_spec(a, b, c, pts[j]) == ABCExcludeResult::Inside
            })
    } else {
        let e = pts[if same_point {
            prev_of(ear, end)
        } else {
            end
        }];
        exists|j: int|
            filter_candidate(pts, available, ear, a, e, same_point, j) && exclude_ca_spec(a, b, c, #[trigger] pts[j])
                == ABCExcludeResult::Inside
    }
}

/// Checks the ear from `start` to `end`; when a remaining vertex cuts it,
/// shrinks it from the end. Gives the end of the ear that can be cut off,
/// or `None` when none can.
pub(crate) fn validate_and_shrink_ear(
    contour: &Vec<IntPoint>,
    available: u64,
    start: usize,
    end: usize,
    same_point: bool,
) -> (r: Option<usize>)
    requires
        solver_ok(contour@, available),
        mask_has(available, start as int),
        mask_has(available, end as int),
        start != end,
    ensures
        r matches Some(x) ==> mask_has(available, x as int) && dist(start as int, x as int) <= dist(
            start as int,
            end as int,
        ),
        exists|ear: u64|
            {
                &&& forall|j: int| #[trigger] mask_has(ear, j) == (mask_has(available, j) && dist(start as int, j) <= dist(
                    start as int,
                    end as int,
                ))
                &&& (r is None <==> ear_blocked(contour@, available, ear, start as int, end as int, same_point))
            },
{
    let range = u64::ones_in_range_include(start, end);
    let ear_indices = available & range;
    proof {
        lemma_mask_ops(available, range);
        lemma_has_is_mask(range);
        assert forall|j: int| 0 <= j < 64 implies #[trigger] mask_has(range, j) == (dist(start as int, j)
            <= dist(start as int, end as int)) by {
            lemma_range_dist(start as int, end as int, j);
            assert(range.has(j) == (if start < end { start <= j <= end } else { j <= end || start <= j }));
        }
        assert forall|j: int| #[trigger] mask_has(ear_indices, j) == (mask_has(available, j) && dist(
            start as int,
            j,
        ) <= dist(start as int, end as int)) by {
            if 0 <= j < 64 {
                assert(mask_has(range, j) == (dist(start as int, j) <= dist(start as int, end as int)));
            }
        }
        assert(mask_has(ear_indices, start as int));
        lemma_has_is_mask(ear_indices);
        assert(ear_indices.has(start as int));
        crate::bits::lemma_least_member_exists(ear_indices, start as int);
    }
    let i0 = start;
    let i1 = ear_indices.next_wrapped_index(i0);
    proof {
        crate::bits::lemma_least_member_exists(ear_indices, i1 as int);
    }
    let i2 = ear_indices.next_wrapped_index(i1);
    let a = point(contour, i0);
    let b = point(contour, i1);
    let c = point(contour, i2);
    proof {
        assert(contour@[i0 as int].is_safe());
        assert(contour@[i1 as int].is_safe());
        assert(contour@[i2 as int].is_safe());
    }
    let ear_count = count_ones(ear_indices);
    proof {
        assert(ear_blocked(contour@, available, ear_indices, start as int, end as int, same_point) == (if ear_count
            == 3 || ear_count == 4 && same_point {
            exists|j: int|
                mask_has(available, j) && !mask_has(ear_indices, j) && (if same_point {
                    strictly_inside(a, b, c, #[trigger] contour@[j])
                } else {
                    exclude_ca_spec(a, b, c, contour@[j]) == ABCExcludeResult::Inside
                })
        } else {
            ear_blocked(contour@, available, ear_indices, start as int, end as int, same_point)
        }));
    }
    if ear_count == 3 || ear_count == 4 && same_point {
        return if triangle_contains(contour, available, a, b, c, ear_indices, same_point) {
            None
        } else {
            Some(end)
        };
    }
    let mut ie0 = if same_point {
        proof {
            crate::bits::lemma_prev_member(ear_indices, end as int);
            lemma_prev_dist(ear_indices, start as int, end as int, prev_of(ear_indices, end as int));
            assert(ear_indices.has(start as int));
        }
        ear_indices.prev_wrapped_index(end)
    } else {
        end
    };
    let e = point(contour, ie0);
    proof {
        assert(contour@[ie0 as int].is_safe());
        crate::bits::lemma_bit_zero(ear_indices);
        assert(mask_has(ear_indices, start as int));
    }
    let mut candidates = match fast_filter(contour, available, a, b, c, e, ear_indices, same_point) {
        Some(f) => f,
        None => {
            return None;
        },
    };
    if candidates == 0 {
        return Some(end);
    }
    let mut ac = a.subtract(e);
    while candidates > 0
        invariant
            solver_ok(contour@, available),
            forall|j: int| #[trigger] mask_has(candidates, j) ==> mask_has(available, j),
            forall|j: int| #[trigger] mask_has(ear_indices, j) == (mask_has(available, j) && dist(
                start as int,
                j,
            ) <= dist(start as int, end as int)),
            mask_has(ear_indices, start as int),
            i0 == start,
            mask_has(ear_indices, ie0 as int),
            dist(start as int, ie0 as int) <= dist(start as int, end as int),
            a == contour@[start as int],
            a.is_safe(),
            ac.x == a.x - contour@[ie0 as int].x && ac.y == a.y - contour@[ie0 as int].y,
            contour@[ie0 as int].is_safe(),
        decreases candidates,
    {
        let j = lowest(candidates);
        candidates = candidates & !(1u64 << (j as u64));
        proof {
            assert(mask_has(available, j as int));
            assert(contour@[j as int].is_safe());
        }
        let p = point(contour, j);
        let ap = p.subtract(a);
        let cross = ac.cross_product(ap);
        if cross >= 0 {
            if let Some(new_end) = find_point(contour, a, i0, ie0, p, ear_indices) {
                ie0 = new_end;
                proof {
                    assert(contour@[ie0 as int].is_safe());
                }
                ac = a.subtract(point(contour, new_end));
            }
        }
    }
    Some(ie0)
}

/// Rings with the same members have the same area.
proof fn lemma_ring_same(pts: Seq<IntPoint>, x: u64, y: u64)
    requires
        forall|j: int| #[trigger] mask_has(x, j) == mask_has(y, j),
    ensures
        ring_area(pts, x) == ring_area(pts, y),
{
    assert forall|j: int| 0 <= j < 64 && #[trigger] crate::ring::in_mask(x)(j) implies crate::ring::ring_terms(
        pts,
        x,
    )(j) == crate::ring::ring_terms(pts, y)(j) by {
        crate::bits::lemma_least_member_exists(x, j);
        let q = next_of(x, j);
        assert forall|k: int| mask_has(y, k) implies fwd(j, q) <= #[trigger] fwd(j, k) by {
            assert(mask_has(x, k));
        }
        assert(is_next(y, j, q));
        crate::bits::lemma_next_unique(y, j, q);
    }
    crate::ring::lemma_psum_congr(
        crate::ring::in_mask(x),
        crate::ring::in_mask(y),
        crate::ring::ring_terms(pts, x),
        crate::ring::ring_terms(pts, y),
        64,
    );
}

/// Cutting the ear `bits` (the members of `a0` from `start` to `end`) off
/// the ring `a0` and storing its fan of `n` triangles keeps the area: the
/// ring's area is the fan's plus that of the ring `a1` that is left.
proof fn lemma_ear_area(
    pts: Seq<IntPoint>,
    a0: u64,
    bits: u64,
    a1: u64,
    start: int,
    end: int,
    same_point: bool,
    n: nat,
)
    requires
        mask_has(a0, start),
        mask_has(a0, end),
        forall|j: int|
            #[trigger] mask_has(bits, j) == (mask_has(a0, j) && (start == end || dist(start, j) <= dist(start, end))),
        forall|j: int|
            #[trigger] mask_has(a1, j) == (mask_has(a0, j) && (!mask_has(bits, j) || (j == start && !same_point)
                || j == end)),
        same_point ==> start != end && pts[start] == pts[end],
        popcount(bits) >= 3 || (!same_point && popcount(bits) >= 2),
        n + 2 + (if same_point {
            1int
        } else {
            0int
        }) == popcount(bits),
        start == end ==> popcount(a1) == 1,
    ensures
        ring_area(pts, a0) == ring_area(pts, a1) + tris_area(pts, fan(bits, start, n)),
{
    assert(mask_has(bits, start));
    if same_point {
        lemma_cut_ear_closed(pts, a0, bits, a1, start, end);
        assert forall|j: int| #[trigger] mask_has(bits, j) implies dist(start, j) <= dist(start, end) by {}
        lemma_walk_last(bits, start, end);
        lemma_fan_ring_closed(pts, bits, start);
    } else if start != end {
        lemma_cut_ear(pts, a0, bits, a1, start, end);
        lemma_fan_ring(pts, bits, start);
    } else {
        lemma_ring_same(pts, a0, bits);
        lemma_ring_small(pts, a1);
        lemma_fan_ring(pts, bits, start);
    }
}

/// Vertex `j` remains and lies on the ear from `start` to `end` (the whole
/// ring when they are the same vertex).
pub open spec fn in_ear(available: u64, start: int, end: int, j: int) -> bool {
    mask_has(available, j) && (start == end || dist(start, j) <= dist(start, end))
}

/// Cuts the ear from `start` to `end` off the remaining vertices and
/// stores its fan; when the ear ends on its start point, the start
/// vertex goes too and the last (empty) triangle is not stored.
fn collect_ear_triangles<S: EarcutStore>(
    contour: &Vec<IntPoint>,
    available: &mut u64,
    store: &mut S,
    start: usize,
    end: usize,
    same_point: bool,
)
    requires
        solver_ok(contour@, *old(available)),
        mask_has(*old(available), start as int),
        mask_has(*old(available), end as int),
        popcount(*old(available)) >= 3,
        same_point ==> start != end && exists|u: int|
            mask_has(*old(available), u) && 0 < dist(start as int, u) < dist(start as int, end as int),
        old(store).store_inv(contour@),
        old(store).emitted().len() + max2(popcount(*old(available)) as int) <= max2(contour@.len() as int),
        same_point ==> contour@[start as int] == contour@[end as int],
    ensures
        solver_ok(contour@, *final(available)),
        forall|j: int| #[trigger] mask_has(*final(available), j) ==> mask_has(*old(available), j),
        mask_has(*final(available), end as int),
        final(store).store_inv(contour@),
        final(store).emitted().len() + max2(popcount(*final(available)) as int) <= old(store).emitted().len()
            + max2(popcount(*old(available)) as int),
        !same_point ==> final(store).emitted().len() + max2(popcount(*final(available)) as int) == old(
            store,
        ).emitted().len() + max2(popcount(*old(available)) as int),
        tris_area(contour@, final(store).emitted()) + ring_area(contour@, *final(available)) == tris_area(
            contour@,
            old(store).emitted(),
        ) + ring_area(contour@, *old(available)),
        forall|j: int|
            #[trigger] mask_has(*final(available), j) == (mask_has(*old(available), j) && (!in_ear(
                *old(available),
                start as int,
                end as int,
                j,
            ) || (j == start && !same_point) || j == end)),
        exists|bits: u64|
            {
                &&& forall|j: int| #[trigger] mask_has(bits, j) == in_ear(*old(available), start as int, end as int, j)
                &&& final(store).emitted() == old(store).emitted() + fan(
                    bits,
                    start as int,
                    (popcount(bits) - 2 - if same_point {
                        1int
                    } else {
                        0int
                    }) as nat,
                )
            },
{
    let a0 = *available;
    let range = u64::ones_in_range_include(start, end);
    let bits = a0 & range;
    let s_bit = 1u64 << (start as u64);
    let e_bit = 1u64 << (end as u64);
    let mut invert = !bits;
    invert = invert | s_bit;
    invert = invert | e_bit;
    proof {
        lemma_mask_ops(a0, range);
        lemma_has_is_mask(range);
        assert(range.has(start as int) == (if start < end { start <= start <= end } else { start <= end || start <= start }));
        assert(range.has(end as int) == (if start < end { start <= end <= end } else { end <= end || start <= end }));
        lemma_mask_ops(bits, s_bit);
        lemma_mask_ops(!bits | s_bit, e_bit);
        lemma_mask_ops(!bits, s_bit);
        lemma_mask_single(start as u64);
        lemma_mask_single(end as u64);
        assert(range.has(start as int) || !range.has(start as int));
        assert(range.has(end as int) || !range.has(end as int));
        assert(mask_has(bits, start as int));
        assert(mask_has(bits, end as int));
        lemma_count_subset(bits, a0, 64);
        if start != end {
            lemma_count_at_least(bits, start as int, end as int, 0, 64);
        } else {
            assert forall|j: int| mask_has(a0, j) implies #[trigger] mask_has(bits, j) by {
                assert(range.has(j) == (if start < end { start <= j <= end } else { j <= end || start <= j }));
            }
            lemma_count_subset(a0, bits, 64);
        }
        if same_point {
            let u = choose|u: int|
                mask_has(a0, u) && 0 < dist(start as int, u) < dist(start as int, end as int);
            lemma_range_dist(start as int, end as int, u);
            assert(range.has(u) == (if start < end { start <= u <= end } else { u <= end || start <= u }));
            lemma_count_at_least(bits, start as int, end as int, u, 64);
        }
    }
    let c = count_ones(bits);
    let mut n = c - 2;
    if same_point {
        let keep = !s_bit;
        proof {
            lemma_mask_ops(invert, keep);
            lemma_mask_ops(s_bit, 0);
        }
        invert = invert & keep;
        n = n - 1;
    }
    let a1 = a0 & invert;
    proof {
        lemma_mask_ops(a0, invert);
        let se = if same_point {
            e_bit
        } else {
            s_bit | e_bit
        };
        lemma_mask_ops(s_bit, e_bit);
        assert forall|j: int| 0 <= j < 64 implies (if mask_has(a1, j) {
            1int
        } else {
            0int
        }) + (if mask_has(bits, j) {
            1int
        } else {
            0int
        }) == (if mask_has(a0, j) {
            1int
        } else {
            0int
        }) + (if mask_has(se, j) {
            1int
        } else {
            0int
        }) by {
            assert(range.has(j) == mask_has(range, j));
        }
        lemma_count_sum4(a1, bits, a0, se, 64);
        if same_point {
            lemma_count_single(e_bit, end as int, 64);
        } else if start == end {
            assert forall|j: int| mask_has(se, j) <==> j == start by {}
            lemma_count_single(se, start as int, 64);
        } else {
            lemma_count_single(s_bit, start as int, 64);
            lemma_count_single(e_bit, end as int, 64);
            lemma_mask_ops(s_bit, e_bit);
            assert forall|j: int| 0 <= j < 64 implies (if mask_has(s_bit, j) {
                1int
            } else {
                0int
            }) + (if mask_has(e_bit, j) {
                1int
            } else {
                0int
            }) == (if mask_has(se, j) {
                1int
            } else {
                0int
            }) + (if mask_has(0u64, j) {
                1int
            } else {
                0int
            }) by {
                crate::bits::lemma_bit_zero(0u64);
            }
            crate::bits::lemma_bit_zero(0u64);
            crate::bits::lemma_count_zero(0u64, 64);
            lemma_count_sum4(s_bit, e_bit, se, 0u64, 64);
        }
    }
    let ghost e_before = store.emitted();
    proof {
        assert forall|j: int| #[trigger] mask_has(bits, j) == (mask_has(a0, j) && (start == end || dist(
            start as int,
            j,
        ) <= dist(start as int, end as int))) by {
            if 0 <= j < 64 {
                assert(range.has(j) == mask_has(range, j));
                if start != end {
                    lemma_range_dist(start as int, end as int, j);
                }
            }
        }
        assert forall|j: int| #[trigger] mask_has(a1, j) == (mask_has(a0, j) && (!mask_has(bits, j) || (j
            == start && !same_point) || j == end)) by {}
        if start == end {
            lemma_count_single(a1, start as int, 64);
        }
        lemma_ear_area(contour@, a0, bits, a1, start as int, end as int, same_point, n as nat);
    }
    *available = a1;
    store.collect_triangles(contour, start, bits, n);
    proof {
        lemma_tris_area_append(contour@, e_before, fan(bits, start as int, n as nat));
        assert(n == popcount(bits) - 2 - if same_point {
            1int
        } else {
            0int
        });
        assert forall|j: int| #[trigger] mask_has(bits, j) == in_ear(a0, start as int, end as int, j) by {}
    }
}

/// Stores the fan of all remaining vertices around `start`.
fn collect_last_ear_triangles<S: EarcutStore>(contour: &Vec<IntPoint>, available: u64, store: &mut S, start: usize)
    requires
        solver_ok(contour@, available),
        mask_has(available, start as int),
        popcount(available) >= 3,
        old(store).store_inv(contour@),
        old(store).emitted().len() + max2(popcount(available) as int) <= max2(contour@.len() as int),
    ensures
        final(store).store_inv(contour@),
        final(store).emitted().len() == old(store).emitted().len() + popcount(available) - 2,
        final(store).emitted() == old(store).emitted() + fan(available, start as int, (popcount(available) - 2) as nat),
        tris_area(contour@, final(store).emitted()) == tris_area(contour@, old(store).emitted()) + ring_area(
            contour@,
            available,
        ),
{
    let c = count_ones(available);
    let ghost e_before = store.emitted();
    store.collect_triangles(contour, start, available, c - 2);
    proof {
        lemma_tris_area_append(contour@, e_before, fan(available, start as int, (c - 2) as nat));
        lemma_fan_ring(contour@, available, start as int);
    }
}

/// No point of the contour occurs twice.
pub open spec fn no_repeated_point(pts: Seq<IntPoint>) -> bool {
    forall|i: int, j: int| 0 <= i < j < pts.len() ==> #[trigger] pts[i] != #[trigger] pts[j]
}

/// The search for a convex chain from remaining vertex `i` over the ring
/// `rest`.
pub open spec fn walk_from(pts: Seq<IntPoint>, rest: u64, i: int) -> ConvexSearchResult {
    convex_walk(pts, rest, i, next_of(rest, i), next_of(rest, i), diff(pts[next_of(rest, i)], pts[i]), 64)
}

/// A ring `rest` of at least three contour vertices on which no vertex
/// closes the ring as one convex fan: where clipping gives up.
pub open spec fn clipping_stalled(pts: Seq<IntPoint>, rest: u64) -> bool {
    &&& mask_below(rest, pts.len() as int)
    &&& popcount(rest) >= 3
    &&& forall|i: int| mask_has(rest, i) ==> !(#[trigger] walk_from(pts, rest, i) is Circle)
}

/// Clips ears off the contour until fewer than three vertices remain and
/// stores the triangles. Gives `false`, and stops, when a full round over
/// the remaining vertices finds no ear to clip (the round would repeat
/// forever).
pub(crate) fn triangulate<S: EarcutStore>(contour: &Vec<IntPoint>, store: &mut S) -> (completed: bool)
    requires
        1 <= contour@.len() <= 64,
        forall|k: int| 0 <= k < contour@.len() ==> (#[trigger] contour@[k]).is_safe(),
        old(store).store_inv(contour@),
        old(store).emitted().len() == 0,
    ensures
        final(store).store_inv(contour@),
        final(store).emitted().len() <= max2(contour@.len() as int) - 2,
        completed ==> tris_area(contour@, final(store).emitted()) == contour_area(contour@),
        completed && no_repeated_point(contour@) ==> final(store).emitted().len() == max2(contour@.len() as int) - 2,
        !completed ==> exists|rest: u64|
            {
                &&& clipping_stalled(contour@, rest)
                &&& tris_area(contour@, final(store).emitted()) + ring_area(contour@, rest) == contour_area(contour@)
            },
        contour@.len() < 3 ==> completed && final(store).emitted().len() == 0,
        one_fan(contour@) ==> {
            &&& completed
            &&& final(store).emitted() == first_vertex_fan(contour@.len() as int)
            &&& triples_positive(contour@, final(store).emitted())
        },
        exists|full: u64|
            {
                &&& forall|j: int| #[trigger] mask_has(full, j) == (0 <= j < contour@.len())
                &&& contour@.len() >= 3 && convex_walk(
                    contour@,
                    full,
                    0,
                    next_of(full, 0),
                    next_of(full, 0),
                    diff(contour@[next_of(full, 0)], contour@[0]),
                    64,
                ) is Circle ==> completed && final(store).emitted() == fan(full, 0, (contour@.len() - 2) as nat)
            },
{
    let n = contour.len();
    let mut available = u64::ones_start_to_index(n);
    proof {
        lemma_has_is_mask(available);
        assert forall|j: int| 0 <= j < 64 implies #[trigger] mask_has(available, j) == (j < n) by {
            assert(available.has(j) == (n == 0 || j < n));
        }
        assert(mask_has(available, 0));
        lemma_count_prefix(available, n as int, 64);
        lemma_ring_full(contour@, available);
    }
    let mut i: usize = 0;
    let mut count = count_ones(available);
    let mut stall: u32 = 0;
    let ghost full = available;
    let ghost mut started = false;
    let ghost mut s0: int = 0;
    let ghost e0 = store.emitted();
    let ghost walk0 = convex_walk(
        contour@,
        full,
        0,
        next_of(full, 0),
        next_of(full, 0),
        diff(contour@[next_of(full, 0)], contour@[0]),
        64,
    );
    proof {
        assert forall|j: int| #[trigger] mask_has(full, j) == (0 <= j < contour@.len()) by {
            if !(0 <= j < 64) {
                assert(!mask_has(full, j));
            }
        }
    }
    while count >= 3 && stall <= count
        invariant
            forall|j: int| #[trigger] mask_has(full, j) == (0 <= j < contour@.len()),
            popcount(full) == n,
            !started ==> i == 0 && available == full && store.emitted() == e0 && e0.len() == 0 && stall == 0,
            started ==> !(walk0 is Circle),
            walk0 == convex_walk(
                contour@,
                full,
                0,
                next_of(full, 0),
                next_of(full, 0),
                diff(contour@[next_of(full, 0)], contour@[0]),
                64,
            ),
            n == contour@.len(),
            solver_ok(contour@, available),
            mask_has(available, i as int),
            count == popcount(available),
            count <= 64,
            store.store_inv(contour@),
            store.emitted().len() + max2(count as int) <= max2(n as int),
            tris_area(contour@, store.emitted()) + ring_area(contour@, available) == contour_area(contour@),
            mask_has(available, s0),
            no_repeated_point(contour@) ==> store.emitted().len() + max2(count as int) == max2(n as int),
            i as int == step(available, s0, stall as nat),
            forall|k: nat| k < stall ==> !(#[trigger] walk_from(contour@, available, step(available, s0, k)) is Circle),
        decreases count, count + 1 - stall,
    {
        let before = count;
        let ghost prev = available;
        let found = find_convex_part(contour, available, i);
        proof {
            if !started {
                assert(found == walk0);
            }
        }
        match found {
            ConvexSearchResult::Empty => {},
            ConvexSearchResult::Circle => {
                collect_last_ear_triangles(contour, available, store, i);
                proof {
                    if !started {
                        assert(store.emitted() =~= fan(full, 0, (n - 2) as nat));
                    }
                    lemma_full_witness(contour@, full, true, store.emitted());
                    lemma_one_fan_result(contour@, full, true, store.emitted());
                }
                return true;
            },
            ConvexSearchResult::Index(convex_end, same_point) => {
                if let Some(ear_end) = validate_and_shrink_ear(contour, available, i, convex_end, same_point) {
                    let same_point_after_shrink = same_point && ear_end == convex_end;
                    proof {
                        if same_point_after_shrink && no_repeated_point(contour@) {
                            if (i as int) < (ear_end as int) {
                                assert(contour@[i as int] != contour@[ear_end as int]);
                            } else {
                                assert(contour@[ear_end as int] != contour@[i as int]);
                            }
                        }
                    }
                    collect_ear_triangles(contour, &mut available, store, i, ear_end, same_point_after_shrink);
                }
            },
        }
        count = count_ones(available);
        proof {
            lemma_count_subset(available, prev, 64);
        }
        let progressed = count < before;
        if progressed {
            stall = 0;
        } else {
            stall = stall + 1;
        }
        proof {
            crate::bits::lemma_least_member_exists(available, i as int);
            started = true;
            if !progressed {
                crate::bits::lemma_count_subset_eq(available, prev, 64);
                assert forall|j: int| #[trigger] mask_has(available, j) == mask_has(prev, j) by {
                    if !(0 <= j < 64) {
                        assert(!mask_has(available, j) && !mask_has(prev, j));
                    }
                }
                crate::bits::lemma_mask_ext(available, prev);
                assert(found == walk_from(contour@, available, i as int));
            }
        }
        let ghost i_before = i as int;
        i = available.next_wrapped_index(i);
        proof {
            if progressed {
                s0 = i as int;
            } else {
                assert(step(available, s0, stall as nat) == next_of(available, step(available, s0, (stall - 1) as nat)));
                assert forall|k: nat| k < stall implies !(#[trigger] walk_from(
                    contour@,
                    available,
                    step(available, s0, k),
                ) is Circle) by {
                    if k + 1 == stall {
                        assert(step(available, s0, k) == i_before);
                    }
                }
            }
        }
    }
    proof {
        if count < 3 {
            lemma_ring_small(contour@, available);
        }
        if !started {
            assert(n < 3);
        }
        lemma_full_witness(contour@, full, count < 3, store.emitted());
        lemma_one_fan_result(contour@, full, count < 3, store.emitted());
        if count >= 3 {
            assert forall|m: int| mask_has(available, m) implies !(#[trigger] walk_from(contour@, available, m) is Circle) by {
                crate::chain::lemma_steps_cover(available, s0, m);
                let j = choose|j: nat| j < popcount(available) && step(available, s0, j) == m;
                assert(j < stall);
            }
            assert(clipping_stalled(contour@, available));
        }
    }
    count < 3
}


/// The contour turns counter-clockwise all the way round from its first
/// vertex, keeping each closing edge back to it inside: ear clipping takes
/// it in one fan from that vertex.
pub open spec fn one_fan(contour: Seq<IntPoint>) -> bool {
    exists|full: u64|
        {
            &&& forall|j: int| #[trigger] mask_has(full, j) == (0 <= j < contour.len())
            &&& contour.len() >= 3
            &&& convex_walk(
                contour,
                full,
                0,
                next_of(full, 0),
                next_of(full, 0),
                diff(contour[next_of(full, 0)], contour[0]),
                64,
            ) is Circle
        }
}

/// The fan from the first vertex: triangle `t` has the first vertex and
/// vertices `t + 1` and `t + 2`.
pub open spec fn first_vertex_fan(n: int) -> Seq<(int, int, int)> {
    Seq::new((n - 2) as nat, |t: int| (0, t + 1, t + 2))
}

/// Every triangle of the list turns counter-clockwise.
pub open spec fn triples_positive(pts: Seq<IntPoint>, tris: Seq<(int, int, int)>) -> bool {
    forall|t: int| 0 <= t < tris.len() ==> area_two_spec(pts[(#[trigger] tris[t]).0], pts[tris[t].1], pts[tris[t].2]) > 0
}

/// In the mask of the first `n` indices, the next of `i` is `i + 1`, and
/// of the last the first.
proof fn lemma_full_next(full: u64, n: int, i: int)
    requires
        forall|j: int| #[trigger] mask_has(full, j) == (0 <= j < n),
        1 <= n <= 64,
        0 <= i < n,
    ensures
        next_of(full, i) == if i + 1 < n { i + 1 } else { 0 },
{
    let r = if i + 1 < n { i + 1 } else { 0 };
    assert(mask_has(full, r));
    assert forall|k: int| mask_has(full, k) implies fwd(i, r) <= #[trigger] fwd(i, k) by {}
    lemma_next_unique(full, i, r);
}

/// In the mask of the first `n` indices, `k` steps from the first index
/// reach index `k`.
proof fn lemma_full_step(full: u64, n: int, k: nat)
    requires
        forall|j: int| #[trigger] mask_has(full, j) == (0 <= j < n),
        1 <= n <= 64,
        k < n,
    ensures
        step(full, 0, k) == k,
    decreases k,
{
    if k > 0 {
        lemma_full_step(full, n, (k - 1) as nat);
        lemma_full_next(full, n, k - 1);
    }
}

/// A walk that closes the circle from vertex `i` saw every later triangle
/// of the fan from the first vertex turn counter-clockwise.
proof fn lemma_circle_walk_positive(pts: Seq<IntPoint>, full: u64, i: int, ce: IntVector, fuel: nat)
    requires
        forall|j: int| #[trigger] mask_has(full, j) == (0 <= j < pts.len()),
        3 <= pts.len() <= 64,
        forall|k: int| 0 <= k < pts.len() ==> (#[trigger] pts[k]).is_safe(),
        1 <= i < pts.len(),
        fuel + i >= pts.len(),
        convex_walk(pts, full, 0, 1, i, ce, fuel) is Circle,
    ensures
        forall|j: int| i < j < pts.len() ==> area_two_spec(pts[0], pts[j - 1], #[trigger] pts[j]) > 0,
    decreases fuel,
{
    let n = pts.len() as int;
    lemma_full_next(full, n, i);
    if fuel > 0 && i + 1 < n {
        let a = pts[0];
        let ab = diff(pts[1], a);
        let j = i + 1;
        let cj = pts[j];
        let cc = diff(cj, pts[i]);
        let ca = diff(a, cj);
        assert(pts[i].is_safe() && cj.is_safe() && a.is_safe());
        let (px, py) = (pts[i].x as int, pts[i].y as int);
        let (qx, qy) = (cj.x as int, cj.y as int);
        let (ax, ay) = (a.x as int, a.y as int);
        assert(cc.x == qx - px && cc.y == qy - py);
        assert(ca.x == ax - qx && ca.y == ay - qy);
        assert((qx - px) * (ay - qy) - (qy - py) * (ax - qx) == (px - ax) * (qy - ay) - (py - ay) * (qx - ax))
            by (nonlinear_arith);
        assert(cc.cross_spec(ca) == area_two_spec(a, pts[i], cj));
        if ab.cross_spec(ca) >= 0 || cc.cross_spec(ca) <= 0 || cc.cross_spec(ce) > 0 {
            assert(i == 1 || j != 0);
            assert(false);
        } else {
            lemma_circle_walk_positive(pts, full, j, cc, (fuel - 1) as nat);
        }
    }
}

/// A contour taken in one fan: the fan from the first vertex, every
/// triangle turning counter-clockwise.
proof fn lemma_one_fan(pts: Seq<IntPoint>, full: u64)
    requires
        forall|j: int| #[trigger] mask_has(full, j) == (0 <= j < pts.len()),
        3 <= pts.len() <= 64,
        forall|k: int| 0 <= k < pts.len() ==> (#[trigger] pts[k]).is_safe(),
        convex_walk(pts, full, 0, next_of(full, 0), next_of(full, 0), diff(pts[next_of(full, 0)], pts[0]), 64) is Circle,
    ensures
        fan(full, 0, (pts.len() - 2) as nat) == first_vertex_fan(pts.len() as int),
        triples_positive(pts, first_vertex_fan(pts.len() as int)),
{
    let n = pts.len() as int;
    lemma_full_next(full, n, 0);
    assert forall|k: nat| k < n implies step(full, 0, k) == k by {
        lemma_full_step(full, n, k);
    }
    let f = fan(full, 0, (n - 2) as nat);
    assert forall|t: int| 0 <= t < n - 2 implies f[t] == first_vertex_fan(n)[t] by {
        assert(step(full, 0, (t + 1) as nat) == t + 1);
        assert(step(full, 0, (t + 2) as nat) == t + 2);
    }
    assert(f =~= first_vertex_fan(n));
    lemma_circle_walk_positive(pts, full, 1, diff(pts[1], pts[0]), 64);
    let g = first_vertex_fan(n);
    assert forall|t: int| 0 <= t < g.len() implies area_two_spec(pts[(#[trigger] g[t]).0], pts[g[t].1], pts[g[t].2]) > 0 by {
        assert(g[t] == (0int, t + 1, t + 2));
        assert(1 < t + 2 < n);
        assert(area_two_spec(pts[0], pts[t + 2 - 1], pts[t + 2]) > 0);
    }
}

/// What clipping gives a contour taken in one fan.
proof fn lemma_one_fan_result(pts: Seq<IntPoint>, full: u64, completed: bool, emitted: Seq<(int, int, int)>)
    requires
        forall|j: int| #[trigger] mask_has(full, j) == (0 <= j < pts.len()),
        pts.len() <= 64,
        forall|k: int| 0 <= k < pts.len() ==> (#[trigger] pts[k]).is_safe(),
        pts.len() >= 3 && convex_walk(
            pts,
            full,
            0,
            next_of(full, 0),
            next_of(full, 0),
            diff(pts[next_of(full, 0)], pts[0]),
            64,
        ) is Circle ==> completed && emitted == fan(full, 0, (pts.len() - 2) as nat),
    ensures
        one_fan(pts) ==> {
            &&& completed
            &&& emitted == first_vertex_fan(pts.len() as int)
            &&& triples_positive(pts, emitted)
        },
{
    if one_fan(pts) {
        let f = choose|f: u64|
            {
                &&& forall|j: int| #[trigger] mask_has(f, j) == (0 <= j < pts.len())
                &&& pts.len() >= 3
                &&& convex_walk(
                    pts,
                    f,
                    0,
                    next_of(f, 0),
                    next_of(f, 0),
                    diff(pts[next_of(f, 0)], pts[0]),
                    64,
                ) is Circle
            };
        assert forall|j: int| #[trigger] mask_has(f, j) == mask_has(full, j) by {}
        crate::bits::lemma_mask_ext(f, full);
        lemma_one_fan(pts, full);
    }
}

proof fn lemma_full_witness(pts: Seq<IntPoint>, full: u64, completed: bool, emitted: Seq<(int, int, int)>)
    requires
        forall|j: int| #[trigger] mask_has(full, j) == (0 <= j < pts.len()),
        pts.len() >= 3 && convex_walk(
            pts,
            full,
            0,
            next_of(full, 0),
            next_of(full, 0),
            diff(pts[next_of(full, 0)], pts[0]),
            64,
        ) is Circle ==> completed && emitted == fan(full, 0, (pts.len() - 2) as nat),
    ensures
        exists|f: u64|
            {
                &&& forall|j: int| #[trigger] mask_has(f, j) == (0 <= j < pts.len())
                &&& pts.len() >= 3 && convex_walk(
                    pts,
                    f,
                    0,
                    next_of(f, 0),
                    next_of(f, 0),
                    diff(pts[next_of(f, 0)], pts[0]),
                    64,
                ) is Circle ==> completed && emitted == fan(f, 0, (pts.len() - 2) as nat)
            },
{
}

/// A mask holding exactly the indices below `n` counts `n`.
proof fn lemma_count_prefix(x: u64, n: int, k: int)
    requires
        0 <= n <= 64,
        0 <= k <= 64,
        forall|j: int| 0 <= j < 64 ==> #[trigger] mask_has(x, j) == (j < n),
    ensures
        crate::bits::count_below(x, k) == if k < n {
            k
        } else {
            n
        },
    decreases k,
{
    if k > 0 {
        lemma_count_prefix(x, n, k - 1);
    }
}

// ---------------------------------------------------------------------------
// Storing triangles with neighbour links.

/// A triangle and one of its vertices, the one opposite an edge.
#[derive(Clone, Copy, Debug, PartialEq, Eq, Structural)]
pub struct TriangleHandler {
    pub triangle: u8,
    pub vertex: u8,
}

/// An inner edge between two contour indices, `a < b`.
#[derive(Clone, Copy, Debug, PartialEq, Eq, Structural)]
pub struct Edge {
    pub a: u8,
    pub b: u8,
}

impl Edge {
    pub fn new(a: usize, b: usize) -> (r: Self)
        requires
            a < b < 256,
        ensures
            r.a == a && r.b == b,
    {
        Edge { a: a as u8, b: b as u8 }
    }
}

/// An edge met by one triangle, waiting for the triangle on its other side.
#[derive(Clone, Copy, Debug)]
pub struct EdgeItem {
    pub edge: Edge,
    pub handler: TriangleHandler,
}

/// Inner edges met by one triangle so far.
pub struct EdgePool {
    pub edges: Vec<EdgeItem>,
}

impl EdgePool {
    /// When `edge` is waiting, removes it and gives its handler; otherwise
    /// adds it with `handler`.
    pub fn insert(&mut self, edge: Edge, handler: TriangleHandler) -> (r: Option<TriangleHandler>)
        ensures
            r matches Some(h) ==> exists|k: int|
                0 <= k < old(self).edges@.len() && (#[trigger] old(self).edges@[k]).edge == edge
                    && old(self).edges@[k].handler == h && final(self).edges@ == old(
                    self,
                ).edges@.update(k, old(self).edges@.last()).drop_last(),
            r is None ==> (forall|k: int|
                0 <= k < old(self).edges@.len() ==> (#[trigger] old(self).edges@[k]).edge != edge)
                && final(self).edges@ == old(self).edges@.push(EdgeItem { edge, handler }),
    {
        let mut k: usize = 0;
        while k < self.edges.len()
            invariant
                k <= self.edges@.len(),
                self.edges@ == old(self).edges@,
                forall|m: int| 0 <= m < k ==> (#[trigger] self.edges@[m]).edge != edge,
            decreases self.edges@.len() - k,
        {
            if self.edges[k].edge == edge {
                let item = self.edges.swap_remove(k);
                return Some(item.handler);
            }
            k += 1;
        }
        self.edges.push(EdgeItem { edge, handler });
        None
    }
}

/// Collects triangles with the links between neighbours.
pub struct NetEarcutStore {
    pub triangles: Vec<IntTriangle>,
    pub pool: EdgePool,
    pub last: usize,
}

/// Triangle vertices address contour points and neighbour links address
/// triangles below `bound` (or are missing).
pub open spec fn net_triangles_ok(ts: Seq<IntTriangle>, contour: Seq<IntPoint>, bound: int) -> bool {
    &&& forall|t: int, k: int|
        0 <= t < ts.len() && 0 <= k < 3 ==> (#[trigger] ts[t].vertices[k]).index < contour.len()
            && ts[t].vertices[k].point == contour[ts[t].vertices[k].index as int]
    &&& forall|t: int, k: int|
        0 <= t < ts.len() && 0 <= k < 3 ==> (#[trigger] ts[t].neighbors[k]) == usize::MAX
            || ts[t].neighbors[k] < bound
}

/// The edge between two contour indices, smaller index first.
pub open spec fn edge_of(i0: int, i1: int) -> (int, int) {
    if i0 < i1 {
        (i0, i1)
    } else {
        (i1, i0)
    }
}

/// Every neighbour link is returned: the neighbour holds the triangle
/// among its own neighbours (links to `usize::MAX` mean none).
pub open spec fn links_mutual(ts: Seq<IntTriangle>) -> bool {
    forall|u: int, k: int|
        0 <= u < ts.len() && 0 <= k < 3 ==> {
            let nb = #[trigger] ts[u].neighbors[k];
            nb == usize::MAX || (nb < ts.len() && ts[nb as int].neighbors@.contains(u as usize))
        }
}

/// `new` is `old` with the neighbour slot `ov` of triangle `u` set to `val`.
pub open spec fn slot_set(old: Seq<IntTriangle>, new: Seq<IntTriangle>, u: int, ov: int, val: usize) -> bool {
    &&& new.len() == old.len()
    &&& 0 <= u < old.len()
    &&& 0 <= ov < 3
    &&& forall|w: int| 0 <= w < old.len() && w != u ==> #[trigger] new[w] == old[w]
    &&& new[u].vertices == old[u].vertices
    &&& new[u].neighbors[ov] == val
    &&& forall|m: int| 0 <= m < 3 && m != ov ==> #[trigger] new[u].neighbors[m] == old[u].neighbors[m]
}

/// What linking a new triangle `t` (not yet stored) has done so far to
/// the stored triangles `ts0`, now `ts`: the slots set to `t` belong to
/// the triangles in `found`, every other slot is unchanged, and each
/// triangle of `found` has a slot set to `t`.
pub open spec fn linking(ts0: Seq<IntTriangle>, ts: Seq<IntTriangle>, found: Seq<usize>, t: int) -> bool {
    &&& ts.len() == t
    &&& ts0.len() == t
    &&& forall|u: int, k: int|
        0 <= u < t && 0 <= k < 3 && (#[trigger] ts[u].neighbors[k]) == t ==> found.contains(u as usize)
    &&& forall|u: int, k: int|
        0 <= u < t && 0 <= k < 3 && (#[trigger] ts[u].neighbors[k]) != t ==> ts[u].neighbors[k]
            == ts0[u].neighbors[k]
    &&& forall|u: int, k: int|
        0 <= u < t && 0 <= k < 3 && (#[trigger] ts0[u].neighbors[k]) != usize::MAX ==> ts[u].neighbors[k]
            == ts0[u].neighbors[k]
    &&& forall|i: int|
        0 <= i < found.len() && #[trigger] found[i] != usize::MAX ==> found[i] < t && ts[found[i] as int].neighbors@.contains(
            t as usize,
        )
}

proof fn lemma_linking_start(ts0: Seq<IntTriangle>, t: int)
    requires
        ts0.len() == t,
        t < usize::MAX,
        links_mutual(ts0),
    ensures
        linking(ts0, ts0, Seq::empty(), t),
{
    assert forall|u: int, k: int| 0 <= u < t && 0 <= k < 3 && (#[trigger] ts0[u].neighbors[k]) == t implies Seq::<
        usize,
    >::empty().contains(u as usize) by {
        assert(ts0[u].neighbors[k] == usize::MAX || ts0[u].neighbors[k] < t);
    }
}

/// One more edge of the new triangle handled: either nothing changed
/// (`n` is `usize::MAX`) or the empty slot `ov` of triangle `n` now holds `t`.
proof fn lemma_linking_step(
    ts0: Seq<IntTriangle>,
    ts: Seq<IntTriangle>,
    ts_next: Seq<IntTriangle>,
    found: Seq<usize>,
    n: usize,
    t: int,
)
    requires
        linking(ts0, ts, found, t),
        t < usize::MAX,
        n == usize::MAX ==> ts_next == ts,
        n != usize::MAX ==> n < t && exists|ov: int|
            0 <= ov < 3 && ts[n as int].neighbors[ov] == usize::MAX && slot_set(ts, ts_next, n as int, ov, t as usize),
    ensures
        linking(ts0, ts_next, found.push(n), t),
{
    let f2 = found.push(n);
    if n == usize::MAX {
        assert forall|u: int, k: int| 0 <= u < t && 0 <= k < 3 && (#[trigger] ts_next[u].neighbors[k]) == t implies f2.contains(
            u as usize,
        ) by {
            let i = choose|i: int| 0 <= i < found.len() && found[i] == u as usize;
            assert(f2[i] == u as usize);
        }
        assert forall|i: int| 0 <= i < f2.len() && #[trigger] f2[i] != usize::MAX implies f2[i] < t && ts_next[f2[i] as int].neighbors@.contains(
            t as usize,
        ) by {
            assert(f2[i] == found[i]);
        }
    } else {
        let ov = choose|ov: int|
            0 <= ov < 3 && ts[n as int].neighbors[ov] == usize::MAX && slot_set(ts, ts_next, n as int, ov, t as usize);
        assert forall|u: int, k: int| 0 <= u < t && 0 <= k < 3 && (#[trigger] ts_next[u].neighbors[k]) == t implies f2.contains(
            u as usize,
        ) by {
            if u == n as int && k == ov {
                assert(f2[found.len() as int] == n);
            } else {
                if u != n as int {
                    assert(ts_next[u] == ts[u]);
                }
                assert(ts[u].neighbors[k] == t);
                let i = choose|i: int| 0 <= i < found.len() && found[i] == u as usize;
                assert(f2[i] == u as usize);
            }
        }
        assert forall|u: int, k: int| 0 <= u < t && 0 <= k < 3 && (#[trigger] ts_next[u].neighbors[k]) != t implies ts_next[u].neighbors[k]
            == ts0[u].neighbors[k] by {
            if u != n as int {
                assert(ts_next[u] == ts[u]);
            }
        }
        assert forall|u: int, k: int| 0 <= u < t && 0 <= k < 3 && (#[trigger] ts0[u].neighbors[k]) != usize::MAX implies ts_next[u].neighbors[k]
            == ts0[u].neighbors[k] by {
            if u != n as int {
                assert(ts_next[u] == ts[u]);
            }
        }
        assert forall|i: int| 0 <= i < f2.len() && #[trigger] f2[i] != usize::MAX implies f2[i] < t && ts_next[f2[i] as int].neighbors@.contains(
            t as usize,
        ) by {
            if i < found.len() {
                assert(f2[i] == found[i]);
                let w = found[i] as int;
                let m = choose|m: int| 0 <= m < 3 && ts[w].neighbors@[m] == t as usize;
                if w != n as int {
                    assert(ts_next[w] == ts[w]);
                } else {
                    assert(m != ov);
                    assert(ts_next[w].neighbors[m] == ts[w].neighbors[m]);
                }
                assert(ts_next[w].neighbors@[m] == t as usize);
            } else {
                assert(f2[i] == n);
                assert(ts_next[n as int].neighbors@[ov] == t as usize);
            }
        }
    }
}

/// Storing the new triangle, whose slots hold what linking found, keeps
/// every link mutual.
proof fn lemma_linking_done(ts0: Seq<IntTriangle>, ts: Seq<IntTriangle>, tri: IntTriangle, t: int)
    requires
        links_mutual(ts0),
        linking(ts0, ts, tri.neighbors@, t),
        t < usize::MAX,
    ensures
        links_mutual(ts.push(tri)),
{
    let ts4 = ts.push(tri);
    assert forall|u: int, k: int| 0 <= u < ts4.len() && 0 <= k < 3 implies {
        let nb = #[trigger] ts4[u].neighbors[k];
        nb == usize::MAX || (nb < ts4.len() && ts4[nb as int].neighbors@.contains(u as usize))
    } by {
        let nb = ts4[u].neighbors[k];
        if u < t {
            assert(ts4[u] == ts[u]);
            if nb == t {
                assert(tri.neighbors@.contains(u as usize));
                assert(ts4[t] == tri);
            } else if nb != usize::MAX {
                assert(nb == ts0[u].neighbors[k]);
                assert(nb < t);
                let m = choose|m: int| 0 <= m < 3 && ts0[nb as int].neighbors@[m] == u as usize;
                assert(ts0[nb as int].neighbors[m] != usize::MAX);
                assert(ts[nb as int].neighbors[m] == ts0[nb as int].neighbors[m]);
                assert(ts4[nb as int] == ts[nb as int]);
                assert(ts4[nb as int].neighbors@[m] == u as usize);
            }
        } else {
            assert(ts4[u] == tri);
            if nb != usize::MAX {
                assert(tri.neighbors@[k] == nb);
                assert(nb < t);
                assert(ts4[nb as int] == ts[nb as int]);
            }
        }
    }
}

impl NetEarcutStore {
    /// Pool items point at triangles below `bound`, or at triangle `bound`
    /// through one of the edges `done`.
    pub open spec fn pool_ok(&self, bound: int, done: Set<(int, int)>) -> bool {
        forall|k: int|
            0 <= k < self.pool.edges@.len() ==> {
                let item = #[trigger] self.pool.edges@[k];
                &&& item.handler.vertex < 3
                &&& item.handler.triangle < bound || (item.handler.triangle == bound && done.contains(
                    (item.edge.a as int, item.edge.b as int),
                ))
            }
    }

    /// Pool items of earlier triangles wait on an empty neighbour slot;
    /// items of the triangle `bound` under construction wait on one of its
    /// slots that got no neighbour (`pending` holds what its slots got so
    /// far); no two items wait on the same slot.
    pub open spec fn pool_links(&self, bound: int, pending: Seq<usize>) -> bool {
        &&& forall|k: int|
            0 <= k < self.pool.edges@.len() ==> {
                let h = (#[trigger] self.pool.edges@[k]).handler;
                &&& h.triangle < bound ==> h.triangle < self.triangles@.len()
                    && self.triangles@[h.triangle as int].neighbors[h.vertex as int] == usize::MAX
                &&& h.triangle == bound ==> h.vertex < pending.len() && pending[h.vertex as int] == usize::MAX
            }
        &&& forall|k1: int, k2: int|
            0 <= k1 < k2 < self.pool.edges@.len() ==> (#[trigger] self.pool.edges@[k1]).handler != (
            #[trigger] self.pool.edges@[k2]).handler
    }

    /// Links the new triangle `t` across the edge `i0`-`i1` (its side
    /// opposite vertex `v`): a contour edge has no neighbour; an inner edge
    /// met before gets its triangle linked back to `t`; otherwise it waits.
    fn get_or_put(
        &mut self,
        Ghost(contour): Ghost<Seq<IntPoint>>,
        Ghost(done): Ghost<Set<(int, int)>>,
        Ghost(pending): Ghost<Seq<usize>>,
        i0: usize,
        i1: usize,
        t: usize,
        v: usize,
    ) -> (r: usize)
        requires
            pending.len() == v,
            old(self).pool_links(t as int, pending),
            contour.len() == old(self).last + 1,
            contour.len() <= 64,
            i0 < contour.len(),
            i1 < contour.len(),
            i0 != i1,
            t == old(self).triangles@.len(),
            t < 64,
            v < 3,
            net_triangles_ok(old(self).triangles@, contour, t + 1),
            old(self).pool_ok(t as int, done),
            !done.contains(edge_of(i0 as int, i1 as int)),
        ensures
            final(self).last == old(self).last,
            final(self).triangles@.len() == old(self).triangles@.len(),
            net_triangles_ok(final(self).triangles@, contour, t + 1),
            forall|u: int| 0 <= u < final(self).triangles@.len() ==> #[trigger] final(self).triangles@[u].vertices
                == old(self).triangles@[u].vertices,
            final(self).pool_ok(t as int, done.insert(edge_of(i0 as int, i1 as int))),
            r == usize::MAX || r < t,
            final(self).pool_links(t as int, pending.push(r)),
            r == usize::MAX ==> final(self).triangles@ == old(self).triangles@,
            r != usize::MAX ==> exists|ov: int|
                0 <= ov < 3 && old(self).triangles@[r as int].neighbors[ov] == usize::MAX && slot_set(
                    old(self).triangles@,
                    final(self).triangles@,
                    r as int,
                    ov,
                    t,
                ),
    {
        let (a, b) = if i0 < i1 {
            (i0, i1)
        } else {
            (i1, i0)
        };
        if b - a == 1 || a == 0 && b == self.last {
            proof {
                assert forall|k: int| 0 <= k < self.pool.edges@.len() implies {
                    let item = #[trigger] self.pool.edges@[k];
                    &&& item.handler.vertex < 3
                    &&& item.handler.triangle < t || (item.handler.triangle == t && done.insert(edge_of(i0 as int, i1 as int)).contains(
                        (item.edge.a as int, item.edge.b as int),
                    ))
                } by {}
            }
            return usize::MAX;
        }
        let handler = TriangleHandler { triangle: t as u8, vertex: v as u8 };
        let ghost before = self.pool.edges@;
        let found = self.pool.insert(Edge::new(a, b), handler);
        match found {
            Some(other) => {
                proof {
                    let k = choose|k: int|
                        0 <= k < before.len() && (#[trigger] before[k]).edge == Edge { a: a as u8, b: b as u8 }
                            && before[k].handler == other && self.pool.edges@ == before.update(k, before.last()).drop_last();
                    assert(before[k].handler.triangle < t);
                    assert forall|m: int| 0 <= m < self.pool.edges@.len() implies {
                        let item = #[trigger] self.pool.edges@[m];
                        &&& item.handler.vertex < 3
                        &&& item.handler.triangle < t || (item.handler.triangle == t && done.insert(edge_of(i0 as int, i1 as int)).contains(
                            (item.edge.a as int, item.edge.b as int),
                        ))
                    } by {
                        if m == k {
                            assert(self.pool.edges@[m] == before[before.len() - 1]);
                        } else {
                            assert(self.pool.edges@[m] == before[m]);
                        }
                    }
                }
                let ghost kk = choose|k: int|
                    0 <= k < before.len() && (#[trigger] before[k]).edge == Edge { a: a as u8, b: b as u8 }
                        && before[k].handler == other && self.pool.edges@ == before.update(k, before.last()).drop_last();
                let triangle = other.triangle as usize;
                let mut tr = self.triangles[triangle];
                tr.neighbors[other.vertex as usize] = t;
                let ghost ts0 = self.triangles@;
                self.triangles.set(triangle, tr);
                proof {
                    let after = self.pool.edges@;
                    assert forall|m: int| 0 <= m < after.len() implies #[trigger] after[m] == if m == kk {
                        before[before.len() - 1]
                    } else {
                        before[m]
                    } by {}
                    assert(before[kk].handler == other);
                    assert(ts0[triangle as int].neighbors[other.vertex as int] == usize::MAX);
                    assert forall|m: int| 0 <= m < after.len() implies {
                        let h = (#[trigger] after[m]).handler;
                        &&& h.triangle < t ==> h.triangle < self.triangles@.len()
                            && self.triangles@[h.triangle as int].neighbors[h.vertex as int] == usize::MAX
                        &&& h.triangle == t ==> h.vertex < pending.push(triangle).len()
                            && pending.push(triangle)[h.vertex as int] == usize::MAX
                    } by {
                        let src = if m == kk {
                            before.len() - 1
                        } else {
                            m
                        };
                        assert(after[m] == before[src]);
                        assert(src != kk);
                        if kk < src {
                            assert(before[kk].handler != before[src].handler);
                        } else {
                            assert(before[src].handler != before[kk].handler);
                        }
                        let h = after[m].handler;
                        if h.triangle < t {
                            if h.triangle as int == triangle as int {
                                assert(h.vertex != other.vertex);
                                assert(self.triangles@[triangle as int].neighbors[h.vertex as int] == ts0[triangle as int].neighbors[h.vertex as int]);
                            } else {
                                assert(self.triangles@[h.triangle as int] == ts0[h.triangle as int]);
                            }
                        }
                    }
                    assert forall|k1: int, k2: int| 0 <= k1 < k2 < after.len() implies (#[trigger] after[k1]).handler != (
                    #[trigger] after[k2]).handler by {
                        let s1 = if k1 == kk {
                            before.len() - 1
                        } else {
                            k1
                        };
                        let s2 = if k2 == kk {
                            before.len() - 1
                        } else {
                            k2
                        };
                        assert(after[k1] == before[s1]);
                        assert(after[k2] == before[s2]);
                        if s1 < s2 {
                            assert(before[s1].handler != before[s2].handler);
                        } else {
                            assert(before[s2].handler != before[s1].handler);
                        }
                    }
                    assert(slot_set(ts0, self.triangles@, triangle as int, other.vertex as int, t));
                }
                proof {
                    assert forall|u: int, k: int| 0 <= u < self.triangles@.len() && 0 <= k < 3 implies
                        (#[trigger] self.triangles@[u].vertices[k]).index < contour.len()
                        && self.triangles@[u].vertices[k].point == contour[self.triangles@[u].vertices[k].index as int] by {
                        assert(self.triangles@[u].vertices == ts0[u].vertices);
                    }
                    assert forall|u: int, k: int| 0 <= u < self.triangles@.len() && 0 <= k < 3 implies
                        (#[trigger] self.triangles@[u].neighbors[k]) == usize::MAX
                        || self.triangles@[u].neighbors[k] < t + 1 by {
                        if u != triangle {
                            assert(self.triangles@[u] == ts0[u]);
                        } else if k != other.vertex {
                            assert(self.triangles@[u].neighbors[k] == ts0[u].neighbors[k]);
                        }
                    }
                    assert forall|u: int| 0 <= u < self.triangles@.len() implies #[trigger] self.triangles@[u].vertices
                        == ts0[u].vertices by {}
                }
                triangle
            },
            None => {
                proof {
                    let after = self.pool.edges@;
                    assert forall|m: int| 0 <= m < after.len() implies {
                        let h = (#[trigger] after[m]).handler;
                        &&& h.triangle < t ==> h.triangle < self.triangles@.len()
                            && self.triangles@[h.triangle as int].neighbors[h.vertex as int] == usize::MAX
                        &&& h.triangle == t ==> h.vertex < pending.push(usize::MAX).len()
                            && pending.push(usize::MAX)[h.vertex as int] == usize::MAX
                    } by {
                        if m < before.len() {
                            assert(after[m] == before[m]);
                        }
                    }
                    assert forall|k1: int, k2: int| 0 <= k1 < k2 < after.len() implies (#[trigger] after[k1]).handler != (
                    #[trigger] after[k2]).handler by {
                        assert(after[k1] == before[k1]);
                        if k2 < before.len() {
                            assert(after[k2] == before[k2]);
                        } else {
                            assert(after[k2].handler == handler);
                            assert(before[k1].handler.triangle < t || before[k1].handler.vertex < v);
                        }
                    }
                }
                proof {
                    assert forall|m: int| 0 <= m < self.pool.edges@.len() implies {
                        let item = #[trigger] self.pool.edges@[m];
                        &&& item.handler.vertex < 3
                        &&& item.handler.triangle < t || (item.handler.triangle == t && done.insert(edge_of(i0 as int, i1 as int)).contains(
                            (item.edge.a as int, item.edge.b as int),
                        ))
                    } by {
                        if m < before.len() {
                            assert(self.pool.edges@[m] == before[m]);
                        }
                    }
                }
                usize::MAX
            },
        }
    }
}

/// The vertex indices of each mesh triangle.
pub open spec fn net_triples(ts: Seq<IntTriangle>) -> Seq<(int, int, int)> {
    Seq::new(
        ts.len(),
        |t: int| (ts[t].vertices[0].index as int, ts[t].vertices[1].index as int, ts[t].vertices[2].index as int),
    )
}

/// The flat buffer of a mesh's vertex indices, over the contour's points,
/// sums the same area as the mesh.
pub proof fn lemma_mesh_flat_area(pts: Seq<IntPoint>, ts: Seq<IntTriangle>, k: nat)
    requires
        k <= ts.len(),
        net_triangles_ok(ts, pts, ts.len() as int),
    ensures
        crate::triangulation::flat_area_sum(pts, crate::triangulation::vertex_index_seq(ts), k)
            == crate::triangulation::mesh_area_sum(ts, k),
    decreases k,
{
    if k > 0 {
        lemma_mesh_flat_area(pts, ts, (k - 1) as nat);
        let t = k - 1;
        let vs = crate::triangulation::vertex_index_seq(ts);
        assert((3 * t) / 3 == t && (3 * t) % 3 == 0) by (nonlinear_arith);
        assert((3 * t + 1) / 3 == t && (3 * t + 1) % 3 == 1) by (nonlinear_arith);
        assert((3 * t + 2) / 3 == t && (3 * t + 2) % 3 == 2) by (nonlinear_arith);
        assert(vs[3 * t] == ts[t].vertices[0].index);
        assert(vs[3 * t + 1] == ts[t].vertices[1].index);
        assert(vs[3 * t + 2] == ts[t].vertices[2].index);
        assert(ts[t].vertices[0].point == pts[ts[t].vertices[0].index as int]);
        assert(ts[t].vertices[1].point == pts[ts[t].vertices[1].index as int]);
        assert(ts[t].vertices[2].point == pts[ts[t].vertices[2].index as int]);
    }
}

/// The flat buffer of a mesh's vertex indices holds the mesh's triples.
pub proof fn lemma_mesh_flat_triples<I: IndexType>(ts: Seq<IntTriangle>, indices: Seq<I>)
    requires
        crate::triangulation::index_values(indices) == crate::triangulation::vertex_index_seq(ts),
    ensures
        flat_triples(indices) == net_triples(ts),
{
    let vs = crate::triangulation::vertex_index_seq(ts);
    assert(indices.len() == vs.len());
    assert(indices.len() / 3 == ts.len()) by (nonlinear_arith)
        requires
            indices.len() == 3 * ts.len(),
    ;
    assert forall|t: int| 0 <= t < ts.len() implies #[trigger] flat_triples(indices)[t] == net_triples(ts)[t] by {
        assert((3 * t) / 3 == t && (3 * t) % 3 == 0) by (nonlinear_arith);
        assert((3 * t + 1) / 3 == t && (3 * t + 1) % 3 == 1) by (nonlinear_arith);
        assert((3 * t + 2) / 3 == t && (3 * t + 2) % 3 == 2) by (nonlinear_arith);
        assert(0 <= 3 * t + 2 < vs.len()) by (nonlinear_arith)
            requires
                0 <= t < ts.len(),
                vs.len() == 3 * ts.len(),
        ;
        assert(crate::triangulation::index_values(indices)[3 * t] == indices[3 * t].value());
        assert(crate::triangulation::index_values(indices)[3 * t + 1] == indices[3 * t + 1].value());
        assert(crate::triangulation::index_values(indices)[3 * t + 2] == indices[3 * t + 2].value());
    }
    assert(flat_triples(indices) =~= net_triples(ts));
}

/// The area sum of mesh triangles whose points are those of their indices
/// is that of the index triples.
proof fn lemma_net_area(pts: Seq<IntPoint>, ts: Seq<IntTriangle>, k: nat)
    requires
        k <= ts.len(),
        net_triangles_ok(ts, pts, ts.len() as int),
    ensures
        crate::triangulation::mesh_area_sum(ts, k) == tris_area(pts, net_triples(ts).subrange(0, k as int)),
    decreases k,
{
    if k > 0 {
        lemma_net_area(pts, ts, (k - 1) as nat);
        assert(net_triples(ts).subrange(0, k as int).drop_last() =~= net_triples(ts).subrange(0, k - 1));
        let t = ts[k - 1];
        assert(t.vertices[0].point == pts[t.vertices[0].index as int]);
        assert(t.vertices[1].point == pts[t.vertices[1].index as int]);
        assert(t.vertices[2].point == pts[t.vertices[2].index as int]);
    }
}

impl EarcutStore for NetEarcutStore {
    open spec fn emitted(&self) -> Seq<(int, int, int)> {
        net_triples(self.triangles@)
    }

    open spec fn store_inv(&self, contour: Seq<IntPoint>) -> bool {
        &&& contour.len() == self.last + 1
        &&& self.triangles@.len() <= 64
        &&& net_triangles_ok(self.triangles@, contour, self.triangles@.len() as int)
        &&& self.pool_ok(self.triangles@.len() as int, Set::empty())
        &&& links_mutual(self.triangles@)
        &&& self.pool_links(self.triangles@.len() as int, Seq::empty())
    }

    fn collect_triangles(&mut self, contour: &Vec<IntPoint>, start: usize, bits: u64, count: u32) {
        let ghost e0 = self.emitted();
        let ghost cs = contour@;
        let n = contour.len();
        proof {
            lemma_step_in(bits, start as int, 0, n as int);
            lemma_step_in(bits, start as int, 1, n as int);
            lemma_step_in(bits, start as int, 2, n as int);
            assert(mask_has(bits, start as int));
        }
        let ai = start;
        let a = IndexPoint::new(ai, point(contour, ai));
        let bi = bits.next_wrapped_index(ai);
        let mut b = IndexPoint::new(bi, point(contour, bi));
        let mut ci = bits.next_wrapped_index(bi);
        let mut k: u32 = 0;
        while k < count
            invariant
                k <= count,
                count + 2 <= popcount(bits),
                n == contour@.len(),
                cs == contour@,
                n <= 64,
                mask_has(bits, start as int),
                mask_below(bits, n as int),
                a.index == start && a.point == contour@[start as int],
                b.index == step(bits, start as int, (k + 1) as nat),
                b.point == contour@[b.index as int],
                ci == step(bits, start as int, (k + 2) as nat),
                self.triangles@.len() == e0.len() + k,
                e0.len() + count <= 64,
                contour@.len() == self.last + 1,
                net_triangles_ok(self.triangles@, contour@, self.triangles@.len() as int),
                self.pool_ok(self.triangles@.len() as int, Set::empty()),
                links_mutual(self.triangles@),
                self.pool_links(self.triangles@.len() as int, Seq::empty()),
                self.emitted() == e0 + fan(bits, start as int, k as nat),
            decreases count - k,
        {
            proof {
                lemma_step_in(bits, start as int, (k + 1) as nat, n as int);
                lemma_step_in(bits, start as int, (k + 2) as nat, n as int);
                lemma_step_in(bits, start as int, (k + 3) as nat, n as int);
                lemma_steps_distinct(bits, start as int, 0, (k + 1) as nat);
                lemma_steps_distinct(bits, start as int, 0, (k + 2) as nat);
                lemma_steps_distinct(bits, start as int, (k + 1) as nat, (k + 2) as nat);
            }
            let c = IndexPoint::new(ci, point(contour, ci));
            let triangle_index = self.triangles.len();
            let mut triangle = IntTriangle::abc(a, b, c);
            let ghost ts_before = self.triangles@;
            let ghost em_before = self.emitted();
            proof {
                assert(net_triangles_ok(self.triangles@, contour@, triangle_index + 1));
                assert(self.pool_ok(triangle_index as int, Set::empty()));
            }
            let ghost tt = triangle_index as int;
            proof {
                lemma_linking_start(ts_before, tt);
            }
            let ghost p0 = Seq::<usize>::empty();
            let n0 = self.get_or_put(Ghost(cs), Ghost(Set::empty()), Ghost(p0), b.index, c.index, triangle_index, 0);
            let ghost ts1 = self.triangles@;
            proof {
                lemma_linking_step(ts_before, ts_before, ts1, p0, n0, tt);
            }
            let ghost d1 = Set::<(int, int)>::empty().insert(edge_of(b.index as int, c.index as int));
            let ghost p1 = p0.push(n0);
            let n1 = self.get_or_put(Ghost(cs), Ghost(d1), Ghost(p1), a.index, c.index, triangle_index, 1);
            let ghost ts2 = self.triangles@;
            proof {
                lemma_linking_step(ts_before, ts1, ts2, p1, n1, tt);
            }
            let ghost d2 = d1.insert(edge_of(a.index as int, c.index as int));
            let ghost p2 = p1.push(n1);
            let n2 = self.get_or_put(Ghost(cs), Ghost(d2), Ghost(p2), a.index, b.index, triangle_index, 2);
            let ghost ts3 = self.triangles@;
            proof {
                lemma_linking_step(ts_before, ts2, ts3, p2, n2, tt);
            }
            triangle.neighbors[0] = n0;
            triangle.neighbors[1] = n1;
            triangle.neighbors[2] = n2;
            proof {
                assert(triangle.neighbors@ =~= p2.push(n2));
                lemma_linking_done(ts_before, ts3, triangle, tt);
            }
            proof {
                assert(triangle.vertices[0] == a);
                assert(triangle.vertices[1] == b);
                assert(triangle.vertices[2] == c);
            }
            let ghost mid = self.triangles@;
            self.triangles.push(triangle);
            proof {
                let ts = self.triangles@;
                assert(ts.len() == triangle_index + 1);
                assert forall|u: int, m: int| 0 <= u < ts.len() && 0 <= m < 3 implies
                    (#[trigger] ts[u].vertices[m]).index < contour@.len()
                    && ts[u].vertices[m].point == contour@[ts[u].vertices[m].index as int] by {
                    if u < triangle_index {
                        assert(ts[u] == mid[u]);
                    } else {
                        assert(ts[u] == triangle);
                        assert(m == 0 || m == 1 || m == 2);
                    }
                }
                assert forall|u: int, m: int| 0 <= u < ts.len() && 0 <= m < 3 implies
                    (#[trigger] ts[u].neighbors[m]) == usize::MAX || ts[u].neighbors[m] < ts.len() by {
                    if u < triangle_index {
                        assert(ts[u] == mid[u]);
                    } else {
                        assert(m == 0 || m == 1 || m == 2);
                    }
                }
                assert forall|m: int| 0 <= m < self.pool.edges@.len() implies {
                    let item = #[trigger] self.pool.edges@[m];
                    &&& item.handler.vertex < 3
                    &&& item.handler.triangle < ts.len() || (item.handler.triangle == ts.len() && Set::<(int, int)>::empty().contains(
                        (item.edge.a as int, item.edge.b as int),
                    ))
                } by {}
                assert forall|u: int| 0 <= u < ts.len() implies #[trigger] ts[u].vertices == if u < triangle_index {
                    ts_before[u].vertices
                } else {
                    triangle.vertices
                } by {
                    if u < triangle_index {
                        assert(ts[u] == mid[u]);
                    }
                }
                assert forall|m: int| 0 <= m < self.pool.edges@.len() implies {
                    let h = (#[trigger] self.pool.edges@[m]).handler;
                    &&& h.triangle < ts.len() ==> h.triangle < self.triangles@.len()
                        && self.triangles@[h.triangle as int].neighbors[h.vertex as int] == usize::MAX
                    &&& h.triangle == ts.len() ==> h.vertex < Seq::<usize>::empty().len()
                        && Seq::<usize>::empty()[h.vertex as int] == usize::MAX
                } by {
                    let h = self.pool.edges@[m].handler;
                    if h.triangle < triangle_index {
                        assert(ts[h.triangle as int] == mid[h.triangle as int]);
                    } else if h.triangle == triangle_index {
                        assert(ts[h.triangle as int] == triangle);
                        assert(triangle.neighbors@ == p2.push(n2));
                    }
                }
                assert forall|u: int| 0 <= u < ts.len() implies #[trigger] self.emitted()[u] == (e0 + fan(bits, start as int, (k + 1) as nat))[u] by {
                    if u < triangle_index {
                        assert(self.emitted()[u] == em_before[u]);
                        if u >= e0.len() {
                            assert(fan(bits, start as int, k as nat)[u - e0.len()] == fan(bits, start as int, (k + 1) as nat)[u - e0.len()]);
                        }
                    }
                }
                assert(self.emitted() =~= e0 + fan(bits, start as int, (k + 1) as nat));
            }
            b = c;
            proof {
                lemma_step_in(bits, start as int, (k + 2) as nat, n as int);
            }
            ci = bits.next_wrapped_index(ci);
            k += 1;
        }
    }
}

// ---------------------------------------------------------------------------
// Entry points.

/// The flat triangles cover the contour's area, `n - 2` of them when no
/// point repeats; or ear clipping stalled on a ring of the contour's
/// vertices that no vertex closes as one convex fan, and the triangles and
/// that ring cover the area together.
pub open spec fn clipped_or_stalled<I: IndexType>(contour: Seq<IntPoint>, t: IntTriangulation<I>) -> bool {
    let area = crate::triangulation::flat_area_sum(
        t.points@,
        crate::triangulation::index_values(t.indices@),
        (t.indices@.len() / 3) as nat,
    );
    ||| area == contour_area(contour) && (no_repeated_point(contour) ==> t.indices@.len() / 3 == max2(
        contour.len() as int,
    ) - 2)
    ||| exists|rest: u64| clipping_stalled(contour, rest) && area + ring_area(contour, rest) == contour_area(contour)
}

/// Ear clipping of a contour of at most 64 points.
pub trait Earcut64 {
    spec fn contour_points(&self) -> Seq<IntPoint>;

    /// Triangulates the contour into a flat index buffer over its points.
    /// Gives `false` when clipping stalled (no ear found in a full round)
    /// before fewer than three vertices were left. A contour that turns
    /// counter-clockwise all the way round from its first vertex is taken
    /// whole, as the fan from that vertex.
    fn earcut_flat_triangulate_into<I: IndexType>(&self, triangulation: &mut IntTriangulation<I>) -> (completed: bool)
        requires
            1 <= self.contour_points().len() <= 64,
            forall|k: int|
                0 <= k < self.contour_points().len() ==> (#[trigger] self.contour_points()[k]).is_safe(),
            I::index_limit() >= 63,
        ensures
            final(triangulation).points@ == self.contour_points(),
            final(triangulation).indices@.len() % 3 == 0,
            forall|k: int|
                0 <= k < final(triangulation).indices@.len() ==> (#[trigger] final(triangulation).indices@[k]).value()
                    < self.contour_points().len(),
            final(triangulation).indices@.len() / 3 <= max2(self.contour_points().len() as int) - 2,
            completed ==> crate::triangulation::flat_area_sum(
                final(triangulation).points@,
                crate::triangulation::index_values(final(triangulation).indices@),
                (final(triangulation).indices@.len() / 3) as nat,
            ) == contour_area(self.contour_points()),
            completed && no_repeated_point(self.contour_points()) ==> final(triangulation).indices@.len() / 3 == max2(
                self.contour_points().len() as int,
            ) - 2,
            !completed ==> exists|rest: u64|
                {
                    &&& clipping_stalled(self.contour_points(), rest)
                    &&& crate::triangulation::flat_area_sum(
                        final(triangulation).points@,
                        crate::triangulation::index_values(final(triangulation).indices@),
                        (final(triangulation).indices@.len() / 3) as nat,
                    ) + ring_area(self.contour_points(), rest) == contour_area(self.contour_points())
                },
            one_fan(self.contour_points()) ==> {
                &&& completed
                &&& flat_triples(final(triangulation).indices@) == first_vertex_fan(self.contour_points().len() as int)
                &&& triples_positive(self.contour_points(), flat_triples(final(triangulation).indices@))
            },
    ;

    /// Triangulates the contour into a mesh with neighbour links.
    /// Gives `false` when clipping stalled.
    fn earcut_net_triangulate_into(&self, triangulation: &mut RawIntTriangulation) -> (completed: bool)
        requires
            1 <= self.contour_points().len() <= 64,
            forall|k: int|
                0 <= k < self.contour_points().len() ==> (#[trigger] self.contour_points()[k]).is_safe(),
        ensures
            final(triangulation).points@ == self.contour_points(),
            final(triangulation).wf(),
            net_triangles_ok(
                final(triangulation).triangles@,
                self.contour_points(),
                final(triangulation).triangles@.len() as int,
            ),
            final(triangulation).triangles@.len() <= max2(self.contour_points().len() as int) - 2,
            completed ==> crate::triangulation::mesh_area_sum(
                final(triangulation).triangles@,
                final(triangulation).triangles@.len() as nat,
            ) == contour_area(self.contour_points()),
            completed && no_repeated_point(self.contour_points()) ==> final(triangulation).triangles@.len() == max2(
                self.contour_points().len() as int,
            ) - 2,
            !completed ==> exists|rest: u64|
                {
                    &&& clipping_stalled(self.contour_points(), rest)
                    &&& crate::triangulation::mesh_area_sum(
                        final(triangulation).triangles@,
                        final(triangulation).triangles@.len() as nat,
                    ) + ring_area(self.contour_points(), rest) == contour_area(self.contour_points())
                },
            forall|t: int, k: int|
                0 <= t < final(triangulation).triangles@.len() && 0 <= k < 3
                    ==> #[trigger] final(triangulation).link_valid(t, k),
            one_fan(self.contour_points()) ==> {
                &&& completed
                &&& net_triples(final(triangulation).triangles@) == first_vertex_fan(self.contour_points().len() as int)
                &&& triples_positive(self.contour_points(), net_triples(final(triangulation).triangles@))
            },
    ;
}

fn copy_points(contour: &Vec<IntPoint>, points: &mut Vec<IntPoint>)
    ensures
        final(points)@ == contour@,
{
    points.clear();
    let mut i: usize = 0;
    while i < contour.len()
        invariant
            i <= contour@.len(),
            points@ == contour@.subrange(0, i as int),
        decreases contour@.len() - i,
    {
        points.push(contour[i]);
        i += 1;
        assert(points@ =~= contour@.subrange(0, i as int));
    }
    assert(points@ =~= contour@);
}

impl Earcut64 for Vec<IntPoint> {
    open spec fn contour_points(&self) -> Seq<IntPoint> {
        self@
    }

    fn earcut_flat_triangulate_into<I: IndexType>(&self, triangulation: &mut IntTriangulation<I>) -> (completed: bool) {
        let mut store = FlatEarcutStore { indices: Vec::new() };
        std::mem::swap(&mut store.indices, &mut triangulation.indices);
        store.indices.clear();
        let completed = triangulate(self, &mut store);
        std::mem::swap(&mut store.indices, &mut triangulation.indices);
        copy_points(self, &mut triangulation.points);
        proof {
            let ind = triangulation.indices@;
            lemma_flat_area(self@, ind, (ind.len() / 3) as nat);
            assert(flat_triples(ind).subrange(0, (ind.len() / 3) as int) =~= flat_triples(ind));
        }
        completed
    }

    fn earcut_net_triangulate_into(&self, triangulation: &mut RawIntTriangulation) -> (completed: bool) {
        let mut store = NetEarcutStore {
            triangles: Vec::new(),
            pool: EdgePool { edges: Vec::with_capacity(8) },
            last: self.len() - 1,
        };
        std::mem::swap(&mut store.triangles, &mut triangulation.triangles);
        store.triangles.clear();
        let completed = triangulate(self, &mut store);
        std::mem::swap(&mut store.triangles, &mut triangulation.triangles);
        copy_points(self, &mut triangulation.points);
        proof {
            let ts = triangulation.triangles@;
            assert(links_mutual(ts));
            assert forall|t: int, k: int| 0 <= t < ts.len() && 0 <= k < 3 implies #[trigger] triangulation.link_valid(
                t,
                k,
            ) by {
                assert(ts[t].neighbors[k] == ts[t].neighbors[k]);
            }
            lemma_net_area(self@, ts, ts.len() as nat);
            assert(net_triples(ts).subrange(0, ts.len() as int) =~= net_triples(ts));
        }
        completed
    }
}

} // verus!
