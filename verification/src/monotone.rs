//! Sweep line triangulation of monotone pieces into a flat index buffer.
use crate::geom::{area_two_spec, IndexPoint, IntPoint};
use crate::segment::{order_of, under_segment, VSegment};
use crate::index::IndexType;
use crate::net::TrianglesBuilder;
use crate::triangulation::{IntTriangulation, RawIntTriangulation};
use crate::vertex::{
    area_two_wide, contour_vertices, distinct_points, feed_points, point_rank, shape_vertices, sign,
    steiner_vertices, sweep_ordered, ChainBuilder, ChainVertex, VertexType,
};
use core::cmp::Ordering;
use vstd::prelude::*;

verus! {

/// The turn from `a` through `b` to `c` is counter-clockwise.
pub open spec fn positive_turn(a: IntPoint, b: IntPoint, c: IntPoint) -> bool {
    area_two_spec(a, b, c) > 0
}

/// The triangles `(a, pts[j], pts[j + 1])` for `j` from `lo` up to `hi`,
/// three indices each.
pub open spec fn fan(a: usize, pts: Seq<IndexPoint>, lo: int, hi: int) -> Seq<usize>
    decreases hi - lo,
{
    if hi <= lo {
        Seq::empty()
    } else {
        fan(a, pts, lo, hi - 1) + seq![a, pts[hi - 1].index, pts[hi].index]
    }
}

/// The triangles `(a, pts[j - 1], pts[j])` for `j` from `hi` down to
/// `lo + 1`, three indices each.
pub open spec fn back_fan(a: usize, pts: Seq<IndexPoint>, lo: int, hi: int) -> Seq<usize>
    decreases hi - lo,
{
    if hi <= lo {
        Seq::empty()
    } else {
        seq![a, pts[hi - 1].index, pts[hi].index] + back_fan(a, pts, lo, hi - 1)
    }
}

/// From `j` on, how far `a` sees the chain turning counter-clockwise:
/// the first `k >= j` whose step to `k + 1` does not.
pub open spec fn front_run(a: IntPoint, pts: Seq<IndexPoint>, j: int) -> int
    decreases pts.len() - j,
{
    if 0 <= j && j + 1 < pts.len() && positive_turn(a, pts[j].point, pts[j + 1].point) {
        front_run(a, pts, j + 1)
    } else {
        j
    }
}

/// From `j` down, how far `a` sees the chain turning counter-clockwise:
/// the first `k <= j` whose step from `k - 1` does not.
pub open spec fn back_run(a: IntPoint, pts: Seq<IndexPoint>, j: int) -> int
    decreases j,
{
    if 1 <= j < pts.len() && positive_turn(a, pts[j - 1].point, pts[j].point) {
        back_run(a, pts, j - 1)
    } else {
        j
    }
}

proof fn lemma_front_run(a: IntPoint, pts: Seq<IndexPoint>, j: int)
    requires
        0 <= j < pts.len(),
    ensures
        j <= front_run(a, pts, j) < pts.len(),
        forall|k: int| j <= k < front_run(a, pts, j) ==> positive_turn(a, #[trigger] pts[k].point, pts[k + 1].point),
        front_run(a, pts, j) + 1 < pts.len() ==> !positive_turn(
            a,
            pts[front_run(a, pts, j)].point,
            pts[front_run(a, pts, j) + 1].point,
        ),
    decreases pts.len() - j,
{
    if j + 1 < pts.len() && positive_turn(a, pts[j].point, pts[j + 1].point) {
        lemma_front_run(a, pts, j + 1);
    }
}

proof fn lemma_back_run(a: IntPoint, pts: Seq<IndexPoint>, j: int)
    requires
        0 <= j < pts.len(),
    ensures
        0 <= back_run(a, pts, j) <= j,
        forall|k: int| back_run(a, pts, j) < k <= j ==> positive_turn(a, pts[k - 1].point, #[trigger] pts[k].point),
        back_run(a, pts, j) >= 1 ==> !positive_turn(
            a,
            pts[back_run(a, pts, j) - 1].point,
            pts[back_run(a, pts, j)].point,
        ),
    decreases j,
{
    if 1 <= j && positive_turn(a, pts[j - 1].point, pts[j].point) {
        lemma_back_run(a, pts, j - 1);
    }
}

/// From `i` on, the first position whose step from the one before turns
/// counter-clockwise as seen from `a` (the chain's length when none does).
pub open spec fn first_turn(a: IntPoint, pts: Seq<IndexPoint>, i: int) -> int
    decreases pts.len() - i,
{
    if 1 <= i < pts.len() && !positive_turn(a, pts[i - 1].point, pts[i].point) {
        first_turn(a, pts, i + 1)
    } else {
        i
    }
}

/// The first of the first `k` points farthest right.
pub open spec fn rightmost(pts: Seq<IndexPoint>, k: int) -> int
    decreases k,
{
    if k <= 1 {
        0
    } else {
        let m = rightmost(pts, k - 1);
        if pts[k - 1].point.x > pts[m].point.x {
            k - 1
        } else {
            m
        }
    }
}

proof fn lemma_first_turn(a: IntPoint, pts: Seq<IndexPoint>, i: int)
    requires
        1 <= i <= pts.len(),
    ensures
        i <= first_turn(a, pts, i) <= pts.len(),
        first_turn(a, pts, i) < pts.len() ==> positive_turn(
            a,
            pts[first_turn(a, pts, i) - 1].point,
            pts[first_turn(a, pts, i)].point,
        ),
    decreases pts.len() - i,
{
    if i < pts.len() && !positive_turn(a, pts[i - 1].point, pts[i].point) {
        lemma_first_turn(a, pts, i + 1);
    }
}

proof fn lemma_rightmost(pts: Seq<IndexPoint>, k: int)
    requires
        1 <= k <= pts.len(),
    ensures
        0 <= rightmost(pts, k) < k,
    decreases k,
{
    if k > 1 {
        lemma_rightmost(pts, k - 1);
    }
}

/// The chain that stays above a split at `a`, and the one that goes
/// below it, by the points of the old chain.
pub open spec fn split_chains(a: IndexPoint, pts: Seq<IndexPoint>) -> (Seq<IndexPoint>, Seq<IndexPoint>) {
    let i = first_turn(a.point, pts, 1);
    if i >= pts.len() {
        let s = rightmost(pts, pts.len() as int);
        (pts.subrange(0, s + 1).push(a), seq![a] + pts.subrange(s, pts.len() as int))
    } else {
        let f = front_run(a.point, pts, i);
        (pts.subrange(0, i).push(a), seq![a] + pts.subrange(f, pts.len() as int))
    }
}

/// The triangles a split at `a` cuts from the chain.
pub open spec fn split_fan(a: IndexPoint, pts: Seq<IndexPoint>) -> Seq<usize> {
    let i = first_turn(a.point, pts, 1);
    if i >= pts.len() {
        Seq::empty()
    } else {
        fan(a.index, pts, i - 1, front_run(a.point, pts, i))
    }
}

/// The points of a sequence all have numbers below `m`.
pub open spec fn numbered_below(pts: Seq<IndexPoint>, m: int) -> bool {
    forall|k: int| 0 <= k < pts.len() ==> (#[trigger] pts[k]).index < m
}

/// Every value of the index buffer is below `m`.
pub open spec fn indices_below(ids: Seq<usize>, m: int) -> bool {
    forall|k: int| 0 <= k < ids.len() ==> #[trigger] ids[k] < m
}

proof fn lemma_fan_below(a: usize, pts: Seq<IndexPoint>, lo: int, hi: int, m: int)
    requires
        0 <= lo,
        hi < pts.len(),
        a < m,
        numbered_below(pts, m),
    ensures
        indices_below(fan(a, pts, lo, hi), m),
        fan(a, pts, lo, hi).len() == if hi <= lo {
            0
        } else {
            3 * (hi - lo)
        },
    decreases hi - lo,
{
    if hi > lo {
        lemma_fan_below(a, pts, lo, hi - 1, m);
        assert(pts[hi - 1].index < m);
        assert(pts[hi].index < m);
    }
}

proof fn lemma_back_fan_below(a: usize, pts: Seq<IndexPoint>, lo: int, hi: int, m: int)
    requires
        0 <= lo,
        hi < pts.len(),
        a < m,
        numbered_below(pts, m),
    ensures
        indices_below(back_fan(a, pts, lo, hi), m),
        back_fan(a, pts, lo, hi).len() == if hi <= lo {
            0
        } else {
            3 * (hi - lo)
        },
    decreases hi - lo,
{
    if hi > lo {
        lemma_back_fan_below(a, pts, lo, hi - 1, m);
        assert(pts[hi - 1].index < m);
        assert(pts[hi].index < m);
    }
}

/// A part of the polygon still open to the sweep: the segment under it and
/// the chain of points on its left.
#[derive(Debug, Clone)]
pub struct FlatSection {
    pub sort: VSegment,
    pub points: Vec<IndexPoint>,
}

impl FlatSection {
    /// Closes the section at `a`: the triangles from `a` to every step of
    /// the chain.
    pub fn add_as_last(&self, a: IndexPoint, triangles: &mut Vec<usize>)
        ensures
            final(triangles)@ == old(triangles)@ + fan(a.index, self.points@, 0, self.points@.len() - 1),
    {
        let len = self.points.len();
        if len == 0 {
            proof {
                assert(fan(a.index, self.points@, 0, -1) =~= Seq::<usize>::empty());
                assert(triangles@ =~= triangles@ + Seq::<usize>::empty());
            }
            return;
        }
        let ghost start = triangles@;
        let mut j: usize = 1;
        proof {
            assert(triangles@ =~= start + fan(a.index, self.points@, 0, 0));
        }
        while j < len
            invariant
                len == self.points@.len(),
                1 <= j <= len,
                triangles@ == start + fan(a.index, self.points@, 0, j - 1),
            decreases len - j,
        {
            triangles.push(a.index);
            triangles.push(self.points[j - 1].index);
            triangles.push(self.points[j].index);
            proof {
                assert(triangles@ =~= start + fan(a.index, self.points@, 0, j as int));
            }
            j += 1;
        }
    }

    /// Splits the section at `a`, which lies inside it: this section keeps
    /// the part above, with `sort` as its new lower segment, and the part
    /// below is returned with the old one. The triangles between `a` and
    /// the first steps of the chain that turn counter-clockwise are cut
    /// off; when none does, the chain is split at its rightmost point.
    pub fn add_to_middle(&mut self, a: IndexPoint, sort: VSegment, triangles: &mut Vec<usize>) -> (r: FlatSection)
        requires
            old(self).points@.len() >= 1,
        ensures
            final(self).sort == sort,
            r.sort == old(self).sort,
            final(self).points@ == split_chains(a, old(self).points@).0,
            r.points@ == split_chains(a, old(self).points@).1,
            final(triangles)@ == old(triangles)@ + split_fan(a, old(self).points@),
            first_turn(a.point, old(self).points@, 1) < old(self).points@.len() ==> forall|k: int|
                first_turn(a.point, old(self).points@, 1) - 1 <= k < front_run(
                    a.point,
                    old(self).points@,
                    first_turn(a.point, old(self).points@, 1),
                ) ==> positive_turn(a.point, #[trigger] old(self).points@[k].point, old(self).points@[k + 1].point),
    {
        let ghost pts = self.points@;
        let ghost start = triangles@;
        let len = self.points.len();
        let mut b = self.points[0];
        let mut i: usize = 1;
        proof {
            lemma_first_turn(a.point, pts, 1);
        }
        while i < len
            invariant
                len == pts.len(),
                pts == self.points@,
                1 <= i <= len,
                i <= first_turn(a.point, pts, 1),
                first_turn(a.point, pts, 1) <= len,
                b == pts[i - 1],
            ensures
                i == first_turn(a.point, pts, 1),
                b == pts[i - 1],
            decreases len - i,
        {
            let c = self.points[i];
            if area_two_wide(a.point, b.point, c.point) > 0 {
                proof {
                    lemma_first_turn_stop(a.point, pts, 1, i as int);
                }
                break;
            }
            proof {
                lemma_first_turn_step(a.point, pts, 1, i as int);
            }
            i += 1;
            b = c;
        }
        let old_sort = self.sort;
        self.sort = sort;
        if i == len {
            let mut split_index: usize = 0;
            let mut k: usize = 1;
            while k < len
                invariant
                    len == pts.len(),
                    pts == self.points@,
                    1 <= k <= len,
                    split_index == rightmost(pts, k as int),
                decreases len - k,
            {
                proof {
                    lemma_rightmost(pts, k as int);
                }
                if self.points[k].point.x > self.points[split_index].point.x {
                    split_index = k;
                }
                k += 1;
            }
            proof {
                lemma_rightmost(pts, len as int);
            }
            let mut bottom_points = self.points.split_off(split_index);
            self.points.push(bottom_points[0]);
            self.points.push(a);
            bottom_points.insert(0, a);
            proof {
                assert(self.points@ =~= pts.subrange(0, split_index + 1).push(a));
                assert(bottom_points@ =~= seq![a] + pts.subrange(split_index as int, len as int));
                assert(triangles@ =~= start + split_fan(a, pts));
            }
            return FlatSection { sort: old_sort, points: bottom_points };
        }
        proof {
            lemma_front_run(a.point, pts, i as int);
        }
        let mut bottom_points = self.points.split_off(i);
        self.points.push(a);
        let c0 = bottom_points[0];
        triangles.push(a.index);
        triangles.push(b.index);
        triangles.push(c0.index);
        proof {
            assert(fan(a.index, pts, i - 1, i - 1) =~= Seq::<usize>::empty());
            assert(triangles@ =~= start + fan(a.index, pts, i - 1, i as int));
        }
        let mut upper = FlatSection { sort: old_sort, points: bottom_points };
        let ghost before = triangles@;
        upper.add_from_start(a, triangles);
        proof {
            let tail = pts.subrange(i as int, len as int);
            lemma_front_run_shift(a.point, pts, i as int, 0);
            lemma_fan_shift(a.index, pts, i as int, 0, front_run(a.point, tail, 0));
            lemma_fan_concat(a.index, pts, i - 1, i as int, front_run(a.point, pts, i as int));
            assert(upper.points@ =~= seq![a] + pts.subrange(front_run(a.point, pts, i as int), len as int));
            assert(self.points@ =~= pts.subrange(0, i as int).push(a));
            assert(triangles@ =~= start + split_fan(a, pts));
            assert forall|k: int|
                i - 1 <= k < front_run(a.point, pts, i as int) implies positive_turn(
                a.point,
                #[trigger] pts[k].point,
                pts[k + 1].point,
            ) by {
                if k >= i {
                    assert(positive_turn(a.point, tail[k - i].point, tail[k - i + 1].point));
                }
            }
        }
        upper
    }

    /// Adds `a` before the chain: the triangles from `a` to the leading
    /// steps that turn counter-clockwise, whose inner points leave it.
    pub fn add_from_start(&mut self, a: IndexPoint, triangles: &mut Vec<usize>)
        requires
            old(self).points@.len() >= 1,
        ensures
            final(self).sort == old(self).sort,
            final(self).points@ == seq![a] + old(self).points@.subrange(
                front_run(a.point, old(self).points@, 0),
                old(self).points@.len() as int,
            ),
            final(triangles)@ == old(triangles)@ + fan(
                a.index,
                old(self).points@,
                0,
                front_run(a.point, old(self).points@, 0),
            ),
            forall|k: int|
                0 <= k < front_run(a.point, old(self).points@, 0) ==> positive_turn(
                    a.point,
                    #[trigger] old(self).points@[k].point,
                    old(self).points@[k + 1].point,
                ),
    {
        let ghost pts = self.points@;
        let ghost start = triangles@;
        proof {
            lemma_front_run(a.point, pts, 0);
        }
        let len = self.points.len();
        let mut b = self.points[0];
        let mut n: usize = 0;
        proof {
            assert(triangles@ =~= start + fan(a.index, pts, 0, 0));
        }
        while n + 1 < len
            invariant
                len == pts.len(),
                pts == self.points@,
                n < len,
                n <= front_run(a.point, pts, 0) < len,
                b == pts[n as int],
                triangles@ == start + fan(a.index, pts, 0, n as int),
                forall|k: int| 0 <= k < n ==> positive_turn(a.point, #[trigger] pts[k].point, pts[k + 1].point),
            ensures
                n == front_run(a.point, pts, 0),
                triangles@ == start + fan(a.index, pts, 0, n as int),
            decreases len - n,
        {
            let c = self.points[n + 1];
            if area_two_wide(a.point, b.point, c.point) <= 0 {
                proof {
                    lemma_front_run_stop(a.point, pts, 0, n as int);
                }
                break;
            }
            triangles.push(a.index);
            triangles.push(b.index);
            triangles.push(c.index);
            proof {
                lemma_front_run_step(a.point, pts, 0, n as int);
                assert(triangles@ =~= start + fan(a.index, pts, 0, n + 1));
            }
            n += 1;
            b = c;
        }
        let mut rest: Vec<IndexPoint> = Vec::new();
        rest.push(a);
        let mut k: usize = n;
        while k < len
            invariant
                len == pts.len(),
                pts == self.points@,
                n <= k <= len,
                rest@ == seq![a] + pts.subrange(n as int, k as int),
            decreases len - k,
        {
            rest.push(self.points[k]);
            k += 1;
            proof {
                assert(rest@ =~= seq![a] + pts.subrange(n as int, k as int));
            }
        }
        self.points = rest;
    }

    /// Adds `a` after the chain: the triangles from `a` to the trailing
    /// steps that turn counter-clockwise, last first, whose inner points
    /// leave it.
    pub fn add_from_end(&mut self, a: IndexPoint, triangles: &mut Vec<usize>)
        requires
            old(self).points@.len() >= 1,
        ensures
            final(self).sort == old(self).sort,
            final(self).points@ == old(self).points@.subrange(
                0,
                back_run(a.point, old(self).points@, old(self).points@.len() - 1) + 1,
            ).push(a),
            final(triangles)@ == old(triangles)@ + back_fan(
                a.index,
                old(self).points@,
                back_run(a.point, old(self).points@, old(self).points@.len() - 1),
                old(self).points@.len() - 1,
            ),
            forall|k: int|
                back_run(a.point, old(self).points@, old(self).points@.len() - 1) < k < old(
                    self,
                ).points@.len() ==> positive_turn(
                    a.point,
                    old(self).points@[k - 1].point,
                    #[trigger] old(self).points@[k].point,
                ),
    {
        let ghost pts = self.points@;
        let ghost start = triangles@;
        let len = self.points.len();
        let last = len - 1;
        proof {
            lemma_back_run(a.point, pts, last as int);
        }
        let mut c = self.points[last];
        let mut j: usize = last;
        proof {
            assert(triangles@ =~= start + back_fan(a.index, pts, last as int, last as int));
        }
        while j >= 1
            invariant
                len == pts.len(),
                pts == self.points@,
                last == len - 1,
                j <= last,
                0 <= back_run(a.point, pts, last as int) <= j,
                c == pts[j as int],
                triangles@ == start + back_fan(a.index, pts, j as int, last as int),
            ensures
                j == back_run(a.point, pts, last as int),
                triangles@ == start + back_fan(a.index, pts, j as int, last as int),
            decreases j,
        {
            let b = self.points[j - 1];
            if area_two_wide(a.point, b.point, c.point) <= 0 {
                proof {
                    lemma_back_run_stop(a.point, pts, last as int, j as int);
                }
                break;
            }
            triangles.push(a.index);
            triangles.push(b.index);
            triangles.push(c.index);
            proof {
                lemma_back_run_step(a.point, pts, last as int, j as int);
                lemma_back_fan_split(a.index, pts, j - 1, j as int, last as int);
                assert(triangles@ =~= start + back_fan(a.index, pts, j - 1, last as int));
            }
            j -= 1;
            c = b;
        }
        self.points.truncate(j + 1);
        self.points.push(a);
        proof {
            assert(self.points@ =~= pts.subrange(0, j + 1).push(a));
        }
    }
}

proof fn lemma_first_turn_step(a: IntPoint, pts: Seq<IndexPoint>, j: int, n: int)
    requires
        1 <= j <= n < pts.len(),
        n <= first_turn(a, pts, j),
        !positive_turn(a, pts[n - 1].point, pts[n].point),
    ensures
        n + 1 <= first_turn(a, pts, j),
    decreases n - j,
{
    if j < n {
        assert(first_turn(a, pts, j) == first_turn(a, pts, j + 1));
        lemma_first_turn_step(a, pts, j + 1, n);
    } else {
        lemma_first_turn(a, pts, n + 1);
    }
}

proof fn lemma_first_turn_stop(a: IntPoint, pts: Seq<IndexPoint>, j: int, n: int)
    requires
        1 <= j <= n < pts.len(),
        n <= first_turn(a, pts, j),
        positive_turn(a, pts[n - 1].point, pts[n].point),
    ensures
        n == first_turn(a, pts, j),
    decreases n - j,
{
    if j < n {
        assert(first_turn(a, pts, j) == first_turn(a, pts, j + 1));
        lemma_first_turn_stop(a, pts, j + 1, n);
    }
}

/// `front_run` over a tail of the chain is `front_run` over the chain,
/// shifted.
proof fn lemma_front_run_shift(a: IntPoint, pts: Seq<IndexPoint>, i: int, j: int)
    requires
        0 <= i < pts.len(),
        0 <= j < pts.len() - i,
    ensures
        front_run(a, pts.subrange(i, pts.len() as int), j) + i == front_run(a, pts, i + j),
    decreases pts.len() - i - j,
{
    let tail = pts.subrange(i, pts.len() as int);
    if j + 1 < tail.len() && positive_turn(a, tail[j].point, tail[j + 1].point) {
        lemma_front_run_shift(a, pts, i, j + 1);
    }
}

/// A fan over a tail of the chain is a fan over the chain, shifted.
proof fn lemma_fan_shift(a: usize, pts: Seq<IndexPoint>, i: int, lo: int, hi: int)
    requires
        0 <= i,
        0 <= lo,
        i + hi < pts.len(),
    ensures
        fan(a, pts.subrange(i, pts.len() as int), lo, hi) == fan(a, pts, i + lo, i + hi),
    decreases hi - lo,
{
    if hi > lo {
        lemma_fan_shift(a, pts, i, lo, hi - 1);
    }
}

/// Fans over adjoining ranges join.
proof fn lemma_fan_concat(a: usize, pts: Seq<IndexPoint>, lo: int, mid: int, hi: int)
    requires
        lo <= mid <= hi,
    ensures
        fan(a, pts, lo, mid) + fan(a, pts, mid, hi) == fan(a, pts, lo, hi),
    decreases hi - mid,
{
    if hi > mid {
        lemma_fan_concat(a, pts, lo, mid, hi - 1);
        assert(fan(a, pts, lo, mid) + fan(a, pts, mid, hi) =~= fan(a, pts, lo, hi));
    } else {
        assert(fan(a, pts, mid, hi) =~= Seq::<usize>::empty());
        assert(fan(a, pts, lo, mid) + fan(a, pts, mid, hi) =~= fan(a, pts, lo, hi));
    }
}

// ---------------------------------------------------------------------------
// The sweep.

/// How a vertex lies against a section's lower segment: above it
/// (negative), on it (zero) or below it (positive); a vertex on the
/// segment's line that does not continue it is judged by its next point.
pub open spec fn section_order(s: VSegment, v: ChainVertex) -> int {
    let o = sign(area_two_spec(s.a, v.this, s.b));
    if o == 0 {
        if v.prev == s.a {
            0
        } else {
            sign(area_two_spec(s.a, v.next, s.b))
        }
    } else {
        o
    }
}

/// A part of the polygon open to the sweep, ordered along the sweep line
/// by its lower segment.
pub trait SweepKey {
    spec fn key_spec(&self) -> VSegment;

    fn key(&self) -> (r: VSegment)
        ensures
            r == self.key_spec(),
    ;
}

impl SweepKey for FlatSection {
    open spec fn key_spec(&self) -> VSegment {
        self.sort
    }

    fn key(&self) -> (r: VSegment) {
        self.sort
    }
}

/// From `k` on, the first section whose segment the vertex is not above.
pub open spec fn first_not_above<S: SweepKey>(secs: Seq<S>, v: ChainVertex, k: int) -> int
    decreases secs.len() - k,
{
    if 0 <= k < secs.len() && section_order(secs[k].key_spec(), v) < 0 {
        first_not_above(secs, v, k + 1)
    } else {
        k
    }
}

/// The section that holds the vertex: the one whose segment it lies on,
/// else the last one whose segment it is above; -1 for none.
pub open spec fn section_for<S: SweepKey>(secs: Seq<S>, v: ChainVertex) -> int {
    let j = first_not_above(secs, v, 0);
    if j < secs.len() && section_order(secs[j].key_spec(), v) == 0 {
        j
    } else {
        j - 1
    }
}

/// From `k` on, the first section whose segment is not under `s`.
pub open spec fn insert_position<S: SweepKey>(secs: Seq<S>, s: VSegment, k: int) -> int
    decreases secs.len() - k,
{
    if 0 <= k < secs.len() && under_segment(secs[k].key_spec(), s) < 0 {
        insert_position(secs, s, k + 1)
    } else {
        k
    }
}

pub proof fn lemma_first_not_above<S: SweepKey>(secs: Seq<S>, v: ChainVertex, k: int)
    requires
        0 <= k <= secs.len(),
    ensures
        k <= first_not_above(secs, v, k) <= secs.len(),
    decreases secs.len() - k,
{
    if k < secs.len() && section_order(secs[k].key_spec(), v) < 0 {
        lemma_first_not_above(secs, v, k + 1);
    }
}

pub proof fn lemma_insert_position<S: SweepKey>(secs: Seq<S>, s: VSegment, k: int)
    requires
        0 <= k <= secs.len(),
    ensures
        k <= insert_position(secs, s, k) <= secs.len(),
    decreases secs.len() - k,
{
    if k < secs.len() && under_segment(secs[k].key_spec(), s) < 0 {
        lemma_insert_position(secs, s, k + 1);
    }
}

/// How the vertex lies against the segment.
fn vertex_section_order(s: VSegment, v: &ChainVertex) -> (r: i8)
    ensures
        r == section_order(s, *v),
{
    let o = area_two_wide(s.a, v.this, s.b);
    if o == 0 {
        if v.prev == s.a {
            0
        } else {
            let n = area_two_wide(s.a, v.next, s.b);
            if n < 0 {
                -1
            } else if n == 0 {
                0
            } else {
                1
            }
        }
    } else if o < 0 {
        -1
    } else {
        1
    }
}

/// The position of the section that holds the vertex, if any.
pub fn find_section<S: SweepKey>(secs: &Vec<S>, v: &ChainVertex) -> (r: Option<usize>)
    ensures
        section_for(secs@, *v) < 0 ==> r is None,
        section_for(secs@, *v) >= 0 ==> r == Some(section_for(secs@, *v) as usize),
        r matches Some(j) ==> j < secs@.len(),
{
    let len = secs.len();
    let mut j: usize = 0;
    proof {
        lemma_first_not_above(secs@, *v, 0);
    }
    while j < len
        invariant
            len == secs@.len(),
            j <= first_not_above(secs@, *v, 0) <= len,
        ensures
            j == first_not_above(secs@, *v, 0),
        decreases len - j,
    {
        if vertex_section_order(secs[j].key(), v) >= 0 {
            proof {
                lemma_first_not_above_stop(secs@, *v, 0, j as int);
            }
            break;
        }
        proof {
            lemma_first_not_above_step(secs@, *v, 0, j as int);
        }
        j += 1;
    }
    if j < len && vertex_section_order(secs[j].key(), v) == 0 {
        Some(j)
    } else if j > 0 {
        Some(j - 1)
    } else {
        None
    }
}

proof fn lemma_first_not_above_step<S: SweepKey>(secs: Seq<S>, v: ChainVertex, k: int, n: int)
    requires
        0 <= k <= n < secs.len(),
        n <= first_not_above(secs, v, k),
        section_order(secs[n].key_spec(), v) < 0,
    ensures
        n + 1 <= first_not_above(secs, v, k),
    decreases n - k,
{
    if k < n {
        assert(first_not_above(secs, v, k) == first_not_above(secs, v, k + 1));
        lemma_first_not_above_step(secs, v, k + 1, n);
    } else {
        lemma_first_not_above(secs, v, n + 1);
    }
}

proof fn lemma_first_not_above_stop<S: SweepKey>(secs: Seq<S>, v: ChainVertex, k: int, n: int)
    requires
        0 <= k <= n < secs.len(),
        n <= first_not_above(secs, v, k),
        section_order(secs[n].key_spec(), v) >= 0,
    ensures
        n == first_not_above(secs, v, k),
    decreases n - k,
{
    if k < n {
        assert(first_not_above(secs, v, k) == first_not_above(secs, v, k + 1));
        lemma_first_not_above_stop(secs, v, k + 1, n);
    }
}

proof fn lemma_insert_position_step<S: SweepKey>(secs: Seq<S>, s: VSegment, k: int, n: int)
    requires
        0 <= k <= n < secs.len(),
        n <= insert_position(secs, s, k),
        under_segment(secs[n].key_spec(), s) < 0,
    ensures
        n + 1 <= insert_position(secs, s, k),
    decreases n - k,
{
    if k < n {
        assert(insert_position(secs, s, k) == insert_position(secs, s, k + 1));
        lemma_insert_position_step(secs, s, k + 1, n);
    } else {
        lemma_insert_position(secs, s, n + 1);
    }
}

proof fn lemma_insert_position_stop<S: SweepKey>(secs: Seq<S>, s: VSegment, k: int, n: int)
    requires
        0 <= k <= n < secs.len(),
        n <= insert_position(secs, s, k),
        under_segment(secs[n].key_spec(), s) >= 0,
    ensures
        n == insert_position(secs, s, k),
    decreases n - k,
{
    if k < n {
        assert(insert_position(secs, s, k) == insert_position(secs, s, k + 1));
        lemma_insert_position_stop(secs, s, k + 1, n);
    }
}

/// Inserts the section before the first one whose segment is not under
/// its own.
pub fn insert_section<S: SweepKey>(secs: &mut Vec<S>, sec: S)
    ensures
        final(secs)@ == old(secs)@.insert(insert_position(old(secs)@, sec.key_spec(), 0), sec),
{
    let key = sec.key();
    let len = secs.len();
    let mut j: usize = 0;
    proof {
        lemma_insert_position(secs@, sec.key_spec(), 0);
    }
    while j < len
        invariant
            len == secs@.len(),
            key == sec.key_spec(),
            j <= insert_position(secs@, sec.key_spec(), 0) <= len,
        ensures
            j == insert_position(secs@, sec.key_spec(), 0),
        decreases len - j,
    {
        if segment_is_under(&secs[j].key(), &key) {
            proof {
                lemma_insert_position_step(secs@, sec.key_spec(), 0, j as int);
            }
            j += 1;
        } else {
            proof {
                lemma_insert_position_stop(secs@, sec.key_spec(), 0, j as int);
            }
            break;
        }
    }
    secs.insert(j, sec);
}

/// Whether `s` lies under `other`.
fn segment_is_under(s: &VSegment, other: &VSegment) -> (r: bool)
    ensures
        r == (under_segment(*s, *other) < 0),
{
    match s.is_under_segment_order(other) {
        Ordering::Less => true,
        _ => false,
    }
}

/// Every section has a point, and all its points are numbered below `m`.
pub open spec fn sections_ok(secs: Seq<FlatSection>, m: int) -> bool {
    forall|j: int|
        0 <= j < secs.len() ==> (#[trigger] secs[j]).points@.len() >= 1 && numbered_below(secs[j].points@, m)
}

/// The index buffer holds whole triangles of points numbered below `m`.
pub open spec fn triangles_ok(ids: Seq<usize>, m: int) -> bool {
    ids.len() % 3 == 0 && indices_below(ids, m)
}

proof fn lemma_numbered_parts(a: IndexPoint, pts: Seq<IndexPoint>, lo: int, hi: int, m: int)
    requires
        0 <= lo <= hi <= pts.len(),
        numbered_below(pts, m),
        a.index < m,
    ensures
        numbered_below(seq![a] + pts.subrange(lo, hi), m),
        numbered_below(pts.subrange(lo, hi).push(a), m),
        numbered_below(pts.subrange(lo, hi), m),
{
    let x = seq![a] + pts.subrange(lo, hi);
    assert forall|k: int| 0 <= k < x.len() implies (#[trigger] x[k]).index < m by {
        if k > 0 {
            assert(x[k] == pts[lo + k - 1]);
        }
    }
    let y = pts.subrange(lo, hi).push(a);
    assert forall|k: int| 0 <= k < y.len() implies (#[trigger] y[k]).index < m by {
        if k < hi - lo {
            assert(y[k] == pts[lo + k]);
        }
    }
    let z = pts.subrange(lo, hi);
    assert forall|k: int| 0 <= k < z.len() implies (#[trigger] z[k]).index < m by {
        assert(z[k] == pts[lo + k]);
    }
}

proof fn lemma_numbered_concat(x: Seq<IndexPoint>, y: Seq<IndexPoint>, m: int)
    requires
        numbered_below(x, m),
        numbered_below(y, m),
    ensures
        numbered_below(x + y, m),
{
    assert forall|k: int| 0 <= k < (x + y).len() implies (#[trigger] (x + y)[k]).index < m by {
        if k < x.len() {
            assert((x + y)[k] == x[k]);
        } else {
            assert((x + y)[k] == y[k - x.len()]);
        }
    }
}

proof fn lemma_sections_remove(secs: Seq<FlatSection>, j: int, m: int)
    requires
        sections_ok(secs, m),
        0 <= j < secs.len(),
    ensures
        sections_ok(secs.remove(j), m),
        secs[j].points@.len() >= 1,
        numbered_below(secs[j].points@, m),
{
    let r = secs.remove(j);
    assert forall|k: int| 0 <= k < r.len() implies (#[trigger] r[k]).points@.len() >= 1 && numbered_below(
        r[k].points@,
        m,
    ) by {
        if k < j {
            assert(r[k] == secs[k]);
        } else {
            assert(r[k] == secs[k + 1]);
        }
    }
    assert(secs[j].points@.len() >= 1);
}

proof fn lemma_sections_insert(secs: Seq<FlatSection>, j: int, sec: FlatSection, m: int)
    requires
        sections_ok(secs, m),
        0 <= j <= secs.len(),
        sec.points@.len() >= 1,
        numbered_below(sec.points@, m),
    ensures
        sections_ok(secs.insert(j, sec), m),
{
    let r = secs.insert(j, sec);
    assert forall|k: int| 0 <= k < r.len() implies (#[trigger] r[k]).points@.len() >= 1 && numbered_below(
        r[k].points@,
        m,
    ) by {
        if k < j {
            assert(r[k] == secs[k]);
        } else if k == j {
            assert(r[k] == sec);
        } else {
            assert(r[k] == secs[k - 1]);
        }
    }
}

// ---------------------------------------------------------------------------
// The sweep as a sequence of states.

impl SweepKey for VSegment {
    open spec fn key_spec(&self) -> VSegment {
        *self
    }

    fn key(&self) -> (r: VSegment) {
        *self
    }
}

/// The lower segments of the sections, from the bottom.
pub open spec fn sorts_of(secs: Seq<FlatSection>) -> Seq<VSegment> {
    Seq::new(secs.len(), |i: int| secs[i].sort)
}

/// The chains of the sections, from the bottom.
pub open spec fn chains_of(secs: Seq<FlatSection>) -> Seq<Seq<IndexPoint>> {
    Seq::new(secs.len(), |i: int| secs[i].points@)
}

/// The vertex as a numbered point.
pub open spec fn vertex_point(v: ChainVertex) -> IndexPoint {
    IndexPoint { index: v.index, point: v.this }
}

/// The segment from the vertex to its next point.
pub open spec fn next_segment(v: ChainVertex) -> VSegment {
    VSegment { a: v.this, b: v.next }
}

proof fn lemma_first_not_above_sorts(secs: Seq<FlatSection>, v: ChainVertex, k: int)
    requires
        0 <= k <= secs.len(),
    ensures
        first_not_above(secs, v, k) == first_not_above(sorts_of(secs), v, k),
    decreases secs.len() - k,
{
    if k < secs.len() {
        assert(sorts_of(secs)[k].key_spec() == secs[k].key_spec());
        lemma_first_not_above_sorts(secs, v, k + 1);
    }
}

/// Finding a section goes by the lower segments alone.
proof fn lemma_section_for_sorts(secs: Seq<FlatSection>, v: ChainVertex)
    ensures
        section_for(secs, v) == section_for(sorts_of(secs), v),
{
    lemma_first_not_above_sorts(secs, v, 0);
    lemma_first_not_above(secs, v, 0);
    let j = first_not_above(secs, v, 0);
    if j < secs.len() {
        assert(sorts_of(secs)[j].key_spec() == secs[j].key_spec());
    }
}

proof fn lemma_insert_position_sorts(secs: Seq<FlatSection>, sg: VSegment, k: int)
    requires
        0 <= k <= secs.len(),
    ensures
        insert_position(secs, sg, k) == insert_position(sorts_of(secs), sg, k),
    decreases secs.len() - k,
{
    if k < secs.len() {
        assert(sorts_of(secs)[k].key_spec() == secs[k].key_spec());
        lemma_insert_position_sorts(secs, sg, k + 1);
    }
}

/// A state of the flat sweep: the lower segments and chains of the open
/// sections, the index buffer so far, and whether every vertex so far
/// found its section.
pub type FlatState = (Seq<VSegment>, Seq<Seq<IndexPoint>>, Seq<usize>, bool);

/// A start vertex opens a section of its own point, under the segment to
/// its next point.
pub open spec fn start_step(st: FlatState, v: ChainVertex) -> FlatState {
    let p = insert_position(st.0, next_segment(v), 0);
    (st.0.insert(p, next_segment(v)), st.1.insert(p, seq![vertex_point(v)]), st.2, true)
}

/// An end vertex closes its section with a fan over the whole chain.
pub open spec fn end_step(st: FlatState, v: ChainVertex) -> FlatState {
    let j = section_for(st.0, v);
    if j < 0 {
        (st.0, st.1, st.2, false)
    } else {
        let pts = st.1[j];
        (st.0.remove(j), st.1.remove(j), st.2 + fan(v.index, pts, 0, pts.len() - 1), true)
    }
}

/// A split vertex cuts its section in two: the part above keeps the
/// position under the segment to the vertex's next point, the part below
/// takes the old segment and its own place.
pub open spec fn split_step(st: FlatState, v: ChainVertex) -> FlatState {
    let j = section_for(st.0, v);
    if j < 0 {
        (st.0, st.1, st.2, false)
    } else {
        let a = vertex_point(v);
        let pts = st.1[j];
        let parts = split_chains(a, pts);
        let sorts = st.0.update(j, next_segment(v));
        let chains = st.1.update(j, parts.0);
        let p = insert_position(sorts, st.0[j], 0);
        (sorts.insert(p, st.0[j]), chains.insert(p, parts.1), st.2 + split_fan(a, pts), true)
    }
}

/// A join vertex extends its section: at the end of the chain when the
/// section's segment ends at it (the segment moves on to its next point),
/// at the start otherwise.
pub open spec fn join_step(st: FlatState, v: ChainVertex) -> FlatState {
    let j = section_for(st.0, v);
    if j < 0 {
        (st.0, st.1, st.2, false)
    } else {
        let a = vertex_point(v);
        let pts = st.1[j];
        if st.0[j].b == v.this {
            let n = back_run(a.point, pts, pts.len() - 1);
            (
                st.0.update(j, next_segment(v)),
                st.1.update(j, pts.subrange(0, n + 1).push(a)),
                st.2 + back_fan(a.index, pts, n, pts.len() - 1),
                true,
            )
        } else {
            let n = front_run(a.point, pts, 0);
            (
                st.0,
                st.1.update(j, seq![a] + pts.subrange(n, pts.len() as int)),
                st.2 + fan(a.index, pts, 0, n),
                true,
            )
        }
    }
}

/// A merge vertex joins its section with the one under it: the vertex
/// goes at the start of the lower chain and at the end of its own, and
/// the two chains become one under the lower segment.
pub open spec fn merge_step(st: FlatState, v: ChainVertex) -> FlatState {
    let j = section_for(st.0, v);
    if j <= 0 {
        (st.0, st.1, st.2, false)
    } else {
        let a = vertex_point(v);
        let upper = st.1[j];
        let lower = st.1[j - 1];
        let f = front_run(a.point, lower, 0);
        let b = back_run(a.point, upper, upper.len() - 1);
        (
            st.0.remove(j),
            st.1.remove(j).update(j - 1, upper.subrange(0, b + 1).push(a) + lower.subrange(f, lower.len() as int)),
            st.2 + fan(a.index, lower, 0, f) + back_fan(a.index, upper, b, upper.len() - 1),
            true,
        )
    }
}

/// One vertex of the sweep, by its type.
pub open spec fn flat_step(st: FlatState, v: ChainVertex) -> FlatState {
    match v.type_spec() {
        VertexType::Start => start_step(st, v),
        VertexType::End => end_step(st, v),
        VertexType::Merge => merge_step(st, v),
        VertexType::Split => split_step(st, v),
        VertexType::Join => join_step(st, v),
        VertexType::Steiner => (st.0, st.1, st.2, true),
    }
}

/// The state after the first `k` vertices; the sweep stops at the first
/// vertex that finds no section.
pub open spec fn flat_run(vs: Seq<ChainVertex>, k: int) -> FlatState
    decreases k,
{
    if k <= 0 {
        (Seq::empty(), Seq::empty(), Seq::empty(), true)
    } else {
        let st = flat_run(vs, k - 1);
        if !st.3 {
            st
        } else {
            flat_step(st, vs[k - 1])
        }
    }
}

proof fn lemma_flat_run_stops(vs: Seq<ChainVertex>, k: int, n: int)
    requires
        0 <= k <= n,
        !flat_run(vs, k).3,
    ensures
        flat_run(vs, n) == flat_run(vs, k),
    decreases n - k,
{
    if k < n {
        lemma_flat_run_stops(vs, k, n - 1);
    }
}

/// The state the sections and the index buffer stand for.
pub open spec fn flat_state(secs: Seq<FlatSection>, triangles: Seq<usize>, ok: bool) -> FlatState {
    (sorts_of(secs), chains_of(secs), triangles, ok)
}

/// Adds the section a start vertex opens.
fn sweep_start(secs: &mut Vec<FlatSection>, a: IndexPoint, sort: VSegment, Ghost(m): Ghost<int>)
    requires
        sections_ok(old(secs)@, m),
        a.index < m,
    ensures
        sections_ok(final(secs)@, m),
        sorts_of(final(secs)@) == sorts_of(old(secs)@).insert(insert_position(old(secs)@, sort, 0), sort),
        chains_of(final(secs)@) == chains_of(old(secs)@).insert(insert_position(old(secs)@, sort, 0), seq![a]),
{
    let mut points: Vec<IndexPoint> = Vec::new();
    points.push(a);
    let sec = FlatSection { sort, points };
    let ghost before = secs@;
    proof {
        lemma_insert_position(before, sort, 0);
        assert(numbered_below(sec.points@, m));
    }
    insert_section(secs, sec);
    proof {
        let p = insert_position(before, sort, 0);
        lemma_sections_insert(before, p, sec, m);
        lemma_state_insert(before, p, sec);
        assert(sec.points@ =~= seq![a]);
    }
}

/// Inserting a section inserts its segment and its chain.
proof fn lemma_state_insert(secs: Seq<FlatSection>, p: int, sec: FlatSection)
    requires
        0 <= p <= secs.len(),
    ensures
        sorts_of(secs.insert(p, sec)) == sorts_of(secs).insert(p, sec.sort),
        chains_of(secs.insert(p, sec)) == chains_of(secs).insert(p, sec.points@),
{
    assert(sorts_of(secs.insert(p, sec)) =~= sorts_of(secs).insert(p, sec.sort));
    assert(chains_of(secs.insert(p, sec)) =~= chains_of(secs).insert(p, sec.points@));
}

/// Removing a section removes its segment and its chain.
proof fn lemma_state_remove(secs: Seq<FlatSection>, j: int)
    requires
        0 <= j < secs.len(),
    ensures
        sorts_of(secs.remove(j)) == sorts_of(secs).remove(j),
        chains_of(secs.remove(j)) == chains_of(secs).remove(j),
{
    assert(sorts_of(secs.remove(j)) =~= sorts_of(secs).remove(j));
    assert(chains_of(secs.remove(j)) =~= chains_of(secs).remove(j));
}

/// Closes the section of an end vertex; `false` when there is none.
fn sweep_end(secs: &mut Vec<FlatSection>, v: &ChainVertex, triangles: &mut Vec<usize>, Ghost(m): Ghost<int>) -> (r: bool)
    requires
        sections_ok(old(secs)@, m),
        triangles_ok(old(triangles)@, m),
        v.index < m,
    ensures
        sections_ok(final(secs)@, m),
        triangles_ok(final(triangles)@, m),
        flat_state(final(secs)@, final(triangles)@, r) == end_step(flat_state(old(secs)@, old(triangles)@, true), *v),
{
    proof {
        lemma_section_for_sorts(secs@, *v);
        lemma_first_not_above(secs@, *v, 0);
        assert(secs@.len() == secs.len());
    }
    let j = match find_section(secs, v) {
        Some(j) => j,
        None => {
            return false;
        },
    };
    let a = v.index_point();
    let ghost before = secs@;
    let ghost t0 = triangles@;
    let sec = secs.remove(j);
    proof {
        lemma_sections_remove(before, j as int, m);
        lemma_state_remove(before, j as int);
        assert(chains_of(before)[j as int] == sec.points@);
    }
    sec.add_as_last(a, triangles);
    proof {
        lemma_fan_below(a.index, sec.points@, 0, sec.points@.len() - 1, m);
        lemma_indices_concat(t0, fan(a.index, sec.points@, 0, sec.points@.len() - 1), m);
    }
    true
}

/// Splits the section of a split vertex in two; `false` when there is none.
fn sweep_split(
    secs: &mut Vec<FlatSection>,
    v: &ChainVertex,
    triangles: &mut Vec<usize>,
    Ghost(m): Ghost<int>,
) -> (r: bool)
    requires
        sections_ok(old(secs)@, m),
        triangles_ok(old(triangles)@, m),
        v.index < m,
    ensures
        sections_ok(final(secs)@, m),
        triangles_ok(final(triangles)@, m),
        flat_state(final(secs)@, final(triangles)@, r) == split_step(
            flat_state(old(secs)@, old(triangles)@, true),
            *v,
        ),
{
    proof {
        lemma_section_for_sorts(secs@, *v);
        lemma_first_not_above(secs@, *v, 0);
        assert(secs@.len() == secs.len());
    }
    let j = match find_section(secs, v) {
        Some(j) => j,
        None => {
            return false;
        },
    };
    let a = v.index_point();
    let sort = VSegment { a: v.this, b: v.next };
    let ghost before = secs@;
    let ghost t0 = triangles@;
    let mut sec = secs.remove(j);
    let ghost pts = sec.points@;
    proof {
        lemma_sections_remove(before, j as int, m);
        lemma_first_turn(a.point, pts, 1);
        lemma_rightmost(pts, pts.len() as int);
        let i = first_turn(a.point, pts, 1);
        if i < pts.len() {
            lemma_front_run(a.point, pts, i);
            let f = front_run(a.point, pts, i);
            lemma_numbered_parts(a, pts, 0, i, m);
            lemma_numbered_parts(a, pts, f, pts.len() as int, m);
            lemma_fan_below(a.index, pts, i - 1, f, m);
        } else {
            let s = rightmost(pts, pts.len() as int);
            lemma_numbered_parts(a, pts, 0, s + 1, m);
            lemma_numbered_parts(a, pts, s, pts.len() as int, m);
        }
    }
    let old_sort = sec.sort;
    let bottom = sec.add_to_middle(a, sort, triangles);
    proof {
        lemma_indices_concat(t0, split_fan(a, pts), m);
        lemma_sections_insert(secs@, j as int, sec, m);
        lemma_state_remove(before, j as int);
        lemma_state_insert(secs@, j as int, sec);
        assert(sorts_of(before).remove(j as int).insert(j as int, sort) =~= sorts_of(before).update(j as int, sort));
        assert(chains_of(before).remove(j as int).insert(j as int, sec.points@) =~= chains_of(before).update(
            j as int,
            sec.points@,
        ));
        assert(sorts_of(before)[j as int] == old_sort);
        assert(chains_of(before)[j as int] == pts);
    }
    secs.insert(j, sec);
    let ghost mid = secs@;
    sweep_insert(secs, bottom, Ghost(m));
    proof {
        lemma_insert_position_sorts(mid, old_sort, 0);
    }
    true
}

/// Inserts a checked section.
fn sweep_insert(secs: &mut Vec<FlatSection>, sec: FlatSection, Ghost(m): Ghost<int>)
    requires
        sections_ok(old(secs)@, m),
        sec.points@.len() >= 1,
        numbered_below(sec.points@, m),
    ensures
        sections_ok(final(secs)@, m),
        sorts_of(final(secs)@) == sorts_of(old(secs)@).insert(insert_position(old(secs)@, sec.sort, 0), sec.sort),
        chains_of(final(secs)@) == chains_of(old(secs)@).insert(
            insert_position(old(secs)@, sec.sort, 0),
            sec.points@,
        ),
{
    let ghost before = secs@;
    proof {
        lemma_insert_position(before, sec.sort, 0);
    }
    let ghost sec_copy = sec;
    insert_section(secs, sec);
    proof {
        lemma_sections_insert(before, insert_position(before, sec_copy.sort, 0), sec_copy, m);
        lemma_state_insert(before, insert_position(before, sec_copy.sort, 0), sec_copy);
    }
}

/// Adds `a` before a section's chain, keeping it checked.
fn chain_add_start(sec: &mut FlatSection, a: IndexPoint, triangles: &mut Vec<usize>, Ghost(m): Ghost<int>)
    requires
        old(sec).points@.len() >= 1,
        numbered_below(old(sec).points@, m),
        triangles_ok(old(triangles)@, m),
        a.index < m,
    ensures
        final(sec).points@.len() >= 1,
        final(sec).points@[0] == a,
        final(sec).sort == old(sec).sort,
        numbered_below(final(sec).points@, m),
        triangles_ok(final(triangles)@, m),
        final(sec).points@ == seq![a] + old(sec).points@.subrange(
            front_run(a.point, old(sec).points@, 0),
            old(sec).points@.len() as int,
        ),
        final(triangles)@ == old(triangles)@ + fan(a.index, old(sec).points@, 0, front_run(a.point, old(sec).points@, 0)),
{
    let ghost pts = sec.points@;
    let ghost t0 = triangles@;
    proof {
        lemma_front_run(a.point, pts, 0);
        let n = front_run(a.point, pts, 0);
        lemma_numbered_parts(a, pts, n, pts.len() as int, m);
        lemma_fan_below(a.index, pts, 0, n, m);
        lemma_indices_concat(t0, fan(a.index, pts, 0, n), m);
    }
    sec.add_from_start(a, triangles);
}

/// Adds `a` after a section's chain, keeping it checked.
fn chain_add_end(sec: &mut FlatSection, a: IndexPoint, triangles: &mut Vec<usize>, Ghost(m): Ghost<int>)
    requires
        old(sec).points@.len() >= 1,
        numbered_below(old(sec).points@, m),
        triangles_ok(old(triangles)@, m),
        a.index < m,
    ensures
        final(sec).points@.len() >= 1,
        final(sec).sort == old(sec).sort,
        numbered_below(final(sec).points@, m),
        triangles_ok(final(triangles)@, m),
        final(sec).points@ == old(sec).points@.subrange(
            0,
            back_run(a.point, old(sec).points@, old(sec).points@.len() - 1) + 1,
        ).push(a),
        final(triangles)@ == old(triangles)@ + back_fan(
            a.index,
            old(sec).points@,
            back_run(a.point, old(sec).points@, old(sec).points@.len() - 1),
            old(sec).points@.len() - 1,
        ),
{
    let ghost pts = sec.points@;
    let ghost t0 = triangles@;
    proof {
        lemma_back_run(a.point, pts, pts.len() - 1);
        let n = back_run(a.point, pts, pts.len() - 1);
        lemma_numbered_parts(a, pts, 0, n + 1, m);
        lemma_back_fan_below(a.index, pts, n, pts.len() - 1, m);
        lemma_indices_concat(t0, back_fan(a.index, pts, n, pts.len() - 1), m);
    }
    sec.add_from_end(a, triangles);
}

/// Extends the section of a join vertex; `false` when there is none.
fn sweep_join(secs: &mut Vec<FlatSection>, v: &ChainVertex, triangles: &mut Vec<usize>, Ghost(m): Ghost<int>) -> (r: bool)
    requires
        sections_ok(old(secs)@, m),
        triangles_ok(old(triangles)@, m),
        v.index < m,
    ensures
        sections_ok(final(secs)@, m),
        triangles_ok(final(triangles)@, m),
        flat_state(final(secs)@, final(triangles)@, r) == join_step(flat_state(old(secs)@, old(triangles)@, true), *v),
{
    proof {
        lemma_section_for_sorts(secs@, *v);
        lemma_first_not_above(secs@, *v, 0);
        assert(secs@.len() == secs.len());
    }
    let j = match find_section(secs, v) {
        Some(j) => j,
        None => {
            return false;
        },
    };
    let a = v.index_point();
    let ghost before = secs@;
    let mut sec = secs.remove(j);
    proof {
        lemma_sections_remove(before, j as int, m);
        lemma_state_remove(before, j as int);
        assert(sorts_of(before)[j as int] == sec.sort);
        assert(chains_of(before)[j as int] == sec.points@);
    }
    if sec.sort.b == v.this {
        sec.sort = VSegment { a: v.this, b: v.next };
        chain_add_end(&mut sec, a, triangles, Ghost(m));
    } else {
        chain_add_start(&mut sec, a, triangles, Ghost(m));
    }
    proof {
        lemma_sections_insert(secs@, j as int, sec, m);
        lemma_state_insert(secs@, j as int, sec);
        assert(sorts_of(before).remove(j as int).insert(j as int, sec.sort) =~= sorts_of(before).update(
            j as int,
            sec.sort,
        ));
        assert(chains_of(before).remove(j as int).insert(j as int, sec.points@) =~= chains_of(before).update(
            j as int,
            sec.points@,
        ));
        assert(sorts_of(before).update(j as int, sorts_of(before)[j as int]) =~= sorts_of(before));
    }
    secs.insert(j, sec);
    true
}

/// Merges the section of a merge vertex with the one under it; `false`
/// when either is missing.
fn sweep_merge(secs: &mut Vec<FlatSection>, v: &ChainVertex, triangles: &mut Vec<usize>, Ghost(m): Ghost<int>) -> (r: bool)
    requires
        sections_ok(old(secs)@, m),
        triangles_ok(old(triangles)@, m),
        v.index < m,
    ensures
        sections_ok(final(secs)@, m),
        triangles_ok(final(triangles)@, m),
        flat_state(final(secs)@, final(triangles)@, r) == merge_step(
            flat_state(old(secs)@, old(triangles)@, true),
            *v,
        ),
{
    proof {
        lemma_section_for_sorts(secs@, *v);
        lemma_first_not_above(secs@, *v, 0);
        assert(secs@.len() == secs.len());
    }
    let j = match find_section(secs, v) {
        Some(j) => j,
        None => {
            return false;
        },
    };
    if j == 0 {
        return false;
    }
    let ghost t0 = triangles@;
    let a = v.index_point();
    let ghost s0 = secs@;
    let mut prev = secs.remove(j);
    proof {
        lemma_sections_remove(s0, j as int, m);
    }
    let ghost s1 = secs@;
    let mut next = secs.remove(j - 1);
    proof {
        lemma_sections_remove(s1, j - 1, m);
    }
    chain_add_start(&mut next, a, triangles, Ghost(m));
    let ghost next_pts = next.points@;
    let mut next_points = next.points.split_off(1);
    proof {
        lemma_numbered_parts(a, next_pts, 1, next_pts.len() as int, m);
        assert(next_points@ =~= next_pts.subrange(1, next_pts.len() as int));
    }
    let next_sort = next.sort;
    chain_add_end(&mut prev, a, triangles, Ghost(m));
    prev.sort = next_sort;
    let ghost prev_pts = prev.points@;
    prev.points.append(&mut next_points);
    proof {
        lemma_numbered_concat(prev_pts, next_pts.subrange(1, next_pts.len() as int), m);
        lemma_sections_insert(secs@, j - 1, prev, m);
        lemma_state_remove(s0, j as int);
        lemma_state_remove(s1, j - 1);
        lemma_state_insert(secs@, j - 1, prev);
        let upper = chains_of(s0)[j as int];
        let lower = chains_of(s0)[j - 1];
        assert(s1[j - 1] == s0[j - 1]);
        assert(sorts_of(s0).remove(j as int).remove(j - 1).insert(j - 1, sorts_of(s0)[j - 1]) =~= sorts_of(
            s0,
        ).remove(j as int));
        let f = front_run(vertex_point(*v).point, lower, 0);
        assert(next_pts.subrange(1, next_pts.len() as int) =~= lower.subrange(f, lower.len() as int));
        assert(chains_of(s0).remove(j as int).remove(j - 1).insert(j - 1, prev.points@) =~= chains_of(s0).remove(
            j as int,
        ).update(j - 1, prev.points@));
        assert(triangles@ =~= t0 + fan(vertex_point(*v).index, lower, 0, f) + back_fan(
            vertex_point(*v).index,
            upper,
            back_run(vertex_point(*v).point, upper, upper.len() - 1),
            upper.len() - 1,
        ));
    }
    secs.insert(j - 1, prev);
    true
}

/// The index buffer holds, value for value, the indices of the flat sweep
/// over the vertices.
pub open spec fn sweep_indices<N: IndexType>(indices: Seq<N>, vertices: Seq<ChainVertex>) -> bool {
    &&& indices.len() == flat_run(vertices, vertices.len() as int).2.len()
    &&& forall|t: int| 0 <= t < indices.len() ==> #[trigger] indices[t].value() == flat_run(
        vertices,
        vertices.len() as int,
    ).2[t]
}

/// Triangulates sweep-ordered vertices, three indices per triangle; the
/// flag tells whether every vertex found its section.
pub fn flat_triangulate(vertices: &Vec<ChainVertex>, Ghost(m): Ghost<int>) -> (r: (Vec<usize>, bool))
    requires
        forall|k: int| 0 <= k < vertices@.len() ==> (#[trigger] vertices@[k]).index < m,
    ensures
        triangles_ok(r.0@, m),
        r.0@ == flat_run(vertices@, vertices@.len() as int).2,
        r.1 == flat_run(vertices@, vertices@.len() as int).3,
{
    let mut triangles: Vec<usize> = Vec::new();
    let mut secs: Vec<FlatSection> = Vec::new();
    let mut i: usize = 0;
    proof {
        assert(flat_state(secs@, triangles@, true) =~~= flat_run(vertices@, 0));
    }
    while i < vertices.len()
        invariant
            i <= vertices@.len(),
            forall|k: int| 0 <= k < vertices@.len() ==> (#[trigger] vertices@[k]).index < m,
            triangles_ok(triangles@, m),
            sections_ok(secs@, m),
            flat_state(secs@, triangles@, true) == flat_run(vertices@, i as int),
        decreases vertices@.len() - i,
    {
        let v = vertices[i];
        let ghost st = flat_state(secs@, triangles@, true);
        proof {
            assert(v.index < m);
            assert(flat_run(vertices@, i + 1) == flat_step(st, v));
        }
        let found = match v.get_type() {
            VertexType::Start => {
                let ghost before = secs@;
                let a = v.index_point();
                let sort = VSegment { a: v.this, b: v.next };
                sweep_start(&mut secs, a, sort, Ghost(m));
                proof {
                    lemma_insert_position_sorts(before, sort, 0);
                    assert(a == vertex_point(v));
                }
                true
            },
            VertexType::End => sweep_end(&mut secs, &v, &mut triangles, Ghost(m)),
            VertexType::Merge => sweep_merge(&mut secs, &v, &mut triangles, Ghost(m)),
            VertexType::Split => sweep_split(&mut secs, &v, &mut triangles, Ghost(m)),
            VertexType::Join => sweep_join(&mut secs, &v, &mut triangles, Ghost(m)),
            VertexType::Steiner => true,
        };
        if !found {
            proof {
                lemma_flat_run_stops(vertices@, i + 1, vertices@.len() as int);
            }
            return (triangles, false);
        }
        i += 1;
    }
    (triangles, true)
}

proof fn lemma_indices_concat(x: Seq<usize>, y: Seq<usize>, m: int)
    requires
        indices_below(x, m),
        indices_below(y, m),
    ensures
        indices_below(x + y, m),
{
    assert forall|k: int| 0 <= k < (x + y).len() implies #[trigger] (x + y)[k] < m by {
        if k < x.len() {
            assert((x + y)[k] == x[k]);
        } else {
            assert((x + y)[k] == y[k - x.len()]);
        }
    }
}

// ---------------------------------------------------------------------------
// Triangulating contours and shapes.

/// Vertices numbered by the rank of their point, as the sweep orders them.
pub open spec fn ranked(vs: Seq<ChainVertex>) -> bool {
    forall|k: int| 0 <= k < vs.len() ==> (#[trigger] vs[k]).index == point_rank(vs, k)
}

/// Ranked vertices are numbered below the count of their distinct
/// points, which is at most their count.
pub proof fn lemma_ranked_below(vs: Seq<ChainVertex>, k: int)
    requires
        ranked(vs),
        1 <= k <= vs.len(),
    ensures
        distinct_points(vs, k).len() == vs[k - 1].index + 1,
        distinct_points(vs, k).len() <= k,
        forall|j: int| 0 <= j < k ==> (#[trigger] vs[j]).index <= vs[k - 1].index,
    decreases k,
{
    assert(vs[k - 1].index == point_rank(vs, k - 1));
    if k == 1 {
        assert(vs[0].index == 0);
        assert(distinct_points(vs, 0) =~= Seq::<IntPoint>::empty());
    } else {
        lemma_ranked_below(vs, k - 1);
        assert(vs[k - 2].index == point_rank(vs, k - 2));
    }
}

/// The number of points of the first `k` contours of a shape.
pub open spec fn shape_size(shape: Seq<Vec<IntPoint>>, k: int) -> int
    decreases k,
{
    if k <= 0 {
        0
    } else {
        shape_size(shape, k - 1) + shape[k - 1]@.len()
    }
}

pub proof fn lemma_shape_size(shape: Seq<Vec<IntPoint>>, k: int)
    requires
        0 <= k <= shape.len(),
        forall|i: int| 0 <= i < shape.len() ==> (#[trigger] shape[i])@.len() >= 2,
    ensures
        shape_vertices(shape, k).len() == shape_size(shape, k),
        shape_size(shape, k) >= 2 * k,
    decreases k,
{
    if k > 0 {
        lemma_shape_size(shape, k - 1);
        assert(shape[k - 1]@.len() >= 2);
    }
}

/// The distinct points of sweep-ordered vertices, and the numbers of the
/// vertices below their count.
proof fn lemma_sweep_numbers(input: Seq<ChainVertex>, vs: Seq<ChainVertex>)
    requires
        sweep_ordered(input, vs),
        input.len() >= 1,
    ensures
        vs.len() == input.len(),
        distinct_points(vs, vs.len() as int).len() <= input.len(),
        forall|k: int| 0 <= k < vs.len() ==> (#[trigger] vs[k]).index < distinct_points(vs, vs.len() as int).len(),
{
    broadcast use vstd::seq_lib::to_multiset_len;

    assert(input.len() == input.to_multiset().len());
    assert(ranked(vs));
    lemma_ranked_below(vs, vs.len() as int);
}

/// Triangulates monotone pieces by a sweep line, reusing its vertex buffer.
pub struct MonotoneTriangulator {
    pub vertices: Vec<ChainVertex>,
}

impl Default for MonotoneTriangulator {
    fn default() -> (r: Self)
        ensures
            r.vertices@.len() == 0,
    {
        MonotoneTriangulator { vertices: Vec::new() }
    }
}

impl MonotoneTriangulator {
    /// Triangulates a contour (counter-clockwise, without self
    /// intersections, as the sweep expects) into `triangulation`: its
    /// distinct points in sweep order, and three indices into them per
    /// triangle. The flag tells whether every vertex found its section.
    pub fn contour_into_flat_triangulation<N: IndexType>(
        &mut self,
        contour: &Vec<IntPoint>,
        triangulation: &mut IntTriangulation<N>,
    ) -> (completed: bool)
        requires
            contour@.len() >= 2,
            contour@.len() <= N::index_limit() + 1,
        ensures
            sweep_ordered(contour_vertices(contour@), final(self).vertices@),
            final(triangulation).points@ == distinct_points(
                final(self).vertices@,
                final(self).vertices@.len() as int,
            ),
            final(triangulation).points@.len() <= contour@.len(),
            final(triangulation).indices@.len() % 3 == 0,
            forall|k: int|
                0 <= k < final(triangulation).indices@.len() ==> (#[trigger] final(triangulation).indices@[k]).value()
                    < final(triangulation).points@.len(),
            sweep_indices(final(triangulation).indices@, final(self).vertices@),
            completed == flat_run(final(self).vertices@, final(self).vertices@.len() as int).3,
    {
        ChainBuilder::contour_to_vertices(contour, None, &mut self.vertices);
        proof {
            assert(contour_vertices(contour@) + Seq::<ChainVertex>::empty() =~= contour_vertices(contour@));
            lemma_sweep_numbers(contour_vertices(contour@), self.vertices@);
        }
        Self::flat_into(&self.vertices, triangulation)
    }

    /// Triangulates a shape (an outer contour counter-clockwise, holes
    /// clockwise, without intersections) into `triangulation`, as
    /// `contour_into_flat_triangulation` does; an empty shape gives an
    /// empty triangulation.
    pub fn shape_into_flat_triangulation<N: IndexType>(
        &mut self,
        shape: &Vec<Vec<IntPoint>>,
        triangulation: &mut IntTriangulation<N>,
    ) -> (completed: bool)
        requires
            forall|i: int| 0 <= i < shape@.len() ==> (#[trigger] shape@[i])@.len() >= 2,
            shape_size(shape@, shape@.len() as int) <= N::index_limit() + 1,
        ensures
            shape@.len() == 0 ==> final(triangulation).points@.len() == 0 && final(triangulation).indices@.len() == 0
                && completed,
            shape@.len() > 0 ==> sweep_ordered(
                shape_vertices(shape@, shape@.len() as int),
                final(self).vertices@,
            ),
            shape@.len() > 0 ==> final(triangulation).points@ == distinct_points(
                final(self).vertices@,
                final(self).vertices@.len() as int,
            ),
            final(triangulation).points@.len() <= shape_size(shape@, shape@.len() as int),
            final(triangulation).indices@.len() % 3 == 0,
            forall|k: int|
                0 <= k < final(triangulation).indices@.len() ==> (#[trigger] final(triangulation).indices@[k]).value()
                    < final(triangulation).points@.len(),
            shape@.len() > 0 ==> sweep_indices(final(triangulation).indices@, final(self).vertices@),
            shape@.len() > 0 ==> completed == flat_run(final(self).vertices@, final(self).vertices@.len() as int).3,
    {
        if shape.len() == 0 {
            triangulation.points.clear();
            triangulation.indices.clear();
            return true;
        }
        ChainBuilder::shape_to_vertices(shape, None, &mut self.vertices);
        proof {
            let input = shape_vertices(shape@, shape@.len() as int);
            assert(input + Seq::<ChainVertex>::empty() =~= input);
            lemma_shape_size(shape@, shape@.len() as int);
            lemma_sweep_numbers(input, self.vertices@);
        }
        Self::flat_into(&self.vertices, triangulation)
    }

    /// The lone points as vertices, none when there are none.
    pub open spec fn lone_vertices(points: Option<&Vec<IntPoint>>) -> Seq<ChainVertex> {
        match points {
            Some(ps) => steiner_vertices(ps@),
            None => Seq::empty(),
        }
    }

    /// Triangulates a contour, with lone points inside it, into linked
    /// triangles: `triangulation` gets the distinct points in sweep order,
    /// and triangles whose vertices address them. The flag tells whether
    /// every vertex found its section.
    pub fn contour_into_net_triangulation(
        &mut self,
        contour: &Vec<IntPoint>,
        points: Option<&Vec<IntPoint>>,
        triangulation: &mut RawIntTriangulation,
    ) -> (completed: bool)
        requires
            contour@.len() >= 2,
        ensures
            sweep_ordered(contour_vertices(contour@) + Self::lone_vertices(points), final(self).vertices@),
            final(triangulation).points@ == distinct_points(
                final(self).vertices@,
                final(self).vertices@.len() as int,
            ),
            final(triangulation).points@.len() <= contour@.len() + Self::lone_vertices(points).len(),
            final(triangulation).wf(),
    {
        ChainBuilder::contour_to_vertices(contour, points, &mut self.vertices);
        proof {
            lemma_sweep_numbers(contour_vertices(contour@) + Self::lone_vertices(points), self.vertices@);
        }
        Self::net_into(&self.vertices, triangulation)
    }

    /// Triangulates a shape, with lone points inside it, into linked
    /// triangles, as `contour_into_net_triangulation` does; with no
    /// contour and no point the triangulation is empty.
    pub fn shape_into_net_triangulation(
        &mut self,
        shape: &Vec<Vec<IntPoint>>,
        points: Option<&Vec<IntPoint>>,
        triangulation: &mut RawIntTriangulation,
    ) -> (completed: bool)
        requires
            forall|i: int| 0 <= i < shape@.len() ==> (#[trigger] shape@[i])@.len() >= 2,
        ensures
            shape_vertices(shape@, shape@.len() as int) + Self::lone_vertices(points) == Seq::<ChainVertex>::empty()
                ==> final(triangulation).points@.len() == 0 && final(triangulation).triangles@.len() == 0
                && completed,
            shape_vertices(shape@, shape@.len() as int) + Self::lone_vertices(points) != Seq::<ChainVertex>::empty()
                ==> sweep_ordered(
                shape_vertices(shape@, shape@.len() as int) + Self::lone_vertices(points),
                final(self).vertices@,
            ) && final(triangulation).points@ == distinct_points(
                final(self).vertices@,
                final(self).vertices@.len() as int,
            ),
            final(triangulation).points@.len() <= shape_size(shape@, shape@.len() as int) + Self::lone_vertices(
                points,
            ).len(),
            final(triangulation).wf(),
    {
        let ghost input = shape_vertices(shape@, shape@.len() as int) + Self::lone_vertices(points);
        proof {
            lemma_shape_size(shape@, shape@.len() as int);
        }
        let no_points = match points {
            Some(ps) => ps.len() == 0,
            None => true,
        };
        if shape.len() == 0 && no_points {
            proof {
                assert(shape_vertices(shape@, 0) =~= Seq::<ChainVertex>::empty());
                assert(input =~= Seq::<ChainVertex>::empty());
            }
            triangulation.points.clear();
            triangulation.triangles.clear();
            return true;
        }
        proof {
            if shape@.len() == 0 {
                assert(input.len() >= 1);
            }
            assert(input.len() >= 1);
            assert(input != Seq::<ChainVertex>::empty());
        }
        ChainBuilder::shape_to_vertices(shape, points, &mut self.vertices);
        proof {
            lemma_sweep_numbers(input, self.vertices@);
        }
        Self::net_into(&self.vertices, triangulation)
    }

    /// Writes the linked triangulation of sweep-ordered vertices.
    fn net_into(vertices: &Vec<ChainVertex>, triangulation: &mut RawIntTriangulation) -> (completed: bool)
        requires
            forall|k: int|
                0 <= k < vertices@.len() ==> (#[trigger] vertices@[k]).index < distinct_points(
                    vertices@,
                    vertices@.len() as int,
                ).len(),
        ensures
            final(triangulation).points@ == distinct_points(vertices@, vertices@.len() as int),
            final(triangulation).wf(),
    {
        let ghost m = distinct_points(vertices@, vertices@.len() as int).len() as int;
        let (builder, completed) = TrianglesBuilder::build(vertices, Ghost(m));
        feed_points(vertices, &mut triangulation.points);
        triangulation.triangles = builder.triangles;
        proof {
            assert forall|t: int, k: int|
                0 <= t < triangulation.triangles@.len() && 0 <= k < 3 implies (#[trigger] triangulation.triangles@[
                t].vertices[k]).index < triangulation.points@.len() by {
                assert(crate::net::triangle_ok(triangulation.triangles@[t], m));
                assert(k == 0 || k == 1 || k == 2);
            }
        }
        completed
    }

    /// Writes the triangulation of sweep-ordered vertices: their distinct
    /// points, and the triangles as indices into them.
    fn flat_into<N: IndexType>(vertices: &Vec<ChainVertex>, triangulation: &mut IntTriangulation<N>) -> (completed: bool)
        requires
            distinct_points(vertices@, vertices@.len() as int).len() <= N::index_limit() + 1,
            forall|k: int|
                0 <= k < vertices@.len() ==> (#[trigger] vertices@[k]).index < distinct_points(
                    vertices@,
                    vertices@.len() as int,
                ).len(),
        ensures
            final(triangulation).points@ == distinct_points(vertices@, vertices@.len() as int),
            final(triangulation).indices@.len() % 3 == 0,
            forall|k: int|
                0 <= k < final(triangulation).indices@.len() ==> (#[trigger] final(triangulation).indices@[k]).value()
                    < final(triangulation).points@.len(),
            sweep_indices(final(triangulation).indices@, vertices@),
            completed == flat_run(vertices@, vertices@.len() as int).3,
    {
        let ghost m = distinct_points(vertices@, vertices@.len() as int).len() as int;
        let (triangles, completed) = flat_triangulate(vertices, Ghost(m));
        feed_points(vertices, &mut triangulation.points);
        triangulation.indices.clear();
        let mut k: usize = 0;
        while k < triangles.len()
            invariant
                k <= triangles@.len(),
                triangles_ok(triangles@, m),
                m <= N::index_limit() + 1,
                triangulation.points@ == distinct_points(vertices@, vertices@.len() as int),
                triangulation.points@.len() == m,
                triangulation.indices@.len() == k,
                forall|t: int| 0 <= t < k ==> (#[trigger] triangulation.indices@[t]).value() == triangles@[t],
            decreases triangles@.len() - k,
        {
            proof {
                assert(triangles@[k as int] < m);
            }
            triangulation.indices.push(N::from_usize(triangles[k]));
            k += 1;
        }
        completed
    }
}

/// While the chain keeps turning from `j` on, `front_run` is reached from
/// any point on the way.
proof fn lemma_front_run_step(a: IntPoint, pts: Seq<IndexPoint>, j: int, n: int)
    requires
        0 <= j <= n,
        n + 1 < pts.len(),
        n <= front_run(a, pts, j),
        positive_turn(a, pts[n].point, pts[n + 1].point),
    ensures
        n + 1 <= front_run(a, pts, j),
    decreases n - j,
{
    if j < n {
        assert(front_run(a, pts, j) == front_run(a, pts, j + 1));
        lemma_front_run_step(a, pts, j + 1, n);
    } else {
        lemma_front_run(a, pts, n + 1);
    }
}

proof fn lemma_front_run_stop(a: IntPoint, pts: Seq<IndexPoint>, j: int, n: int)
    requires
        0 <= j <= n,
        n + 1 < pts.len(),
        n <= front_run(a, pts, j),
        !positive_turn(a, pts[n].point, pts[n + 1].point),
    ensures
        n == front_run(a, pts, j),
    decreases n - j,
{
    if j < n {
        lemma_front_run_stop(a, pts, j + 1, n);
    }
}

proof fn lemma_back_run_step(a: IntPoint, pts: Seq<IndexPoint>, j: int, n: int)
    requires
        1 <= n <= j < pts.len(),
        back_run(a, pts, j) <= n,
        positive_turn(a, pts[n - 1].point, pts[n].point),
    ensures
        back_run(a, pts, j) <= n - 1,
    decreases j - n,
{
    if n < j {
        assert(back_run(a, pts, j) == back_run(a, pts, j - 1));
        lemma_back_run_step(a, pts, j - 1, n);
    } else {
        lemma_back_run(a, pts, j - 1);
    }
}

proof fn lemma_back_run_stop(a: IntPoint, pts: Seq<IndexPoint>, j: int, n: int)
    requires
        1 <= n <= j < pts.len(),
        back_run(a, pts, j) <= n,
        !positive_turn(a, pts[n - 1].point, pts[n].point),
    ensures
        back_run(a, pts, j) == n,
    decreases j - n,
{
    if n < j {
        lemma_back_run(a, pts, j);
        assert(positive_turn(a, pts[j - 1].point, pts[j].point));
        lemma_back_run_stop(a, pts, j - 1, n);
    }
}

/// Peeling the lowest triangle off a descending fan.
proof fn lemma_back_fan_split(a: usize, pts: Seq<IndexPoint>, lo: int, mid: int, hi: int)
    requires
        lo + 1 == mid,
        mid <= hi,
    ensures
        back_fan(a, pts, lo, hi) == back_fan(a, pts, mid, hi) + seq![a, pts[lo].index, pts[mid].index],
    decreases hi - mid,
{
    if hi > mid {
        lemma_back_fan_split(a, pts, lo, mid, hi - 1);
        assert(back_fan(a, pts, lo, hi) =~= back_fan(a, pts, mid, hi) + seq![a, pts[lo].index, pts[mid].index]);
    } else {
        assert(back_fan(a, pts, lo, lo) =~= Seq::<usize>::empty());
        assert(back_fan(a, pts, lo, hi) =~= back_fan(a, pts, mid, hi) + seq![a, pts[lo].index, pts[mid].index]);
    }
}

} // verus!
