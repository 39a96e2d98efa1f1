//! Signed areas of the rings of contour points that a mask picks out, and
//! how cutting an ear off such a ring splits its area.
use crate::bits::{count_below, dist, fwd, is_next, lemma_least_member_exists, lemma_next_unique, mask_has, next_of, popcount};
use crate::chain::{lemma_step_gap, lemma_steps, lemma_walk_closes, step};
use crate::geom::{area_two_spec, IntPoint};
use vstd::prelude::*;

verus! {

// ---------------------------------------------------------------------------
// Sums over index sets.

/// Sum of `f` over the indices below `k` that satisfy `p`.
pub open spec fn psum(p: spec_fn(int) -> bool, f: spec_fn(int) -> int, k: int) -> int
    decreases k,
{
    if k <= 0 {
        0
    } else {
        psum(p, f, k - 1) + if p(k - 1) {
            f(k - 1)
        } else {
            0
        }
    }
}

/// Membership in a mask, as a predicate.
pub open spec fn in_mask(m: u64) -> spec_fn(int) -> bool {
    |j: int| mask_has(m, j)
}

/// Membership in a mask, no farther than `d` forward steps from `s`.
pub open spec fn in_mask_within(m: u64, s: int, d: int) -> spec_fn(int) -> bool {
    |j: int| mask_has(m, j) && dist(s, j) <= d
}

/// Sum of `f` over the first `k` indices met walking over `m` from `s`.
pub open spec fn wsum(m: u64, s: int, f: spec_fn(int) -> int, k: nat) -> int
    decreases k,
{
    if k == 0 {
        0
    } else {
        wsum(m, s, f, (k - 1) as nat) + f(step(m, s, (k - 1) as nat))
    }
}

/// Sums over predicates that agree, of functions that agree where the
/// predicate holds, are equal.
pub proof fn lemma_psum_congr(
    p: spec_fn(int) -> bool,
    q: spec_fn(int) -> bool,
    f: spec_fn(int) -> int,
    g: spec_fn(int) -> int,
    k: int,
)
    requires
        forall|j: int| 0 <= j < k ==> #[trigger] p(j) == q(j),
        forall|j: int| 0 <= j < k && #[trigger] p(j) ==> f(j) == g(j),
    ensures
        psum(p, f, k) == psum(q, g, k),
    decreases k,
{
    if k > 0 {
        lemma_psum_congr(p, q, f, g, k - 1);
    }
}

/// A sum over a predicate that is the disjoint union of two others is the
/// sum of the two sums.
pub proof fn lemma_psum_split(
    p: spec_fn(int) -> bool,
    q: spec_fn(int) -> bool,
    r: spec_fn(int) -> bool,
    f: spec_fn(int) -> int,
    k: int,
)
    requires
        forall|j: int| 0 <= j < k ==> #[trigger] p(j) == (q(j) || r(j)) && !(q(j) && r(j)),
    ensures
        psum(p, f, k) == psum(q, f, k) + psum(r, f, k),
    decreases k,
{
    if k > 0 {
        lemma_psum_split(p, q, r, f, k - 1);
    }
}

/// Changing `f` at the one index `j0` changes the sum by the difference
/// there.
pub proof fn lemma_psum_change(p: spec_fn(int) -> bool, f: spec_fn(int) -> int, g: spec_fn(int) -> int, j0: int, k: int)
    requires
        forall|j: int| 0 <= j < k && #[trigger] p(j) && j != j0 ==> f(j) == g(j),
    ensures
        psum(p, f, k) == psum(p, g, k) + if 0 <= j0 < k && p(j0) {
            f(j0) - g(j0)
        } else {
            0
        },
    decreases k,
{
    if k > 0 {
        lemma_psum_change(p, f, g, j0, k - 1);
    }
}

/// A sum over a predicate that only `j0` satisfies is `f(j0)`.
pub proof fn lemma_psum_single(p: spec_fn(int) -> bool, f: spec_fn(int) -> int, j0: int, k: int)
    requires
        forall|j: int| 0 <= j < k ==> #[trigger] p(j) == (j == j0),
    ensures
        psum(p, f, k) == if 0 <= j0 < k {
            f(j0)
        } else {
            0
        },
    decreases k,
{
    if k > 0 {
        lemma_psum_single(p, f, j0, k - 1);
    }
}

/// Indices at or above `n` that fail the predicate add nothing.
pub proof fn lemma_psum_tail(p: spec_fn(int) -> bool, f: spec_fn(int) -> int, n: int, k: int)
    requires
        0 <= n <= k,
        forall|j: int| n <= j < k ==> !#[trigger] p(j),
    ensures
        psum(p, f, k) == psum(p, f, n),
    decreases k,
{
    if k > n {
        lemma_psum_tail(p, f, n, k - 1);
    }
}

/// The members no farther from `s` than the `k`-th step of the walk are
/// the first `k + 1` indices of the walk.
proof fn lemma_psum_walk_prefix(m: u64, s: int, f: spec_fn(int) -> int, k: nat)
    requires
        mask_has(m, s),
        k < popcount(m),
    ensures
        psum(in_mask_within(m, s, dist(s, step(m, s, k))), f, 64) == wsum(m, s, f, k + 1),
    decreases k,
{
    lemma_steps(m, s, k);
    if k == 0 {
        assert(step(m, s, 0) == s);
        assert(wsum(m, s, f, 0) == 0);
        assert(wsum(m, s, f, 1) == f(s));
        lemma_psum_single(in_mask_within(m, s, 0), f, s, 64);
        assert(psum(in_mask_within(m, s, 0), f, 64) == f(s));
    } else {
        let kp = (k - 1) as nat;
        lemma_psum_walk_prefix(m, s, f, kp);
        lemma_steps(m, s, kp);
        lemma_step_gap(m, s, k);
        let d1 = dist(s, step(m, s, kp));
        let v = step(m, s, k);
        let d2 = dist(s, v);
        let at_v = |j: int| j == v;
        assert forall|j: int| 0 <= j < 64 implies #[trigger] in_mask_within(m, s, d2)(j) == (in_mask_within(m, s, d1)(j)
            || at_v(j)) && !(in_mask_within(m, s, d1)(j) && at_v(j)) by {
            if mask_has(m, j) && dist(s, j) <= d2 && !(dist(s, j) <= d1) {
                assert(!(d1 < dist(s, j) < d2));
            }
        }
        lemma_psum_split(in_mask_within(m, s, d2), in_mask_within(m, s, d1), at_v, f, 64);
        lemma_psum_single(at_v, f, v, 64);
        assert(psum(in_mask_within(m, s, d2), f, 64) == psum(in_mask_within(m, s, d1), f, 64) + f(v));
        assert(wsum(m, s, f, k + 1) == wsum(m, s, f, k) + f(v));
    }
}

/// The sum over the members of a mask is the sum over one full walk from
/// any member; the walk closes after `popcount(m)` steps.
pub proof fn lemma_psum_walk(m: u64, s: int, f: spec_fn(int) -> int)
    requires
        mask_has(m, s),
    ensures
        psum(in_mask(m), f, 64) == wsum(m, s, f, popcount(m)),
        popcount(m) >= 1,
        step(m, s, popcount(m)) == s,
{
    lemma_walk_closes(m, s);
    let c = popcount(m);
    let last = step(m, s, (c - 1) as nat);
    lemma_psum_walk_prefix(m, s, f, (c - 1) as nat);
    assert forall|j: int| 0 <= j < 64 implies #[trigger] in_mask_within(m, s, dist(s, last))(j) == in_mask(m)(j) by {
        if mask_has(m, j) {
            assert(dist(s, j) <= dist(s, last));
        }
    }
    lemma_psum_congr(in_mask_within(m, s, dist(s, last)), in_mask(m), f, f, 64);
}

/// A mask with no members sums to zero.
proof fn lemma_psum_empty(m: u64, f: spec_fn(int) -> int, k: int)
    requires
        0 <= k <= 64,
        count_below(m, k) == 0,
    ensures
        psum(in_mask(m), f, k) == 0,
    decreases k,
{
    if k > 0 {
        lemma_psum_empty(m, f, k - 1);
    }
}

/// A mask that counts members has one.
proof fn lemma_member_exists(m: u64, k: int)
    requires
        0 <= k <= 64,
        count_below(m, k) > 0,
    ensures
        exists|j: int| 0 <= j < k && mask_has(m, j),
    decreases k,
{
    if k > 0 && !mask_has(m, k - 1) {
        lemma_member_exists(m, k - 1);
    }
}

// ---------------------------------------------------------------------------
// Areas.

/// The cross product of two points seen as vectors from the origin.
pub open spec fn cross(p: IntPoint, q: IntPoint) -> int {
    p.x * q.y - p.y * q.x
}

pub proof fn lemma_cross_antisym(p: IntPoint, q: IntPoint)
    ensures
        cross(p, q) + cross(q, p) == 0,
        cross(p, p) == 0,
{
    assert(cross(p, q) + cross(q, p) == 0) by (nonlinear_arith);
    assert(cross(p, p) == 0) by (nonlinear_arith);
}

/// Twice the area of a triangle is the sum of the cross products of its
/// edges.
pub proof fn lemma_area_cross(a: IntPoint, b: IntPoint, c: IntPoint)
    ensures
        area_two_spec(a, b, c) == cross(a, b) + cross(b, c) + cross(c, a),
{
    assert(area_two_spec(a, b, c) == cross(a, b) + cross(b, c) + cross(c, a)) by (nonlinear_arith);
}

/// Twice the signed area of a closed contour (shoelace formula): each
/// point crossed with the next one, the last with the first.
pub open spec fn contour_area(pts: Seq<IntPoint>) -> int {
    psum(
        |j: int| true,
        |j: int|
            cross(
                pts[j],
                pts[if j + 1 < pts.len() {
                    j + 1
                } else {
                    0
                }],
            ),
        pts.len() as int,
    )
}

/// Each member of `m` crossed with the member that follows it.
pub open spec fn ring_terms(pts: Seq<IntPoint>, m: u64) -> spec_fn(int) -> int {
    |j: int| cross(pts[j], pts[next_of(m, j)])
}

/// Twice the signed area of the closed ring through the points of the
/// members of `m`, taken in index order.
pub open spec fn ring_area(pts: Seq<IntPoint>, m: u64) -> int {
    psum(in_mask(m), ring_terms(pts, m), 64)
}

/// Twice the signed area of one triangle given by three point indices.
pub open spec fn tri_area(pts: Seq<IntPoint>, t: (int, int, int)) -> int {
    area_two_spec(pts[t.0], pts[t.1], pts[t.2])
}

/// Twice the summed signed areas of triangles given by point indices.
pub open spec fn tris_area(pts: Seq<IntPoint>, ts: Seq<(int, int, int)>) -> int
    decreases ts.len(),
{
    if ts.len() == 0 {
        0
    } else {
        tris_area(pts, ts.drop_last()) + tri_area(pts, ts.last())
    }
}

pub proof fn lemma_tris_area_append(pts: Seq<IntPoint>, a: Seq<(int, int, int)>, b: Seq<(int, int, int)>)
    ensures
        tris_area(pts, a + b) == tris_area(pts, a) + tris_area(pts, b),
    decreases b.len(),
{
    if b.len() == 0 {
        assert(a + b =~= a);
    } else {
        lemma_tris_area_append(pts, a, b.drop_last());
        assert((a + b).drop_last() =~= a + b.drop_last());
        assert((a + b).last() == b.last());
    }
}

/// The mask of the first `n` indices rings around the whole contour.
pub proof fn lemma_ring_full(pts: Seq<IntPoint>, m: u64)
    requires
        1 <= pts.len() <= 64,
        forall|j: int| 0 <= j < 64 ==> #[trigger] mask_has(m, j) == (j < pts.len()),
    ensures
        ring_area(pts, m) == contour_area(pts),
{
    let n = pts.len() as int;
    let term = |j: int|
        cross(
            pts[j],
            pts[if j + 1 < pts.len() {
                j + 1
            } else {
                0
            }],
        );
    assert forall|j: int| 0 <= j < 64 && in_mask(m)(j) implies #[trigger] ring_terms(pts, m)(j) == term(j) by {
        let r = if j + 1 < n {
            j + 1
        } else {
            0
        };
        assert(mask_has(m, r));
        assert forall|k: int| mask_has(m, k) implies fwd(j, r) <= #[trigger] fwd(j, k) by {}
        assert(is_next(m, j, r));
        lemma_next_unique(m, j, r);
    }
    lemma_psum_congr(in_mask(m), |j: int| 0 <= j < n, ring_terms(pts, m), term, 64);
    lemma_psum_tail(|j: int| 0 <= j < n, term, n, 64);
    lemma_psum_congr(|j: int| 0 <= j < n, |j: int| true, term, term, n);
}

/// A ring of at most two points encloses nothing.
pub proof fn lemma_ring_small(pts: Seq<IntPoint>, m: u64)
    requires
        popcount(m) <= 2,
    ensures
        ring_area(pts, m) == 0,
{
    if popcount(m) == 0 {
        lemma_psum_empty(m, ring_terms(pts, m), 64);
    } else {
        lemma_member_exists(m, 64);
        let s = choose|j: int| 0 <= j < 64 && mask_has(m, j);
        lemma_psum_walk(m, s, ring_terms(pts, m));
        reveal_with_fuel(wsum, 3);
        reveal_with_fuel(step, 3);
        let v1 = step(m, s, 1);
        if popcount(m) == 1 {
            lemma_cross_antisym(pts[s], pts[s]);
        } else {
            assert(step(m, s, 2) == s);
            lemma_cross_antisym(pts[s], pts[v1]);
        }
    }
}

/// The fan of `k` triangles around `s` telescopes to the walk's edges and
/// one closing edge.
proof fn lemma_fan_telescope(pts: Seq<IntPoint>, bits: u64, s: int, k: nat)
    ensures
        tris_area(pts, crate::earcut::fan(bits, s, k)) == wsum(bits, s, ring_terms(pts, bits), k + 1) + cross(
            pts[step(bits, s, k + 1)],
            pts[s],
        ),
    decreases k,
{
    let f = crate::earcut::fan(bits, s, k);
    if k == 0 {
        assert(f.len() == 0);
        reveal_with_fuel(wsum, 2);
        lemma_cross_antisym(pts[s], pts[step(bits, s, 1)]);
    } else {
        let kp = (k - 1) as nat;
        lemma_fan_telescope(pts, bits, s, kp);
        assert(f.drop_last() =~= crate::earcut::fan(bits, s, kp));
        let b = step(bits, s, k);
        let c = step(bits, s, k + 1);
        assert(f.last() == (s, b, c));
        lemma_area_cross(pts[s], pts[b], pts[c]);
        lemma_cross_antisym(pts[s], pts[b]);
    }
}

/// The fan around a member over all the members of `bits` covers the
/// area of their ring.
pub proof fn lemma_fan_ring(pts: Seq<IntPoint>, bits: u64, s: int)
    requires
        mask_has(bits, s),
        popcount(bits) >= 2,
    ensures
        tris_area(pts, crate::earcut::fan(bits, s, (popcount(bits) - 2) as nat)) == ring_area(pts, bits),
{
    let c = popcount(bits);
    lemma_psum_walk(bits, s, ring_terms(pts, bits));
    lemma_fan_telescope(pts, bits, s, (c - 2) as nat);
    assert(wsum(bits, s, ring_terms(pts, bits), c) == wsum(bits, s, ring_terms(pts, bits), (c - 1) as nat)
        + cross(pts[step(bits, s, (c - 1) as nat)], pts[step(bits, s, c)]));
}

/// When the last member met from `s` sits on the point of `s`, the fan
/// without its last (empty) triangle covers the ring as well.
pub proof fn lemma_fan_ring_closed(pts: Seq<IntPoint>, bits: u64, s: int)
    requires
        mask_has(bits, s),
        popcount(bits) >= 3,
        pts[step(bits, s, (popcount(bits) - 1) as nat)] == pts[s],
    ensures
        tris_area(pts, crate::earcut::fan(bits, s, (popcount(bits) - 3) as nat)) == ring_area(pts, bits),
{
    let c = popcount(bits);
    let g = ring_terms(pts, bits);
    lemma_psum_walk(bits, s, g);
    lemma_fan_telescope(pts, bits, s, (c - 3) as nat);
    let u = step(bits, s, (c - 2) as nat);
    let v = step(bits, s, (c - 1) as nat);
    assert(wsum(bits, s, g, c) == wsum(bits, s, g, (c - 1) as nat) + cross(pts[v], pts[step(bits, s, c)]));
    assert(wsum(bits, s, g, (c - 1) as nat) == wsum(bits, s, g, (c - 2) as nat) + cross(pts[u], pts[v]));
    lemma_cross_antisym(pts[s], pts[s]);
}

/// The last member met walking from `s` is the member farthest from `s`.
pub proof fn lemma_walk_last(bits: u64, s: int, e: int)
    requires
        mask_has(bits, s),
        mask_has(bits, e),
        forall|j: int| #[trigger] mask_has(bits, j) ==> dist(s, j) <= dist(s, e),
    ensures
        step(bits, s, (popcount(bits) - 1) as nat) == e,
{
    lemma_walk_closes(bits, s);
    let v = step(bits, s, (popcount(bits) - 1) as nat);
    assert(dist(s, v) <= dist(s, e));
    assert(dist(s, e) <= dist(s, v));
}

// ---------------------------------------------------------------------------
// Cutting an ear.

/// When the members of `small` are members of `big` and the member of
/// `big` after `j` is in `small`, it is the member of `small` after `j`.
proof fn lemma_next_in_subset(big: u64, small: u64, j: int)
    requires
        0 <= j < 64,
        mask_has(big, next_of(big, j)),
        forall|k: int| #[trigger] mask_has(small, k) ==> mask_has(big, k),
        mask_has(small, next_of(big, j)),
    ensures
        next_of(small, j) == next_of(big, j),
{
    lemma_least_member_exists(big, j);
    let q = next_of(big, j);
    assert forall|k: int| mask_has(small, k) implies fwd(j, q) <= #[trigger] fwd(j, k) by {
        assert(mask_has(big, k));
    }
    assert(is_next(small, j, q));
    lemma_next_unique(small, j, q);
}

/// The member after `j` of a mask with a member.
proof fn lemma_next_is_next(m: u64, j: int, w: int)
    requires
        0 <= j < 64,
        mask_has(m, w),
    ensures
        is_next(m, j, next_of(m, j)),
        mask_has(m, next_of(m, j)),
        forall|k: int| #[trigger] mask_has(m, k) ==> fwd(j, next_of(m, j)) <= fwd(j, k),
{
    lemma_least_member_exists(m, j);
}

/// Cutting an ear off a ring: the members of `a0` no farther from `s`
/// than `e` form the ear `bits`; `a1` keeps `s`, `e` and the members
/// beyond `e`. The ring's area is the ear's plus that of what is left.
pub proof fn lemma_cut_ear(pts: Seq<IntPoint>, a0: u64, bits: u64, a1: u64, s: int, e: int)
    requires
        mask_has(a0, s),
        mask_has(a0, e),
        s != e,
        forall|j: int| #[trigger] mask_has(bits, j) == (mask_has(a0, j) && dist(s, j) <= dist(s, e)),
        forall|j: int|
            #[trigger] mask_has(a1, j) == (mask_has(a0, j) && (j == s || j == e || dist(s, j) > dist(s, e))),
    ensures
        ring_area(pts, a0) == ring_area(pts, a1) + ring_area(pts, bits),
{
    let g0 = ring_terms(pts, a0);
    let g1 = ring_terms(pts, a1);
    let gb = ring_terms(pts, bits);
    let inner = |j: int| mask_has(bits, j) && j != s && j != e;
    let ends = |j: int| j == s || j == e;
    // Members kept: their successor is the same in both rings, but for `s`.
    assert forall|j: int| 0 <= j < 64 && in_mask(a1)(j) && j != s implies #[trigger] g0(j) == g1(j) by {
        lemma_next_is_next(a0, j, s);
        let q = next_of(a0, j);
        assert(fwd(j, q) <= fwd(j, s));
        lemma_next_in_subset(a0, a1, j);
    }
    lemma_psum_change(in_mask(a1), g0, g1, s, 64);
    // The successor of `s` in what is left is `e`.
    assert forall|k: int| mask_has(a1, k) implies fwd(s, e) <= #[trigger] fwd(s, k) by {}
    assert(is_next(a1, s, e));
    lemma_next_unique(a1, s, e);
    // Inner ear members and `s` have the same successor in the ear.
    assert forall|j: int| 0 <= j < 64 && (inner(j) || j == s) implies #[trigger] g0(j) == gb(j) by {
        lemma_next_is_next(a0, j, s);
        let q = next_of(a0, j);
        assert(fwd(j, q) <= fwd(j, e));
        lemma_next_in_subset(a0, bits, j);
    }
    lemma_psum_congr(inner, inner, g0, gb, 64);
    // The successor of `e` in the ear is `s`.
    assert forall|k: int| mask_has(bits, k) implies fwd(e, s) <= #[trigger] fwd(e, k) by {}
    assert(is_next(bits, e, s));
    lemma_next_unique(bits, e, s);
    // Split the rings.
    lemma_psum_split(in_mask(a0), in_mask(a1), inner, g0, 64);
    lemma_psum_split(in_mask(bits), inner, ends, gb, 64);
    lemma_psum_split(ends, |j: int| j == s, |j: int| j == e, gb, 64);
    lemma_psum_single(|j: int| j == s, gb, s, 64);
    lemma_psum_single(|j: int| j == e, gb, e, 64);
    lemma_cross_antisym(pts[s], pts[e]);
}

/// Cutting an ear whose end sits on the point of its start: `a1` keeps `e`
/// and the members beyond it, and drops `s` too. The ring's area is still
/// the ear's plus that of what is left.
pub proof fn lemma_cut_ear_closed(pts: Seq<IntPoint>, a0: u64, bits: u64, a1: u64, s: int, e: int)
    requires
        mask_has(a0, s),
        mask_has(a0, e),
        s != e,
        pts[s] == pts[e],
        forall|j: int| #[trigger] mask_has(bits, j) == (mask_has(a0, j) && dist(s, j) <= dist(s, e)),
        forall|j: int| #[trigger] mask_has(a1, j) == (mask_has(a0, j) && (j == e || dist(s, j) > dist(s, e))),
    ensures
        ring_area(pts, a0) == ring_area(pts, a1) + ring_area(pts, bits),
{
    let g0 = ring_terms(pts, a0);
    let g1 = ring_terms(pts, a1);
    let gb = ring_terms(pts, bits);
    let front = |j: int| mask_has(bits, j) && j != e;
    // Members kept: their successor is the same, or `e` in place of `s`,
    // which sits on the same point.
    assert forall|j: int| 0 <= j < 64 && in_mask(a1)(j) implies #[trigger] g0(j) == g1(j) by {
        lemma_next_is_next(a0, j, s);
        let q = next_of(a0, j);
        assert(fwd(j, q) <= fwd(j, s));
        if mask_has(a1, q) {
            lemma_next_in_subset(a0, a1, j);
        } else {
            assert(q == s);
            assert forall|k: int| mask_has(a1, k) implies fwd(j, e) <= #[trigger] fwd(j, k) by {
                assert(fwd(j, s) <= fwd(j, k));
            }
            assert(is_next(a1, j, e));
            lemma_next_unique(a1, j, e);
        }
    }
    lemma_psum_congr(in_mask(a1), in_mask(a1), g0, g1, 64);
    // Ear members but `e` have the same successor in the ear.
    assert forall|j: int| 0 <= j < 64 && front(j) implies #[trigger] g0(j) == gb(j) by {
        lemma_next_is_next(a0, j, s);
        let q = next_of(a0, j);
        assert(fwd(j, q) <= fwd(j, e));
        lemma_next_in_subset(a0, bits, j);
    }
    lemma_psum_congr(front, front, g0, gb, 64);
    // The successor of `e` in the ear is `s`.
    assert forall|k: int| mask_has(bits, k) implies fwd(e, s) <= #[trigger] fwd(e, k) by {}
    assert(is_next(bits, e, s));
    lemma_next_unique(bits, e, s);
    lemma_psum_split(in_mask(a0), in_mask(a1), front, g0, 64);
    lemma_psum_split(in_mask(bits), front, |j: int| j == e, gb, 64);
    lemma_psum_single(|j: int| j == e, gb, e, 64);
    lemma_cross_antisym(pts[e], pts[e]);
}

} // verus!
