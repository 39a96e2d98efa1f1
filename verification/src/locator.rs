//! Locating points in a list of triangles.
use crate::geom::{area_two_spec, IntPoint, IntRect};
use crate::index::IndexType;
use crate::location::{PointLocationInTriangulation, TriangleIndex};
use crate::triangulation::IntTriangulation;
use crate::vertex::{point_less, point_lt};
use i_key_sort::sort::two_keys::TwoKeysSort;
use vstd::prelude::*;

verus! {

broadcast use {
    vstd::seq_lib::group_to_multiset_ensures,
    vstd::multiset::group_multiset_properties,
    vstd::multiset::group_multiset_axioms,
};

/// Where a point lies relative to one triangle.
#[derive(Clone, Copy, Debug, PartialEq, Eq, Structural)]
pub enum PointLocationInTriangle {
    Outside,
    Inside,
    OnEdge,
    OnVertex,
}

/// The three edge tests of a point against a triangle: each is the cross
/// product of `p - e0` and `e1 - e0` for one edge `e0`-`e1`.
pub open spec fn edge_side(p: IntPoint, e0: IntPoint, e1: IntPoint) -> int {
    (p.x - e0.x) * (e1.y - e0.y) - (p.y - e0.y) * (e1.x - e0.x)
}

/// Where `p` lies relative to the triangle `t`: on a vertex when it is one
/// of them; outside when the edge tests have both signs; on an edge when
/// one of them is zero; inside otherwise.
pub open spec fn locate_spec(t: [IntPoint; 3], p: IntPoint) -> PointLocationInTriangle {
    let q0 = edge_side(p, t[1], t[0]);
    let q1 = edge_side(p, t[2], t[1]);
    let q2 = edge_side(p, t[0], t[2]);
    if p == t[0] || p == t[1] || p == t[2] {
        PointLocationInTriangle::OnVertex
    } else if (q0 < 0 || q1 < 0 || q2 < 0) && (q0 > 0 || q1 > 0 || q2 > 0) {
        PointLocationInTriangle::Outside
    } else if q0 == 0 || q1 == 0 || q2 == 0 {
        PointLocationInTriangle::OnEdge
    } else {
        PointLocationInTriangle::Inside
    }
}

fn edge_test(p: IntPoint, e0: IntPoint, e1: IntPoint) -> (r: i128)
    ensures
        r == edge_side(p, e0, e1),
{
    let a = p.x as i128 - e0.x as i128;
    let b = e1.y as i128 - e0.y as i128;
    let c = p.y as i128 - e0.y as i128;
    let d = e1.x as i128 - e0.x as i128;
    proof {
        assert(-0x1_0000_0000_0000_0000 <= a * b <= 0x1_0000_0000_0000_0000) by (nonlinear_arith)
            requires
                -0x1_0000_0000 <= a <= 0x1_0000_0000,
                -0x1_0000_0000 <= b <= 0x1_0000_0000,
        ;
        assert(-0x1_0000_0000_0000_0000 <= c * d <= 0x1_0000_0000_0000_0000) by (nonlinear_arith)
            requires
                -0x1_0000_0000 <= c <= 0x1_0000_0000,
                -0x1_0000_0000 <= d <= 0x1_0000_0000,
        ;
    }
    a * b - c * d
}

/// Where `point` lies relative to the triangle.
pub fn locate_point(triangle: &[IntPoint; 3], point: IntPoint) -> (r: PointLocationInTriangle)
    ensures
        r == locate_spec(*triangle, point),
{
    let p0 = triangle[0];
    let p1 = triangle[1];
    let p2 = triangle[2];
    if point == p0 || point == p1 || point == p2 {
        return PointLocationInTriangle::OnVertex;
    }
    let q0 = edge_test(point, p1, p0);
    let q1 = edge_test(point, p2, p1);
    let q2 = edge_test(point, p0, p2);
    let has_neg = q0 < 0 || q1 < 0 || q2 < 0;
    let has_pos = q0 > 0 || q1 > 0 || q2 > 0;
    if has_neg && has_pos {
        PointLocationInTriangle::Outside
    } else if q0 == 0 || q1 == 0 || q2 == 0 {
        PointLocationInTriangle::OnEdge
    } else {
        PointLocationInTriangle::Inside
    }
}

/// `w * p == w0 * a + w1 * b + w2 * c` on both axes, with `w` the sum of
/// the weights: `p` is the point of the plane that the weights put
/// together from the triangle's vertices.
pub open spec fn weighted_point(t: [IntPoint; 3], p: IntPoint, w0: int, w1: int, w2: int) -> bool {
    &&& (w0 + w1 + w2) * p.x == w0 * t[0].x + w1 * t[1].x + w2 * t[2].x
    &&& (w0 + w1 + w2) * p.y == w0 * t[0].y + w1 * t[1].y + w2 * t[2].y
}

/// The edge test against edge `e0`-`e1` is twice the signed area of the
/// triangle `e1`, `e0`, `p`.
proof fn lemma_edge_side_area(p: IntPoint, e0: IntPoint, e1: IntPoint)
    ensures
        edge_side(p, e0, e1) == area_two_spec(e1, e0, p),
{
    let (px, py, ax, ay, bx, by) = (p.x as int, p.y as int, e0.x as int, e0.y as int, e1.x as int, e1.y as int);
    assert((px - ax) * (by - ay) - (py - ay) * (bx - ax) == (ax - bx) * (py - by) - (ay - by) * (px - bx))
        by (nonlinear_arith);
}

/// Twice the signed area of a triangle does not change when its vertex
/// list is rotated, and changes sign when two vertices are swapped.
proof fn lemma_area_turns(a: IntPoint, b: IntPoint, c: IntPoint)
    ensures
        area_two_spec(b, c, a) == area_two_spec(a, b, c),
        area_two_spec(b, a, c) == -area_two_spec(a, b, c),
{
    let (ax, ay, bx, by, cx, cy) = (a.x as int, a.y as int, b.x as int, b.y as int, c.x as int, c.y as int);
    assert((cx - bx) * (ay - by) - (cy - by) * (ax - bx) == (bx - ax) * (cy - ay) - (by - ay) * (cx - ax))
        by (nonlinear_arith);
    assert((ax - bx) * (cy - by) - (ay - by) * (cx - bx) == -((bx - ax) * (cy - ay) - (by - ay) * (cx - ax)))
        by (nonlinear_arith);
}

/// A triangle with a repeated vertex has no area.
proof fn lemma_area_flat(a: IntPoint, b: IntPoint)
    ensures
        area_two_spec(a, b, a) == 0,
        area_two_spec(a, b, b) == 0,
{
    let (ax, ay, bx, by) = (a.x as int, a.y as int, b.x as int, b.y as int);
    assert((bx - ax) * (ay - ay) - (by - ay) * (ax - ax) == 0) by (nonlinear_arith);
    assert((bx - ax) * (by - ay) - (by - ay) * (bx - ax) == 0) by (nonlinear_arith);
}

/// `(a - b) * (c - d)` multiplied out.
proof fn lemma_expand(a: int, b: int, c: int, d: int)
    ensures
        (a - b) * (c - d) == a * c - a * d - b * c + b * d,
{
    assert((a - b) * (c - d) == a * c - a * d - b * c + b * d) by (nonlinear_arith);
}

/// Multiplication does not depend on the order of its factors.
proof fn lemma_swap(a: int, b: int)
    ensures
        a * b == b * a,
{
    assert(a * b == b * a) by (nonlinear_arith);
}

/// The areas a point makes with the three edges add up to the triangle's.
proof fn lemma_areas_add_up(a: IntPoint, b: IntPoint, c: IntPoint, p: IntPoint)
    ensures
        area_two_spec(a, b, p) + area_two_spec(b, c, p) + area_two_spec(c, a, p) == area_two_spec(a, b, c),
{
    let (ux, uy) = (b.x - a.x, b.y - a.y);
    let (vx, vy) = (c.x - a.x, c.y - a.y);
    let (wx, wy) = (p.x - a.x, p.y - a.y);
    assert(c.x - b.x == vx - ux && p.y - b.y == wy - uy && c.y - b.y == vy - uy && p.x - b.x == wx - ux);
    assert(a.x - c.x == 0 - vx && p.y - c.y == wy - vy && a.y - c.y == 0 - vy && p.x - c.x == wx - vx);
    lemma_expand(vx, ux, wy, uy);
    lemma_expand(vy, uy, wx, ux);
    lemma_expand(0, vx, wy, vy);
    lemma_expand(0, vy, wx, vx);
    lemma_swap(ux, uy);
    lemma_swap(vx, vy);
    lemma_swap(vy, ux);
    lemma_swap(vx, uy);
    assert(0 * wy == 0 && 0 * vy == 0 && 0 * wx == 0 && 0 * vx == 0);
}

/// `s * (x * y) == x * (s * y)`.
proof fn lemma_regroup(s: int, x: int, y: int)
    ensures
        s * (x * y) == x * (s * y),
{
    assert(s * (x * y) == x * (s * y)) by (nonlinear_arith);
}

/// `x * (w * y + v * z) == w * (x * y) + v * (x * z)`.
proof fn lemma_spread(x: int, w: int, y: int, v: int, z: int)
    ensures
        x * (w * y + v * z) == w * (x * y) + v * (x * z),
{
    assert(x * (w * y + v * z) == w * (x * y) + v * (x * z)) by (nonlinear_arith);
}

/// `s * (x - y) == s * x - s * y`.
proof fn lemma_apart(s: int, x: int, y: int)
    ensures
        s * (x - y) == s * x - s * y,
{
    assert(s * (x - y) == s * x - s * y) by (nonlinear_arith);
}

/// A point put together from the vertices with weights makes with the
/// edge `a`-`b` the area that the weight of `c` gives the whole triangle.
proof fn lemma_weighted_area(a: IntPoint, b: IntPoint, c: IntPoint, p: IntPoint, wa: int, wb: int, wc: int)
    requires
        (wa + wb + wc) * p.x == wa * a.x + wb * b.x + wc * c.x,
        (wa + wb + wc) * p.y == wa * a.y + wb * b.y + wc * c.y,
    ensures
        (wa + wb + wc) * area_two_spec(a, b, p) == wc * area_two_spec(a, b, c),
{
    let s = wa + wb + wc;
    let (ux, uy) = (b.x - a.x, b.y - a.y);
    let (vx, vy) = (c.x - a.x, c.y - a.y);
    let (wx, wy) = (p.x - a.x, p.y - a.y);
    assert(s * wx == wb * ux + wc * vx) by (nonlinear_arith)
        requires
            s == wa + wb + wc,
            s * p.x == wa * a.x + wb * b.x + wc * c.x,
            wx == p.x - a.x,
            ux == b.x - a.x,
            vx == c.x - a.x,
    ;
    assert(s * wy == wb * uy + wc * vy) by (nonlinear_arith)
        requires
            s == wa + wb + wc,
            s * p.y == wa * a.y + wb * b.y + wc * c.y,
            wy == p.y - a.y,
            uy == b.y - a.y,
            vy == c.y - a.y,
    ;
    lemma_apart(s, ux * wy, uy * wx);
    lemma_regroup(s, ux, wy);
    lemma_regroup(s, uy, wx);
    lemma_spread(ux, wb, uy, wc, vy);
    lemma_spread(uy, wb, ux, wc, vx);
    lemma_swap(ux, uy);
    lemma_apart(wc, ux * vy, uy * vx);
}

/// With only the weight `w` non-zero, the weighted point is its vertex.
proof fn lemma_single_weight(p: IntPoint, q: IntPoint, w: int, z0: int, z1: int, o0: IntPoint, o1: IntPoint)
    requires
        w > 0,
        z0 == 0,
        z1 == 0,
        (w + z0 + z1) * p.x == w * q.x + z0 * o0.x + z1 * o1.x,
        (w + z0 + z1) * p.y == w * q.y + z0 * o0.y + z1 * o1.y,
    ensures
        p == q,
{
    assert(p.x == q.x && p.y == q.y) by (nonlinear_arith)
        requires
            w > 0,
            z0 == 0,
            z1 == 0,
            (w + z0 + z1) * p.x == w * q.x + z0 * o0.x + z1 * o1.x,
            (w + z0 + z1) * p.y == w * q.y + z0 * o0.y + z1 * o1.y,
    ;
}

/// `s * q == w * a` with `s > 0` and `a != 0`: `q` is zero exactly when
/// `w` is, and for `w > 0` has the sign of `a`.
proof fn lemma_sign_of_side(s: int, q: int, w: int, a: int)
    requires
        s > 0,
        w >= 0,
        a != 0,
        s * q == w * a,
    ensures
        (q == 0) == (w == 0),
        w > 0 && a > 0 ==> q > 0,
        w > 0 && a < 0 ==> q < 0,
{
    assert((q == 0) == (w == 0)) by (nonlinear_arith)
        requires
            s > 0,
            a != 0,
            s * q == w * a,
    ;
    assert(w > 0 && a > 0 ==> q > 0) by (nonlinear_arith)
        requires
            s > 0,
            s * q == w * a,
    ;
    assert(w > 0 && a < 0 ==> q < 0) by (nonlinear_arith)
        requires
            s > 0,
            s * q == w * a,
    ;
}

/// The three edge tests, as the areas the point makes with the edges.
proof fn lemma_tests_are_areas(t: [IntPoint; 3], p: IntPoint)
    ensures
        edge_side(p, t[1], t[0]) == area_two_spec(t[0], t[1], p),
        edge_side(p, t[2], t[1]) == area_two_spec(t[1], t[2], p),
        edge_side(p, t[0], t[2]) == area_two_spec(t[2], t[0], p),
{
    lemma_edge_side_area(p, t[1], t[0]);
    lemma_edge_side_area(p, t[2], t[1]);
    lemma_edge_side_area(p, t[0], t[2]);
}

/// Law: in a triangle that is not flat, a point put together from its
/// vertices with non-negative weights (of positive sum) is located by how
/// many weights are zero, whichever way round the triangle turns: none
/// zero, it is inside; one zero, on the edge between the other two
/// vertices; two zero, on the vertex left.
pub proof fn law_located_by_weights(t: [IntPoint; 3], p: IntPoint, w0: int, w1: int, w2: int)
    requires
        area_two_spec(t[0], t[1], t[2]) != 0,
        w0 >= 0,
        w1 >= 0,
        w2 >= 0,
        w0 + w1 + w2 > 0,
        weighted_point(t, p, w0, w1, w2),
    ensures
        w0 > 0 && w1 > 0 && w2 > 0 ==> locate_spec(t, p) == PointLocationInTriangle::Inside,
        (w0 == 0) as int + (w1 == 0) as int + (w2 == 0) as int == 1 ==> locate_spec(t, p)
            == PointLocationInTriangle::OnEdge,
        (w0 == 0) as int + (w1 == 0) as int + (w2 == 0) as int == 2 ==> locate_spec(t, p)
            == PointLocationInTriangle::OnVertex,
{
    let a = area_two_spec(t[0], t[1], t[2]);
    let s = w0 + w1 + w2;
    let q0 = edge_side(p, t[1], t[0]);
    let q1 = edge_side(p, t[2], t[1]);
    let q2 = edge_side(p, t[0], t[2]);
    lemma_tests_are_areas(t, p);
    lemma_area_turns(t[0], t[1], t[2]);
    lemma_area_turns(t[1], t[2], t[0]);
    lemma_weighted_area(t[0], t[1], t[2], p, w0, w1, w2);
    lemma_weighted_area(t[1], t[2], t[0], p, w1, w2, w0);
    lemma_weighted_area(t[2], t[0], t[1], p, w2, w0, w1);
    assert(s * q0 == w2 * a);
    assert(s * q1 == w0 * a);
    assert(s * q2 == w1 * a);
    lemma_sign_of_side(s, q0, w2, a);
    lemma_sign_of_side(s, q1, w0, a);
    lemma_sign_of_side(s, q2, w1, a);
    // A vertex zeroes the tests of the two edges through it.
    lemma_area_flat(t[0], t[1]);
    lemma_area_flat(t[1], t[2]);
    lemma_area_flat(t[2], t[0]);
    if w1 == 0 && w2 == 0 {
        lemma_single_weight(p, t[0], w0, w1, w2, t[1], t[2]);
    } else if w0 == 0 && w2 == 0 {
        lemma_single_weight(p, t[1], w1, w2, w0, t[2], t[0]);
    } else if w0 == 0 && w1 == 0 {
        lemma_single_weight(p, t[2], w2, w0, w1, t[0], t[1]);
    }
}

/// Law: a point strictly on the other side of an edge's line from the
/// triangle's third vertex is outside the triangle, whichever way round
/// the triangle turns.
pub proof fn law_beyond_an_edge_is_outside(t: [IntPoint; 3], p: IntPoint, k: int)
    requires
        0 <= k < 3,
        area_two_spec(t[k], t[(k + 1) % 3], p) * area_two_spec(t[k], t[(k + 1) % 3], t[(k + 2) % 3]) < 0,
    ensures
        locate_spec(t, p) == PointLocationInTriangle::Outside,
{
    let q0 = edge_side(p, t[1], t[0]);
    let q1 = edge_side(p, t[2], t[1]);
    let q2 = edge_side(p, t[0], t[2]);
    let a = area_two_spec(t[0], t[1], t[2]);
    lemma_tests_are_areas(t, p);
    lemma_areas_add_up(t[0], t[1], t[2], p);
    lemma_area_turns(t[0], t[1], t[2]);
    lemma_area_turns(t[1], t[2], t[0]);
    assert(q0 + q1 + q2 == a);
    // The tested edge's area has the sign opposite to the triangle's.
    let qk = if k == 0 { q0 } else if k == 1 { q1 } else { q2 };
    assert(qk * a < 0);
    assert(a != 0) by (nonlinear_arith)
        requires
            qk * a < 0,
    ;
    // So the other two add up to more than the triangle, in its sign: one
    // of them has its sign.
    assert((q0 < 0 || q1 < 0 || q2 < 0) && (q0 > 0 || q1 > 0 || q2 > 0)) by (nonlinear_arith)
        requires
            q0 + q1 + q2 == a,
            qk == q0 || qk == q1 || qk == q2,
            qk * a < 0,
    ;
    // A vertex makes no area with an edge through it, and the third makes
    // the triangle's own.
    if p == t[0] || p == t[1] || p == t[2] {
        lemma_area_flat(t[0], t[1]);
        lemma_area_flat(t[1], t[2]);
        lemma_area_flat(t[2], t[0]);
        assert(false) by (nonlinear_arith)
            requires
                q0 + q1 + q2 == a,
                (q0 == 0 && q2 == 0) || (q0 == 0 && q1 == 0) || (q1 == 0 && q2 == 0),
                qk == q0 || qk == q1 || qk == q2,
                qk * a < 0,
        ;
    }
}

/// Law: against a flat triangle (its three vertices on one line), a point
/// that is not a vertex is on an edge when it lies on the line of every
/// edge, and outside when it lies off the line of one.
pub proof fn law_flat_triangle(t: [IntPoint; 3], p: IntPoint)
    requires
        area_two_spec(t[0], t[1], t[2]) == 0,
        p != t[0] && p != t[1] && p != t[2],
    ensures
        locate_spec(t, p) == if area_two_spec(t[0], t[1], p) == 0 && area_two_spec(t[1], t[2], p) == 0
            && area_two_spec(t[2], t[0], p) == 0 {
            PointLocationInTriangle::OnEdge
        } else {
            PointLocationInTriangle::Outside
        },
{
    lemma_tests_are_areas(t, p);
    lemma_areas_add_up(t[0], t[1], t[2], p);
}

/// `cr(u, v) * w == -cr(v, w) * u + cr(u, w) * v` on one axis, with `cr`
/// the cross product: a vector in the plane of two others, by areas.
proof fn lemma_cramer(ux: int, uy: int, vx: int, vy: int, wx: int, wy: int)
    ensures
        (ux * vy - uy * vx) * wx == -(vx * wy - vy * wx) * ux + (ux * wy - uy * wx) * vx,
        (ux * vy - uy * vx) * wy == -(vx * wy - vy * wx) * uy + (ux * wy - uy * wx) * vy,
{
    assert((ux * vy - uy * vx) * wx == -(vx * wy - vy * wx) * ux + (ux * wy - uy * wx) * vx) by (nonlinear_arith);
    assert((ux * vy - uy * vx) * wy == -(vx * wy - vy * wx) * uy + (ux * wy - uy * wx) * vy) by (nonlinear_arith);
}

/// Any point is the triangle's vertices weighted by the areas the point
/// makes with the opposite edges, over the triangle's own area.
proof fn lemma_area_weights(t: [IntPoint; 3], p: IntPoint)
    ensures
        weighted_point(t, p, area_two_spec(t[1], t[2], p), area_two_spec(t[2], t[0], p), area_two_spec(t[0], t[1], p)),
{
    let (ux, uy) = (t[1].x - t[0].x, t[1].y - t[0].y);
    let (vx, vy) = (t[2].x - t[0].x, t[2].y - t[0].y);
    let (wx, wy) = (p.x - t[0].x, p.y - t[0].y);
    let al = area_two_spec(t[1], t[2], p);
    let be = area_two_spec(t[2], t[0], p);
    let ga = area_two_spec(t[0], t[1], p);
    let a = area_two_spec(t[0], t[1], t[2]);
    lemma_areas_add_up(t[0], t[1], t[2], p);
    lemma_cramer(ux, uy, vx, vy, wx, wy);
    assert(a == ux * vy - uy * vx);
    assert(ga == ux * wy - uy * wx);
    assert(t[0].x - t[2].x == 0 - vx && p.y - t[2].y == wy - vy && t[0].y - t[2].y == 0 - vy && p.x - t[2].x == wx - vx);
    lemma_expand(0, vx, wy, vy);
    lemma_expand(0, vy, wx, vx);
    lemma_swap(vx, vy);
    assert(0 * wy == 0 && 0 * vy == 0 && 0 * wx == 0 && 0 * vx == 0);
    assert(be == -(vx * wy - vy * wx));
    assert(al + be + ga == a);
    // a * (p - t0) == be * (t1 - t0) + ga * (t2 - t0), and the weights add
    // up to `a`: so a * p == al * t0 + be * t1 + ga * t2.
    assert(a * wx == be * ux + ga * vx);
    assert(a * wy == be * uy + ga * vy);
    lemma_apart(a, p.x as int, t[0].x as int);
    lemma_apart(be, t[1].x as int, t[0].x as int);
    lemma_apart(ga, t[2].x as int, t[0].x as int);
    lemma_sum3(al, be, ga, t[0].x as int);
    lemma_apart(a, p.y as int, t[0].y as int);
    lemma_apart(be, t[1].y as int, t[0].y as int);
    lemma_apart(ga, t[2].y as int, t[0].y as int);
    lemma_sum3(al, be, ga, t[0].y as int);
}

/// `(a + b + c) * x == a * x + b * x + c * x`.
proof fn lemma_sum3(a: int, b: int, c: int, x: int)
    ensures
        (a + b + c) * x == a * x + b * x + c * x,
{
    assert((a + b + c) * x == a * x + b * x + c * x) by (nonlinear_arith);
}

/// Law: a point that a triangle which is not flat does not leave outside
/// is put together from its vertices with non-negative weights of
/// positive sum (the converse of `law_located_by_weights`).
pub proof fn law_not_outside_is_weighted(t: [IntPoint; 3], p: IntPoint)
    requires
        area_two_spec(t[0], t[1], t[2]) != 0,
        locate_spec(t, p) != PointLocationInTriangle::Outside,
    ensures
        exists|w0: int, w1: int, w2: int|
            w0 >= 0 && w1 >= 0 && w2 >= 0 && w0 + w1 + w2 > 0 && #[trigger] weighted_point(t, p, w0, w1, w2),
{
    let a = area_two_spec(t[0], t[1], t[2]);
    let al = area_two_spec(t[1], t[2], p);
    let be = area_two_spec(t[2], t[0], p);
    let ga = area_two_spec(t[0], t[1], p);
    lemma_tests_are_areas(t, p);
    lemma_areas_add_up(t[0], t[1], t[2], p);
    lemma_area_weights(t, p);
    lemma_area_flat(t[0], t[1]);
    lemma_area_flat(t[1], t[2]);
    lemma_area_flat(t[2], t[0]);
    // Not outside: the tests do not take both signs; they add up to `a`.
    assert(!((al < 0 || be < 0 || ga < 0) && (al > 0 || be > 0 || ga > 0)));
    if a > 0 {
        assert(al >= 0 && be >= 0 && ga >= 0);
        assert(weighted_point(t, p, al, be, ga));
    } else {
        assert(al <= 0 && be <= 0 && ga <= 0);
        assert(weighted_point(t, p, -al, -be, -ga)) by (nonlinear_arith)
            requires
                weighted_point(t, p, al, be, ga),
        ;
    }
}

/// A point put together with non-negative weights lies in the box of the
/// points it is put together from, on one axis.
proof fn lemma_weighted_in_range(x: int, a: int, b: int, c: int, w0: int, w1: int, w2: int)
    requires
        w0 >= 0,
        w1 >= 0,
        w2 >= 0,
        w0 + w1 + w2 > 0,
        (w0 + w1 + w2) * x == w0 * a + w1 * b + w2 * c,
    ensures
        min3(a, b, c) <= x <= max3(a, b, c),
{
    let lo = min3(a, b, c);
    let hi = max3(a, b, c);
    assert(lo <= a && lo <= b && lo <= c && a <= hi && b <= hi && c <= hi);
    assert(lo <= x <= hi) by (nonlinear_arith)
        requires
            w0 >= 0,
            w1 >= 0,
            w2 >= 0,
            w0 + w1 + w2 > 0,
            (w0 + w1 + w2) * x == w0 * a + w1 * b + w2 * c,
            lo <= a && lo <= b && lo <= c && a <= hi && b <= hi && c <= hi,
    ;
}

/// Law: for a triangle that is not flat, testing the bounding box first
/// changes no answer: every point outside the box is outside the triangle.
pub proof fn law_box_test_changes_nothing(t: [IntPoint; 3], p: IntPoint)
    requires
        area_two_spec(t[0], t[1], t[2]) != 0,
    ensures
        seen_location(t, p) == locate_spec(t, p),
{
    if locate_spec(t, p) != PointLocationInTriangle::Outside {
        law_not_outside_is_weighted(t, p);
        let (w0, w1, w2) = choose|w0: int, w1: int, w2: int|
            w0 >= 0 && w1 >= 0 && w2 >= 0 && w0 + w1 + w2 > 0 && #[trigger] weighted_point(t, p, w0, w1, w2);
        lemma_weighted_in_range(p.x as int, t[0].x as int, t[1].x as int, t[2].x as int, w0, w1, w2);
        lemma_weighted_in_range(p.y as int, t[0].y as int, t[1].y as int, t[2].y as int, w0, w1, w2);
        assert(in_box(t, p));
    }
}

/// Law: the location does not depend on where the triangle's vertex list
/// starts, nor on which way round it runs.
pub proof fn law_location_ignores_vertex_order(t: [IntPoint; 3], p: IntPoint)
    ensures
        locate_spec([t[1], t[2], t[0]], p) == locate_spec(t, p),
        locate_spec([t[2], t[1], t[0]], p) == locate_spec(t, p),
{
    let r = [t[2], t[1], t[0]];
    assert(r[0] == t[2] && r[1] == t[1] && r[2] == t[0]);
    let u = [t[1], t[2], t[0]];
    assert(u[0] == t[1] && u[1] == t[2] && u[2] == t[0]);
    lemma_tests_are_areas(t, p);
    lemma_tests_are_areas(r, p);
    // Running the other way round swaps two vertices of each edge's area.
    lemma_area_turns(t[1], t[2], p);
    lemma_area_turns(t[0], t[1], p);
    lemma_area_turns(t[2], t[0], p);
}

/// `p` lies in the bounding box of the triangle.
pub open spec fn in_box(t: [IntPoint; 3], p: IntPoint) -> bool {
    let min_x = min3(t[0].x as int, t[1].x as int, t[2].x as int);
    let max_x = max3(t[0].x as int, t[1].x as int, t[2].x as int);
    let min_y = min3(t[0].y as int, t[1].y as int, t[2].y as int);
    let max_y = max3(t[0].y as int, t[1].y as int, t[2].y as int);
    min_x <= p.x <= max_x && min_y <= p.y <= max_y
}

pub open spec fn min3(a: int, b: int, c: int) -> int {
    if a <= b && a <= c {
        a
    } else if b <= c {
        b
    } else {
        c
    }
}

pub open spec fn max3(a: int, b: int, c: int) -> int {
    if a >= b && a >= c {
        a
    } else if b >= c {
        b
    } else {
        c
    }
}

/// The bounding box of the triangle.
pub fn boundary(triangle: &[IntPoint; 3]) -> (r: IntRect)
    ensures
        r.min_x == min3(triangle[0].x as int, triangle[1].x as int, triangle[2].x as int),
        r.max_x == max3(triangle[0].x as int, triangle[1].x as int, triangle[2].x as int),
        r.min_y == min3(triangle[0].y as int, triangle[1].y as int, triangle[2].y as int),
        r.max_y == max3(triangle[0].y as int, triangle[1].y as int, triangle[2].y as int),
{
    let mut rect = IntRect::with_point(triangle[0]);
    rect.unsafe_add_point(&triangle[1]);
    rect.unsafe_add_point(&triangle[2]);
    rect
}

// ---------------------------------------------------------------------------
// Locating many points.

/// A location in the triangulation as plain values: a kind (0 outside, 1
/// inside a triangle, 2 on an exterior edge, 3 on an interior edge, 4 on a
/// vertex, 5 a contradiction), one or two triangle numbers, and the
/// triangles around a vertex.
pub type LocationCode = (int, int, int, Seq<int>);

pub open spec fn code_of(l: PointLocationInTriangulation) -> LocationCode {
    match l {
        PointLocationInTriangulation::Outside => (0, 0, 0, Seq::empty()),
        PointLocationInTriangulation::InsideTriangle(t) => (1, t.0 as int, 0, Seq::empty()),
        PointLocationInTriangulation::OnExteriorEdge(t) => (2, t.0 as int, 0, Seq::empty()),
        PointLocationInTriangulation::OnInteriorEdge(t, u) => (3, t.0 as int, u.0 as int, Seq::empty()),
        PointLocationInTriangulation::OnVertex(v) => (4, 0, 0, v@.map_values(|t: TriangleIndex| t.0 as int)),
    }
}

/// The location of `p` relative to triangle `t` as the locator sees it:
/// outside when `p` is outside the triangle's bounding box.
pub open spec fn seen_location(t: [IntPoint; 3], p: IntPoint) -> PointLocationInTriangle {
    if in_box(t, p) {
        locate_spec(t, p)
    } else {
        PointLocationInTriangle::Outside
    }
}

/// Adds what triangle `k` says of a point to what the earlier ones said:
/// inside one triangle, on an edge of one or two, or on a vertex of any
/// number of them; any other mix is a contradiction.
pub open spec fn add_location(acc: LocationCode, k: int, l: PointLocationInTriangle) -> LocationCode {
    if acc.0 == 5 {
        acc
    } else {
        match l {
            PointLocationInTriangle::Outside => acc,
            PointLocationInTriangle::Inside => if acc.0 == 0 {
                (1, k, 0, Seq::empty())
            } else {
                (5, 0, 0, Seq::empty())
            },
            PointLocationInTriangle::OnEdge => if acc.0 == 0 {
                (2, k, 0, Seq::empty())
            } else if acc.0 == 2 {
                (3, acc.1, k, Seq::empty())
            } else {
                (5, 0, 0, Seq::empty())
            },
            PointLocationInTriangle::OnVertex => if acc.0 == 0 {
                (4, 0, 0, seq![k])
            } else if acc.0 == 4 {
                (4, 0, 0, acc.3.push(k))
            } else {
                (5, 0, 0, Seq::empty())
            },
        }
    }
}

/// The location of `p` after the first `k` triangles.
pub open spec fn location_after(ts: Seq<[IntPoint; 3]>, p: IntPoint, k: int) -> LocationCode
    decreases k,
{
    if k <= 0 {
        (0, 0, 0, Seq::empty())
    } else {
        add_location(location_after(ts, p, k - 1), k - 1, seen_location(ts[k - 1], p))
    }
}

/// Law: the locator answers "outside" for a point exactly when every
/// triangle leaves the point outside (outside its bounding box, or outside
/// it by the side tests).
pub proof fn law_outside_exactly_when_no_triangle_holds(ts: Seq<[IntPoint; 3]>, p: IntPoint, n: int)
    requires
        0 <= n <= ts.len(),
    ensures
        location_after(ts, p, n).0 == 0 <==> forall|k: int|
            0 <= k < n ==> #[trigger] seen_location(ts[k], p) == PointLocationInTriangle::Outside,
    decreases n,
{
    if n > 0 {
        law_outside_exactly_when_no_triangle_holds(ts, p, n - 1);
        lemma_location_code_range(ts, p, n - 1);
        if location_after(ts, p, n).0 == 0 {
            assert(seen_location(ts[n - 1], p) == PointLocationInTriangle::Outside);
        }
    }
}

/// Law: the locator answers "inside triangle `t`" exactly when `t` holds
/// the point strictly inside and every other triangle leaves it outside.
pub proof fn law_inside_exactly_when_one_triangle_holds(ts: Seq<[IntPoint; 3]>, p: IntPoint, n: int, t: int)
    requires
        0 <= n <= ts.len(),
    ensures
        (location_after(ts, p, n).0 == 1 && location_after(ts, p, n).1 == t) <==> {
            &&& 0 <= t < n
            &&& seen_location(ts[t], p) == PointLocationInTriangle::Inside
            &&& forall|k: int|
                0 <= k < n && k != t ==> #[trigger] seen_location(ts[k], p) == PointLocationInTriangle::Outside
        },
    decreases n,
{
    if n > 0 {
        law_inside_exactly_when_one_triangle_holds(ts, p, n - 1, t);
        law_outside_exactly_when_no_triangle_holds(ts, p, n - 1);
        lemma_location_code_range(ts, p, n - 1);
    }
}

/// The location code's kind only grows, and a kind of 1 to 3 names
/// triangles seen so far.
proof fn lemma_location_code_range(ts: Seq<[IntPoint; 3]>, p: IntPoint, n: int)
    requires
        0 <= n <= ts.len(),
    ensures
        0 <= location_after(ts, p, n).0 <= 5,
        location_after(ts, p, n).0 == 1 ==> 0 <= location_after(ts, p, n).1 < n,
    decreases n,
{
    if n > 0 {
        lemma_location_code_range(ts, p, n - 1);
    }
}

/// A point and its position in the query list.
#[derive(Clone, Copy, Debug)]
pub struct IndexedPoint {
    pub index: usize,
    pub point: IntPoint,
}

/// i_key_sort's `TwoKeysSort::sort_by_two_keys`, with a point's `x` and `y`
/// as the two keys: the documentation describes a lexicographic sort by
/// the two keys; the result is a permutation of the input.
#[verifier::external_body]
fn sort_points(points: &mut Vec<IndexedPoint>)
    ensures
        final(points)@.to_multiset() == old(points)@.to_multiset(),
        final(points)@.len() == old(points)@.len(),
        forall|a: int, b: int|
            0 <= a < b < final(points)@.len() ==> !point_lt(
                #[trigger] final(points)@[b].point,
                #[trigger] final(points)@[a].point,
            ),
{
    points.sort_by_two_keys(false, |p: &IndexedPoint| p.point.x, |p: &IndexedPoint| p.point.y);
}

/// The first position in the sorted points whose point is not before `min`.
fn partition_point(sorted: &Vec<IndexedPoint>, min: IntPoint) -> (r: usize)
    requires
        forall|a: int, b: int|
            0 <= a < b < sorted@.len() ==> !point_lt(#[trigger] sorted@[b].point, #[trigger] sorted@[a].point),
    ensures
        r <= sorted@.len(),
        forall|j: int| 0 <= j < r ==> point_lt(#[trigger] sorted@[j].point, min),
        forall|j: int| r <= j < sorted@.len() ==> !point_lt(#[trigger] sorted@[j].point, min),
{
    let mut lo: usize = 0;
    let mut hi: usize = sorted.len();
    while lo < hi
        invariant
            lo <= hi <= sorted@.len(),
            forall|a: int, b: int|
                0 <= a < b < sorted@.len() ==> !point_lt(#[trigger] sorted@[b].point, #[trigger] sorted@[a].point),
            forall|j: int| 0 <= j < lo ==> point_lt(#[trigger] sorted@[j].point, min),
            forall|j: int| hi <= j < sorted@.len() ==> !point_lt(#[trigger] sorted@[j].point, min),
        decreases hi - lo,
    {
        let mid = lo + (hi - lo) / 2;
        if point_less(sorted[mid].point, min) {
            proof {
                assert forall|j: int| 0 <= j < mid + 1 implies point_lt(#[trigger] sorted@[j].point, min) by {
                    if j < mid {
                        assert(!point_lt(sorted@[mid as int].point, sorted@[j].point));
                    }
                }
            }
            lo = mid + 1;
        } else {
            proof {
                assert forall|j: int| mid <= j < sorted@.len() implies !point_lt(#[trigger] sorted@[j].point, min) by {
                    if j > mid {
                        assert(!point_lt(sorted@[j].point, sorted@[mid as int].point));
                    }
                }
            }
            hi = mid;
        }
    }
    lo
}


/// Once a contradiction is met it stays.
proof fn lemma_contradiction_stays(ts: Seq<[IntPoint; 3]>, p: IntPoint, k: int, m: int)
    requires
        0 <= k <= m,
        location_after(ts, p, k).0 == 5,
    ensures
        location_after(ts, p, m).0 == 5,
    decreases m - k,
{
    if m > k {
        lemma_contradiction_stays(ts, p, k, m - 1);
    }
}

/// No point meets a contradiction: no point is inside two triangles, on an
/// edge of more than two, or both on a vertex and elsewhere.
pub open spec fn locations_consistent(ts: Seq<[IntPoint; 3]>, points: Seq<IntPoint>) -> bool {
    forall|i: int| 0 <= i < points.len() ==> (#[trigger] location_after(ts, points[i], ts.len() as int)).0 != 5
}

/// The sorted query points: each is one of the queries, with its position,
/// and each query appears once.
spec fn sorted_queries(sorted: Seq<IndexedPoint>, points: Seq<IntPoint>, pos: Seq<int>) -> bool {
    &&& sorted.len() == points.len()
    &&& pos.len() == points.len()
    &&& forall|a: int, b: int| 0 <= a < b < sorted.len() ==> !point_lt(#[trigger] sorted[b].point, #[trigger] sorted[a].point)
    &&& forall|j: int|
        0 <= j < sorted.len() ==> (#[trigger] sorted[j]).index < points.len() && sorted[j].point
            == points[sorted[j].index as int]
    &&& forall|i: int| 0 <= i < points.len() ==> 0 <= #[trigger] pos[i] < sorted.len() && sorted[pos[i]].index == i
    &&& forall|j: int| 0 <= j < sorted.len() ==> pos[#[trigger] sorted[j].index as int] == j
}

/// Gives each query point its location in the triangles: inside one, on an
/// edge of one or two, on a vertex of some, or outside all.
pub fn locate_points_in_triangles(triangles: &Vec<[IntPoint; 3]>, points: &Vec<IntPoint>) -> (r: Vec<
    PointLocationInTriangulation,
>)
    requires
        locations_consistent(triangles@, points@),
    ensures
        r@.len() == points@.len(),
        forall|i: int|
            0 <= i < points@.len() ==> #[trigger] code_of(r@[i]) == location_after(
                triangles@,
                points@[i],
                triangles@.len() as int,
            ),
{
    let n = points.len();
    let ghost ts = triangles@;
    let ghost ps = points@;
    let mut result: Vec<PointLocationInTriangulation> = Vec::new();
    let mut sorted: Vec<IndexedPoint> = Vec::new();
    let mut i: usize = 0;
    while i < n
        invariant
            n == points@.len(),
            i <= n,
            result@.len() == i,
            forall|t: int| 0 <= t < i ==> #[trigger] code_of(result@[t]) == location_after(ts, ps[t], 0),
            sorted@.len() == i,
            forall|t: int| 0 <= t < i ==> #[trigger] sorted@[t] == (IndexedPoint { index: t as usize, point: ps[t] }),
            ps == points@,
        decreases n - i,
    {
        result.push(PointLocationInTriangulation::Outside);
        sorted.push(IndexedPoint { index: i, point: points[i] });
        i += 1;
    }
    let ghost e = sorted@;
    sort_points(&mut sorted);
    let ghost pos: Seq<int> = Seq::new(n as nat, |t: int| choose|j: int| 0 <= j < n && sorted@[j].index == t);
    proof {
        assert(e.no_duplicates()) by {
            assert forall|a: int, b: int| 0 <= a < e.len() && 0 <= b < e.len() && a != b implies e[a] != e[b] by {
                assert(e[a].index == a);
                assert(e[b].index == b);
            }
        }
        e.lemma_multiset_has_no_duplicates();
        assert forall|x: IndexedPoint| sorted@.to_multiset().contains(x) implies sorted@.to_multiset().count(x) == 1 by {
            assert(e.to_multiset().contains(x));
        }
        sorted@.lemma_multiset_has_no_duplicates_conv();
        assert forall|j: int| 0 <= j < sorted@.len() implies (#[trigger] sorted@[j]).index < n && sorted@[j].point
            == ps[sorted@[j].index as int] by {
            assert(sorted@.contains(sorted@[j]));
            assert(sorted@.to_multiset().count(sorted@[j]) > 0);
            assert(e.to_multiset().count(sorted@[j]) > 0);
            assert(e.contains(sorted@[j]));
        }
        assert forall|t: int| 0 <= t < n implies 0 <= #[trigger] pos[t] < sorted@.len() && sorted@[pos[t]].index == t by {
            assert(e[t] == (IndexedPoint { index: t as usize, point: ps[t] }));
            assert(e.contains(e[t]));
            assert(e.to_multiset().count(e[t]) > 0);
            assert(sorted@.to_multiset().count(e[t]) > 0);
            assert(sorted@.contains(e[t]));
            let j = choose|j: int| 0 <= j < sorted@.len() && sorted@[j] == e[t];
            assert(sorted@[j].index == t);
        }
        assert forall|j: int| 0 <= j < sorted@.len() implies pos[#[trigger] sorted@[j].index as int] == j by {
            let t = sorted@[j].index as int;
            let q = pos[t];
            if q != j {
                assert(sorted@[q].index == sorted@[j].index);
                assert(sorted@[q].point == sorted@[j].point);
                assert(sorted@[q] == sorted@[j]);
            }
        }
        assert(sorted_queries(sorted@, ps, pos));
    }
    let m = triangles.len();
    let mut k: usize = 0;
    while k < m
        invariant
            n == points@.len(),
            ps == points@,
            ts == triangles@,
            m == triangles@.len(),
            k <= m,
            locations_consistent(ts, ps),
            sorted_queries(sorted@, ps, pos),
            result@.len() == n,
            forall|t: int| 0 <= t < n ==> #[trigger] code_of(result@[t]) == location_after(ts, ps[t], k as int),
        decreases m - k,
    {
        let triangle = triangles[k];
        let rect = boundary(&triangle);
        let min = IntPoint::new(rect.min_x, rect.min_y);
        let max = IntPoint::new(rect.max_x, rect.max_y);
        let start = partition_point(&sorted, min);
        let ghost before = result@;
        let mut j = start;
        let mut stop = false;
        while j < sorted.len() && !stop
            invariant
                n == points@.len(),
                ps == points@,
                ts == triangles@,
                m == triangles@.len(),
                k < m,
                triangle == ts[k as int],
                rect.min_x == min3(triangle[0].x as int, triangle[1].x as int, triangle[2].x as int),
                rect.max_x == max3(triangle[0].x as int, triangle[1].x as int, triangle[2].x as int),
                rect.min_y == min3(triangle[0].y as int, triangle[1].y as int, triangle[2].y as int),
                rect.max_y == max3(triangle[0].y as int, triangle[1].y as int, triangle[2].y as int),
                min == (IntPoint { x: rect.min_x, y: rect.min_y }),
                max == (IntPoint { x: rect.max_x, y: rect.max_y }),
                locations_consistent(ts, ps),
                sorted_queries(sorted@, ps, pos),
                start <= j <= sorted@.len(),
                forall|t: int| 0 <= t < start ==> point_lt(#[trigger] sorted@[t].point, min),
                forall|t: int| start <= t < sorted@.len() ==> !point_lt(#[trigger] sorted@[t].point, min),
                stop ==> j < sorted@.len() && point_lt(max, sorted@[j as int].point),
                result@.len() == n,
                forall|t: int|
                    0 <= t < n ==> #[trigger] code_of(result@[t]) == if start <= pos[t] < j && !(stop && pos[t] == j) {
                        location_after(ts, ps[t], k + 1)
                    } else {
                        location_after(ts, ps[t], k as int)
                    },
            decreases sorted@.len() - j, if stop { 0int } else { 1int },
        {
            let ip = sorted[j];
            if point_less(max, ip.point) {
                stop = true;
            } else {
                let pi = ip.index;
                proof {
                    assert(pos[pi as int] == j);
                    assert(ip.point == ps[pi as int]);
                    assert(!point_lt(ip.point, min));
                }
                if ip.point.y < rect.min_y || ip.point.y > rect.max_y {
                    proof {
                        assert(seen_location(triangle, ip.point) == PointLocationInTriangle::Outside);
                    }
                } else {
                    let loc = locate_point(&triangle, ip.point);
                    proof {
                        assert(in_box(triangle, ip.point));
                        assert(seen_location(triangle, ip.point) == loc);
                    }
                    let ghost acc = location_after(ts, ps[pi as int], k as int);
                    let ghost next = location_after(ts, ps[pi as int], k + 1);
                    proof {
                        assert(code_of(result@[pi as int]) == acc);
                        assert(next == add_location(acc, k as int, loc));
                        if next.0 == 5 {
                            lemma_contradiction_stays(ts, ps[pi as int], k + 1, ts.len() as int);
                            assert(location_after(ts, ps[pi as int], ts.len() as int).0 != 5);
                        }
                    }
                    let updated = match loc {
                        PointLocationInTriangle::Outside => None,
                        PointLocationInTriangle::Inside => Some(PointLocationInTriangulation::InsideTriangle(TriangleIndex::new(k))),
                        PointLocationInTriangle::OnEdge => match &result[pi] {
                            PointLocationInTriangulation::Outside => Some(PointLocationInTriangulation::OnExteriorEdge(TriangleIndex::new(k))),
                            PointLocationInTriangulation::OnExteriorEdge(t0) => Some(PointLocationInTriangulation::OnInteriorEdge(*t0, TriangleIndex::new(k))),
                            _ => None,
                        },
                        PointLocationInTriangle::OnVertex => match &result[pi] {
                            PointLocationInTriangulation::OnVertex(hits) => {
                                let mut h2: Vec<TriangleIndex> = Vec::new();
                                let mut t: usize = 0;
                                while t < hits.len()
                                    invariant
                                        t <= hits@.len(),
                                        h2@ == hits@.subrange(0, t as int),
                                    decreases hits@.len() - t,
                                {
                                    h2.push(hits[t]);
                                    t += 1;
                                    proof {
                                        assert(h2@ =~= hits@.subrange(0, t as int));
                                    }
                                }
                                proof {
                                    assert(h2@ =~= hits@);
                                }
                                h2.push(TriangleIndex::new(k));
                                proof {
                                    assert(h2@.map_values(|x: TriangleIndex| x.0 as int) =~= hits@.map_values(
                                        |x: TriangleIndex| x.0 as int,
                                    ).push(k as int));
                                }
                                Some(PointLocationInTriangulation::OnVertex(h2))
                            },
                            _ => {
                                let mut h2: Vec<TriangleIndex> = Vec::new();
                                h2.push(TriangleIndex::new(k));
                                proof {
                                    assert(h2@.map_values(|x: TriangleIndex| x.0 as int) =~= seq![k as int]);
                                }
                                Some(PointLocationInTriangulation::OnVertex(h2))
                            },
                        },
                    };
                    match updated {
                        Some(l) => {
                            proof {
                                assert(code_of(l) == next);
                            }
                            result.set(pi, l);
                        },
                        None => {
                            proof {
                                assert(acc == next);
                            }
                        },
                    }
                }
                j += 1;
            }
        }
        proof {
            assert forall|t: int| 0 <= t < n implies #[trigger] code_of(result@[t]) == location_after(ts, ps[t], k + 1) by {
                let q = pos[t];
                if !(start <= q < j && !(stop && q == j)) {
                    let p = ps[t];
                    assert(sorted@[q].point == p);
                    if q < start {
                        assert(point_lt(p, min));
                    } else {
                        assert(stop);
                        assert(point_lt(max, sorted@[j as int].point));
                        if q > j {
                            assert(!point_lt(sorted@[q].point, sorted@[j as int].point));
                        }
                        assert(point_lt(max, p));
                    }
                    assert(!in_box(triangle, p));
                }
            }
        }
        k += 1;
    }
    result
}

impl<N: IndexType> IntTriangulation<N> {
    /// Locates the points in the triangles of the triangulation (a
    /// trailing incomplete triple of indices is left out).
    pub fn locate_points(&self, points: &Vec<IntPoint>) -> (r: Vec<PointLocationInTriangulation>)
        requires
            forall|k: int|
                0 <= k < self.indices@.len() ==> (#[trigger] self.indices@[k]).value() < self.points@.len(),
            forall|ts: Seq<[IntPoint; 3]>|
                (ts.len() == self.indices@.len() / 3 && forall|t: int, k: int|
                    0 <= t < ts.len() && 0 <= k < 3 ==> #[trigger] ts[t][k] == self.points@[self.indices@[3 * t
                        + k].value() as int]) ==> locations_consistent(ts, points@),
        ensures
            exists|ts: Seq<[IntPoint; 3]>|
                #![trigger ts.len()]
                {
                    &&& ts.len() == self.indices@.len() / 3
                    &&& forall|t: int, k: int|
                        0 <= t < ts.len() && 0 <= k < 3 ==> #[trigger] ts[t][k] == self.points@[self.indices@[3
                            * t + k].value() as int]
                    &&& r@.len() == points@.len()
                    &&& forall|i: int|
                        0 <= i < points@.len() ==> #[trigger] code_of(r@[i]) == location_after(
                            ts,
                            points@[i],
                            ts.len() as int,
                        )
                },
    {
        let triangles = self.triangles();
        locate_points_in_triangles(&triangles, points)
    }
}

/// Locating query points in a triangulation, given as its triangles or as
/// a flat index buffer.
pub trait IntPointInTriangulationLocator {
    /// The query points can be located: no point meets the triangles in a
    /// way the locations cannot express.
    spec fn locate_ready(&self, points: Seq<IntPoint>) -> bool;

    /// `r` gives each query point its location in the triangles.
    spec fn located(&self, points: Seq<IntPoint>, r: Seq<PointLocationInTriangulation>) -> bool;

    fn locate_points(&self, points: &Vec<IntPoint>) -> (r: Vec<PointLocationInTriangulation>)
        requires
            self.locate_ready(points@),
        ensures
            self.located(points@, r@),
    ;
}

impl IntPointInTriangulationLocator for Vec<[IntPoint; 3]> {
    open spec fn locate_ready(&self, points: Seq<IntPoint>) -> bool {
        locations_consistent(self@, points)
    }

    open spec fn located(&self, points: Seq<IntPoint>, r: Seq<PointLocationInTriangulation>) -> bool {
        &&& r.len() == points.len()
        &&& forall|i: int|
            0 <= i < points.len() ==> #[trigger] code_of(r[i]) == location_after(self@, points[i], self@.len() as int)
    }

    fn locate_points(&self, points: &Vec<IntPoint>) -> (r: Vec<PointLocationInTriangulation>) {
        locate_points_in_triangles(self, points)
    }
}

impl<N: IndexType> IntPointInTriangulationLocator for IntTriangulation<N> {
    open spec fn locate_ready(&self, points: Seq<IntPoint>) -> bool {
        &&& forall|k: int| 0 <= k < self.indices@.len() ==> (#[trigger] self.indices@[k]).value() < self.points@.len()
        &&& forall|ts: Seq<[IntPoint; 3]>|
            (ts.len() == self.indices@.len() / 3 && forall|t: int, k: int|
                0 <= t < ts.len() && 0 <= k < 3 ==> #[trigger] ts[t][k] == self.points@[self.indices@[3 * t
                    + k].value() as int]) ==> locations_consistent(ts, points)
    }

    open spec fn located(&self, points: Seq<IntPoint>, r: Seq<PointLocationInTriangulation>) -> bool {
        exists|ts: Seq<[IntPoint; 3]>|
            #![trigger ts.len()]
            {
                &&& ts.len() == self.indices@.len() / 3
                &&& forall|t: int, k: int|
                    0 <= t < ts.len() && 0 <= k < 3 ==> #[trigger] ts[t][k] == self.points@[self.indices@[3 * t
                        + k].value() as int]
                &&& r.len() == points.len()
                &&& forall|i: int|
                    0 <= i < points.len() ==> #[trigger] code_of(r[i]) == location_after(ts, points[i], ts.len() as int)
            }
    }

    fn locate_points(&self, points: &Vec<IntPoint>) -> (r: Vec<PointLocationInTriangulation>) {
        IntTriangulation::locate_points(self, points)
    }
}

} // verus!
