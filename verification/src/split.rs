//! Splitting contour edges so that no piece is longer than a given length
//! (of at least 2: a diagonal unit step cannot be split on the grid).
use crate::geom::IntPoint;
use vstd::prelude::*;

verus! {

/// `r` is the integer square root of `x`: the largest `r` with `r * r <= x`.
pub open spec fn is_isqrt(x: int, r: int) -> bool {
    0 <= r && r * r <= x < (r + 1) * (r + 1)
}

/// The integer square root of `x` (for `x >= 0`).
pub open spec fn isqrt_spec(x: int) -> int {
    choose|r: int| is_isqrt(x, r)
}

proof fn lemma_isqrt_unique(x: int, r1: int, r2: int)
    requires
        is_isqrt(x, r1),
        is_isqrt(x, r2),
    ensures
        r1 == r2,
{
    if r1 < r2 {
        assert((r1 + 1) * (r1 + 1) <= r2 * r2) by (nonlinear_arith)
            requires
                0 <= r1 < r2,
        ;
    } else if r2 < r1 {
        assert((r2 + 1) * (r2 + 1) <= r1 * r1) by (nonlinear_arith)
            requires
                0 <= r2 < r1,
        ;
    }
}

/// std's `u64::isqrt`, which the documentation describes as the square
/// root rounded down: the largest `r` with `r * r <= x`.
#[verifier::external_body]
fn isqrt(x: u64) -> (r: u64)
    ensures
        r * r <= x,
        x < (r + 1) * (r + 1),
{
    x.isqrt()
}

/// The squared length of the edge from `a` to `b`.
pub open spec fn sqr_len(a: IntPoint, b: IntPoint) -> int {
    (b.x - a.x) * (b.x - a.x) + (b.y - a.y) * (b.y - a.y)
}

/// Division rounded toward zero, by a positive divisor.
pub open spec fn trunc_div(a: int, b: int) -> int {
    if a >= 0 {
        a / b
    } else {
        -((-a) / b)
    }
}

/// How many pieces an edge longer than `radius` needs by its length alone.
pub open spec fn pieces(a: IntPoint, b: IntPoint, radius: int) -> int {
    isqrt_spec(sqr_len(a, b) - 1) / radius + 1
}

/// The absolute value.
pub open spec fn abs(v: int) -> int {
    if v >= 0 {
        v
    } else {
        -v
    }
}

/// `u / n` rounded up.
pub open spec fn ceil_div(u: int, n: int) -> int {
    (u + n - 1) / n
}

/// With `n` pieces, an edge of extents `ux` and `uy` has pieces no longer
/// than `radius` even after rounding: each step is at most the extent
/// over `n`, rounded up.
pub open spec fn fits(ux: int, uy: int, radius: int, n: int) -> bool {
    ceil_div(ux, n) * ceil_div(ux, n) + ceil_div(uy, n) * ceil_div(uy, n) <= radius * radius
}

/// From `n` on, the first count of pieces that fits, or `cap`.
pub open spec fn count_from(ux: int, uy: int, radius: int, n: int, cap: int) -> int
    decreases cap - n,
{
    if n >= cap || fits(ux, uy, radius, n) {
        n
    } else {
        count_from(ux, uy, radius, n + 1, cap)
    }
}

/// Into how many pieces an edge longer than `radius` is cut: starting from
/// the count its length asks for, the first count whose rounded pieces fit,
/// and at most the larger extent, where every step is a unit one.
pub open spec fn piece_count(a: IntPoint, b: IntPoint, radius: int) -> int {
    let ux = abs(b.x - a.x);
    let uy = abs(b.y - a.y);
    count_from(ux, uy, radius, pieces(a, b, radius), if ux >= uy { ux } else { uy })
}

/// The `i`-th of `n` division points of the edge from `a` to `b`,
/// coordinates rounded toward `a`: `a` for 0, `b` for `n`.
pub open spec fn division_point(a: IntPoint, b: IntPoint, n: int, i: int) -> IntPoint {
    IntPoint { x: (a.x + trunc_div((b.x - a.x) * i, n)) as i32, y: (a.y + trunc_div((b.y - a.y) * i, n)) as i32 }
}

/// The midpoint of the edge from `a` to `b`, each coordinate of `a + b`
/// halved toward zero.
pub open spec fn half_point(a: IntPoint, b: IntPoint) -> IntPoint {
    IntPoint { x: trunc_div(a.x + b.x, 2) as i32, y: trunc_div(a.y + b.y, 2) as i32 }
}

/// The points that replace the end `b` of the edge from `a`: `b` alone when
/// the edge is no longer than `radius`; for two pieces the midpoint and
/// `b`; otherwise the division points of the edge into `piece_count`
/// parts, `b` last.
pub open spec fn split_edge(a: IntPoint, b: IntPoint, radius: int) -> Seq<IntPoint> {
    if sqr_len(a, b) <= radius * radius {
        seq![b]
    } else if piece_count(a, b, radius) == 2 {
        seq![half_point(a, b), b]
    } else {
        let n = piece_count(a, b, radius);
        Seq::new((n - 1) as nat, |i: int| division_point(a, b, n, i + 1)).push(b)
    }
}

/// Halving a sum toward zero lands within one half of it.
proof fn lemma_half(s: int)
    ensures
        s - 1 <= 2 * trunc_div(s, 2) <= s + 1,
{
}

/// Each half of an edge split at its midpoint spans at most half the
/// extent, rounded up.
proof fn lemma_half_step(p: int, q: int)
    ensures
        abs(trunc_div(p + q, 2) - p) <= ceil_div(abs(q - p), 2),
        abs(q - trunc_div(p + q, 2)) <= ceil_div(abs(q - p), 2),
{
    lemma_half(p + q);
}

/// The split of the first `k` edges of the closed contour `c`, the edge
/// ending at point `i` starting at the point before it (the last point for
/// the first one).
pub open spec fn split_edges(c: Seq<IntPoint>, radius: int, k: int) -> Seq<IntPoint>
    decreases k,
{
    if k <= 0 {
        Seq::empty()
    } else {
        split_edges(c, radius, k - 1) + split_edge(
            c[if k - 1 == 0 {
                c.len() - 1
            } else {
                k - 2
            }],
            c[k - 1],
            radius,
        )
    }
}

/// The contour with every edge split so that no piece is longer than
/// `max_edge_length` (for a length of at least 2); unchanged when that
/// length is 0 or above `0xFFFF_FFFF`.
pub open spec fn sliced_contour(c: Seq<IntPoint>, max_edge_length: u64) -> Seq<IntPoint> {
    if c.len() == 0 {
        Seq::empty()
    } else if max_edge_length == 0 || max_edge_length > 0xFFFF_FFFF {
        c
    } else {
        split_edges(c, max_edge_length as int, c.len() as int)
    }
}

/// Every point of the contour is in the safe coordinate range.
pub open spec fn contour_safe(c: Seq<IntPoint>) -> bool {
    forall|k: int| 0 <= k < c.len() ==> (#[trigger] c[k]).is_safe()
}

/// `a / b` rounded toward zero for `b > 0`.
fn div_toward_zero(a: i64, b: i64) -> (r: i64)
    requires
        b > 0,
        a > i64::MIN,
    ensures
        r == trunc_div(a as int, b as int),
{
    if a >= 0 {
        a / b
    } else {
        let q = (-a) / b;
        proof {
            assert(0 <= q <= -(a as int)) by (nonlinear_arith)
                requires
                    a < 0,
                    b > 0,
                    q as int == (-(a as int)) / (b as int),
            ;
        }
        -q
    }
}

/// A quotient rounded toward zero of `v` with `|v| <= u * n` lies
/// within `u` of zero.
proof fn lemma_trunc_div_bound(v: int, u: int, n: int)
    requires
        0 <= u,
        0 < n,
        -(u * n) <= v <= u * n,
    ensures
        -u <= trunc_div(v, n) <= u,
{
    let w = if v >= 0 {
        v
    } else {
        -v
    };
    vstd::arithmetic::div_mod::lemma_div_is_ordered(w, u * n, n);
    vstd::arithmetic::div_mod::lemma_div_by_multiple(u, n);
    vstd::arithmetic::div_mod::lemma_div_is_ordered(0, w, n);
}

proof fn lemma_product_bound(u: int, q: int, s: int)
    requires
        0 <= u,
        0 <= q,
        u * u <= s,
        q * q <= s,
    ensures
        u * q <= s,
{
    if u <= q {
        assert(u * q <= q * q) by (nonlinear_arith)
            requires
                0 <= u <= q,
        ;
    } else {
        assert(u * q <= u * u) by (nonlinear_arith)
            requires
                0 <= q < u,
        ;
    }
}

/// An extent whose square is at most `s` is at most the square root of
/// `s - 1`, plus one.
proof fn lemma_extent_below(u: int, q: int, s: int)
    requires
        0 <= u,
        0 <= q,
        u * u <= s,
        s - 1 < (q + 1) * (q + 1),
    ensures
        u <= q + 1,
{
    if u > q + 1 {
        assert(u * u >= (q + 2) * (q + 2)) by (nonlinear_arith)
            requires
                u >= q + 2,
                q >= 0,
        ;
        assert((q + 2) * (q + 2) > (q + 1) * (q + 1)) by (nonlinear_arith)
            requires
                q >= 0,
        ;
    }
}

/// A quotient rounded up is at most the dividend.
proof fn lemma_ceil_below(u: int, n: int)
    requires
        0 <= u,
        1 <= n,
    ensures
        0 <= ceil_div(u, n) <= u,
{
    let t = u + n - 1;
    vstd::arithmetic::div_mod::lemma_fundamental_div_mod(t, n);
    vstd::arithmetic::div_mod::lemma_mod_bound(t, n);
    vstd::arithmetic::div_mod::lemma_div_pos_is_pos(t, n);
    let c = t / n;
    assert(c <= u) by (nonlinear_arith)
        requires
            t == n * c + t % n,
            0 <= t % n < n,
            t == u + n - 1,
            n >= 1,
            u >= 0,
    ;
}

/// Consecutive division points of a nonnegative extent `d` into `n` parts,
/// rounded down, differ by at least 0 and at most `d / n` rounded up.
proof fn lemma_floor_step(d: int, n: int, i: int)
    requires
        0 <= d,
        1 <= n,
        0 <= i,
    ensures
        0 <= (d * (i + 1)) / n - (d * i) / n <= ceil_div(d, n),
{
    let a = d * i;
    let b = d * (i + 1);
    assert(b == a + d) by (nonlinear_arith)
        requires
            a == d * i,
            b == d * (i + 1),
    ;
    assert(a >= 0) by (nonlinear_arith)
        requires
            a == d * i,
            d >= 0,
            i >= 0,
    ;
    let t = d + n - 1;
    vstd::arithmetic::div_mod::lemma_fundamental_div_mod(a, n);
    vstd::arithmetic::div_mod::lemma_mod_bound(a, n);
    vstd::arithmetic::div_mod::lemma_fundamental_div_mod(b, n);
    vstd::arithmetic::div_mod::lemma_mod_bound(b, n);
    vstd::arithmetic::div_mod::lemma_fundamental_div_mod(t, n);
    vstd::arithmetic::div_mod::lemma_mod_bound(t, n);
    let fa = a / n;
    let fb = b / n;
    let c = t / n;
    assert(0 <= fb - fa <= c) by (nonlinear_arith)
        requires
            a == n * fa + a % n,
            0 <= a % n < n,
            b == n * fb + b % n,
            0 <= b % n < n,
            t == n * c + t % n,
            0 <= t % n < n,
            b == a + d,
            t == d + n - 1,
            d >= 0,
            n >= 1,
    ;
}

/// Consecutive division points of any extent differ by at most its
/// absolute value over `n`, rounded up.
proof fn lemma_trunc_step(d: int, n: int, i: int)
    requires
        1 <= n,
        0 <= i,
    ensures
        abs(trunc_div(d * (i + 1), n) - trunc_div(d * i, n)) <= ceil_div(abs(d), n),
{
    let e = abs(d);
    lemma_floor_step(e, n, i);
    if d >= 0 {
        assert(d * (i + 1) >= 0 && d * i >= 0) by (nonlinear_arith)
            requires
                d >= 0,
                i >= 0,
        ;
    } else {
        assert(d * (i + 1) <= 0 && d * i <= 0 && -(d * (i + 1)) == e * (i + 1) && -(d * i) == e * i) by (
        nonlinear_arith)
            requires
                d < 0,
                e == -d,
                i >= 0,
        ;
        if d * i == 0 {
            assert(e * i == 0);
        }
    }
}

proof fn lemma_count_from(ux: int, uy: int, radius: int, n: int, cap: int)
    ensures
        count_from(ux, uy, radius, n, cap) >= n,
        count_from(ux, uy, radius, n, cap) >= cap || fits(ux, uy, radius, count_from(ux, uy, radius, n, cap)),
    decreases cap - n,
{
    if !(n >= cap || fits(ux, uy, radius, n)) {
        lemma_count_from(ux, uy, radius, n + 1, cap);
    }
}

/// An extent no larger than the count of pieces steps by at most one.
proof fn lemma_ceil_unit(u: int, n: int)
    requires
        0 <= u <= n,
        1 <= n,
    ensures
        0 <= ceil_div(u, n) <= 1,
{
    vstd::arithmetic::div_mod::lemma_div_is_ordered(u + n - 1, 2 * n - 1, n);
    vstd::arithmetic::div_mod::lemma_div_pos_is_pos(u + n - 1, n);
    vstd::arithmetic::div_mod::lemma_fundamental_div_mod(2 * n - 1, n);
    vstd::arithmetic::div_mod::lemma_mod_bound(2 * n - 1, n);
    let c = (2 * n - 1) / n;
    assert(c <= 1) by (nonlinear_arith)
        requires
            2 * n - 1 == n * c + (2 * n - 1) % n,
            0 <= (2 * n - 1) % n < n,
            n >= 1,
    ;
}

/// The `i`-th division point's offset from `a` lies between 0 and the
/// extent, so the point lies between the edge's ends.
proof fn lemma_division_offset(d: int, n: int, i: int)
    requires
        1 <= n,
        0 <= i <= n,
    ensures
        d >= 0 ==> 0 <= trunc_div(d * i, n) <= d,
        d < 0 ==> d <= trunc_div(d * i, n) <= 0,
        trunc_div(d * n, n) == d,
{
    let e = abs(d);
    assert(-(e * n) <= d * i <= e * n) by (nonlinear_arith)
        requires
            e == abs(d),
            0 <= i <= n,
    ;
    lemma_trunc_div_bound(d * i, e, n);
    if d >= 0 {
        assert(d * i >= 0) by (nonlinear_arith)
            requires
                d >= 0,
                i >= 0,
        ;
        vstd::arithmetic::div_mod::lemma_div_multiples_vanish(d, n);
        assert(d * n == n * d) by (nonlinear_arith);
    } else {
        assert(d * i <= 0) by (nonlinear_arith)
            requires
                d < 0,
                i >= 0,
        ;
        vstd::arithmetic::div_mod::lemma_div_multiples_vanish(e, n);
        assert(-(d * n) == n * e) by (nonlinear_arith)
            requires
                e == -d,
        ;
        assert(d * n < 0) by (nonlinear_arith)
            requires
                d < 0,
                n >= 1,
        ;
    }
}

/// `p` and `q` are within the square of `r2` of each other, chained from
/// `start`: every point is close to the one before it.
pub open spec fn chain_short(start: IntPoint, s: Seq<IntPoint>, r2: int) -> bool {
    forall|k: int|
        0 <= k < s.len() ==> sqr_len(
            if k == 0 {
                start
            } else {
                s[k - 1]
            },
            #[trigger] s[k],
        ) <= r2
}

/// The pieces of a split edge are no longer than the radius, which is at
/// least 2.
proof fn lemma_edge_short(a: IntPoint, b: IntPoint, radius: int)
    requires
        a.is_safe(),
        b.is_safe(),
        radius >= 2,
    ensures
        split_edge(a, b, radius).len() >= 1,
        split_edge(a, b, radius).last() == b,
        chain_short(a, split_edge(a, b, radius), radius * radius),
{
    let sp = split_edge(a, b, radius);
    if sqr_len(a, b) > radius * radius && piece_count(a, b, radius) == 2 {
        let ux = abs(b.x - a.x);
        let uy = abs(b.y - a.y);
        let cap = if ux >= uy {
            ux
        } else {
            uy
        };
        let n0 = pieces(a, b, radius);
        let q = isqrt_spec(sqr_len(a, b) - 1);
        assert(exists|r: int| #[trigger] is_isqrt(sqr_len(a, b) - 1, r)) by {
            lemma_isqrt_exists(sqr_len(a, b) - 1);
        }
        vstd::arithmetic::div_mod::lemma_div_pos_is_pos(q, radius);
        lemma_count_from(ux, uy, radius, n0, cap);
        let cx = ceil_div(ux, 2);
        let cy = ceil_div(uy, 2);
        if 2 >= cap {
            lemma_ceil_unit(ux, 2);
            lemma_ceil_unit(uy, 2);
            assert(cx * cx + cy * cy <= radius * radius) by (nonlinear_arith)
                requires
                    0 <= cx <= 1,
                    0 <= cy <= 1,
                    radius >= 2,
            ;
        }
        assert(cx * cx + cy * cy <= radius * radius);
        let m = half_point(a, b);
        lemma_half_step(a.x as int, b.x as int);
        lemma_half_step(a.y as int, b.y as int);
        assert(m.x == trunc_div(a.x + b.x, 2) && m.y == trunc_div(a.y + b.y, 2));
        let s1x = m.x - a.x;
        let s1y = m.y - a.y;
        let s2x = b.x - m.x;
        let s2y = b.y - m.y;
        assert(s1x * s1x + s1y * s1y <= cx * cx + cy * cy) by (nonlinear_arith)
            requires
                abs(s1x) <= cx,
                abs(s1y) <= cy,
        ;
        assert(s2x * s2x + s2y * s2y <= cx * cx + cy * cy) by (nonlinear_arith)
            requires
                abs(s2x) <= cx,
                abs(s2y) <= cy,
        ;
        assert(sp[0] == m && sp[1] == b);
        assert(sqr_len(a, m) == s1x * s1x + s1y * s1y);
        assert(sqr_len(m, b) == s2x * s2x + s2y * s2y);
    } else if sqr_len(a, b) > radius * radius {
        let ux = abs(b.x - a.x);
        let uy = abs(b.y - a.y);
        let cap = if ux >= uy {
            ux
        } else {
            uy
        };
        let n0 = pieces(a, b, radius);
        let n = piece_count(a, b, radius);
        let q = isqrt_spec(sqr_len(a, b) - 1);
        assert(sqr_len(a, b) - 1 >= 0);
        assert(exists|r: int| #[trigger] is_isqrt(sqr_len(a, b) - 1, r)) by {
            lemma_isqrt_exists(sqr_len(a, b) - 1);
        }
        vstd::arithmetic::div_mod::lemma_div_pos_is_pos(q, radius);
        lemma_count_from(ux, uy, radius, n0, cap);
        assert(n >= 1);
        let cx = ceil_div(ux, n);
        let cy = ceil_div(uy, n);
        if n >= cap {
            lemma_ceil_unit(ux, n);
            lemma_ceil_unit(uy, n);
            assert(cx * cx + cy * cy <= radius * radius) by (nonlinear_arith)
                requires
                    0 <= cx <= 1,
                    0 <= cy <= 1,
                    radius >= 2,
            ;
        }
        assert(cx * cx + cy * cy <= radius * radius);
        let dx = b.x - a.x;
        let dy = b.y - a.y;
        assert forall|i: int| 0 <= i <= n implies {
            &&& (#[trigger] division_point(a, b, n, i)).x == a.x + trunc_div(dx * i, n)
            &&& division_point(a, b, n, i).y == a.y + trunc_div(dy * i, n)
        } by {
            lemma_division_offset(dx, n, i);
            lemma_division_offset(dy, n, i);
        }
        lemma_division_offset(dx, n, 0);
        lemma_division_offset(dy, n, 0);
        lemma_division_offset(dx, n, n);
        lemma_division_offset(dy, n, n);
        assert(division_point(a, b, n, 0) == a);
        assert(division_point(a, b, n, n) == b);
        assert forall|k: int| 0 <= k < sp.len() implies sqr_len(
            if k == 0 {
                a
            } else {
                sp[k - 1]
            },
            #[trigger] sp[k],
        ) <= radius * radius by {
            assert(sp[k] == division_point(a, b, n, k + 1));
            if k > 0 {
                assert(sp[k - 1] == division_point(a, b, n, k));
            }
            lemma_trunc_step(dx, n, k);
            lemma_trunc_step(dy, n, k);
            let sx = trunc_div(dx * (k + 1), n) - trunc_div(dx * k, n);
            let sy = trunc_div(dy * (k + 1), n) - trunc_div(dy * k, n);
            assert(sx * sx + sy * sy <= cx * cx + cy * cy) by (nonlinear_arith)
                requires
                    abs(sx) <= cx,
                    abs(sy) <= cy,
            ;
        }
    }
}

/// No edge of the closed contour is longer than `max`.
pub open spec fn short_edges(c: Seq<IntPoint>, max: int) -> bool {
    forall|k: int|
        0 <= k < c.len() ==> sqr_len(
            c[if k == 0 {
                c.len() - 1
            } else {
                k - 1
            }],
            #[trigger] c[k],
        ) <= max * max
}

proof fn lemma_split_edges_short(c: Seq<IntPoint>, radius: int, k: int)
    requires
        contour_safe(c),
        1 <= k <= c.len(),
        radius >= 2,
    ensures
        split_edges(c, radius, k).len() >= 1,
        split_edges(c, radius, k).last() == c[k - 1],
        chain_short(c[c.len() - 1], split_edges(c, radius, k), radius * radius),
    decreases k,
{
    let a = c[if k - 1 == 0 {
        c.len() - 1
    } else {
        k - 2
    }];
    assert(a.is_safe());
    assert(c[k - 1].is_safe());
    lemma_edge_short(a, c[k - 1], radius);
    let e = split_edge(a, c[k - 1], radius);
    if k == 1 {
        assert(split_edges(c, radius, 0) =~= Seq::<IntPoint>::empty());
        assert(split_edges(c, radius, 1) =~= e);
    } else {
        lemma_split_edges_short(c, radius, k - 1);
        let head = split_edges(c, radius, k - 1);
        let all = split_edges(c, radius, k);
        assert(all == head + e);
        assert forall|j: int| 0 <= j < all.len() implies sqr_len(
            if j == 0 {
                c[c.len() - 1]
            } else {
                all[j - 1]
            },
            #[trigger] all[j],
        ) <= radius * radius by {
            if j < head.len() {
                assert(all[j] == head[j]);
                if j > 0 {
                    assert(all[j - 1] == head[j - 1]);
                }
            } else {
                let u = j - head.len();
                assert(all[j] == e[u]);
                if u > 0 {
                    assert(all[j - 1] == e[u - 1]);
                } else {
                    assert(all[j - 1] == head.last());
                }
            }
        }
    }
}

/// The sliced contour's edges are no longer than `max_edge_length`, for a
/// length of at least 2.
proof fn lemma_sliced_short(c: Seq<IntPoint>, max_edge_length: u64)
    requires
        contour_safe(c),
        max_edge_length >= 2,
    ensures
        short_edges(sliced_contour(c, max_edge_length), max_edge_length as int),
{
    let r = sliced_contour(c, max_edge_length);
    let m = max_edge_length as int;
    if c.len() == 0 {
    } else if max_edge_length > 0xFFFF_FFFF {
        assert forall|k: int| 0 <= k < c.len() implies sqr_len(
            c[if k == 0 {
                c.len() - 1
            } else {
                k - 1
            }],
            #[trigger] c[k],
        ) <= m * m by {
            let p = c[if k == 0 {
                c.len() - 1
            } else {
                k - 1
            }];
            assert(p.is_safe() && c[k].is_safe());
            let dx = c[k].x - p.x;
            let dy = c[k].y - p.y;
            assert(dx * dx + dy * dy <= m * m) by (nonlinear_arith)
                requires
                    -0x8000_0000 < dx < 0x8000_0000,
                    -0x8000_0000 < dy < 0x8000_0000,
                    m >= 0x1_0000_0000,
            ;
        }
    } else {
        lemma_split_edges_short(c, m, c.len() as int);
        assert forall|k: int| 0 <= k < r.len() implies sqr_len(
            r[if k == 0 {
                r.len() - 1
            } else {
                k - 1
            }],
            #[trigger] r[k],
        ) <= m * m by {
            if k == 0 {
                assert(r[r.len() - 1] == c[c.len() - 1]);
            }
        }
    }
}

proof fn lemma_isqrt_exists(x: int)
    requires
        x >= 0,
    ensures
        exists|r: int| #[trigger] is_isqrt(x, r),
    decreases x,
{
    if x == 0 {
        assert(is_isqrt(0, 0));
    } else {
        lemma_isqrt_exists(x - 1);
        let r = choose|r: int| #[trigger] is_isqrt(x - 1, r);
        if (r + 1) * (r + 1) <= x {
            assert(x < (r + 2) * (r + 2)) by (nonlinear_arith)
                requires
                    x - 1 < (r + 1) * (r + 1),
                    r >= 0,
            ;
            assert(is_isqrt(x, r + 1));
        } else {
            assert(is_isqrt(x, r));
        }
    }
}

/// Whether `n` pieces fit, as `fits` says.
fn fits_exec(ux: u64, uy: u64, sqr_radius: u64, n: u64) -> (r: bool)
    requires
        ux < 0x8000_0000,
        uy < 0x8000_0000,
        1 <= n < 0x1_0000_0000,
    ensures
        r == (ceil_div(ux as int, n as int) * ceil_div(ux as int, n as int) + ceil_div(uy as int, n as int)
            * ceil_div(uy as int, n as int) <= sqr_radius),
{
    let cx = (ux + n - 1) / n;
    let cy = (uy + n - 1) / n;
    proof {
        lemma_ceil_below(ux as int, n as int);
        lemma_ceil_below(uy as int, n as int);
        assert(cx * cx < 0x4000_0000_0000_0000) by (nonlinear_arith)
            requires
                0 <= cx < 0x8000_0000,
        ;
        assert(cy * cy < 0x4000_0000_0000_0000) by (nonlinear_arith)
            requires
                0 <= cy < 0x8000_0000,
        ;
    }
    cx * cx + cy * cy <= sqr_radius
}

/// Appends to `out` the points that replace `b`, the end of the edge from
/// `a`.
fn extract(a: IntPoint, b: IntPoint, radius: u64, sqr_radius: u64, out: &mut Vec<IntPoint>)
    requires
        a.is_safe(),
        b.is_safe(),
        1 <= radius <= 0xFFFF_FFFF,
        sqr_radius == radius * radius,
    ensures
        final(out)@ == old(out)@ + split_edge(a, b, radius as int),
{
    let ab = b.subtract(a);
    let ghost s = sqr_len(a, b);
    proof {
        assert(ab.x * ab.x < 0x4000_0000_0000_0000) by (nonlinear_arith)
            requires
                -0x8000_0000 < ab.x < 0x8000_0000,
        ;
        assert(ab.y * ab.y < 0x4000_0000_0000_0000) by (nonlinear_arith)
            requires
                -0x8000_0000 < ab.y < 0x8000_0000,
        ;
        assert(ab.x * ab.x >= 0) by (nonlinear_arith);
        assert(ab.y * ab.y >= 0) by (nonlinear_arith);
    }
    let xx = ab.x * ab.x;
    let yy = ab.y * ab.y;
    let sqr_len_v = xx as u64 + yy as u64;
    if sqr_len_v <= sqr_radius {
        out.push(b);
        return;
    }
    let q = isqrt(sqr_len_v - 1);
    proof {
        assert(q < 0x1_0000_0000) by (nonlinear_arith)
            requires
                q * q < 0x8000_0000_0000_0000,
        ;
        assert(is_isqrt(s - 1, q as int));
        lemma_isqrt_unique(s - 1, q as int, isqrt_spec(s - 1));
        vstd::arithmetic::div_mod::lemma_div_is_ordered_by_denominator(q as int, 1, radius as int);
    }
    let n0 = q / radius + 1;
    let ghost ux: int = abs(ab.x as int);
    let ghost uy: int = abs(ab.y as int);
    let ex: u64 = if ab.x >= 0 {
        ab.x as u64
    } else {
        (-ab.x) as u64
    };
    let ey: u64 = if ab.y >= 0 {
        ab.y as u64
    } else {
        (-ab.y) as u64
    };
    let cap: u64 = if ex >= ey {
        ex
    } else {
        ey
    };
    proof {
        assert(n0 == pieces(a, b, radius as int));
        assert(n0 - 1 <= q);
        assert(ux * ux == ab.x * ab.x) by (nonlinear_arith)
            requires
                ux == abs(ab.x as int),
        ;
        assert(uy * uy == ab.y * ab.y) by (nonlinear_arith)
            requires
                uy == abs(ab.y as int),
        ;
        lemma_product_bound(ux, q as int, s);
        lemma_product_bound(uy, q as int, s);
        lemma_extent_below(ux, q as int, s);
        lemma_extent_below(uy, q as int, s);
    }
    let mut n = n0;
    while n < cap && !fits_exec(ex, ey, sqr_radius, n)
        invariant
            n0 <= n,
            n0 >= 1,
            n <= q + 1,
            cap as int == if ux >= uy { ux } else { uy },
            cap <= q + 1,
            ex == ux && ey == uy,
            0 <= ux < 0x8000_0000,
            0 <= uy < 0x8000_0000,
            sqr_radius == radius * radius,
            count_from(ux, uy, radius as int, n as int, cap as int) == count_from(
                ux,
                uy,
                radius as int,
                n0 as int,
                cap as int,
            ),
        decreases cap - n,
    {
        n = n + 1;
    }
    proof {
        assert(n == piece_count(a, b, radius as int));
    }
    if n == 2 {
        let sx: i64 = a.x as i64 + b.x as i64;
        let sy: i64 = a.y as i64 + b.y as i64;
        let mx = div_toward_zero(sx, 2);
        let my = div_toward_zero(sy, 2);
        proof {
            lemma_half(sx as int);
            lemma_half(sy as int);
        }
        out.push(IntPoint::new(mx as i32, my as i32));
        out.push(b);
        proof {
            assert(out@ =~= old(out)@ + split_edge(a, b, radius as int));
        }
        return;
    }
    let ghost base = out@;
    let ghost pts = Seq::new(
        (n - 1) as nat,
        |i: int|
            IntPoint {
                x: (a.x + trunc_div((b.x - a.x) * (i + 1), n as int)) as i32,
                y: (a.y + trunc_div((b.y - a.y) * (i + 1), n as int)) as i32,
            },
    );
    let mut i: u64 = 1;
    while i < n
        invariant
            1 <= i <= n,
            n - 1 <= q,
            n >= 1,
            ab.x == b.x - a.x && ab.y == b.y - a.y,
            q < 0x1_0000_0000,
            -ux <= ab.x <= ux,
            -uy <= ab.y <= uy,
            ux * q < 0x8000_0000_0000_0000,
            uy * q < 0x8000_0000_0000_0000,
            0 <= ux < 0x8000_0000,
            0 <= uy < 0x8000_0000,
            a.is_safe(),
            out@ == base + pts.subrange(0, i - 1),
            pts == Seq::new(
                (n - 1) as nat,
                |i: int|
                    IntPoint {
                        x: (a.x + trunc_div((b.x - a.x) * (i + 1), n as int)) as i32,
                        y: (a.y + trunc_div((b.y - a.y) * (i + 1), n as int)) as i32,
                    },
            ),
        decreases n - i,
    {
        proof {
            assert(-0x8000_0000_0000_0000 < ab.x * i < 0x8000_0000_0000_0000) by (nonlinear_arith)
                requires
                    -ux <= ab.x <= ux,
                    0 <= i <= q,
                    ux * q < 0x8000_0000_0000_0000,
            ;
            assert(-0x8000_0000_0000_0000 < ab.y * i < 0x8000_0000_0000_0000) by (nonlinear_arith)
                requires
                    -uy <= ab.y <= uy,
                    0 <= i <= q,
                    uy * q < 0x8000_0000_0000_0000,
            ;
        }
        let px = ab.x * (i as i64);
        let py = ab.y * (i as i64);
        let dx = div_toward_zero(px, n as i64);
        let dy = div_toward_zero(py, n as i64);
        proof {
            assert(-(ux * n) <= px <= ux * n) by (nonlinear_arith)
                requires
                    px == ab.x * i,
                    -ux <= ab.x <= ux,
                    0 <= i < n,
            ;
            assert(-(uy * n) <= py <= uy * n) by (nonlinear_arith)
                requires
                    py == ab.y * i,
                    -uy <= ab.y <= uy,
                    0 <= i < n,
            ;
            lemma_trunc_div_bound(px as int, ux, n as int);
            lemma_trunc_div_bound(py as int, uy, n as int);
        }
        let x = a.x as i64 + dx;
        let y = a.y as i64 + dy;
        out.push(IntPoint::new(x as i32, y as i32));
        proof {
            assert(out@ =~= base + pts.subrange(0, i as int));
        }
        i = i + 1;
    }
    out.push(b);
    proof {
        assert(pts.subrange(0, n - 1) =~= pts);
        assert(out@ =~= old(out)@ + split_edge(a, b, radius as int));
    }
}

/// Splitting of edges that are too long.
pub trait SliceContour: Sized {
    /// Every point is in the safe coordinate range.
    spec fn slice_ready(&self) -> bool;

    /// `r` is `self` with its edges split for `max_edge_length`.
    spec fn is_slice_of(&self, max_edge_length: u64, r: Self) -> bool;

    /// Splits every contour edge so that no resulting segment is longer
    /// than `max_edge_length` (for a length of at least 2; a length of 1
    /// cannot split a diagonal unit step).
    fn slice_contour(&self, max_edge_length: u64) -> (r: Self)
        requires
            self.slice_ready(),
        ensures
            self.is_slice_of(max_edge_length, r),
    ;
}

impl SliceContour for Vec<IntPoint> {
    open spec fn slice_ready(&self) -> bool {
        contour_safe(self@)
    }

    open spec fn is_slice_of(&self, max_edge_length: u64, r: Self) -> bool {
        r@ == sliced_contour(self@, max_edge_length)
    }

    fn slice_contour(&self, max_edge_length: u64) -> (r: Self)
        ensures
            max_edge_length >= 2 ==> short_edges(r@, max_edge_length as int),
    {
        proof {
            if max_edge_length >= 2 {
                lemma_sliced_short(self@, max_edge_length);
            }
        }
        let n = self.len();
        if n == 0 {
            return Vec::new();
        }
        let mut a = self[n - 1];
        let radius = max_edge_length;
        if radius == 0 || radius > 0xFFFF_FFFF {
            let mut copy: Vec<IntPoint> = Vec::new();
            let mut k: usize = 0;
            while k < n
                invariant
                    n == self@.len(),
                    k <= n,
                    copy@ == self@.subrange(0, k as int),
                decreases n - k,
            {
                copy.push(self[k]);
                k += 1;
                proof {
                    assert(copy@ =~= self@.subrange(0, k as int));
                }
            }
            proof {
                assert(copy@ =~= self@);
            }
            return copy;
        }
        proof {
            assert(radius * radius <= 0xFFFF_FFFF * 0xFFFF_FFFF) by (nonlinear_arith)
                requires
                    radius <= 0xFFFF_FFFF,
            ;
        }
        let sqr_radius = radius * radius;
        let mut contour: Vec<IntPoint> = Vec::new();
        let mut k: usize = 0;
        while k < n
            invariant
                n == self@.len(),
                n >= 1,
                k <= n,
                contour_safe(self@),
                1 <= radius <= 0xFFFF_FFFF,
                sqr_radius == radius * radius,
                a == self@[if k == 0 {
                    n - 1
                } else {
                    k - 1
                }],
                contour@ == split_edges(self@, radius as int, k as int),
            decreases n - k,
        {
            let b = self[k];
            proof {
                assert(self@[if k == 0 { n - 1 } else { k - 1 }].is_safe());
                assert(self@[k as int].is_safe());
            }
            extract(a, b, radius, sqr_radius, &mut contour);
            a = b;
            k += 1;
        }
        contour
    }
}

impl SliceContour for Vec<Vec<IntPoint>> {
    open spec fn slice_ready(&self) -> bool {
        forall|i: int| 0 <= i < self@.len() ==> contour_safe((#[trigger] self@[i])@)
    }

    open spec fn is_slice_of(&self, max_edge_length: u64, r: Self) -> bool {
        &&& r@.len() == self@.len()
        &&& forall|i: int| 0 <= i < self@.len() ==> (#[trigger] r@[i])@ == sliced_contour(self@[i]@, max_edge_length)
    }

    fn slice_contour(&self, max_edge_length: u64) -> (r: Self)
        ensures
            max_edge_length >= 2 ==> forall|i: int|
                0 <= i < r@.len() ==> short_edges((#[trigger] r@[i])@, max_edge_length as int),
    {
        let mut shape: Vec<Vec<IntPoint>> = Vec::new();
        let mut i: usize = 0;
        while i < self.len()
            invariant
                i <= self@.len(),
                forall|j: int| 0 <= j < self@.len() ==> contour_safe((#[trigger] self@[j])@),
                shape@.len() == i,
                forall|j: int| 0 <= j < i ==> (#[trigger] shape@[j])@ == sliced_contour(self@[j]@, max_edge_length),
            decreases self@.len() - i,
        {
            let c = self[i].slice_contour(max_edge_length);
            shape.push(c);
            i += 1;
        }
        proof {
            if max_edge_length >= 2 {
                assert forall|i: int| 0 <= i < shape@.len() implies short_edges(
                    (#[trigger] shape@[i])@,
                    max_edge_length as int,
                ) by {
                    lemma_sliced_short(self@[i]@, max_edge_length);
                }
            }
        }
        shape
    }
}

impl SliceContour for Vec<Vec<Vec<IntPoint>>> {
    open spec fn slice_ready(&self) -> bool {
        forall|i: int, j: int|
            0 <= i < self@.len() && 0 <= j < self@[i]@.len() ==> contour_safe((#[trigger] self@[i]@[j])@)
    }

    open spec fn is_slice_of(&self, max_edge_length: u64, r: Self) -> bool {
        &&& r@.len() == self@.len()
        &&& forall|i: int|
            0 <= i < self@.len() ==> {
                &&& (#[trigger] r@[i])@.len() == self@[i]@.len()
                &&& forall|j: int|
                    0 <= j < self@[i]@.len() ==> (#[trigger] r@[i]@[j])@ == sliced_contour(
                        self@[i]@[j]@,
                        max_edge_length,
                    )
            }
    }

    fn slice_contour(&self, max_edge_length: u64) -> (r: Self)
        ensures
            max_edge_length >= 2 ==> forall|a: int, b: int|
                0 <= a < r@.len() && 0 <= b < r@[a]@.len() ==> short_edges(
                    (#[trigger] r@[a]@[b])@,
                    max_edge_length as int,
                ),
    {
        let mut shapes: Vec<Vec<Vec<IntPoint>>> = Vec::new();
        let mut i: usize = 0;
        while i < self.len()
            invariant
                i <= self@.len(),
                forall|a: int, b: int|
                    0 <= a < self@.len() && 0 <= b < self@[a]@.len() ==> contour_safe((#[trigger] self@[a]@[b])@),
                shapes@.len() == i,
                forall|a: int|
                    0 <= a < i ==> {
                        &&& (#[trigger] shapes@[a])@.len() == self@[a]@.len()
                        &&& forall|b: int|
                            0 <= b < self@[a]@.len() ==> (#[trigger] shapes@[a]@[b])@ == sliced_contour(
                                self@[a]@[b]@,
                                max_edge_length,
                            )
                    },
            decreases self@.len() - i,
        {
            let shape = &self[i];
            proof {
                assert forall|b: int| 0 <= b < shape@.len() implies contour_safe((#[trigger] shape@[b])@) by {
                    assert(self@[i as int]@[b] == shape@[b]);
                }
            }
            let s = shape.slice_contour(max_edge_length);
            shapes.push(s);
            i += 1;
        }
        proof {
            if max_edge_length >= 2 {
                assert forall|a: int, b: int|
                    0 <= a < shapes@.len() && 0 <= b < shapes@[a]@.len() implies short_edges(
                    (#[trigger] shapes@[a]@[b])@,
                    max_edge_length as int,
                ) by {
                    lemma_sliced_short(self@[a]@[b]@, max_edge_length);
                }
            }
        }
        shapes
    }
}

} // verus!
