//! Lattice points inside contours, kept away from their edges.
use crate::geom::{IntPoint, IntRect};
use i_key_sort::sort::two_keys::TwoKeysSort;
use i_overlay::i_float::int::point::IntPoint as OutsidePoint;
use vstd::prelude::*;

verus! {

broadcast use {
    vstd::seq_lib::group_to_multiset_ensures,
    vstd::multiset::group_multiset_properties,
    vstd::multiset::group_multiset_axioms,
};

/// A contour edge from `a` to `b`.
#[derive(Clone, Copy, Debug, PartialEq, Eq, Structural)]
pub struct Edge {
    pub a: IntPoint,
    pub b: IntPoint,
}

/// The edges of a closed contour: each point joined from the one before
/// it (the last point for the first one).
pub open spec fn contour_edges(c: Seq<IntPoint>) -> Seq<Edge> {
    Seq::new(
        c.len(),
        |i: int|
            Edge {
                a: c[if i == 0 {
                    c.len() - 1
                } else {
                    i - 1
                }],
                b: c[i],
            },
    )
}

/// Appends the edges of a contour (none for an empty one).
pub fn append_edges(contour: &Vec<IntPoint>, edges: &mut Vec<Edge>)
    ensures
        final(edges)@ == old(edges)@ + contour_edges(contour@),
{
    let n = contour.len();
    if n == 0 {
        proof {
            assert(edges@ =~= edges@ + contour_edges(contour@));
        }
        return;
    }
    let ghost start = edges@;
    let mut a = contour[n - 1];
    let mut i: usize = 0;
    while i < n
        invariant
            n == contour@.len(),
            i <= n,
            a == contour@[if i == 0 {
                n - 1
            } else {
                i - 1
            }],
            edges@ == start + contour_edges(contour@).subrange(0, i as int),
        decreases n - i,
    {
        let b = contour[i];
        edges.push(Edge { a, b });
        a = b;
        i += 1;
        proof {
            assert(edges@ =~= start + contour_edges(contour@).subrange(0, i as int));
        }
    }
    proof {
        assert(contour_edges(contour@).subrange(0, n as int) =~= contour_edges(contour@));
    }
}

pub open spec fn sqr_dist(p: IntPoint, q: IntPoint) -> int {
    (p.x - q.x) * (p.x - q.x) + (p.y - q.y) * (p.y - q.y)
}

/// `p` lies within `clearance` of the edge: of its end nearest along the
/// edge when `p` projects outside it (or when the edge is a point), of
/// the edge's line otherwise.
pub open spec fn close_to_edge(p: IntPoint, e: Edge, clearance: int) -> bool {
    let length_sqr = sqr_dist(e.b, e.a);
    let projection = (p.x - e.a.x) * (e.b.x - e.a.x) + (p.y - e.a.y) * (e.b.y - e.a.y);
    let cross = (e.b.x - e.a.x) * (p.y - e.a.y) - (e.b.y - e.a.y) * (p.x - e.a.x);
    if length_sqr <= 0 || projection <= 0 {
        sqr_dist(p, e.a) <= clearance * clearance
    } else if projection >= length_sqr {
        sqr_dist(p, e.b) <= clearance * clearance
    } else {
        cross * cross <= clearance * clearance * length_sqr
    }
}

proof fn lemma_square_bound(v: int)
    requires
        -0x8000_0000 < v < 0x8000_0000,
    ensures
        0 <= v * v < 0x4000_0000_0000_0000,
{
    assert(0 <= v * v < 0x4000_0000_0000_0000) by (nonlinear_arith)
        requires
            -0x8000_0000 < v < 0x8000_0000,
    ;
}

/// The squared distance of two safe points.
fn sqr_distance(p: IntPoint, q: IntPoint) -> (r: u64)
    requires
        p.is_safe(),
        q.is_safe(),
    ensures
        r == sqr_dist(p, q),
        r < 0x8000_0000_0000_0000,
{
    let dx = p.x as i64 - q.x as i64;
    let dy = p.y as i64 - q.y as i64;
    proof {
        lemma_square_bound(dx as int);
        lemma_square_bound(dy as int);
    }
    let xx = dx * dx;
    let yy = dy * dy;
    xx as u64 + yy as u64
}

/// Whether `point` lies within `clearance` of the edge.
pub fn is_close_to_edge(point: IntPoint, edge: Edge, clearance: u64) -> (r: bool)
    requires
        point.is_safe(),
        edge.a.is_safe(),
        edge.b.is_safe(),
        clearance <= 0xFFFF_FFFF,
    ensures
        r == close_to_edge(point, edge, clearance as int),
{
    let length_sqr = sqr_distance(edge.b, edge.a);
    proof {
        assert(clearance * clearance <= 0xFFFF_FFFF * 0xFFFF_FFFF) by (nonlinear_arith)
            requires
                clearance <= 0xFFFF_FFFF,
        ;
    }
    let clearance_sqr = clearance * clearance;
    let abx = edge.b.x as i64 - edge.a.x as i64;
    let aby = edge.b.y as i64 - edge.a.y as i64;
    let apx = point.x as i64 - edge.a.x as i64;
    let apy = point.y as i64 - edge.a.y as i64;
    proof {
        crate::geom::lemma_small_product(apx as int, abx as int);
        crate::geom::lemma_small_product(apy as int, aby as int);
        crate::geom::lemma_small_product(abx as int, apy as int);
        crate::geom::lemma_small_product(aby as int, apx as int);
    }
    if length_sqr == 0 {
        return sqr_distance(point, edge.a) <= clearance_sqr;
    }
    let projection = apx * abx + apy * aby;
    if projection <= 0 {
        return sqr_distance(point, edge.a) <= clearance_sqr;
    }
    if projection >= length_sqr as i64 {
        return sqr_distance(point, edge.b) <= clearance_sqr;
    }
    let cross = abx * apy - aby * apx;
    let cross_abs: u64 = if cross < 0 {
        (-cross) as u64
    } else {
        cross as u64
    };
    proof {
        assert(cross_abs * cross_abs == cross * cross) by (nonlinear_arith)
            requires
                cross_abs == if cross < 0 { -cross } else { cross as int },
        ;
        assert(cross_abs as u128 * cross_abs as u128 <= 0xFFFF_FFFF_FFFF_FFFF * 0xFFFF_FFFF_FFFF_FFFF) by (nonlinear_arith)
            requires
                cross_abs <= 0xFFFF_FFFF_FFFF_FFFF,
        ;
        assert(clearance_sqr as u128 * length_sqr as u128 <= 0xFFFF_FFFF_FFFF_FFFF * 0xFFFF_FFFF_FFFF_FFFF) by (nonlinear_arith)
            requires
                clearance_sqr <= 0xFFFF_FFFF_FFFF_FFFF,
                length_sqr <= 0xFFFF_FFFF_FFFF_FFFF,
        ;
    }
    let distance_product = cross_abs as u128 * cross_abs as u128;
    let limit_product = clearance_sqr as u128 * length_sqr as u128;
    distance_product <= limit_product
}


// ---------------------------------------------------------------------------
// Keeping points away from edges.

pub open spec fn min2(a: int, b: int) -> int {
    if a <= b {
        a
    } else {
        b
    }
}

pub open spec fn max2(a: int, b: int) -> int {
    if a >= b {
        a
    } else {
        b
    }
}

/// The grid cells (of size `cell`, counted from the rectangle's lower
/// corner) that the edge's box, grown by `c` and clipped to the
/// rectangle, reaches: lowest and highest column, lowest and highest row.
pub open spec fn cell_range(e: Edge, rect: IntRect, cell: int, c: int) -> (int, int, int, int) {
    let min_x = max2(min2(e.a.x as int, e.b.x as int) - c, rect.min_x as int);
    let max_x = min2(max2(e.a.x as int, e.b.x as int) + c, rect.max_x as int);
    let min_y = max2(min2(e.a.y as int, e.b.y as int) - c, rect.min_y as int);
    let max_y = min2(max2(e.a.y as int, e.b.y as int) + c, rect.max_y as int);
    (
        (min_x - rect.min_x) / cell,
        (max_x - rect.min_x) / cell,
        (min_y - rect.min_y) / cell,
        (max_y - rect.min_y) / cell,
    )
}

/// The grid cell (row, column) of a point in the rectangle.
pub open spec fn point_cell(p: IntPoint, rect: IntRect, cell: int) -> (int, int) {
    ((p.y - rect.min_y) / cell, (p.x - rect.min_x) / cell)
}

/// Edge `ei` reaches the point's cell and lies within `c` of the point.
pub open spec fn near_edge_at(p: IntPoint, edges: Seq<Edge>, rect: IntRect, cell: int, c: int, ei: int) -> bool {
    let r = cell_range(edges[ei], rect, cell, c);
    let pc = point_cell(p, rect, cell);
    &&& 0 <= ei < edges.len()
    &&& r.2 <= pc.0 <= r.3
    &&& r.0 <= pc.1 <= r.1
    &&& close_to_edge(p, edges[ei], c)
}

/// Some edge reaching the point's cell lies within `c` of the point.
pub open spec fn near_edges(p: IntPoint, edges: Seq<Edge>, rect: IntRect, cell: int, c: int) -> bool {
    exists|ei: int| #[trigger] near_edge_at(p, edges, rect, cell, c, ei)
}

/// The first `k` points, but those near an edge.
pub open spec fn far_points(points: Seq<IntPoint>, edges: Seq<Edge>, rect: IntRect, cell: int, c: int, k: int) -> Seq<
    IntPoint,
>
    decreases k,
{
    if k <= 0 {
        Seq::empty()
    } else {
        far_points(points, edges, rect, cell, c, k - 1) + if near_edges(points[k - 1], edges, rect, cell, c) {
            Seq::empty()
        } else {
            seq![points[k - 1]]
        }
    }
}

pub open spec fn in_rect(rect: IntRect, p: IntPoint) -> bool {
    rect.min_x <= p.x <= rect.max_x && rect.min_y <= p.y <= rect.max_y
}

/// Points of a rectangle inside the safe range are safe.
proof fn lemma_rect_points_safe(rect: IntRect, points: Seq<IntPoint>)
    requires
        rect.min_x > -0x4000_0000 && rect.max_x < 0x4000_0000,
        rect.min_y > -0x4000_0000 && rect.max_y < 0x4000_0000,
        forall|k: int| 0 <= k < points.len() ==> in_rect(rect, #[trigger] points[k]),
    ensures
        forall|k: int| 0 <= k < points.len() ==> (#[trigger] points[k]).is_safe(),
{
    assert forall|k: int| 0 <= k < points.len() implies (#[trigger] points[k]).is_safe() by {
        assert(in_rect(rect, points[k]));
    }
}

/// A cell entry: row, column and edge.
pub type CellEntry = (usize, usize, usize);

pub open spec fn key_lt(a: CellEntry, b: (usize, usize)) -> bool {
    a.0 < b.0 || (a.0 == b.0 && a.1 < b.1)
}

pub open spec fn key_le(a: CellEntry, b: (usize, usize)) -> bool {
    a.0 < b.0 || (a.0 == b.0 && a.1 <= b.1)
}

pub open spec fn entries_sorted(v: Seq<CellEntry>) -> bool {
    forall|a: int, b: int| 0 <= a < b < v.len() ==> key_le(#[trigger] v[a], ((#[trigger] v[b]).0, v[b].1))
}

/// i_key_sort's `TwoKeysSort::sort_by_two_keys`, with an entry's row and
/// column as the two keys: the documentation describes a lexicographic
/// sort by the two keys; the result is a permutation of the input.
#[verifier::external_body]
fn sort_entries(entries: &mut Vec<CellEntry>)
    ensures
        final(entries)@.to_multiset() == old(entries)@.to_multiset(),
        final(entries)@.len() == old(entries)@.len(),
        entries_sorted(final(entries)@),
{
    entries.sort_by_two_keys(false, |e: &CellEntry| e.0, |e: &CellEntry| e.1);
}

/// The first position whose entry is not before the cell (`strict`), or
/// whose entry is after the cell.
fn entries_partition(entries: &Vec<CellEntry>, cell: (usize, usize), strict: bool) -> (r: usize)
    requires
        entries_sorted(entries@),
    ensures
        r <= entries@.len(),
        forall|j: int|
            0 <= j < r ==> if strict {
                key_lt(#[trigger] entries@[j], cell)
            } else {
                key_le(entries@[j], cell)
            },
        forall|j: int|
            r <= j < entries@.len() ==> if strict {
                !key_lt(#[trigger] entries@[j], cell)
            } else {
                !key_le(entries@[j], cell)
            },
{
    let mut lo: usize = 0;
    let mut hi: usize = entries.len();
    while lo < hi
        invariant
            lo <= hi <= entries@.len(),
            entries_sorted(entries@),
            forall|j: int|
                0 <= j < lo ==> if strict {
                    key_lt(#[trigger] entries@[j], cell)
                } else {
                    key_le(entries@[j], cell)
                },
            forall|j: int|
                hi <= j < entries@.len() ==> if strict {
                    !key_lt(#[trigger] entries@[j], cell)
                } else {
                    !key_le(entries@[j], cell)
                },
        decreases hi - lo,
    {
        let mid = lo + (hi - lo) / 2;
        let e = entries[mid];
        let before = if strict {
            e.0 < cell.0 || (e.0 == cell.0 && e.1 < cell.1)
        } else {
            e.0 < cell.0 || (e.0 == cell.0 && e.1 <= cell.1)
        };
        if before {
            proof {
                assert forall|j: int| 0 <= j <= mid implies if strict {
                    key_lt(#[trigger] entries@[j], cell)
                } else {
                    key_le(entries@[j], cell)
                } by {
                    if j < mid {
                        assert(key_le(entries@[j], (entries@[mid as int].0, entries@[mid as int].1)));
                    }
                }
            }
            lo = mid + 1;
        } else {
            proof {
                assert forall|j: int| mid <= j < entries@.len() implies if strict {
                    !key_lt(#[trigger] entries@[j], cell)
                } else {
                    !key_le(entries@[j], cell)
                } by {
                    if j > mid {
                        assert(key_le(entries@[mid as int], (entries@[j].0, entries@[j].1)));
                    }
                }
            }
            hi = mid;
        }
    }
    lo
}


/// The entry's cell is reached by its edge.
pub open spec fn entry_valid(t: CellEntry, edges: Seq<Edge>, rect: IntRect, cell: int, c: int) -> bool {
    let r = cell_range(edges[t.2 as int], rect, cell, c);
    &&& t.2 < edges.len()
    &&& r.2 <= t.0 <= r.3
    &&& r.0 <= t.1 <= r.1
}

/// The grid cells an edge reaches, as column and row bounds.
fn edge_cells(e: Edge, rect: IntRect, cell_size: i64, clearance: i64) -> (r: (usize, usize, usize, usize))
    requires
        rect.min_x <= rect.max_x,
        rect.min_y <= rect.max_y,
        rect.min_x > -0x4000_0000 && rect.max_x < 0x4000_0000,
        rect.min_y > -0x4000_0000 && rect.max_y < 0x4000_0000,
        in_rect(rect, e.a),
        in_rect(rect, e.b),
        1 <= cell_size,
        0 <= clearance <= 0x1_0000_0000,
    ensures
        r.0 as int == cell_range(e, rect, cell_size as int, clearance as int).0,
        r.1 as int == cell_range(e, rect, cell_size as int, clearance as int).1,
        r.2 as int == cell_range(e, rect, cell_size as int, clearance as int).2,
        r.3 as int == cell_range(e, rect, cell_size as int, clearance as int).3,
        r.0 <= r.1,
        r.2 <= r.3,
        r.1 < 0x8000_0000,
        r.3 < 0x8000_0000,
{
    let ox = rect.min_x as i64;
    let oy = rect.min_y as i64;
    let lx = rect.max_x as i64;
    let ly = rect.max_y as i64;
    let ax = e.a.x as i64;
    let bx = e.b.x as i64;
    let ay = e.a.y as i64;
    let by = e.b.y as i64;
    let lo_x = if ax <= bx { ax } else { bx };
    let hi_x = if ax >= bx { ax } else { bx };
    let lo_y = if ay <= by { ay } else { by };
    let hi_y = if ay >= by { ay } else { by };
    let min_x = if lo_x - clearance >= ox { lo_x - clearance } else { ox };
    let max_x = if hi_x + clearance <= lx { hi_x + clearance } else { lx };
    let min_y = if lo_y - clearance >= oy { lo_y - clearance } else { oy };
    let max_y = if hi_y + clearance <= ly { hi_y + clearance } else { ly };
    let a = (min_x - ox) / cell_size;
    let b = (max_x - ox) / cell_size;
    let c = (min_y - oy) / cell_size;
    let d = (max_y - oy) / cell_size;
    proof {
        vstd::arithmetic::div_mod::lemma_div_is_ordered(min_x - ox, max_x - ox, cell_size as int);
        vstd::arithmetic::div_mod::lemma_div_is_ordered(min_y - oy, max_y - oy, cell_size as int);
        vstd::arithmetic::div_mod::lemma_div_is_ordered(max_x - ox, lx - ox, cell_size as int);
        vstd::arithmetic::div_mod::lemma_div_is_ordered(max_y - oy, ly - oy, cell_size as int);
        vstd::arithmetic::div_mod::lemma_div_is_ordered(0, min_x - ox, cell_size as int);
        vstd::arithmetic::div_mod::lemma_div_is_ordered(0, min_y - oy, cell_size as int);
        vstd::arithmetic::div_mod::lemma_div_is_ordered_by_denominator(lx - ox, 1, cell_size as int);
        vstd::arithmetic::div_mod::lemma_div_is_ordered_by_denominator(ly - oy, 1, cell_size as int);
    }
    (a as usize, b as usize, c as usize, d as usize)
}

/// Keeps the points that lie farther than `clearance` from every edge
/// reaching their grid cell; the cells, of size `cell_size`, start at the
/// rectangle's lower corner, and an edge reaches the cells its box, grown
/// by `clearance` and clipped to the rectangle, meets.
pub fn filter_near_edges(
    points: Vec<IntPoint>,
    edges: &Vec<Edge>,
    rect: IntRect,
    cell_size: u64,
    clearance: u64,
) -> (r: Vec<IntPoint>)
    requires
        rect.min_x <= rect.max_x,
        rect.min_y <= rect.max_y,
        rect.min_x > -0x4000_0000 && rect.max_x < 0x4000_0000,
        rect.min_y > -0x4000_0000 && rect.max_y < 0x4000_0000,
        forall|k: int| 0 <= k < points@.len() ==> in_rect(rect, #[trigger] points@[k]),
        forall|k: int| 0 <= k < edges@.len() ==> in_rect(rect, (#[trigger] edges@[k]).a) && in_rect(rect, edges@[k].b),
        1 <= cell_size <= 0x7FFF_FFFF_FFFF_FFFF,
        clearance <= 0xFFFF_FFFF,
    ensures
        r@ == far_points(points@, edges@, rect, cell_size as int, clearance as int, points@.len() as int),
        r@ == points@.filter(far_from_edges(edges@, clearance as int)),
{
    broadcast use vstd::seq_lib::group_seq_properties;

    proof {
        law_far_points_are_the_far_ones(points@, edges@, rect, cell_size as int, clearance as int, points@.len() as int);
        assert(points@.subrange(0, points@.len() as int) =~= points@);
    }

    let ghost cs = cell_size as int;
    let ghost cl = clearance as int;
    if points.len() == 0 || edges.len() == 0 {
        proof {
            lemma_far_points_all(points@, edges@, rect, cs, cl, points@.len() as int);
        }
        return points;
    }
    let cell_w = cell_size as i64;
    let clearance_w = clearance as i64;
    let mut entries: Vec<CellEntry> = Vec::new();
    let mut ei: usize = 0;
    while ei < edges.len()
        invariant
            ei <= edges@.len(),
            rect.min_x <= rect.max_x,
            rect.min_y <= rect.max_y,
            rect.min_x > -0x4000_0000 && rect.max_x < 0x4000_0000,
            rect.min_y > -0x4000_0000 && rect.max_y < 0x4000_0000,
            forall|k: int| 0 <= k < edges@.len() ==> in_rect(rect, (#[trigger] edges@[k]).a) && in_rect(rect, edges@[k].b),
            cell_w == cs && 1 <= cs <= 0x7FFF_FFFF_FFFF_FFFF,
            clearance_w == cl && 0 <= cl <= 0xFFFF_FFFF,
            forall|j: int| 0 <= j < entries@.len() ==> entry_valid(#[trigger] entries@[j], edges@, rect, cs, cl),
            forall|a: usize, b: usize, c: usize|
                c < ei && entry_valid((a, b, c), edges@, rect, cs, cl) ==> #[trigger] entries@.contains((a, b, c)),
        decreases edges@.len() - ei,
    {
        let ghost before = entries@;
        push_edge_entries(&mut entries, edges, ei, rect, cell_w, clearance_w);
        proof {
            lemma_prefix_contains(before, entries@);
            assert forall|a: usize, b: usize, c: usize|
                c < ei + 1 && entry_valid((a, b, c), edges@, rect, cs, cl) implies #[trigger] entries@.contains(
                (a, b, c),
            ) by {
                if c < ei {
                    assert(before.contains((a, b, c)));
                }
            }
        }
        ei += 1;
    }
    let ghost unsorted = entries@;
    sort_entries(&mut entries);
    proof {
        assert forall|j: int| 0 <= j < entries@.len() implies entry_valid(#[trigger] entries@[j], edges@, rect, cs, cl) by {
            assert(entries@.to_multiset().count(entries@[j]) > 0);
            assert(unsorted.to_multiset().count(entries@[j]) > 0);
            assert(unsorted.contains(entries@[j]));
        }
        assert forall|a: usize, b: usize, c: usize|
            c < edges@.len() && entry_valid((a, b, c), edges@, rect, cs, cl) implies #[trigger] entries@.contains(
            (a, b, c),
        ) by {
            assert(unsorted.contains((a, b, c)));
            assert(unsorted.to_multiset().count((a, b, c)) > 0);
        }
    }
    let ox = rect.min_x as i64;
    let oy = rect.min_y as i64;
    let mut result: Vec<IntPoint> = Vec::new();
    let mut k: usize = 0;
    while k < points.len()
        invariant
            k <= points@.len(),
            rect.min_x <= rect.max_x,
            rect.min_y <= rect.max_y,
            ox == rect.min_x && oy == rect.min_y,
            rect.min_x > -0x4000_0000 && rect.max_x < 0x4000_0000,
            rect.min_y > -0x4000_0000 && rect.max_y < 0x4000_0000,
            forall|t: int| 0 <= t < points@.len() ==> in_rect(rect, #[trigger] points@[t]),
            forall|t: int| 0 <= t < edges@.len() ==> in_rect(rect, (#[trigger] edges@[t]).a) && in_rect(rect, edges@[t].b),
            cell_w == cs && 1 <= cs <= 0x7FFF_FFFF_FFFF_FFFF,
            cl == clearance && clearance <= 0xFFFF_FFFF,
            entries_sorted(entries@),
            forall|j: int| 0 <= j < entries@.len() ==> entry_valid(#[trigger] entries@[j], edges@, rect, cs, cl),
            forall|a: usize, b: usize, c: usize|
                c < edges@.len() && entry_valid((a, b, c), edges@, rect, cs, cl) ==> #[trigger] entries@.contains((a, b, c)),
            result@ == far_points(points@, edges@, rect, cs, cl, k as int),
        decreases points@.len() - k,
    {
        let p = points[k];
        proof {
            assert(in_rect(rect, points@[k as int]));
            vstd::arithmetic::div_mod::lemma_div_is_ordered(0, p.y - oy, cs);
            vstd::arithmetic::div_mod::lemma_div_is_ordered(0, p.x - ox, cs);
            vstd::arithmetic::div_mod::lemma_div_is_ordered_by_denominator(p.y - oy, 1, cs);
            vstd::arithmetic::div_mod::lemma_div_is_ordered_by_denominator(p.x - ox, 1, cs);
        }
        let cell_y = ((p.y as i64 - oy) / cell_w) as usize;
        let cell_x = ((p.x as i64 - ox) / cell_w) as usize;
        let cell = (cell_y, cell_x);
        let ghost pc = point_cell(p, rect, cs);
        proof {
            assert(cell_y as int == pc.0);
            assert(cell_x as int == pc.1);
        }
        let start = entries_partition(&entries, cell, true);
        let end = entries_partition(&entries, cell, false);
        proof {
            if start > end {
                assert(key_lt(entries@[end as int], cell));
            }
        }
        let mut near = false;
        let mut j = start;
        while j < end && !near
            invariant
                start <= j,
                j <= end || near,
                end <= entries@.len(),
                forall|t: int| 0 <= t < start ==> key_lt(#[trigger] entries@[t], cell),
                forall|t: int| start <= t < entries@.len() ==> !key_lt(#[trigger] entries@[t], cell),
                forall|t: int| 0 <= t < end ==> key_le(#[trigger] entries@[t], cell),
                forall|t: int| end <= t < entries@.len() ==> !key_le(#[trigger] entries@[t], cell),
                p.is_safe(),
                forall|t: int| 0 <= t < edges@.len() ==> in_rect(rect, (#[trigger] edges@[t]).a) && in_rect(rect, edges@[t].b),
                rect.min_x > -0x4000_0000 && rect.max_x < 0x4000_0000,
                rect.min_y > -0x4000_0000 && rect.max_y < 0x4000_0000,
                clearance <= 0xFFFF_FFFF,
                cl == clearance as int,
                forall|t: int| 0 <= t < entries@.len() ==> entry_valid(#[trigger] entries@[t], edges@, rect, cs, cl),
                cell.0 as int == pc.0 && cell.1 as int == pc.1,
                pc == point_cell(p, rect, cs),
                near ==> near_edges(p, edges@, rect, cs, cl),
                !near ==> forall|t: int|
                    start <= t < j ==> !close_to_edge(p, edges@[(#[trigger] entries@[t]).2 as int], cl),
            decreases end - j,
        {
            let entry = entries[j];
            proof {
                assert(entry_valid(entries@[j as int], edges@, rect, cs, cl));
                assert(edges@[entry.2 as int].a.is_safe());
            }
            if is_close_to_edge(p, edges[entry.2], clearance) {
                proof {
                    assert(key_le(entry, cell) && !key_lt(entry, cell));
                    assert(entry.0 == cell.0 && entry.1 == cell.1);
                    let ei = entry.2 as int;
                    assert(close_to_edge(p, edges@[ei], cl));
                    assert(entry_valid(entry, edges@, rect, cs, cl));
                    assert(near_edge_at(p, edges@, rect, cs, cl, ei));
                }
                near = true;
            }
            j += 1;
        }
        proof {
            if !near {
                assert(!near_edges(p, edges@, rect, cs, cl)) by {
                    if near_edges(p, edges@, rect, cs, cl) {
                        let ei = choose|ei: int| near_edge_at(p, edges@, rect, cs, cl, ei);
                        assert(edges@.len() == edges.len());
                        let t3: CellEntry = (cell_y, cell_x, ei as usize);
                        assert(t3.2 as int == ei);
                        assert(entry_valid(t3, edges@, rect, cs, cl));
                        assert(entries@.contains(t3));
                        let jj = choose|jj: int| 0 <= jj < entries@.len() && entries@[jj] == t3;
                        assert(!key_lt(entries@[jj], cell));
                        assert(key_le(entries@[jj], cell));
                        assert(start <= jj < end);
                    }
                }
            }
        }
        if !near {
            result.push(p);
        }
        k += 1;
        proof {
            assert(result@ =~= far_points(points@, edges@, rect, cs, cl, k as int));
        }
    }
    result
}

// ---------------------------------------------------------------------------
// The triangular lattice.

/// The row spacing for a horizontal spacing of `step`: `step * sqrt(3) / 2`,
/// rounded, with `sqrt(3) / 2` taken as `28378 / 2^15`.
pub open spec fn row_step_of(step: int) -> int {
    (step * 28378 + 16384) / 32768
}

/// How far `a` lies below `b`, zero when it does not.
pub open spec fn gap(a: int, b: int) -> nat {
    if a < b {
        (b - a) as nat
    } else {
        0
    }
}

/// The points of one lattice row at height `y`, from `x` on, `step` apart,
/// left of the rectangle's right side.
pub open spec fn row_points(rect: IntRect, step: int, y: int, x: int) -> Seq<IntPoint>
    decreases gap(x, rect.max_x as int),
{
    if step > 0 && x < rect.max_x {
        seq![IntPoint { x: x as i32, y: y as i32 }] + row_points(rect, step, y, x + step)
    } else {
        Seq::empty()
    }
}

/// How far right of the rectangle's left side row `row` starts: half a
/// step on even rows, a whole one on odd rows.
pub open spec fn row_offset(step: int, row: int) -> int {
    if row % 2 == 0 {
        step / 2
    } else {
        step
    }
}

/// The rows from row `row`, at height `y`, upward while below the
/// rectangle's top side.
pub open spec fn lattice_rows(rect: IntRect, step: int, row_step: int, row: int, y: int) -> Seq<IntPoint>
    decreases gap(y, rect.max_y as int),
{
    if row_step > 0 && y < rect.max_y {
        row_points(rect, step, y, rect.min_x + row_offset(step, row)) + lattice_rows(
            rect,
            step,
            row_step,
            row + 1,
            y + row_step,
        )
    } else {
        Seq::empty()
    }
}

/// The lattice over the rectangle: rows `row_step_of(step)` apart, the
/// first half a row above the bottom side, each shifted from the one
/// before by half a step.
pub open spec fn lattice(rect: IntRect, step: int) -> Seq<IntPoint> {
    let row_step = row_step_of(step);
    lattice_rows(rect, step, row_step, 0, rect.min_y + row_step / 2)
}

/// A lattice point lies in the rectangle, at least half a step right of
/// its left side, and left of and below its right and top sides.
pub open spec fn in_lattice_box(rect: IntRect, step: int, q: IntPoint) -> bool {
    &&& rect.min_x + step / 2 <= q.x < rect.max_x
    &&& rect.min_y <= q.y < rect.max_y
}

/// The lattice points inside the rectangle, row by row from the bottom.
fn lattice_points(rect: IntRect, step: i64) -> (r: Vec<IntPoint>)
    requires
        rect.min_x <= rect.max_x,
        rect.min_y <= rect.max_y,
        2 <= step,
        step * 28378 + 16384 <= 0x7FFF_FFFF_FFFF_FFFF,
    ensures
        r@ == lattice(rect, step as int),
        forall|j: int| 0 <= j < r@.len() ==> in_lattice_box(rect, step as int, #[trigger] r@[j]),
{
    let row_step = (step * 28378 + 16384) / 32768;
    let ghost total = lattice(rect, step as int);
    let mut out: Vec<IntPoint> = Vec::new();
    let mut odd = false;
    let ghost mut row: int = 0;
    let mut y: i64 = rect.min_y as i64 + row_step / 2;
    proof {
        assert(out@ + lattice_rows(rect, step as int, row_step as int, row, y as int) =~= total);
    }
    while y < rect.max_y as i64
        invariant
            rect.min_x <= rect.max_x,
            rect.min_y <= rect.max_y,
            2 <= step,
            step * 28378 + 16384 <= 0x7FFF_FFFF_FFFF_FFFF,
            row_step == row_step_of(step as int),
            1 <= row_step,
            rect.min_y <= y,
            0 <= row,
            odd == (row % 2 == 1),
            out@ + lattice_rows(rect, step as int, row_step as int, row, y as int) == total,
            forall|j: int| 0 <= j < out@.len() ==> in_lattice_box(rect, step as int, #[trigger] out@[j]),
        decreases gap(y as int, rect.max_y as int),
    {
        let offset = if !odd {
            step / 2
        } else {
            step
        };
        let ghost rest = lattice_rows(rect, step as int, row_step as int, row + 1, y + row_step);
        let mut x: i64 = rect.min_x as i64 + offset;
        proof {
            assert(offset == row_offset(step as int, row));
            assert(out@ + row_points(rect, step as int, y as int, x as int) + rest =~= total);
        }
        while x < rect.max_x as i64
            invariant
                rect.min_x <= rect.max_x,
                rect.min_y <= y < rect.max_y,
                2 <= step,
                step * 28378 + 16384 <= 0x7FFF_FFFF_FFFF_FFFF,
                rect.min_x + step / 2 <= x,
                out@ + row_points(rect, step as int, y as int, x as int) + rest == total,
                forall|j: int| 0 <= j < out@.len() ==> in_lattice_box(rect, step as int, #[trigger] out@[j]),
            decreases gap(x as int, rect.max_x as int),
        {
            let q = IntPoint { x: x as i32, y: y as i32 };
            let ghost before = out@;
            out.push(q);
            proof {
                assert(row_points(rect, step as int, y as int, x as int) =~= seq![q] + row_points(
                    rect,
                    step as int,
                    y as int,
                    x + step,
                ));
                assert(out@ + row_points(rect, step as int, y as int, x + step) + rest =~= total);
            }
            x = x + step;
        }
        proof {
            assert(out@ + rest =~= total);
        }
        odd = !odd;
        proof {
            row = row + 1;
        }
        y = y + row_step;
    }
    proof {
        assert(out@ =~= total);
    }
    out
}

/// The candidates whose flag is set, in order, among the first `k`.
pub open spec fn selected(candidates: Seq<IntPoint>, flags: Seq<bool>, k: int) -> Seq<IntPoint>
    decreases k,
{
    if k <= 0 {
        Seq::empty()
    } else {
        selected(candidates, flags, k - 1) + if flags[k - 1] {
            seq![candidates[k - 1]]
        } else {
            Seq::empty()
        }
    }
}

/// The candidates whose flag is set.
fn select_flagged(candidates: &Vec<IntPoint>, flags: &Vec<bool>) -> (r: Vec<IntPoint>)
    requires
        flags@.len() == candidates@.len(),
    ensures
        r@ == selected(candidates@, flags@, candidates@.len() as int),
        forall|j: int| 0 <= j < r@.len() ==> candidates@.contains(#[trigger] r@[j]),
{
    let mut out: Vec<IntPoint> = Vec::new();
    let mut k: usize = 0;
    while k < candidates.len()
        invariant
            k <= candidates@.len(),
            flags@.len() == candidates@.len(),
            out@ == selected(candidates@, flags@, k as int),
            forall|j: int| 0 <= j < out@.len() ==> candidates@.contains(#[trigger] out@[j]),
        decreases candidates@.len() - k,
    {
        if flags[k] {
            out.push(candidates[k]);
            proof {
                assert(candidates@.contains(candidates@[k as int]));
            }
        }
        k += 1;
        proof {
            assert(out@ =~= selected(candidates@, flags@, k as int));
        }
    }
    out
}

// ---------------------------------------------------------------------------
// The bounding rectangle.

/// The smallest rectangle holding the first `k` points (the first point's
/// own rectangle for `k <= 1`).
pub open spec fn rect_of(points: Seq<IntPoint>, k: int) -> IntRect
    decreases k,
{
    if k <= 1 {
        IntRect { min_x: points[0].x, max_x: points[0].x, min_y: points[0].y, max_y: points[0].y }
    } else {
        let r = rect_of(points, k - 1);
        let p = points[k - 1];
        IntRect {
            min_x: if p.x < r.min_x {
                p.x
            } else {
                r.min_x
            },
            max_x: if p.x > r.max_x {
                p.x
            } else {
                r.max_x
            },
            min_y: if p.y < r.min_y {
                p.y
            } else {
                r.min_y
            },
            max_y: if p.y > r.max_y {
                p.y
            } else {
                r.max_y
            },
        }
    }
}

/// The rectangle is ordered, holds the first `k` points, and its sides
/// are safe coordinates when those points are safe.
pub proof fn lemma_rect_of(points: Seq<IntPoint>, k: int)
    requires
        1 <= k <= points.len(),
    ensures
        rect_of(points, k).min_x <= rect_of(points, k).max_x,
        rect_of(points, k).min_y <= rect_of(points, k).max_y,
        forall|j: int| 0 <= j < k ==> in_rect(rect_of(points, k), #[trigger] points[j]),
        (forall|j: int| 0 <= j < k ==> (#[trigger] points[j]).is_safe()) ==> {
            let r = rect_of(points, k);
            &&& -0x4000_0000 < r.min_x && r.max_x < 0x4000_0000
            &&& -0x4000_0000 < r.min_y && r.max_y < 0x4000_0000
        },
    decreases k,
{
    if k > 1 {
        lemma_rect_of(points, k - 1);
        if forall|j: int| 0 <= j < k ==> (#[trigger] points[j]).is_safe() {
            assert(points[k - 1].is_safe());
            assert forall|j: int| 0 <= j < k - 1 implies (#[trigger] points[j]).is_safe() by {
                assert(points[j].is_safe());
            }
        }
    } else {
        if forall|j: int| 0 <= j < k ==> (#[trigger] points[j]).is_safe() {
            assert(points[0].is_safe());
        }
    }
}

/// The bounding rectangle of the points, none for no points.
fn points_rect(points: &Vec<IntPoint>) -> (r: Option<IntRect>)
    ensures
        points@.len() == 0 ==> r is None,
        points@.len() > 0 ==> r == Some(rect_of(points@, points@.len() as int)),
{
    if points.len() == 0 {
        return None;
    }
    let mut rect = IntRect::with_point(points[0]);
    let mut k: usize = 1;
    while k < points.len()
        invariant
            1 <= k <= points@.len(),
            rect == rect_of(points@, k as int),
            rect.min_x <= rect.max_x,
            rect.min_y <= rect.max_y,
        decreases points@.len() - k,
    {
        proof {
            lemma_rect_of(points@, k as int);
        }
        rect.unsafe_add_point(&points[k]);
        k += 1;
        proof {
            lemma_rect_of(points@, k as int);
        }
    }
    Some(rect)
}

// ---------------------------------------------------------------------------
// Geometry: contours, shapes and lists of shapes.

/// The points of the contours, one contour after another.
pub open spec fn contours_points(cs: Seq<Vec<IntPoint>>) -> Seq<IntPoint>
    decreases cs.len(),
{
    if cs.len() == 0 {
        Seq::empty()
    } else {
        contours_points(cs.drop_last()) + cs.last()@
    }
}

/// The edges of the contours, one contour after another.
pub open spec fn contours_edges(cs: Seq<Vec<IntPoint>>) -> Seq<Edge>
    decreases cs.len(),
{
    if cs.len() == 0 {
        Seq::empty()
    } else {
        contours_edges(cs.drop_last()) + contour_edges(cs.last()@)
    }
}

/// The points of the shapes, one shape after another.
pub open spec fn shapes_points(ss: Seq<Vec<Vec<IntPoint>>>) -> Seq<IntPoint>
    decreases ss.len(),
{
    if ss.len() == 0 {
        Seq::empty()
    } else {
        shapes_points(ss.drop_last()) + contours_points(ss.last()@)
    }
}

/// The edges of the shapes, one shape after another.
pub open spec fn shapes_edges(ss: Seq<Vec<Vec<IntPoint>>>) -> Seq<Edge>
    decreases ss.len(),
{
    if ss.len() == 0 {
        Seq::empty()
    } else {
        shapes_edges(ss.drop_last()) + contours_edges(ss.last()@)
    }
}

/// Every end of every edge is one of the points.
pub open spec fn edges_within(edges: Seq<Edge>, points: Seq<IntPoint>) -> bool {
    forall|k: int| 0 <= k < edges.len() ==> points.contains((#[trigger] edges[k]).a) && points.contains(edges[k].b)
}

proof fn lemma_contour_edges_within(c: Seq<IntPoint>)
    ensures
        edges_within(contour_edges(c), c),
{
    assert forall|k: int| 0 <= k < contour_edges(c).len() implies c.contains((#[trigger] contour_edges(c)[k]).a)
        && c.contains(contour_edges(c)[k].b) by {
        let i = if k == 0 {
            c.len() - 1
        } else {
            k - 1
        };
        assert(c[i] == contour_edges(c)[k].a);
        assert(c[k] == contour_edges(c)[k].b);
    }
}

proof fn lemma_edges_within_concat(e1: Seq<Edge>, p1: Seq<IntPoint>, e2: Seq<Edge>, p2: Seq<IntPoint>)
    requires
        edges_within(e1, p1),
        edges_within(e2, p2),
    ensures
        edges_within(e1 + e2, p1 + p2),
{
    let p = p1 + p2;
    assert forall|x: IntPoint| p1.contains(x) implies #[trigger] p.contains(x) by {
        let j = choose|j: int| 0 <= j < p1.len() && p1[j] == x;
        assert(p[j] == x);
    }
    assert forall|x: IntPoint| p2.contains(x) implies #[trigger] p.contains(x) by {
        let j = choose|j: int| 0 <= j < p2.len() && p2[j] == x;
        assert(p[p1.len() + j] == x);
    }
    let e = e1 + e2;
    assert forall|k: int| 0 <= k < e.len() implies p.contains((#[trigger] e[k]).a) && p.contains(e[k].b) by {
        if k < e1.len() {
            assert(e[k] == e1[k]);
            assert(p1.contains(e1[k].a));
            assert(p1.contains(e1[k].b));
        } else {
            assert(e[k] == e2[k - e1.len()]);
            assert(p2.contains(e2[k - e1.len()].a));
            assert(p2.contains(e2[k - e1.len()].b));
        }
    }
}

proof fn lemma_contours_edges_within(cs: Seq<Vec<IntPoint>>)
    ensures
        edges_within(contours_edges(cs), contours_points(cs)),
    decreases cs.len(),
{
    if cs.len() > 0 {
        lemma_contours_edges_within(cs.drop_last());
        lemma_contour_edges_within(cs.last()@);
        lemma_edges_within_concat(
            contours_edges(cs.drop_last()),
            contours_points(cs.drop_last()),
            contour_edges(cs.last()@),
            cs.last()@,
        );
    } else {
        assert(contours_edges(cs) =~= Seq::<Edge>::empty());
    }
}

proof fn lemma_shapes_edges_within(ss: Seq<Vec<Vec<IntPoint>>>)
    ensures
        edges_within(shapes_edges(ss), shapes_points(ss)),
    decreases ss.len(),
{
    if ss.len() > 0 {
        lemma_shapes_edges_within(ss.drop_last());
        lemma_contours_edges_within(ss.last()@);
        lemma_edges_within_concat(
            shapes_edges(ss.drop_last()),
            shapes_points(ss.drop_last()),
            contours_edges(ss.last()@),
            contours_points(ss.last()@),
        );
    } else {
        assert(shapes_edges(ss) =~= Seq::<Edge>::empty());
    }
}

/// Appends the points of a contour.
fn append_points(contour: &Vec<IntPoint>, out: &mut Vec<IntPoint>)
    ensures
        final(out)@ == old(out)@ + contour@,
{
    let ghost start = out@;
    let mut k: usize = 0;
    while k < contour.len()
        invariant
            k <= contour@.len(),
            out@ == start + contour@.subrange(0, k as int),
        decreases contour@.len() - k,
    {
        out.push(contour[k]);
        k += 1;
        proof {
            assert(out@ =~= start + contour@.subrange(0, k as int));
        }
    }
    proof {
        assert(contour@.subrange(0, k as int) =~= contour@);
    }
}

/// Appends the points and the edges of contours.
fn append_contours(contours: &Vec<Vec<IntPoint>>, points: &mut Vec<IntPoint>, edges: &mut Vec<Edge>)
    ensures
        final(points)@ == old(points)@ + contours_points(contours@),
        final(edges)@ == old(edges)@ + contours_edges(contours@),
{
    let ghost p0 = points@;
    let ghost e0 = edges@;
    let mut k: usize = 0;
    proof {
        assert(contours@.subrange(0, 0) =~= Seq::<Vec<IntPoint>>::empty());
        assert(points@ =~= p0 + contours_points(contours@.subrange(0, 0)));
        assert(edges@ =~= e0 + contours_edges(contours@.subrange(0, 0)));
    }
    while k < contours.len()
        invariant
            k <= contours@.len(),
            points@ == p0 + contours_points(contours@.subrange(0, k as int)),
            edges@ == e0 + contours_edges(contours@.subrange(0, k as int)),
        decreases contours@.len() - k,
    {
        append_points(&contours[k], points);
        append_edges(&contours[k], edges);
        proof {
            let next = contours@.subrange(0, k + 1);
            assert(next.drop_last() =~= contours@.subrange(0, k as int));
            assert(next.last() == contours@[k as int]);
            assert(points@ =~= p0 + contours_points(next));
            assert(edges@ =~= e0 + contours_edges(next));
        }
        k += 1;
    }
    proof {
        assert(contours@.subrange(0, k as int) =~= contours@);
    }
}

// ---------------------------------------------------------------------------
// Containment, by i_overlay.

/// What i_overlay's containment test answers for points against one contour.
pub uninterp spec fn contour_containment(contour: Seq<IntPoint>, points: Seq<IntPoint>) -> Seq<bool>;

/// What i_overlay's containment test answers for points against the
/// contours of one shape.
pub uninterp spec fn contours_containment(contours: Seq<Vec<IntPoint>>, points: Seq<IntPoint>) -> Seq<bool>;

/// What i_overlay's containment test answers for points against a list of
/// shapes.
pub uninterp spec fn shapes_containment(shapes: Seq<Vec<Vec<IntPoint>>>, points: Seq<IntPoint>) -> Seq<bool>;

/// i_overlay's `IntPointContainment::contains_points` on a contour, for
/// coordinates in i_overlay's range (which it does not check): one
/// flag per point, whether it lies strictly inside; the source answers
/// with one flag per query point, and what it answers depends on the
/// contour and the points alone.
#[verifier::external_body]
fn contour_contains(contour: &Vec<IntPoint>, points: &Vec<IntPoint>) -> (r: Vec<bool>)
    requires
        forall|k: int| 0 <= k < contour@.len() ==> (#[trigger] contour@[k]).is_safe(),
        forall|k: int| 0 <= k < points@.len() ==> (#[trigger] points@[k]).is_safe(),
    ensures
        r@ == contour_containment(contour@, points@),
        r@.len() == points@.len(),
{
    let geometry: Vec<OutsidePoint<i32>> = contour.iter().map(|p| OutsidePoint::new(p.x, p.y)).collect();
    let queries: Vec<OutsidePoint<i32>> = points.iter().map(|p| OutsidePoint::new(p.x, p.y)).collect();
    i_overlay::core::point_location::IntPointContainment::contains_points(geometry.as_slice(), &queries)
}

/// i_overlay's `IntPointContainment::contains_points` on the contours of
/// a shape (holes included), for coordinates in i_overlay's range: one flag per point, whether it lies strictly
/// inside; one flag per query point, depending on the arguments alone.
#[verifier::external_body]
fn contours_contain(contours: &Vec<Vec<IntPoint>>, points: &Vec<IntPoint>) -> (r: Vec<bool>)
    requires
        forall|k: int| 0 <= k < contours_points(contours@).len() ==> (#[trigger] contours_points(contours@)[k]).is_safe(),
        forall|k: int| 0 <= k < points@.len() ==> (#[trigger] points@[k]).is_safe(),
    ensures
        r@ == contours_containment(contours@, points@),
        r@.len() == points@.len(),
{
    let geometry: Vec<Vec<OutsidePoint<i32>>> = contours.iter().map(
        |c| c.iter().map(|p| OutsidePoint::new(p.x, p.y)).collect(),
    ).collect();
    let queries: Vec<OutsidePoint<i32>> = points.iter().map(|p| OutsidePoint::new(p.x, p.y)).collect();
    i_overlay::core::point_location::IntPointContainment::contains_points(geometry.as_slice(), &queries)
}

/// i_overlay's `IntPointContainment::contains_points` on a list of shapes,
/// taken as their union, for coordinates in i_overlay's range: one flag per point, whether it lies strictly
/// inside; one flag per query point, depending on the arguments alone.
#[verifier::external_body]
fn shapes_contain(shapes: &Vec<Vec<Vec<IntPoint>>>, points: &Vec<IntPoint>) -> (r: Vec<bool>)
    requires
        forall|k: int| 0 <= k < shapes_points(shapes@).len() ==> (#[trigger] shapes_points(shapes@)[k]).is_safe(),
        forall|k: int| 0 <= k < points@.len() ==> (#[trigger] points@[k]).is_safe(),
    ensures
        r@ == shapes_containment(shapes@, points@),
        r@.len() == points@.len(),
{
    let geometry: Vec<Vec<Vec<OutsidePoint<i32>>>> = shapes.iter().map(
        |s| s.iter().map(|c| c.iter().map(|p| OutsidePoint::new(p.x, p.y)).collect()).collect(),
    ).collect();
    let queries: Vec<OutsidePoint<i32>> = points.iter().map(|p| OutsidePoint::new(p.x, p.y)).collect();
    i_overlay::core::point_location::IntPointContainment::contains_points(geometry.as_slice(), &queries)
}

// ---------------------------------------------------------------------------
// The grid.

/// How close to an edge a lattice point may not lie: a third of the step,
/// at least one.
pub open spec fn clearance_of(edge_length: int) -> int {
    if edge_length / 3 == 0 {
        1
    } else {
        edge_length / 3
    }
}

/// The lattice candidates over the points' bounding rectangle: none for
/// no points or a step of at most one.
pub open spec fn grid_candidates(points: Seq<IntPoint>, edge_length: int) -> Seq<IntPoint> {
    if points.len() == 0 || edge_length <= 1 {
        Seq::empty()
    } else {
        lattice(rect_of(points, points.len() as int), edge_length)
    }
}

/// The candidates found inside, less those close to an edge.
pub open spec fn kept_grid(
    candidates: Seq<IntPoint>,
    contains: Seq<bool>,
    edges: Seq<Edge>,
    rect: IntRect,
    edge_length: int,
) -> Seq<IntPoint> {
    let kept = selected(candidates, contains, candidates.len() as int);
    far_points(kept, edges, rect, edge_length, clearance_of(edge_length), kept.len() as int)
}

/// The grid of a geometry with these points and edges, given the
/// containment flags of its candidates.
pub open spec fn uniform_result(points: Seq<IntPoint>, edges: Seq<Edge>, edge_length: int, contains: Seq<bool>) -> Seq<
    IntPoint,
> {
    kept_grid(
        grid_candidates(points, edge_length),
        contains,
        edges,
        rect_of(points, points.len() as int),
        edge_length,
    )
}

/// Keeps the candidates flagged as inside, then drops those within
/// `clearance_of(edge_length)` of an edge, with cells of `edge_length`.
pub fn keep_grid_points(
    candidates: Vec<IntPoint>,
    contains: Vec<bool>,
    edges: &Vec<Edge>,
    rect: IntRect,
    edge_length: u64,
) -> (r: Vec<IntPoint>)
    requires
        contains@.len() == candidates@.len(),
        rect.min_x <= rect.max_x,
        rect.min_y <= rect.max_y,
        rect.min_x > -0x4000_0000 && rect.max_x < 0x4000_0000,
        rect.min_y > -0x4000_0000 && rect.max_y < 0x4000_0000,
        forall|k: int| 0 <= k < candidates@.len() ==> in_rect(rect, #[trigger] candidates@[k]),
        forall|k: int| 0 <= k < edges@.len() ==> in_rect(rect, (#[trigger] edges@[k]).a) && in_rect(rect, edges@[k].b),
        2 <= edge_length <= 0x2_FFFF_FFFF,
    ensures
        r@ == kept_grid(candidates@, contains@, edges@, rect, edge_length as int),
{
    let kept = select_flagged(&candidates, &contains);
    proof {
        assert forall|k: int| 0 <= k < kept@.len() implies in_rect(rect, #[trigger] kept@[k]) by {
            assert(candidates@.contains(kept@[k]));
        }
    }
    let third = edge_length / 3;
    let clearance = if third == 0 {
        1
    } else {
        third
    };
    filter_near_edges(kept, edges, rect, edge_length, clearance)
}

/// The rectangle and the lattice candidates of a geometry's points.
fn grid_setup(points: &Vec<IntPoint>, edge_length: u64) -> (r: (IntRect, Vec<IntPoint>))
    requires
        forall|k: int| 0 <= k < points@.len() ==> (#[trigger] points@[k]).is_safe(),
        edge_length * 28378 + 16384 <= 0x7FFF_FFFF_FFFF_FFFF,
    ensures
        r.1@ == grid_candidates(points@, edge_length as int),
        r.1@.len() > 0 ==> {
            &&& points@.len() > 0
            &&& 2 <= edge_length <= 0x2_FFFF_FFFF
            &&& r.0 == rect_of(points@, points@.len() as int)
            &&& r.0.min_x <= r.0.max_x && r.0.min_y <= r.0.max_y
            &&& r.0.min_x > -0x4000_0000 && r.0.max_x < 0x4000_0000
            &&& r.0.min_y > -0x4000_0000 && r.0.max_y < 0x4000_0000
            &&& forall|k: int| 0 <= k < points@.len() ==> in_rect(r.0, #[trigger] points@[k])
            &&& forall|k: int| 0 <= k < r.1@.len() ==> in_rect(r.0, #[trigger] r.1@[k])
        },
{
    let empty_rect = IntRect { min_x: 0, max_x: 0, min_y: 0, max_y: 0 };
    let rect = match points_rect(points) {
        Some(rect) => rect,
        None => {
            return (empty_rect, Vec::new());
        },
    };
    let step = edge_length as i64;
    if step <= 1 {
        return (rect, Vec::new());
    }
    proof {
        lemma_rect_of(points@, points@.len() as int);
    }
    let candidates = lattice_points(rect, step);
    proof {
        if candidates@.len() > 0 {
            assert(in_lattice_box(rect, step as int, candidates@[0]));
        }
        assert forall|k: int| 0 <= k < candidates@.len() implies in_rect(rect, #[trigger] candidates@[k]) by {
            assert(in_lattice_box(rect, step as int, candidates@[k]));
        }
    }
    (rect, candidates)
}

/// Lattice points inside integer geometry, kept away from its edges.
pub trait IntUniformGrid: Sized {
    /// Every point of the geometry is in the safe coordinate range.
    spec fn grid_ready(&self) -> bool;

    /// `r` is the grid of the geometry for `edge_length`.
    spec fn is_grid_of(&self, edge_length: u64, r: Seq<IntPoint>) -> bool;

    /// The points of an equilateral triangular lattice, `edge_length`
    /// apart in a row, rows `round(sqrt(3) / 2 * edge_length)` apart and
    /// shifted by half an edge, that lie inside the geometry and farther
    /// than a third of `edge_length` (at least one) from its edges.
    fn uniform_grid(&self, edge_length: u64) -> (r: Vec<IntPoint>)
        requires
            self.grid_ready(),
            edge_length * 28378 + 16384 <= 0x7FFF_FFFF_FFFF_FFFF,
        ensures
            self.is_grid_of(edge_length, r@),
    ;
}

/// With no candidates the grid is empty.
proof fn lemma_empty_grid(edges: Seq<Edge>, rect: IntRect, edge_length: int, contains: Seq<bool>)
    ensures
        kept_grid(Seq::empty(), contains, edges, rect, edge_length) == Seq::<IntPoint>::empty(),
{
    assert(selected(Seq::empty(), contains, 0) =~= Seq::<IntPoint>::empty());
}

impl IntUniformGrid for Vec<IntPoint> {
    open spec fn grid_ready(&self) -> bool {
        forall|k: int| 0 <= k < self@.len() ==> (#[trigger] self@[k]).is_safe()
    }

    open spec fn is_grid_of(&self, edge_length: u64, r: Seq<IntPoint>) -> bool {
        r == uniform_result(
            self@,
            contour_edges(self@),
            edge_length as int,
            contour_containment(self@, grid_candidates(self@, edge_length as int)),
        )
    }

    fn uniform_grid(&self, edge_length: u64) -> (r: Vec<IntPoint>) {
        let mut edges: Vec<Edge> = Vec::new();
        append_edges(self, &mut edges);
        proof {
            assert(edges@ =~= contour_edges(self@));
            lemma_contour_edges_within(self@);
        }
        let (rect, candidates) = grid_setup(self, edge_length);
        if candidates.len() == 0 {
            proof {
                lemma_empty_grid(
                    edges@,
                    rect_of(self@, self@.len() as int),
                    edge_length as int,
                    contour_containment(self@, candidates@),
                );
                assert(candidates@ =~= Seq::<IntPoint>::empty());
            }
            return Vec::new();
        }
        proof {
            lemma_rect_points_safe(rect, candidates@);
        }
        let contains = contour_contains(self, &candidates);
        proof {
            lemma_edges_in_rect(edges@, self@, rect);
        }
        keep_grid_points(candidates, contains, &edges, rect, edge_length)
    }
}

impl IntUniformGrid for Vec<Vec<IntPoint>> {
    open spec fn grid_ready(&self) -> bool {
        forall|k: int| 0 <= k < contours_points(self@).len() ==> (#[trigger] contours_points(self@)[k]).is_safe()
    }

    open spec fn is_grid_of(&self, edge_length: u64, r: Seq<IntPoint>) -> bool {
        let points = contours_points(self@);
        r == uniform_result(
            points,
            contours_edges(self@),
            edge_length as int,
            contours_containment(self@, grid_candidates(points, edge_length as int)),
        )
    }

    fn uniform_grid(&self, edge_length: u64) -> (r: Vec<IntPoint>) {
        let mut points: Vec<IntPoint> = Vec::new();
        let mut edges: Vec<Edge> = Vec::new();
        append_contours(self, &mut points, &mut edges);
        proof {
            assert(points@ =~= contours_points(self@));
            assert(edges@ =~= contours_edges(self@));
            lemma_contours_edges_within(self@);
        }
        let (rect, candidates) = grid_setup(&points, edge_length);
        if candidates.len() == 0 {
            proof {
                lemma_empty_grid(
                    edges@,
                    rect_of(points@, points@.len() as int),
                    edge_length as int,
                    contours_containment(self@, candidates@),
                );
                assert(candidates@ =~= Seq::<IntPoint>::empty());
            }
            return Vec::new();
        }
        proof {
            lemma_rect_points_safe(rect, candidates@);
        }
        let contains = contours_contain(self, &candidates);
        proof {
            lemma_edges_in_rect(edges@, points@, rect);
        }
        keep_grid_points(candidates, contains, &edges, rect, edge_length)
    }
}

impl IntUniformGrid for Vec<Vec<Vec<IntPoint>>> {
    open spec fn grid_ready(&self) -> bool {
        forall|k: int| 0 <= k < shapes_points(self@).len() ==> (#[trigger] shapes_points(self@)[k]).is_safe()
    }

    open spec fn is_grid_of(&self, edge_length: u64, r: Seq<IntPoint>) -> bool {
        let points = shapes_points(self@);
        r == uniform_result(
            points,
            shapes_edges(self@),
            edge_length as int,
            shapes_containment(self@, grid_candidates(points, edge_length as int)),
        )
    }

    fn uniform_grid(&self, edge_length: u64) -> (r: Vec<IntPoint>) {
        let mut points: Vec<IntPoint> = Vec::new();
        let mut edges: Vec<Edge> = Vec::new();
        let mut k: usize = 0;
        proof {
            assert(self@.subrange(0, 0) =~= Seq::<Vec<Vec<IntPoint>>>::empty());
            assert(points@ =~= shapes_points(self@.subrange(0, 0)));
            assert(edges@ =~= shapes_edges(self@.subrange(0, 0)));
        }
        while k < self.len()
            invariant
                k <= self@.len(),
                points@ == shapes_points(self@.subrange(0, k as int)),
                edges@ == shapes_edges(self@.subrange(0, k as int)),
            decreases self@.len() - k,
        {
            append_contours(&self[k], &mut points, &mut edges);
            proof {
                let next = self@.subrange(0, k + 1);
                assert(next.drop_last() =~= self@.subrange(0, k as int));
                assert(next.last() == self@[k as int]);
                assert(points@ =~= shapes_points(next));
                assert(edges@ =~= shapes_edges(next));
            }
            k += 1;
        }
        proof {
            assert(self@.subrange(0, k as int) =~= self@);
            lemma_shapes_edges_within(self@);
        }
        let (rect, candidates) = grid_setup(&points, edge_length);
        if candidates.len() == 0 {
            proof {
                lemma_empty_grid(
                    edges@,
                    rect_of(points@, points@.len() as int),
                    edge_length as int,
                    shapes_containment(self@, candidates@),
                );
                assert(candidates@ =~= Seq::<IntPoint>::empty());
            }
            return Vec::new();
        }
        proof {
            lemma_rect_points_safe(rect, candidates@);
        }
        let contains = shapes_contain(self, &candidates);
        proof {
            lemma_edges_in_rect(edges@, points@, rect);
        }
        keep_grid_points(candidates, contains, &edges, rect, edge_length)
    }
}

/// Edges whose ends are among points in a rectangle lie in it.
proof fn lemma_edges_in_rect(edges: Seq<Edge>, points: Seq<IntPoint>, rect: IntRect)
    requires
        edges_within(edges, points),
        forall|k: int| 0 <= k < points.len() ==> in_rect(rect, #[trigger] points[k]),
    ensures
        forall|k: int| 0 <= k < edges.len() ==> in_rect(rect, (#[trigger] edges[k]).a) && in_rect(rect, edges[k].b),
{
    assert forall|k: int| 0 <= k < edges.len() implies in_rect(rect, (#[trigger] edges[k]).a) && in_rect(
        rect,
        edges[k].b,
    ) by {
        assert(points.contains(edges[k].a));
        assert(points.contains(edges[k].b));
        let i = choose|i: int| 0 <= i < points.len() && points[i] == edges[k].a;
        let j = choose|j: int| 0 <= j < points.len() && points[j] == edges[k].b;
        assert(in_rect(rect, points[i]));
        assert(in_rect(rect, points[j]));
    }
}

/// Whatever a sequence holds, a sequence that starts with it holds too.
proof fn lemma_prefix_contains<A>(short: Seq<A>, long: Seq<A>)
    requires
        short.len() <= long.len(),
        forall|j: int| 0 <= j < short.len() ==> long[j] == short[j],
    ensures
        forall|y: A| short.contains(y) ==> #[trigger] long.contains(y),
{
    assert forall|y: A| short.contains(y) implies #[trigger] long.contains(y) by {
        let j = choose|j: int| 0 <= j < short.len() && short[j] == y;
        assert(long[j] == y);
    }
}

/// Appends an entry for every cell that edge `ei` reaches.
fn push_edge_entries(
    entries: &mut Vec<CellEntry>,
    edges: &Vec<Edge>,
    ei: usize,
    rect: IntRect,
    cell_w: i64,
    clearance_w: i64,
)
    requires
        ei < edges@.len(),
        rect.min_x <= rect.max_x,
        rect.min_y <= rect.max_y,
        rect.min_x > -0x4000_0000 && rect.max_x < 0x4000_0000,
        rect.min_y > -0x4000_0000 && rect.max_y < 0x4000_0000,
        in_rect(rect, edges@[ei as int].a),
        in_rect(rect, edges@[ei as int].b),
        1 <= cell_w,
        0 <= clearance_w <= 0xFFFF_FFFF,
    ensures
        old(entries)@.len() <= final(entries)@.len(),
        forall|j: int| 0 <= j < old(entries)@.len() ==> final(entries)@[j] == old(entries)@[j],
        forall|j: int|
            old(entries)@.len() <= j < final(entries)@.len() ==> entry_valid(
                #[trigger] final(entries)@[j],
                edges@,
                rect,
                cell_w as int,
                clearance_w as int,
            ),
        forall|a: usize, b: usize|
            entry_valid((a, b, ei), edges@, rect, cell_w as int, clearance_w as int)
                ==> #[trigger] final(entries)@.contains((a, b, ei)),
{
    broadcast use vstd::seq_lib::group_seq_properties;

    let ghost cs = cell_w as int;
    let ghost cl = clearance_w as int;
    let ghost start = entries@;
    let e = edges[ei];
    let (min_cx, max_cx, min_cy, max_cy) = edge_cells(e, rect, cell_w, clearance_w);
    let mut cy = min_cy;
    while cy <= max_cy
        invariant
            ei < edges@.len(),
            e == edges@[ei as int],
            min_cx as int == cell_range(e, rect, cs, cl).0,
            max_cx as int == cell_range(e, rect, cs, cl).1,
            min_cy as int == cell_range(e, rect, cs, cl).2,
            max_cy as int == cell_range(e, rect, cs, cl).3,
            min_cx <= max_cx < 0x8000_0000,
            min_cy <= cy <= max_cy + 1,
            max_cy < 0x8000_0000,
            start.len() <= entries@.len(),
            forall|j: int| 0 <= j < start.len() ==> entries@[j] == start[j],
            forall|j: int| start.len() <= j < entries@.len() ==> entry_valid(#[trigger] entries@[j], edges@, rect, cs, cl),
            forall|a: usize, b: usize|
                min_cy <= a < cy && min_cx <= b <= max_cx ==> #[trigger] entries@.contains((a, b, ei)),
        decreases max_cy + 1 - cy,
    {
        let mut cx = min_cx;
        while cx <= max_cx
            invariant
                ei < edges@.len(),
                e == edges@[ei as int],
                min_cx as int == cell_range(e, rect, cs, cl).0,
                max_cx as int == cell_range(e, rect, cs, cl).1,
                min_cy as int == cell_range(e, rect, cs, cl).2,
                max_cy as int == cell_range(e, rect, cs, cl).3,
                min_cx <= cx <= max_cx + 1,
                max_cx < 0x8000_0000,
                min_cy <= cy <= max_cy,
                max_cy < 0x8000_0000,
                start.len() <= entries@.len(),
                forall|j: int| 0 <= j < start.len() ==> entries@[j] == start[j],
                forall|j: int| start.len() <= j < entries@.len() ==> entry_valid(#[trigger] entries@[j], edges@, rect, cs, cl),
                forall|a: usize, b: usize|
                    min_cy <= a < cy && min_cx <= b <= max_cx ==> #[trigger] entries@.contains((a, b, ei)),
                forall|b: usize| min_cx <= b < cx ==> #[trigger] entries@.contains((cy, b, ei)),
            decreases max_cx + 1 - cx,
        {
            let ghost before = entries@;
            let item: CellEntry = (cy, cx, ei);
            entries.push(item);
            proof {
                assert(entries@ == before.push(item));
                assert(entry_valid(entries@[before.len() as int], edges@, rect, cs, cl));
                assert forall|a: usize, b: usize|
                    min_cy <= a < cy && min_cx <= b <= max_cx implies #[trigger] entries@.contains((a, b, ei)) by {
                    assert(before.contains((a, b, ei)));
                    let jj = choose|jj: int| 0 <= jj < before.len() && before[jj] == (a, b, ei);
                    assert(entries@[jj] == (a, b, ei));
                }
                assert forall|b: usize| min_cx <= b < cx + 1 implies #[trigger] entries@.contains((cy, b, ei)) by {
                    if b < cx {
                        assert(before.contains((cy, b, ei)));
                        let jj = choose|jj: int| 0 <= jj < before.len() && before[jj] == (cy, b, ei);
                        assert(entries@[jj] == (cy, b, ei));
                    } else {
                        assert(entries@[before.len() as int] == (cy, b, ei));
                    }
                }
            }
            cx += 1;
        }
        cy += 1;
    }
}

/// With no edges, or no points, every point is kept.
proof fn lemma_far_points_all(points: Seq<IntPoint>, edges: Seq<Edge>, rect: IntRect, cell: int, c: int, k: int)
    requires
        edges.len() == 0 || points.len() == 0,
        0 <= k <= points.len(),
    ensures
        far_points(points, edges, rect, cell, c, k) == points.subrange(0, k),
    decreases k,
{
    if k > 0 {
        lemma_far_points_all(points, edges, rect, cell, c, k - 1);
        assert(far_points(points, edges, rect, cell, c, k) =~= points.subrange(0, k));
    } else {
        assert(points.subrange(0, 0) =~= Seq::<IntPoint>::empty());
    }
}

// ---------------------------------------------------------------------------
// What the grid filter keeps, stated without the grid.

/// Some edge lies within `c` of the point.
pub open spec fn close_to_some_edge(p: IntPoint, edges: Seq<Edge>, c: int) -> bool {
    exists|ei: int| 0 <= ei < edges.len() && #[trigger] close_to_edge(p, edges[ei], c)
}

/// Within `c` of a point means within `c` along each axis.
proof fn lemma_disk_in_square(u: int, v: int, c: int)
    requires
        c >= 0,
        u * u + v * v <= c * c,
    ensures
        -c <= u <= c,
{
    assert(-c <= u <= c) by (nonlinear_arith)
        requires
            c >= 0,
            u * u + v * v <= c * c,
    ;
}

/// A point within `c` of the line through `a` along `d`, projecting
/// strictly inside the edge, has each coordinate (taken from `a`) within
/// `c` of the range that the edge spans on that axis.
proof fn lemma_band_in_box(dx: int, dy: int, wx: int, wy: int, c: int)
    requires
        c >= 0,
        0 < wx * dx + wy * dy < dx * dx + dy * dy,
        (dx * wy - dy * wx) * (dx * wy - dy * wx) <= c * c * (dx * dx + dy * dy),
    ensures
        min2(0, dx) - c <= wx <= max2(0, dx) + c,
{
    let l = dx * dx + dy * dy;
    let proj = wx * dx + wy * dy;
    let cross = dx * wy - dy * wx;
    assert(l * wx == proj * dx - cross * dy) by (nonlinear_arith)
        requires
            l == dx * dx + dy * dy,
            proj == wx * dx + wy * dy,
            cross == dx * wy - dy * wx,
    ;
    assert(dy * dy <= l) by (nonlinear_arith)
        requires
            l == dx * dx + dy * dy,
    ;
    assert((cross * dy) * (cross * dy) <= (c * l) * (c * l)) by (nonlinear_arith)
        requires
            cross * cross <= c * c * l,
            dy * dy <= l,
            c >= 0,
            l > 0,
    ;
    assert(-(c * l) <= cross * dy <= c * l) by (nonlinear_arith)
        requires
            (cross * dy) * (cross * dy) <= (c * l) * (c * l),
            c * l >= 0,
    ;
    assert(l * min2(0, dx) <= proj * dx <= l * max2(0, dx)) by (nonlinear_arith)
        requires
            0 < proj < l,
    ;
    assert(l * (min2(0, dx) - c) <= l * wx <= l * (max2(0, dx) + c)) by (nonlinear_arith)
        requires
            l * wx == proj * dx - cross * dy,
            -(c * l) <= cross * dy <= c * l,
            l * min2(0, dx) <= proj * dx <= l * max2(0, dx),
    ;
    assert(min2(0, dx) - c <= wx <= max2(0, dx) + c) by (nonlinear_arith)
        requires
            l * (min2(0, dx) - c) <= l * wx <= l * (max2(0, dx) + c),
            l > 0,
    ;
}

/// A point within `c` of an edge lies in the edge's box grown by `c`.
proof fn lemma_close_in_box(p: IntPoint, e: Edge, c: int)
    requires
        c >= 0,
        close_to_edge(p, e, c),
    ensures
        min2(e.a.x as int, e.b.x as int) - c <= p.x <= max2(e.a.x as int, e.b.x as int) + c,
        min2(e.a.y as int, e.b.y as int) - c <= p.y <= max2(e.a.y as int, e.b.y as int) + c,
{
    let dx = e.b.x - e.a.x;
    let dy = e.b.y - e.a.y;
    let wx = p.x - e.a.x;
    let wy = p.y - e.a.y;
    let length_sqr = sqr_dist(e.b, e.a);
    let projection = wx * dx + wy * dy;
    assert(length_sqr == dx * dx + dy * dy);
    if length_sqr <= 0 || projection <= 0 {
        lemma_disk_in_square(p.x - e.a.x, p.y - e.a.y, c);
        lemma_disk_in_square(p.y - e.a.y, p.x - e.a.x, c);
    } else if projection >= length_sqr {
        lemma_disk_in_square(p.x - e.b.x, p.y - e.b.y, c);
        lemma_disk_in_square(p.y - e.b.y, p.x - e.b.x, c);
    } else {
        let cross = dx * wy - dy * wx;
        assert(cross * cross <= c * c * (dx * dx + dy * dy));
        lemma_band_in_box(dx, dy, wx, wy, c);
        assert(dy * wx - dx * wy == -cross);
        assert((dy * wx - dx * wy) * (dy * wx - dx * wy) == cross * cross) by (nonlinear_arith)
            requires
                dy * wx - dx * wy == -cross,
        ;
        assert(dy * dy + dx * dx == dx * dx + dy * dy);
        lemma_band_in_box(dy, dx, wy, wx, c);
    }
}

/// Law: for a point of the rectangle, some edge reaching its grid cell
/// lies within the clearance exactly when some edge at all does: the grid
/// only narrows the search, it decides nothing.
pub proof fn law_near_edges_exactly_when_close(p: IntPoint, edges: Seq<Edge>, rect: IntRect, cell: int, c: int)
    requires
        in_rect(rect, p),
        cell > 0,
        c >= 0,
    ensures
        near_edges(p, edges, rect, cell, c) == close_to_some_edge(p, edges, c),
{
    if close_to_some_edge(p, edges, c) {
        let ei = choose|ei: int| 0 <= ei < edges.len() && #[trigger] close_to_edge(p, edges[ei], c);
        let e = edges[ei];
        lemma_close_in_box(p, e, c);
        let min_x = max2(min2(e.a.x as int, e.b.x as int) - c, rect.min_x as int);
        let max_x = min2(max2(e.a.x as int, e.b.x as int) + c, rect.max_x as int);
        let min_y = max2(min2(e.a.y as int, e.b.y as int) - c, rect.min_y as int);
        let max_y = min2(max2(e.a.y as int, e.b.y as int) + c, rect.max_y as int);
        assert(min_x <= p.x <= max_x);
        assert(min_y <= p.y <= max_y);
        vstd::arithmetic::div_mod::lemma_div_is_ordered(min_x - rect.min_x, p.x - rect.min_x, cell);
        vstd::arithmetic::div_mod::lemma_div_is_ordered(p.x - rect.min_x, max_x - rect.min_x, cell);
        vstd::arithmetic::div_mod::lemma_div_is_ordered(min_y - rect.min_y, p.y - rect.min_y, cell);
        vstd::arithmetic::div_mod::lemma_div_is_ordered(p.y - rect.min_y, max_y - rect.min_y, cell);
        assert(near_edge_at(p, edges, rect, cell, c, ei));
    }
    if near_edges(p, edges, rect, cell, c) {
        let ei = choose|ei: int| #[trigger] near_edge_at(p, edges, rect, cell, c, ei);
        assert(0 <= ei < edges.len() && close_to_edge(p, edges[ei], c));
    }
}

/// The points that no edge comes within `c` of.
pub open spec fn far_from_edges(edges: Seq<Edge>, c: int) -> spec_fn(IntPoint) -> bool {
    |p: IntPoint| !close_to_some_edge(p, edges, c)
}

/// Law: of points of the rectangle, the grid filter keeps, in their
/// order, exactly those that lie farther than the clearance from every
/// edge.
pub proof fn law_far_points_are_the_far_ones(points: Seq<IntPoint>, edges: Seq<Edge>, rect: IntRect, cell: int, c: int, k: int)
    requires
        forall|j: int| 0 <= j < points.len() ==> in_rect(rect, #[trigger] points[j]),
        cell > 0,
        c >= 0,
        0 <= k <= points.len(),
    ensures
        far_points(points, edges, rect, cell, c, k) == points.subrange(0, k).filter(far_from_edges(edges, c)),
    decreases k,
{
    reveal_with_fuel(Seq::filter, 1);
    let s = points.subrange(0, k);
    if k == 0 {
        assert(s.len() == 0);
    } else {
        law_far_points_are_the_far_ones(points, edges, rect, cell, c, k - 1);
        law_near_edges_exactly_when_close(points[k - 1], edges, rect, cell, c);
        assert(s.drop_last() =~= points.subrange(0, k - 1));
        assert(s.last() == points[k - 1]);
        if near_edges(points[k - 1], edges, rect, cell, c) {
            assert(far_points(points, edges, rect, cell, c, k) =~= far_points(points, edges, rect, cell, c, k - 1));
        } else {
            assert(far_points(points, edges, rect, cell, c, k) =~= far_points(points, edges, rect, cell, c, k - 1).push(
                points[k - 1],
            ));
        }
    }
}

} // verus!
