//! Sweep line triangulation into a mesh whose triangles know their
//! neighbours.
use crate::geom::{area_two_spec, IndexPoint, IntPoint, IntTriangle, NO_NEIGHBOR};
use crate::monotone::{
    find_section, first_not_above, insert_position, insert_section, lemma_first_not_above, lemma_insert_position,
    section_for, MonotoneTriangulator, SweepKey,
};
use crate::triangulation::RawIntTriangulation;
use crate::phantom::{empty_handler, reserved_handler, PhantomEdgePool, PhantomHandler};
use crate::segment::VSegment;
use crate::vertex::{
    area_two_wide, contour_vertices, distinct_points, shape_vertices, sweep_ordered, sweep_points, ChainVertex,
    VertexType,
};
use vstd::prelude::*;

verus! {

/// What lies across an edge of a section: a triangle (`usize::MAX` for
/// the border), or a slot of the phantom pool that pairs the two
/// triangles that will meet there.
#[derive(Clone, Copy, Debug, PartialEq, Eq, Structural)]
pub enum EdgeType {
    Regular(usize),
    Phantom(usize),
}

/// An edge of a section's chain.
#[derive(Clone, Copy, Debug)]
pub struct TriangleEdge {
    pub a: IndexPoint,
    pub b: IndexPoint,
    pub kind: EdgeType,
}

impl TriangleEdge {
    /// An edge on the border of the polygon.
    pub fn border(a: IndexPoint, b: IndexPoint) -> (r: Self)
        ensures
            r.a == a,
            r.b == b,
            r.kind == EdgeType::Regular(usize::MAX),
    {
        TriangleEdge { a, b, kind: EdgeType::Regular(usize::MAX) }
    }

    /// An edge paired through slot `index` of the phantom pool.
    pub fn phantom(a: IndexPoint, b: IndexPoint, index: usize) -> (r: Self)
        ensures
            r.a == a,
            r.b == b,
            r.kind == EdgeType::Phantom(index),
    {
        TriangleEdge { a, b, kind: EdgeType::Phantom(index) }
    }

    /// An edge of triangle `index`.
    pub fn regular(a: IndexPoint, b: IndexPoint, index: usize) -> (r: Self)
        ensures
            r.a == a,
            r.b == b,
            r.kind == EdgeType::Regular(index),
    {
        TriangleEdge { a, b, kind: EdgeType::Regular(index) }
    }
}

/// What a section holds: its first point alone, or a chain of edges.
#[derive(Debug)]
pub enum Content {
    Point(IndexPoint),
    Edges(Vec<TriangleEdge>),
}

/// A part of the polygon open to the sweep: its lower segment and what
/// lies on its left.
#[derive(Debug)]
pub struct Section {
    pub sort: VSegment,
    pub content: Content,
}

impl SweepKey for Section {
    open spec fn key_spec(&self) -> VSegment {
        self.sort
    }

    fn key(&self) -> (r: VSegment) {
        self.sort
    }
}

pub open spec fn edge_ok(e: TriangleEdge, m: int) -> bool {
    e.a.index < m && e.b.index < m
}

pub open spec fn edges_ok(es: Seq<TriangleEdge>, m: int) -> bool {
    forall|k: int| 0 <= k < es.len() ==> edge_ok(#[trigger] es[k], m)
}

/// A section's points are numbered below `m`, and a chain has an edge.
pub open spec fn content_ok(c: Content, m: int) -> bool {
    match c {
        Content::Point(p) => p.index < m,
        Content::Edges(es) => es@.len() >= 1 && edges_ok(es@, m),
    }
}

pub open spec fn net_sections_ok(secs: Seq<Section>, m: int) -> bool {
    forall|j: int| 0 <= j < secs.len() ==> content_ok(#[trigger] secs[j].content, m)
}

pub open spec fn triangle_ok(t: IntTriangle, m: int) -> bool {
    &&& t.vertices[0].index < m
    &&& t.vertices[1].index < m
    &&& t.vertices[2].index < m
}

/// Collects triangles and pairs the ones that meet across phantom edges.
pub struct TrianglesBuilder {
    pub triangles: Vec<IntTriangle>,
    pub phantom_store: PhantomEdgePool,
}

/// Edge lists built from checked parts are checked.
proof fn lemma_edges_concat(x: Seq<TriangleEdge>, y: Seq<TriangleEdge>, m: int)
    requires
        edges_ok(x, m),
        edges_ok(y, m),
    ensures
        edges_ok(x + y, m),
{
    assert forall|k: int| 0 <= k < (x + y).len() implies edge_ok(#[trigger] (x + y)[k], m) by {
        if k < x.len() {
            assert((x + y)[k] == x[k]);
        } else {
            assert((x + y)[k] == y[k - x.len()]);
        }
    }
}

proof fn lemma_edges_sub(x: Seq<TriangleEdge>, lo: int, hi: int, m: int)
    requires
        edges_ok(x, m),
        0 <= lo <= hi <= x.len(),
    ensures
        edges_ok(x.subrange(lo, hi), m),
{
    assert forall|k: int| 0 <= k < hi - lo implies edge_ok(#[trigger] x.subrange(lo, hi)[k], m) by {
        assert(x.subrange(lo, hi)[k] == x[lo + k]);
    }
}

impl TrianglesBuilder {
    /// The pool is sound, every triangle's points are numbered below `m`,
    /// and every paired slot names a triangle and one of its vertices.
    pub open spec fn ok(&self, m: int) -> bool {
        &&& self.phantom_store.wf()
        &&& forall|t: int| 0 <= t < self.triangles@.len() ==> triangle_ok(#[trigger] self.triangles@[t], m)
        &&& forall|k: int|
            0 <= k < self.phantom_store.slots().len() ==> (#[trigger] self.phantom_store.slots()[k]).triangle
                == usize::MAX || (self.phantom_store.slots()[k].triangle < self.triangles@.len()
                && self.phantom_store.slots()[k].vertex < 3)
    }

    pub fn new() -> (r: Self)
        ensures
            r.ok(0),
            r.triangles@.len() == 0,
            r.phantom_store.slots() == seq![empty_handler(), empty_handler(), empty_handler(), empty_handler()],
            r.phantom_store.free() == seq![3usize, 2, 1, 0],
    {
        TrianglesBuilder { triangles: Vec::new(), phantom_store: PhantomEdgePool::new() }
    }

    /// Whether a new phantom slot can be handed out.
    fn can_alloc(&self) -> (r: bool)
        ensures
            r == (self.phantom_store.slots().len() < usize::MAX / 4),
            r ==> 2 * self.phantom_store.slots().len() + 1 <= usize::MAX,
    {
        self.phantom_store.len() < usize::MAX / 4
    }

    /// Hands out a phantom slot.
    fn get_unique_phantom_edge_index(&mut self, Ghost(m): Ghost<int>) -> (r: usize)
        requires
            old(self).ok(m),
            2 * old(self).phantom_store.slots().len() + 1 <= usize::MAX,
        ensures
            final(self).ok(m),
            final(self).triangles@ == old(self).triangles@,
            r < final(self).phantom_store.slots().len(),
            r == next_slot(old(self).phantom_store),
            final(self).phantom_store.slots()[r as int] == reserved_handler(),
            forall|k: int|
                0 <= k < old(self).phantom_store.slots().len() && k != r
                    ==> #[trigger] final(self).phantom_store.slots()[k] == old(self).phantom_store.slots()[k],
    {
        let r = self.phantom_store.alloc_phantom_index();
        proof {
            let old_slots = old(self).phantom_store.slots();
            let slots = self.phantom_store.slots();
            assert forall|k: int| 0 <= k < slots.len() implies (#[trigger] slots[k]).triangle == usize::MAX || (
            slots[k].triangle < self.triangles@.len() && slots[k].vertex < 3) by {
                if k != r && k < old_slots.len() {
                    assert(slots[k] == old_slots[k]);
                }
            }
        }
        r
    }

    /// Adds `new_triangle`, linking it across `edge` to the triangle on
    /// the other side, or leaving it in the edge's phantom slot for the
    /// triangle still to come; `vertex` is the new triangle's vertex
    /// opposite the edge. Returns the new triangle's position.
    pub fn insert_triangle_with_neighbor_link(
        &mut self,
        edge: &TriangleEdge,
        vertex: usize,
        new_triangle: IntTriangle,
        Ghost(m): Ghost<int>,
    ) -> (r: usize)
        requires
            old(self).ok(m),
            vertex < 3,
            triangle_ok(new_triangle, m),
        ensures
            final(self).ok(m),
            r == old(self).triangles@.len(),
            final(self).triangles@.len() == old(self).triangles@.len() + 1,
            final(self).phantom_store.slots().len() == old(self).phantom_store.slots().len(),
            final(self).triangles@[r as int].vertices == new_triangle.vertices,
            forall|t: int|
                0 <= t < old(self).triangles@.len() ==> (#[trigger] final(self).triangles@[t]).vertices == old(
                    self,
                ).triangles@[t].vertices,
    {
        let mut new_triangle = new_triangle;
        let new_index = self.triangles.len();
        match edge.kind {
            EdgeType::Regular(triangle_index) => {
                if triangle_index < self.triangles.len() {
                    new_triangle.set_neighbor(vertex, triangle_index);
                    let mut other = self.triangles[triangle_index];
                    let vi = other.other_vertex(edge.a.index, edge.b.index);
                    other.set_neighbor(vi, new_index);
                    proof {
                        assert(triangle_ok(self.triangles@[triangle_index as int], m));
                    }
                    self.triangles.set(triangle_index, other);
                }
            },
            EdgeType::Phantom(edge_index) => {
                if edge_index < self.phantom_store.len() {
                    match self.phantom_store.get(edge_index) {
                        Some(handler) => {
                            proof {
                                assert(self.phantom_store.slots()[edge_index as int].triangle != usize::MAX);
                            }
                            let mut other = self.triangles[handler.triangle];
                            proof {
                                assert(triangle_ok(self.triangles@[handler.triangle as int], m));
                            }
                            other.set_neighbor(handler.vertex, new_index);
                            self.triangles.set(handler.triangle, other);
                            new_triangle.set_neighbor(vertex, handler.triangle);
                            self.phantom_store.free_phantom_index(edge_index);
                        },
                        None => {
                            if self.phantom_store.is_in_use(edge_index) {
                                self.phantom_store.register_phantom_link(
                                    edge_index,
                                    PhantomHandler { vertex, triangle: new_index },
                                );
                            }
                        },
                    }
                }
            },
        }
        self.triangles.push(new_triangle);
        proof {
            assert forall|t: int| 0 <= t < self.triangles@.len() implies triangle_ok(
                #[trigger] self.triangles@[t],
                m,
            ) by {
                if t < new_index {
                    assert(triangle_ok(old(self).triangles@[t], m));
                }
            }
        }
        new_index
    }

    /// Drops the neighbour across from `vertex` of triangle `index`.
    fn remove_neighbor_of(&mut self, index: usize, vertex: usize, Ghost(m): Ghost<int>)
        requires
            old(self).ok(m),
            index < old(self).triangles@.len(),
            vertex < 3,
        ensures
            final(self).ok(m),
            final(self).triangles@.len() == old(self).triangles@.len(),
            final(self).phantom_store == old(self).phantom_store,
            final(self).triangles@[index as int].vertices == old(self).triangles@[index as int].vertices,
            final(self).triangles@[index as int].neighbors@ == old(self).triangles@[index as int].neighbors@.update(
                vertex as int,
                NO_NEIGHBOR,
            ),
            forall|t: int|
                0 <= t < old(self).triangles@.len() && t != index
                    ==> #[trigger] final(self).triangles@[t] == old(self).triangles@[t],
    {
        let mut t = self.triangles[index];
        proof {
            assert(triangle_ok(self.triangles@[index as int], m));
        }
        t.remove_neighbor(vertex);
        self.triangles.set(index, t);
    }

    /// Sets the neighbour across from `vertex` of triangle `index`.
    fn set_neighbor_of(&mut self, index: usize, vertex: usize, neighbor: usize, Ghost(m): Ghost<int>)
        requires
            old(self).ok(m),
            index < old(self).triangles@.len(),
            vertex < 3,
        ensures
            final(self).ok(m),
            final(self).triangles@.len() == old(self).triangles@.len(),
            final(self).phantom_store == old(self).phantom_store,
            final(self).triangles@[index as int].vertices == old(self).triangles@[index as int].vertices,
            final(self).triangles@[index as int].neighbors@ == old(self).triangles@[index as int].neighbors@.update(
                vertex as int,
                neighbor,
            ),
            forall|t: int|
                0 <= t < old(self).triangles@.len() && t != index
                    ==> #[trigger] final(self).triangles@[t] == old(self).triangles@[t],
    {
        let mut t = self.triangles[index];
        proof {
            assert(triangle_ok(self.triangles@[index as int], m));
        }
        t.set_neighbor(vertex, neighbor);
        self.triangles.set(index, t);
    }
}

proof fn lemma_edges_insert(x: Seq<TriangleEdge>, i: int, e: TriangleEdge, m: int)
    requires
        edges_ok(x, m),
        edge_ok(e, m),
        0 <= i <= x.len(),
    ensures
        edges_ok(x.insert(i, e), m),
{
    assert forall|k: int| 0 <= k < x.insert(i, e).len() implies edge_ok(#[trigger] x.insert(i, e)[k], m) by {
        if k < i {
            assert(x.insert(i, e)[k] == x[k]);
        } else if k > i {
            assert(x.insert(i, e)[k] == x[k - 1]);
        }
    }
}

proof fn lemma_edges_push(x: Seq<TriangleEdge>, e: TriangleEdge, m: int)
    requires
        edges_ok(x, m),
        edge_ok(e, m),
    ensures
        edges_ok(x.push(e), m),
{
    assert forall|k: int| 0 <= k < x.push(e).len() implies edge_ok(#[trigger] x.push(e)[k], m) by {
        if k < x.len() {
            assert(x.push(e)[k] == x[k]);
        }
    }
}

/// From `i` on, the first of the chain's edges that `p` sees turning
/// counter-clockwise; the chain's length when none does.
pub open spec fn first_visible_spec(edges: Seq<TriangleEdge>, p: IntPoint, i: int) -> int
    decreases edges.len() - i,
{
    if i < 0 || i >= edges.len() || area_two_spec(p, edges[i].a.point, edges[i].b.point) > 0 {
        i
    } else {
        first_visible_spec(edges, p, i + 1)
    }
}

proof fn lemma_first_visible(edges: Seq<TriangleEdge>, p: IntPoint, i: int)
    requires
        0 <= i <= edges.len(),
    ensures
        i <= first_visible_spec(edges, p, i) <= edges.len(),
    decreases edges.len() - i,
{
    if i < edges.len() && !(area_two_spec(p, edges[i].a.point, edges[i].b.point) > 0) {
        lemma_first_visible(edges, p, i + 1);
    }
}

/// The slot the pool hands out next: the last freed one, else a new one.
pub open spec fn next_slot(pool: PhantomEdgePool) -> usize {
    if pool.free().len() > 0 {
        pool.free().last()
    } else {
        pool.slots().len() as usize
    }
}

/// The content is the chain `s`.
pub open spec fn edges_are(c: Content, s: Seq<TriangleEdge>) -> bool {
    match c {
        Content::Edges(es) => es@ == s,
        Content::Point(_) => false,
    }
}

/// Whether adding `p` to a section of this content takes a phantom slot:
/// the content is a lone point, or `p` sees none of the chain's edges
/// turning counter-clockwise.
pub open spec fn needs_slot(c: Content, p: IntPoint) -> bool {
    match c {
        Content::Point(_) => true,
        Content::Edges(es) => first_visible_spec(es@, p, 0) >= es@.len(),
    }
}

/// The segment from the vertex to its next point.
pub open spec fn next_segment(v: ChainVertex) -> VSegment {
    VSegment { a: v.this, b: v.next }
}

/// The vertex as a numbered point.
pub open spec fn apex(v: ChainVertex) -> IndexPoint {
    IndexPoint { index: v.index, point: v.this }
}

/// From `i` on, the first of the chain's edges that `p` does not see
/// turning counter-clockwise; the chain's length when it sees them all.
pub open spec fn first_hidden_spec(edges: Seq<TriangleEdge>, p: IntPoint, i: int) -> int
    decreases edges.len() - i,
{
    if i < 0 || i >= edges.len() || area_two_spec(p, edges[i].a.point, edges[i].b.point) <= 0 {
        i
    } else {
        first_hidden_spec(edges, p, i + 1)
    }
}

/// How many of the chain's last edges, counted from the end, `p` sees
/// turning counter-clockwise, given that the last `n` are seen.
pub open spec fn trailing_seen(edges: Seq<TriangleEdge>, p: IntPoint, n: int) -> int
    decreases edges.len() - n,
{
    let e = edges[edges.len() - 1 - n];
    if n < 0 || n >= edges.len() || area_two_spec(p, e.a.point, e.b.point) <= 0 {
        n
    } else {
        trailing_seen(edges, p, n + 1)
    }
}

/// Triangle `t` is `p` with the edge's two ends, turning counter-clockwise.
pub open spec fn fan_triangle(t: IntTriangle, p: IndexPoint, e: TriangleEdge) -> bool {
    &&& t.vertices@ == seq![p, e.a, e.b]
    &&& area_two_spec(p.point, e.a.point, e.b.point) > 0
}

/// The triangles from position `n` on are the fan from `p` over the
/// edges, one per edge and in their order, and there are no others.
pub open spec fn fan_over(triangles: Seq<IntTriangle>, n: int, p: IndexPoint, edges: Seq<TriangleEdge>) -> bool {
    &&& triangles.len() == n + edges.len()
    &&& forall|j: int| 0 <= j < edges.len() ==> fan_triangle(triangles[n + j], p, #[trigger] edges[j])
}

/// The triangles that were there keep their vertices.
pub open spec fn keeps_vertices(before: Seq<IntTriangle>, after: Seq<IntTriangle>) -> bool {
    &&& before.len() <= after.len()
    &&& forall|t: int| 0 <= t < before.len() ==> (#[trigger] after[t]).vertices == before[t].vertices
}

proof fn lemma_first_visible_found(edges: Seq<TriangleEdge>, p: IntPoint, i: int)
    requires
        0 <= i <= edges.len(),
        first_visible_spec(edges, p, i) < edges.len(),
    ensures
        area_two_spec(
            p,
            edges[first_visible_spec(edges, p, i)].a.point,
            edges[first_visible_spec(edges, p, i)].b.point,
        ) > 0,
    decreases edges.len() - i,
{
    if i < edges.len() && !(area_two_spec(p, edges[i].a.point, edges[i].b.point) > 0) {
        lemma_first_visible_found(edges, p, i + 1);
    }
}

proof fn lemma_first_hidden_bounds(edges: Seq<TriangleEdge>, p: IntPoint, i: int)
    requires
        0 <= i <= edges.len(),
    ensures
        i <= first_hidden_spec(edges, p, i) <= edges.len(),
    decreases edges.len() - i,
{
    if i < edges.len() && area_two_spec(p, edges[i].a.point, edges[i].b.point) > 0 {
        lemma_first_hidden_bounds(edges, p, i + 1);
    }
}

/// The first of the chain's edges that `p` sees turning counter-clockwise,
/// from `i` on.
fn first_visible(edges: &Vec<TriangleEdge>, p: IntPoint, i: usize) -> (r: usize)
    requires
        i <= edges@.len(),
    ensures
        i <= r <= edges@.len(),
        r == first_visible_spec(edges@, p, i as int),
{
    let mut j = i;
    proof {
        lemma_first_visible(edges@, p, i as int);
    }
    while j < edges.len()
        invariant
            i <= j <= edges@.len(),
            first_visible_spec(edges@, p, j as int) == first_visible_spec(edges@, p, i as int),
        ensures
            j == first_visible_spec(edges@, p, i as int),
        decreases edges@.len() - j,
    {
        let e = edges[j];
        if area_two_wide(p, e.a.point, e.b.point) > 0 {
            break;
        }
        j += 1;
    }
    j
}

/// Among the first `k` edges, the first whose start lies nearest left of
/// `x`, nearer than the chain's last point; the chain's length when none
/// does.
pub open spec fn closest_start_spec(edges: Seq<TriangleEdge>, x: int, k: int) -> int
    decreases k,
{
    if k <= 0 {
        edges.len() as int
    } else {
        let c = closest_start_spec(edges, x, k - 1);
        let best = if c == edges.len() {
            x - edges[edges.len() - 1].b.point.x
        } else {
            x - edges[c].a.point.x
        };
        if x - edges[k - 1].a.point.x < best {
            k - 1
        } else {
            c
        }
    }
}

proof fn lemma_closest_start(edges: Seq<TriangleEdge>, x: int, k: int)
    requires
        0 <= k <= edges.len(),
    ensures
        closest_start_spec(edges, x, k) == edges.len() || 0 <= closest_start_spec(edges, x, k) < k,
    decreases k,
{
    if k > 0 {
        lemma_closest_start(edges, x, k - 1);
    }
}

/// The position of the first edge that starts farthest right, when one
/// starts right of the chain's last point; the chain's length otherwise.
fn closest_start(edges: &Vec<TriangleEdge>, p: IntPoint) -> (r: usize)
    requires
        edges@.len() >= 1,
    ensures
        r <= edges@.len(),
        r == closest_start_spec(edges@, p.x as int, edges@.len() as int),
{
    let n = edges.len();
    let last = edges[n - 1].b;
    let mut index = n;
    let mut min_dist: i64 = p.x as i64 - last.point.x as i64;
    let mut k: usize = 0;
    while k < n
        invariant
            n == edges@.len(),
            n >= 1,
            last == edges@[n - 1].b,
            k <= n,
            index <= n,
            index == closest_start_spec(edges@, p.x as int, k as int),
            min_dist == if index == n {
                p.x - last.point.x
            } else {
                p.x - edges@[index as int].a.point.x
            },
        decreases n - k,
    {
        proof {
            lemma_closest_start(edges@, p.x as int, k as int);
        }
        let dist = p.x as i64 - edges[k].a.point.x as i64;
        if dist < min_dist {
            min_dist = dist;
            index = k;
        }
        k += 1;
    }
    index
}

impl Section {
    /// Closes the section at the vertex: a triangle from it to every edge
    /// of the chain, each linked to the one before. `false` for a section
    /// that holds a single point.
    pub fn add_as_last(&self, v: &ChainVertex, builder: &mut TrianglesBuilder, Ghost(m): Ghost<int>) -> (r: bool)
        requires
            old(builder).ok(m),
            content_ok(self.content, m),
            v.index < m,
        ensures
            final(builder).ok(m),
            r == (self.content is Edges),
    {
        let edges = match &self.content {
            Content::Edges(edges) => edges,
            Content::Point(_) => {
                return false;
            },
        };
        let vp = v.index_point();
        let n = edges.len();
        let mut prev_index = NO_NEIGHBOR;
        let mut k: usize = 0;
        while k + 1 < n
            invariant
                n == edges@.len(),
                n >= 1,
                k < n,
                edges_ok(edges@, m),
                vp.index < m,
                builder.ok(m),
            decreases n - k,
        {
            let ei = edges[k];
            proof {
                assert(edge_ok(edges@[k as int], m));
            }
            let mut triangle = IntTriangle::abc(vp, ei.a, ei.b);
            triangle.set_neighbor(1, builder.triangles.len().wrapping_add(1));
            triangle.set_neighbor(2, prev_index);
            prev_index = builder.insert_triangle_with_neighbor_link(&ei, 0, triangle, Ghost(m));
            k += 1;
        }
        let last_edge = edges[n - 1];
        proof {
            assert(edge_ok(edges@[n - 1], m));
        }
        let mut triangle = IntTriangle::abc(vp, last_edge.a, last_edge.b);
        triangle.set_neighbor(2, prev_index);
        builder.insert_triangle_with_neighbor_link(&last_edge, 0, triangle, Ghost(m));
        true
    }

    /// Adds the vertex before the chain: triangles from it to the leading
    /// edges that turn counter-clockwise, each linked to the one before,
    /// and an edge from it to the rest of the chain.
    pub fn add_from_start(self, v: &ChainVertex, builder: &mut TrianglesBuilder, Ghost(m): Ghost<int>) -> (r: Section)
        requires
            old(builder).ok(m),
            content_ok(self.content, m),
            v.index < m,
        ensures
            final(builder).ok(m),
            content_ok(r.content, m),
            r.sort == self.sort,
            keeps_vertices(old(builder).triangles@, final(builder).triangles@),
            match self.content {
                Content::Point(p) => {
                    &&& final(builder).triangles@ == old(builder).triangles@
                    &&& edges_are(r.content, seq![TriangleEdge { a: apex(*v), b: p, kind: EdgeType::Regular(usize::MAX) }])
                },
                Content::Edges(es) => {
                    let k = first_hidden_spec(es@, v.this, 0);
                    let n0 = old(builder).triangles@.len() as int;
                    &&& fan_over(final(builder).triangles@, n0, apex(*v), es@.subrange(0, k))
                    &&& k == 0 ==> edges_are(
                        r.content,
                        seq![TriangleEdge { a: apex(*v), b: es@[0].a, kind: EdgeType::Regular(usize::MAX) }] + es@,
                    )
                    &&& k > 0 ==> edges_are(
                        r.content,
                        seq![TriangleEdge { a: apex(*v), b: es@[k - 1].b, kind: EdgeType::Regular((n0 + k - 1) as usize) }]
                            + es@.subrange(k, es@.len() as int),
                    )
                },
            },
    {
        let vp = v.index_point();
        let sort = self.sort;
        let ghost n0 = builder.triangles@.len() as int;
        match self.content {
            Content::Point(point) => {
                let edges = vec![TriangleEdge::border(vp, point)];
                proof {
                    assert(edge_ok(edges@[0], m));
                    assert(edges@ =~= seq![edges@[0]]);
                }
                Section { sort, content: Content::Edges(edges) }
            },
            Content::Edges(edges) => {
                let mut edges = edges;
                let ghost es = edges@;
                let e0 = edges[0];
                proof {
                    assert(edge_ok(edges@[0], m));
                }
                if area_two_wide(v.this, e0.a.point, e0.b.point) <= 0 {
                    let ghost before = edges@;
                    let head = TriangleEdge::border(vp, e0.a);
                    edges.insert(0, head);
                    proof {
                        lemma_edges_insert(before, 0, head, m);
                        assert(es.subrange(0, 0) =~= Seq::<TriangleEdge>::empty());
                        assert(edges@ =~= seq![head] + es);
                    }
                    return Section { sort, content: Content::Edges(edges) };
                }
                let mut index = builder.insert_triangle_with_neighbor_link(
                    &e0,
                    0,
                    IntTriangle::abc(vp, e0.a, e0.b),
                    Ghost(m),
                );
                let mut n: usize = 1;
                let mut eb = e0.b;
                while n < edges.len()
                    invariant
                        1 <= n <= edges@.len(),
                        edges@ == es,
                        edges_ok(edges@, m),
                        vp == apex(*v),
                        vp.index < m,
                        eb.index < m,
                        eb == es[n - 1].b,
                        builder.ok(m),
                        index == n0 + n - 1,
                        n0 == old(builder).triangles@.len(),
                        keeps_vertices(old(builder).triangles@, builder.triangles@),
                        fan_over(builder.triangles@, n0, vp, es.subrange(0, n as int)),
                        first_hidden_spec(es, v.this, 0) == first_hidden_spec(es, v.this, n as int),
                    ensures
                        n == es.len() || area_two_spec(v.this, es[n as int].a.point, es[n as int].b.point) <= 0,
                    decreases edges@.len() - n,
                {
                    let ei = edges[n];
                    proof {
                        assert(edge_ok(edges@[n as int], m));
                    }
                    if area_two_wide(vp.point, ei.a.point, ei.b.point) <= 0 {
                        break;
                    }
                    eb = ei.b;
                    let mut triangle = IntTriangle::abc(vp, ei.a, ei.b);
                    triangle.set_neighbor(2, index);
                    let prev_index = index;
                    let ghost t0 = builder.triangles@;
                    index = builder.insert_triangle_with_neighbor_link(&ei, 0, triangle, Ghost(m));
                    let ghost t1 = builder.triangles@;
                    builder.set_neighbor_of(prev_index, 1, index, Ghost(m));
                    proof {
                        let t2 = builder.triangles@;
                        let sub = es.subrange(0, n + 1);
                        assert forall|j: int| 0 <= j < sub.len() implies fan_triangle(t2[n0 + j], vp, #[trigger] sub[j]) by {
                            assert(sub[j] == es[j]);
                            if j < n {
                                assert(es.subrange(0, n as int)[j] == es[j]);
                                assert(t2[n0 + j].vertices == t0[n0 + j].vertices);
                            }
                        }
                        assert forall|t: int| 0 <= t < old(builder).triangles@.len() implies (#[trigger] t2[t]).vertices
                            == old(builder).triangles@[t].vertices by {
                            assert(t2[t].vertices == t0[t].vertices);
                        }
                    }
                    n += 1;
                }
                proof {
                    lemma_first_hidden_bounds(es, v.this, n as int);
                }
                let ghost before = edges@;
                let mut rest = edges.split_off(n);
                proof {
                    lemma_edges_sub(before, n as int, before.len() as int, m);
                }
                let head = TriangleEdge::regular(vp, eb, index);
                let ghost tail = rest@;
                rest.insert(0, head);
                proof {
                    lemma_edges_insert(tail, 0, head, m);
                    assert(rest@ =~= seq![head] + es.subrange(n as int, es.len() as int));
                }
                Section { sort, content: Content::Edges(rest) }
            },
        }
    }

    /// Cuts the triangles between the vertex and the chain's edges that
    /// turn counter-clockwise, at the first of them and after, each linked
    /// to the one before: the section keeps the part under the vertex, and
    /// the part above, with the vertex's segment, is returned second.
    /// When no edge turns so, the chain is split at its edge starting
    /// farthest right (or at its end), through a phantom edge to the
    /// vertex: the part above, with the vertex's segment, comes first.
    /// `None` when the phantom pool cannot grow.
    pub fn add_to_middle(self, v: &ChainVertex, builder: &mut TrianglesBuilder, Ghost(m): Ghost<int>) -> (r: Option<
        (Section, Section),
    >)
        requires
            old(builder).ok(m),
            content_ok(self.content, m),
            v.index < m,
        ensures
            final(builder).ok(m),
            keeps_vertices(old(builder).triangles@, final(builder).triangles@),
            r matches Some(pair) ==> content_ok(pair.0.content, m) && content_ok(pair.1.content, m),
            r is None <==> needs_slot(self.content, v.this) && old(builder).phantom_store.slots().len() >= usize::MAX
                / 4,
            needs_slot(self.content, v.this) ==> final(builder).triangles@ == old(builder).triangles@,
            r matches Some(pair) ==> if needs_slot(self.content, v.this) {
                pair.0.sort == next_segment(*v) && pair.1.sort == self.sort
            } else {
                pair.0.sort == self.sort && pair.1.sort == next_segment(*v)
            },
            r matches Some(pair) ==> match self.content {
                Content::Point(p) => {
                    let k = next_slot(old(builder).phantom_store);
                    &&& edges_are(pair.0.content, seq![TriangleEdge { a: p, b: apex(*v), kind: EdgeType::Phantom(k) }])
                    &&& edges_are(pair.1.content, seq![TriangleEdge { a: apex(*v), b: p, kind: EdgeType::Phantom(k) }])
                },
                Content::Edges(es) => {
                    let len = es@.len() as int;
                    let i = first_visible_spec(es@, v.this, 0);
                    let k = next_slot(old(builder).phantom_store);
                    let c = closest_start_spec(es@, v.this.x as int, len);
                    let n0 = old(builder).triangles@.len() as int;
                    if i >= len {
                        if c == len {
                            &&& edges_are(
                                pair.0.content,
                                es@.push(TriangleEdge { a: es@[len - 1].b, b: apex(*v), kind: EdgeType::Phantom(k) }),
                            )
                            &&& edges_are(
                                pair.1.content,
                                seq![TriangleEdge { a: apex(*v), b: es@[len - 1].b, kind: EdgeType::Phantom(k) }],
                            )
                        } else {
                            &&& edges_are(
                                pair.0.content,
                                es@.subrange(0, c).push(TriangleEdge { a: es@[c].a, b: apex(*v), kind: EdgeType::Phantom(k) }),
                            )
                            &&& edges_are(
                                pair.1.content,
                                seq![TriangleEdge { a: apex(*v), b: es@[c].a, kind: EdgeType::Phantom(k) }] + es@.subrange(c, len),
                            )
                        }
                    } else {
                        let j = first_hidden_spec(es@, v.this, i + 1);
                        &&& fan_over(final(builder).triangles@, n0, apex(*v), es@.subrange(i, j))
                        &&& edges_are(
                            pair.0.content,
                            seq![TriangleEdge { a: apex(*v), b: es@[j - 1].b, kind: EdgeType::Regular((n0 + j - i - 1) as usize) }]
                                + es@.subrange(j, len),
                        )
                        &&& edges_are(
                            pair.1.content,
                            es@.subrange(0, i).push(TriangleEdge { a: es@[i].a, b: apex(*v), kind: EdgeType::Regular(n0 as usize) }),
                        )
                    }
                },
            },
    {
        let vp = v.index_point();
        let new_sort = VSegment { a: v.this, b: v.next };
        let sort = self.sort;
        let ghost n0 = builder.triangles@.len() as int;
        match self.content {
            Content::Point(point) => {
                if !builder.can_alloc() {
                    return None;
                }
                let phantom_index = builder.get_unique_phantom_edge_index(Ghost(m));
                let top_edge = TriangleEdge::phantom(point, vp, phantom_index);
                let bottom_edge = TriangleEdge::phantom(vp, point, phantom_index);
                let top = vec![top_edge];
                let bottom = vec![bottom_edge];
                proof {
                    assert(edge_ok(top@[0], m));
                    assert(edge_ok(bottom@[0], m));
                    assert(top@ =~= seq![top_edge]);
                    assert(bottom@ =~= seq![bottom_edge]);
                }
                Some(
                    (
                        Section { sort: new_sort, content: Content::Edges(top) },
                        Section { sort, content: Content::Edges(bottom) },
                    ),
                )
            },
            Content::Edges(edges) => {
                let mut edges = edges;
                let ghost es = edges@;
                let len = edges.len();
                let i = first_visible(&edges, v.this, 0);
                if i >= len {
                    let index = closest_start(&edges, vp.point);
                    if !builder.can_alloc() {
                        return None;
                    }
                    let phantom_index = builder.get_unique_phantom_edge_index(Ghost(m));
                    if index == len {
                        let eb = edges[len - 1].b;
                        proof {
                            assert(edge_ok(edges@[len - 1], m));
                        }
                        let top_edge = TriangleEdge::phantom(eb, vp, phantom_index);
                        let bottom_edge = TriangleEdge::phantom(vp, eb, phantom_index);
                        let ghost before = edges@;
                        edges.push(top_edge);
                        let bottom = vec![bottom_edge];
                        proof {
                            lemma_edges_push(before, top_edge, m);
                            assert(edge_ok(bottom@[0], m));
                            assert(bottom@ =~= seq![bottom_edge]);
                        }
                        return Some(
                            (
                                Section { sort: new_sort, content: Content::Edges(edges) },
                                Section { sort, content: Content::Edges(bottom) },
                            ),
                        );
                    } else {
                        let ea = edges[index].a;
                        proof {
                            assert(edge_ok(edges@[index as int], m));
                        }
                        let ghost before = edges@;
                        let mut bottom_edges = edges.split_off(index);
                        let top_edge = TriangleEdge::phantom(ea, vp, phantom_index);
                        let bottom_edge = TriangleEdge::phantom(vp, ea, phantom_index);
                        proof {
                            lemma_edges_sub(before, 0, index as int, m);
                            lemma_edges_sub(before, index as int, len as int, m);
                        }
                        let ghost kept = edges@;
                        let ghost moved = bottom_edges@;
                        edges.push(top_edge);
                        bottom_edges.insert(0, bottom_edge);
                        proof {
                            lemma_edges_push(kept, top_edge, m);
                            lemma_edges_insert(moved, 0, bottom_edge, m);
                            assert(bottom_edges@ =~= seq![bottom_edge] + es.subrange(index as int, len as int));
                        }
                        return Some(
                            (
                                Section { sort: new_sort, content: Content::Edges(edges) },
                                Section { sort, content: Content::Edges(bottom_edges) },
                            ),
                        );
                    }
                }
                let e0 = edges[i];
                proof {
                    assert(edge_ok(edges@[i as int], m));
                    lemma_first_visible_found(es, v.this, 0);
                }
                let mut t0 = IntTriangle::abc(vp, e0.a, e0.b);
                t0.set_neighbor(1, builder.triangles.len().wrapping_add(1));
                let mut index = builder.insert_triangle_with_neighbor_link(&e0, 0, t0, Ghost(m));
                let top_edge = TriangleEdge::regular(e0.a, vp, index);
                let ghost before = edges@;
                let rest = edges.split_off(i);
                proof {
                    lemma_edges_sub(before, 0, i as int, m);
                    lemma_edges_sub(before, i as int, len as int, m);
                }
                let mut top_edges = edges;
                let ghost kept = top_edges@;
                top_edges.push(top_edge);
                proof {
                    lemma_edges_push(kept, top_edge, m);
                    let sub = es.subrange(i as int, i + 1);
                    assert(sub[0] == es[i as int]);
                }
                let top_section = Section { sort: new_sort, content: Content::Edges(top_edges) };
                let mut edges = rest;
                let mut next_index = index.wrapping_add(2);
                let mut j: usize = 1;
                while j < edges.len()
                    invariant
                        1 <= j <= edges@.len(),
                        edges@ == es.subrange(i as int, len as int),
                        len == es.len(),
                        i < len,
                        edges_ok(edges@, m),
                        vp == apex(*v),
                        vp.index < m,
                        builder.ok(m),
                        index == n0 + j - 1,
                        n0 == old(builder).triangles@.len(),
                        keeps_vertices(old(builder).triangles@, builder.triangles@),
                        fan_over(builder.triangles@, n0, vp, es.subrange(i as int, i + j)),
                        first_hidden_spec(es, v.this, i + 1) == first_hidden_spec(es, v.this, i + j),
                    ensures
                        j == edges@.len() || area_two_spec(v.this, es[i + j].a.point, es[i + j].b.point) <= 0,
                    decreases edges@.len() - j,
                {
                    let ei = edges[j];
                    proof {
                        assert(edge_ok(edges@[j as int], m));
                        assert(ei == es[i + j]);
                    }
                    if area_two_wide(v.this, ei.a.point, ei.b.point) <= 0 {
                        break;
                    }
                    let mut triangle = IntTriangle::abc(vp, ei.a, ei.b);
                    triangle.set_neighbor(1, next_index);
                    triangle.set_neighbor(2, index);
                    let ghost t0 = builder.triangles@;
                    index = builder.insert_triangle_with_neighbor_link(&ei, 0, triangle, Ghost(m));
                    proof {
                        let t2 = builder.triangles@;
                        let prev = es.subrange(i as int, i + j);
                        let sub = es.subrange(i as int, i + j + 1);
                        assert forall|q: int| 0 <= q < sub.len() implies fan_triangle(t2[n0 + q], vp, #[trigger] sub[q]) by {
                            assert(sub[q] == es[i + q]);
                            if q < j {
                                assert(prev[q] == es[i + q]);
                                assert(t2[n0 + q].vertices == t0[n0 + q].vertices);
                            }
                        }
                        assert forall|t: int| 0 <= t < old(builder).triangles@.len() implies (#[trigger] t2[t]).vertices
                            == old(builder).triangles@[t].vertices by {
                            assert(t2[t].vertices == t0[t].vertices);
                        }
                    }
                    next_index = index.wrapping_add(2);
                    j += 1;
                }
                proof {
                    assert(first_hidden_spec(es, v.this, i + j) == i + j);
                }
                let ghost t0 = builder.triangles@;
                builder.remove_neighbor_of(index, 1, Ghost(m));
                proof {
                    let t2 = builder.triangles@;
                    let sub = es.subrange(i as int, i + j);
                    assert forall|q: int| 0 <= q < sub.len() implies fan_triangle(t2[n0 + q], vp, #[trigger] sub[q]) by {
                        assert(t2[n0 + q].vertices == t0[n0 + q].vertices);
                    }
                    assert forall|t: int| 0 <= t < old(builder).triangles@.len() implies (#[trigger] t2[t]).vertices
                        == old(builder).triangles@[t].vertices by {
                        assert(t2[t].vertices == t0[t].vertices);
                    }
                }
                let eb = edges[j - 1].b;
                proof {
                    assert(edge_ok(edges@[j - 1], m));
                }
                let bottom_edge = TriangleEdge::regular(vp, eb, index);
                let ghost whole = edges@;
                let mut tail = edges.split_off(j);
                proof {
                    lemma_edges_sub(whole, j as int, whole.len() as int, m);
                }
                let ghost moved = tail@;
                tail.insert(0, bottom_edge);
                proof {
                    lemma_edges_insert(moved, 0, bottom_edge, m);
                    assert(tail@ =~= seq![bottom_edge] + es.subrange(i + j, len as int));
                }
                Some((Section { sort, content: Content::Edges(tail) }, top_section))
            },
        }
    }

    /// Adds a lone point inside the section: triangles to the chain's
    /// edges that turn counter-clockwise around it, at the first of them
    /// and after, replaced in the chain by two edges through the point;
    /// when none does, two phantom edges to the point are inserted before
    /// the edge starting farthest right (or at the end). `None` when the
    /// phantom pool cannot grow.
    pub fn add_steiner(self, vp: IndexPoint, builder: &mut TrianglesBuilder, Ghost(m): Ghost<int>) -> (r: Option<
        Section,
    >)
        requires
            old(builder).ok(m),
            content_ok(self.content, m),
            vp.index < m,
        ensures
            final(builder).ok(m),
            keeps_vertices(old(builder).triangles@, final(builder).triangles@),
            r matches Some(sec) ==> content_ok(sec.content, m) && sec.sort == self.sort,
            r is None <==> needs_slot(self.content, vp.point) && old(builder).phantom_store.slots().len()
                >= usize::MAX / 4,
            needs_slot(self.content, vp.point) ==> final(builder).triangles@ == old(builder).triangles@,
            r matches Some(sec) ==> match self.content {
                Content::Point(p) => {
                    let k = next_slot(old(builder).phantom_store);
                    edges_are(
                        sec.content,
                        seq![
                            TriangleEdge { a: p, b: vp, kind: EdgeType::Phantom(k) },
                            TriangleEdge { a: vp, b: p, kind: EdgeType::Phantom(k) },
                        ],
                    )
                },
                Content::Edges(es) => {
                    let len = es@.len() as int;
                    let i = first_visible_spec(es@, vp.point, 0);
                    let k = next_slot(old(builder).phantom_store);
                    let c = closest_start_spec(es@, vp.point.x as int, len);
                    let n0 = old(builder).triangles@.len() as int;
                    if i >= len {
                        let q = if c == len { es@[len - 1].b } else { es@[c].a };
                        edges_are(
                            sec.content,
                            es@.subrange(0, c) + seq![
                                TriangleEdge { a: q, b: vp, kind: EdgeType::Phantom(k) },
                                TriangleEdge { a: vp, b: q, kind: EdgeType::Phantom(k) },
                            ] + es@.subrange(c, len),
                        )
                    } else {
                        let j = first_hidden_spec(es@, vp.point, i + 1);
                        &&& fan_over(final(builder).triangles@, n0, vp, es@.subrange(i, j))
                        &&& edges_are(
                            sec.content,
                            es@.subrange(0, i) + seq![
                                TriangleEdge { a: es@[i].a, b: vp, kind: EdgeType::Regular(n0 as usize) },
                                TriangleEdge { a: vp, b: es@[j - 1].b, kind: EdgeType::Regular((n0 + j - i - 1) as usize) },
                            ] + es@.subrange(j, len),
                        )
                    }
                },
            },
    {
        let sort = self.sort;
        let ghost n0 = builder.triangles@.len() as int;
        match self.content {
            Content::Point(point) => {
                if !builder.can_alloc() {
                    return None;
                }
                let phantom_index = builder.get_unique_phantom_edge_index(Ghost(m));
                let top_edge = TriangleEdge::phantom(point, vp, phantom_index);
                let bottom_edge = TriangleEdge::phantom(vp, point, phantom_index);
                let edges = vec![top_edge, bottom_edge];
                proof {
                    assert(edge_ok(edges@[0], m));
                    assert(edge_ok(edges@[1], m));
                    assert(edges@ =~= seq![top_edge, bottom_edge]);
                }
                Some(Section { sort, content: Content::Edges(edges) })
            },
            Content::Edges(edges) => {
                let mut edges = edges;
                let ghost es = edges@;
                let len = edges.len();
                let i = first_visible(&edges, vp.point, 0);
                if i >= len {
                    let last = edges[len - 1].b;
                    proof {
                        assert(edge_ok(edges@[len - 1], m));
                    }
                    let index = closest_start(&edges, vp.point);
                    if !builder.can_alloc() {
                        return None;
                    }
                    let phantom_index = builder.get_unique_phantom_edge_index(Ghost(m));
                    if index == len {
                        let top_edge = TriangleEdge::phantom(last, vp, phantom_index);
                        let bottom_edge = TriangleEdge::phantom(vp, last, phantom_index);
                        let ghost e0 = edges@;
                        edges.push(top_edge);
                        let ghost e1 = edges@;
                        edges.push(bottom_edge);
                        proof {
                            lemma_edges_push(e0, top_edge, m);
                            lemma_edges_push(e1, bottom_edge, m);
                            assert(edges@ =~= es.subrange(0, len as int) + seq![top_edge, bottom_edge] + es.subrange(
                                len as int,
                                len as int,
                            ));
                        }
                    } else {
                        let ea = edges[index].a;
                        proof {
                            assert(edge_ok(edges@[index as int], m));
                        }
                        let top_edge = TriangleEdge::phantom(ea, vp, phantom_index);
                        let bottom_edge = TriangleEdge::phantom(vp, ea, phantom_index);
                        let ghost e0 = edges@;
                        edges.insert(index, top_edge);
                        let ghost e1 = edges@;
                        edges.insert(index + 1, bottom_edge);
                        proof {
                            lemma_edges_insert(e0, index as int, top_edge, m);
                            lemma_edges_insert(e1, index + 1, bottom_edge, m);
                            assert(edges@ =~= es.subrange(0, index as int) + seq![top_edge, bottom_edge] + es.subrange(
                                index as int,
                                len as int,
                            ));
                        }
                    }
                    return Some(Section { sort, content: Content::Edges(edges) });
                }
                let e0 = edges[i];
                proof {
                    assert(edge_ok(edges@[i as int], m));
                    lemma_first_visible_found(es, vp.point, 0);
                }
                let mut t0 = IntTriangle::abc(vp, e0.a, e0.b);
                t0.set_neighbor(1, builder.triangles.len().wrapping_add(1));
                let mut index = builder.insert_triangle_with_neighbor_link(&e0, 0, t0, Ghost(m));
                let top_edge = TriangleEdge::regular(e0.a, vp, index);
                let ghost before = edges@;
                let rest = edges.split_off(i);
                proof {
                    lemma_edges_sub(before, 0, i as int, m);
                    lemma_edges_sub(before, i as int, len as int, m);
                }
                let mut new_edges = edges;
                let ghost kept = new_edges@;
                new_edges.push(top_edge);
                proof {
                    lemma_edges_push(kept, top_edge, m);
                    let sub = es.subrange(i as int, i + 1);
                    assert(sub[0] == es[i as int]);
                }
                let mut edges = rest;
                let mut next_index = index.wrapping_add(2);
                let mut j: usize = 1;
                while j < edges.len()
                    invariant
                        1 <= j <= edges@.len(),
                        edges@ == es.subrange(i as int, len as int),
                        len == es.len(),
                        i < len,
                        new_edges@ == es.subrange(0, i as int).push(top_edge),
                        top_edge == (TriangleEdge { a: es[i as int].a, b: vp, kind: EdgeType::Regular(n0 as usize) }),
                        edges_ok(edges@, m),
                        vp.index < m,
                        builder.ok(m),
                        index == n0 + j - 1,
                        n0 == old(builder).triangles@.len(),
                        keeps_vertices(old(builder).triangles@, builder.triangles@),
                        fan_over(builder.triangles@, n0, vp, es.subrange(i as int, i + j)),
                        first_hidden_spec(es, vp.point, i + 1) == first_hidden_spec(es, vp.point, i + j),
                    ensures
                        j == edges@.len() || area_two_spec(vp.point, es[i + j].a.point, es[i + j].b.point) <= 0,
                    decreases edges@.len() - j,
                {
                    let ei = edges[j];
                    proof {
                        assert(edge_ok(edges@[j as int], m));
                        assert(ei == es[i + j]);
                    }
                    if area_two_wide(vp.point, ei.a.point, ei.b.point) <= 0 {
                        break;
                    }
                    let mut triangle = IntTriangle::abc(vp, ei.a, ei.b);
                    triangle.set_neighbor(1, next_index);
                    triangle.set_neighbor(2, index);
                    let ghost t0 = builder.triangles@;
                    index = builder.insert_triangle_with_neighbor_link(&ei, 0, triangle, Ghost(m));
                    proof {
                        let t2 = builder.triangles@;
                        let prev = es.subrange(i as int, i + j);
                        let sub = es.subrange(i as int, i + j + 1);
                        assert forall|q: int| 0 <= q < sub.len() implies fan_triangle(t2[n0 + q], vp, #[trigger] sub[q]) by {
                            assert(sub[q] == es[i + q]);
                            if q < j {
                                assert(prev[q] == es[i + q]);
                                assert(t2[n0 + q].vertices == t0[n0 + q].vertices);
                            }
                        }
                        assert forall|t: int| 0 <= t < old(builder).triangles@.len() implies (#[trigger] t2[t]).vertices
                            == old(builder).triangles@[t].vertices by {
                            assert(t2[t].vertices == t0[t].vertices);
                        }
                    }
                    next_index = index.wrapping_add(2);
                    j += 1;
                }
                proof {
                    assert(first_hidden_spec(es, vp.point, i + j) == i + j);
                }
                let ghost t0 = builder.triangles@;
                builder.remove_neighbor_of(index, 1, Ghost(m));
                proof {
                    let t2 = builder.triangles@;
                    let sub = es.subrange(i as int, i + j);
                    assert forall|q: int| 0 <= q < sub.len() implies fan_triangle(t2[n0 + q], vp, #[trigger] sub[q]) by {
                        assert(t2[n0 + q].vertices == t0[n0 + q].vertices);
                    }
                    assert forall|t: int| 0 <= t < old(builder).triangles@.len() implies (#[trigger] t2[t]).vertices
                        == old(builder).triangles@[t].vertices by {
                        assert(t2[t].vertices == t0[t].vertices);
                    }
                }
                let eb = edges[j - 1].b;
                proof {
                    assert(edge_ok(edges@[j - 1], m));
                }
                let bottom_edge = TriangleEdge::regular(vp, eb, index);
                let ghost whole = edges@;
                let mut tail = edges.split_off(j);
                proof {
                    lemma_edges_sub(whole, j as int, whole.len() as int, m);
                }
                let ghost with_top = new_edges@;
                new_edges.push(bottom_edge);
                proof {
                    lemma_edges_push(with_top, bottom_edge, m);
                }
                let ghost head = new_edges@;
                let ghost moved = tail@;
                new_edges.append(&mut tail);
                proof {
                    lemma_edges_concat(head, moved, m);
                    assert(new_edges@ =~= es.subrange(0, i as int) + seq![top_edge, bottom_edge] + es.subrange(
                        i + j,
                        len as int,
                    ));
                }
                Some(Section { sort, content: Content::Edges(new_edges) })
            },
        }
    }

    /// Adds the vertex after the chain: triangles from it to the trailing
    /// edges that turn counter-clockwise, last first, each linked to the
    /// one before, and an edge from the rest of the chain to it.
    pub fn add_from_end(self, v: &ChainVertex, builder: &mut TrianglesBuilder, Ghost(m): Ghost<int>) -> (r: Section)
        requires
            old(builder).ok(m),
            content_ok(self.content, m),
            v.index < m,
        ensures
            final(builder).ok(m),
            content_ok(r.content, m),
            r.sort == self.sort,
            keeps_vertices(old(builder).triangles@, final(builder).triangles@),
            match self.content {
                Content::Point(p) => {
                    &&& final(builder).triangles@ == old(builder).triangles@
                    &&& edges_are(r.content, seq![TriangleEdge { a: p, b: apex(*v), kind: EdgeType::Regular(usize::MAX) }])
                },
                Content::Edges(es) => {
                    let k = trailing_seen(es@, v.this, 0);
                    let len = es@.len() as int;
                    let n0 = old(builder).triangles@.len() as int;
                    &&& fan_over(final(builder).triangles@, n0, apex(*v), es@.subrange(len - k, len).reverse())
                    &&& k == 0 ==> edges_are(
                        r.content,
                        es@.push(TriangleEdge { a: es@[len - 1].b, b: apex(*v), kind: EdgeType::Regular(usize::MAX) }),
                    )
                    &&& k > 0 ==> edges_are(
                        r.content,
                        es@.subrange(0, len - k).push(
                            TriangleEdge { a: es@[len - k].a, b: apex(*v), kind: EdgeType::Regular((n0 + k - 1) as usize) },
                        ),
                    )
                },
            },
    {
        let vp = v.index_point();
        let sort = self.sort;
        let ghost n0 = builder.triangles@.len() as int;
        match self.content {
            Content::Point(point) => {
                let edges = vec![TriangleEdge::border(point, vp)];
                proof {
                    assert(edge_ok(edges@[0], m));
                    assert(edges@ =~= seq![edges@[0]]);
                }
                Section { sort, content: Content::Edges(edges) }
            },
            Content::Edges(edges) => {
                let mut edges = edges;
                let ghost es = edges@;
                let len = edges.len();
                let el = edges[len - 1];
                proof {
                    assert(edge_ok(edges@[len - 1], m));
                }
                if area_two_wide(v.this, el.a.point, el.b.point) <= 0 {
                    let ghost before = edges@;
                    let tail = TriangleEdge::border(el.b, vp);
                    edges.push(tail);
                    proof {
                        lemma_edges_push(before, tail, m);
                        assert(trailing_seen(es, v.this, 0) == 0);
                        assert(es.subrange(len as int, len as int).reverse() =~= Seq::<TriangleEdge>::empty());
                    }
                    return Section { sort, content: Content::Edges(edges) };
                }
                let mut index = builder.insert_triangle_with_neighbor_link(
                    &el,
                    0,
                    IntTriangle::abc(vp, el.a, el.b),
                    Ghost(m),
                );
                let mut ea = el.a;
                let mut n: usize = 1;
                proof {
                    let sub = es.subrange(len - 1, len as int).reverse();
                    assert(sub.len() == 1);
                    assert(sub[0] == es[len - 1]);
                }
                while n < len
                    invariant
                        len == edges@.len(),
                        edges@ == es,
                        1 <= n <= len,
                        edges_ok(edges@, m),
                        vp == apex(*v),
                        vp.index < m,
                        ea.index < m,
                        ea == es[len - n].a,
                        builder.ok(m),
                        index == n0 + n - 1,
                        n0 == old(builder).triangles@.len(),
                        keeps_vertices(old(builder).triangles@, builder.triangles@),
                        fan_over(builder.triangles@, n0, vp, es.subrange(len - n, len as int).reverse()),
                        trailing_seen(es, v.this, 0) == trailing_seen(es, v.this, n as int),
                    ensures
                        n == len || area_two_spec(v.this, es[len - 1 - n].a.point, es[len - 1 - n].b.point) <= 0,
                    decreases len - n,
                {
                    let ei = edges[len - 1 - n];
                    proof {
                        assert(edge_ok(edges@[len - 1 - n], m));
                    }
                    if area_two_wide(v.this, ei.a.point, ei.b.point) <= 0 {
                        break;
                    }
                    ea = ei.a;
                    let mut triangle = IntTriangle::abc(vp, ei.a, ei.b);
                    triangle.set_neighbor(1, index);
                    let prev_index = index;
                    let ghost t0 = builder.triangles@;
                    index = builder.insert_triangle_with_neighbor_link(&ei, 0, triangle, Ghost(m));
                    builder.set_neighbor_of(prev_index, 2, index, Ghost(m));
                    proof {
                        let t2 = builder.triangles@;
                        let prev = es.subrange(len - n, len as int).reverse();
                        let sub = es.subrange(len - n - 1, len as int).reverse();
                        assert(sub.len() == n + 1);
                        assert forall|j: int| 0 <= j < sub.len() implies fan_triangle(t2[n0 + j], vp, #[trigger] sub[j]) by {
                            assert(sub[j] == es[len - 1 - j]);
                            if j < n {
                                assert(prev[j] == es[len - 1 - j]);
                                assert(t2[n0 + j].vertices == t0[n0 + j].vertices);
                            }
                        }
                        assert forall|t: int| 0 <= t < old(builder).triangles@.len() implies (#[trigger] t2[t]).vertices
                            == old(builder).triangles@[t].vertices by {
                            assert(t2[t].vertices == t0[t].vertices);
                        }
                    }
                    n += 1;
                }
                proof {
                    assert(trailing_seen(es, v.this, n as int) == n);
                }
                let ghost before = edges@;
                edges.truncate(len - n);
                proof {
                    assert(edges@ =~= before.subrange(0, len - n));
                    lemma_edges_sub(before, 0, len - n, m);
                }
                let tail = TriangleEdge::regular(ea, vp, index);
                let ghost kept = edges@;
                edges.push(tail);
                proof {
                    lemma_edges_push(kept, tail, m);
                }
                Section { sort, content: Content::Edges(edges) }
            },
        }
    }
}

// ---------------------------------------------------------------------------
// The sweep.

proof fn lemma_net_remove(secs: Seq<Section>, j: int, m: int)
    requires
        net_sections_ok(secs, m),
        0 <= j < secs.len(),
    ensures
        net_sections_ok(secs.remove(j), m),
        content_ok(secs[j].content, m),
{
    let r = secs.remove(j);
    assert forall|k: int| 0 <= k < r.len() implies content_ok(#[trigger] r[k].content, m) by {
        if k < j {
            assert(r[k] == secs[k]);
        } else {
            assert(r[k] == secs[k + 1]);
        }
    }
}

proof fn lemma_net_insert(secs: Seq<Section>, j: int, sec: Section, m: int)
    requires
        net_sections_ok(secs, m),
        0 <= j <= secs.len(),
        content_ok(sec.content, m),
    ensures
        net_sections_ok(secs.insert(j, sec), m),
{
    let r = secs.insert(j, sec);
    assert forall|k: int| 0 <= k < r.len() implies content_ok(#[trigger] r[k].content, m) by {
        if k < j {
            assert(r[k] == secs[k]);
        } else if k == j {
            assert(r[k] == sec);
        } else {
            assert(r[k] == secs[k - 1]);
        }
    }
}

/// Inserts a checked section in sweep order.
fn net_insert(secs: &mut Vec<Section>, sec: Section, Ghost(m): Ghost<int>)
    requires
        net_sections_ok(old(secs)@, m),
        content_ok(sec.content, m),
    ensures
        net_sections_ok(final(secs)@, m),
        final(secs)@ == old(secs)@.insert(insert_position(old(secs)@, sec.sort, 0), sec),
{
    let ghost before = secs@;
    let ghost copy = sec;
    proof {
        lemma_insert_position(before, sec.sort, 0);
    }
    insert_section(secs, sec);
    proof {
        lemma_net_insert(before, insert_position(before, copy.sort, 0), copy, m);
    }
}

impl TrianglesBuilder {
    fn net_end(&mut self, secs: &mut Vec<Section>, v: &ChainVertex, Ghost(m): Ghost<int>) -> (r: bool)
        requires
            old(self).ok(m),
            net_sections_ok(old(secs)@, m),
            v.index < m,
        ensures
            final(self).ok(m),
            net_sections_ok(final(secs)@, m),
            section_for(old(secs)@, *v) < 0 ==> !r && final(secs)@ == old(secs)@,
            section_for(old(secs)@, *v) >= 0 ==> final(secs)@ == old(secs)@.remove(section_for(old(secs)@, *v))
                && r == (old(secs)@[section_for(old(secs)@, *v)].content is Edges),
    {
        proof {
            lemma_first_not_above(secs@, *v, 0);
            assert(secs@.len() == secs.len());
        }
        let j = match find_section(secs, v) {
            Some(j) => j,
            None => {
                return false;
            },
        };
        let ghost before = secs@;
        let sec = secs.remove(j);
        proof {
            lemma_net_remove(before, j as int, m);
        }
        sec.add_as_last(v, self, Ghost(m))
    }

    fn net_split(&mut self, secs: &mut Vec<Section>, v: &ChainVertex, Ghost(m): Ghost<int>) -> (r: bool)
        requires
            old(self).ok(m),
            net_sections_ok(old(secs)@, m),
            v.index < m,
        ensures
            final(self).ok(m),
            net_sections_ok(final(secs)@, m),
            section_for(old(secs)@, *v) < 0 ==> !r && final(secs)@ == old(secs)@,
            section_for(old(secs)@, *v) >= 0 ==> (r <==> !(needs_slot(
                old(secs)@[section_for(old(secs)@, *v)].content,
                v.this,
            ) && old(self).phantom_store.slots().len() >= usize::MAX / 4)),
            section_for(old(secs)@, *v) >= 0 && !r ==> final(secs)@ == old(secs)@.remove(
                section_for(old(secs)@, *v),
            ),
            r ==> final(secs)@.len() == old(secs)@.len() + 1,
    {
        proof {
            lemma_first_not_above(secs@, *v, 0);
            assert(secs@.len() == secs.len());
        }
        let j = match find_section(secs, v) {
            Some(j) => j,
            None => {
                return false;
            },
        };
        let ghost before = secs@;
        let sec = secs.remove(j);
        proof {
            lemma_net_remove(before, j as int, m);
        }
        match sec.add_to_middle(v, self, Ghost(m)) {
            Some((kept, added)) => {
                proof {
                    lemma_net_insert(secs@, j as int, kept, m);
                }
                secs.insert(j, kept);
                proof {
                    lemma_insert_position(secs@, added.sort, 0);
                }
                net_insert(secs, added, Ghost(m));
                true
            },
            None => false,
        }
    }

    fn net_join(&mut self, secs: &mut Vec<Section>, v: &ChainVertex, Ghost(m): Ghost<int>) -> (r: bool)
        requires
            old(self).ok(m),
            net_sections_ok(old(secs)@, m),
            v.index < m,
        ensures
            final(self).ok(m),
            net_sections_ok(final(secs)@, m),
            r == (section_for(old(secs)@, *v) >= 0),
            !r ==> final(secs)@ == old(secs)@,
            r ==> final(secs)@ == old(secs)@.update(
                section_for(old(secs)@, *v),
                final(secs)@[section_for(old(secs)@, *v)],
            ),
            r ==> final(secs)@[section_for(old(secs)@, *v)].sort == if old(secs)@[section_for(
                old(secs)@,
                *v,
            )].sort.b == v.this {
                next_segment(*v)
            } else {
                old(secs)@[section_for(old(secs)@, *v)].sort
            },
    {
        proof {
            lemma_first_not_above(secs@, *v, 0);
            assert(secs@.len() == secs.len());
        }
        let j = match find_section(secs, v) {
            Some(j) => j,
            None => {
                return false;
            },
        };
        let ghost before = secs@;
        let sec = secs.remove(j);
        proof {
            lemma_net_remove(before, j as int, m);
        }
        let joined = if sec.sort.b == v.this {
            let lowered = Section { sort: VSegment { a: v.this, b: v.next }, content: sec.content };
            lowered.add_from_end(v, self, Ghost(m))
        } else {
            sec.add_from_start(v, self, Ghost(m))
        };
        proof {
            lemma_net_insert(secs@, j as int, joined, m);
        }
        secs.insert(j, joined);
        proof {
            assert(secs@ =~= before.update(j as int, joined));
        }
        true
    }

    fn net_merge(&mut self, secs: &mut Vec<Section>, v: &ChainVertex, Ghost(m): Ghost<int>) -> (r: bool)
        requires
            old(self).ok(m),
            net_sections_ok(old(secs)@, m),
            v.index < m,
        ensures
            final(self).ok(m),
            net_sections_ok(final(secs)@, m),
            r == (section_for(old(secs)@, *v) > 0),
            !r ==> final(secs)@ == old(secs)@,
            r ==> final(secs)@.len() == old(secs)@.len() - 1,
            r ==> final(secs)@ == old(secs)@.remove(section_for(old(secs)@, *v)).update(
                section_for(old(secs)@, *v) - 1,
                final(secs)@[section_for(old(secs)@, *v) - 1],
            ),
            r ==> final(secs)@[section_for(old(secs)@, *v) - 1].sort == old(secs)@[section_for(old(secs)@, *v)
                - 1].sort,
    {
        proof {
            lemma_first_not_above(secs@, *v, 0);
            assert(secs@.len() == secs.len());
        }
        let j = match find_section(secs, v) {
            Some(j) => j,
            None => {
                return false;
            },
        };
        if j == 0 {
            return false;
        }
        let ghost s0 = secs@;
        let prev = secs.remove(j);
        proof {
            lemma_net_remove(s0, j as int, m);
        }
        let ghost s1 = secs@;
        let next = secs.remove(j - 1);
        proof {
            lemma_net_remove(s1, j - 1, m);
        }
        let next = next.add_from_start(v, self, Ghost(m));
        let next_sort = next.sort;
        let mut next_edges = match next.content {
            Content::Edges(edges) => edges,
            Content::Point(_) => Vec::new(),
        };
        let prev = prev.add_from_end(v, self, Ghost(m));
        let content = match prev.content {
            Content::Point(point) => Content::Point(point),
            Content::Edges(edges) => {
                let mut edges = edges;
                let ghost head = edges@;
                let ghost tail = next_edges@;
                edges.append(&mut next_edges);
                proof {
                    lemma_edges_concat(head, tail, m);
                }
                Content::Edges(edges)
            },
        };
        let merged = Section { sort: next_sort, content };
        proof {
            lemma_net_insert(secs@, j - 1, merged, m);
        }
        secs.insert(j - 1, merged);
        proof {
            assert(secs@ =~= s0.remove(j as int).update(j - 1, merged));
        }
        true
    }

    fn net_steiner(&mut self, secs: &mut Vec<Section>, v: &ChainVertex, Ghost(m): Ghost<int>) -> (r: bool)
        requires
            old(self).ok(m),
            net_sections_ok(old(secs)@, m),
            v.index < m,
        ensures
            final(self).ok(m),
            net_sections_ok(final(secs)@, m),
            section_for(old(secs)@, *v) < 0 ==> !r && final(secs)@ == old(secs)@,
            section_for(old(secs)@, *v) >= 0 ==> (r <==> !(needs_slot(
                old(secs)@[section_for(old(secs)@, *v)].content,
                v.this,
            ) && old(self).phantom_store.slots().len() >= usize::MAX / 4)),
            section_for(old(secs)@, *v) >= 0 && !r ==> final(secs)@ == old(secs)@.remove(
                section_for(old(secs)@, *v),
            ),
            r ==> final(secs)@ == old(secs)@.update(
                section_for(old(secs)@, *v),
                final(secs)@[section_for(old(secs)@, *v)],
            ),
            r ==> final(secs)@[section_for(old(secs)@, *v)].sort == old(secs)@[section_for(old(secs)@, *v)].sort,
    {
        proof {
            lemma_first_not_above(secs@, *v, 0);
            assert(secs@.len() == secs.len());
        }
        let j = match find_section(secs, v) {
            Some(j) => j,
            None => {
                return false;
            },
        };
        let ghost before = secs@;
        let sec = secs.remove(j);
        proof {
            lemma_net_remove(before, j as int, m);
        }
        let vp = v.index_point();
        match sec.add_steiner(vp, self, Ghost(m)) {
            Some(updated) => {
                proof {
                    lemma_net_insert(secs@, j as int, updated, m);
                }
                secs.insert(j, updated);
                proof {
                    assert(secs@ =~= before.update(j as int, updated));
                }
                true
            },
            None => false,
        }
    }

    /// Triangulates sweep-ordered vertices into linked triangles; the flag
    /// tells whether every vertex found its section.
    pub fn build(vertices: &Vec<ChainVertex>, Ghost(m): Ghost<int>) -> (r: (TrianglesBuilder, bool))
        requires
            forall|k: int| 0 <= k < vertices@.len() ==> (#[trigger] vertices@[k]).index < m,
        ensures
            r.0.ok(m),
            vertices@.len() == 0 ==> r.1 && r.0.triangles@.len() == 0,
            vertices@.len() > 0 && opens_nothing(vertices@[0]) ==> !r.1,
    {
        let mut builder = TrianglesBuilder::new();
        proof {
            assert(builder.ok(m));
        }
        let mut secs: Vec<Section> = Vec::new();
        let mut i: usize = 0;
        while i < vertices.len()
            invariant
                i <= vertices@.len(),
                forall|k: int| 0 <= k < vertices@.len() ==> (#[trigger] vertices@[k]).index < m,
                builder.ok(m),
                net_sections_ok(secs@, m),
                i == 0 ==> secs@.len() == 0 && builder.triangles@.len() == 0,
                i > 0 ==> !opens_nothing(vertices@[0]),
            decreases vertices@.len() - i,
        {
            let v = vertices[i];
            proof {
                if i == 0 {
                    assert(first_not_above(secs@, v, 0) == 0);
                    assert(section_for(secs@, v) < 0);
                }
            }
            proof {
                assert(v.index < m);
            }
            let found = match v.get_type() {
                VertexType::Start => {
                    let sec = Section {
                        sort: VSegment { a: v.this, b: v.next },
                        content: Content::Point(v.index_point()),
                    };
                    net_insert(&mut secs, sec, Ghost(m));
                    true
                },
                VertexType::End => builder.net_end(&mut secs, &v, Ghost(m)),
                VertexType::Merge => builder.net_merge(&mut secs, &v, Ghost(m)),
                VertexType::Split => builder.net_split(&mut secs, &v, Ghost(m)),
                VertexType::Join => builder.net_join(&mut secs, &v, Ghost(m)),
                VertexType::Steiner => builder.net_steiner(&mut secs, &v, Ghost(m)),
            };
            if !found {
                return (builder, false);
            }
            i += 1;
        }
        (builder, true)
    }
}

/// A vertex that needs an open section to go into: anything but a start
/// vertex.
pub open spec fn opens_nothing(v: ChainVertex) -> bool {
    !(v.type_spec() is Start)
}

impl TrianglesBuilder {
    /// Triangulates a contour (with lone points inside it) into linked
    /// triangles whose vertices address the returned points: the points of
    /// the contour and the lone points, each once, in sweep order.
    pub fn contour_triangulation(contour: &Vec<IntPoint>, points: Option<&Vec<IntPoint>>) -> (r: RawIntTriangulation)
        requires
            contour@.len() >= 2,
        ensures
            r.wf(),
            sweep_points(contour_vertices(contour@) + MonotoneTriangulator::lone_vertices(points), r.points@),
    {
        let mut raw = RawIntTriangulation::empty();
        let mut triangulator = MonotoneTriangulator::default();
        triangulator.contour_into_net_triangulation(contour, points, &mut raw);
        proof {
            let vs = triangulator.vertices@;
            assert(sweep_ordered(contour_vertices(contour@) + MonotoneTriangulator::lone_vertices(points), vs)
                && raw.points@ == distinct_points(vs, vs.len() as int));
        }
        raw
    }

    /// Triangulates a shape (with lone points inside it) into linked
    /// triangles whose vertices address the returned points; a shape of
    /// one contour is triangulated as that contour, and an empty shape
    /// gives an empty triangulation.
    pub fn shape_triangulation(shape: &Vec<Vec<IntPoint>>, points: Option<&Vec<IntPoint>>) -> (r: RawIntTriangulation)
        requires
            forall|i: int| 0 <= i < shape@.len() ==> (#[trigger] shape@[i])@.len() >= 2,
        ensures
            r.wf(),
            shape@.len() == 0 ==> r.triangles@.len() == 0 && r.points@.len() == 0,
            shape@.len() > 0 ==> sweep_points(
                shape_vertices(shape@, shape@.len() as int) + MonotoneTriangulator::lone_vertices(points),
                r.points@,
            ),
    {
        if shape.len() <= 1 {
            if shape.len() == 1 {
                proof {
                    assert(shape@[0]@.len() >= 2);
                    assert(shape_vertices(shape@, 0) =~= Seq::<ChainVertex>::empty());
                    assert(shape_vertices(shape@, 1) =~= contour_vertices(shape@[0]@));
                }
                return Self::contour_triangulation(&shape[0], points);
            }
            return RawIntTriangulation::empty();
        }
        let mut raw = RawIntTriangulation::empty();
        let mut triangulator = MonotoneTriangulator::default();
        triangulator.shape_into_net_triangulation(shape, points, &mut raw);
        proof {
            let input = shape_vertices(shape@, shape@.len() as int) + MonotoneTriangulator::lone_vertices(points);
            let last = shape@[shape@.len() - 1]@;
            assert(shape_vertices(shape@, shape@.len() as int) == shape_vertices(shape@, shape@.len() - 1)
                + contour_vertices(last));
            assert(contour_vertices(last).len() == last.len());
            assert(input.len() > 0);
            assert(input != Seq::<ChainVertex>::empty());
            let vs = triangulator.vertices@;
            assert(sweep_ordered(input, vs) && raw.points@ == distinct_points(vs, vs.len() as int));
        }
        raw
    }
}

} // verus!
