//! Splitting triangles of a linked mesh: a triangle and its neighbour
//! across an edge become four around a new point.
use crate::geom::{IndexPoint, IntPoint, IntTriangle};
use vstd::prelude::*;

verus! {

/// A linked mesh: triangles that know their neighbours, over a point
/// buffer.
pub struct IntDelaunay {
    pub triangles: Vec<IntTriangle>,
    pub points: Vec<IntPoint>,
}

/// A vertex of a triangle with its position there and the neighbour
/// across the edge opposite it.
#[derive(Clone, Copy, Debug)]
pub struct AbcVertex {
    pub vertex: IndexPoint,
    pub position: usize,
    pub neighbor: usize,
}

/// A triangle's vertices in turn, starting at `v0`.
#[derive(Clone, Copy, Debug)]
pub struct Abc {
    pub v0: AbcVertex,
    pub v1: AbcVertex,
    pub v2: AbcVertex,
}

/// The vertex at position `k` of `t`.
pub open spec fn abc_vertex(t: IntTriangle, k: int) -> AbcVertex {
    AbcVertex { vertex: t.vertices@[k], position: k as usize, neighbor: t.neighbors@[k] }
}

/// The triangle's vertices in turn, starting at position `k`.
pub open spec fn abc_from(t: IntTriangle, k: int) -> Abc {
    Abc { v0: abc_vertex(t, k), v1: abc_vertex(t, (k + 1) % 3), v2: abc_vertex(t, (k + 2) % 3) }
}

/// The position of the first link of `t` to `neighbor`; 2 when neither
/// of the first two is.
pub open spec fn link_position(t: IntTriangle, neighbor: usize) -> int {
    if t.neighbors@[0] == neighbor {
        0
    } else if t.neighbors@[1] == neighbor {
        1
    } else {
        2
    }
}

/// `t` links to `m`.
pub open spec fn links_to(t: IntTriangle, m: usize) -> bool {
    t.neighbors@[0] == m || t.neighbors@[1] == m || t.neighbors@[2] == m
}

/// Every link of the mesh is answered by a link back.
pub open spec fn links_mutual(ts: Seq<IntTriangle>) -> bool {
    forall|t: int, k: int|
        0 <= t < ts.len() && 0 <= k < 3 && #[trigger] ts[t].neighbors@[k] < ts.len() ==> links_to(
            ts[ts[t].neighbors@[k] as int],
            t as usize,
        )
}

/// Every link of the mesh names one of its triangles or none.
pub open spec fn links_in_range(ts: Seq<IntTriangle>) -> bool {
    forall|t: int, k: int|
        0 <= t < ts.len() && 0 <= k < 3 ==> #[trigger] ts[t].neighbors@[k] < ts.len() || ts[t].neighbors@[k]
            == usize::MAX
}

/// No triangle links twice to the same triangle.
pub open spec fn links_distinct(ts: Seq<IntTriangle>) -> bool {
    forall|t: int, i: int, j: int|
        0 <= t < ts.len() && 0 <= i < j < 3 && #[trigger] ts[t].neighbors@[i] < ts.len() ==> ts[t].neighbors@[i]
            != #[trigger] ts[t].neighbors@[j]
}

/// The mesh's links name its triangles, none twice from one triangle,
/// and every link is answered by a link back.
pub open spec fn mesh_linked(ts: Seq<IntTriangle>) -> bool {
    links_in_range(ts) && links_distinct(ts) && links_mutual(ts)
}

/// The midpoint of `b` and `c`, rounded down.
pub open spec fn mid_point(b: IntPoint, c: IntPoint) -> IntPoint {
    IntPoint { x: ((b.x + c.x) / 2) as i32, y: ((b.y + c.y) / 2) as i32 }
}

/// `p` lies strictly inside the triangle `p0 p1 p2`, of either
/// orientation.
pub open spec fn strictly_inside(p: IntPoint, p0: IntPoint, p1: IntPoint, p2: IntPoint) -> bool {
    let q0 = (p.x - p1.x) * (p0.y - p1.y) - (p.y - p1.y) * (p0.x - p1.x);
    let q1 = (p.x - p2.x) * (p1.y - p2.y) - (p.y - p2.y) * (p1.x - p2.x);
    let q2 = (p.x - p0.x) * (p2.y - p0.y) - (p.y - p0.y) * (p2.x - p0.x);
    &&& !((q0 < 0 || q1 < 0 || q2 < 0) && (q0 > 0 || q1 > 0 || q2 > 0))
    &&& q0 != 0 && q1 != 0 && q2 != 0
}

/// The cross product of `a - o` and `b - o`.
fn cross_from(o: IntPoint, a: IntPoint, b: IntPoint) -> (r: i128)
    ensures
        r == (a.x - o.x) * (b.y - o.y) - (a.y - o.y) * (b.x - o.x),
{
    let ax = a.x as i128 - o.x as i128;
    let ay = a.y as i128 - o.y as i128;
    let bx = b.x as i128 - o.x as i128;
    let by = b.y as i128 - o.y as i128;
    proof {
        assert(-0x1_0000_0000_0000_0000 <= ax * by <= 0x1_0000_0000_0000_0000) by (nonlinear_arith)
            requires
                -0x1_0000_0000 <= ax <= 0x1_0000_0000,
                -0x1_0000_0000 <= by <= 0x1_0000_0000,
        ;
        assert(-0x1_0000_0000_0000_0000 <= ay * bx <= 0x1_0000_0000_0000_0000) by (nonlinear_arith)
            requires
                -0x1_0000_0000 <= ay <= 0x1_0000_0000,
                -0x1_0000_0000 <= bx <= 0x1_0000_0000,
        ;
    }
    ax * by - ay * bx
}

/// Whether `p` lies strictly inside the triangle `p0 p1 p2`.
pub fn is_contain_exclude_borders(p: IntPoint, p0: IntPoint, p1: IntPoint, p2: IntPoint) -> (r: bool)
    ensures
        r == strictly_inside(p, p0, p1, p2),
{
    let q0 = cross_from(p1, p, p0);
    let q1 = cross_from(p2, p, p1);
    let q2 = cross_from(p0, p, p2);
    let has_neg = q0 < 0 || q1 < 0 || q2 < 0;
    let has_pos = q0 > 0 || q1 > 0 || q2 > 0;
    !(has_neg && has_pos) && q0 != 0 && q1 != 0 && q2 != 0
}

/// The midpoint of `b` and `c`, rounded down.
pub fn edge_mid_point(b: IntPoint, c: IntPoint) -> (r: IntPoint)
    ensures
        r == mid_point(b, c),
{
    let sx: i64 = b.x as i64 + c.x as i64;
    let sy: i64 = b.y as i64 + c.y as i64;
    let x: i64 = sx >> 1u32;
    let y: i64 = sy >> 1u32;
    proof {
        assert(sx >> 1u32 == sx / 2) by (bit_vector);
        assert(sy >> 1u32 == sy / 2) by (bit_vector);
    }
    IntPoint { x: x as i32, y: y as i32 }
}

impl IntTriangle {
    /// The triangle's vertices in turn, starting at the one across from
    /// `neighbor` (at the last vertex when neither of the first two links
    /// is to `neighbor`).
    pub fn abc_by_neighbor(&self, neighbor: usize) -> (r: Abc)
        ensures
            r == abc_from(*self, link_position(*self, neighbor)),
    {
        let k: usize = if self.neighbors[0] == neighbor {
            0
        } else if self.neighbors[1] == neighbor {
            1
        } else {
            2
        };
        let k1: usize = (k + 1) % 3;
        let k2: usize = (k + 2) % 3;
        Abc {
            v0: AbcVertex { vertex: self.vertices[k], position: k, neighbor: self.neighbors[k] },
            v1: AbcVertex { vertex: self.vertices[k1], position: k1, neighbor: self.neighbors[k1] },
            v2: AbcVertex { vertex: self.vertices[k2], position: k2, neighbor: self.neighbors[k2] },
        }
    }
}

/// Turns the link of triangle `index` to `old_index` (its last link when
/// neither of the first two is) to `new_index`; nothing when there is no
/// such triangle.
fn update_neighbor(triangles: &mut Vec<IntTriangle>, index: usize, old_index: usize, new_index: usize)
    ensures
        final(triangles)@.len() == old(triangles)@.len(),
        index >= old(triangles)@.len() ==> final(triangles)@ == old(triangles)@,
        index < old(triangles)@.len() ==> {
            let t = old(triangles)@[index as int];
            &&& final(triangles)@[index as int].vertices == t.vertices
            &&& final(triangles)@[index as int].neighbors@ == t.neighbors@.update(link_position(t, old_index), new_index)
            &&& forall|j: int|
                0 <= j < old(triangles)@.len() && j != index ==> #[trigger] final(triangles)@[j] == old(triangles)@[j]
        },
{
    if index >= triangles.len() {
        return;
    }
    let mut t = triangles[index];
    if t.neighbors[0] == old_index {
        t.neighbors[0] = new_index;
    } else if t.neighbors[1] == old_index {
        t.neighbors[1] = new_index;
    } else {
        t.neighbors[2] = new_index;
    }
    triangles.set(index, t);
}


/// The triangles agree in vertices and links.
pub open spec fn same_triangle(a: IntTriangle, b: IntTriangle) -> bool {
    a.vertices@ == b.vertices@ && a.neighbors@ == b.neighbors@
}

/// `t` is `a`, `b` and `c` with links `n0`, `n1` and `n2`.
pub open spec fn triangle_is(t: IntTriangle, a: IndexPoint, b: IndexPoint, c: IndexPoint, n0: usize, n1: usize, n2: usize) -> bool {
    t.vertices@ == seq![a, b, c] && t.neighbors@ == seq![n0, n1, n2]
}

/// The two triangles are neighbours across `abc`'s edge opposite its
/// first vertex, and their other neighbours are distinct triangles, none
/// of them one of the two.
pub open spec fn split_ready(ts: Seq<IntTriangle>, abc_index: int, abc: Abc, pcb_index: int) -> bool {
    let pcb = abc_from(ts[pcb_index], link_position(ts[pcb_index], abc_index as usize));
    let others = seq![abc.v1.neighbor, abc.v2.neighbor, pcb.v1.neighbor, pcb.v2.neighbor];
    &&& 0 <= abc_index < ts.len()
    &&& 0 <= pcb_index < ts.len()
    &&& abc_index != pcb_index
    &&& abc.v0.position < 3
    &&& abc == abc_from(ts[abc_index], abc.v0.position as int)
    &&& abc.v0.neighbor == pcb_index
    &&& links_to(ts[pcb_index], abc_index as usize)
    &&& forall|i: int|
        0 <= i < 4 && #[trigger] others[i] < ts.len() ==> others[i] != abc_index && others[i] != pcb_index
    &&& forall|i: int, j: int|
        0 <= i < j < 4 && #[trigger] others[i] < ts.len() ==> others[i] != #[trigger] others[j]
}

impl IntDelaunay {
    /// Splits triangle `abc` and its neighbour `pcb` across the edge `bc`
    /// at a new point `m`: `p` when it lies strictly inside `pcb`, else the
    /// midpoint of `bc`. `abc` becomes `abm`, `pcb` becomes `pcm`, and
    /// `amc` and `pmb` are added; the neighbours of the old pair are
    /// relinked. Gives the four triangles' positions.
    pub fn split_triangle_with_neighbor(&mut self, abc_index: usize, abc: Abc, pcb_index: usize, p: IntPoint) -> (r: [usize; 4])
        requires
            split_ready(old(self).triangles@, abc_index as int, abc, pcb_index as int),
            mesh_linked(old(self).triangles@),
            old(self).triangles@.len() + 2 <= usize::MAX,
            old(self).points@.len() < usize::MAX,
        ensures
            ({
                let ts = old(self).triangles@;
                let n = ts.len() as usize;
                let pcb = abc_from(ts[pcb_index as int], link_position(ts[pcb_index as int], abc_index));
                let m = if strictly_inside(p, pcb.v0.vertex.point, pcb.v1.vertex.point, pcb.v2.vertex.point) {
                    p
                } else {
                    mid_point(abc.v1.vertex.point, abc.v2.vertex.point)
                };
                let vm = IndexPoint { index: old(self).points@.len() as usize, point: m };
                let fs = final(self).triangles@;
                &&& mesh_linked(fs)
                &&& r@ == seq![abc_index, pcb_index, n, (n + 1) as usize]
                &&& final(self).points@ == old(self).points@.push(m)
                &&& fs.len() == n + 2
                &&& triangle_is(fs[abc_index as int], abc.v0.vertex, abc.v1.vertex, vm, (n + 1) as usize, n, abc.v2.neighbor)
                &&& triangle_is(fs[n as int], abc.v0.vertex, vm, abc.v2.vertex, pcb_index, abc.v1.neighbor, abc_index)
                &&& triangle_is(fs[n + 1], pcb.v0.vertex, vm, pcb.v2.vertex, abc_index, pcb.v1.neighbor, pcb_index)
                &&& triangle_is(fs[pcb_index as int], pcb.v0.vertex, pcb.v1.vertex, vm, n, (n + 1) as usize, pcb.v2.neighbor)
                &&& forall|t: int|
                    0 <= t < n && t != abc_index && t != pcb_index ==> {
                        &&& t == abc.v1.neighbor ==> fs[t].vertices@ == ts[t].vertices@ && fs[t].neighbors@ == ts[t].neighbors@.update(
                            link_position(ts[t], abc_index),
                            n,
                        )
                        &&& t == pcb.v1.neighbor ==> fs[t].vertices@ == ts[t].vertices@ && fs[t].neighbors@ == ts[t].neighbors@.update(
                            link_position(ts[t], pcb_index),
                            (n + 1) as usize,
                        )
                        &&& t != abc.v1.neighbor && t != pcb.v1.neighbor ==> #[trigger] same_triangle(fs[t], ts[t])
                    }
            }),
    {
        let ghost ts = self.triangles@;
        let n = self.triangles.len();
        let pcb = self.triangles[pcb_index].abc_by_neighbor(abc_index);
        let m = if is_contain_exclude_borders(p, pcb.v0.vertex.point, pcb.v1.vertex.point, pcb.v2.vertex.point) {
            p
        } else {
            edge_mid_point(abc.v1.vertex.point, abc.v2.vertex.point)
        };
        let m_index = self.points.len();
        self.points.push(m);
        let vm = IndexPoint { index: m_index, point: m };
        let abm_index = abc_index;
        let pcm_index = pcb_index;
        let amc_index = n;
        let pmb_index = n + 1;
        let abm = IntTriangle { vertices: [abc.v0.vertex, abc.v1.vertex, vm], neighbors: [pmb_index, amc_index, abc.v2.neighbor] };
        let amc = IntTriangle { vertices: [abc.v0.vertex, vm, abc.v2.vertex], neighbors: [pcm_index, abc.v1.neighbor, abm_index] };
        let pmb = IntTriangle { vertices: [pcb.v0.vertex, vm, pcb.v2.vertex], neighbors: [abm_index, pcb.v1.neighbor, pcm_index] };
        let pcm = IntTriangle { vertices: [pcb.v0.vertex, pcb.v1.vertex, vm], neighbors: [amc_index, pmb_index, pcb.v2.neighbor] };
        proof {
            let others = seq![abc.v1.neighbor, abc.v2.neighbor, pcb.v1.neighbor, pcb.v2.neighbor];
            assert(others[0] == abc.v1.neighbor && others[1] == abc.v2.neighbor);
            assert(others[2] == pcb.v1.neighbor && others[3] == pcb.v2.neighbor);
            // The neighbours across abc's other edges link back to abc, so
            // relinking abc.v2's and pcb.v2's to the same index changes nothing.
            if abc.v2.neighbor < n {
                assert(ts[abc_index as int].neighbors@[abc.v2.position as int] == abc.v2.neighbor);
            }
            if pcb.v2.neighbor < n {
                assert(ts[pcb_index as int].neighbors@[pcb.v2.position as int] == pcb.v2.neighbor);
            }
        }
        let ghost s0 = self.triangles@;
        update_neighbor(&mut self.triangles, abc.v1.neighbor, abc_index, amc_index);
        let ghost s1 = self.triangles@;
        update_neighbor(&mut self.triangles, abc.v2.neighbor, abc_index, abm_index);
        let ghost s2 = self.triangles@;
        update_neighbor(&mut self.triangles, pcb.v1.neighbor, pcb_index, pmb_index);
        let ghost s3 = self.triangles@;
        update_neighbor(&mut self.triangles, pcb.v2.neighbor, pcb_index, pcm_index);
        let ghost s4 = self.triangles@;
        self.triangles.set(abm_index, abm);
        self.triangles.set(pcm_index, pcm);
        self.triangles.push(amc);
        self.triangles.push(pmb);
        proof {
            let fs = self.triangles@;
            assert forall|t: int|
                0 <= t < n && t != abc_index && t != pcb_index implies {
                    &&& t == abc.v1.neighbor ==> fs[t].vertices@ == ts[t].vertices@ && fs[t].neighbors@ == ts[t].neighbors@.update(
                        link_position(ts[t], abc_index),
                        n,
                    )
                    &&& t == pcb.v1.neighbor ==> fs[t].vertices@ == ts[t].vertices@ && fs[t].neighbors@ == ts[t].neighbors@.update(
                        link_position(ts[t], pcb_index),
                        (n + 1) as usize,
                    )
                    &&& t != abc.v1.neighbor && t != pcb.v1.neighbor ==> #[trigger] same_triangle(fs[t], ts[t])
                } by {
                assert(fs[t] == s4[t]);
                if t == abc.v2.neighbor {
                    assert(links_to(ts[t], abc_index));
                    assert(ts[t].neighbors@.update(link_position(ts[t], abc_index), abc_index) =~= ts[t].neighbors@);
                }
                if t == pcb.v2.neighbor {
                    assert(links_to(ts[t], pcb_index));
                    assert(ts[t].neighbors@.update(link_position(ts[t], pcb_index), pcb_index) =~= ts[t].neighbors@);
                }
            }
            lemma_split_linked(ts, fs, abc_index as int, abc, pcb_index as int, pcb, IndexPoint { index: m_index, point: m });
        }
        [abm_index, pcm_index, amc_index, pmb_index]
    }
}


/// `fs` is what splitting `abc` and `pcb` of `ts` at `vm` gives.
pub open spec fn split_result(
    ts: Seq<IntTriangle>,
    fs: Seq<IntTriangle>,
    abc_index: int,
    abc: Abc,
    pcb_index: int,
    pcb: Abc,
    vm: IndexPoint,
) -> bool {
    let n = ts.len() as usize;
    &&& split_ready(ts, abc_index, abc, pcb_index)
    &&& mesh_linked(ts)
    &&& pcb == abc_from(ts[pcb_index], link_position(ts[pcb_index], abc_index as usize))
    &&& ts.len() + 2 <= usize::MAX
    &&& fs.len() == ts.len() + 2
    &&& triangle_is(fs[abc_index], abc.v0.vertex, abc.v1.vertex, vm, (n + 1) as usize, n, abc.v2.neighbor)
    &&& triangle_is(fs[n as int], abc.v0.vertex, vm, abc.v2.vertex, pcb_index as usize, abc.v1.neighbor, abc_index as usize)
    &&& triangle_is(fs[n + 1], pcb.v0.vertex, vm, pcb.v2.vertex, abc_index as usize, pcb.v1.neighbor, pcb_index as usize)
    &&& triangle_is(fs[pcb_index], pcb.v0.vertex, pcb.v1.vertex, vm, n, (n + 1) as usize, pcb.v2.neighbor)
    &&& forall|t: int|
        #![trigger fs[t]]
        0 <= t < n && t != abc_index && t != pcb_index ==> {
            &&& t == abc.v1.neighbor ==> fs[t].vertices@ == ts[t].vertices@ && fs[t].neighbors@ == ts[t].neighbors@.update(
                link_position(ts[t], abc_index as usize),
                n,
            )
            &&& t == pcb.v1.neighbor ==> fs[t].vertices@ == ts[t].vertices@ && fs[t].neighbors@ == ts[t].neighbors@.update(
                link_position(ts[t], pcb_index as usize),
                (n + 1) as usize,
            )
            &&& t != abc.v1.neighbor && t != pcb.v1.neighbor ==> same_triangle(fs[t], ts[t])
        }
}

/// Who links to a triangle, in a mesh whose links are answered, is one of
/// the triangle's three neighbours.
proof fn lemma_backlink(ts: Seq<IntTriangle>, x: int, t: int, k: int)
    requires
        links_mutual(ts),
        ts.len() <= usize::MAX,
        0 <= x < ts.len(),
        0 <= t < ts.len(),
        0 <= k < 3,
        ts[t].neighbors@[k] == x,
    ensures
        links_to(ts[x], t as usize),
{
}

/// Who linked to `abc` or `pcb` before the split is one of the pair or a
/// neighbour of the pair.
proof fn lemma_pair_backlinks(ts: Seq<IntTriangle>, abc_index: int, abc: Abc, pcb_index: int, pcb: Abc, t: int, k: int)
    requires
        split_ready(ts, abc_index, abc, pcb_index),
        links_mutual(ts),
        ts.len() + 2 <= usize::MAX,
        pcb == abc_from(ts[pcb_index], link_position(ts[pcb_index], abc_index as usize)),
        0 <= t < ts.len(),
        0 <= k < 3,
    ensures
        ts[t].neighbors@[k] == abc_index ==> t == pcb_index || t == abc.v1.neighbor || t == abc.v2.neighbor,
        ts[t].neighbors@[k] == pcb_index ==> t == abc_index || t == pcb.v1.neighbor || t == pcb.v2.neighbor,
{
    if ts[t].neighbors@[k] == abc_index {
        lemma_backlink(ts, abc_index, t, k);
        let q = abc.v0.position as int;
        assert(ts[abc_index].neighbors@[q] == pcb_index);
        if q == 0 {
            assert(abc.v1.neighbor == ts[abc_index].neighbors@[1]);
            assert(abc.v2.neighbor == ts[abc_index].neighbors@[2]);
        } else if q == 1 {
            assert(abc.v1.neighbor == ts[abc_index].neighbors@[2]);
            assert(abc.v2.neighbor == ts[abc_index].neighbors@[0]);
        } else {
            assert(abc.v1.neighbor == ts[abc_index].neighbors@[0]);
            assert(abc.v2.neighbor == ts[abc_index].neighbors@[1]);
        }
    }
    if ts[t].neighbors@[k] == pcb_index {
        lemma_backlink(ts, pcb_index, t, k);
        let q = link_position(ts[pcb_index], abc_index as usize);
        assert(ts[pcb_index].neighbors@[q] == abc_index);
        if q == 0 {
            assert(pcb.v1.neighbor == ts[pcb_index].neighbors@[1]);
            assert(pcb.v2.neighbor == ts[pcb_index].neighbors@[2]);
        } else if q == 1 {
            assert(pcb.v1.neighbor == ts[pcb_index].neighbors@[2]);
            assert(pcb.v2.neighbor == ts[pcb_index].neighbors@[0]);
        } else {
            assert(pcb.v1.neighbor == ts[pcb_index].neighbors@[0]);
            assert(pcb.v2.neighbor == ts[pcb_index].neighbors@[1]);
        }
    }
}

/// A link of an old triangle other than the pair, after the split: kept,
/// or turned from the pair to a new triangle by a neighbour of the pair.
proof fn lemma_old_link(
    ts: Seq<IntTriangle>,
    fs: Seq<IntTriangle>,
    abc_index: int,
    abc: Abc,
    pcb_index: int,
    pcb: Abc,
    vm: IndexPoint,
    t: int,
    k: int,
)
    requires
        split_result(ts, fs, abc_index, abc, pcb_index, pcb, vm),
        0 <= t < ts.len(),
        t != abc_index,
        t != pcb_index,
        0 <= k < 3,
    ensures
        ({
            let n = ts.len() as int;
            let v = fs[t].neighbors@[k];
            let o = ts[t].neighbors@[k];
            ||| v == o && o != abc_index && o != pcb_index
            ||| t == abc.v1.neighbor && o == abc_index && v == n
            ||| t == pcb.v1.neighbor && o == pcb_index && v == n + 1
            ||| t == abc.v2.neighbor && o == abc_index && v == o
            ||| t == pcb.v2.neighbor && o == pcb_index && v == o
        }),
{
    let n = ts.len() as int;
    let o = ts[t].neighbors@[k];
    let others = seq![abc.v1.neighbor, abc.v2.neighbor, pcb.v1.neighbor, pcb.v2.neighbor];
    assert(others[0] == abc.v1.neighbor && others[1] == abc.v2.neighbor);
    assert(others[2] == pcb.v1.neighbor && others[3] == pcb.v2.neighbor);
    lemma_pair_backlinks(ts, abc_index, abc, pcb_index, pcb, t, k);
    lemma_pair_links(ts, abc_index, abc, pcb_index, pcb);
    if t == abc.v1.neighbor {
        let q = link_position(ts[t], abc_index as usize);
        assert(links_to(ts[t], abc_index as usize));
        assert(ts[t].neighbors@[q] == abc_index);
        assert(others[0] != others[2] && others[0] != others[3]);
        if k != q {
            assert(fs[t].neighbors@[k] == o);
            if o == abc_index {
                if k < q {
                    assert(ts[t].neighbors@[k] != ts[t].neighbors@[q]);
                } else {
                    assert(ts[t].neighbors@[q] != ts[t].neighbors@[k]);
                }
            }
        }
    } else if t == pcb.v1.neighbor {
        let q = link_position(ts[t], pcb_index as usize);
        assert(links_to(ts[t], pcb_index as usize));
        assert(ts[t].neighbors@[q] == pcb_index);
        assert(others[2] != others[0] && others[2] != others[1]);
        if k != q {
            assert(fs[t].neighbors@[k] == o);
            if o == pcb_index {
                if k < q {
                    assert(ts[t].neighbors@[k] != ts[t].neighbors@[q]);
                } else {
                    assert(ts[t].neighbors@[q] != ts[t].neighbors@[k]);
                }
            }
        }
    } else {
        assert(same_triangle(fs[t], ts[t]));
        assert(fs[t].neighbors@[k] == o);
    }
}

/// After a split as `split_triangle_with_neighbor` makes it, a linked
/// mesh stays linked.
proof fn lemma_split_linked(
    ts: Seq<IntTriangle>,
    fs: Seq<IntTriangle>,
    abc_index: int,
    abc: Abc,
    pcb_index: int,
    pcb: Abc,
    vm: IndexPoint,
)
    requires
        split_result(ts, fs, abc_index, abc, pcb_index, pcb, vm),
    ensures
        mesh_linked(fs),
{
    lemma_split_in_range(ts, fs, abc_index, abc, pcb_index, pcb, vm);
    lemma_split_distinct(ts, fs, abc_index, abc, pcb_index, pcb, vm);
    lemma_split_mutual(ts, fs, abc_index, abc, pcb_index, pcb, vm);
}

proof fn lemma_pair_links(ts: Seq<IntTriangle>, abc_index: int, abc: Abc, pcb_index: int, pcb: Abc)
    requires
        split_ready(ts, abc_index, abc, pcb_index),
        mesh_linked(ts),
        ts.len() + 2 <= usize::MAX,
        pcb == abc_from(ts[pcb_index], link_position(ts[pcb_index], abc_index as usize)),
    ensures
        abc.v1.neighbor < ts.len() || abc.v1.neighbor == usize::MAX,
        abc.v2.neighbor < ts.len() || abc.v2.neighbor == usize::MAX,
        pcb.v1.neighbor < ts.len() || pcb.v1.neighbor == usize::MAX,
        pcb.v2.neighbor < ts.len() || pcb.v2.neighbor == usize::MAX,
        abc.v1.neighbor < ts.len() ==> links_to(ts[abc.v1.neighbor as int], abc_index as usize),
        abc.v2.neighbor < ts.len() ==> links_to(ts[abc.v2.neighbor as int], abc_index as usize),
        pcb.v1.neighbor < ts.len() ==> links_to(ts[pcb.v1.neighbor as int], pcb_index as usize),
        pcb.v2.neighbor < ts.len() ==> links_to(ts[pcb.v2.neighbor as int], pcb_index as usize),
{
    assert(ts[abc_index].neighbors@[abc.v1.position as int] == abc.v1.neighbor);
    assert(ts[abc_index].neighbors@[abc.v2.position as int] == abc.v2.neighbor);
    assert(ts[pcb_index].neighbors@[pcb.v1.position as int] == pcb.v1.neighbor);
    assert(ts[pcb_index].neighbors@[pcb.v2.position as int] == pcb.v2.neighbor);
}

proof fn lemma_split_in_range(
    ts: Seq<IntTriangle>,
    fs: Seq<IntTriangle>,
    abc_index: int,
    abc: Abc,
    pcb_index: int,
    pcb: Abc,
    vm: IndexPoint,
)
    requires
        split_result(ts, fs, abc_index, abc, pcb_index, pcb, vm),
    ensures
        links_in_range(fs),
{
    lemma_pair_links(ts, abc_index, abc, pcb_index, pcb);
    let n = ts.len() as int;
    assert forall|t: int, k: int| 0 <= t < fs.len() && 0 <= k < 3 implies #[trigger] fs[t].neighbors@[k] < fs.len()
        || fs[t].neighbors@[k] == usize::MAX by {
        if t < n && t != abc_index && t != pcb_index {
            lemma_old_link(ts, fs, abc_index, abc, pcb_index, pcb, vm, t, k);
            assert(ts[t].neighbors@[k] < n || ts[t].neighbors@[k] == usize::MAX);
        }
    }
}

proof fn lemma_split_distinct(
    ts: Seq<IntTriangle>,
    fs: Seq<IntTriangle>,
    abc_index: int,
    abc: Abc,
    pcb_index: int,
    pcb: Abc,
    vm: IndexPoint,
)
    requires
        split_result(ts, fs, abc_index, abc, pcb_index, pcb, vm),
    ensures
        links_distinct(fs),
{
    lemma_pair_links(ts, abc_index, abc, pcb_index, pcb);
    let n = ts.len() as int;
    let others = seq![abc.v1.neighbor, abc.v2.neighbor, pcb.v1.neighbor, pcb.v2.neighbor];
    assert(others[0] == abc.v1.neighbor && others[1] == abc.v2.neighbor);
    assert(others[2] == pcb.v1.neighbor && others[3] == pcb.v2.neighbor);
    assert forall|t: int, i: int, j: int|
        0 <= t < fs.len() && 0 <= i < j < 3 && #[trigger] fs[t].neighbors@[i] < fs.len() implies fs[t].neighbors@[i]
        != #[trigger] fs[t].neighbors@[j] by {
        if t < n && t != abc_index && t != pcb_index {
            lemma_old_link(ts, fs, abc_index, abc, pcb_index, pcb, vm, t, i);
            lemma_old_link(ts, fs, abc_index, abc, pcb_index, pcb, vm, t, j);
            let oi = ts[t].neighbors@[i];
            let oj = ts[t].neighbors@[j];
            assert(oi < n || oi == usize::MAX);
            assert(oj < n || oj == usize::MAX);
        }
    }
}

proof fn lemma_split_mutual(
    ts: Seq<IntTriangle>,
    fs: Seq<IntTriangle>,
    abc_index: int,
    abc: Abc,
    pcb_index: int,
    pcb: Abc,
    vm: IndexPoint,
)
    requires
        split_result(ts, fs, abc_index, abc, pcb_index, pcb, vm),
    ensures
        links_mutual(fs),
{
    lemma_pair_links(ts, abc_index, abc, pcb_index, pcb);
    let n = ts.len() as int;
    let u1 = abc.v1.neighbor;
    let u2 = abc.v2.neighbor;
    let w1 = pcb.v1.neighbor;
    let w2 = pcb.v2.neighbor;
    let others = seq![u1, u2, w1, w2];
    assert(others[0] == u1 && others[1] == u2 && others[2] == w1 && others[3] == w2);
    assert forall|t: int, k: int|
        0 <= t < fs.len() && 0 <= k < 3 && #[trigger] fs[t].neighbors@[k] < fs.len() implies links_to(
        fs[fs[t].neighbors@[k] as int],
        t as usize,
    ) by {
        let v = fs[t].neighbors@[k];
        if t == abc_index || t == pcb_index || t == n || t == n + 1 {
            if v == u1 && u1 < n {
                let q = link_position(ts[u1 as int], abc_index as usize);
                lemma_old_link(ts, fs, abc_index, abc, pcb_index, pcb, vm, u1 as int, q);
            }
            if v == w1 && w1 < n {
                let q = link_position(ts[w1 as int], pcb_index as usize);
                lemma_old_link(ts, fs, abc_index, abc, pcb_index, pcb, vm, w1 as int, q);
            }
            if v == u2 && u2 < n {
                let q = link_position(ts[u2 as int], abc_index as usize);
                lemma_old_link(ts, fs, abc_index, abc, pcb_index, pcb, vm, u2 as int, q);
            }
            if v == w2 && w2 < n {
                let q = link_position(ts[w2 as int], pcb_index as usize);
                lemma_old_link(ts, fs, abc_index, abc, pcb_index, pcb, vm, w2 as int, q);
            }
        } else {
            lemma_old_link(ts, fs, abc_index, abc, pcb_index, pcb, vm, t, k);
            let o = ts[t].neighbors@[k];
            if v == o && o != abc_index && o != pcb_index {
                assert(o < n);
                assert(links_to(ts[o as int], t as usize));
                let q = choose|q: int| 0 <= q < 3 && ts[o as int].neighbors@[q] == t;
                lemma_old_link(ts, fs, abc_index, abc, pcb_index, pcb, vm, o as int, q);
                assert(fs[o as int].neighbors@[q] == t);
            }
        }
    }
}


/// `abc` has no neighbour across its edge opposite `v0`, and its other
/// neighbours are distinct triangles, neither of them `abc`.
pub open spec fn alone_ready(ts: Seq<IntTriangle>, abc_index: int, abc: Abc) -> bool {
    &&& 0 <= abc_index < ts.len()
    &&& abc.v0.position < 3
    &&& abc == abc_from(ts[abc_index], abc.v0.position as int)
    &&& abc.v0.neighbor >= ts.len()
    &&& abc.v1.neighbor < ts.len() ==> abc.v1.neighbor != abc_index && abc.v1.neighbor != abc.v2.neighbor
    &&& abc.v2.neighbor < ts.len() ==> abc.v2.neighbor != abc_index
}

/// `fs` is what splitting the lone `abc` of `ts` at `vm` gives.
pub open spec fn alone_result(ts: Seq<IntTriangle>, fs: Seq<IntTriangle>, abc_index: int, abc: Abc, vm: IndexPoint) -> bool {
    let n = ts.len() as usize;
    &&& alone_ready(ts, abc_index, abc)
    &&& mesh_linked(ts)
    &&& ts.len() + 1 <= usize::MAX
    &&& fs.len() == ts.len() + 1
    &&& triangle_is(fs[abc_index], abc.v0.vertex, abc.v1.vertex, vm, usize::MAX, n, abc.v2.neighbor)
    &&& triangle_is(fs[n as int], abc.v0.vertex, vm, abc.v2.vertex, usize::MAX, abc.v1.neighbor, abc_index as usize)
    &&& forall|t: int|
        #![trigger fs[t]]
        0 <= t < n && t != abc_index ==> {
            &&& t == abc.v1.neighbor ==> fs[t].vertices@ == ts[t].vertices@ && fs[t].neighbors@ == ts[t].neighbors@.update(
                link_position(ts[t], abc_index as usize),
                n,
            )
            &&& t != abc.v1.neighbor ==> same_triangle(fs[t], ts[t])
        }
}

impl IntDelaunay {
    /// Splits triangle `abc`, which has no neighbour across `bc`, at the
    /// midpoint `m` of `bc`: `abc` becomes `abm` and `amc` is added; the
    /// neighbour across `ca` is relinked. Gives the two triangles'
    /// positions.
    pub fn split_alone_triangle(&mut self, abc_index: usize, abc: Abc) -> (r: [usize; 2])
        requires
            alone_ready(old(self).triangles@, abc_index as int, abc),
            mesh_linked(old(self).triangles@),
            old(self).triangles@.len() + 1 <= usize::MAX,
            old(self).points@.len() < usize::MAX,
        ensures
            ({
                let ts = old(self).triangles@;
                let n = ts.len() as usize;
                let m = mid_point(abc.v1.vertex.point, abc.v2.vertex.point);
                let vm = IndexPoint { index: old(self).points@.len() as usize, point: m };
                let fs = final(self).triangles@;
                &&& mesh_linked(fs)
                &&& r@ == seq![abc_index, n]
                &&& final(self).points@ == old(self).points@.push(m)
                &&& alone_result(ts, fs, abc_index as int, abc, vm)
            }),
    {
        let ghost ts = self.triangles@;
        let n = self.triangles.len();
        let m = edge_mid_point(abc.v1.vertex.point, abc.v2.vertex.point);
        let m_index = self.points.len();
        self.points.push(m);
        let vm = IndexPoint { index: m_index, point: m };
        let abm_index = abc_index;
        let amc_index = n;
        let abm = IntTriangle { vertices: [abc.v0.vertex, abc.v1.vertex, vm], neighbors: [usize::MAX, amc_index, abc.v2.neighbor] };
        let amc = IntTriangle { vertices: [abc.v0.vertex, vm, abc.v2.vertex], neighbors: [usize::MAX, abc.v1.neighbor, abm_index] };
        proof {
            if abc.v2.neighbor < n {
                assert(ts[abc_index as int].neighbors@[abc.v2.position as int] == abc.v2.neighbor);
            }
        }
        update_neighbor(&mut self.triangles, abc.v1.neighbor, abc_index, amc_index);
        let ghost s1 = self.triangles@;
        update_neighbor(&mut self.triangles, abc.v2.neighbor, abc_index, abm_index);
        let ghost s2 = self.triangles@;
        self.triangles.set(abm_index, abm);
        self.triangles.push(amc);
        proof {
            let fs = self.triangles@;
            assert forall|t: int|
                #![trigger fs[t]]
                0 <= t < n && t != abc_index implies {
                    &&& t == abc.v1.neighbor ==> fs[t].vertices@ == ts[t].vertices@ && fs[t].neighbors@ == ts[t].neighbors@.update(
                        link_position(ts[t], abc_index),
                        n,
                    )
                    &&& t != abc.v1.neighbor ==> same_triangle(fs[t], ts[t])
                } by {
                assert(fs[t] == s2[t]);
                if t == abc.v2.neighbor {
                    assert(links_to(ts[t], abc_index));
                    assert(ts[t].neighbors@.update(link_position(ts[t], abc_index), abc_index) =~= ts[t].neighbors@);
                }
            }
            lemma_alone_linked(ts, fs, abc_index as int, abc, vm);
        }
        [abm_index, amc_index]
    }
}

/// A link of an old triangle other than `abc`, after the lone split: kept,
/// or turned from `abc` to `amc` by the neighbour across `ca`.
proof fn lemma_alone_old_link(ts: Seq<IntTriangle>, fs: Seq<IntTriangle>, abc_index: int, abc: Abc, vm: IndexPoint, t: int, k: int)
    requires
        alone_result(ts, fs, abc_index, abc, vm),
        0 <= t < ts.len(),
        t != abc_index,
        0 <= k < 3,
    ensures
        ({
            let n = ts.len() as int;
            let v = fs[t].neighbors@[k];
            let o = ts[t].neighbors@[k];
            ||| v == o && o != abc_index
            ||| t == abc.v1.neighbor && o == abc_index && v == n
            ||| t == abc.v2.neighbor && o == abc_index && v == o
        }),
{
    let o = ts[t].neighbors@[k];
    let q0 = abc.v0.position as int;
    assert(ts[abc_index].neighbors@[q0] == abc.v0.neighbor);
    if o == abc_index {
        lemma_backlink(ts, abc_index, t, k);
        if q0 == 0 {
            assert(abc.v1.neighbor == ts[abc_index].neighbors@[1]);
            assert(abc.v2.neighbor == ts[abc_index].neighbors@[2]);
        } else if q0 == 1 {
            assert(abc.v1.neighbor == ts[abc_index].neighbors@[2]);
            assert(abc.v2.neighbor == ts[abc_index].neighbors@[0]);
        } else {
            assert(abc.v1.neighbor == ts[abc_index].neighbors@[0]);
            assert(abc.v2.neighbor == ts[abc_index].neighbors@[1]);
        }
    }
    if t == abc.v1.neighbor {
        assert(ts[abc_index].neighbors@[abc.v1.position as int] == t);
        let q = link_position(ts[t], abc_index as usize);
        assert(links_to(ts[t], abc_index as usize));
        assert(ts[t].neighbors@[q] == abc_index);
        if k != q {
            assert(fs[t].neighbors@[k] == o);
            if o == abc_index {
                if k < q {
                    assert(ts[t].neighbors@[k] != ts[t].neighbors@[q]);
                } else {
                    assert(ts[t].neighbors@[q] != ts[t].neighbors@[k]);
                }
            }
        }
    } else {
        assert(same_triangle(fs[t], ts[t]));
        assert(fs[t].neighbors@[k] == o);
    }
}

/// After a lone split, a linked mesh stays linked.
proof fn lemma_alone_linked(ts: Seq<IntTriangle>, fs: Seq<IntTriangle>, abc_index: int, abc: Abc, vm: IndexPoint)
    requires
        alone_result(ts, fs, abc_index, abc, vm),
    ensures
        mesh_linked(fs),
{
    let n = ts.len() as int;
    let u1 = abc.v1.neighbor;
    let u2 = abc.v2.neighbor;
    assert(ts[abc_index].neighbors@[abc.v1.position as int] == u1);
    assert(ts[abc_index].neighbors@[abc.v2.position as int] == u2);
    assert(u1 < n || u1 == usize::MAX);
    assert(u2 < n || u2 == usize::MAX);
    assert forall|t: int, k: int| 0 <= t < fs.len() && 0 <= k < 3 implies #[trigger] fs[t].neighbors@[k] < fs.len()
        || fs[t].neighbors@[k] == usize::MAX by {
        if t < n && t != abc_index {
            lemma_alone_old_link(ts, fs, abc_index, abc, vm, t, k);
            assert(ts[t].neighbors@[k] < n || ts[t].neighbors@[k] == usize::MAX);
        }
    }
    assert forall|t: int, i: int, j: int|
        0 <= t < fs.len() && 0 <= i < j < 3 && #[trigger] fs[t].neighbors@[i] < fs.len() implies fs[t].neighbors@[i]
        != #[trigger] fs[t].neighbors@[j] by {
        if t < n && t != abc_index {
            lemma_alone_old_link(ts, fs, abc_index, abc, vm, t, i);
            lemma_alone_old_link(ts, fs, abc_index, abc, vm, t, j);
            let oi = ts[t].neighbors@[i];
            let oj = ts[t].neighbors@[j];
            assert(oi < n || oi == usize::MAX);
            assert(oj < n || oj == usize::MAX);
        }
    }
    assert forall|t: int, k: int|
        0 <= t < fs.len() && 0 <= k < 3 && #[trigger] fs[t].neighbors@[k] < fs.len() implies links_to(
        fs[fs[t].neighbors@[k] as int],
        t as usize,
    ) by {
        let v = fs[t].neighbors@[k];
        if t == abc_index || t == n {
            if v == u1 && u1 < n {
                assert(links_to(ts[u1 as int], abc_index as usize));
                let q = link_position(ts[u1 as int], abc_index as usize);
                lemma_alone_old_link(ts, fs, abc_index, abc, vm, u1 as int, q);
            }
            if v == u2 && u2 < n {
                assert(links_to(ts[u2 as int], abc_index as usize));
                let q = link_position(ts[u2 as int], abc_index as usize);
                lemma_alone_old_link(ts, fs, abc_index, abc, vm, u2 as int, q);
            }
        } else {
            lemma_alone_old_link(ts, fs, abc_index, abc, vm, t, k);
            let o = ts[t].neighbors@[k];
            if v == o && o != abc_index {
                assert(o < n);
                assert(links_to(ts[o as int], t as usize));
                let q = choose|q: int| 0 <= q < 3 && ts[o as int].neighbors@[q] == t;
                lemma_alone_old_link(ts, fs, abc_index, abc, vm, o as int, q);
                assert(fs[o as int].neighbors@[q] == t);
            }
        }
    }
}

} // verus!
