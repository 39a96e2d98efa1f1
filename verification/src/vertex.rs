//! Contour vertices with their neighbours, ordered for a sweep line.
use crate::geom::{area_two_spec, IndexPoint, IntPoint};
use i_key_sort::sort::two_keys::TwoKeysSort;
use vstd::prelude::*;

verus! {

broadcast use {
    vstd::seq_lib::group_to_multiset_ensures,
    vstd::multiset::group_multiset_properties,
    vstd::multiset::group_multiset_axioms,
};

// ---------------------------------------------------------------------------
// Points.

/// Points are ordered by `x`, then by `y`.
pub open spec fn point_lt(a: IntPoint, b: IntPoint) -> bool {
    a.x < b.x || (a.x == b.x && a.y < b.y)
}

/// The placeholder point, at the largest coordinates.
pub open spec fn empty_point() -> IntPoint {
    IntPoint { x: i32::MAX, y: i32::MAX }
}

/// The placeholder point.
pub fn new_empty_point() -> (r: IntPoint)
    ensures
        r == empty_point(),
{
    IntPoint { x: i32::MAX, y: i32::MAX }
}

/// Twice the signed area of the triangle `abc`, computed wide enough for
/// any coordinates.
pub fn area_two_wide(a: IntPoint, b: IntPoint, c: IntPoint) -> (r: i128)
    ensures
        r == area_two_spec(a, b, c),
{
    let abx = b.x as i128 - a.x as i128;
    let aby = b.y as i128 - a.y as i128;
    let acx = c.x as i128 - a.x as i128;
    let acy = c.y as i128 - a.y as i128;
    proof {
        assert(-0x1_0000_0000_0000_0000 <= abx * acy <= 0x1_0000_0000_0000_0000) by (nonlinear_arith)
            requires
                -0x1_0000_0000 <= abx <= 0x1_0000_0000,
                -0x1_0000_0000 <= acy <= 0x1_0000_0000,
        ;
        assert(-0x1_0000_0000_0000_0000 <= aby * acx <= 0x1_0000_0000_0000_0000) by (nonlinear_arith)
            requires
                -0x1_0000_0000 <= aby <= 0x1_0000_0000,
                -0x1_0000_0000 <= acx <= 0x1_0000_0000,
        ;
    }
    abx * acy - aby * acx
}

/// Whether `a` comes before `b` (by `x`, then by `y`).
pub fn point_less(a: IntPoint, b: IntPoint) -> (r: bool)
    ensures
        r == point_lt(a, b),
{
    a.x < b.x || (a.x == b.x && a.y < b.y)
}

// ---------------------------------------------------------------------------
// Chain vertices.

/// How the contour passes through a vertex, seen by a sweep line moving
/// toward larger points.
#[derive(Clone, Copy, Debug, PartialEq, Eq, Structural)]
pub enum VertexType {
    Start,
    End,
    Merge,
    Split,
    Join,
    Steiner,
}

/// A contour vertex with the points before and after it on its contour;
/// a lone (Steiner) point has the placeholder for both.
#[derive(Clone, Copy, Debug)]
pub struct ChainVertex {
    pub index: usize,
    pub this: IntPoint,
    pub next: IntPoint,
    pub prev: IntPoint,
}

impl ChainVertex {
    /// The type of the vertex: Steiner for a lone point; with both
    /// neighbours before it, Merge when they turn clockwise, End otherwise;
    /// with both after it, Split when clockwise, Start otherwise; Join in
    /// between.
    pub open spec fn type_spec(self) -> VertexType {
        let clock_wise = area_two_spec(self.prev, self.this, self.next) < 0;
        if self.prev == empty_point() && self.next == empty_point() {
            VertexType::Steiner
        } else if point_lt(self.prev, self.this) && point_lt(self.next, self.this) {
            if clock_wise {
                VertexType::Merge
            } else {
                VertexType::End
            }
        } else if point_lt(self.this, self.next) && point_lt(self.this, self.prev) {
            if clock_wise {
                VertexType::Split
            } else {
                VertexType::Start
            }
        } else {
            VertexType::Join
        }
    }

    pub fn new(this: IntPoint, next: IntPoint, prev: IntPoint) -> (r: Self)
        ensures
            r == (ChainVertex { index: 0, this, next, prev }),
    {
        ChainVertex { index: 0, this, next, prev }
    }

    /// A lone point.
    pub fn implant(this: IntPoint) -> (r: Self)
        ensures
            r == (ChainVertex { index: 0, this, next: empty_point(), prev: empty_point() }),
    {
        ChainVertex { index: 0, this, next: new_empty_point(), prev: new_empty_point() }
    }

    pub fn get_type(&self) -> (r: VertexType)
        ensures
            r == self.type_spec(),
    {
        let e = new_empty_point();
        if self.prev == e && self.next == e {
            return VertexType::Steiner;
        }
        let clock_wise = area_two_wide(self.prev, self.this, self.next) < 0;
        if point_less(self.prev, self.this) && point_less(self.next, self.this) {
            if clock_wise {
                VertexType::Merge
            } else {
                VertexType::End
            }
        } else if point_less(self.this, self.next) && point_less(self.this, self.prev) {
            if clock_wise {
                VertexType::Split
            } else {
                VertexType::Start
            }
        } else {
            VertexType::Join
        }
    }

    pub fn index_point(&self) -> (r: IndexPoint)
        ensures
            r.index == self.index,
            r.point == self.this,
    {
        IndexPoint::new(self.index, self.this)
    }
}

// ---------------------------------------------------------------------------
// Directions around a shared point.

#[derive(Clone, Copy, Debug, PartialEq, Eq, Structural)]
pub enum DirectionType {
    Next,
    Prev,
}

/// A neighbour point of a vertex, and which neighbour it is.
#[derive(Clone, Copy, Debug, PartialEq, Eq, Structural)]
pub struct Direction {
    pub point: IntPoint,
    pub kind: DirectionType,
}

pub open spec fn sign(v: int) -> int {
    if v > 0 {
        1
    } else if v < 0 {
        -1
    } else {
        0
    }
}

/// The order of directions around the center `c`: directions on the same
/// side of `c` (both before it, or both after it) by the turn they make
/// with `c`; otherwise by `x`, or by `y` when both are on the vertical
/// line through `c`. Negative when `a` comes first.
pub open spec fn clock_order(c: IntPoint, a: IntPoint, b: IntPoint) -> int {
    if (point_lt(a, c) && point_lt(b, c)) || (point_lt(c, a) && point_lt(c, b)) {
        sign(area_two_spec(a, b, c))
    } else if a.x == c.x && b.x == c.x {
        sign(a.y - b.y)
    } else {
        sign(a.x - b.x)
    }
}

proof fn lemma_clock_order_antisym(c: IntPoint, a: IntPoint, b: IntPoint)
    ensures
        clock_order(c, a, b) == -clock_order(c, b, a),
{
    assert(area_two_spec(a, b, c) == -area_two_spec(b, a, c)) by (nonlinear_arith);
}

fn clock_compare(c: IntPoint, a: IntPoint, b: IntPoint) -> (r: i32)
    ensures
        r == clock_order(c, a, b),
{
    if (point_less(a, c) && point_less(b, c)) || (point_less(c, a) && point_less(c, b)) {
        let area = area_two_wide(a, b, c);
        if area > 0 {
            1
        } else if area < 0 {
            -1
        } else {
            0
        }
    } else if a.x == c.x && b.x == c.x {
        if a.y > b.y {
            1
        } else if a.y < b.y {
            -1
        } else {
            0
        }
    } else {
        if a.x > b.x {
            1
        } else if a.x < b.x {
            -1
        } else {
            0
        }
    }
}

/// No direction comes after the one that follows it, around `c`.
pub open spec fn clock_sorted(s: Seq<Direction>, c: IntPoint) -> bool {
    forall|k: int| 0 <= k < s.len() - 1 ==> clock_order(c, #[trigger] s[k].point, s[k + 1].point) <= 0
}

/// Orders directions clockwise around `c` (insertion sort).
fn sort_directions(dirs: &mut Vec<Direction>, c: IntPoint)
    ensures
        final(dirs)@.to_multiset() == old(dirs)@.to_multiset(),
        final(dirs)@.len() == old(dirs)@.len(),
        clock_sorted(final(dirs)@, c),
{
    let n = dirs.len();
    let mut i: usize = 1;
    while i < n
        invariant
            n == dirs@.len(),
            1 <= i || n == 0,
            i <= n || n == 0,
            dirs@.to_multiset() == old(dirs)@.to_multiset(),
            forall|k: int| 0 <= k < i - 1 && k < n - 1 ==> clock_order(c, #[trigger] dirs@[k].point, dirs@[k + 1].point) <= 0,
        decreases n - i,
    {
        let mut j = i;
        while j > 0 && clock_compare(c, dirs[j - 1].point, dirs[j].point) > 0
            invariant
                n == dirs@.len(),
                0 <= j <= i < n,
                dirs@.to_multiset() == old(dirs)@.to_multiset(),
                forall|k: int| 0 <= k < j - 1 ==> clock_order(c, #[trigger] dirs@[k].point, dirs@[k + 1].point) <= 0,
                forall|k: int| j + 1 <= k < i ==> clock_order(c, #[trigger] dirs@[k].point, dirs@[k + 1].point) <= 0,
                j < i ==> clock_order(c, dirs@[j as int].point, dirs@[j + 1].point) < 0,
                0 < j < i ==> clock_order(c, dirs@[j - 1].point, dirs@[j + 1].point) <= 0,
            decreases j,
        {
            let left = dirs[j - 1];
            let right = dirs[j];
            let ghost before = dirs@;
            proof {
                lemma_clock_order_antisym(c, left.point, right.point);
            }
            dirs.set(j - 1, right);
            dirs.set(j, left);
            proof {
                assert(dirs@ == before.update(j - 1, right).update(j as int, left));
            }
            j -= 1;
        }
        i += 1;
    }
}


/// The neighbours of the vertices, in order: each vertex's next point,
/// then its previous point.
pub open spec fn dirs_of(vs: Seq<ChainVertex>) -> Seq<Direction> {
    Seq::new(
        2 * vs.len(),
        |i: int|
            if i % 2 == 0 {
                Direction { point: vs[i / 2].next, kind: DirectionType::Next }
            } else {
                Direction { point: vs[i / 2].prev, kind: DirectionType::Prev }
            },
    )
}

/// The next point given to the `k`-th of `m` vertices sharing the point
/// `c`, from their neighbours `s` sorted around `c`: the neighbours are
/// paired up in turn, a previous point with the next point after it,
/// starting where the sorted list starts with a previous point, or else
/// pairing the last one (when it lies right of `c`) with the first, or
/// else skipping the first next point and closing with it.
pub open spec fn assigned_next(s: Seq<Direction>, c: IntPoint, m: int, k: int) -> IntPoint {
    if s[0].kind == DirectionType::Prev {
        s[2 * k + 1].point
    } else if c.x < s[2 * m - 1].point.x {
        s[2 * k].point
    } else if k < m - 1 {
        s[2 * k + 2].point
    } else {
        s[0].point
    }
}

/// The previous point given to the `k`-th of `m` vertices (see
/// `assigned_next`).
pub open spec fn assigned_prev(s: Seq<Direction>, c: IntPoint, m: int, k: int) -> IntPoint {
    if s[0].kind == DirectionType::Prev {
        s[2 * k].point
    } else if c.x < s[2 * m - 1].point.x {
        if k == 0 {
            s[2 * m - 1].point
        } else {
            s[2 * k - 1].point
        }
    } else if k < m - 1 {
        s[2 * k + 1].point
    } else {
        s[2 * m - 1].point
    }
}

/// The vertices sharing the point of the first one, their neighbours
/// reassigned from the neighbours `s` sorted around that point.
pub open spec fn reassigned(vs: Seq<ChainVertex>, s: Seq<Direction>) -> Seq<ChainVertex> {
    Seq::new(
        vs.len(),
        |k: int|
            ChainVertex {
                index: vs[k].index,
                this: vs[k].this,
                next: assigned_next(s, vs[0].this, vs.len() as int, k),
                prev: assigned_prev(s, vs[0].this, vs.len() as int, k),
            },
    )
}

/// Reorders the neighbours of vertices that share one point so that each
/// vertex gets a previous and a next point adjacent in clockwise order
/// around it.
pub fn sort_in_clockwise_order(vertices: &mut Vec<ChainVertex>)
    requires
        old(vertices)@.len() >= 1,
    ensures
        exists|s: Seq<Direction>|
            s.to_multiset() == dirs_of(old(vertices)@).to_multiset() && s.len() == 2 * old(vertices)@.len()
                && clock_sorted(s, old(vertices)@[0].this) && final(vertices)@ == reassigned(old(vertices)@, s),
{
    let m = vertices.len();
    let ghost vs = vertices@;
    let mut dirs: Vec<Direction> = Vec::new();
    let mut k: usize = 0;
    while k < m
        invariant
            m == vertices@.len(),
            vs == vertices@,
            k <= m,
            dirs@ == dirs_of(vs).subrange(0, 2 * k as int),
        decreases m - k,
    {
        let v = vertices[k];
        dirs.push(Direction { point: v.next, kind: DirectionType::Next });
        dirs.push(Direction { point: v.prev, kind: DirectionType::Prev });
        k += 1;
        proof {
            assert(dirs@ =~= dirs_of(vs).subrange(0, 2 * k as int));
        }
    }
    proof {
        assert(dirs@ =~= dirs_of(vs));
    }
    let c = vertices[0].this;
    sort_directions(&mut dirs, c);
    let ghost s = dirs@;
    let n = dirs.len();
    let ghost target = reassigned(vs, s);
    if dirs[0].kind == DirectionType::Prev {
        let mut k: usize = 0;
        while k < m
            invariant
                m == vertices@.len(),
                n == 2 * m,
                n == dirs@.len(),
                vs.len() == m,
                s == dirs@,
                c == vs[0].this,
                k <= m,
                dirs[0].kind == DirectionType::Prev,
                target == reassigned(vs, s),
                forall|j: int| 0 <= j < k ==> vertices@[j] == #[trigger] target[j],
                forall|j: int| k <= j < m ==> vertices@[j] == #[trigger] vs[j],
            decreases m - k,
        {
            let mut v = vertices[k];
            v.prev = dirs[2 * k].point;
            v.next = dirs[2 * k + 1].point;
            vertices.set(k, v);
            proof {
                assert(target[k as int] == v);
            }
            k += 1;
        }
    } else {
        let last_dir = n - 1;
        let last_prev = dirs[last_dir].point;
        if c.x < last_prev.x {
            let mut prev = last_dir;
            let mut next: usize = 0;
            let mut k: usize = 0;
            while k < m
                invariant
                    m == vertices@.len(),
                    n == 2 * m,
                    n == dirs@.len(),
                    vs.len() == m,
                    s == dirs@,
                    c == vs[0].this,
                    k <= m,
                    next == 2 * k,
                    prev == if k == 0 {
                        n - 1
                    } else {
                        2 * k - 1
                    },
                    dirs[0].kind != DirectionType::Prev,
                    c.x < dirs@[n - 1].point.x,
                    target == reassigned(vs, s),
                    forall|j: int| 0 <= j < k ==> vertices@[j] == #[trigger] target[j],
                    forall|j: int| k <= j < m ==> vertices@[j] == #[trigger] vs[j],
                decreases m - k,
            {
                let mut v = vertices[k];
                v.prev = dirs[prev].point;
                v.next = dirs[next].point;
                vertices.set(k, v);
                proof {
                    assert(target[k as int] == v);
                }
                prev = next + 1;
                next += 2;
                k += 1;
            }
        } else {
            let mut prev: usize = 1;
            let last_vert = m - 1;
            let mut k: usize = 0;
            while k < last_vert
                invariant
                    m == vertices@.len(),
                    last_vert == m - 1,
                    n == 2 * m,
                    n == dirs@.len(),
                    vs.len() == m,
                    s == dirs@,
                    c == vs[0].this,
                    k <= last_vert,
                    prev == 2 * k + 1,
                    dirs[0].kind != DirectionType::Prev,
                    !(c.x < dirs@[n - 1].point.x),
                    target == reassigned(vs, s),
                    forall|j: int| 0 <= j < k ==> vertices@[j] == #[trigger] target[j],
                    forall|j: int| k <= j < m ==> vertices@[j] == #[trigger] vs[j],
                decreases last_vert - k,
            {
                let next = prev + 1;
                let mut v = vertices[k];
                v.prev = dirs[prev].point;
                v.next = dirs[next].point;
                vertices.set(k, v);
                proof {
                    assert(target[k as int] == v);
                }
                prev += 2;
                k += 1;
            }
            let mut vl = vertices[last_vert];
            vl.prev = last_prev;
            vl.next = dirs[0].point;
            vertices.set(last_vert, vl);
            proof {
                assert(target[last_vert as int] == vl);
            }
        }
    }
    proof {
        assert(vertices@ =~= target);
    }
}


// ---------------------------------------------------------------------------
// Sweep line order.

/// The position of the point of vertex `k` among the distinct points met
/// so far: 0 for the first vertex, one more at each change of point.
pub open spec fn point_rank(vs: Seq<ChainVertex>, k: int) -> int
    decreases k,
{
    if k <= 0 {
        0
    } else {
        point_rank(vs, k - 1) + if vs[k].this != vs[k - 1].this {
            1int
        } else {
            0int
        }
    }
}

/// `[i, j)` is a maximal run of vertices on one point.
pub open spec fn point_group(vs: Seq<ChainVertex>, i: int, j: int) -> bool {
    &&& 0 <= i < j <= vs.len()
    &&& (i == 0 || vs[i - 1].this != vs[i].this)
    &&& (j == vs.len() || vs[j].this != vs[i].this)
    &&& forall|k: int| i <= k < j ==> (#[trigger] vs[k]).this == vs[i].this
}

/// `out` is `input` in sweep line order: a permutation `p` of the input,
/// sorted by point, numbered by distinct point; a vertex alone at its point
/// keeps its neighbours, and the neighbours of the vertices of each point
/// shared by several are reordered clockwise around it.
pub open spec fn sweep_ordered(input: Seq<ChainVertex>, out: Seq<ChainVertex>) -> bool {
    exists|p: Seq<ChainVertex>|
        {
            &&& p.to_multiset() == input.to_multiset()
            &&& p.len() == out.len()
            &&& forall|k: int| 0 <= k < out.len() ==> (#[trigger] out[k]).this == p[k].this
            &&& forall|a: int, b: int| 0 <= a < b < out.len() ==> !point_lt(#[trigger] out[b].this, #[trigger] out[a].this)
            &&& forall|k: int| 0 <= k < out.len() ==> (#[trigger] out[k]).index == point_rank(out, k)
            &&& forall|k: int|
                #![trigger out[k]]
                point_group(out, k, k + 1) ==> out[k].next == p[k].next && out[k].prev == p[k].prev
            &&& forall|i: int, j: int|
                #![trigger point_group(out, i, j)]
                point_group(out, i, j) && j - i >= 2 ==> exists|s: Seq<Direction>|
                    s.to_multiset() == dirs_of(p.subrange(i, j)).to_multiset() && s.len() == 2 * (j - i)
                        && clock_sorted(s, out[i].this) && forall|k: int|
                        0 <= k < j - i ==> (#[trigger] out[i + k]).next == assigned_next(s, out[i].this, j - i, k)
                            && out[i + k].prev == assigned_prev(s, out[i].this, j - i, k)
        }
}

/// The points of a sweep over the vertices `input`: each point once, in
/// sweep order.
pub open spec fn sweep_points(input: Seq<ChainVertex>, points: Seq<IntPoint>) -> bool {
    exists|vs: Seq<ChainVertex>| sweep_ordered(input, vs) && points == distinct_points(vs, vs.len() as int)
}

/// i_key_sort's `TwoKeysSort::sort_by_two_keys`, with a vertex's `x` and
/// `y` as the two keys: the documentation describes a lexicographic sort
/// by the two keys; the result is a permutation of the input.
#[verifier::external_body]
fn sort_by_point(vertices: &mut Vec<ChainVertex>)
    ensures
        final(vertices)@.to_multiset() == old(vertices)@.to_multiset(),
        final(vertices)@.len() == old(vertices)@.len(),
        forall|a: int, b: int|
            0 <= a < b < final(vertices)@.len() ==> !point_lt(
                #[trigger] final(vertices)@[b].this,
                #[trigger] final(vertices)@[a].this,
            ),
{
    vertices.sort_by_two_keys(false, |v: &ChainVertex| v.this.x, |v: &ChainVertex| v.this.y);
}

/// Orders the vertices for a sweep line: by point, numbering the distinct
/// points, and with the neighbours around each shared point in clockwise
/// order.
pub fn sort_by_swipe_line(vertices: &mut Vec<ChainVertex>)
    requires
        old(vertices)@.len() >= 1,
        forall|k: int| 0 <= k < old(vertices)@.len() ==> (#[trigger] old(vertices)@[k]).index == 0,
    ensures
        sweep_ordered(old(vertices)@, final(vertices)@),
{
    sort_by_point(vertices);
    let ghost p = vertices@;
    let n = vertices.len();
    proof {
        assert(p.contains(p[0]));
        assert(p.to_multiset().count(p[0]) > 0);
        assert(old(vertices)@.to_multiset().count(p[0]) > 0);
        assert(old(vertices)@.contains(p[0]));
    }
    // Number the distinct points.
    let mut k: usize = 1;
    while k < n
        invariant
            n == vertices@.len(),
            p.len() == n,
            1 <= k <= n,
            vertices@[0].index == 0,
            forall|j: int| 0 <= j < n ==> (#[trigger] vertices@[j]).this == p[j].this && vertices@[j].next
                == p[j].next && vertices@[j].prev == p[j].prev,
            forall|j: int| 0 <= j < k ==> (#[trigger] vertices@[j]).index == point_rank(vertices@, j),
            forall|j: int| 0 <= j < k ==> (#[trigger] point_rank(vertices@, j)) <= j,
        decreases n - k,
    {
        let prev = vertices[k - 1];
        let mut v = vertices[k];
        let ghost before = vertices@;
        if v.this != prev.this {
            v.index = prev.index + 1;
        } else {
            v.index = prev.index;
        }
        vertices.set(k, v);
        proof {
            assert forall|j: int| 0 <= j <= k implies point_rank(vertices@, j) == point_rank(before, j) by {
                lemma_rank_same_points(before, vertices@, j);
            }
        }
        k += 1;
    }
    let ghost q = vertices@;
    // Reorder the neighbours around each shared point.
    let mut i: usize = 0;
    while i < n
        invariant
            n == vertices@.len(),
            q.len() == n,
            p.len() == n,
            i <= n,
            i == 0 || i == n || q[i - 1].this != q[i as int].this,
            forall|j: int| 0 <= j < n ==> (#[trigger] q[j]).this == p[j].this && q[j].next == p[j].next && q[j].prev
                == p[j].prev,
            forall|j: int| 0 <= j < n ==> (#[trigger] vertices@[j]).this == q[j].this && vertices@[j].index
                == q[j].index,
            forall|j: int| i <= j < n ==> #[trigger] vertices@[j] == q[j],
            forall|j: int| 0 <= j < i && point_group(q, j, j + 1) ==> (#[trigger] vertices@[j]).next == p[j].next
                && vertices@[j].prev == p[j].prev,
            forall|a: int, b: int|
                #![trigger point_group(q, a, b)]
                point_group(q, a, b) && b <= i && b - a >= 2 ==> exists|s: Seq<Direction>|
                    s.to_multiset() == dirs_of(p.subrange(a, b)).to_multiset() && s.len() == 2 * (b - a)
                        && clock_sorted(s, q[a].this) && forall|k: int|
                        0 <= k < b - a ==> (#[trigger] vertices@[a + k]).next == assigned_next(s, q[a].this, b - a, k)
                            && vertices@[a + k].prev == assigned_prev(s, q[a].this, b - a, k),
        decreases n - i,
    {
        let mut j = i + 1;
        let c = vertices[i].this;
        while j < n && vertices[j].this == c
            invariant
                n == vertices@.len(),
                i < j <= n,
                forall|t: int| i <= t < n ==> #[trigger] vertices@[t] == q[t],
                c == q[i as int].this,
                forall|t: int| i <= t < j ==> (#[trigger] q[t]).this == c,
            decreases n - j,
        {
            j += 1;
        }
        proof {
            assert(point_group(q, i as int, j as int));
        }
        if j - i >= 2 {
            let mut group: Vec<ChainVertex> = Vec::new();
            let mut t = i;
            while t < j
                invariant
                    n == vertices@.len(),
                    i <= t <= j <= n,
                    group@ == vertices@.subrange(i as int, t as int),
                decreases j - t,
            {
                group.push(vertices[t]);
                t += 1;
                proof {
                    assert(group@ =~= vertices@.subrange(i as int, t as int));
                }
            }
            let ghost g0 = group@;
            sort_in_clockwise_order(&mut group);
            let ghost before = vertices@;
            let mut t = i;
            while t < j
                invariant
                    n == vertices@.len(),
                    i <= t <= j <= n,
                    group@.len() == j - i,
                    forall|u: int| 0 <= u < i || j <= u < n ==> #[trigger] vertices@[u] == before[u],
                    forall|u: int| t <= u < j ==> #[trigger] vertices@[u] == before[u],
                    forall|u: int| i <= u < t ==> #[trigger] vertices@[u] == group@[u - i],
                decreases j - t,
            {
                vertices.set(t, group[t - i]);
                t += 1;
            }
            proof {
                let s = choose|s: Seq<Direction>|
                    s.to_multiset() == dirs_of(g0).to_multiset() && s.len() == 2 * g0.len() && clock_sorted(
                        s,
                        g0[0].this,
                    ) && group@ == reassigned(g0, s);
                assert(g0 =~= q.subrange(i as int, j as int));
                assert(dirs_of(g0) =~= dirs_of(p.subrange(i as int, j as int)));
                assert forall|k: int| 0 <= k < j - i implies (#[trigger] vertices@[i + k]).next == assigned_next(
                    s,
                    q[i as int].this,
                    j - i,
                    k,
                ) && vertices@[i + k].prev == assigned_prev(s, q[i as int].this, j - i, k) by {
                    assert(vertices@[i + k] == group@[k]);
                }
                assert forall|a: int, b: int|
                    #![trigger point_group(q, a, b)]
                    point_group(q, a, b) && b <= j && b - a >= 2 implies exists|s: Seq<Direction>|
                        s.to_multiset() == dirs_of(p.subrange(a, b)).to_multiset() && s.len() == 2 * (b - a)
                            && clock_sorted(s, q[a].this) && forall|k: int|
                            0 <= k < b - a ==> (#[trigger] vertices@[a + k]).next == assigned_next(
                                s,
                                q[a].this,
                                b - a,
                                k,
                            ) && vertices@[a + k].prev == assigned_prev(s, q[a].this, b - a, k) by {
                    if b <= i {
                        let s0 = choose|s0: Seq<Direction>|
                            s0.to_multiset() == dirs_of(p.subrange(a, b)).to_multiset() && s0.len() == 2 * (b - a)
                                && clock_sorted(s0, q[a].this) && forall|k: int|
                                0 <= k < b - a ==> (#[trigger] before[a + k]).next == assigned_next(
                                    s0,
                                    q[a].this,
                                    b - a,
                                    k,
                                ) && before[a + k].prev == assigned_prev(s0, q[a].this, b - a, k);
                        assert forall|k: int| 0 <= k < b - a implies (#[trigger] vertices@[a + k]).next
                            == assigned_next(s0, q[a].this, b - a, k) && vertices@[a + k].prev == assigned_prev(
                            s0,
                            q[a].this,
                            b - a,
                            k,
                        ) by {
                            assert(vertices@[a + k] == before[a + k]);
                        }
                    } else {
                        lemma_groups_meet(q, a, b, i as int, j as int);
                    }
                }
            }
        }
        proof {
            assert forall|u: int| 0 <= u < j && point_group(q, u, u + 1) implies (#[trigger] vertices@[u]).next
                == p[u].next && vertices@[u].prev == p[u].prev by {
                if u >= i {
                    if j - i >= 2 {
                        lemma_groups_meet(q, u, u + 1, i as int, j as int);
                    }
                    assert(vertices@[u] == q[u]);
                }
            }
        }
        i = j;
    }
    proof {
        assert forall|k: int| 0 <= k < n implies point_rank(vertices@, k) == point_rank(q, k) by {
            lemma_rank_same_points(q, vertices@, k);
        }
        assert forall|a: int, b: int| #[trigger] point_group(vertices@, a, b) == point_group(q, a, b) by {
            lemma_group_same_points(q, vertices@, a, b);
        }
        let out = vertices@;
        assert(p.to_multiset() == old(vertices)@.to_multiset());
        assert forall|k: int| 0 <= k < out.len() implies (#[trigger] out[k]).index == point_rank(out, k) by {}
        assert forall|k: int| #![trigger out[k]] point_group(out, k, k + 1) implies out[k].next == p[k].next
            && out[k].prev == p[k].prev by {
            assert(point_group(q, k, k + 1));
        }
        assert forall|a: int, b: int|
            #![trigger point_group(out, a, b)]
            point_group(out, a, b) && b - a >= 2 implies exists|s: Seq<Direction>|
                s.to_multiset() == dirs_of(p.subrange(a, b)).to_multiset() && s.len() == 2 * (b - a)
                    && clock_sorted(s, out[a].this) && forall|k: int|
                    0 <= k < b - a ==> (#[trigger] out[a + k]).next == assigned_next(s, out[a].this, b - a, k)
                        && out[a + k].prev == assigned_prev(s, out[a].this, b - a, k) by {
            assert(point_group(q, a, b));
            assert(out[a].this == q[a].this);
        }
    }
}

/// Ranks depend on the points only.
proof fn lemma_rank_same_points(a: Seq<ChainVertex>, b: Seq<ChainVertex>, k: int)
    requires
        a.len() == b.len(),
        k < a.len(),
        forall|j: int| 0 <= j < a.len() ==> (#[trigger] a[j]).this == b[j].this,
    ensures
        point_rank(a, k) == point_rank(b, k),
    decreases k,
{
    if k > 0 {
        lemma_rank_same_points(a, b, k - 1);
        assert(a[k].this == b[k].this);
        assert(a[k - 1].this == b[k - 1].this);
    }
}

/// Runs on one point depend on the points only.
proof fn lemma_group_same_points(a: Seq<ChainVertex>, b: Seq<ChainVertex>, i: int, j: int)
    requires
        a.len() == b.len(),
        forall|t: int| 0 <= t < a.len() ==> (#[trigger] a[t]).this == b[t].this,
    ensures
        point_group(a, i, j) == point_group(b, i, j),
{
    if 0 <= i < j <= a.len() {
        assert(a[i].this == b[i].this);
        if i > 0 {
            assert(a[i - 1].this == b[i - 1].this);
        }
        if j < a.len() {
            assert(a[j].this == b[j].this);
        }
        if forall|k: int| i <= k < j ==> (#[trigger] a[k]).this == a[i].this {
            assert forall|k: int| i <= k < j implies (#[trigger] b[k]).this == b[i].this by {
                assert(a[k].this == a[i].this);
            }
        }
        if forall|k: int| i <= k < j ==> (#[trigger] b[k]).this == b[i].this {
            assert forall|k: int| i <= k < j implies (#[trigger] a[k]).this == a[i].this by {
                assert(b[k].this == b[i].this);
            }
        }
    }
}

/// Two maximal runs that overlap are the same run.
proof fn lemma_groups_meet(q: Seq<ChainVertex>, a: int, b: int, i: int, j: int)
    requires
        point_group(q, a, b),
        point_group(q, i, j),
        a < j,
        i < b,
    ensures
        a == i && b == j,
{
    let m = if a < i {
        i
    } else {
        a
    };
    assert(q[m].this == q[a].this);
    assert(q[m].this == q[i].this);
    if a < i {
        assert(q[i - 1].this == q[a].this);
    }
    if i < a {
        assert(q[a - 1].this == q[i].this);
    }
    if b < j {
        assert(q[b].this == q[i].this);
    }
    if j < b {
        assert(q[j].this == q[a].this);
    }
}


// ---------------------------------------------------------------------------
// Building the vertex list.

/// The vertices of a closed contour of at least two points: vertex `i`
/// sits on the point before point `i`, with point `i` next and the point
/// before it previous.
pub open spec fn contour_vertices(c: Seq<IntPoint>) -> Seq<ChainVertex> {
    Seq::new(
        c.len(),
        |i: int|
            ChainVertex {
                index: 0,
                this: c[if i == 0 {
                    c.len() - 1
                } else {
                    i - 1
                }],
                next: c[i],
                prev: c[if i >= 2 {
                    i - 2
                } else {
                    i + c.len() - 2
                }],
            },
    )
}

/// Lone points as vertices.
pub open spec fn steiner_vertices(points: Seq<IntPoint>) -> Seq<ChainVertex> {
    Seq::new(
        points.len(),
        |i: int| ChainVertex { index: 0, this: points[i], next: empty_point(), prev: empty_point() },
    )
}

/// The vertices of all the contours of a shape, contour by contour.
pub open spec fn shape_vertices(shape: Seq<Vec<IntPoint>>, k: int) -> Seq<ChainVertex>
    decreases k,
{
    if k <= 0 {
        Seq::empty()
    } else {
        shape_vertices(shape, k - 1) + contour_vertices(shape[k - 1]@)
    }
}

/// Appends the vertices of a contour (at least two points).
pub fn add_contour(vertices: &mut Vec<ChainVertex>, contour: &Vec<IntPoint>)
    requires
        contour@.len() >= 2,
    ensures
        final(vertices)@ == old(vertices)@ + contour_vertices(contour@),
{
    let n = contour.len();
    let mut prev = contour[n - 2];
    let mut this = contour[n - 1];
    let mut i: usize = 0;
    let ghost start = vertices@;
    while i < n
        invariant
            n == contour@.len(),
            n >= 2,
            i <= n,
            vertices@ == start + contour_vertices(contour@).subrange(0, i as int),
            this == contour@[if i == 0 {
                n - 1
            } else {
                i - 1
            }],
            prev == contour@[if i >= 2 {
                i - 2
            } else {
                i + n - 2
            }],
        decreases n - i,
    {
        let next = contour[i];
        vertices.push(ChainVertex::new(this, next, prev));
        prev = this;
        this = next;
        i += 1;
        proof {
            assert(vertices@ =~= start + contour_vertices(contour@).subrange(0, i as int));
        }
    }
    proof {
        assert(contour_vertices(contour@).subrange(0, n as int) =~= contour_vertices(contour@));
    }
}

/// Appends lone points.
pub fn add_steiner_points(vertices: &mut Vec<ChainVertex>, points: &Vec<IntPoint>)
    ensures
        final(vertices)@ == old(vertices)@ + steiner_vertices(points@),
{
    let ghost start = vertices@;
    let mut i: usize = 0;
    while i < points.len()
        invariant
            i <= points@.len(),
            vertices@ == start + steiner_vertices(points@).subrange(0, i as int),
        decreases points@.len() - i,
    {
        vertices.push(ChainVertex::implant(points[i]));
        i += 1;
        proof {
            assert(vertices@ =~= start + steiner_vertices(points@).subrange(0, i as int));
        }
    }
    proof {
        assert(steiner_vertices(points@).subrange(0, points@.len() as int) =~= steiner_vertices(points@));
    }
}

/// The points of the vertices, one per run of equal numbers (the first
/// vertex starts a run unless its number is `usize::MAX`).
pub open spec fn distinct_points(vs: Seq<ChainVertex>, k: int) -> Seq<IntPoint>
    decreases k,
{
    if k <= 0 {
        Seq::empty()
    } else {
        let before = if k - 1 == 0 {
            usize::MAX
        } else {
            vs[k - 2].index
        };
        distinct_points(vs, k - 1) + if vs[k - 1].index != before {
            seq![vs[k - 1].this]
        } else {
            Seq::empty()
        }
    }
}

/// Replaces `points` with the point of each distinct vertex number.
pub fn feed_points(vertices: &Vec<ChainVertex>, points: &mut Vec<IntPoint>)
    ensures
        final(points)@ == distinct_points(vertices@, vertices@.len() as int),
{
    points.clear();
    let mut index = usize::MAX;
    let mut i: usize = 0;
    while i < vertices.len()
        invariant
            i <= vertices@.len(),
            points@ == distinct_points(vertices@, i as int),
            index == if i == 0 {
                usize::MAX
            } else {
                vertices@[i - 1].index
            },
        decreases vertices@.len() - i,
    {
        let v = vertices[i];
        let ghost before = points@;
        if v.index != index {
            index = v.index;
            points.push(v.this);
        } else {
            index = v.index;
        }
        i += 1;
        proof {
            assert(points@ =~= distinct_points(vertices@, i as int));
        }
    }
}

/// Every vertex of the list is numbered 0, as built.
pub open spec fn unnumbered(vs: Seq<ChainVertex>) -> bool {
    forall|k: int| 0 <= k < vs.len() ==> (#[trigger] vs[k]).index == 0
}

proof fn lemma_built_unnumbered(a: Seq<ChainVertex>, b: Seq<IntPoint>)
    ensures
        unnumbered(contour_vertices(b)),
        unnumbered(steiner_vertices(b)),
{
}

proof fn lemma_unnumbered_append(a: Seq<ChainVertex>, b: Seq<ChainVertex>)
    requires
        unnumbered(a),
        unnumbered(b),
    ensures
        unnumbered(a + b),
{
    assert forall|k: int| 0 <= k < (a + b).len() implies (#[trigger] (a + b)[k]).index == 0 by {
        if k < a.len() {
            assert((a + b)[k] == a[k]);
        } else {
            assert((a + b)[k] == b[k - a.len()]);
        }
    }
}

/// Builds sweep line vertices from contours and lone points.
pub struct ChainBuilder;

impl ChainBuilder {
    /// The vertices of a contour (at least two points) and of the lone
    /// points, in sweep line order.
    pub fn contour_to_vertices(contour: &Vec<IntPoint>, points: Option<&Vec<IntPoint>>, vertices: &mut Vec<ChainVertex>)
        requires
            contour@.len() >= 2,
        ensures
            sweep_ordered(
                contour_vertices(contour@) + match points {
                    Some(ps) => steiner_vertices(ps@),
                    None => Seq::empty(),
                },
                final(vertices)@,
            ),
    {
        vertices.clear();
        add_contour(vertices, contour);
        proof {
            assert(vertices@ =~= contour_vertices(contour@));
            lemma_built_unnumbered(vertices@, contour@);
        }
        match points {
            Some(ps) => {
                add_steiner_points(vertices, ps);
                proof {
                    lemma_built_unnumbered(vertices@, ps@);
                    lemma_unnumbered_append(contour_vertices(contour@), steiner_vertices(ps@));
                }
            },
            None => {
                proof {
                    assert(vertices@ =~= contour_vertices(contour@) + Seq::<ChainVertex>::empty());
                }
            },
        }
        sort_by_swipe_line(vertices);
    }

    /// The vertices of the contours of a shape (each of at least two
    /// points) and of the lone points, in sweep line order.
    pub fn shape_to_vertices(shape: &Vec<Vec<IntPoint>>, points: Option<&Vec<IntPoint>>, vertices: &mut Vec<ChainVertex>)
        requires
            forall|i: int| 0 <= i < shape@.len() ==> (#[trigger] shape@[i])@.len() >= 2,
            shape@.len() > 0 || (points matches Some(ps) && ps@.len() > 0),
        ensures
            sweep_ordered(
                shape_vertices(shape@, shape@.len() as int) + match points {
                    Some(ps) => steiner_vertices(ps@),
                    None => Seq::empty(),
                },
                final(vertices)@,
            ),
    {
        vertices.clear();
        let mut i: usize = 0;
        while i < shape.len()
            invariant
                i <= shape@.len(),
                forall|t: int| 0 <= t < shape@.len() ==> (#[trigger] shape@[t])@.len() >= 2,
                vertices@ == shape_vertices(shape@, i as int),
                unnumbered(vertices@),
                i > 0 ==> vertices@.len() >= 2,
            decreases shape@.len() - i,
        {
            let ghost before = vertices@;
            add_contour(vertices, &shape[i]);
            proof {
                lemma_built_unnumbered(before, shape@[i as int]@);
                lemma_unnumbered_append(before, contour_vertices(shape@[i as int]@));
            }
            i += 1;
        }
        match points {
            Some(ps) => {
                let ghost before = vertices@;
                add_steiner_points(vertices, ps);
                proof {
                    lemma_built_unnumbered(before, ps@);
                    lemma_unnumbered_append(before, steiner_vertices(ps@));
                }
            },
            None => {
                proof {
                    assert(vertices@ =~= vertices@ + Seq::<ChainVertex>::empty());
                }
            },
        }
        sort_by_swipe_line(vertices);
    }
}


/// The vertices of a path, or none when it has fewer than three points.
pub open spec fn path_vertices(c: Seq<IntPoint>) -> Seq<ChainVertex> {
    if c.len() >= 3 {
        contour_vertices(c)
    } else {
        Seq::empty()
    }
}

/// The vertices of the first `k` paths of a shape that have at least
/// three points.
pub open spec fn shape_path_vertices(shape: Seq<Vec<IntPoint>>, k: int) -> Seq<ChainVertex>
    decreases k,
{
    if k <= 0 {
        Seq::empty()
    } else {
        shape_path_vertices(shape, k - 1) + path_vertices(shape[k - 1]@)
    }
}

/// Appends the vertices of a path, skipping paths of fewer than three
/// points.
fn add_path(vertices: &mut Vec<ChainVertex>, path: &Vec<IntPoint>)
    requires
        unnumbered(old(vertices)@),
    ensures
        final(vertices)@ == old(vertices)@ + path_vertices(path@),
        unnumbered(final(vertices)@),
{
    if path.len() < 3 {
        proof {
            assert(vertices@ =~= vertices@ + path_vertices(path@));
        }
        return;
    }
    let ghost before = vertices@;
    add_contour(vertices, path);
    proof {
        lemma_built_unnumbered(before, path@);
        lemma_unnumbered_append(before, contour_vertices(path@));
    }
}

/// Sweep line vertices of contours, with or without lone points.
pub trait ToChainVertices {
    /// The vertices built from `self` and the lone `points`, before ordering.
    spec fn chain_input(&self, points: Seq<IntPoint>) -> Seq<ChainVertex>;

    fn to_chain_vertices(&self) -> (r: Vec<ChainVertex>)
        requires
            self.chain_input(Seq::empty()).len() > 0,
        ensures
            sweep_ordered(self.chain_input(Seq::empty()), r@),
    ;

    fn to_chain_vertices_with_steiner_points(&self, points: &Vec<IntPoint>) -> (r: Vec<ChainVertex>)
        requires
            self.chain_input(points@).len() > 0,
        ensures
            sweep_ordered(self.chain_input(points@), r@),
    ;
}

impl ToChainVertices for Vec<IntPoint> {
    open spec fn chain_input(&self, points: Seq<IntPoint>) -> Seq<ChainVertex> {
        path_vertices(self@) + steiner_vertices(points)
    }

    fn to_chain_vertices(&self) -> (r: Vec<ChainVertex>) {
        let mut vertices: Vec<ChainVertex> = Vec::new();
        add_path(&mut vertices, self);
        proof {
            assert(vertices@ =~= path_vertices(self@) + steiner_vertices(Seq::empty()));
        }
        sort_by_swipe_line(&mut vertices);
        vertices
    }

    fn to_chain_vertices_with_steiner_points(&self, points: &Vec<IntPoint>) -> (r: Vec<ChainVertex>) {
        let mut vertices: Vec<ChainVertex> = Vec::new();
        add_path(&mut vertices, self);
        let ghost before = vertices@;
        add_steiner_points(&mut vertices, points);
        proof {
            assert(vertices@ =~= path_vertices(self@) + steiner_vertices(points@));
            lemma_built_unnumbered(before, points@);
            lemma_unnumbered_append(before, steiner_vertices(points@));
        }
        sort_by_swipe_line(&mut vertices);
        vertices
    }
}

/// Appends the vertices of every path of a shape with at least three points.
fn add_shape_paths(vertices: &mut Vec<ChainVertex>, shape: &Vec<Vec<IntPoint>>)
    requires
        old(vertices)@.len() == 0,
    ensures
        final(vertices)@ == shape_path_vertices(shape@, shape@.len() as int),
        unnumbered(final(vertices)@),
{
    let mut i: usize = 0;
    while i < shape.len()
        invariant
            i <= shape@.len(),
            vertices@ == shape_path_vertices(shape@, i as int),
            unnumbered(vertices@),
        decreases shape@.len() - i,
    {
        add_path(vertices, &shape[i]);
        i += 1;
    }
}

impl ToChainVertices for Vec<Vec<IntPoint>> {
    open spec fn chain_input(&self, points: Seq<IntPoint>) -> Seq<ChainVertex> {
        shape_path_vertices(self@, self@.len() as int) + steiner_vertices(points)
    }

    fn to_chain_vertices(&self) -> (r: Vec<ChainVertex>) {
        let mut vertices: Vec<ChainVertex> = Vec::new();
        add_shape_paths(&mut vertices, self);
        proof {
            assert(vertices@ =~= shape_path_vertices(self@, self@.len() as int) + steiner_vertices(Seq::empty()));
        }
        sort_by_swipe_line(&mut vertices);
        vertices
    }

    fn to_chain_vertices_with_steiner_points(&self, points: &Vec<IntPoint>) -> (r: Vec<ChainVertex>) {
        let mut vertices: Vec<ChainVertex> = Vec::new();
        add_shape_paths(&mut vertices, self);
        let ghost before = vertices@;
        add_steiner_points(&mut vertices, points);
        proof {
            lemma_built_unnumbered(before, points@);
            lemma_unnumbered_append(before, steiner_vertices(points@));
        }
        sort_by_swipe_line(&mut vertices);
        vertices
    }
}

// ---------------------------------------------------------------------------
// The points of a sweep.

/// Each point comes strictly before the next in sweep order.
pub open spec fn strictly_sweep_sorted(pts: Seq<IntPoint>) -> bool {
    forall|a: int, b: int| 0 <= a < b < pts.len() ==> point_lt(#[trigger] pts[a], #[trigger] pts[b])
}

/// Some vertex of `vs` lies at `q`.
pub open spec fn has_vertex_at(vs: Seq<ChainVertex>, q: IntPoint) -> bool {
    exists|i: int| 0 <= i < vs.len() && (#[trigger] vs[i]).this == q
}

proof fn lemma_point_lt_total(a: IntPoint, b: IntPoint)
    ensures
        !point_lt(b, a) && a != b ==> point_lt(a, b),
        !(point_lt(a, b) && point_lt(b, a)),
        !point_lt(a, a),
{
}

proof fn lemma_point_lt_trans(a: IntPoint, b: IntPoint, c: IntPoint)
    requires
        point_lt(a, b),
        point_lt(b, c),
    ensures
        point_lt(a, c),
{
}

/// The distinct points of the first `k` vertices of a sorted and numbered
/// sweep: strictly sorted, ending at the last one's point, and holding
/// exactly their points.
proof fn lemma_distinct_points_prefix(vs: Seq<ChainVertex>, k: int)
    requires
        0 <= k <= vs.len(),
        forall|a: int, b: int| 0 <= a < b < vs.len() ==> !point_lt(#[trigger] vs[b].this, #[trigger] vs[a].this),
        forall|j: int| 0 <= j < vs.len() ==> (#[trigger] vs[j]).index == point_rank(vs, j),
    ensures
        strictly_sweep_sorted(distinct_points(vs, k)),
        k > 0 ==> distinct_points(vs, k).len() > 0 && distinct_points(vs, k).last() == vs[k - 1].this,
        forall|q: IntPoint| distinct_points(vs, k).contains(q) <==> has_vertex_at(vs.subrange(0, k), q),
    decreases k,
{
    if k > 0 {
        lemma_distinct_points_prefix(vs, k - 1);
        let d0 = distinct_points(vs, k - 1);
        let d = distinct_points(vs, k);
        let v = vs[k - 1];
        let head = vs.subrange(0, k - 1);
        let all = vs.subrange(0, k);
        assert forall|q: IntPoint| has_vertex_at(all, q) <==> has_vertex_at(head, q) || v.this == q by {
            if has_vertex_at(all, q) {
                let i = choose|i: int| 0 <= i < all.len() && (#[trigger] all[i]).this == q;
                if i < k - 1 {
                    assert(head[i] == all[i]);
                }
            }
            if has_vertex_at(head, q) {
                let i = choose|i: int| 0 <= i < head.len() && (#[trigger] head[i]).this == q;
                assert(all[i] == head[i]);
            }
            if v.this == q {
                assert(all[k - 1] == v);
            }
        }
        if k - 1 == 0 {
            assert(vs[0].index == point_rank(vs, 0));
            assert(d =~= seq![v.this]);
            assert(d0 =~= Seq::<IntPoint>::empty());
            assert forall|q: IntPoint| !has_vertex_at(head, q) by {}
        } else {
            let w = vs[k - 2];
            assert(v.index == point_rank(vs, k - 1));
            assert(w.index == point_rank(vs, k - 2));
            assert(point_rank(vs, k - 1) == point_rank(vs, k - 2) + if v.this != w.this {
                1int
            } else {
                0int
            });
            if v.this != w.this {
                assert(d =~= d0.push(v.this));
                assert(!point_lt(vs[k - 1].this, vs[k - 2].this));
                lemma_point_lt_total(w.this, v.this);
                assert forall|a: int, b: int| 0 <= a < b < d.len() implies point_lt(#[trigger] d[a], #[trigger] d[b]) by {
                    if b == d.len() - 1 {
                        if a < d0.len() - 1 {
                            assert(point_lt(d0[a], d0[d0.len() - 1]));
                            lemma_point_lt_trans(d0[a], w.this, v.this);
                        }
                    } else {
                        assert(d[a] == d0[a] && d[b] == d0[b]);
                    }
                }
                assert forall|q: IntPoint| d.contains(q) <==> d0.contains(q) || v.this == q by {
                    if d.contains(q) {
                        let i = choose|i: int| 0 <= i < d.len() && d[i] == q;
                        if i < d0.len() {
                            assert(d0[i] == q);
                        }
                    }
                    if d0.contains(q) {
                        let i = choose|i: int| 0 <= i < d0.len() && d0[i] == q;
                        assert(d[i] == q);
                    }
                    if v.this == q {
                        assert(d[d.len() - 1] == q);
                    }
                }
            } else {
                assert(d =~= d0);
                assert(d0.contains(w.this)) by {
                    assert(d0[d0.len() - 1] == w.this);
                }
            }
        }
    }
}

/// A sweep over no vertices has no points.
pub proof fn lemma_sweep_points_empty()
    ensures
        sweep_points(Seq::<ChainVertex>::empty(), Seq::<IntPoint>::empty()),
{
    let e = Seq::<ChainVertex>::empty();
    assert(distinct_points(e, 0) =~= Seq::<IntPoint>::empty());
    assert(e.to_multiset() =~= e.to_multiset());
    assert forall|i: int, j: int| #[trigger] point_group(e, i, j) implies false by {}
    assert(sweep_ordered(e, e));
}

/// The points of a sweep are strictly sorted, and are exactly the points
/// of its vertices.
pub proof fn law_sweep_points_are_input_points(input: Seq<ChainVertex>, pts: Seq<IntPoint>)
    requires
        sweep_points(input, pts),
    ensures
        strictly_sweep_sorted(pts),
        forall|q: IntPoint| pts.contains(q) <==> has_vertex_at(input, q),
{
    let vs = choose|vs: Seq<ChainVertex>| sweep_ordered(input, vs) && pts == distinct_points(vs, vs.len() as int);
    let p = choose|p: Seq<ChainVertex>|
        {
            &&& p.to_multiset() == input.to_multiset()
            &&& p.len() == vs.len()
            &&& forall|k: int| 0 <= k < vs.len() ==> (#[trigger] vs[k]).this == p[k].this
            &&& forall|a: int, b: int| 0 <= a < b < vs.len() ==> !point_lt(#[trigger] vs[b].this, #[trigger] vs[a].this)
            &&& forall|k: int| 0 <= k < vs.len() ==> (#[trigger] vs[k]).index == point_rank(vs, k)
            &&& forall|k: int|
                #![trigger vs[k]]
                point_group(vs, k, k + 1) ==> vs[k].next == p[k].next && vs[k].prev == p[k].prev
            &&& forall|i: int, j: int|
                #![trigger point_group(vs, i, j)]
                point_group(vs, i, j) && j - i >= 2 ==> exists|s: Seq<Direction>|
                    s.to_multiset() == dirs_of(p.subrange(i, j)).to_multiset() && s.len() == 2 * (j - i)
                        && clock_sorted(s, vs[i].this) && forall|k: int|
                        0 <= k < j - i ==> (#[trigger] vs[i + k]).next == assigned_next(s, vs[i].this, j - i, k)
                            && vs[i + k].prev == assigned_prev(s, vs[i].this, j - i, k)
        };
    lemma_distinct_points_prefix(vs, vs.len() as int);
    assert(vs.subrange(0, vs.len() as int) =~= vs);
    assert forall|q: IntPoint| has_vertex_at(vs, q) <==> has_vertex_at(input, q) by {
        if has_vertex_at(vs, q) {
            let i = choose|i: int| 0 <= i < vs.len() && (#[trigger] vs[i]).this == q;
            assert(p.contains(p[i]));
            assert(p.to_multiset().count(p[i]) > 0);
            assert(input.to_multiset().count(p[i]) > 0);
            assert(input.contains(p[i]));
            let j = choose|j: int| 0 <= j < input.len() && input[j] == p[i];
            assert(input[j].this == q);
        }
        if has_vertex_at(input, q) {
            let j = choose|j: int| 0 <= j < input.len() && (#[trigger] input[j]).this == q;
            assert(input.contains(input[j]));
            assert(input.to_multiset().count(input[j]) > 0);
            assert(p.to_multiset().count(input[j]) > 0);
            assert(p.contains(input[j]));
            let i = choose|i: int| 0 <= i < p.len() && p[i] == input[j];
            assert(vs[i].this == q);
        }
    }
}

/// Two strictly sorted sequences that hold the same points are equal.
proof fn lemma_sorted_same_points(s1: Seq<IntPoint>, s2: Seq<IntPoint>)
    requires
        strictly_sweep_sorted(s1),
        strictly_sweep_sorted(s2),
        forall|q: IntPoint| s1.contains(q) <==> s2.contains(q),
    ensures
        s1 == s2,
    decreases s1.len() + s2.len(),
{
    if s1.len() == 0 || s2.len() == 0 {
        if s1.len() > 0 {
            assert(s2.contains(s1[0]));
        }
        if s2.len() > 0 {
            assert(s1.contains(s2[0]));
        }
        assert(s1 =~= s2);
    } else {
        let a = s1[0];
        let b = s2[0];
        assert(s2.contains(a));
        assert(s1.contains(b));
        let i = choose|i: int| 0 <= i < s2.len() && s2[i] == a;
        let j = choose|j: int| 0 <= j < s1.len() && s1[j] == b;
        if i > 0 {
            assert(point_lt(b, a));
            if j > 0 {
                assert(point_lt(a, b));
                lemma_point_lt_total(a, b);
            } else {
                lemma_point_lt_total(a, b);
            }
        }
        if j > 0 {
            assert(point_lt(a, b));
            lemma_point_lt_total(a, b);
        }
        assert(a == b);
        let t1 = s1.drop_first();
        let t2 = s2.drop_first();
        assert forall|q: IntPoint| t1.contains(q) <==> t2.contains(q) by {
            if t1.contains(q) {
                let k = choose|k: int| 0 <= k < t1.len() && t1[k] == q;
                assert(s1[k + 1] == q);
                assert(point_lt(a, q));
                lemma_point_lt_total(a, q);
                assert(s2.contains(q));
                let m = choose|m: int| 0 <= m < s2.len() && s2[m] == q;
                assert(m != 0);
                assert(t2[m - 1] == q);
            }
            if t2.contains(q) {
                let k = choose|k: int| 0 <= k < t2.len() && t2[k] == q;
                assert(s2[k + 1] == q);
                assert(point_lt(b, q));
                lemma_point_lt_total(b, q);
                assert(s1.contains(q));
                let m = choose|m: int| 0 <= m < s1.len() && s1[m] == q;
                assert(m != 0);
                assert(t1[m - 1] == q);
            }
        }
        assert forall|x: int, y: int| 0 <= x < y < t1.len() implies point_lt(#[trigger] t1[x], #[trigger] t1[y]) by {
            assert(t1[x] == s1[x + 1] && t1[y] == s1[y + 1]);
        }
        assert forall|x: int, y: int| 0 <= x < y < t2.len() implies point_lt(#[trigger] t2[x], #[trigger] t2[y]) by {
            assert(t2[x] == s2[x + 1] && t2[y] == s2[y + 1]);
        }
        lemma_sorted_same_points(t1, t2);
        assert(s1 =~= seq![a] + t1);
        assert(s2 =~= seq![b] + t2);
    }
}

/// Whichever sweep order ties between vertices at one point take, the
/// points of a sweep over the same vertices are the same.
pub proof fn law_sweep_points_unique(input: Seq<ChainVertex>, p1: Seq<IntPoint>, p2: Seq<IntPoint>)
    requires
        sweep_points(input, p1),
        sweep_points(input, p2),
    ensures
        p1 == p2,
{
    law_sweep_points_are_input_points(input, p1);
    law_sweep_points_are_input_points(input, p2);
    lemma_sorted_same_points(p1, p2);
}

} // verus!
