//! A fixed-capacity binary heap that keeps the greatest items it is given.
use crate::geom::{area_two, area_two_spec, IntPoint};
use vstd::prelude::*;
use vstd::multiset::*;

verus! {

broadcast use {
    vstd::seq_lib::group_to_multiset_ensures,
    vstd::multiset::group_multiset_properties,
    vstd::multiset::group_multiset_axioms,
};

/// An order on items: `ordered(a, b)` says that `a` does not come after `b`.
pub trait Compare<T> {
    spec fn ordered(&self, a: T, b: T) -> bool;

    /// Whether the comparator accepts `a` as an argument.
    spec fn accepts(&self, a: T) -> bool;

    fn le(&self, a: &T, b: &T) -> (r: bool)
        requires
            self.accepts(*a),
            self.accepts(*b),
        ensures
            r == self.ordered(*a, *b),
    ;
}

/// The order is total and transitive.
pub open spec fn lawful<T, C: Compare<T>>(c: C) -> bool {
    &&& forall|a: T, b: T| #[trigger] c.ordered(a, b) || c.ordered(b, a)
    &&& forall|a: T, b: T, d: T|
        #[trigger] c.ordered(a, b) && #[trigger] c.ordered(b, d) ==> c.ordered(a, d)
}

/// Ascending order of integers.
pub struct MinOrder;

/// Descending order of integers.
pub struct MaxOrder;

impl Compare<i32> for MinOrder {
    open spec fn ordered(&self, a: i32, b: i32) -> bool {
        a <= b
    }

    open spec fn accepts(&self, a: i32) -> bool {
        true
    }

    fn le(&self, a: &i32, b: &i32) -> (r: bool) {
        *a <= *b
    }
}

impl Compare<i32> for MaxOrder {
    open spec fn ordered(&self, a: i32, b: i32) -> bool {
        b <= a
    }

    open spec fn accepts(&self, a: i32) -> bool {
        true
    }

    fn le(&self, a: &i32, b: &i32) -> (r: bool) {
        *b <= *a
    }
}

/// Ascending order is total and transitive.
pub proof fn lemma_min_order_lawful()
    ensures
        lawful::<i32, MinOrder>(MinOrder),
{
}

/// Descending order is total and transitive.
pub proof fn lemma_max_order_lawful()
    ensures
        lawful::<i32, MaxOrder>(MaxOrder),
{
}

/// Orders points clockwise as seen from `center`: `a` does not come after
/// `b` when `center, a, b` do not turn counter-clockwise.
pub struct ClockOrderCompare {
    pub center: IntPoint,
}

impl Compare<IntPoint> for ClockOrderCompare {
    open spec fn ordered(&self, a: IntPoint, b: IntPoint) -> bool {
        area_two_spec(self.center, a, b) <= 0
    }

    open spec fn accepts(&self, a: IntPoint) -> bool {
        self.center.is_safe() && a.is_safe()
    }

    fn le(&self, a: &IntPoint, b: &IntPoint) -> (r: bool) {
        area_two(self.center, *a, *b) <= 0
    }
}

pub open spec fn parent(i: int) -> int {
    (i - 1) / 2
}

proof fn lemma_parent(c: int, i: int)
    requires
        c > 0,
        i >= 0,
    ensures
        parent(c) == i <==> (c == 2 * i + 1 || c == 2 * i + 2),
        0 <= parent(c) < c,
{
}

/// A binary heap of at most `N` items in which every parent does not come
/// after its children, so the root is a least item. Once full, adding an
/// item replaces the least one when the new item comes after it.
pub struct FixedHeap<T, C, const N: usize> {
    overflow: bool,
    comparator: C,
    count: usize,
    buffer: [T; N],
}

impl<T: Copy + Default, C: Compare<T>, const N: usize> FixedHeap<T, C, N> {
    /// The items held, in heap order.
    pub closed spec fn items(&self) -> Seq<T> {
        self.buffer@.subrange(0, self.count as int)
    }

    pub closed spec fn spec_comparator(&self) -> C {
        self.comparator
    }

    pub closed spec fn spec_overflow(&self) -> bool {
        self.overflow
    }

    /// Every parent does not come after its children.
    pub closed spec fn heap_ordered(&self) -> bool {
        forall|j: int|
            0 < j < self.count ==> #[trigger] self.comparator.ordered(
                self.buffer@[parent(j)],
                self.buffer@[j],
            )
    }

    pub closed spec fn wf(&self) -> bool {
        &&& self.count <= N
        &&& forall|j: int| 0 <= j < self.count ==> self.comparator.accepts(#[trigger] self.buffer@[j])
    }

    /// The heap is well formed and, for a lawful order, heap ordered.
    pub open spec fn is_heap(&self) -> bool {
        &&& self.wf()
        &&& lawful::<T, C>(self.spec_comparator()) ==> self.heap_ordered()
    }

    pub fn new(comparator: C) -> (r: Self)
        ensures
            r.is_heap(),
            r.items() == Seq::<T>::empty(),
            r.spec_comparator() == comparator,
            !r.spec_overflow(),
    {
        let r = FixedHeap {
            count: 0,
            overflow: false,
            buffer: vstd::array::array_fill_for_copy_types::<T, N>(T::default()),
            comparator,
        };
        assert(r.items() =~= Seq::<T>::empty());
        r
    }

    /// The items held, in heap order (sorted after `sort_in_place`).
    pub fn as_slice(&self) -> (r: &[T])
        requires
            self.wf(),
        ensures
            r@ == self.items(),
    {
        vstd::slice::slice_subrange(self.buffer.as_slice(), 0, self.count)
    }

    pub fn is_empty(&self) -> (r: bool)
        requires
            self.wf(),
        ensures
            r == (self.items().len() == 0),
    {
        self.count == 0
    }

    /// Whether an item was ever offered to the full heap.
    pub fn is_overflow(&self) -> (r: bool)
        ensures
            r == self.spec_overflow(),
    {
        self.overflow
    }

    #[inline]
    fn val(&self, index: usize) -> (r: T)
        requires
            index < N,
        ensures
            r == self.buffer@[index as int],
    {
        self.buffer[index]
    }

    #[inline]
    fn swap(&mut self, a: usize, b: usize)
        requires
            a < N,
            b < N,
        ensures
            final(self).buffer@ == old(self).buffer@.update(a as int, old(self).buffer@[b as int]).update(
                b as int,
                old(self).buffer@[a as int],
            ),
            final(self).count == old(self).count,
            final(self).comparator == old(self).comparator,
            final(self).overflow == old(self).overflow,
    {
        let va = self.buffer[a];
        let vb = self.buffer[b];
        self.buffer[a] = vb;
        self.buffer[b] = va;
    }

    /// Adds `v`. While the heap has room, `v` joins the items; once it is
    /// full, `v` replaces the least item when it comes after it, and is
    /// dropped otherwise.
    pub fn add(&mut self, v: T)
        requires
            old(self).is_heap(),
            N > 0,
            old(self).spec_comparator().accepts(v),
        ensures
            Self::add_step(*old(self), v, *final(self)),
            final(self).is_heap(),
            final(self).spec_comparator() == old(self).spec_comparator(),
            old(self).items().len() < N ==> {
                &&& final(self).items().to_multiset() == old(self).items().to_multiset().insert(v)
                &&& final(self).spec_overflow() == old(self).spec_overflow()
            },
            old(self).items().len() == N ==> {
                &&& final(self).spec_overflow()
                &&& old(self).spec_comparator().ordered(v, old(self).items()[0]) ==> final(self).items()
                    == old(self).items()
                &&& !old(self).spec_comparator().ordered(v, old(self).items()[0])
                    ==> final(self).items().to_multiset()
                    == old(self).items().to_multiset().insert(v).remove(old(self).items()[0])
            },
    {
        if self.count < N {
            let ghost before = self.items();
            let mut i = self.count;
            self.buffer[i] = v;
            self.count += 1;
            proof {
                assert(self.items() =~= before.push(v));
            }
            loop
                invariant
                    self.count <= N,
                    i < self.count,
                    forall|j: int| 0 <= j < self.count ==> self.comparator.accepts(#[trigger] self.buffer@[j]),
                    self.items().to_multiset() == before.to_multiset().insert(v),
                    self.comparator == old(self).comparator,
                    self.overflow == old(self).overflow,
                    lawful::<T, C>(self.comparator) ==> {
                        &&& forall|j: int|
                            0 < j < self.count && j != i ==> #[trigger] self.comparator.ordered(
                                self.buffer@[parent(j)],
                                self.buffer@[j],
                            )
                        &&& i > 0 ==> forall|c: int|
                            0 < c < self.count && parent(c) == i ==> #[trigger] self.comparator.ordered(
                                self.buffer@[parent(i as int)],
                                self.buffer@[c],
                            )
                    },
                ensures
                    self.count <= N,
                    forall|j: int| 0 <= j < self.count ==> self.comparator.accepts(#[trigger] self.buffer@[j]),
                    self.items().to_multiset() == before.to_multiset().insert(v),
                    self.comparator == old(self).comparator,
                    self.overflow == old(self).overflow,
                    lawful::<T, C>(self.comparator) ==> self.heap_ordered(),
                decreases i,
            {
                if i == 0 {
                    break;
                }
                let im = i - 1;
                let p = im >> 1;
                assert(im >> 1 == im / 2) by (bit_vector);
                let vp = self.val(p);
                let vi = self.val(i);
                if self.comparator.le(&vp, &vi) {
                    proof {
                        if lawful::<T, C>(self.comparator) {
                            assert forall|j: int| 0 < j < self.count implies #[trigger] self.comparator.ordered(
                                self.buffer@[parent(j)],
                                self.buffer@[j],
                            ) by {
                                if j == i {
                                    assert(parent(j) == p);
                                }
                            }
                        }
                    }
                    break;
                }
                let ghost prev = *self;
                self.swap(i, p);
                proof {
                    assert(self.items() =~= prev.items().update(i as int, prev.buffer@[p as int]).update(
                        p as int,
                        prev.buffer@[i as int],
                    ));
                    if lawful::<T, C>(self.comparator) {
                        assert(self.comparator.ordered(vi, vp));
                        assert forall|j: int|
                            0 < j < self.count && j != p implies #[trigger] self.comparator.ordered(
                            self.buffer@[parent(j)],
                            self.buffer@[j],
                        ) by {
                            if j == i {
                            } else if parent(j) == i {
                                assert(prev.comparator.ordered(prev.buffer@[parent(i as int)], prev.buffer@[j]));
                            } else if parent(j) == p {
                                assert(prev.comparator.ordered(prev.buffer@[p as int], prev.buffer@[j]));
                            }
                        }
                        if p > 0 {
                            assert forall|c: int|
                                0 < c < self.count && parent(c) == p implies #[trigger] self.comparator.ordered(
                                self.buffer@[parent(p as int)],
                                self.buffer@[c],
                            ) by {
                                if c == i {
                                    assert(prev.comparator.ordered(prev.buffer@[parent(p as int)], prev.buffer@[p as int]));
                                } else {
                                    assert(prev.comparator.ordered(prev.buffer@[parent(p as int)], prev.buffer@[p as int]));
                                    assert(prev.comparator.ordered(prev.buffer@[p as int], prev.buffer@[c]));
                                }
                            }
                        }
                    }
                }
                i = p;
            }
            return;
        }
        self.overflow = true;
        let root = self.val(0);
        if self.comparator.le(&v, &root) {
            return;
        }
        let ghost before = self.items();
        self.buffer[0] = v;
        proof {
            assert(self.items() =~= before.update(0, v));
        }
        self.down(0);
    }

    fn down(&mut self, start: usize)
        requires
            old(self).count <= N,
            start < old(self).count,
            forall|j: int| 0 <= j < old(self).count ==> old(self).comparator.accepts(#[trigger] old(self).buffer@[j]),
            lawful::<T, C>(old(self).comparator) ==> {
                &&& forall|j: int|
                    0 < j < old(self).count && parent(j) != start ==> #[trigger] old(self).comparator.ordered(
                        old(self).buffer@[parent(j)],
                        old(self).buffer@[j],
                    )
                &&& start > 0 ==> forall|c: int|
                    0 < c < old(self).count && parent(c) == start ==> #[trigger] old(self).comparator.ordered(
                        old(self).buffer@[parent(start as int)],
                        old(self).buffer@[c],
                    )
            },
        ensures
            final(self).wf(),
            lawful::<T, C>(final(self).comparator) ==> final(self).heap_ordered(),
            final(self).count == old(self).count,
            final(self).comparator == old(self).comparator,
            final(self).overflow == old(self).overflow,
            final(self).items().to_multiset() == old(self).items().to_multiset(),
            forall|j: int| old(self).count <= j < N ==> final(self).buffer@[j] == old(self).buffer@[j],
    {
        let mut i = start;
        loop
            invariant
                self.count == old(self).count,
                self.count <= N,
                i < self.count,
                self.comparator == old(self).comparator,
                self.overflow == old(self).overflow,
                self.items().to_multiset() == old(self).items().to_multiset(),
                forall|j: int| self.count <= j < N ==> self.buffer@[j] == old(self).buffer@[j],
                forall|j: int| 0 <= j < self.count ==> self.comparator.accepts(#[trigger] self.buffer@[j]),
                lawful::<T, C>(self.comparator) ==> {
                    &&& forall|j: int|
                        0 < j < self.count && parent(j) != i ==> #[trigger] self.comparator.ordered(
                            self.buffer@[parent(j)],
                            self.buffer@[j],
                        )
                    &&& i > 0 ==> forall|c: int|
                        0 < c < self.count && parent(c) == i ==> #[trigger] self.comparator.ordered(
                            self.buffer@[parent(i as int)],
                            self.buffer@[c],
                        )
                },
            ensures
                self.count == old(self).count,
                self.count <= N,
                self.comparator == old(self).comparator,
                self.overflow == old(self).overflow,
                self.items().to_multiset() == old(self).items().to_multiset(),
                forall|j: int| self.count <= j < N ==> self.buffer@[j] == old(self).buffer@[j],
                forall|j: int| 0 <= j < self.count ==> self.comparator.accepts(#[trigger] self.buffer@[j]),
                lawful::<T, C>(self.comparator) ==> self.heap_ordered(),
            decreases self.count - i,
        {
            if i >= (self.count - 1) / 2 + 1 || 2 * i + 1 >= self.count {
                // no children
                proof {
                    assert forall|j: int| 0 < j < self.count implies parent(j) != i by {
                        lemma_parent(j, i as int);
                    }
                }
                break;
            }
            let ilt = i * 2 + 1;
            let irt = ilt + 1;
            let lt = self.val(ilt);
            let (j, min) = if irt < self.count {
                let rt = self.val(irt);
                if self.comparator.le(&lt, &rt) {
                    (ilt, lt)
                } else {
                    (irt, rt)
                }
            } else {
                (ilt, lt)
            };
            let vi = self.val(i);
            if self.comparator.le(&vi, &min) {
                proof {
                    if lawful::<T, C>(self.comparator) {
                        assert forall|c: int| 0 < c < self.count implies
                            #[trigger] self.comparator.ordered(self.buffer@[parent(c)], self.buffer@[c]) by {
                            lemma_parent(c, i as int);
                            if parent(c) == i {
                                assert(c == ilt || c == irt);
                                assert(self.comparator.ordered(lt, min) || self.comparator.ordered(min, lt));
                            }
                        }
                    }
                }
                break;
            }
            let ghost prev = *self;
            self.swap(i, j);
            proof {
                assert(self.items() =~= prev.items().update(i as int, prev.buffer@[j as int]).update(
                    j as int,
                    prev.buffer@[i as int],
                ));
                if lawful::<T, C>(self.comparator) {
                    assert(self.comparator.ordered(min, vi));
                    assert forall|k: int|
                        0 < k < self.count && parent(k) != j implies #[trigger] self.comparator.ordered(
                        self.buffer@[parent(k)],
                        self.buffer@[k],
                    ) by {
                        lemma_parent(k, i as int);
                        if k == j {
                        } else if parent(k) == i {
                            assert(k == ilt || k == irt);
                            assert(self.comparator.ordered(lt, min) || self.comparator.ordered(min, lt));
                        } else if k == i {
                            assert(prev.comparator.ordered(prev.buffer@[parent(i as int)], prev.buffer@[j as int]));
                        }
                    }
                    assert forall|c: int|
                        0 < c < self.count && parent(c) == j implies #[trigger] self.comparator.ordered(
                        self.buffer@[parent(j as int)],
                        self.buffer@[c],
                    ) by {
                        assert(prev.comparator.ordered(prev.buffer@[j as int], prev.buffer@[c]));
                    }
                }
            }
            i = j;
        }
    }

    /// Sorts the held items from greatest to least (with respect to the
    /// comparator), keeping the same items.
    pub fn sort_in_place(&mut self)
        requires
            old(self).is_heap(),
        ensures
            final(self).wf(),
            final(self).spec_comparator() == old(self).spec_comparator(),
            final(self).spec_overflow() == old(self).spec_overflow(),
            final(self).items().to_multiset() == old(self).items().to_multiset(),
            lawful::<T, C>(old(self).spec_comparator()) ==> forall|a: int, b: int|
                0 <= a < b < final(self).items().len() ==> #[trigger] old(self).spec_comparator().ordered(
                    final(self).items()[b],
                    final(self).items()[a],
                ),
    {
        let initial_count = self.count;
        let ghost all = self.items();
        if initial_count == 0 {
            return;
        }
        let mut end = initial_count - 1;
        while end > 0
            invariant
                initial_count == old(self).count,
                self.count == end + 1,
                end < initial_count <= N,
                self.comparator == old(self).comparator,
                self.overflow == old(self).overflow,
                forall|j: int| 0 <= j < initial_count ==> self.comparator.accepts(#[trigger] self.buffer@[j]),
                self.buffer@.subrange(0, initial_count as int).to_multiset() == all.to_multiset(),
                lawful::<T, C>(self.comparator) ==> {
                    &&& self.heap_ordered()
                    &&& forall|a: int, b: int|
                        end < a < b < initial_count ==> #[trigger] self.comparator.ordered(
                            self.buffer@[b],
                            self.buffer@[a],
                        )
                    &&& forall|a: int, b: int|
                        0 <= a <= end < b < initial_count ==> #[trigger] self.comparator.ordered(
                            self.buffer@[b],
                            self.buffer@[a],
                        )
                },
            decreases end,
        {
            let ghost prev = *self;
            self.swap(0, end);
            self.count -= 1;
            proof {
                let s = prev.buffer@.subrange(0, initial_count as int);
                assert(self.buffer@.subrange(0, initial_count as int) =~= s.update(0, s[end as int]).update(
                    end as int,
                    s[0],
                ));
                assert forall|j: int| 0 <= j < initial_count implies self.comparator.accepts(#[trigger] self.buffer@[j]) by {
                    if j == 0 {
                        assert(prev.comparator.accepts(prev.buffer@[end as int]));
                    } else if j == end {
                        assert(prev.comparator.accepts(prev.buffer@[0]));
                    } else {
                        assert(prev.comparator.accepts(prev.buffer@[j]));
                    }
                }
                if lawful::<T, C>(self.comparator) {
                    assert forall|j: int| 0 < j < self.count && parent(j) != 0 implies #[trigger] self.comparator.ordered(
                        self.buffer@[parent(j)],
                        self.buffer@[j],
                    ) by {
                        assert(prev.comparator.ordered(prev.buffer@[parent(j)], prev.buffer@[j]));
                    }
                }
            }
            let ghost mid = *self;
            self.down(0);
            proof {
                assert(self.buffer@.subrange(0, initial_count as int) =~= self.items() + mid.buffer@.subrange(
                    end as int,
                    initial_count as int,
                ));
                assert(mid.buffer@.subrange(0, initial_count as int) =~= mid.items() + mid.buffer@.subrange(
                    end as int,
                    initial_count as int,
                ));
                vstd::seq_lib::lemma_multiset_commutative(self.items(), mid.buffer@.subrange(end as int, initial_count as int));
                vstd::seq_lib::lemma_multiset_commutative(mid.items(), mid.buffer@.subrange(end as int, initial_count as int));
                if lawful::<T, C>(self.comparator) {
                    // the item moved to `end` was the least of the heap
                    assert(forall|a: int| 0 <= a <= end ==> #[trigger] self.comparator.ordered(
                        prev.buffer@[0],
                        prev.buffer@[a],
                    )) by {
                        Self::lemma_root_least(prev);
                    }
                    assert forall|a: int, b: int|
                        0 <= a <= end - 1 < b < initial_count implies #[trigger] self.comparator.ordered(
                        self.buffer@[b],
                        self.buffer@[a],
                    ) by {
                        let x = self.buffer@[a];
                        assert(self.items()[a] == x);
                        assert(self.items().contains(x));
                        assert(self.items().to_multiset().contains(x));
                        assert(mid.items().to_multiset().contains(x));
                        assert(mid.items().contains(x));
                        let k = choose|k: int| 0 <= k < mid.items().len() && mid.items()[k] == x;
                        assert(mid.buffer@[k] == x);
                        if b == end {
                            if k == 0 {
                                assert(prev.comparator.ordered(prev.buffer@[0], prev.buffer@[end as int]));
                            } else {
                                assert(prev.buffer@[k] == mid.buffer@[k]);
                            }
                        } else {
                            if k == 0 {
                                assert(prev.comparator.ordered(prev.buffer@[b], prev.buffer@[end as int]));
                            } else {
                                assert(prev.comparator.ordered(prev.buffer@[b], prev.buffer@[k]));
                            }
                        }
                    }
                }
            }
            end -= 1;
        }
        self.count = initial_count;
        proof {
            assert(self.items() =~= self.buffer@.subrange(0, initial_count as int));
        }
    }

    /// What adding `v` to `h0` gives `h1`: while there is room `v` joins
    /// the items; once full, `v` replaces the least item when it comes
    /// after it, and is dropped otherwise.
    pub open spec fn add_step(h0: Self, v: T, h1: Self) -> bool {
        &&& h1.is_heap()
        &&& h1.spec_comparator() == h0.spec_comparator()
        &&& h0.items().len() < N ==> {
            &&& h1.items().to_multiset() == h0.items().to_multiset().insert(v)
            &&& h1.spec_overflow() == h0.spec_overflow()
        }
        &&& h0.items().len() == N ==> {
            &&& h1.spec_overflow()
            &&& h0.spec_comparator().ordered(v, h0.items()[0]) ==> h1.items() == h0.items()
            &&& !h0.spec_comparator().ordered(v, h0.items()[0]) ==> h1.items().to_multiset()
                == h0.items().to_multiset().insert(v).remove(h0.items()[0])
        }
    }

    /// What a heap holds after the first `n` items were added to an empty
    /// one: all of them while `n <= N`, else `N` of them, never an item
    /// more often than it was added, and each item left out comes before
    /// every item kept.
    pub open spec fn fed(h: Self, vs: Seq<T>, n: int) -> bool {
        let added = vs.subrange(0, n).to_multiset();
        let kept = h.items().to_multiset();
        let c = h.spec_comparator();
        &&& h.is_heap()
        &&& h.items().len() == if n <= N { n } else { N as int }
        &&& h.spec_overflow() == (n > N)
        &&& n <= N ==> kept == added
        &&& forall|x: T| #[trigger] kept.count(x) <= added.count(x)
        &&& forall|x: T, y: T| #[trigger] added.count(x) > kept.count(x) && #[trigger] kept.count(y) > 0 ==> c.ordered(x, y)
    }

    /// Law: a heap made empty and then given the items one by one, under a
    /// lawful order, holds `min(n, N)` of them, is in overflow exactly when
    /// more than `N` were given, holds no item more often than it was given,
    /// and every item it left out comes before every item it kept: it keeps
    /// the greatest items. It stays a heap throughout.
    pub proof fn law_adds_keep_greatest(vs: Seq<T>, hs: Seq<Self>)
        requires
            N > 0,
            hs.len() == vs.len() + 1,
            hs[0].is_heap(),
            hs[0].items() == Seq::<T>::empty(),
            !hs[0].spec_overflow(),
            lawful::<T, C>(hs[0].spec_comparator()),
            forall|j: int| 0 <= j < vs.len() ==> Self::add_step(#[trigger] hs[j], vs[j], hs[j + 1]),
        ensures
            ({
                let h = hs[vs.len() as int];
                let c = hs[0].spec_comparator();
                &&& h.is_heap()
                &&& h.spec_comparator() == c
                &&& h.items().len() == if vs.len() <= N { vs.len() as int } else { N as int }
                &&& h.spec_overflow() == (vs.len() > N)
                &&& forall|x: T| #[trigger] h.items().to_multiset().count(x) <= vs.to_multiset().count(x)
                &&& forall|x: T, k: int|
                    vs.to_multiset().count(x) > h.items().to_multiset().count(x) && 0 <= k < h.items().len()
                        ==> #[trigger] c.ordered(x, h.items()[k])
            }),
    {
        Self::lemma_fed(vs, hs, vs.len() as int);
        let h = hs[vs.len() as int];
        let c = hs[0].spec_comparator();
        assert(vs.subrange(0, vs.len() as int) =~= vs);
        assert forall|x: T, k: int|
            vs.to_multiset().count(x) > h.items().to_multiset().count(x) && 0 <= k < h.items().len() implies #[trigger] c.ordered(
            x,
            h.items()[k],
        ) by {
            assert(h.items().contains(h.items()[k]));
            assert(h.items().to_multiset().count(h.items()[k]) > 0);
        }
    }

    proof fn lemma_fed(vs: Seq<T>, hs: Seq<Self>, n: int)
        requires
            N > 0,
            0 <= n <= vs.len(),
            hs.len() == vs.len() + 1,
            hs[0].is_heap(),
            hs[0].items() == Seq::<T>::empty(),
            !hs[0].spec_overflow(),
            lawful::<T, C>(hs[0].spec_comparator()),
            forall|j: int| 0 <= j < vs.len() ==> Self::add_step(#[trigger] hs[j], vs[j], hs[j + 1]),
        ensures
            Self::fed(hs[n], vs, n),
            hs[n].spec_comparator() == hs[0].spec_comparator(),
        decreases n,
    {
        if n == 0 {
            assert(vs.subrange(0, 0) =~= Seq::<T>::empty());
            assert(hs[0].items().to_multiset() =~= Multiset::<T>::empty());
            assert(vs.subrange(0, 0).to_multiset() =~= Multiset::<T>::empty());
        } else {
            Self::lemma_fed(vs, hs, n - 1);
            let h0 = hs[n - 1];
            let h1 = hs[n];
            let v = vs[n - 1];
            let c = h0.spec_comparator();
            assert(Self::add_step(h0, v, h1));
            assert(vs.subrange(0, n) =~= vs.subrange(0, n - 1).push(v));
            let added0 = vs.subrange(0, n - 1).to_multiset();
            let added1 = vs.subrange(0, n).to_multiset();
            let kept0 = h0.items().to_multiset();
            let kept1 = h1.items().to_multiset();
            assert(added1 =~= added0.insert(v));
            if h0.items().len() < N {
                assert(kept1 =~= kept0.insert(v));
                assert(kept1.len() == h1.items().len());
            } else {
                Self::law_full_add_drops_least(h0, v, h1);
                let d = if c.ordered(v, h0.items()[0]) {
                    v
                } else {
                    h0.items()[0]
                };
                assert(kept0.insert(v) == kept1.insert(d));
                assert(kept1.len() == h1.items().len());
                assert(kept0.len() == h0.items().len());
                assert forall|x: T| #[trigger] kept1.count(x) <= added1.count(x) by {
                    assert(kept0.insert(v).count(x) == kept1.insert(d).count(x));
                }
                assert forall|x: T, y: T| #[trigger] added1.count(x) > kept1.count(x) && #[trigger] kept1.count(y) > 0
                    implies c.ordered(x, y) by {
                    assert(kept0.insert(v).count(x) == kept1.insert(d).count(x));
                    assert(kept0.insert(v).count(y) == kept1.insert(d).count(y));
                    assert(h1.items().contains(y));
                    let k = choose|k: int| 0 <= k < h1.items().len() && h1.items()[k] == y;
                    assert(c.ordered(d, h1.items()[k]));
                    if added0.count(x) > kept0.count(x) {
                        if kept0.count(y) > 0 {
                        } else {
                            assert(y == v);
                            assert(d != v);
                            assert(d == h0.items()[0]);
                            assert(h0.items().contains(d));
                            assert(kept0.count(d) > 0);
                            assert(c.ordered(x, d));
                        }
                    } else {
                        assert(x == d);
                    }
                }
            }
        }
    }

    /// Law: adding to a full heap (under a lawful order) drops, of the new
    /// item and the items held, one that comes before every item kept; so
    /// a heap fed item by item keeps the `N` items that come last.
    pub proof fn law_full_add_drops_least(h0: Self, v: T, h1: Self)
        requires
            h0.is_heap(),
            lawful::<T, C>(h0.spec_comparator()),
            h0.items().len() == N,
            N > 0,
            h1.spec_comparator() == h0.spec_comparator(),
            h0.spec_comparator().ordered(v, h0.items()[0]) ==> h1.items() == h0.items(),
            !h0.spec_comparator().ordered(v, h0.items()[0]) ==> h1.items().to_multiset()
                == h0.items().to_multiset().insert(v).remove(h0.items()[0]),
        ensures
            ({
                let d = if h0.spec_comparator().ordered(v, h0.items()[0]) {
                    v
                } else {
                    h0.items()[0]
                };
                &&& h0.items().to_multiset().insert(v) == h1.items().to_multiset().insert(d)
                &&& forall|k: int|
                    0 <= k < h1.items().len() ==> h0.spec_comparator().ordered(d, #[trigger] h1.items()[k])
            }),
    {
        let c = h0.comparator;
        Self::lemma_root_least(h0);
        let root = h0.items()[0];
        assert(root == h0.buffer@[0]);
        assert forall|k: int| 0 <= k < h0.items().len() implies c.ordered(root, #[trigger] h0.items()[k]) by {
            assert(h0.items()[k] == h0.buffer@[k]);
        }
        if c.ordered(v, root) {
            assert forall|k: int| 0 <= k < h1.items().len() implies c.ordered(v, #[trigger] h1.items()[k]) by {
                assert(c.ordered(root, h0.items()[k]));
            }
        } else {
            assert(c.ordered(root, v));
            assert(h0.items().to_multiset().count(root) > 0) by {
                assert(h0.items().contains(root));
            }
            assert(h0.items().to_multiset().insert(v).remove(root).insert(root) =~= h0.items().to_multiset().insert(v));
            assert forall|k: int| 0 <= k < h1.items().len() implies c.ordered(root, #[trigger] h1.items()[k]) by {
                let x = h1.items()[k];
                assert(h1.items().contains(x));
                assert(h1.items().to_multiset().count(x) > 0);
                assert(h0.items().to_multiset().insert(v).count(x) > 0);
                if x != v {
                    assert(h0.items().to_multiset().count(x) > 0);
                    assert(h0.items().contains(x));
                    let j = choose|j: int| 0 <= j < h0.items().len() && h0.items()[j] == x;
                    assert(c.ordered(root, h0.items()[j]));
                }
            }
        }
    }

    /// In a heap-ordered heap with a lawful order the root comes first.
    proof fn lemma_root_least(h: Self)
        requires
            lawful::<T, C>(h.comparator),
            h.heap_ordered(),
            h.count <= N,
        ensures
            forall|a: int| 0 <= a < h.count ==> #[trigger] h.comparator.ordered(h.buffer@[0], h.buffer@[a]),
    {
        assert forall|a: int| 0 <= a < h.count implies #[trigger] h.comparator.ordered(h.buffer@[0], h.buffer@[a]) by {
            Self::lemma_root_least_at(h, a);
        }
    }

    proof fn lemma_root_least_at(h: Self, a: int)
        requires
            lawful::<T, C>(h.comparator),
            h.heap_ordered(),
            0 <= a < h.count,
            h.count <= N,
        ensures
            h.comparator.ordered(h.buffer@[0], h.buffer@[a]),
        decreases a,
    {
        if a == 0 {
            assert(h.comparator.ordered(h.buffer@[0], h.buffer@[0]) || h.comparator.ordered(h.buffer@[0], h.buffer@[0]));
        } else {
            Self::lemma_root_least_at(h, parent(a));
            assert(h.comparator.ordered(h.buffer@[parent(a)], h.buffer@[a]));
        }
    }
}

} // verus!
