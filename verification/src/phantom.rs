//! A pool of edge slots that pairs two triangles meeting at an edge that
//! is discovered from both sides at different times.
use vstd::prelude::*;

verus! {

/// The triangle, and the vertex opposite the edge, that first met an edge.
#[derive(Copy, Clone, Debug, PartialEq, Eq, Structural)]
pub struct PhantomHandler {
    pub vertex: usize,
    pub triangle: usize,
}

/// The content of a free slot.
pub open spec fn empty_handler() -> PhantomHandler {
    PhantomHandler { vertex: usize::MAX, triangle: usize::MAX }
}

/// The content of a slot handed out and not yet met by a triangle.
pub open spec fn reserved_handler() -> PhantomHandler {
    PhantomHandler { vertex: 0, triangle: usize::MAX }
}

/// Reports the capacity of `v`; std documents it is at least the length.
#[verifier::external_body]
fn vec_capacity(v: &Vec<usize>) -> (r: usize)
    ensures
        r >= v@.len(),
{
    v.capacity()
}

/// Slots indexed from 0; free slots are kept on a stack and hold the
/// empty handler.
pub struct PhantomEdgePool {
    buffer: Vec<PhantomHandler>,
    unused: Vec<usize>,
}

impl PhantomEdgePool {
    pub closed spec fn slots(&self) -> Seq<PhantomHandler> {
        self.buffer@
    }

    /// The free slots, the next one to be handed out last.
    pub closed spec fn free(&self) -> Seq<usize> {
        self.unused@
    }

    pub open spec fn wf(&self) -> bool {
        &&& forall|k: int|
            0 <= k < self.free().len() ==> #[trigger] self.free()[k] < self.slots().len()
                && self.slots()[self.free()[k] as int] == empty_handler()
        &&& self.free().no_duplicates()
    }

    fn empty() -> (r: PhantomHandler)
        ensures
            r == empty_handler(),
    {
        PhantomHandler { vertex: usize::MAX, triangle: usize::MAX }
    }

    /// A pool with four free slots, handed out from slot 0 upwards.
    pub fn new() -> (r: Self)
        ensures
            r.wf(),
            r.slots() == seq![empty_handler(), empty_handler(), empty_handler(), empty_handler()],
            r.free() == seq![3usize, 2, 1, 0],
    {
        let capacity: usize = 4;
        let mut store = PhantomEdgePool {
            buffer: Vec::with_capacity(capacity),
            unused: Vec::with_capacity(capacity),
        };
        store.reserve(capacity);
        assert(store.slots() =~= seq![empty_handler(), empty_handler(), empty_handler(), empty_handler()]);
        assert(store.free() =~= seq![3usize, 2, 1, 0]);
        store
    }

    /// Adds `length` free slots after the existing ones.
    fn reserve(&mut self, length: usize)
        requires
            old(self).wf(),
            length > 0,
            old(self).slots().len() + length <= usize::MAX,
        ensures
            final(self).wf(),
            final(self).slots().len() == old(self).slots().len() + length,
            final(self).slots().subrange(0, old(self).slots().len() as int) == old(self).slots(),
            forall|k: int|
                old(self).slots().len() <= k < final(self).slots().len() ==> #[trigger] final(self).slots()[k]
                    == empty_handler(),
            final(self).free() == old(self).free() + Seq::new(
                length as nat,
                |k: int| (old(self).slots().len() + length - 1 - k) as usize,
            ),
    {
        let n = self.buffer.len();
        let mut i: usize = 0;
        while i < length
            invariant
                n == old(self).buffer@.len(),
                n + length <= usize::MAX,
                i <= length,
                self.unused@ == old(self).unused@,
                self.buffer@.len() == n + i,
                self.buffer@.subrange(0, n as int) == old(self).buffer@,
                forall|k: int| n <= k < n + i ==> #[trigger] self.buffer@[k] == empty_handler(),
            decreases length - i,
        {
            self.buffer.push(Self::empty());
            i += 1;
            assert(self.buffer@.subrange(0, n as int) =~= old(self).buffer@);
        }
        let mut j: usize = length;
        while j > 0
            invariant
                n == old(self).buffer@.len(),
                n + length <= usize::MAX,
                j <= length,
                self.buffer@.len() == n + length,
                self.buffer@.subrange(0, n as int) == old(self).buffer@,
                forall|k: int| n <= k < n + length ==> #[trigger] self.buffer@[k] == empty_handler(),
                self.unused@ == old(self).unused@ + Seq::new(
                    (length - j) as nat,
                    |k: int| (n + length - 1 - k) as usize,
                ),
            decreases j,
        {
            j -= 1;
            self.unused.push(n + j);
            assert(self.unused@ =~= old(self).unused@ + Seq::new(
                (length - j) as nat,
                |k: int| (n + length - 1 - k) as usize,
            ));
        }
        proof {
            let added = Seq::new(length as nat, |k: int| (n + length - 1 - k) as usize);
            assert(self.unused@ =~= old(self).unused@ + added);
            assert forall|k: int| 0 <= k < self.free().len() implies #[trigger] self.free()[k]
                < self.slots().len() && self.slots()[self.free()[k] as int] == empty_handler() by {
                if k < old(self).unused@.len() {
                    assert(self.free()[k] == old(self).free()[k]);
                    assert(old(self).slots()[old(self).free()[k] as int] == empty_handler());
                    assert(self.buffer@.subrange(0, n as int)[old(self).free()[k] as int]
                        == self.buffer@[old(self).free()[k] as int]);
                }
            }
            assert forall|a: int, b: int|
                0 <= a < self.free().len() && 0 <= b < self.free().len() && a != b implies
                self.free()[a] != self.free()[b] by {
                let m = old(self).unused@.len() as int;
                if a < m && b < m {
                    assert(old(self).free().no_duplicates());
                } else if a < m {
                    assert(old(self).free()[a] < n);
                } else if b < m {
                    assert(old(self).free()[b] < n);
                }
            }
        }
    }

    /// The handler stored in slot `index`, if any.
    pub fn get(&self, index: usize) -> (r: Option<PhantomHandler>)
        requires
            index < self.slots().len(),
        ensures
            self.slots()[index as int].triangle == usize::MAX ==> r is None,
            self.slots()[index as int].triangle != usize::MAX ==> r == Some(self.slots()[index as int]),
    {
        let item = self.buffer[index];
        if item.triangle == usize::MAX {
            None
        } else {
            Some(item)
        }
    }

    /// Stores `handler` in slot `index`, which is in use.
    pub fn register_phantom_link(&mut self, index: usize, handler: PhantomHandler)
        requires
            old(self).wf(),
            index < old(self).slots().len(),
            old(self).slots()[index as int] != empty_handler(),
            handler != empty_handler(),
        ensures
            final(self).wf(),
            final(self).slots() == old(self).slots().update(index as int, handler),
            final(self).free() == old(self).free(),
    {
        proof {
            old(self).lemma_in_use_not_free(index);
        }
        self.buffer.set(index, handler);
        proof {
            assert forall|k: int| 0 <= k < self.free().len() implies #[trigger] self.free()[k]
                < self.slots().len() && self.slots()[self.free()[k] as int] == empty_handler() by {
                assert(old(self).free()[k] != index);
            }
        }
    }

    /// A slot that is not empty is not free.
    pub proof fn lemma_in_use_not_free(&self, index: usize)
        requires
            self.wf(),
            index < self.slots().len(),
            self.slots()[index as int] != empty_handler(),
        ensures
            !self.free().contains(index),
    {
        if self.free().contains(index) {
            let k = choose|k: int| 0 <= k < self.free().len() && self.free()[k] == index;
            assert(self.slots()[self.free()[k] as int] == empty_handler());
        }
    }

    /// The number of slots.
    pub fn len(&self) -> (r: usize)
        ensures
            r == self.slots().len(),
    {
        self.buffer.len()
    }

    /// Whether slot `index` exists and is handed out.
    pub fn is_in_use(&self, index: usize) -> (r: bool)
        ensures
            r == (index < self.slots().len() && self.slots()[index as int] != empty_handler()),
    {
        if index < self.buffer.len() {
            let item = self.buffer[index];
            item.vertex != usize::MAX || item.triangle != usize::MAX
        } else {
            false
        }
    }

    /// Hands out a free slot, adding new slots when none is free, and
    /// marks it reserved.
    pub fn alloc_phantom_index(&mut self) -> (r: usize)
        requires
            old(self).wf(),
            2 * old(self).slots().len() + 1 <= usize::MAX,
        ensures
            final(self).wf(),
            r < final(self).slots().len(),
            final(self).slots()[r as int] == reserved_handler(),
            !final(self).free().contains(r),
            old(self).slots().len() <= final(self).slots().len(),
            forall|k: int|
                0 <= k < old(self).slots().len() && k != r ==> #[trigger] final(self).slots()[k] == old(
                    self,
                ).slots()[k],
            forall|k: int|
                old(self).slots().len() <= k < final(self).slots().len() && k != r
                    ==> #[trigger] final(self).slots()[k] == empty_handler(),
            old(self).free().len() > 0 ==> {
                &&& r == old(self).free().last()
                &&& final(self).free() == old(self).free().drop_last()
            },
            old(self).free().len() == 0 ==> r == old(self).slots().len(),
    {
        if self.unused.len() == 0 {
            let cap = vec_capacity(&self.unused);
            let length = if cap > 0 && cap <= self.buffer.len() + 1 {
                cap
            } else {
                1
            };
            self.reserve(length);
            proof {
                assert(self.free().len() == length);
                assert(self.free().last() == old(self).slots().len());
            }
        }
        let ghost before = *self;
        let r = self.unused.pop().unwrap();
        proof {
            assert(self.free() =~= before.free().drop_last());
            assert(before.free().no_duplicates());
            assert(before.slots()[r as int] == empty_handler());
            if self.free().contains(r) {
                let k = choose|k: int| 0 <= k < self.free().len() && self.free()[k] == r;
                assert(before.free()[k] == before.free()[before.free().len() - 1]);
            }
        }
        self.buffer.set(r, PhantomHandler { vertex: 0, triangle: usize::MAX });
        proof {
            assert forall|k: int| 0 <= k < self.free().len() implies #[trigger] self.free()[k]
                < self.slots().len() && self.slots()[self.free()[k] as int] == empty_handler() by {
                assert(self.free()[k] != r);
                assert(before.free()[k] == self.free()[k]);
            }
            assert forall|k: int| 0 <= k < old(self).slots().len() && k != r implies #[trigger] self.slots()[k]
                == old(self).slots()[k] by {
                assert(before.slots().subrange(0, old(self).slots().len() as int)[k] == before.slots()[k]);
            }
        }
        r
    }

    /// Returns slot `index`, which is in use, to the free slots, emptying it.
    pub fn free_phantom_index(&mut self, index: usize)
        requires
            old(self).wf(),
            index < old(self).slots().len(),
            old(self).slots()[index as int] != empty_handler(),
        ensures
            final(self).wf(),
            final(self).slots() == old(self).slots().update(index as int, empty_handler()),
            final(self).free() == old(self).free().push(index),
    {
        proof {
            old(self).lemma_in_use_not_free(index);
        }
        self.buffer.set(index, Self::empty());
        self.unused.push(index);
        proof {
            assert forall|k: int| 0 <= k < self.free().len() implies #[trigger] self.free()[k]
                < self.slots().len() && self.slots()[self.free()[k] as int] == empty_handler() by {
                if k < old(self).free().len() {
                    assert(self.free()[k] == old(self).free()[k]);
                }
            }
            assert forall|a: int, b: int|
                0 <= a < self.free().len() && 0 <= b < self.free().len() && a != b implies
                self.free()[a] != self.free()[b] by {
                let m = old(self).free().len() as int;
                if a < m && b < m {
                } else if a < m {
                    assert(old(self).free()[a] != index);
                } else if b < m {
                    assert(old(self).free()[b] != index);
                }
            }
        }
    }
}

} // verus!
