//! Integer types that can index the points of a triangulation.
use vstd::prelude::*;

verus! {

/// An unsigned integer type used for triangle vertex indices.
pub trait IndexType: Copy + Sized {
    /// The index this value stands for.
    spec fn value(self) -> nat;

    /// The largest point index the type can hold, as a `usize`.
    spec fn index_limit() -> nat;

    /// The largest point index the type can hold.
    fn max_index() -> (r: usize)
        ensures
            r == Self::index_limit(),
    ;

    fn zero() -> (r: Self)
        ensures
            r.value() == 0,
    ;

    fn add(self, other: Self) -> (r: Self)
        requires
            self.value() + other.value() <= Self::index_limit(),
        ensures
            r.value() == self.value() + other.value(),
    ;

    /// The index as a `usize` (exact whenever it fits).
    fn into_usize(self) -> (r: usize)
        ensures
            self.value() <= usize::MAX ==> r == self.value(),
    ;

    /// Two values that stand for the same index are the same.
    proof fn lemma_value_injective(a: Self, b: Self)
        requires
            a.value() == b.value(),
        ensures
            a == b,
    ;

    /// Converts `v`, which must fit.
    fn from_usize(v: usize) -> (r: Self)
        requires
            v <= Self::index_limit(),
        ensures
            r.value() == v,
    ;

    /// Converts `v`, or gives `None` when it does not fit.
    fn try_from_usize(v: usize) -> (r: Option<Self>)
        ensures
            v <= Self::index_limit() <==> r is Some,
            r matches Some(x) ==> x.value() == v,
    ;
}

impl IndexType for u8 {
    open spec fn value(self) -> nat {
        self as nat
    }

    proof fn lemma_value_injective(a: Self, b: Self) {
    }

    open spec fn index_limit() -> nat {
        u8::MAX as nat
    }

    fn max_index() -> (r: usize) {
        u8::MAX as usize
    }

    fn zero() -> (r: Self) {
        0
    }

    fn add(self, other: Self) -> (r: Self) {
        self + other
    }

    fn into_usize(self) -> (r: usize) {
        self as usize
    }

    fn from_usize(v: usize) -> (r: Self) {
        v as u8
    }

    fn try_from_usize(v: usize) -> (r: Option<Self>) {
        if v <= u8::MAX as usize {
            Some(v as u8)
        } else {
            None
        }
    }
}

impl IndexType for u16 {
    open spec fn value(self) -> nat {
        self as nat
    }

    proof fn lemma_value_injective(a: Self, b: Self) {
    }

    open spec fn index_limit() -> nat {
        u16::MAX as nat
    }

    fn max_index() -> (r: usize) {
        u16::MAX as usize
    }

    fn zero() -> (r: Self) {
        0
    }

    fn add(self, other: Self) -> (r: Self) {
        self + other
    }

    fn into_usize(self) -> (r: usize) {
        self as usize
    }

    fn from_usize(v: usize) -> (r: Self) {
        v as u16
    }

    fn try_from_usize(v: usize) -> (r: Option<Self>) {
        if v <= u16::MAX as usize {
            Some(v as u16)
        } else {
            None
        }
    }
}

impl IndexType for u32 {
    open spec fn value(self) -> nat {
        self as nat
    }

    proof fn lemma_value_injective(a: Self, b: Self) {
    }

    open spec fn index_limit() -> nat {
        if u32::MAX <= usize::MAX {
            u32::MAX as nat
        } else {
            usize::MAX as nat
        }
    }

    fn max_index() -> (r: usize) {
        if (u32::MAX as u64) <= (usize::MAX as u64) {
            u32::MAX as usize
        } else {
            usize::MAX
        }
    }

    fn zero() -> (r: Self) {
        0
    }

    fn add(self, other: Self) -> (r: Self) {
        self + other
    }

    fn into_usize(self) -> (r: usize) {
        proof {
            assert(self as nat <= Self::index_limit());
        }
        self as usize
    }

    fn from_usize(v: usize) -> (r: Self) {
        v as u32
    }

    fn try_from_usize(v: usize) -> (r: Option<Self>) {
        if (v as u64) <= (u32::MAX as u64) {
            Some(v as u32)
        } else {
            None
        }
    }
}

impl IndexType for u64 {
    open spec fn value(self) -> nat {
        self as nat
    }

    proof fn lemma_value_injective(a: Self, b: Self) {
    }

    open spec fn index_limit() -> nat {
        usize::MAX as nat
    }

    fn max_index() -> (r: usize) {
        usize::MAX
    }

    fn zero() -> (r: Self) {
        0
    }

    fn add(self, other: Self) -> (r: Self) {
        self + other
    }

    fn into_usize(self) -> (r: usize) {
        self as usize
    }

    fn from_usize(v: usize) -> (r: Self) {
        v as u64
    }

    fn try_from_usize(v: usize) -> (r: Option<Self>) {
        Some(v as u64)
    }
}

impl IndexType for usize {
    open spec fn value(self) -> nat {
        self as nat
    }

    proof fn lemma_value_injective(a: Self, b: Self) {
    }

    open spec fn index_limit() -> nat {
        usize::MAX as nat
    }

    fn max_index() -> (r: usize) {
        usize::MAX
    }

    fn zero() -> (r: Self) {
        0
    }

    fn add(self, other: Self) -> (r: Self) {
        self + other
    }

    fn into_usize(self) -> (r: usize) {
        self
    }

    fn from_usize(v: usize) -> (r: Self) {
        v
    }

    fn try_from_usize(v: usize) -> (r: Option<Self>) {
        Some(v)
    }
}

} // verus!
