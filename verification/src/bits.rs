//! 64-bit masks used as sets of contour indices.
use vstd::prelude::*;
use vstd::std_specs::bits::*;

verus! {

broadcast use group_bits_axioms;

/// Bit `i` of `x` is set.
pub open spec fn bit(x: u64, i: u64) -> bool {
    (x >> i) & 1u64 == 1u64
}

/// Steps from `from` forward (cyclically, over 64 positions) to reach `j`;
/// `from` itself is the farthest position, at 63 steps.
pub open spec fn fwd(from: int, j: int) -> int {
    if j > from {
        j - from - 1
    } else {
        j - from + 63
    }
}

/// Steps from `from` backward (cyclically) to reach `j`; `from` itself is
/// the farthest position.
pub open spec fn bwd(from: int, j: int) -> int {
    if j < from {
        from - j - 1
    } else {
        from - j + 63
    }
}

pub proof fn lemma_bit_ops(x: u64, y: u64, i: u64)
    by (bit_vector)
    requires
        i < 64,
    ensures
        bit(x & y, i) == (bit(x, i) && bit(y, i)),
        bit(x | y, i) == (bit(x, i) || bit(y, i)),
        bit(!x, i) == !bit(x, i),
{
}

pub proof fn lemma_bit_zero(x: u64)
    ensures
        x == 0 <==> (forall|i: u64| i < 64 ==> !#[trigger] bit(x, i)),
{
    assert forall|i: u64| i < 64 && x == 0 implies !#[trigger] bit(x, i) by {
        assert(i < 64 && x == 0 ==> (x >> i) & 1u64 == 0u64) by (bit_vector);
    }
    if x != 0 {
        let t = u64_trailing_zeros(x) as u64;
        assert(bit(x, t));
    }
}

pub proof fn lemma_bit_shifted_ones(z: u64, i: u64)
    by (bit_vector)
    requires
        z < 64,
        i < 64,
    ensures
        bit(u64::MAX >> z, i) == (i + z < 64),
        bit(u64::MAX << z, i) == (i >= z),
        bit(1u64 << z, i) == (i == z),
{
}

/// All bits at positions below `trailing_zeros` are clear and the bit at
/// `trailing_zeros` is set.
pub proof fn lemma_trailing_zeros(x: u64)
    requires
        x != 0,
    ensures
        u64_trailing_zeros(x) < 64,
        bit(x, u64_trailing_zeros(x) as u64),
        forall|k: u64| k < u64_trailing_zeros(x) ==> !#[trigger] bit(x, k),
{
    let t = u64_trailing_zeros(x);
    assert forall|k: u64| k < u64_trailing_zeros(x) implies !#[trigger] bit(x, k) by {
        assert((x >> k) & 1u64 == 0u64);
    }
}

/// The highest set bit is at `63 - leading_zeros`.
pub proof fn lemma_leading_zeros(x: u64)
    requires
        x != 0,
    ensures
        u64_leading_zeros(x) < 64,
        bit(x, (63 - u64_leading_zeros(x)) as u64),
        forall|k: u64| 63 - u64_leading_zeros(x) < k < 64 ==> !#[trigger] bit(x, k),
{
    let l = u64_leading_zeros(x);
    let s = (63 - l) as u64;
    assert((x >> s) & 1u64 != 0u64);
    assert((x >> s) & 1u64 != 0u64 ==> (x >> s) & 1u64 == 1u64) by (bit_vector);
    assert forall|k: u64| 63 - u64_leading_zeros(x) < k < 64 implies !#[trigger] bit(x, k) by {
        assert((x >> k) & 1u64 == 0u64);
    }
}

/// Index `i` belongs to the mask `x`.
pub open spec fn mask_has(x: u64, i: int) -> bool {
    0 <= i < 64 && bit(x, i as u64)
}

/// Steps from `s` forward (cyclically) to reach `j`; 0 for `j == s`.
pub open spec fn dist(s: int, j: int) -> int {
    if j >= s {
        j - s
    } else {
        j - s + 64
    }
}

/// `r` is the first index of `x` met walking forward from `after`.
pub open spec fn is_next(x: u64, after: int, r: int) -> bool {
    &&& mask_has(x, r)
    &&& forall|k: int| mask_has(x, k) ==> fwd(after, r) <= #[trigger] fwd(after, k)
}

/// `r` is the first index of `x` met walking backward from `before`.
pub open spec fn is_prev(x: u64, before: int, r: int) -> bool {
    &&& mask_has(x, r)
    &&& forall|k: int| mask_has(x, k) ==> bwd(before, r) <= #[trigger] bwd(before, k)
}

/// The first index of `x` met walking cyclically forward from `after`.
pub open spec fn next_of(x: u64, after: int) -> int {
    if exists|r: int| is_next(x, after, r) {
        choose|r: int| is_next(x, after, r)
    } else {
        64
    }
}

/// The first index of `x` met walking cyclically backward from `before`.
pub open spec fn prev_of(x: u64, before: int) -> int {
    if exists|r: int| is_prev(x, before, r) {
        choose|r: int| is_prev(x, before, r)
    } else {
        64
    }
}

pub proof fn lemma_next_unique(x: u64, after: int, r: int)
    requires
        0 <= after < 64,
        is_next(x, after, r),
    ensures
        next_of(x, after) == r,
{
    let q = next_of(x, after);
    assert(is_next(x, after, q));
    assert(fwd(after, q) <= fwd(after, r));
    assert(fwd(after, r) <= fwd(after, q));
}

pub proof fn lemma_prev_unique(x: u64, before: int, r: int)
    requires
        0 <= before < 64,
        is_prev(x, before, r),
    ensures
        prev_of(x, before) == r,
{
    let q = prev_of(x, before);
    assert(is_prev(x, before, q));
    assert(bwd(before, q) <= bwd(before, r));
    assert(bwd(before, r) <= bwd(before, q));
}

/// Number of indices of `x` below `k`.
pub open spec fn count_below(x: u64, k: int) -> nat
    decreases k,
{
    if k <= 0 {
        0
    } else {
        count_below(x, k - 1) + if mask_has(x, k - 1) {
            1nat
        } else {
            0nat
        }
    }
}

/// Number of indices in the mask.
pub open spec fn popcount(x: u64) -> nat {
    count_below(x, 64)
}

/// Counts the set bits of `x` (std's `u64::count_ones`, which returns the
/// number of ones in the binary representation).
#[verifier::external_body]
pub fn count_ones(x: u64) -> (r: u32)
    ensures
        r == popcount(x),
{
    x.count_ones()
}

/// When membership adds up pointwise, counts add up.
pub proof fn lemma_count_sum(x: u64, y: u64, z: u64, k: int)
    requires
        k <= 64,
        forall|j: int|
            0 <= j < 64 ==> (if mask_has(x, j) {
                1int
            } else {
                0int
            }) + (if mask_has(y, j) {
                1int
            } else {
                0int
            }) == (if mask_has(z, j) {
                1int
            } else {
                0int
            }),
    ensures
        count_below(x, k) + count_below(y, k) == count_below(z, k),
    decreases k,
{
    if k > 0 {
        lemma_count_sum(x, y, z, k - 1);
        let j = k - 1;
        assert((if mask_has(x, j) {
            1int
        } else {
            0int
        }) + (if mask_has(y, j) {
            1int
        } else {
            0int
        }) == (if mask_has(z, j) {
            1int
        } else {
            0int
        }));
    }
}

/// When membership adds up pointwise, `x + y == z + w`, counts add up.
pub proof fn lemma_count_sum4(x: u64, y: u64, z: u64, w: u64, k: int)
    requires
        k <= 64,
        forall|j: int|
            0 <= j < 64 ==> (if mask_has(x, j) {
                1int
            } else {
                0int
            }) + (if mask_has(y, j) {
                1int
            } else {
                0int
            }) == (if mask_has(z, j) {
                1int
            } else {
                0int
            }) + (if mask_has(w, j) {
                1int
            } else {
                0int
            }),
    ensures
        count_below(x, k) + count_below(y, k) == count_below(z, k) + count_below(w, k),
    decreases k,
{
    if k > 0 {
        lemma_count_sum4(x, y, z, w, k - 1);
        let j = k - 1;
        assert((if mask_has(x, j) {
            1int
        } else {
            0int
        }) + (if mask_has(y, j) {
            1int
        } else {
            0int
        }) == (if mask_has(z, j) {
            1int
        } else {
            0int
        }) + (if mask_has(w, j) {
            1int
        } else {
            0int
        }));
    }
}

/// A mask holding exactly one index counts one.
pub proof fn lemma_count_single(x: u64, s: int, k: int)
    requires
        0 <= s < 64,
        0 <= k <= 64,
        forall|j: int| mask_has(x, j) <==> j == s,
    ensures
        count_below(x, k) == if s < k {
            1nat
        } else {
            0nat
        },
    decreases k,
{
    if k > 0 {
        lemma_count_single(x, s, k - 1);
        if mask_has(x, k - 1) {
            assert(k - 1 == s);
        }
        assert(mask_has(x, s));
    }
}

/// Membership in `&`, `|` and `!` of masks.
pub proof fn lemma_mask_ops(x: u64, y: u64)
    ensures
        forall|j: int| #[trigger] mask_has(x & y, j) == (mask_has(x, j) && mask_has(y, j)),
        forall|j: int| #[trigger] mask_has(x | y, j) == (mask_has(x, j) || mask_has(y, j)),
        forall|j: int| #[trigger] mask_has(!x, j) == (0 <= j < 64 && !mask_has(x, j)),
{
    assert forall|j: int| #[trigger] mask_has(x & y, j) == (mask_has(x, j) && mask_has(y, j)) by {
        if 0 <= j < 64 {
            lemma_bit_ops(x, y, j as u64);
        }
    }
    assert forall|j: int| #[trigger] mask_has(x | y, j) == (mask_has(x, j) || mask_has(y, j)) by {
        if 0 <= j < 64 {
            lemma_bit_ops(x, y, j as u64);
        }
    }
    assert forall|j: int| #[trigger] mask_has(!x, j) == (0 <= j < 64 && !mask_has(x, j)) by {
        if 0 <= j < 64 {
            lemma_bit_ops(x, y, j as u64);
        }
    }
}

/// Membership in a single-bit mask.
pub proof fn lemma_mask_single(s: u64)
    requires
        s < 64,
    ensures
        forall|j: int| #[trigger] mask_has(1u64 << s, j) == (j == s),
{
    assert forall|j: int| #[trigger] mask_has(1u64 << s, j) == (j == s) by {
        if 0 <= j < 64 {
            lemma_bit_shifted_ones(s, j as u64);
        }
    }
}

/// A mask whose indices are all in another counts no more.
pub proof fn lemma_count_subset(x: u64, y: u64, k: int)
    requires
        k <= 64,
        forall|j: int| mask_has(x, j) ==> mask_has(y, j),
    ensures
        count_below(x, k) <= count_below(y, k),
    decreases k,
{
    if k > 0 {
        lemma_count_subset(x, y, k - 1);
    }
}

/// A mask holding three distinct indices counts at least three; holding
/// two, at least two; holding one, at least one.
pub proof fn lemma_count_at_least(x: u64, a: int, b: int, c: int, k: int)
    requires
        0 <= k <= 64,
    ensures
        mask_has(x, a) && a < k ==> count_below(x, k) >= 1,
        mask_has(x, a) && mask_has(x, b) && a != b && a < k && b < k ==> count_below(x, k) >= 2,
        mask_has(x, a) && mask_has(x, b) && mask_has(x, c) && a != b && b != c && a != c && a < k
            && b < k && c < k ==> count_below(x, k) >= 3,
    decreases k,
{
    if k > 0 {
        lemma_count_at_least(x, a, b, c, k - 1);
        lemma_count_at_least(x, a, c, b, k - 1);
        lemma_count_at_least(x, b, c, a, k - 1);
        lemma_count_at_least(x, b, a, c, k - 1);
        lemma_count_at_least(x, c, a, b, k - 1);
        lemma_count_at_least(x, c, b, a, k - 1);
    }
}

/// An empty mask counts zero, and conversely.
pub proof fn lemma_count_zero(x: u64, k: int)
    requires
        0 <= k <= 64,
    ensures
        count_below(x, k) == 0 <==> forall|j: int| 0 <= j < k ==> !mask_has(x, j),
    decreases k,
{
    if k > 0 {
        lemma_count_zero(x, k - 1);
    }
}

/// Walking forward from a member `i` other than `s` moves farther from
/// `s`, unless it comes back to `s`; no member lies in between.
pub proof fn lemma_next_dist(x: u64, s: int, i: int, j: int)
    requires
        mask_has(x, s),
        mask_has(x, i),
        i != s,
        is_next(x, i, j),
    ensures
        j != i,
        j != s ==> dist(s, j) > dist(s, i),
        forall|m: int| mask_has(x, m) && m != s ==> !(dist(s, i) < #[trigger] dist(s, m) < dist(s, j)),
        j != s ==> forall|m: int| mask_has(x, m) && m != s ==> !(dist(s, i) < #[trigger] dist(s, m) < dist(s, j)),
{
    assert(fwd(i, j) <= fwd(i, s));
    assert forall|m: int| mask_has(x, m) && m != s implies !(dist(s, i) < #[trigger] dist(s, m) < dist(s, j)) by {
        assert(fwd(i, j) <= fwd(i, m));
    }
}

/// Walking backward from a member `i` other than `s` comes closer to `s`.
pub proof fn lemma_prev_dist(x: u64, s: int, i: int, j: int)
    requires
        mask_has(x, s),
        mask_has(x, i),
        i != s,
        is_prev(x, i, j),
    ensures
        j != i,
        dist(s, j) < dist(s, i),
{
    assert(bwd(i, j) <= bwd(i, s));
}

/// Clearing a set bit removes exactly that index and lowers the value.
pub proof fn lemma_clear_bit(x: u64, i: u64)
    requires
        i < 64,
        bit(x, i),
    ensures
        x & !(1u64 << i) < x,
        forall|j: int| #[trigger] mask_has(x & !(1u64 << i), j) == (mask_has(x, j) && j != i),
{
    assert(x & !(1u64 << i) < x) by (bit_vector)
        requires
            i < 64,
            (x >> i) & 1u64 == 1u64,
    ;
    assert forall|j: int| #[trigger] mask_has(x & !(1u64 << i), j) == (mask_has(x, j) && j != i) by {
        if 0 <= j < 64 {
            lemma_bit_ops(x, !(1u64 << i), j as u64);
            lemma_bit_ops(1u64 << i, 0, j as u64);
            lemma_bit_shifted_ones(i, j as u64);
        }
    }
}

/// A non-empty mask has a first member after any position.
pub proof fn lemma_least_member_exists(x: u64, after: int)
    requires
        0 <= after < 64,
        exists|i: int| mask_has(x, i),
    ensures
        exists|r: int| is_next(x, after, r),
        is_next(x, after, next_of(x, after)),
{
    let w = choose|i: int| mask_has(x, i);
    lemma_least_member_exists_rec(x, after, w, 64);
    assert(exists|r: int| is_next(x, after, r));
}

proof fn lemma_least_member_exists_rec(x: u64, after: int, w: int, bound: int)
    requires
        0 <= after < 64,
        mask_has(x, w),
        fwd(after, w) < bound,
    ensures
        exists|r: int| is_next(x, after, r),
    decreases bound,
{
    if exists|k: int| mask_has(x, k) && fwd(after, k) < fwd(after, w) {
        let k = choose|k: int| mask_has(x, k) && fwd(after, k) < fwd(after, w);
        lemma_least_member_exists_rec(x, after, k, fwd(after, w));
    } else {
        assert(is_next(x, after, w));
    }
}

/// A non-empty mask has a first member before any position.
pub proof fn lemma_prev_member(x: u64, before: int)
    requires
        0 <= before < 64,
        exists|i: int| mask_has(x, i),
    ensures
        is_prev(x, before, prev_of(x, before)),
        mask_has(x, prev_of(x, before)),
{
    let w = choose|i: int| mask_has(x, i);
    lemma_prev_member_rec(x, before, w, 64);
    assert(exists|r: int| is_prev(x, before, r));
}

proof fn lemma_prev_member_rec(x: u64, before: int, w: int, bound: int)
    requires
        0 <= before < 64,
        mask_has(x, w),
        bwd(before, w) < bound,
    ensures
        exists|r: int| is_prev(x, before, r),
    decreases bound,
{
    if exists|k: int| mask_has(x, k) && bwd(before, k) < bwd(before, w) {
        let k = choose|k: int| mask_has(x, k) && bwd(before, k) < bwd(before, w);
        lemma_prev_member_rec(x, before, k, bwd(before, w));
    } else {
        assert(is_prev(x, before, w));
    }
}

/// Operations on a 64-bit mask seen as a set of indices in `0..64`.
pub trait Bit: Sized {
    /// Whether index `i` belongs to the mask.
    spec fn has(&self, i: int) -> bool;

    /// The indices in `0..index`; when `index` is 0, all 64 indices.
    fn ones_start_to_index(index: usize) -> (r: Self)
        requires
            index <= 64,
        ensures
            forall|i: int| 0 <= i < 64 ==> (r.has(i) <==> (index == 0 || i < index)),
    ;

    /// The indices in `index..64`; when `index` is 64, all 64 indices.
    fn ones_index_to_end(index: usize) -> (r: Self)
        requires
            index <= 64,
        ensures
            forall|i: int| 0 <= i < 64 ==> (r.has(i) <==> (index == 64 || i >= index)),
    ;

    /// The indices in `min..=max`.
    fn ones_in_sorted_closed_range(min: usize, max: usize) -> (r: Self)
        requires
            min <= max <= 64,
            min < 64,
        ensures
            forall|i: int| 0 <= i < 64 ==> (r.has(i) <==> min <= i <= max),
    ;

    /// The indices met walking cyclically from `start` to `end`, both
    /// included; all indices when `start == end`.
    fn ones_in_range_include(start: usize, end: usize) -> (r: Self)
        requires
            start <= 64,
            end <= 64,
            end <= start ==> start < 64,
        ensures
            forall|i: int|
                0 <= i < 64 ==> (r.has(i) <==> if start < end {
                    start <= i <= end
                } else {
                    i <= end || start <= i
                }),
    ;

    /// The first index of the mask met walking cyclically forward from
    /// `after` (excluded, unless it is the only one); 64 for an empty mask.
    fn next_wrapped_index(&self, after: usize) -> (r: usize)
        requires
            after < 64,
        ensures
            (forall|i: int| 0 <= i < 64 ==> !self.has(i)) ==> r == 64,
            (exists|i: int| 0 <= i < 64 && self.has(i)) ==> r < 64 && self.has(r as int) && (
            forall|k: int| 0 <= k < 64 && self.has(k) ==> fwd(after as int, r as int) <= fwd(
                after as int,
                k,
            )),
    ;

    /// The first index of the mask met walking cyclically backward from
    /// `before` (excluded, unless it is the only one).
    fn prev_wrapped_index(&self, before: usize) -> (r: usize)
        requires
            before < 64,
            exists|i: int| 0 <= i < 64 && self.has(i),
        ensures
            r < 64,
            self.has(r as int),
            forall|k: int|
                0 <= k < 64 && self.has(k) ==> bwd(before as int, r as int) <= bwd(
                    before as int,
                    k,
                ),
    ;
}

/// Two masks with the same members are the same mask.
pub proof fn lemma_mask_ext(x: u64, y: u64)
    requires
        forall|j: int| #[trigger] mask_has(x, j) == mask_has(y, j),
    ensures
        x == y,
{
    assert(mask_has(x, 0) == mask_has(y, 0));
    assert(mask_has(x, 1) == mask_has(y, 1));
    assert(mask_has(x, 2) == mask_has(y, 2));
    assert(mask_has(x, 3) == mask_has(y, 3));
    assert(mask_has(x, 4) == mask_has(y, 4));
    assert(mask_has(x, 5) == mask_has(y, 5));
    assert(mask_has(x, 6) == mask_has(y, 6));
    assert(mask_has(x, 7) == mask_has(y, 7));
    assert(mask_has(x, 8) == mask_has(y, 8));
    assert(mask_has(x, 9) == mask_has(y, 9));
    assert(mask_has(x, 10) == mask_has(y, 10));
    assert(mask_has(x, 11) == mask_has(y, 11));
    assert(mask_has(x, 12) == mask_has(y, 12));
    assert(mask_has(x, 13) == mask_has(y, 13));
    assert(mask_has(x, 14) == mask_has(y, 14));
    assert(mask_has(x, 15) == mask_has(y, 15));
    assert(mask_has(x, 16) == mask_has(y, 16));
    assert(mask_has(x, 17) == mask_has(y, 17));
    assert(mask_has(x, 18) == mask_has(y, 18));
    assert(mask_has(x, 19) == mask_has(y, 19));
    assert(mask_has(x, 20) == mask_has(y, 20));
    assert(mask_has(x, 21) == mask_has(y, 21));
    assert(mask_has(x, 22) == mask_has(y, 22));
    assert(mask_has(x, 23) == mask_has(y, 23));
    assert(mask_has(x, 24) == mask_has(y, 24));
    assert(mask_has(x, 25) == mask_has(y, 25));
    assert(mask_has(x, 26) == mask_has(y, 26));
    assert(mask_has(x, 27) == mask_has(y, 27));
    assert(mask_has(x, 28) == mask_has(y, 28));
    assert(mask_has(x, 29) == mask_has(y, 29));
    assert(mask_has(x, 30) == mask_has(y, 30));
    assert(mask_has(x, 31) == mask_has(y, 31));
    assert(mask_has(x, 32) == mask_has(y, 32));
    assert(mask_has(x, 33) == mask_has(y, 33));
    assert(mask_has(x, 34) == mask_has(y, 34));
    assert(mask_has(x, 35) == mask_has(y, 35));
    assert(mask_has(x, 36) == mask_has(y, 36));
    assert(mask_has(x, 37) == mask_has(y, 37));
    assert(mask_has(x, 38) == mask_has(y, 38));
    assert(mask_has(x, 39) == mask_has(y, 39));
    assert(mask_has(x, 40) == mask_has(y, 40));
    assert(mask_has(x, 41) == mask_has(y, 41));
    assert(mask_has(x, 42) == mask_has(y, 42));
    assert(mask_has(x, 43) == mask_has(y, 43));
    assert(mask_has(x, 44) == mask_has(y, 44));
    assert(mask_has(x, 45) == mask_has(y, 45));
    assert(mask_has(x, 46) == mask_has(y, 46));
    assert(mask_has(x, 47) == mask_has(y, 47));
    assert(mask_has(x, 48) == mask_has(y, 48));
    assert(mask_has(x, 49) == mask_has(y, 49));
    assert(mask_has(x, 50) == mask_has(y, 50));
    assert(mask_has(x, 51) == mask_has(y, 51));
    assert(mask_has(x, 52) == mask_has(y, 52));
    assert(mask_has(x, 53) == mask_has(y, 53));
    assert(mask_has(x, 54) == mask_has(y, 54));
    assert(mask_has(x, 55) == mask_has(y, 55));
    assert(mask_has(x, 56) == mask_has(y, 56));
    assert(mask_has(x, 57) == mask_has(y, 57));
    assert(mask_has(x, 58) == mask_has(y, 58));
    assert(mask_has(x, 59) == mask_has(y, 59));
    assert(mask_has(x, 60) == mask_has(y, 60));
    assert(mask_has(x, 61) == mask_has(y, 61));
    assert(mask_has(x, 62) == mask_has(y, 62));
    assert(mask_has(x, 63) == mask_has(y, 63));
    assert(x == y) by (bit_vector)
        requires
            ((x >> 0u64) & 1u64 == 1u64) == ((y >> 0u64) & 1u64 == 1u64),
            ((x >> 1u64) & 1u64 == 1u64) == ((y >> 1u64) & 1u64 == 1u64),
            ((x >> 2u64) & 1u64 == 1u64) == ((y >> 2u64) & 1u64 == 1u64),
            ((x >> 3u64) & 1u64 == 1u64) == ((y >> 3u64) & 1u64 == 1u64),
            ((x >> 4u64) & 1u64 == 1u64) == ((y >> 4u64) & 1u64 == 1u64),
            ((x >> 5u64) & 1u64 == 1u64) == ((y >> 5u64) & 1u64 == 1u64),
            ((x >> 6u64) & 1u64 == 1u64) == ((y >> 6u64) & 1u64 == 1u64),
            ((x >> 7u64) & 1u64 == 1u64) == ((y >> 7u64) & 1u64 == 1u64),
            ((x >> 8u64) & 1u64 == 1u64) == ((y >> 8u64) & 1u64 == 1u64),
            ((x >> 9u64) & 1u64 == 1u64) == ((y >> 9u64) & 1u64 == 1u64),
            ((x >> 10u64) & 1u64 == 1u64) == ((y >> 10u64) & 1u64 == 1u64),
            ((x >> 11u64) & 1u64 == 1u64) == ((y >> 11u64) & 1u64 == 1u64),
            ((x >> 12u64) & 1u64 == 1u64) == ((y >> 12u64) & 1u64 == 1u64),
            ((x >> 13u64) & 1u64 == 1u64) == ((y >> 13u64) & 1u64 == 1u64),
            ((x >> 14u64) & 1u64 == 1u64) == ((y >> 14u64) & 1u64 == 1u64),
            ((x >> 15u64) & 1u64 == 1u64) == ((y >> 15u64) & 1u64 == 1u64),
            ((x >> 16u64) & 1u64 == 1u64) == ((y >> 16u64) & 1u64 == 1u64),
            ((x >> 17u64) & 1u64 == 1u64) == ((y >> 17u64) & 1u64 == 1u64),
            ((x >> 18u64) & 1u64 == 1u64) == ((y >> 18u64) & 1u64 == 1u64),
            ((x >> 19u64) & 1u64 == 1u64) == ((y >> 19u64) & 1u64 == 1u64),
            ((x >> 20u64) & 1u64 == 1u64) == ((y >> 20u64) & 1u64 == 1u64),
            ((x >> 21u64) & 1u64 == 1u64) == ((y >> 21u64) & 1u64 == 1u64),
            ((x >> 22u64) & 1u64 == 1u64) == ((y >> 22u64) & 1u64 == 1u64),
            ((x >> 23u64) & 1u64 == 1u64) == ((y >> 23u64) & 1u64 == 1u64),
            ((x >> 24u64) & 1u64 == 1u64) == ((y >> 24u64) & 1u64 == 1u64),
            ((x >> 25u64) & 1u64 == 1u64) == ((y >> 25u64) & 1u64 == 1u64),
            ((x >> 26u64) & 1u64 == 1u64) == ((y >> 26u64) & 1u64 == 1u64),
            ((x >> 27u64) & 1u64 == 1u64) == ((y >> 27u64) & 1u64 == 1u64),
            ((x >> 28u64) & 1u64 == 1u64) == ((y >> 28u64) & 1u64 == 1u64),
            ((x >> 29u64) & 1u64 == 1u64) == ((y >> 29u64) & 1u64 == 1u64),
            ((x >> 30u64) & 1u64 == 1u64) == ((y >> 30u64) & 1u64 == 1u64),
            ((x >> 31u64) & 1u64 == 1u64) == ((y >> 31u64) & 1u64 == 1u64),
            ((x >> 32u64) & 1u64 == 1u64) == ((y >> 32u64) & 1u64 == 1u64),
            ((x >> 33u64) & 1u64 == 1u64) == ((y >> 33u64) & 1u64 == 1u64),
            ((x >> 34u64) & 1u64 == 1u64) == ((y >> 34u64) & 1u64 == 1u64),
            ((x >> 35u64) & 1u64 == 1u64) == ((y >> 35u64) & 1u64 == 1u64),
            ((x >> 36u64) & 1u64 == 1u64) == ((y >> 36u64) & 1u64 == 1u64),
            ((x >> 37u64) & 1u64 == 1u64) == ((y >> 37u64) & 1u64 == 1u64),
            ((x >> 38u64) & 1u64 == 1u64) == ((y >> 38u64) & 1u64 == 1u64),
            ((x >> 39u64) & 1u64 == 1u64) == ((y >> 39u64) & 1u64 == 1u64),
            ((x >> 40u64) & 1u64 == 1u64) == ((y >> 40u64) & 1u64 == 1u64),
            ((x >> 41u64) & 1u64 == 1u64) == ((y >> 41u64) & 1u64 == 1u64),
            ((x >> 42u64) & 1u64 == 1u64) == ((y >> 42u64) & 1u64 == 1u64),
            ((x >> 43u64) & 1u64 == 1u64) == ((y >> 43u64) & 1u64 == 1u64),
            ((x >> 44u64) & 1u64 == 1u64) == ((y >> 44u64) & 1u64 == 1u64),
            ((x >> 45u64) & 1u64 == 1u64) == ((y >> 45u64) & 1u64 == 1u64),
            ((x >> 46u64) & 1u64 == 1u64) == ((y >> 46u64) & 1u64 == 1u64),
            ((x >> 47u64) & 1u64 == 1u64) == ((y >> 47u64) & 1u64 == 1u64),
            ((x >> 48u64) & 1u64 == 1u64) == ((y >> 48u64) & 1u64 == 1u64),
            ((x >> 49u64) & 1u64 == 1u64) == ((y >> 49u64) & 1u64 == 1u64),
            ((x >> 50u64) & 1u64 == 1u64) == ((y >> 50u64) & 1u64 == 1u64),
            ((x >> 51u64) & 1u64 == 1u64) == ((y >> 51u64) & 1u64 == 1u64),
            ((x >> 52u64) & 1u64 == 1u64) == ((y >> 52u64) & 1u64 == 1u64),
            ((x >> 53u64) & 1u64 == 1u64) == ((y >> 53u64) & 1u64 == 1u64),
            ((x >> 54u64) & 1u64 == 1u64) == ((y >> 54u64) & 1u64 == 1u64),
            ((x >> 55u64) & 1u64 == 1u64) == ((y >> 55u64) & 1u64 == 1u64),
            ((x >> 56u64) & 1u64 == 1u64) == ((y >> 56u64) & 1u64 == 1u64),
            ((x >> 57u64) & 1u64 == 1u64) == ((y >> 57u64) & 1u64 == 1u64),
            ((x >> 58u64) & 1u64 == 1u64) == ((y >> 58u64) & 1u64 == 1u64),
            ((x >> 59u64) & 1u64 == 1u64) == ((y >> 59u64) & 1u64 == 1u64),
            ((x >> 60u64) & 1u64 == 1u64) == ((y >> 60u64) & 1u64 == 1u64),
            ((x >> 61u64) & 1u64 == 1u64) == ((y >> 61u64) & 1u64 == 1u64),
            ((x >> 62u64) & 1u64 == 1u64) == ((y >> 62u64) & 1u64 == 1u64),
            ((x >> 63u64) & 1u64 == 1u64) == ((y >> 63u64) & 1u64 == 1u64),
    ;
}

/// The trait's membership on `u64` is `mask_has`.
pub proof fn lemma_has_is_mask(x: u64)
    ensures
        forall|i: int| #[trigger] x.has(i) == mask_has(x, i),
{
}

impl Bit for u64 {
    open spec fn has(&self, i: int) -> bool {
        0 <= i < 64 && bit(*self, i as u64)
    }

    fn ones_start_to_index(index: usize) -> (r: u64) {
        let d: usize = 64 - index;
        let zeros_count = d & 63;
        assert(d <= 64 ==> d & 63 == if d == 64 {
            0
        } else {
            d
        }) by (bit_vector);
        let r = u64::MAX >> zeros_count;
        assert forall|i: int| 0 <= i < 64 implies (r.has(i) <==> (index == 0 || i < index)) by {
            lemma_bit_shifted_ones(zeros_count as u64, i as u64);
        }
        r
    }

    fn ones_index_to_end(index: usize) -> (r: u64) {
        let zeros_count = index & 63;
        assert(index <= 64 ==> index & 63 == if index == 64 {
            0
        } else {
            index
        }) by (bit_vector);
        let r = u64::MAX << zeros_count;
        assert forall|i: int| 0 <= i < 64 implies (r.has(i) <==> (index == 64 || i >= index)) by {
            lemma_bit_shifted_ones(zeros_count as u64, i as u64);
        }
        r
    }

    fn ones_in_sorted_closed_range(min: usize, max: usize) -> (r: u64) {
        let up = 63usize.saturating_sub(max);
        let lo = u64::MAX << min;
        let hi = u64::MAX >> up;
        let r = lo & hi;
        assert forall|i: int| 0 <= i < 64 implies (r.has(i) <==> min <= i <= max) by {
            lemma_bit_ops(lo, hi, i as u64);
            lemma_bit_shifted_ones(min as u64, i as u64);
            lemma_bit_shifted_ones(up as u64, i as u64);
        }
        r
    }

    fn ones_in_range_include(start: usize, end: usize) -> (r: u64) {
        if start < end {
            Self::ones_in_sorted_closed_range(start, end)
        } else {
            let range = Self::ones_in_sorted_closed_range(end, start);
            let mut inv = !range;
            let s = 1u64 << start;
            let e = 1u64 << end;
            inv |= s;
            inv |= e;
            assert forall|i: int| 0 <= i < 64 implies (inv.has(i) <==> (i <= end || start <= i)) by {
                lemma_bit_ops(range, 0, i as u64);
                assert(range.has(i) <==> end <= i <= start);
                lemma_bit_ops(!range | s, e, i as u64);
                lemma_bit_ops(!range, s, i as u64);
                lemma_bit_shifted_ones(start as u64, i as u64);
                lemma_bit_shifted_ones(end as u64, i as u64);
            }
            inv
        }
    }

    fn next_wrapped_index(&self, after: usize) -> (r: usize)
        ensures
            (exists|i: int| 0 <= i < 64 && mask_has(*self, i)) ==> r == next_of(*self, after as int),
    {
        let x = *self;
        let mask = u64::ones_index_to_end(after + 1);
        let front = x & mask;
        if front != 0 {
            proof {
                lemma_trailing_zeros(front);
                let t = u64_trailing_zeros(front) as u64;
                lemma_bit_ops(x, mask, t);
                assert(x.has(t as int));
                assert(mask.has(t as int) == (after + 1 == 64 || t >= after + 1));
                assert forall|k: int| 0 <= k < 64 && x.has(k) implies fwd(after as int, t as int)
                    <= fwd(after as int, k) by {
                    lemma_bit_ops(x, mask, k as u64);
                    assert(mask.has(k) == (after + 1 == 64 || k >= after + 1));
                    if k > after || after == 63 {
                        assert(bit(front, k as u64));
                    }
                }
                assert forall|k: int| mask_has(x, k) implies fwd(after as int, t as int) <= #[trigger] fwd(
                    after as int,
                    k,
                ) by {
                    assert(x.has(k));
                }
                lemma_next_unique(x, after as int, t as int);
            }
            front.trailing_zeros() as usize
        } else {
            proof {
                lemma_bit_zero(front);
                lemma_bit_zero(x);
                if x != 0 {
                    lemma_trailing_zeros(x);
                    let t = u64_trailing_zeros(x) as u64;
                    assert(x.has(t as int));
                    assert forall|k: int| 0 <= k < 64 && x.has(k) implies fwd(after as int, t as int)
                        <= fwd(after as int, k) by {
                        lemma_bit_ops(x, mask, k as u64);
                        assert(!bit(front, k as u64));
                        assert(mask.has(k) == (after + 1 == 64 || k >= after + 1));
                        lemma_bit_ops(x, mask, t);
                        assert(!bit(front, t));
                        assert(mask.has(t as int) == (after + 1 == 64 || t >= after + 1));
                    }
                    assert forall|k: int| mask_has(x, k) implies fwd(after as int, t as int) <= #[trigger] fwd(
                    after as int,
                    k,
                ) by {
                    assert(x.has(k));
                }
                lemma_next_unique(x, after as int, t as int);
                } else {
                    assert(u64_trailing_zeros(x) == 64);
                    assert forall|i: int| 0 <= i < 64 implies !mask_has(x, i) by {
                        assert(!bit(x, i as u64));
                    }
                }
            }
            x.trailing_zeros() as usize
        }
    }

    fn prev_wrapped_index(&self, before: usize) -> (r: usize)
        ensures
            r == prev_of(*self, before as int),
    {
        let x = *self;
        let mask = u64::ones_start_to_index(before);
        let back = x & mask;
        proof {
            lemma_bit_zero(x);
            assert(x != 0);
        }
        if back != 0 {
            proof {
                lemma_leading_zeros(back);
                let t = (63 - u64_leading_zeros(back)) as u64;
                lemma_bit_ops(x, mask, t);
                assert(mask.has(t as int));
                assert forall|k: int| 0 <= k < 64 && x.has(k) implies bwd(before as int, t as int)
                    <= bwd(before as int, k) by {
                    lemma_bit_ops(x, mask, k as u64);
                    assert(mask.has(k) == (before == 0 || k < before));
                    if k < before && before > 0 {
                        assert(bit(back, k as u64));
                    }
                }
                assert forall|k: int| mask_has(x, k) implies bwd(before as int, t as int) <= #[trigger] bwd(
                    before as int,
                    k,
                ) by {
                    assert(x.has(k));
                }
                lemma_prev_unique(x, before as int, t as int);
            }
            63 - back.leading_zeros() as usize
        } else {
            proof {
                lemma_bit_zero(back);
                lemma_leading_zeros(x);
                let t = (63 - u64_leading_zeros(x)) as u64;
                assert forall|k: int| 0 <= k < 64 && x.has(k) implies bwd(before as int, t as int)
                    <= bwd(before as int, k) by {
                    lemma_bit_ops(x, mask, k as u64);
                    assert(!bit(back, k as u64));
                    assert(mask.has(k) == (before == 0 || k < before));
                    lemma_bit_ops(x, mask, t);
                    assert(!bit(back, t));
                    assert(mask.has(t as int) == (before == 0 || t < before));
                }
                assert forall|k: int| mask_has(x, k) implies bwd(before as int, t as int) <= #[trigger] bwd(
                    before as int,
                    k,
                ) by {
                    assert(x.has(k));
                }
                lemma_prev_unique(x, before as int, t as int);
            }
            63 - x.leading_zeros() as usize
        }
    }
}


/// Law: walking one step forward and then one step back over a mask
/// returns to the member one started from (and the other way round).
pub proof fn law_next_prev_inverse(x: u64, i: int)
    requires
        mask_has(x, i),
    ensures
        prev_of(x, next_of(x, i)) == i,
        next_of(x, prev_of(x, i)) == i,
{
    lemma_least_member_exists(x, i);
    let n = next_of(x, i);
    assert forall|k: int| mask_has(x, k) implies bwd(n, i) <= #[trigger] bwd(n, k) by {
        assert(fwd(i, n) <= fwd(i, k));
    }
    assert(is_prev(x, n, i));
    lemma_prev_unique(x, n, i);
    lemma_prev_member(x, i);
    let p = prev_of(x, i);
    assert forall|k: int| mask_has(x, k) implies fwd(p, i) <= #[trigger] fwd(p, k) by {
        assert(bwd(i, p) <= bwd(i, k));
    }
    assert(is_next(x, p, i));
    lemma_next_unique(x, p, i);
}

/// A part of a mask that counts as many indices is the whole mask.
pub proof fn lemma_count_subset_eq(x: u64, y: u64, k: int)
    requires
        0 <= k <= 64,
        forall|j: int| mask_has(x, j) ==> mask_has(y, j),
        count_below(x, k) == count_below(y, k),
    ensures
        forall|j: int| 0 <= j < k ==> (mask_has(x, j) == mask_has(y, j)),
    decreases k,
{
    if k > 0 {
        lemma_count_subset(x, y, k - 1);
        lemma_count_subset_eq(x, y, k - 1);
    }
}

} // verus!
