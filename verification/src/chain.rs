//! The order in which forward steps over a mask visit its indices.
use crate::bits::{count_below, dist, fwd, is_next, lemma_next_dist, lemma_next_unique, mask_has, next_of, popcount};
use vstd::prelude::*;

verus! {

/// The index reached after `k` forward steps over the mask from `start`.
pub open spec fn step(x: u64, start: int, k: nat) -> int
    decreases k,
{
    if k == 0 {
        start
    } else {
        next_of(x, step(x, start, (k - 1) as nat))
    }
}

/// Number of members of `x` no farther than `d` forward steps from `s`,
/// among the indices below `k`.
pub open spec fn count_within(x: u64, s: int, d: int, k: int) -> nat
    decreases k,
{
    if k <= 0 {
        0
    } else {
        count_within(x, s, d, k - 1) + if mask_has(x, k - 1) && dist(s, k - 1) <= d {
            1nat
        } else {
            0nat
        }
    }
}

/// Counting within a larger distance adds exactly the members in between.
proof fn lemma_count_within_step(x: u64, s: int, d1: int, d2: int, j0: int, k: int)
    requires
        0 <= s < 64,
        0 <= j0 < 64,
        0 <= k <= 64,
        d1 < d2,
        mask_has(x, j0),
        dist(s, j0) == d2,
        forall|m: int| mask_has(x, m) ==> !(d1 < #[trigger] dist(s, m) < d2),
    ensures
        count_within(x, s, d2, k) == count_within(x, s, d1, k) + if j0 < k {
            1nat
        } else {
            0nat
        },
    decreases k,
{
    if k > 0 {
        lemma_count_within_step(x, s, d1, d2, j0, k - 1);
        let j = k - 1;
        if mask_has(x, j) && dist(s, j) <= d2 && !(dist(s, j) <= d1) {
            assert(dist(s, j) == d2);
            assert(j == j0);
        }
    }
}

/// Every member is within 63 steps, so counting within 63 counts all.
pub proof fn lemma_count_within_all(x: u64, s: int, k: int)
    requires
        0 <= s < 64,
        0 <= k <= 64,
    ensures
        count_within(x, s, 63, k) == count_below(x, k),
    decreases k,
{
    if k > 0 {
        lemma_count_within_all(x, s, k - 1);
    }
}

/// Only `s` itself is within 0 steps.
proof fn lemma_count_within_zero(x: u64, s: int, k: int)
    requires
        0 <= s < 64,
        mask_has(x, s),
        0 <= k <= 64,
    ensures
        count_within(x, s, 0, k) == if s < k {
            1nat
        } else {
            0nat
        },
    decreases k,
{
    if k > 0 {
        lemma_count_within_zero(x, s, k - 1);
    }
}

/// When fewer members lie within `d` than in all, some member lies beyond.
proof fn lemma_member_beyond(x: u64, s: int, d: int, k: int)
    requires
        0 <= s < 64,
        0 <= k <= 64,
        count_within(x, s, d, k) < count_below(x, k),
    ensures
        exists|m: int| 0 <= m < k && mask_has(x, m) && dist(s, m) > d,
    decreases k,
{
    if k > 0 {
        if !(mask_has(x, k - 1) && dist(s, k - 1) > d) {
            lemma_member_beyond(x, s, d, k - 1);
        }
    }
}

/// The first `popcount(x)` forward steps from a member visit distinct
/// members, farther and farther from the start, with no member skipped.
pub proof fn lemma_steps(x: u64, s: int, k: nat)
    requires
        mask_has(x, s),
        k < popcount(x),
    ensures
        mask_has(x, step(x, s, k)),
        k > 0 ==> step(x, s, k) != s,
        k > 0 ==> dist(s, step(x, s, (k - 1) as nat)) < dist(s, step(x, s, k)),
        count_within(x, s, dist(s, step(x, s, k)), 64) == k + 1,
        forall|m: int|
            mask_has(x, m) && dist(s, m) <= dist(s, step(x, s, k)) ==> exists|j: nat|
                j <= k && step(x, s, j) == m,
    decreases k,
{
    if k == 0 {
        lemma_count_within_zero(x, s, 64);
        assert forall|m: int| mask_has(x, m) && dist(s, m) <= dist(s, step(x, s, k)) implies exists|j: nat|
            j <= k && step(x, s, j) == m by {
            assert(step(x, s, 0) == m);
        }
    } else {
        let kp = (k - 1) as nat;
        lemma_steps(x, s, kp);
        let p = step(x, s, kp);
        let d1 = dist(s, p);
        lemma_count_within_all(x, s, 64);
        lemma_member_beyond(x, s, d1, 64);
        let m0 = choose|m: int| 0 <= m < 64 && mask_has(x, m) && dist(s, m) > d1;
        crate::bits::lemma_least_member_exists(x, p);
        let q = next_of(x, p);
        assert(is_next(x, p, q));
        assert(step(x, s, k) == q);
        if p == s {
            assert(fwd(p, q) <= fwd(p, m0));
            assert(q != s);
            assert forall|m: int| mask_has(x, m) implies !(d1 < #[trigger] dist(s, m) < dist(s, q)) by {
                assert(fwd(p, q) <= fwd(p, m));
            }
        } else {
            lemma_next_dist(x, s, p, q);
            assert(fwd(p, q) <= fwd(p, m0));
            assert(q != s);
        }
        lemma_count_within_step(x, s, d1, dist(s, q), q, 64);
        assert forall|m: int| mask_has(x, m) && dist(s, m) <= dist(s, step(x, s, k)) implies exists|j: nat|
            j <= k && step(x, s, j) == m by {
            if dist(s, m) <= d1 {
                let j = choose|j: nat| j <= kp && step(x, s, j) == m;
                assert(j <= k && step(x, s, j) == m);
            } else {
                if m != s {
                    assert(!(d1 < dist(s, m) < dist(s, q)));
                }
                assert(dist(s, m) == dist(s, q));
                assert(m == q);
                assert(step(x, s, k) == m);
            }
        }
    }
}

/// Steps before `popcount(x)` visit distinct indices.
pub proof fn lemma_steps_distinct(x: u64, s: int, k1: nat, k2: nat)
    requires
        mask_has(x, s),
        k1 < k2 < popcount(x),
    ensures
        step(x, s, k1) != step(x, s, k2),
        dist(s, step(x, s, k1)) < dist(s, step(x, s, k2)),
    decreases k2,
{
    lemma_steps(x, s, k2);
    if k1 + 1 == k2 {
    } else {
        lemma_steps_distinct(x, s, k1, (k2 - 1) as nat);
    }
}


/// Counting within a larger distance counts at least as many, and at
/// least one more when the member `j0` lies between the two distances.
pub proof fn lemma_count_within_more(x: u64, s: int, d1: int, d2: int, j0: int, k: int)
    requires
        0 <= k <= 64,
        d1 <= d2,
    ensures
        count_within(x, s, d2, k) >= count_within(x, s, d1, k) + if 0 <= j0 < k && mask_has(x, j0) && d1 < dist(
            s,
            j0,
        ) <= d2 {
            1int
        } else {
            0int
        },
    decreases k,
{
    if k > 0 {
        lemma_count_within_more(x, s, d1, d2, j0, k - 1);
    }
}

/// No member lies strictly between two consecutive steps of the walk.
pub proof fn lemma_step_gap(x: u64, s: int, k: nat)
    requires
        mask_has(x, s),
        0 < k < popcount(x),
    ensures
        forall|m: int|
            mask_has(x, m) ==> !(dist(s, step(x, s, (k - 1) as nat)) < #[trigger] dist(s, m) < dist(
                s,
                step(x, s, k),
            )),
{
    let kp = (k - 1) as nat;
    lemma_steps(x, s, kp);
    lemma_steps(x, s, k);
    let p = step(x, s, kp);
    crate::bits::lemma_least_member_exists(x, p);
    let q = next_of(x, p);
    assert(step(x, s, k) == q);
    if p == s {
        assert forall|m: int| mask_has(x, m) implies !(dist(s, p) < #[trigger] dist(s, m) < dist(s, q)) by {
            assert(fwd(p, q) <= fwd(p, m));
        }
    } else {
        lemma_next_dist(x, s, p, q);
    }
}

/// A walk of `popcount(x) - 1` steps meets every member, the last one
/// farthest from the start, and one step more brings it back to the start.
pub proof fn lemma_walk_closes(x: u64, s: int)
    requires
        mask_has(x, s),
    ensures
        popcount(x) >= 1,
        forall|m: int| #[trigger] mask_has(x, m) ==> dist(s, m) <= dist(s, step(x, s, (popcount(x) - 1) as nat)),
        mask_has(x, step(x, s, (popcount(x) - 1) as nat)),
        step(x, s, popcount(x)) == s,
{
    lemma_count_within_zero(x, s, 64);
    lemma_count_within_all(x, s, 64);
    lemma_count_within_more(x, s, 0, 63, s, 64);
    let c = popcount(x);
    let last = (c - 1) as nat;
    lemma_steps(x, s, last);
    let v = step(x, s, last);
    assert forall|m: int| #[trigger] mask_has(x, m) implies dist(s, m) <= dist(s, v) by {
        if dist(s, m) > dist(s, v) {
            lemma_count_within_more(x, s, dist(s, v), 63, m, 64);
        }
    }
    assert forall|k: int| mask_has(x, k) implies fwd(v, s) <= #[trigger] fwd(v, k) by {
        assert(dist(s, k) <= dist(s, v));
    }
    assert(is_next(x, v, s));
    lemma_next_unique(x, v, s);
}

/// A mask with a member below `k` counts at least one index below `k`.
proof fn lemma_member_counted(x: u64, s: int, k: int)
    requires
        mask_has(x, s),
        s < k <= 64,
    ensures
        count_below(x, k) >= 1,
    decreases k,
{
    if k - 1 > s {
        lemma_member_counted(x, s, k - 1);
    }
}

/// The first `popcount(x)` forward steps from a member reach every member.
pub proof fn lemma_steps_cover(x: u64, s: int, m: int)
    requires
        mask_has(x, s),
        mask_has(x, m),
    ensures
        exists|j: nat| j < popcount(x) && step(x, s, j) == m,
{
    lemma_member_counted(x, s, 64);
    let c = popcount(x);
    let last = (c - 1) as nat;
    lemma_steps(x, s, last);
    let d = dist(s, step(x, s, last));
    lemma_count_within_all(x, s, 64);
    if dist(s, m) > d {
        lemma_count_within_more(x, s, d, 63, m, 64);
        assert(false);
    }
    let j = choose|j: nat| j <= last && step(x, s, j) == m;
    assert(j < popcount(x) && step(x, s, j) == m);
}

} // verus!
