//! Integer statistics: the median of a list, found by sorting it in
//! place, and the mode, found by a left-to-right counting scan.

use vstd::prelude::*;
use vstd::relations::{sorted_by, total_ordering};
use vstd::seq_lib::group_to_multiset_ensures;

verus! {

broadcast use group_to_multiset_ensures, vstd::multiset::group_multiset_axioms;

/// The integer order as a first-class relation, for `sort_by` and the
/// sortedness predicates.
pub open spec fn int_leq() -> spec_fn(i32, i32) -> bool {
    |x: i32, y: i32| x <= y
}

/// The integer order is a total ordering in the sense of
/// `vstd::relations`.
pub proof fn lemma_int_total_ordering()
    ensures
        total_ordering(int_leq()),
{
}

/// Sorts `v` into ascending order: the result is exactly the canonical
/// sorted permutation of the input.
fn sort_i32(v: &mut Vec<i32>)
    ensures
        final(v)@ == old(v)@.sort_by(int_leq()),
        final(v)@.len() == old(v)@.len(),
        sorted_by(final(v)@, int_leq()),
        final(v)@.to_multiset() == old(v)@.to_multiset(),
{
    let ghost orig = v@;
    proof {
        lemma_int_total_ordering();
    }
    if v.len() > 1 {
        let mut i: usize = 1;
        while i < v.len()
            invariant
                1 <= i <= v@.len(),
                v@.len() == orig.len(),
                v@.to_multiset() == orig.to_multiset(),
                sorted_by(v@.subrange(0, i as int), int_leq()),
            decreases v@.len() - i,
        {
            let ghost d0 = v@;
            let x = v.remove(i);
            let ghost d1 = v@;
            let mut j: usize = 0;
            while j < i && v[j] <= x
                invariant
                    j <= i,
                    i < d0.len(),
                    v@ == d1,
                    d1 == d0.remove(i as int),
                    v@.len() == d0.len() - 1,
                    forall|k: int| 0 <= k < j ==> #[trigger] d1[k] <= x,
                decreases i - j,
            {
                j = j + 1;
            }
            proof {
                assert(forall|k: int| 0 <= k < i ==> #[trigger] d1[k] == d0[k]);
                assert forall|p: int, q: int| 0 <= p < q < i implies #[trigger] d0[p]
                    <= #[trigger] d0[q] by {
                    assert(int_leq()(
                        d0.subrange(0, i as int)[p],
                        d0.subrange(0, i as int)[q],
                    ));
                }
            }
            v.insert(j, x);
            proof {
                let d2 = v@;
                assert(d2 =~= d1.insert(j as int, x));
                d1.insert_ensures(j as int, x);
                assert(d2.to_multiset() =~= orig.to_multiset());
                let d3 = d2.subrange(0, i as int + 1);
                assert(sorted_by(d3, int_leq())) by {
                    assert forall|p: int, q: int| 0 <= p < q < d3.len() implies #[trigger]
                        int_leq()(d3[p], d3[q]) by {
                        assert(d3[p] == d2[p] && d3[q] == d2[q]);
                    }
                }
            }
            i = i + 1;
        }
        proof {
            assert(v@.subrange(0, i as int) =~= v@);
        }
    }
    proof {
        orig.lemma_sort_by_ensures(int_leq());
        vstd::seq_lib::lemma_sorted_unique(v@, orig.sort_by(int_leq()), int_leq());
    }
}

/// Sorts `nums` in place and returns the lower-middle element: for odd
/// and even lengths alike, the element at index `(len - 1) / 2` of the
/// sorted list.
pub fn median(nums: &mut Vec<i32>) -> (r: i32)
    requires
        old(nums)@.len() > 0,
    ensures
        final(nums)@ == old(nums)@.sort_by(int_leq()),
        final(nums)@.len() == old(nums)@.len(),
        sorted_by(final(nums)@, int_leq()),
        final(nums)@.to_multiset() == old(nums)@.to_multiset(),
        r == final(nums)@[(final(nums)@.len() - 1) as int / 2],
{
    sort_i32(nums);
    let idx = (nums.len() - 1) / 2;
    nums[idx]
}

/// How many times `x` occurs among the first `k` elements of `s`.
pub open spec fn count_upto(s: Seq<i32>, x: i32, k: int) -> int
    decreases k,
{
    if k <= 0 {
        0
    } else {
        count_upto(s, x, k - 1) + if s[k - 1] == x {
            1int
        } else {
            0int
        }
    }
}

/// The running result of the mode scan over the first `k` elements:
/// the current winner and its count. A value takes the lead only by
/// strictly exceeding the count held so far, so among equally frequent
/// values the first to reach the winning count keeps it.
pub open spec fn mode_scan(s: Seq<i32>, k: int) -> (i32, int)
    decreases k,
{
    if k <= 0 {
        (if s.len() > 0 {
            s[0]
        } else {
            0
        }, 0)
    } else {
        let prev = mode_scan(s, k - 1);
        let c = count_upto(s, s[k - 1], k);
        if c > prev.1 {
            (s[k - 1], c)
        } else {
            prev
        }
    }
}

/// The scan's count is the winner's occurrence count, and no value
/// occurs more often.
pub proof fn lemma_mode_scan_max(s: Seq<i32>, k: int)
    requires
        0 <= k <= s.len(),
    ensures
        count_upto(s, mode_scan(s, k).0, k) == mode_scan(s, k).1,
        forall|x: i32| #[trigger] count_upto(s, x, k) <= mode_scan(s, k).1,
    decreases k,
{
    if k > 0 {
        lemma_mode_scan_max(s, k - 1);
        let prev = mode_scan(s, k - 1);
        let e = s[k - 1];
        let c = count_upto(s, e, k);
        assert forall|x: i32| #[trigger] count_upto(s, x, k) <= mode_scan(s, k).1 by {
            if x != e {
                assert(count_upto(s, x, k) == count_upto(s, x, k - 1));
            }
        }
        if c <= prev.1 {
            assert(prev.0 != e) by {
                if prev.0 == e {
                    assert(c == prev.1 + 1);
                }
            }
            assert(count_upto(s, prev.0, k) == count_upto(s, prev.0, k - 1));
        }
    }
}

/// Returns the most frequent value of `nums` with its count, ties
/// broken in favour of the first value to reach the winning count
/// while scanning left to right. An empty list yields `(0, 0)`. The
/// list itself is untouched.
pub fn mode(nums: &mut Vec<i32>) -> (r: (i32, i32))
    requires
        old(nums)@.len() <= i32::MAX,
    ensures
        *final(nums) == *old(nums),
        r.0 == mode_scan(old(nums)@, old(nums)@.len() as int).0,
        r.1 == mode_scan(old(nums)@, old(nums)@.len() as int).1,
        r.1 == count_upto(old(nums)@, r.0, old(nums)@.len() as int),
        forall|x: i32| #[trigger]
            count_upto(old(nums)@, x, old(nums)@.len() as int) <= r.1,
{
    proof {
        lemma_mode_scan_max(old(nums)@, old(nums)@.len() as int);
    }
    let ghost s = nums@;
    let n = nums.len();
    let mut best: i32 = if n > 0 {
        nums[0]
    } else {
        0
    };
    let mut best_count: i32 = 0;
    let mut k: usize = 0;
    while k < n
        invariant
            k <= n,
            n == s.len(),
            s == nums@,
            n <= i32::MAX,
            best == mode_scan(s, k as int).0,
            best_count == mode_scan(s, k as int).1,
        decreases n - k,
    {
        let x = nums[k];
        let mut c: i32 = 0;
        let mut t: usize = 0;
        while t < k + 1
            invariant
                t <= k + 1,
                k < n == s.len(),
                s == nums@,
                n <= i32::MAX,
                c == count_upto(s, x, t as int),
                c <= t,
                x == s[k as int],
        decreases k + 1 - t,
        {
            if nums[t] == x {
                c = c + 1;
            }
            t = t + 1;
        }
        if c > best_count {
            best = x;
            best_count = c;
        }
        k = k + 1;
    }
    (best, best_count)
}

} // verus!
