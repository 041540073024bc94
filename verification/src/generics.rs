//! Finding the largest element of a slice: once for numbers, once for
//! characters, and once generically over any ordered element type.

use vstd::prelude::*;
use vstd::std_specs::cmp::PartialOrdSpec;

verus! {

/// Returns a reference to the largest number in the slice.
pub fn largest_number(list: &[i32]) -> (r: &i32)
    requires
        list@.len() > 0,
    ensures
        list@.contains(*r),
        forall|k: int| 0 <= k < list@.len() ==> #[trigger] list@[k] <= *r,
{
    let mut largest = &list[0];
    let mut k: usize = 1;
    while k < list.len()
        invariant
            1 <= k <= list@.len(),
            list@.contains(*largest),
            forall|t: int| 0 <= t < k ==> #[trigger] list@[t] <= *largest,
        decreases list@.len() - k,
    {
        if list[k] > *largest {
            largest = &list[k];
        }
        k = k + 1;
    }
    largest
}

/// Returns a reference to the largest character in the slice.
pub fn largest_char(list: &[char]) -> (r: &char)
    requires
        list@.len() > 0,
    ensures
        list@.contains(*r),
        forall|k: int| 0 <= k < list@.len() ==> #[trigger] list@[k] <= *r,
{
    let mut largest = &list[0];
    let mut k: usize = 1;
    while k < list.len()
        invariant
            1 <= k <= list@.len(),
            list@.contains(*largest),
            forall|t: int| 0 <= t < k ==> #[trigger] list@[t] <= *largest,
        decreases list@.len() - k,
    {
        if list[k] > *largest {
            largest = &list[k];
        }
        k = k + 1;
    }
    largest
}

/// The element a left-to-right scan of the first `k` elements holds on
/// to: the next element takes over only when it compares strictly
/// greater than the holder.
pub open spec fn largest_scan<T: PartialOrd>(s: Seq<T>, k: int) -> T
    decreases k,
{
    if k <= 1 {
        s[0]
    } else {
        let prev = largest_scan(s, k - 1);
        if s[k - 1].partial_cmp_spec(&prev) == Some(core::cmp::Ordering::Greater) {
            s[k - 1]
        } else {
            prev
        }
    }
}

/// Returns a reference to the element the greatest-so-far scan keeps:
/// for any element order whose comparison operators obey their
/// specification, the element that no later element strictly exceeds.
pub fn largest<T: PartialOrd>(list: &[T]) -> (r: &T)
    requires
        list@.len() > 0,
        T::obeys_partial_cmp_spec(),
    ensures
        list@.contains(*r),
        *r == largest_scan(list@, list@.len() as int),
{
    let mut largest = &list[0];
    let mut k: usize = 1;
    while k < list.len()
        invariant
            1 <= k <= list@.len(),
            T::obeys_partial_cmp_spec(),
            list@.contains(*largest),
            *largest == largest_scan(list@, k as int),
        decreases list@.len() - k,
    {
        if list[k] > *largest {
            largest = &list[k];
        }
        k = k + 1;
    }
    largest
}

} // verus!
