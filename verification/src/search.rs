//! Two searches for a place in a sorted list: one that branches on what it finds, and
//! one that selects without a branch.

use vstd::prelude::*;

verus! {

/// The list never goes down.
pub open spec fn sorted(s: Seq<i64>) -> bool {
    forall|i: int, j: int| 0 <= i <= j < s.len() ==> s[i] <= s[j]
}

/// Everything before place `r` is below `key`, and nothing from there on.
pub open spec fn is_lower_bound(s: Seq<i64>, key: i64, r: int) -> bool {
    &&& 0 <= r <= s.len()
    &&& forall|i: int| 0 <= i < r ==> #[trigger] s[i] < key
    &&& forall|i: int| r <= i < s.len() ==> #[trigger] s[i] >= key
}

/// A key has one place: whatever finds a lower bound finds the same one.
pub proof fn law_lower_bound_is_unique(s: Seq<i64>, key: i64, a: int, b: int)
    requires
        is_lower_bound(s, key, a),
        is_lower_bound(s, key, b),
    ensures
        a == b,
{
    if a < b {
        assert(s[a] < key);
    }
    if b < a {
        assert(s[b] < key);
    }
}

/// `std::hint::select_unpredictable` gives its second argument where the condition
/// holds, and its third where it does not.
pub assume_specification<T>[ std::hint::select_unpredictable::<T> ](
    condition: bool,
    true_val: T,
    false_val: T,
) -> (r: T)
    ensures
        r == (if condition {
            true_val
        } else {
            false_val
        }),
;

/// The place of `key`, found with a branch at every step.
#[inline]
pub fn branchy_lower_bound(arr: &[i64], key: i64) -> (r: usize)
    requires
        sorted(arr@),
    ensures
        is_lower_bound(arr@, key, r as int),
{
    let mut lo: usize = 0;
    let mut hi: usize = arr.len();
    while lo < hi
        invariant
            lo <= hi <= arr@.len(),
            sorted(arr@),
            forall|i: int| 0 <= i < lo ==> #[trigger] arr@[i] < key,
            forall|i: int| hi <= i < arr@.len() ==> #[trigger] arr@[i] >= key,
        decreases hi - lo,
    {
        let mid: usize = lo + (hi - lo) / 2;
        if arr[mid] < key {
            lo = mid + 1;
        } else {
            hi = mid;
        }
    }
    lo
}

/// The place of `key`, found by selecting one half at every step.
#[inline]
pub fn branchless_lower_bound(arr: &[i64], key: i64) -> (r: usize)
    requires
        sorted(arr@),
    ensures
        is_lower_bound(arr@, key, r as int),
{
    let n: usize = arr.len();
    let mut base: usize = 0;
    let mut len: usize = n;
    while len > 1
        invariant
            n == arr@.len(),
            base + len <= n,
            arr@.len() > 0 ==> len >= 1,
            sorted(arr@),
            forall|i: int| 0 <= i < base ==> #[trigger] arr@[i] < key,
            forall|i: int| base + len <= i < arr@.len() ==> #[trigger] arr@[i] >= key,
        decreases len,
    {
        let half: usize = len / 2;
        let mid: usize = base + half;
        base = std::hint::select_unpredictable(arr[mid] < key, mid, base);
        len = len - half;
    }
    if base < n && arr[base] < key {
        base + 1
    } else {
        base
    }
}

/// A sorted list of so many levels, two ticks apart.
pub fn level_array(depth: usize) -> (v: Vec<i64>)
    requires
        2 * depth <= i64::MAX,
    ensures
        v@ == Seq::new(depth as nat, |i: int| (2 * i) as i64),
        sorted(v@),
{
    let mut v: Vec<i64> = Vec::new();
    let mut i: usize = 0;
    while i < depth
        invariant
            i <= depth,
            2 * depth <= i64::MAX,
            v@.len() == i,
            forall|k: int| 0 <= k < i ==> #[trigger] v@[k] == 2 * k,
        decreases depth - i,
    {
        v.push(2 * i as i64);
        i += 1;
    }
    assert(v@ =~= Seq::new(depth as nat, |i: int| (2 * i) as i64));
    v
}

} // verus!
