//! Predecessor-or-equal search over an ordered list of thresholds.

use vstd::prelude::*;

verus! {

/// The keys of `entries` increase strictly from one entry to the next.
pub open spec fn keys_increasing<T>(entries: Seq<(u128, T)>) -> bool {
    forall|i: int, j: int| 0 <= i < j < entries.len() ==> entries[i].0 < entries[j].0
}

/// Position of the entry with the greatest key at most `target`, if any.
pub fn floor_position<T>(entries: &Vec<(u128, T)>, target: u128) -> (r: Option<usize>)
    requires
        keys_increasing(entries@),
    ensures
        match r {
            None => forall|i: int| 0 <= i < entries@.len() ==> entries@[i].0 > target,
            Some(p) => {
                &&& p < entries@.len()
                &&& entries@[p as int].0 <= target
                &&& p + 1 < entries@.len() ==> entries@[p + 1].0 > target
            },
        },
{
    // Invariant: every entry before `lo` is at most `target`, every entry from `hi` on is above.
    let mut lo: usize = 0;
    let mut hi: usize = entries.len();
    while lo < hi
        invariant
            lo <= hi <= entries@.len(),
            keys_increasing(entries@),
            forall|i: int| 0 <= i < lo ==> entries@[i].0 <= target,
            forall|i: int| hi <= i < entries@.len() ==> entries@[i].0 > target,
        decreases hi - lo,
    {
        let mid: usize = lo + (hi - lo) / 2;
        if entries[mid].0 <= target {
            lo = mid + 1;
        } else {
            hi = mid;
        }
    }
    if lo == 0 {
        None
    } else {
        Some(lo - 1)
    }
}

/// The greatest key of `entries` that is at most `target`, or `None` when every key
/// exceeds `target` (in particular when `entries` is empty).
pub fn closest_key_below<T>(entries: &Vec<(u128, T)>, target: u128) -> (r: Option<u128>)
    requires
        keys_increasing(entries@),
    ensures
        r is None <==> forall|i: int| 0 <= i < entries@.len() ==> entries@[i].0 > target,
        r matches Some(k) ==> {
            &&& k <= target
            &&& exists|i: int| 0 <= i < entries@.len() && entries@[i].0 == k
            &&& forall|i: int| 0 <= i < entries@.len() && entries@[i].0 <= target ==> entries@[i].0 <= k
        },
{
    match floor_position(entries, target) {
        None => None,
        Some(p) => {
            assert(entries@[p as int].0 <= target);
            Some(entries[p].0)
        },
    }
}

} // verus!
