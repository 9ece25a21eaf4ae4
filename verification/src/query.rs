//! Words that the contracts of both dictionaries share.

use vstd::prelude::*;

verus! {

/// Whether a distance is within an optional budget. No budget admits every
/// distance.
pub open spec fn within(distance: nat, max_edits: Option<usize>) -> bool {
    match max_edits {
        Some(k) => distance <= k,
        None => true,
    }
}

/// Whether `s` is one of `items`.
pub open spec fn among(items: Seq<String>, s: Seq<char>) -> bool {
    exists|i: int| 0 <= i < items.len() && items[i]@ == s
}

/// Whether `s` stands in `out` at place `from` or later.
pub open spec fn listed(out: Seq<&str>, from: int, s: Seq<char>) -> bool {
    exists|i: int| from <= i < out.len() && out[i]@ == s
}

/// Whether every one of `items` is short enough for its distances to fit in
/// 32 bits.
pub open spec fn all_fit(items: Seq<String>) -> bool {
    forall|i: int| 0 <= i < items.len() ==> (#[trigger] items[i])@.len() <= u32::MAX
}

} // verus!
