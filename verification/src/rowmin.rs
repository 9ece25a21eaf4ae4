//! The least entry of a packed row, found without unpacking it.
//!
//! A row is here a walk of 64 steps, held as two words: the walk steps up
//! where `up` has a bit, down where `keep` lacks one, and stays level
//! elsewhere. Adding `up` to `keep` lets every step up cancel the next step
//! down, which leaves the lowest point of the walk where it was. When no step
//! up or no step down is left, the lowest point is read off by counting.

use crate::bits::{
    bit, carry, lemma_bit_all, lemma_bit_and, lemma_bit_masked, lemma_bit_not, lemma_bit_or,
    lemma_bit_single, lemma_bit_sum, low_mask, ones_below,
};
use crate::metric::{edit_distance, lemma_distance_push_right, prefix_within};
use crate::myers::{encodes, row};
use vstd::prelude::*;

verus! {

/// The step of the walk at place `i`.
pub open spec fn pace(up: u64, keep: u64, i: int) -> int {
    (if bit(up, i) {
        1int
    } else {
        0int
    }) - (if bit(keep, i) {
        0int
    } else {
        1int
    })
}

/// The height of the walk after its first `n` steps.
pub open spec fn climb(up: u64, keep: u64, n: nat) -> int
    decreases n,
{
    if n == 0 {
        0
    } else {
        climb(up, keep, (n - 1) as nat) + pace(up, keep, n - 1)
    }
}

/// The lowest height of the walk within its first `n` steps.
pub open spec fn trough(up: u64, keep: u64, n: nat) -> int
    decreases n,
{
    if n == 0 {
        0
    } else {
        let before = trough(up, keep, (n - 1) as nat);
        let here = climb(up, keep, n);
        if here < before {
            here
        } else {
            before
        }
    }
}

/// The lowest height is a height of the walk, and none is lower.
pub proof fn lemma_trough_is_least(up: u64, keep: u64, n: nat, j: nat)
    requires
        j <= n,
    ensures
        trough(up, keep, n) <= climb(up, keep, j),
    decreases n,
{
    if n > j {
        lemma_trough_is_least(up, keep, (n - 1) as nat, j);
    } else if n > 0 {
        lemma_trough_is_least(up, keep, (n - 1) as nat, (n - 1) as nat);
    }
}

/// The place where the walk is lowest.
pub proof fn lemma_trough_is_reached(up: u64, keep: u64, n: nat) -> (j: nat)
    ensures
        j <= n,
        trough(up, keep, n) == climb(up, keep, j),
    decreases n,
{
    if n == 0 {
        0
    } else if climb(up, keep, n) < trough(up, keep, (n - 1) as nat) {
        n
    } else {
        lemma_trough_is_reached(up, keep, (n - 1) as nat)
    }
}

/// One round of cancelling, followed step by step: where the addition
/// carries, a step up is waiting for its step down, and the walk that is
/// left runs one lower; the lowest point stays.
proof fn lemma_cancel_upto(up: u64, keep: u64, n: nat)
    requires
        up & !keep == 0,
        n <= 64,
    ensures
        climb(up & keep.wrapping_add(up), keep | keep.wrapping_add(up), n) == climb(up, keep, n)
            - if carry(keep, up, n) {
            1int
        } else {
            0int
        },
        trough(up & keep.wrapping_add(up), keep | keep.wrapping_add(up), n) == trough(
            up,
            keep,
            n,
        ),
        carry(keep, up, n) ==> climb(up, keep, n) > trough(up, keep, n),
    decreases n,
{
    if n > 0 {
        let i = n - 1;
        let x = keep.wrapping_add(up);
        lemma_cancel_upto(up, keep, i as nat);
        lemma_bit_sum(keep, up, i);
        lemma_bit_and(up, x, i);
        lemma_bit_or(keep, x, i);
        lemma_bit_and(up, !keep, i);
        lemma_bit_not(keep, i);
        lemma_bit_single(i, i);
    }
}

/// One round of cancelling leaves the lowest point where it was, keeps the
/// steps up among the places that do not step down, and takes at least one
/// step up away.
pub proof fn lemma_cancel(up: u64, keep: u64)
    requires
        up & !keep == 0,
    ensures
        trough(up & keep.wrapping_add(up), keep | keep.wrapping_add(up), 64) == trough(
            up,
            keep,
            64,
        ),
        (up & keep.wrapping_add(up)) & !(keep | keep.wrapping_add(up)) == 0,
        up != 0 ==> (up & keep.wrapping_add(up)) < up,
{
    lemma_cancel_upto(up, keep, 64);
    let x = keep.wrapping_add(up);
    assert(x == (keep + up) as u64) by (bit_vector)
        requires
            x == if keep + up > 0xffff_ffff_ffff_ffff {
                (keep + up - 0x1_0000_0000_0000_0000) as u64
            } else {
                (keep + up) as u64
            },
    ;
    assert((up & x) & !(keep | x) == 0) by (bit_vector);
    assert(up != 0 ==> (up & x) < up) by (bit_vector)
        requires
            up & !keep == 0,
            x == (keep + up) as u64,
    ;
}

/// A walk that never steps up, or never steps down, is lowest by as much as
/// it steps down.
pub proof fn lemma_trough_counted(up: u64, keep: u64, n: nat)
    requires
        up == 0 || !keep == 0,
        up & !keep == 0,
        n <= 64,
    ensures
        trough(up, keep, n) == -ones_below(!keep, n),
        up == 0 ==> climb(up, keep, n) == -ones_below(!keep, n),
        up != 0 ==> climb(up, keep, n) >= 0,
    decreases n,
{
    if n > 0 {
        let i = n - 1;
        lemma_trough_counted(up, keep, i as nat);
        lemma_bit_not(keep, i);
        lemma_bit_single(i, i);
    }
}

/// The walk of a packed row of the distance matrix: its heights are the
/// entries of the row, counted from the first.
proof fn lemma_climb_row(vp: u64, vn: u64, text: Seq<char>, pattern: Seq<char>, n: nat)
    requires
        encodes(vp, vn, text, pattern),
        n <= 64,
    ensures
        climb(vp & low_mask(pattern.len()), !(vn & low_mask(pattern.len())), n) == row(
            text,
            pattern,
            if n <= pattern.len() {
                n as int
            } else {
                pattern.len() as int
            },
        ) - text.len(),
    decreases n,
{
    if n > 0 {
        let i = n - 1;
        let mask = low_mask(pattern.len());
        lemma_climb_row(vp, vn, text, pattern, i as nat);
        lemma_bit_masked(vp, pattern.len(), i);
        lemma_bit_masked(vn, pattern.len(), i);
        lemma_bit_not(vn & mask, i);
        if i < pattern.len() {
            lemma_distance_push_right(text, pattern.take(i), pattern[i]);
            assert(pattern.take(n as int) =~= pattern.take(i).push(pattern[i]));
            assert(bit(vp, i) == (row(text, pattern, i + 1) == row(text, pattern, i) + 1));
            assert(bit(vn, i) == (row(text, pattern, i + 1) + 1 == row(text, pattern, i)));
        }
    } else {
        assert(pattern.take(0).len() == 0);
    }
}

/// The lowest point of the walk of a packed row tells whether a prefix of
/// the pattern is within `k` of the text.
pub proof fn lemma_trough_row(vp: u64, vn: u64, text: Seq<char>, pattern: Seq<char>, k: nat)
    requires
        encodes(vp, vn, text, pattern),
    ensures
        0 <= text.len() + trough(
            vp & low_mask(pattern.len()),
            !(vn & low_mask(pattern.len())),
            64,
        ),
        (text.len() + trough(vp & low_mask(pattern.len()), !(vn & low_mask(pattern.len())), 64)
            <= k) == prefix_within(text, pattern, k),
        (vp & low_mask(pattern.len())) & !!(vn & low_mask(pattern.len())) == 0,
{
    let mask = low_mask(pattern.len());
    let up = vp & mask;
    let keep = !(vn & mask);
    let j = lemma_trough_is_reached(up, keep, 64);
    lemma_climb_row(vp, vn, text, pattern, j);
    if prefix_within(text, pattern, k) {
        let i = choose|i: int|
            0 <= i <= pattern.len() && edit_distance(text, #[trigger] pattern.take(i)) <= k;
        lemma_trough_is_least(up, keep, 64, i as nat);
        lemma_climb_row(vp, vn, text, pattern, i as nat);
    }
    if text.len() + trough(up, keep, 64) <= k {
        let i = if j <= pattern.len() {
            j as int
        } else {
            pattern.len() as int
        };
        assert(edit_distance(text, pattern.take(i)) <= k);
    }
    assert((vp & mask) & !!(vn & mask) == 0) by (bit_vector)
        requires
            vp & vn == 0,
    ;
}

} // verus!
