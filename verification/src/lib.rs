//! Approximate search in a fixed dictionary of strings: the nearest entry to a
//! query under Levenshtein distance, within a budget of edits.
//!
//! `metric` holds the distance as a mathematical function, with the laws
//! that make it a metric. `levenshtein` computes it with an automaton that
//! takes one codepoint at a time, on the bit-parallel update of `myers` where
//! the pattern fits in a machine word; `rowmin` reads the least entry off
//! such a packed row, and `bits` holds what both need to know of 64-bit
//! words. `automaton` is the same automaton on a plain row, for patterns of
//! any length. `trie` and `bktree` are the two dictionaries built on the
//! distance, and `query` holds the words that their contracts share.

pub mod automaton;
pub mod bits;
pub mod bktree;
pub mod levenshtein;
pub mod metric;
pub mod myers;
pub mod query;
pub mod rowmin;
pub mod trie;

use vstd::prelude::*;

verus! {

/// The place and the distance of the string of `b` that is nearest to `a`;
/// of the first such string where several are nearest.
pub fn levenshtein_extract(a: &str, b: Vec<&str>) -> (r: Option<(usize, u32)>)
    requires
        a@.len() <= u32::MAX,
        forall|i: int| 0 <= i < b@.len() ==> (#[trigger] b@[i])@.len() <= u32::MAX,
    ensures
        match r {
            None => b@.len() == 0,
            Some((index, distance)) => {
                &&& index < b@.len()
                &&& distance == metric::edit_distance(a@, b@[index as int]@)
                &&& forall|j: int|
                    0 <= j < b@.len() ==> distance <= metric::edit_distance(a@, (#[trigger] b@[j])@)
                &&& forall|j: int|
                    0 <= j < index ==> distance < metric::edit_distance(a@, (#[trigger] b@[j])@)
            },
        },
{
    let mut best: Option<(usize, u32)> = None;
    let mut i: usize = 0;
    while i < b.len()
        invariant
            i <= b@.len(),
            a@.len() <= u32::MAX,
            forall|k: int| 0 <= k < b@.len() ==> (#[trigger] b@[k])@.len() <= u32::MAX,
            match best {
                None => i == 0,
                Some((index, distance)) => {
                    &&& index < i
                    &&& distance == metric::edit_distance(a@, b@[index as int]@)
                    &&& forall|j: int|
                        0 <= j < i ==> distance <= metric::edit_distance(a@, (#[trigger] b@[j])@)
                    &&& forall|j: int|
                        0 <= j < index ==> distance < metric::edit_distance(
                            a@,
                            (#[trigger] b@[j])@,
                        )
                },
            },
        decreases b@.len() - i,
    {
        let distance = levenshtein::levenshtein(a, b[i]);
        let better = match best {
            Some((_, least)) => distance < least,
            None => true,
        };
        if better {
            best = Some((i, distance));
        }
        i += 1;
    }
    best
}

} // verus!
