//! The bit-parallel row update of Myers, in the form given by Hyyro, and the
//! proof that it computes the next row of the distance matrix.
//!
//! A row of the matrix for a pattern of at most 64 codepoints is held as two
//! words: bit `i` of `vp` says that entry `i + 1` is one more than entry `i`,
//! bit `i` of `vn` that it is one less.

use crate::bits::{
    bit, lemma_bit_all, lemma_bit_masked, lemma_bit_single, low_mask, ones_below,
};
use crate::metric::{
    edit_distance, lemma_distance_push, lemma_distance_push_both, lemma_distance_push_left,
    lemma_distance_push_right,
};
use vstd::prelude::*;

verus! {

/// Entry `i` of the distance row of `text`: its distance to the first `i`
/// codepoints of `pattern`.
pub open spec fn row(text: Seq<char>, pattern: Seq<char>, i: int) -> int {
    edit_distance(text, pattern.take(i)) as int
}

/// `vp` and `vn` hold the steps between neighbouring entries of the distance
/// row of `text`.
pub open spec fn encodes(vp: u64, vn: u64, text: Seq<char>, pattern: Seq<char>) -> bool {
    &&& pattern.len() <= 64
    &&& vp & vn == 0
    &&& forall|i: int|
        0 <= i < pattern.len() ==> #[trigger] bit(vp, i) == (row(text, pattern, i + 1) == row(
            text,
            pattern,
            i,
        ) + 1)
    &&& forall|i: int|
        0 <= i < pattern.len() ==> #[trigger] bit(vn, i) == (row(text, pattern, i + 1) + 1 == row(
            text,
            pattern,
            i,
        ))
}

/// `pm` marks the places of `pattern` that hold `c`.
pub open spec fn marks(pm: u64, pattern: Seq<char>, c: char) -> bool {
    forall|i: int| 0 <= i < pattern.len() ==> #[trigger] bit(pm, i) == (pattern[i] == c)
}

/// Places where the new entry equals the old entry one column to the left.
pub open spec fn step_d0(pm: u64, vp: u64, vn: u64) -> u64 {
    (((pm & vp).wrapping_add(vp)) ^ vp) | pm | vn
}

/// Columns in which the new row is one above the old row.
pub open spec fn step_hp(pm: u64, vp: u64, vn: u64) -> u64 {
    ((vn | !(step_d0(pm, vp, vn) | vp)) << 1) | 1
}

/// Columns in which the new row is one below the old row.
pub open spec fn step_hn(pm: u64, vp: u64, vn: u64) -> u64 {
    (step_d0(pm, vp, vn) & vp) << 1
}

/// The upward steps of the new row.
pub open spec fn step_vp(pm: u64, vp: u64, vn: u64) -> u64 {
    step_hn(pm, vp, vn) | !(step_d0(pm, vp, vn) | step_hp(pm, vp, vn))
}

/// The downward steps of the new row.
pub open spec fn step_vn(pm: u64, vp: u64, vn: u64) -> u64 {
    step_hp(pm, vp, vn) & step_d0(pm, vp, vn)
}

/// The carry chain of the addition in `step_d0` hands a match or a downward
/// step on to the next column: the word satisfies its own recurrence.
proof fn lemma_d0_recurrence(pm: u64, vp: u64, vn: u64)
    requires
        vp & vn == 0,
    ensures
        step_d0(pm, vp, vn) == pm | vn | ((step_d0(pm, vp, vn) & vp) << 1),
{
    let x = pm & vp;
    let s = x.wrapping_add(vp);
    assert(s == (x + vp) as u64) by (bit_vector)
        requires
            s == if x + vp > 0xffff_ffff_ffff_ffff {
                (x + vp - 0x1_0000_0000_0000_0000) as u64
            } else {
                (x + vp) as u64
            },
    ;
    let d0 = (s ^ vp) | pm | vn;
    assert(d0 == pm | vn | ((d0 & vp) << 1)) by (bit_vector)
        requires
            vp & vn == 0,
            d0 == ((((pm & vp) + vp) as u64) ^ vp) | pm | vn,
    ;
}

/// The words of one step, bit by bit.
proof fn lemma_step_bits(pm: u64, vp: u64, vn: u64, i: int)
    requires
        vp & vn == 0,
        0 <= i < 64,
    ensures
        bit(step_hn(pm, vp, vn), i) == (i > 0 && bit(step_d0(pm, vp, vn), i - 1) && bit(
            vp,
            i - 1,
        )),
        bit(step_hp(pm, vp, vn), i) == (i == 0 || bit(vn, i - 1) || !(bit(
            step_d0(pm, vp, vn),
            i - 1,
        ) || bit(vp, i - 1))),
        bit(step_d0(pm, vp, vn), i) == (bit(pm, i) || bit(vn, i) || bit(step_hn(pm, vp, vn), i)),
        bit(step_vp(pm, vp, vn), i) == (bit(step_hn(pm, vp, vn), i) || !(bit(
            step_d0(pm, vp, vn),
            i,
        ) || bit(step_hp(pm, vp, vn), i))),
        bit(step_vn(pm, vp, vn), i) == (bit(step_hp(pm, vp, vn), i) && bit(
            step_d0(pm, vp, vn),
            i,
        )),
{
    lemma_d0_recurrence(pm, vp, vn);
    let d0 = step_d0(pm, vp, vn);
    let hp = step_hp(pm, vp, vn);
    let hn = step_hn(pm, vp, vn);
    let vp2 = step_vp(pm, vp, vn);
    let vn2 = step_vn(pm, vp, vn);
    let iu = i as u64;
    let ju = if i > 0 {
        (i - 1) as u64
    } else {
        0u64
    };
    assert(((hn >> iu) & 1 == 1) == (iu > 0 && (d0 >> ju) & 1 == 1 && (vp >> ju) & 1 == 1))
        by (bit_vector)
        requires
            iu < 64,
            ju == if iu > 0 {
                (iu - 1) as u64
            } else {
                0u64
            },
            hn == (d0 & vp) << 1,
    ;
    assert(((hp >> iu) & 1 == 1) == (iu == 0 || (vn >> ju) & 1 == 1 || !((d0 >> ju) & 1 == 1 || (vp
        >> ju) & 1 == 1))) by (bit_vector)
        requires
            iu < 64,
            ju == if iu > 0 {
                (iu - 1) as u64
            } else {
                0u64
            },
            hp == ((vn | !(d0 | vp)) << 1) | 1,
    ;
    assert(((d0 >> iu) & 1 == 1) == ((pm >> iu) & 1 == 1 || (vn >> iu) & 1 == 1 || (hn >> iu) & 1
        == 1)) by (bit_vector)
        requires
            iu < 64,
            hn == (d0 & vp) << 1,
            d0 == pm | vn | ((d0 & vp) << 1),
    ;
    assert(((vp2 >> iu) & 1 == 1) == ((hn >> iu) & 1 == 1 || !((d0 >> iu) & 1 == 1 || (hp >> iu)
        & 1 == 1))) by (bit_vector)
        requires
            iu < 64,
            vp2 == hn | !(d0 | hp),
    ;
    assert(((vn2 >> iu) & 1 == 1) == ((hp >> iu) & 1 == 1 && (d0 >> iu) & 1 == 1))
        by (bit_vector)
        requires
            iu < 64,
            vn2 == hp & d0,
    ;
}

/// No column of the new row steps both up and down.
proof fn lemma_step_disjoint(pm: u64, vp: u64, vn: u64)
    requires
        vp & vn == 0,
    ensures
        step_vp(pm, vp, vn) & step_vn(pm, vp, vn) == 0,
{
    let d0 = step_d0(pm, vp, vn);
    let hp = step_hp(pm, vp, vn);
    let hn = step_hn(pm, vp, vn);
    let vp2 = step_vp(pm, vp, vn);
    let vn2 = step_vn(pm, vp, vn);
    assert(vp2 & vn2 == 0) by (bit_vector)
        requires
            vp & vn == 0,
            hp == ((vn | !(d0 | vp)) << 1) | 1,
            hn == (d0 & vp) << 1,
            vp2 == hn | !(d0 | hp),
            vn2 == hp & d0,
    ;
}

/// Column `i` of one step: what each word of the step says there about the
/// old row of `text` and the new row of `text` followed by `c`.
#[verifier::rlimit(50)]
proof fn lemma_step_column(
    pm: u64,
    vp: u64,
    vn: u64,
    text: Seq<char>,
    c: char,
    pattern: Seq<char>,
    i: int,
)
    requires
        encodes(vp, vn, text, pattern),
        marks(pm, pattern, c),
        0 <= i < pattern.len(),
    ensures
        bit(step_hp(pm, vp, vn), i) == (row(text.push(c), pattern, i) == row(text, pattern, i)
            + 1),
        bit(step_hn(pm, vp, vn), i) == (row(text.push(c), pattern, i) + 1 == row(
            text,
            pattern,
            i,
        )),
        bit(step_d0(pm, vp, vn), i) == (row(text.push(c), pattern, i + 1) == row(
            text,
            pattern,
            i,
        )),
        bit(step_vp(pm, vp, vn), i) == (row(text.push(c), pattern, i + 1) == row(
            text.push(c),
            pattern,
            i,
        ) + 1),
        bit(step_vn(pm, vp, vn), i) == (row(text.push(c), pattern, i + 1) + 1 == row(
            text.push(c),
            pattern,
            i,
        )),
    decreases i,
{
    let next = text.push(c);
    let here = pattern.take(i);
    let y = pattern[i];
    lemma_step_bits(pm, vp, vn, i);
    assert(pattern.take(i + 1) =~= here.push(y));
    lemma_distance_push(text, c, here, y);
    lemma_distance_push_both(text, c, here, y);
    lemma_distance_push_left(text, c, here);
    lemma_distance_push_right(next, here, y);
    lemma_distance_push_right(text, here, y);
    assert(bit(pm, i) == (y == c));
    if i > 0 {
        let before = pattern.take(i - 1);
        let z = pattern[i - 1];
        lemma_step_column(pm, vp, vn, text, c, pattern, i - 1);
        assert(here =~= before.push(z));
        lemma_distance_push_both(text, c, before, z);
        lemma_distance_push_right(text, before, z);
        assert(bit(vp, i - 1) == (row(text, pattern, i) == row(text, pattern, i - 1) + 1));
        assert(bit(vn, i - 1) == (row(text, pattern, i) + 1 == row(text, pattern, i - 1)));
    } else {
        assert(here.len() == 0);
        assert(row(next, pattern, 0) == row(text, pattern, 0) + 1);
    }
    assert(bit(vp, i) == (row(text, pattern, i + 1) == row(text, pattern, i) + 1));
    assert(bit(vn, i) == (row(text, pattern, i + 1) + 1 == row(text, pattern, i)));
}

/// One step of the bit-parallel update turns the encoding of the row of
/// `text` into the encoding of the row of `text` followed by `c`.
pub proof fn lemma_step_encodes(
    pm: u64,
    vp: u64,
    vn: u64,
    text: Seq<char>,
    c: char,
    pattern: Seq<char>,
)
    requires
        encodes(vp, vn, text, pattern),
        marks(pm, pattern, c),
    ensures
        encodes(step_vp(pm, vp, vn), step_vn(pm, vp, vn), text.push(c), pattern),
{
    lemma_step_disjoint(pm, vp, vn);
    assert forall|i: int| 0 <= i < pattern.len() implies #[trigger] bit(step_vp(pm, vp, vn), i)
        == (row(text.push(c), pattern, i + 1) == row(text.push(c), pattern, i) + 1) by {
        lemma_step_column(pm, vp, vn, text, c, pattern, i);
    }
    assert forall|i: int| 0 <= i < pattern.len() implies #[trigger] bit(step_vn(pm, vp, vn), i)
        == (row(text.push(c), pattern, i + 1) + 1 == row(text.push(c), pattern, i)) by {
        lemma_step_column(pm, vp, vn, text, c, pattern, i);
    }
}

/// The row of the empty text climbs by one in every column.
pub proof fn lemma_start_encodes(pattern: Seq<char>)
    requires
        pattern.len() <= 64,
    ensures
        encodes(low_mask(pattern.len()), 0, Seq::<char>::empty(), pattern),
{
    let vp = low_mask(pattern.len());
    assert(vp & 0 == 0) by (bit_vector);
    assert forall|i: int| 0 <= i < pattern.len() implies #[trigger] bit(vp, i) == (row(
        Seq::<char>::empty(),
        pattern,
        i + 1,
    ) == row(Seq::<char>::empty(), pattern, i) + 1) by {
        assert(0xffff_ffff_ffff_ffffu64 & vp == vp) by (bit_vector);
        lemma_bit_masked(u64::MAX, pattern.len(), i);
        lemma_bit_all(i);
    }
    assert forall|i: int| 0 <= i < pattern.len() implies #[trigger] bit(0, i) == (row(
        Seq::<char>::empty(),
        pattern,
        i + 1,
    ) + 1 == row(Seq::<char>::empty(), pattern, i)) by {
        lemma_bit_single(i, i);
    }
}

/// The last entry of the row is the first one plus the upward steps minus
/// the downward steps.
pub proof fn lemma_row_sum(vp: u64, vn: u64, text: Seq<char>, pattern: Seq<char>, n: nat)
    requires
        encodes(vp, vn, text, pattern),
        n <= pattern.len(),
    ensures
        row(text, pattern, n as int) == text.len() + ones_below(vp, n) - ones_below(vn, n),
    decreases n,
{
    if n > 0 {
        lemma_row_sum(vp, vn, text, pattern, (n - 1) as nat);
        lemma_distance_push_right(text, pattern.take(n - 1), pattern[n - 1]);
        assert(pattern.take(n as int) =~= pattern.take(n - 1).push(pattern[n - 1]));
        assert(bit(vp, n - 1) == (row(text, pattern, n as int) == row(text, pattern, n - 1) + 1));
        assert(bit(vn, n - 1) == (row(text, pattern, n as int) + 1 == row(text, pattern, n - 1)));
    } else {
        assert(pattern.take(0).len() == 0);
    }
}

} // verus!
