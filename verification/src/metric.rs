//! The mathematical model: Levenshtein distance over sequences of codepoints,
//! and the laws that make it a metric.

use vstd::prelude::*;

verus! {

/// The smallest of three naturals.
pub open spec fn min3(a: nat, b: nat, c: nat) -> nat {
    if a <= b && a <= c {
        a
    } else if b <= c {
        b
    } else {
        c
    }
}

/// Cost of lining up codepoint `x` against codepoint `y`: nothing when they
/// are equal, one substitution otherwise.
pub open spec fn mismatch(x: char, y: char) -> nat {
    if x == y {
        0
    } else {
        1
    }
}

/// Levenshtein distance: the least number of single-codepoint insertions,
/// deletions and substitutions that turn `a` into `b`.
///
/// Written as the classical recurrence on the last codepoints: the last edit
/// either lines up the two last codepoints, or drops the last of `a`, or adds
/// the last of `b`.
pub open spec fn edit_distance(a: Seq<char>, b: Seq<char>) -> nat
    decreases a.len() + b.len(),
{
    if a.len() == 0 {
        b.len()
    } else if b.len() == 0 {
        a.len()
    } else {
        min3(
            edit_distance(a.drop_last(), b.drop_last()) + mismatch(a.last(), b.last()),
            edit_distance(a.drop_last(), b) + 1,
            edit_distance(a, b.drop_last()) + 1,
        )
    }
}

/// The recurrence, read forwards: what one more codepoint on each side costs.
pub proof fn lemma_distance_push(a: Seq<char>, x: char, b: Seq<char>, y: char)
    ensures
        edit_distance(a.push(x), b.push(y)) == min3(
            edit_distance(a, b) + mismatch(x, y),
            edit_distance(a, b.push(y)) + 1,
            edit_distance(a.push(x), b) + 1,
        ),
{
    assert(a.push(x).drop_last() =~= a);
    assert(b.push(y).drop_last() =~= b);
}

/// Against the empty sequence the distance is the length.
pub proof fn lemma_distance_empty(a: Seq<char>)
    ensures
        edit_distance(a, Seq::<char>::empty()) == a.len(),
        edit_distance(Seq::<char>::empty(), a) == a.len(),
{
}

/// Symmetry: the distance does not depend on the direction of the edit.
pub proof fn lemma_distance_symmetric(a: Seq<char>, b: Seq<char>)
    ensures
        edit_distance(a, b) == edit_distance(b, a),
    decreases a.len() + b.len(),
{
    if a.len() > 0 && b.len() > 0 {
        lemma_distance_symmetric(a.drop_last(), b.drop_last());
        lemma_distance_symmetric(a.drop_last(), b);
        lemma_distance_symmetric(a, b.drop_last());
    }
}

/// A sequence is at distance zero from itself.
pub proof fn lemma_distance_self(a: Seq<char>)
    ensures
        edit_distance(a, a) == 0,
    decreases a.len(),
{
    if a.len() > 0 {
        lemma_distance_self(a.drop_last());
    }
}

/// Only equal sequences are at distance zero.
pub proof fn lemma_distance_zero(a: Seq<char>, b: Seq<char>)
    requires
        edit_distance(a, b) == 0,
    ensures
        a == b,
    decreases a.len() + b.len(),
{
    if a.len() == 0 || b.len() == 0 {
        assert(a =~= b);
    } else {
        lemma_distance_zero(a.drop_last(), b.drop_last());
        assert(a =~= a.drop_last().push(a.last()));
        assert(b =~= b.drop_last().push(b.last()));
    }
}

/// The distance is at least the difference of the lengths and at most the
/// longer length.
pub proof fn lemma_distance_bounds(a: Seq<char>, b: Seq<char>)
    ensures
        edit_distance(a, b) >= a.len() - b.len(),
        edit_distance(a, b) >= b.len() - a.len(),
        edit_distance(a, b) <= a.len() || edit_distance(a, b) <= b.len(),
        edit_distance(a, b) <= a.len() + b.len(),
    decreases a.len() + b.len(),
{
    if a.len() > 0 && b.len() > 0 {
        lemma_distance_bounds(a.drop_last(), b.drop_last());
        lemma_distance_bounds(a.drop_last(), b);
        lemma_distance_bounds(a, b.drop_last());
    }
}

/// Dropping the last codepoint of either side moves the distance by at most
/// one upwards.
proof fn lemma_distance_drop_last(a: Seq<char>, b: Seq<char>)
    ensures
        a.len() > 0 ==> edit_distance(a, b) <= edit_distance(a.drop_last(), b) + 1,
        b.len() > 0 ==> edit_distance(a, b) <= edit_distance(a, b.drop_last()) + 1,
        a.len() > 0 && b.len() > 0 ==> edit_distance(a, b) <= edit_distance(
            a.drop_last(),
            b.drop_last(),
        ) + mismatch(a.last(), b.last()),
{
}

/// The triangle inequality: going through `b` is never shorter than going
/// from `a` to `c` directly.
pub proof fn lemma_distance_triangle(a: Seq<char>, b: Seq<char>, c: Seq<char>)
    ensures
        edit_distance(a, c) <= edit_distance(a, b) + edit_distance(b, c),
    decreases a.len() + b.len() + c.len(),
{
    lemma_distance_bounds(a, b);
    lemma_distance_bounds(b, c);
    lemma_distance_bounds(a, c);
    if a.len() > 0 && b.len() > 0 && c.len() > 0 {
        let a1 = a.drop_last();
        let b1 = b.drop_last();
        let c1 = c.drop_last();
        lemma_distance_drop_last(a, c);
        lemma_distance_triangle(a1, b, c);
        lemma_distance_triangle(a, b, c1);
        lemma_distance_triangle(a1, b1, c1);
        lemma_distance_triangle(a1, b1, c);
        lemma_distance_triangle(a, b1, c1);
        lemma_distance_triangle(a, b1, c);
    }
}

/// One more codepoint at the end of the second sequence moves the distance
/// by at most one, either way.
pub proof fn lemma_distance_push_right(a: Seq<char>, b: Seq<char>, y: char)
    ensures
        edit_distance(a, b.push(y)) <= edit_distance(a, b) + 1,
        edit_distance(a, b) <= edit_distance(a, b.push(y)) + 1,
{
    let b2 = b.push(y);
    assert(b2.drop_last() =~= b);
    lemma_distance_self(b);
    lemma_distance_drop_last(b2, b);
    lemma_distance_drop_last(b, b2);
    lemma_distance_triangle(a, b, b2);
    lemma_distance_triangle(a, b2, b);
}

/// One more codepoint at the end of the first sequence moves the distance by
/// at most one, either way.
pub proof fn lemma_distance_push_left(a: Seq<char>, x: char, b: Seq<char>)
    ensures
        edit_distance(a.push(x), b) <= edit_distance(a, b) + 1,
        edit_distance(a, b) <= edit_distance(a.push(x), b) + 1,
{
    lemma_distance_symmetric(a.push(x), b);
    lemma_distance_symmetric(a, b);
    lemma_distance_push_right(b, a, x);
}

/// One more codepoint on both sides never lowers the distance, and raises it
/// by at most one.
pub proof fn lemma_distance_push_both(a: Seq<char>, x: char, b: Seq<char>, y: char)
    ensures
        edit_distance(a, b) <= edit_distance(a.push(x), b.push(y)) <= edit_distance(a, b) + 1,
{
    lemma_distance_push(a, x, b, y);
    lemma_distance_push_right(a, b, y);
    lemma_distance_push_left(a, x, b);
}

/// Some prefix of `pattern` lies within `k` edits of `text`; in other words,
/// the least entry of the distance row of `text` is at most `k`.
pub open spec fn prefix_within(text: Seq<char>, pattern: Seq<char>, k: nat) -> bool {
    exists|i: int| 0 <= i <= pattern.len() && edit_distance(text, #[trigger] pattern.take(i)) <= k
}

/// Whatever is appended to `text`, the result is no nearer to any prefix of
/// `pattern` than `text` is to the nearest prefix of `pattern`.
pub proof fn lemma_extension_prefix(
    text: Seq<char>,
    ext: Seq<char>,
    pattern: Seq<char>,
    j: int,
    k: nat,
)
    requires
        0 <= j <= pattern.len(),
        edit_distance(text + ext, pattern.take(j)) <= k,
    ensures
        prefix_within(text, pattern, k),
    decreases ext.len() + j,
{
    let whole = text + ext;
    let head = pattern.take(j);
    if ext.len() == 0 {
        assert(whole =~= text);
    } else if j == 0 {
        assert(pattern.take(0).len() == 0);
        assert(edit_distance(text, pattern.take(0)) == text.len());
    } else {
        assert(whole.drop_last() =~= text + ext.drop_last());
        assert(head.drop_last() =~= pattern.take(j - 1));
        let diag = edit_distance(whole.drop_last(), head.drop_last()) + mismatch(
            whole.last(),
            head.last(),
        );
        let up = edit_distance(whole.drop_last(), head) + 1;
        if edit_distance(whole, head) == diag {
            lemma_extension_prefix(text, ext.drop_last(), pattern, j - 1, k);
        } else if edit_distance(whole, head) == up {
            lemma_extension_prefix(text, ext.drop_last(), pattern, j, k);
        } else {
            lemma_extension_prefix(text, ext, pattern, j - 1, k);
        }
    }
}

/// A text whose every continuation is to stay within `k` edits of `pattern`
/// must itself be within `k` edits of a prefix of `pattern`.
pub proof fn lemma_extension_bound(text: Seq<char>, ext: Seq<char>, pattern: Seq<char>, k: nat)
    requires
        edit_distance(text + ext, pattern) <= k,
    ensures
        prefix_within(text, pattern, k),
{
    assert(pattern.take(pattern.len() as int) =~= pattern);
    lemma_extension_prefix(text, ext, pattern, pattern.len() as int, k);
}

} // verus!
