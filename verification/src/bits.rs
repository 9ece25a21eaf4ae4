//! Bit-level vocabulary for 64-bit words: single bits, low masks, the number
//! of set bits, and the carries of an addition.

use vstd::prelude::*;

verus! {

/// Whether bit `i` of `x` is set. Bit 0 is the least significant one.
pub open spec fn bit(x: u64, i: int) -> bool {
    (x >> (i as u64)) & 1 == 1
}

/// The word whose `n` lowest bits are set; all of them from 64 on.
pub open spec fn low_mask(n: nat) -> u64 {
    if n >= 64 {
        u64::MAX
    } else {
        ((1u64 << (n as u64)) - 1) as u64
    }
}

/// How many of the `n` lowest bits of `x` are set.
pub open spec fn ones_below(x: u64, n: nat) -> nat
    decreases n,
{
    if n == 0 {
        0
    } else {
        ones_below(x, (n - 1) as nat) + if bit(x, n - 1) {
            1nat
        } else {
            0nat
        }
    }
}

/// `u64::count_ones` returns the number of ones in the binary representation
/// of its argument. This is taken from the documentation of std and not
/// proved here.
pub assume_specification[ u64::count_ones ](x: u64) -> (r: u32)
    ensures
        r == ones_below(x, 64),
;

/// Among `n` bits at most `n` are set.
pub proof fn lemma_ones_below_bound(x: u64, n: nat)
    ensures
        ones_below(x, n) <= n,
    decreases n,
{
    if n > 0 {
        lemma_ones_below_bound(x, (n - 1) as nat);
    }
}

/// The bits of a word cut by a low mask.
pub proof fn lemma_bit_masked(x: u64, n: nat, i: int)
    requires
        0 <= i < 64,
    ensures
        bit(x & low_mask(n), i) == (i < n && bit(x, i)),
{
    let iu = i as u64;
    if n >= 64 {
        assert((x & 0xffff_ffff_ffff_ffff) == x) by (bit_vector);
    } else {
        let nu = n as u64;
        let m = low_mask(n);
        assert(nu < 64 && iu < 64 && m == ((1u64 << nu) - 1) as u64 ==> ((((x & m) >> iu) & 1 == 1)
            == (iu < nu && ((x >> iu) & 1 == 1)))) by (bit_vector);
    }
}

/// Counting the set bits of a masked word counts the set bits under the mask.
pub proof fn lemma_ones_masked(x: u64, n: nat)
    requires
        n <= 64,
    ensures
        ones_below(x & low_mask(n), 64) == ones_below(x, n),
{
    lemma_ones_masked_upto(x, n, 64);
}

/// The set bits of a masked word, counted up to bit `k`.
proof fn lemma_ones_masked_upto(x: u64, n: nat, k: nat)
    requires
        k <= 64,
    ensures
        ones_below(x & low_mask(n), k) == ones_below(x, if k <= n {
            k
        } else {
            n
        }),
    decreases k,
{
    if k > 0 {
        lemma_ones_masked_upto(x, n, (k - 1) as nat);
        lemma_bit_masked(x, n, k - 1);
    }
}

/// The bits of a word with a single bit set.
pub proof fn lemma_bit_single(i: int, j: int)
    requires
        0 <= i < 64,
        0 <= j < 64,
    ensures
        bit(1u64 << (i as u64), j) == (i == j),
        !bit(0, j),
{
    let iu = i as u64;
    let ju = j as u64;
    assert(iu < 64 && ju < 64 ==> ((((1u64 << iu) >> ju) & 1 == 1) == (iu == ju)))
        by (bit_vector);
    assert(ju < 64 ==> !((0u64 >> ju) & 1 == 1)) by (bit_vector);
}

/// Every bit of the largest word is set.
pub proof fn lemma_bit_all(i: int)
    requires
        0 <= i < 64,
    ensures
        bit(u64::MAX, i),
{
    let iu = i as u64;
    assert(iu < 64 ==> (0xffff_ffff_ffff_ffffu64 >> iu) & 1 == 1) by (bit_vector);
}

/// The bits of the bitwise or of two words.
pub proof fn lemma_bit_or(a: u64, b: u64, i: int)
    requires
        0 <= i < 64,
    ensures
        bit(a | b, i) == (bit(a, i) || bit(b, i)),
{
    let iu = i as u64;
    assert(iu < 64 ==> ((((a | b) >> iu) & 1 == 1) == ((a >> iu) & 1 == 1 || (b >> iu) & 1 == 1)))
        by (bit_vector);
}

/// The bits of the bitwise and of two words.
pub proof fn lemma_bit_and(a: u64, b: u64, i: int)
    requires
        0 <= i < 64,
    ensures
        bit(a & b, i) == (bit(a, i) && bit(b, i)),
{
    let iu = i as u64;
    assert(iu < 64 ==> ((((a & b) >> iu) & 1 == 1) == ((a >> iu) & 1 == 1 && (b >> iu) & 1 == 1)))
        by (bit_vector);
}

/// The bits of the complement of a word.
pub proof fn lemma_bit_not(a: u64, i: int)
    requires
        0 <= i < 64,
    ensures
        bit(!a, i) == !bit(a, i),
{
    let iu = i as u64;
    assert(iu < 64 ==> ((((!a) >> iu) & 1 == 1) == !((a >> iu) & 1 == 1))) by (bit_vector);
}

/// `u64::count_zeros` returns the number of zeros in the binary
/// representation of its argument. This is taken from the documentation of
/// std and not proved here.
pub assume_specification[ u64::count_zeros ](x: u64) -> (r: u32)
    ensures
        r == ones_below(!x, 64),
;

/// Whether the addition of `a` and `b` carries into bit `n`.
pub open spec fn carry(a: u64, b: u64, n: nat) -> bool
    decreases n,
{
    if n == 0 {
        false
    } else {
        let i = n - 1;
        (bit(a, i) && bit(b, i)) || ((bit(a, i) || bit(b, i)) && carry(a, b, i as nat))
    }
}

/// The word of the carries of an addition: the sum, less what the two words
/// hold bit by bit.
proof fn lemma_carries(a: u64, b: u64, i: int)
    requires
        0 <= i < 64,
    ensures
        bit(a.wrapping_add(b) ^ a ^ b, i) == carry(a, b, i as nat),
    decreases i,
{
    let x = a.wrapping_add(b);
    assert(x == (a + b) as u64) by (bit_vector)
        requires
            x == if a + b > 0xffff_ffff_ffff_ffff {
                (a + b - 0x1_0000_0000_0000_0000) as u64
            } else {
                (a + b) as u64
            },
    ;
    let c = x ^ a ^ b;
    assert(c == ((a & b) | ((a | b) & c)) << 1) by (bit_vector)
        requires
            c == ((a + b) as u64) ^ a ^ b,
    ;
    let iu = i as u64;
    if i == 0 {
        assert(!((c >> iu) & 1 == 1)) by (bit_vector)
            requires
                iu == 0,
                c == ((a & b) | ((a | b) & c)) << 1,
        ;
    } else {
        lemma_carries(a, b, i - 1);
        let ju = (i - 1) as u64;
        assert(((c >> iu) & 1 == 1) == (((a >> ju) & 1 == 1 && (b >> ju) & 1 == 1) || (((a >> ju)
            & 1 == 1 || (b >> ju) & 1 == 1) && (c >> ju) & 1 == 1))) by (bit_vector)
            requires
                0 < iu < 64,
                ju == (iu - 1) as u64,
                c == ((a & b) | ((a | b) & c)) << 1,
        ;
    }
}

/// The bits of a wrapping sum: each is the two bits added and the carry
/// from below.
pub proof fn lemma_bit_sum(a: u64, b: u64, i: int)
    requires
        0 <= i < 64,
    ensures
        bit(a.wrapping_add(b), i) == ((bit(a, i) != bit(b, i)) != carry(a, b, i as nat)),
{
    lemma_carries(a, b, i);
    let x = a.wrapping_add(b);
    let c = x ^ a ^ b;
    let iu = i as u64;
    assert(((x >> iu) & 1 == 1) == ((((a >> iu) & 1 == 1) != ((b >> iu) & 1 == 1)) != ((c >> iu) & 1
        == 1))) by (bit_vector)
        requires
            iu < 64,
            c == x ^ a ^ b,
    ;
}

} // verus!
