//! Bit-level model of a 64-square board mask: reading single bits and
//! counting set bits, with the lemmas the engine's proofs need.

use vstd::prelude::*;

verus! {

/// True when bit `i` of `b` is set.
pub open spec fn bit64(b: u64, i: u64) -> bool
    recommends
        i < 64,
{
    b & (1u64 << i) != 0
}

/// Number of set bits of `b` among the bits below position `n`.
pub open spec fn pop_upto(b: u64, n: int) -> nat
    decreases n,
{
    if n <= 0 {
        0
    } else {
        pop_upto(b, n - 1) + (if bit64(b, (n - 1) as u64) {
            1nat
        } else {
            0nat
        })
    }
}

/// Number of set bits of `b`.
pub open spec fn pop64(b: u64) -> nat {
    pop_upto(b, 64)
}

/// A bit of a union is a bit of either operand.
pub proof fn lemma_bit_or(a: u64, b: u64, i: u64)
    requires
        i < 64,
    ensures
        bit64(a | b, i) == (bit64(a, i) || bit64(b, i)),
{
    assert(((a | b) & (1u64 << i) != 0) == (a & (1u64 << i) != 0 || b & (1u64 << i) != 0))
        by (bit_vector)
        requires
            i < 64,
    ;
}

/// A bit of `a & !m` is a bit of `a` outside `m`.
pub proof fn lemma_bit_and_not(a: u64, m: u64, i: u64)
    requires
        i < 64,
    ensures
        bit64(a & !m, i) == (bit64(a, i) && !bit64(m, i)),
{
    assert(((a & !m) & (1u64 << i) != 0) == (a & (1u64 << i) != 0 && m & (1u64 << i) == 0))
        by (bit_vector)
        requires
            i < 64,
    ;
}

/// A one-bit mask has exactly its own bit set.
pub proof fn lemma_bit_single(s: u64, i: u64)
    requires
        s < 64,
        i < 64,
    ensures
        bit64(1u64 << s, i) == (i == s),
{
    assert(((1u64 << s) & (1u64 << i) != 0) == (i == s)) by (bit_vector)
        requires
            s < 64,
            i < 64,
    ;
}

/// The zero mask has no bit set.
pub proof fn lemma_bit_zero(i: u64)
    requires
        i < 64,
    ensures
        !bit64(0u64, i),
{
    assert(0u64 & (1u64 << i) == 0) by (bit_vector);
}

/// A mask with any bit set is non-zero.
pub proof fn lemma_nonzero_of_bit(b: u64, i: u64)
    requires
        i < 64,
        bit64(b, i),
    ensures
        b != 0,
{
    assert(b & (1u64 << i) != 0 ==> b != 0) by (bit_vector);
}

/// A non-zero mask has some bit set.
pub proof fn lemma_bit_of_nonzero(b: u64) -> (i: u64)
    requires
        b != 0,
    ensures
        i < 64,
        bit64(b, i),
    decreases b,
{
    if b & 1 != 0 {
        assert(b & (1u64 << 0u64) != 0) by (bit_vector)
            requires
                b & 1 != 0,
        ;
        0u64
    } else {
        assert(b >> 1u64 != 0 && b >> 1u64 < b && (b >> 1u64) & (1u64 << 63u64) == 0)
            by (bit_vector)
            requires
                b != 0 && b & 1 == 0,
        ;
        let j = lemma_bit_of_nonzero(b >> 1u64);
        assert(j != 63) by (bit_vector)
            requires
                (b >> 1u64) & (1u64 << j) != 0 && (b >> 1u64) & (1u64 << 63u64) == 0,
        ;
        let i: u64 = (j + 1) as u64;
        assert(b & (1u64 << i) != 0) by (bit_vector)
            requires
                (b >> 1u64) & (1u64 << j) != 0 && j < 63 && i == (j + 1) as u64,
        ;
        i
    }
}

/// The partial population count never exceeds the number of bits counted.
pub proof fn lemma_pop_upto_le(b: u64, n: int)
    requires
        0 <= n,
    ensures
        pop_upto(b, n) <= n,
    decreases n,
{
    if n > 0 {
        lemma_pop_upto_le(b, n - 1);
    }
}

/// Counting a bitwise-smaller mask gives a count at most as large.
pub proof fn lemma_pop_monotone(a: u64, b: u64, n: int)
    requires
        n <= 64,
        forall|i: u64| i < 64 && bit64(a, i) ==> bit64(b, i),
    ensures
        pop_upto(a, n) <= pop_upto(b, n),
    decreases n,
{
    if n > 0 {
        lemma_pop_monotone(a, b, n - 1);
    }
}

/// Setting one clear bit, and possibly others that `b` adds on top of `a`,
/// raises the count by at least one.
pub proof fn lemma_pop_add_bit(a: u64, b: u64, s: u64, n: int)
    requires
        n <= 64,
        s < 64,
        !bit64(a, s),
        forall|i: u64| i < 64 && (bit64(a, i) || i == s) ==> bit64(b, i),
    ensures
        pop_upto(b, n) >= pop_upto(a, n) + (if s < n {
            1int
        } else {
            0int
        }),
    decreases n,
{
    if n > 0 {
        lemma_pop_add_bit(a, b, s, n - 1);
    }
}

/// Adding exactly one clear bit raises the count by exactly one.
pub proof fn lemma_pop_set_exact(a: u64, b: u64, s: u64, n: int)
    requires
        n <= 64,
        s < 64,
        !bit64(a, s),
        forall|i: u64| i < 64 ==> bit64(b, i) == (bit64(a, i) || i == s),
    ensures
        pop_upto(b, n) == pop_upto(a, n) + (if s < n {
            1int
        } else {
            0int
        }),
    decreases n,
{
    if n > 0 {
        lemma_pop_set_exact(a, b, s, n - 1);
    }
}

/// Counting a union of disjoint masks adds the two counts.
pub proof fn lemma_pop_disjoint_or(a: u64, b: u64, n: int)
    requires
        n <= 64,
        forall|i: u64| i < 64 ==> !(#[trigger] bit64(a, i) && bit64(b, i)),
    ensures
        pop_upto(a | b, n) == pop_upto(a, n) + pop_upto(b, n),
    decreases n,
{
    if n > 0 {
        lemma_pop_disjoint_or(a, b, n - 1);
        lemma_bit_or(a, b, (n - 1) as u64);
    }
}

/// Counts the set bits of `b`.
pub fn popcount(b: u64) -> (r: u32)
    ensures
        r == pop64(b),
{
    let mut i: u64 = 0;
    let mut count: u32 = 0;
    while i < 64
        invariant
            i <= 64,
            count == pop_upto(b, i as int),
            count <= i,
        decreases 64 - i,
    {
        proof {
            lemma_pop_upto_le(b, i as int);
        }
        if b & (1u64 << i) != 0 {
            count = count + 1;
        }
        i = i + 1;
    }
    count
}

} // verus!
