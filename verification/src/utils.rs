use vstd::prelude::*;

verus! {

/// Whether bit `i` of the word `x` is one. Bits are numbered from the least
/// significant one, which is bit 0.
pub open spec fn bit_is_set(x: u64, i: u64) -> bool {
    i < 64 && (x >> i) & 1 == 1
}

/// Number of one bits among the lowest `k` bits of `x`.
pub open spec fn count_low_bits(x: u64, k: nat) -> nat
    decreases k,
{
    if k == 0 {
        0
    } else {
        count_low_bits(x, (k - 1) as nat) + if bit_is_set(x, (k - 1) as u64) {
            1nat
        } else {
            0nat
        }
    }
}

/// Number of one bits in a 64-bit word.
pub open spec fn count_ones(x: u64) -> nat {
    count_low_bits(x, 64)
}

/// The lowest `k` bits of `x`, the others cleared.
pub open spec fn low_part(x: u64, k: u64) -> u64 {
    if k >= 64 {
        x
    } else {
        x & (((1u64 << k) - 1) as u64)
    }
}

/// None of the lowest nought bits is set.
proof fn lemma_low_part_zero(x: u64)
    by (bit_vector)
    ensures
        low_part(x, 0) == 0,
{
}

/// What clearing the lowest set bit does to bit `i`: the bit stays as it is
/// where a lower bit is set, and is clear where none is.
proof fn lemma_lowest_bit_step(x: u64, i: u64)
    by (bit_vector)
    requires
        x != 0,
        i < 64,
    ensures
        low_part(x, i) != 0 ==> (bit_is_set(x & ((x - 1) as u64), i) <==> bit_is_set(x, i)),
        low_part(x, i) == 0 ==> !bit_is_set(x & ((x - 1) as u64), i),
        low_part(x, (i + 1) as u64) == 0 <==> low_part(x, i) == 0 && !bit_is_set(x, i),
{
}

/// Among the lowest `k` bits, clearing the lowest set bit of `x` removes one
/// bit if one of them is set, and none otherwise.
proof fn lemma_clear_lowest_bit_below(x: u64, k: nat)
    requires
        x != 0,
        k <= 64,
    ensures
        count_low_bits(x & ((x - 1) as u64), k) + (if low_part(x, k as u64) != 0 {
            1nat
        } else {
            0nat
        }) == count_low_bits(x, k),
    decreases k,
{
    if k == 0 {
        lemma_low_part_zero(x);
    } else {
        lemma_clear_lowest_bit_below(x, (k - 1) as nat);
        lemma_lowest_bit_step(x, (k - 1) as u64);
    }
}

/// Clearing the lowest set bit of a non-zero word lowers its bit count by one.
pub proof fn lemma_clear_lowest_bit(x: u64)
    requires
        x != 0,
    ensures
        count_ones(x & ((x - 1) as u64)) + 1 == count_ones(x),
{
    lemma_clear_lowest_bit_below(x, 64);
}

/// No more than `k` of the lowest `k` bits are set.
pub proof fn lemma_count_low_bits_bound(x: u64, k: nat)
    ensures
        count_low_bits(x, k) <= k,
    decreases k,
{
    if k > 0 {
        lemma_count_low_bits_bound(x, (k - 1) as nat);
    }
}

/// The zero word has no bit set.
pub proof fn lemma_count_low_bits_zero(k: nat)
    ensures
        count_low_bits(0, k) == 0,
    decreases k,
{
    if k > 0 {
        lemma_count_low_bits_zero((k - 1) as nat);
        let i: u64 = (k - 1) as u64;
        if i < 64 {
            lemma_bit_algebra(0, 0, i);
        }
    }
}

/// How the bitwise operations act on a single bit.
pub proof fn lemma_bit_algebra(a: u64, b: u64, i: u64)
    by (bit_vector)
    requires
        i < 64,
    ensures
        bit_is_set(a & b, i) <==> bit_is_set(a, i) && bit_is_set(b, i),
        bit_is_set(a | b, i) <==> bit_is_set(a, i) || bit_is_set(b, i),
        bit_is_set(a ^ b, i) <==> bit_is_set(a, i) != bit_is_set(b, i),
        bit_is_set(!a, i) <==> !bit_is_set(a, i),
        !bit_is_set(0, i),
        bit_is_set(0xffff_ffff_ffff_ffff, i),
{
}

/// How a shift by `n` places moves a single bit, and which bit the word
/// `1 << n` holds.
pub proof fn lemma_bit_shift(a: u64, n: u64, i: u64)
    by (bit_vector)
    requires
        n < 64,
        i < 64,
    ensures
        bit_is_set(a << n, i) <==> i >= n && bit_is_set(a, (i - n) as u64),
        bit_is_set(a >> n, i) <==> i + n < 64 && bit_is_set(a, (i + n) as u64),
        bit_is_set(1u64 << n, i) <==> i == n,
{
}

/// Words that agree in their lowest `i` bits and in bit `i` agree in their
/// lowest `i + 1` bits.
proof fn lemma_low_part_step(a: u64, b: u64, i: u64)
    by (bit_vector)
    requires
        i < 64,
        low_part(a, i) == low_part(b, i),
        bit_is_set(a, i) <==> bit_is_set(b, i),
    ensures
        low_part(a, (i + 1) as u64) == low_part(b, (i + 1) as u64),
{
}

/// Words with the same bits agree in their lowest `k` bits.
proof fn lemma_low_parts_agree(a: u64, b: u64, k: nat)
    requires
        k <= 64,
        forall|i: u64| i < 64 ==> (bit_is_set(a, i) <==> bit_is_set(b, i)),
    ensures
        low_part(a, k as u64) == low_part(b, k as u64),
    decreases k,
{
    if k == 0 {
        lemma_low_part_zero(a);
        lemma_low_part_zero(b);
    } else {
        lemma_low_parts_agree(a, b, (k - 1) as nat);
        lemma_low_part_step(a, b, (k - 1) as u64);
    }
}

/// Two words with the same bits are the same word.
pub proof fn lemma_bits_determine_word(a: u64, b: u64)
    requires
        forall|i: u64| i < 64 ==> (bit_is_set(a, i) <==> bit_is_set(b, i)),
    ensures
        a == b,
{
    lemma_low_parts_agree(a, b, 64);
}

/// Counts the one bits of `x` by clearing the lowest set bit until none is
/// left, so that the loop runs once for each bit that is set.
pub fn count_bits(x: u64) -> (count: u8)
    ensures
        count == count_ones(x),
        count <= 64,
{
    let ghost x0: u64 = x;
    let mut x: u64 = x;
    let mut count: u8 = 0;
    proof {
        lemma_count_low_bits_bound(x0, 64);
    }
    while x != 0
        invariant
            count + count_ones(x) == count_ones(x0),
            count_ones(x0) <= 64,
        decreases count_ones(x),
    {
        proof {
            lemma_clear_lowest_bit(x);
        }
        x = x & (x - 1);
        count += 1;
    }
    proof {
        lemma_count_low_bits_zero(64);
    }
    count
}

} // verus!
