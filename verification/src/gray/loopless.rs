//! Gray codes as integers, by the bit formula.

use vstd::prelude::*;
use vstd::arithmetic::power2::pow2;

verus! {

/// The `i`-th word of the Gray code, as an integer: `i` XOR `i` shifted
/// right by one.
pub open spec fn gray_word(i: u64) -> u64 {
    i ^ (i >> 1)
}

/// Exactly one bit of `d` is set.
pub open spec fn is_one_bit(d: u64) -> bool {
    d != 0 && d & ((d - 1) as u64) == 0
}

/// Each word of the Gray code differs from the next in exactly one bit.
pub proof fn lemma_gray_word_step(i: u64)
    requires
        i < u64::MAX,
    ensures
        is_one_bit(gray_word(i) ^ gray_word((i + 1) as u64)),
{
    let j = (i + 1) as u64;
    let d = (i ^ (i >> 1)) ^ (j ^ (j >> 1));
    assert(d != 0 && d & ((d - 1) as u64) == 0) by (bit_vector)
        requires
            i < u64::MAX,
            j == i + 1,
            d == (i ^ (i >> 1)) ^ (j ^ (j >> 1)),
    ;
}

/// Produce the `2^n` words of the Gray code of `n` bits as integers.
pub fn gray_loopless(n: usize) -> (g: Vec<u32>)
    requires
        n <= 32,
    ensures
        g.len() == pow2(n as nat),
        forall|i: int| 0 <= i < g.len() ==> (#[trigger] g[i]) as u64 == gray_word(i as u64),
        forall|i: int|
            0 <= i < g.len() - 1 ==> is_one_bit((#[trigger] g[i]) as u64 ^ g[i + 1] as u64),
{
    proof {
        vstd::bits::lemma_u64_pow2_no_overflow(n as nat);
        vstd::bits::lemma_u64_shl_is_mul(1, n as u64);
        vstd::arithmetic::power2::lemma2_to64();
        vstd::arithmetic::power2::lemma2_to64_rest();
        if n < 32 {
            vstd::arithmetic::power2::lemma_pow2_strictly_increases(n as nat, 32);
        }
    }
    let m: u64 = 1u64 << (n as u64);
    assert(m == pow2(n as nat));
    assert(m <= 0x1_0000_0000);
    let mut g: Vec<u32> = Vec::new();
    let mut i: u64 = 0;
    while i < m
        invariant
            i <= m,
            m <= 0x1_0000_0000,
            g.len() == i,
            forall|k: int| 0 <= k < g.len() ==> (#[trigger] g[k]) as u64 == gray_word(k as u64),
        decreases m - i,
    {
        assert((i ^ (i >> 1)) <= 0xffff_ffff) by (bit_vector)
            requires
                i < 0x1_0000_0000,
        ;
        g.push((i ^ (i >> 1)) as u32);
        i += 1;
    }
    proof {
        assert forall|k: int| 0 <= k < g.len() - 1 implies is_one_bit(
            (#[trigger] g[k]) as u64 ^ g[k + 1] as u64,
        ) by {
            lemma_gray_word_step(k as u64);
            assert(g[k + 1] as u64 == gray_word((k + 1) as u64));
        }
    }
    g
}

} // verus!
