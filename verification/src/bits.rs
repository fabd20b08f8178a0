//! Bit counting over bitboards.

use vstd::prelude::*;
use vstd::bits::lemma_u64_shr_is_div;

verus! {

/// Number of set bits of `x`, by peeling the lowest bit.
pub open spec fn ones(x: u64) -> nat
    decreases x,
{
    if x == 0 {
        0
    } else {
        (x % 2) as nat + ones(x / 2)
    }
}

/// At most `k` bits are set below `2^k`.
pub proof fn lemma_ones_le(k: nat, x: u64)
    requires
        x < vstd::arithmetic::power2::pow2(k),
    ensures
        ones(x) <= k,
    decreases k,
{
    if x == 0 {
    } else {
        if k == 0 {
            vstd::arithmetic::power2::lemma2_to64();
            assert(false);
        } else {
            vstd::arithmetic::power2::lemma_pow2_unfold(k);
            lemma_ones_le((k - 1) as nat, x / 2);
        }
    }
}

pub proof fn lemma_ones_bound(x: u64)
    ensures
        ones(x) <= 64,
{
    vstd::arithmetic::power2::lemma2_to64_rest();
    lemma_ones_le(64, x);
}

/// Count the set bits of a bitboard.
pub fn popcount(x: u64) -> (r: u32)
    ensures
        r as nat == ones(x),
        r <= 64,
{
    proof {
        lemma_ones_bound(x);
    }
    let mut cur = x;
    let mut c: u32 = 0;
    while cur != 0
        invariant
            c as nat + ones(cur) == ones(x),
            ones(x) <= 64,
            c <= 64,
        decreases cur,
    {
        proof {
            vstd::arithmetic::power2::lemma2_to64();
            lemma_u64_shr_is_div(cur, 1);
            assert(cur & 1 == cur % 2) by (bit_vector);
            assert(ones(cur) == (cur % 2) as nat + ones(cur / 2));
            assert(ones(cur) >= (cur % 2) as nat);
            lemma_ones_bound(cur);
        }
        c = c + (cur & 1) as u32;
        cur = cur >> 1;
    }
    c
}

} // verus!
