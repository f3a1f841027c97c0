//! Integer helpers for the binary-search fields of sfnt headers.
use vstd::prelude::*;

verus! {

pub open spec fn pow2(e: nat) -> nat
    decreases e,
{
    if e == 0 {
        1
    } else {
        2 * pow2((e - 1) as nat)
    }
}

proof fn lemma_pow2_32()
    ensures
        pow2(32) == 0x1_0000_0000,
{
    reveal_with_fuel(pow2, 33);
}

/// The largest `e` with `2^e <= n`, for `n >= 1`.
pub open spec fn log2_floor(n: nat) -> nat
    decreases n,
{
    if n < 2 {
        0
    } else {
        1 + log2_floor(n / 2)
    }
}

pub proof fn lemma_log2_floor_bounds(n: nat)
    requires
        n >= 1,
    ensures
        pow2(log2_floor(n)) <= n < 2 * pow2(log2_floor(n)),
    decreases n,
{
    if n >= 2 {
        lemma_log2_floor_bounds(n / 2);
    }
}

pub proof fn lemma_pow2_monotone(a: nat, b: nat)
    requires
        a <= b,
    ensures
        pow2(a) <= pow2(b),
    decreases b,
{
    if a < b {
        lemma_pow2_monotone(a, (b - 1) as nat);
    }
}

/// `n.ilog2()`: the floor of the base-2 logarithm of a positive number.
pub fn ilog2(n: u32) -> (r: u32)
    requires
        n >= 1,
    ensures
        r == log2_floor(n as nat),
        r < 32,
{
    proof {
        lemma_log2_floor_bounds(n as nat);
        if log2_floor(n as nat) >= 32 {
            lemma_pow2_monotone(32, log2_floor(n as nat));
            lemma_pow2_32();
        }
    }
    let mut r: u32 = 0;
    let mut m: u32 = n;
    while m >= 2
        invariant
            m >= 1,
            r + log2_floor(m as nat) == log2_floor(n as nat),
            log2_floor(n as nat) < 32,
        decreases m,
    {
        m = m / 2;
        r = r + 1;
    }
    r
}

/// `1u16 << e` for an exponent that keeps the result within 16 bits.
pub fn pow2_u16(e: u32) -> (r: u16)
    requires
        pow2(e as nat) <= u16::MAX,
    ensures
        r == pow2(e as nat),
    decreases e,
{
    if e == 0 {
        1
    } else {
        proof {
            lemma_pow2_monotone((e - 1) as nat, e as nat);
        }
        2 * pow2_u16(e - 1)
    }
}

} // verus!
