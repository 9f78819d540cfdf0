//! Powers of two.

use vstd::prelude::*;

verus! {

/// `2^e`.
pub open spec fn pow2(e: nat) -> nat
    decreases e,
{
    if e == 0 {
        1
    } else {
        2 * pow2((e - 1) as nat)
    }
}

/// Powers of two are positive.
pub proof fn lemma_pow2_pos(e: nat)
    ensures
        pow2(e) >= 1,
    decreases e,
{
    if e > 0 {
        lemma_pow2_pos((e - 1) as nat);
    }
}

/// Powers of two grow with the exponent.
pub proof fn lemma_pow2_mono(a: nat, b: nat)
    requires
        a <= b,
    ensures
        1 <= pow2(a) <= pow2(b),
    decreases b,
{
    lemma_pow2_pos(a);
    if b > a {
        lemma_pow2_mono(a, (b - 1) as nat);
    }
}

/// `2^(a + b) == 2^a * 2^b`.
pub proof fn lemma_pow2_add(a: nat, b: nat)
    ensures
        pow2(a + b) == pow2(a) * pow2(b),
    decreases a,
{
    if a > 0 {
        let a1 = (a - 1) as nat;
        lemma_pow2_add(a1, b);
        assert(pow2(a1 + b + 1) == 2 * pow2(a1 + b));
        assert(a1 + b + 1 == a + b);
        assert(pow2(a) == 2 * pow2(a1));
        let x = pow2(a1);
        let y = pow2(b);
        assert(2 * (x * y) == (2 * x) * y) by (nonlinear_arith);
        assert(pow2(a + b) == pow2(a1 + b + 1));
        assert(pow2(a + b) == 2 * (x * y));
        assert(pow2(a) * pow2(b) == (2 * x) * y);
    } else {
        assert(pow2(a) == 1);
        assert(a + b == b);
    }
}

/// Concrete small powers.
pub proof fn lemma_pow2_small()
    ensures
        pow2(0) == 1,
        pow2(1) == 2,
        pow2(2) == 4,
        pow2(3) == 8,
        pow2(4) == 16,
        pow2(5) == 32,
        pow2(6) == 64,
{
    reveal_with_fuel(pow2, 7);
}

/// `2^32` and `2^64`.
pub proof fn lemma_pow2_32_64()
    ensures
        pow2(8) == 0x100,
        pow2(16) == 0x1_0000,
        pow2(32) == 0x1_0000_0000,
        pow2(64) == 0x1_0000_0000_0000_0000,
{
    lemma_pow2_small();
    lemma_pow2_add(4, 4);
    assert(pow2(8) == 0x100);
    lemma_pow2_add(8, 8);
    assert(pow2(16) == pow2(8) * pow2(8));
    assert(0x100 * 0x100 == 0x1_0000) by (nonlinear_arith);
    lemma_pow2_add(16, 16);
    assert(pow2(32) == pow2(16) * pow2(16));
    assert(0x1_0000 * 0x1_0000 == 0x1_0000_0000) by (nonlinear_arith);
    lemma_pow2_add(32, 32);
    assert(pow2(64) == pow2(32) * pow2(32));
    assert(0x1_0000_0000 * 0x1_0000_0000 == 0x1_0000_0000_0000_0000) by (nonlinear_arith);
}

/// `1 << s` is `2^s` for shifts inside the width.
pub proof fn lemma_shl_u32(s: u32)
    requires
        s < 32,
    ensures
        (1u32 << s) as nat == pow2(s as nat),
    decreases s,
{
    if s == 0 {
        assert((1u32 << 0u32) == 1) by (bit_vector);
    } else {
        lemma_shl_u32((s - 1) as u32);
        let t = (s - 1) as u32;
        assert((1u32 << s) == 2 * (1u32 << t)) by (bit_vector)
            requires
                t + 1 == s,
                s < 32,
        ;
    }
}

/// `1 << s` is `2^s` for shifts inside the width.
pub proof fn lemma_shl_u64(s: u64)
    requires
        s < 64,
    ensures
        (1u64 << s) as nat == pow2(s as nat),
    decreases s,
{
    if s == 0 {
        assert((1u64 << 0u64) == 1) by (bit_vector);
    } else {
        lemma_shl_u64((s - 1) as u64);
        let t = (s - 1) as u64;
        assert((1u64 << s) == 2 * (1u64 << t)) by (bit_vector)
            requires
                t + 1 == s,
                s < 64,
        ;
    }
}

/// `1 << s` is `2^s` for shifts inside the width.
pub proof fn lemma_shl_usize(s: usize)
    requires
        s < usize::BITS,
    ensures
        (1usize << s) as nat == pow2(s as nat),
    decreases s,
{
    if s == 0 {
        assert((1usize << 0usize) == 1) by (bit_vector);
    } else {
        lemma_shl_usize((s - 1) as usize);
        let t = (s - 1) as usize;
        assert((1usize << s) == 2 * (1usize << t)) by (bit_vector)
            requires
                t + 1 == s,
                s < usize::BITS,
        ;
    }
}

/// A power of two that fits in `usize` has an exponent below the width.
pub proof fn lemma_pow2_fits_usize(e: nat)
    requires
        pow2(e) <= usize::MAX,
    ensures
        e < usize::BITS,
{
    lemma_pow2_32_64();
    if e >= usize::BITS {
        lemma_pow2_mono(usize::BITS as nat, e);
        assert(usize::BITS == 32 || usize::BITS == 64);
    }
}

} // verus!
