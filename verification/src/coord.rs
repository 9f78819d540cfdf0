//! Packing of cell coordinates into integer keys.

use vstd::prelude::*;

verus! {

/// 2^32, the weight of the `y` half of a packed `u64` key.
pub open spec fn two32() -> int {
    0x1_0000_0000
}

/// The packed key of cell `(x, y)`: `x` in the low 32 bits, `y` in the high 32 bits
/// (the layout of a little-endian `(u32, u32)` pair read as one `u64`).
pub open spec fn spec_pack(x: u32, y: u32) -> u64 {
    (x as int + y as int * two32()) as u64
}

/// The `x` half of a packed key.
pub open spec fn spec_key_x(k: u64) -> u32 {
    (k as int % two32()) as u32
}

/// The `y` half of a packed key.
pub open spec fn spec_key_y(k: u64) -> u32 {
    (k as int / two32()) as u32
}

/// The two 32-bit coordinates of a packed 64-bit key.
pub struct Coord {
    pub packed: u64,
}

impl Coord {
    /// Splits a packed key into `(x, y)`.
    pub fn unpack(packed: u64) -> (r: (u32, u32))
        ensures
            r.0 == spec_key_x(packed),
            r.1 == spec_key_y(packed),
            spec_pack(r.0, r.1) == packed,
    {
        let x = (packed & 0xFFFF_FFFF) as u32;
        let y = (packed >> 32) as u32;
        assert(x == packed % 0x1_0000_0000) by (bit_vector)
            requires
                x == (packed & 0xFFFF_FFFF) as u32,
        ;
        assert(y == packed / 0x1_0000_0000) by (bit_vector)
            requires
                y == (packed >> 32) as u32,
        ;
        (x, y)
    }

    /// Packs `(x, y)` into one key.
    pub fn pack(x: u32, y: u32) -> (r: u64)
        ensures
            r == spec_pack(x, y),
            spec_key_x(r) == x,
            spec_key_y(r) == y,
    {
        let r = (x as u64) | ((y as u64) << 32);
        assert(r == x as u64 + (y as u64) * 0x1_0000_0000) by (bit_vector)
            requires
                r == (x as u64) | ((y as u64) << 32),
        ;
        r
    }
}

/// Packing and unpacking undo each other.
pub proof fn lemma_pack_unpack(x: u32, y: u32, k: u64)
    ensures
        spec_key_x(spec_pack(x, y)) == x,
        spec_key_y(spec_pack(x, y)) == y,
        spec_pack(spec_key_x(k), spec_key_y(k)) == k,
{
}

} // verus!
