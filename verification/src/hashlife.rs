//! HashLife: a hash-consed quadtree of Life cells that advances by memoized
//! recursive jumps.

pub mod advance;
pub mod cache;
pub mod evolve;
pub mod fill;
pub mod gc;
pub mod laws;
pub mod life;
pub mod macrocell;
pub mod maps;
pub mod rules;
pub mod span;
pub mod tree;
pub mod window;
pub mod viewport;

use vstd::prelude::*;

verus! {

/// 2^64, the weight of the `y` half of a packed `u128` cell.
pub open spec fn two64() -> int {
    0x1_0000_0000_0000_0000
}

/// The packed `u128` of cell `(x, y)`: `x` in the low 64 bits, `y` in the high 64 bits.
pub open spec fn spec_coord_pack(x: u64, y: u64) -> u128 {
    (x as int + y as int * two64()) as u128
}

/// Packs `(x, y)` into one `u128` cell.
pub fn coord_pack(x: u64, y: u64) -> (r: u128)
    ensures
        r == spec_coord_pack(x, y),
{
    let r = ((y as u128) << 64) | (x as u128);
    assert(r == x as u128 + (y as u128) * 0x1_0000_0000_0000_0000) by (bit_vector)
        requires
            r == ((y as u128) << 64) | (x as u128),
    ;
    r
}

/// Splits a packed `u128` cell into `(x, y)`.
pub fn coord_unpack(cell: u128) -> (r: (u64, u64))
    ensures
        r.0 == cell as int % two64(),
        r.1 == cell as int / two64(),
        spec_coord_pack(r.0, r.1) == cell,
{
    let x = (cell & 0xFFFF_FFFF_FFFF_FFFFu128) as u64;
    let y = (cell >> 64) as u64;
    assert(x == cell % 0x1_0000_0000_0000_0000 && y == cell / 0x1_0000_0000_0000_0000)
        by (bit_vector)
        requires
            x == (cell & 0xFFFF_FFFF_FFFF_FFFFu128) as u64,
            y == (cell >> 64) as u64,
    ;
    (x, y)
}

/// Grid coordinates are offset by this amount so the "origin" sits at (2e9, 2e9).
pub const GRID_OFFSET: u64 = 2_000_000_000;

/// Frontend offset in HashLife mode (2e15, exact in a JavaScript double).
pub const FRONTEND_OFFSET: u64 = 2_000_000_000_000_000;

/// HashLife coordinates are offset by this amount so the "origin" sits at (9e18, 9e18).
pub const HASHLIFE_OFFSET: u64 = 9_000_000_000_000_000_000;

/// Moves a coordinate from one origin to another, modulo 2^64.
pub open spec fn spec_shift(v: u64, from: u64, to: u64) -> u64 {
    ((v as int - from as int + to as int) % two64()) as u64
}

fn shift(v: u64, from: u64, to: u64) -> (r: u64)
    ensures
        r == spec_shift(v, from, to),
{
    let r = v.wrapping_sub(from).wrapping_add(to);
    assert(r == spec_shift(v, from, to)) by {
        let a = v.wrapping_sub(from);
        assert(a as int == (v as int - from as int) % two64());
        assert(r as int == (a as int + to as int) % two64());
        assert((((v as int - from as int) % two64()) + to as int) % two64()
            == (v as int - from as int + to as int) % two64()) by {
            vstd::arithmetic::div_mod::lemma_add_mod_noop(v as int - from as int, to as int, two64());
            vstd::arithmetic::div_mod::lemma_mod_twice(to as int, two64());
            vstd::arithmetic::div_mod::lemma_small_mod(to as nat, two64() as nat);
        }
    }
    r
}

/// Converts grid coordinates (GRID_OFFSET-based) to HashLife coordinates
/// (HASHLIFE_OFFSET-based), modulo 2^64.
pub fn grid_to_hashlife(x: u64, y: u64) -> (r: (u64, u64))
    ensures
        r == (spec_shift(x, GRID_OFFSET, HASHLIFE_OFFSET), spec_shift(y, GRID_OFFSET, HASHLIFE_OFFSET)),
{
    (shift(x, GRID_OFFSET, HASHLIFE_OFFSET), shift(y, GRID_OFFSET, HASHLIFE_OFFSET))
}

/// Converts HashLife coordinates back to grid coordinates, modulo 2^64.
pub fn hashlife_to_grid(x: u64, y: u64) -> (r: (u64, u64))
    ensures
        r == (spec_shift(x, HASHLIFE_OFFSET, GRID_OFFSET), spec_shift(y, HASHLIFE_OFFSET, GRID_OFFSET)),
{
    (shift(x, HASHLIFE_OFFSET, GRID_OFFSET), shift(y, HASHLIFE_OFFSET, GRID_OFFSET))
}

/// Converts frontend coordinates (FRONTEND_OFFSET-based) to HashLife coordinates.
pub fn frontend_to_hashlife(x: u64, y: u64) -> (r: (u64, u64))
    ensures
        r == (spec_shift(x, FRONTEND_OFFSET, HASHLIFE_OFFSET), spec_shift(y, FRONTEND_OFFSET, HASHLIFE_OFFSET)),
{
    (shift(x, FRONTEND_OFFSET, HASHLIFE_OFFSET), shift(y, FRONTEND_OFFSET, HASHLIFE_OFFSET))
}

/// Converts HashLife coordinates to frontend coordinates.
pub fn hashlife_to_frontend(x: u64, y: u64) -> (r: (u64, u64))
    ensures
        r == (spec_shift(x, HASHLIFE_OFFSET, FRONTEND_OFFSET), spec_shift(y, HASHLIFE_OFFSET, FRONTEND_OFFSET)),
{
    (shift(x, HASHLIFE_OFFSET, FRONTEND_OFFSET), shift(y, HASHLIFE_OFFSET, FRONTEND_OFFSET))
}

/// Shifting to another origin and back gives the coordinate back: each pair of
/// conversions (grid/HashLife, frontend/HashLife) is a bijection.
pub proof fn lemma_shift_round_trip(v: u64, a: u64, b: u64)
    ensures
        spec_shift(spec_shift(v, a, b), b, a) == v,
{
    let s = spec_shift(v, a, b);
    let m = two64();
    assert(s as int == (v as int - a as int + b as int) % m);
    vstd::arithmetic::div_mod::lemma_add_mod_noop(v as int - a as int + b as int, a as int - b as int, m);
    vstd::arithmetic::div_mod::lemma_mod_twice(a as int - b as int, m);
    assert((s as int - b as int + a as int) % m == (v as int) % m) by {
        vstd::arithmetic::div_mod::lemma_add_mod_noop(s as int, a as int - b as int, m);
        vstd::arithmetic::div_mod::lemma_add_mod_noop(v as int - a as int + b as int, a as int - b as int, m);
        vstd::arithmetic::div_mod::lemma_mod_twice(v as int - a as int + b as int, m);
        assert(s as int % m == s as int) by {
            vstd::arithmetic::div_mod::lemma_small_mod(s as nat, m as nat);
        }
    }
    vstd::arithmetic::div_mod::lemma_small_mod(v as nat, m as nat);
}

} // verus!
