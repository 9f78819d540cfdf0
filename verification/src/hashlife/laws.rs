//! What the quadtree universe promises across its operations: its listing
//! holds exactly its live cells, and a universe built from a list of cells
//! lists those cells back.

use vstd::prelude::*;
use crate::arith::{pow2, lemma_pow2_mono, lemma_pow2_32_64};
use crate::hashlife::{two64, spec_coord_pack};
use crate::hashlife::life::HashLife;
use crate::hashlife::tree::{cell_key, is_block_cell, lemma_cells_seq_contains, key_x, key_y};
use crate::hashlife::cache::{LifeNode, alive_at};

verus! {

/// Packing splits back into its two halves.
proof fn lemma_pack_parts(u: int, v: int, x: u64, y: u64)
    requires
        0 <= u < two64(),
        0 <= v < two64(),
        (u + v * two64()) as u128 == spec_coord_pack(x, y),
    ensures
        u == x,
        v == y,
{
    let m = two64();
    assert(u + v * m < m * m) by (nonlinear_arith)
        requires
            0 <= u < m,
            0 <= v < m,
    ;
    assert(x + y * m < m * m) by (nonlinear_arith)
        requires
            0 <= x < m,
            0 <= y < m,
    ;
    assert(m * m == 0x1_0000_0000_0000_0000_0000_0000_0000_0000);
    assert((u + v * m) as u128 as int == u + v * m);
    assert(spec_coord_pack(x, y) as int == x + y * m);
    vstd::arithmetic::div_mod::lemma_fundamental_div_mod_converse(u + v * m, m, v, u);
    vstd::arithmetic::div_mod::lemma_fundamental_div_mod_converse(x + y * m, m, y as int, x as int);
}

/// The universe lists cell `(x, y)` exactly when it is alive.
pub proof fn lemma_cells_alive(h: HashLife, x: u64, y: u64)
    requires
        h.depth <= 62,
    ensures
        h.cells().contains(spec_coord_pack(x, y)) == h.alive(x, y),
{
    let m = two64();
    let ox = h.origin_x();
    let oy = h.origin_y();
    let c = spec_coord_pack(x, y);
    let side = pow2(h.depth as nat) as int;
    lemma_pow2_mono(h.depth as nat, 62);
    lemma_pow2_32_64();
    crate::arith::lemma_pow2_add(62, 2);
    crate::arith::lemma_pow2_small();
    assert(side < m);
    lemma_cells_seq_contains(h.cache.nodes@, h.root, h.depth as nat, ox, oy, c);
    if h.alive(x, y) {
        let rx = (x - ox) % m;
        let ry = (y - oy) % m;
        vstd::arithmetic::div_mod::lemma_add_mod_noop(ox, x - ox, m);
        vstd::arithmetic::div_mod::lemma_add_mod_noop(oy, y - oy, m);
        vstd::arithmetic::div_mod::lemma_mod_twice(x - ox, m);
        vstd::arithmetic::div_mod::lemma_mod_twice(y - oy, m);
        vstd::arithmetic::div_mod::lemma_add_mod_noop(ox, rx, m);
        vstd::arithmetic::div_mod::lemma_add_mod_noop(oy, ry, m);
        vstd::arithmetic::div_mod::lemma_small_mod(x as nat, m as nat);
        vstd::arithmetic::div_mod::lemma_small_mod(y as nat, m as nat);
        vstd::arithmetic::div_mod::lemma_small_mod(rx as nat, m as nat);
        vstd::arithmetic::div_mod::lemma_small_mod(ry as nat, m as nat);
        assert((ox + rx) % m == x);
        assert((oy + ry) % m == y);
        assert(cell_key(ox + rx, oy + ry) == c);
        assert(is_block_cell(h.cache.nodes@, h.root, h.depth as nat, ox, oy, c));
    }
    if h.cells().contains(c) {
        let (a, b) = choose|a: int, b: int|
            0 <= a < pow2(h.depth as nat) && 0 <= b < pow2(h.depth as nat) && #[trigger] crate::hashlife::cache::alive_at(
                h.cache.nodes@,
                h.root,
                h.depth as nat,
                a,
                b,
            ) && c == cell_key(ox + a, oy + b);
        let u = (ox + a) % m;
        let v = (oy + b) % m;
        lemma_pack_parts(u, v, x, y);
        vstd::arithmetic::div_mod::lemma_sub_mod_noop(ox + a, ox, m);
        vstd::arithmetic::div_mod::lemma_sub_mod_noop(oy + b, oy, m);
        vstd::arithmetic::div_mod::lemma_small_mod(a as nat, m as nat);
        vstd::arithmetic::div_mod::lemma_small_mod(b as nat, m as nat);
        vstd::arithmetic::div_mod::lemma_small_mod(x as nat, m as nat);
        vstd::arithmetic::div_mod::lemma_small_mod(y as nat, m as nat);
        vstd::arithmetic::div_mod::lemma_mod_twice(ox + a, m);
        assert((x - ox) % m == ((ox + a) % m - ox) % m);
        assert(((ox + a) % m - ox) % m == ((ox + a) - ox) % m) by {
            vstd::arithmetic::div_mod::lemma_sub_mod_noop(ox + a, ox, m);
            vstd::arithmetic::div_mod::lemma_mod_twice(ox + a, m);
            vstd::arithmetic::div_mod::lemma_sub_mod_noop((ox + a) % m, ox, m);
        }
        assert(((oy + b) % m - oy) % m == ((oy + b) - oy) % m) by {
            vstd::arithmetic::div_mod::lemma_sub_mod_noop(oy + b, oy, m);
            vstd::arithmetic::div_mod::lemma_mod_twice(oy + b, m);
            vstd::arithmetic::div_mod::lemma_sub_mod_noop((oy + b) % m, oy, m);
        }
        assert((x - ox) % m == a);
        assert((y - oy) % m == b);
    }
}

/// Cell `(x, y)` is one of the listed cells.
pub open spec fn flat_has(data: Seq<u128>, x: int, y: int) -> bool {
    exists|i: int| 0 <= i < data.len() && #[trigger] key_x(data[i]) == x && key_y(data[i]) == y
}

/// Node `idx` read at `depth` shows, from the plane square at `(wx, wy)`,
/// exactly the listed cells, and every listed cell lies in that square.
pub open spec fn window_ok(nodes: Seq<LifeNode>, idx: u32, depth: nat, wx: int, wy: int, data: Seq<u128>) -> bool {
    &&& forall|a: int, b: int|
        0 <= a < pow2(depth) && 0 <= b < pow2(depth) ==> #[trigger] alive_at(nodes, idx, depth, a, b) == flat_has(data, wx + a,
            wy + b)
    &&& forall|i: int| 0 <= i < data.len() ==> wx <= key_x(#[trigger] data[i]) < wx + pow2(depth) && wy <= key_y(data[i]) < wy
        + pow2(depth)
}

/// A listed cell is the packed form of its coordinates.
pub proof fn lemma_flat_has_pack(data: Seq<u128>, x: u64, y: u64)
    ensures
        flat_has(data, x as int, y as int) == data.contains(spec_coord_pack(x, y)),
{
    let m = two64();
    let c = spec_coord_pack(x, y);
    assert(c as int == x + y * m) by {
        assert(x + y * m < 0x1_0000_0000_0000_0000_0000_0000_0000_0000) by (nonlinear_arith)
            requires
                0 <= x < m,
                0 <= y < m,
                m == 0x1_0000_0000_0000_0000,
        ;
    }
    vstd::arithmetic::div_mod::lemma_fundamental_div_mod_converse(c as int, m, y as int, x as int);
    if flat_has(data, x as int, y as int) {
        let i = choose|i: int| 0 <= i < data.len() && #[trigger] key_x(data[i]) == x && key_y(data[i]) == y;
        let d = data[i] as int;
        vstd::arithmetic::div_mod::lemma_fundamental_div_mod(d, m);
        assert(d == x + y * m);
        assert(data[i] == c);
    }
    if data.contains(c) {
        let i = choose|i: int| 0 <= i < data.len() && data[i] == c;
        assert(key_x(data[i]) == x && key_y(data[i]) == y);
    }
}

/// A universe whose root shows the listed cells from a square congruent to
/// its own block (modulo 2^64) is alive exactly at the listed cells.
pub proof fn lemma_window_alive(h: HashLife, data: Seq<u128>, wx: int, wy: int)
    requires
        h.depth <= 62,
        window_ok(h.cache.nodes@, h.root, h.depth as nat, wx, wy, data),
        wx % two64() == h.origin_x() % two64(),
        wy % two64() == h.origin_y() % two64(),
    ensures
        forall|x: u64, y: u64| #[trigger] h.alive(x, y) == data.contains(spec_coord_pack(x, y)),
{
    let m = two64();
    let side = pow2(h.depth as nat) as int;
    lemma_pow2_mono(h.depth as nat, 62);
    lemma_pow2_32_64();
    crate::arith::lemma_pow2_add(62, 2);
    crate::arith::lemma_pow2_small();
    assert(side < m);
    assert forall|x: u64, y: u64| #[trigger] h.alive(x, y) == data.contains(spec_coord_pack(x, y)) by {
        lemma_flat_has_pack(data, x, y);
        let rx = (x - h.origin_x()) % m;
        let ry = (y - h.origin_y()) % m;
        assert(rx == (x - wx) % m) by {
            vstd::arithmetic::div_mod::lemma_sub_mod_noop(x as int, h.origin_x(), m);
            vstd::arithmetic::div_mod::lemma_sub_mod_noop(x as int, wx, m);
        }
        assert(ry == (y - wy) % m) by {
            vstd::arithmetic::div_mod::lemma_sub_mod_noop(y as int, h.origin_y(), m);
            vstd::arithmetic::div_mod::lemma_sub_mod_noop(y as int, wy, m);
        }
        if flat_has(data, x as int, y as int) {
            let i = choose|i: int| 0 <= i < data.len() && #[trigger] key_x(data[i]) == x && key_y(data[i]) == y;
            assert(wx <= key_x(data[i]) < wx + side);
            vstd::arithmetic::div_mod::lemma_small_mod((x - wx) as nat, m as nat);
            vstd::arithmetic::div_mod::lemma_small_mod((y - wy) as nat, m as nat);
            assert(rx == x - wx && ry == y - wy);
            assert(alive_at(h.cache.nodes@, h.root, h.depth as nat, rx, ry) == flat_has(data, wx + rx, wy + ry));
        }
        if h.alive(x, y) {
            assert(0 <= rx < side && 0 <= ry < side);
            assert(alive_at(h.cache.nodes@, h.root, h.depth as nat, rx, ry) == flat_has(data, wx + rx, wy + ry));
            let i = choose|i: int| 0 <= i < data.len() && #[trigger] key_x(data[i]) == wx + rx && key_y(data[i]) == wy + ry;
            assert(0 <= key_x(data[i]) < m && 0 <= key_y(data[i]) < m) by {
                let d = data[i] as int;
                vstd::arithmetic::div_mod::lemma_fundamental_div_mod(d, m);
                assert(d < 0x1_0000_0000_0000_0000_0000_0000_0000_0000);
                assert(d / m < m) by (nonlinear_arith)
                    requires
                        0 <= d < 0x1_0000_0000_0000_0000_0000_0000_0000_0000,
                        m == 0x1_0000_0000_0000_0000,
                ;
            }
            vstd::arithmetic::div_mod::lemma_fundamental_div_mod_converse(x - wx, m, (x - wx - rx) / m, rx);
            assert((wx + rx) % m == (x as int) % m) by {
                vstd::arithmetic::div_mod::lemma_mod_sub_multiples_vanish(x as int, m);
                vstd::arithmetic::div_mod::lemma_add_mod_noop(wx, x - wx, m);
                vstd::arithmetic::div_mod::lemma_add_mod_noop(wx, rx, m);
                vstd::arithmetic::div_mod::lemma_mod_twice(x - wx, m);
            }
            assert((wy + ry) % m == (y as int) % m) by {
                vstd::arithmetic::div_mod::lemma_add_mod_noop(wy, y - wy, m);
                vstd::arithmetic::div_mod::lemma_add_mod_noop(wy, ry, m);
                vstd::arithmetic::div_mod::lemma_mod_twice(y - wy, m);
            }
            vstd::arithmetic::div_mod::lemma_small_mod(x as nat, m as nat);
            vstd::arithmetic::div_mod::lemma_small_mod(y as nat, m as nat);
            vstd::arithmetic::div_mod::lemma_small_mod(key_x(data[i]) as nat, m as nat);
            vstd::arithmetic::div_mod::lemma_small_mod(key_y(data[i]) as nat, m as nat);
            assert(key_x(data[i]) == x && key_y(data[i]) == y);
        }
    }
}

/// A universe alive exactly at the cells of a list lists exactly those cells:
/// listing a universe built from a list gives back the list's set of cells.
pub proof fn law_flat_round_trip(h: HashLife, data: Seq<u128>)
    requires
        h.depth <= 62,
        forall|x: u64, y: u64| #[trigger] h.alive(x, y) == data.contains(spec_coord_pack(x, y)),
    ensures
        h.cells().to_set() == data.to_set(),
{
    let m = two64();
    assert forall|c: u128| #[trigger] h.cells().to_set().contains(c) == data.to_set().contains(c) by {
        let ci = c as int;
        let x = ci % m;
        let y = ci / m;
        assert(y < m) by (nonlinear_arith)
            requires
                0 <= ci < 0x1_0000_0000_0000_0000_0000_0000_0000_0000,
                m == 0x1_0000_0000_0000_0000,
                y == ci / m,
        ;
        vstd::arithmetic::div_mod::lemma_fundamental_div_mod(ci, m);
        assert(spec_coord_pack(x as u64, y as u64) == c);
        lemma_cells_alive(h, x as u64, y as u64);
    }
    assert(h.cells().to_set() =~= data.to_set());
}

/// The population a universe counts is the length of its listing.
pub proof fn law_count_is_listing_len(h: HashLife)
    ensures
        crate::hashlife::cache::spec_count(h.cache.nodes@, h.root, h.depth as nat) == h.cells().len(),
{
    crate::hashlife::tree::lemma_cells_seq_len(h.cache.nodes@, h.root, h.depth as nat, h.origin_x(), h.origin_y());
}

} // verus!
