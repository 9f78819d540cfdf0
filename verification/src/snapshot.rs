//! The state snapshot served to the viewer: a header of twelve big-endian
//! 32-bit fields, then the cell bitmap of the viewport and the active-tile
//! overlay, each one bit per cell (or per `scale` x `scale` square), row by
//! row, least significant bit first within each byte.

use vstd::prelude::*;
use std::collections::HashSet;
use crate::coord::{Coord, spec_key_x, spec_key_y};
use crate::hashlife::fill::{bit_at, lemma_or_one, filled, only_set_below, agg_shows, agg_pixel};
use crate::hashlife::{two64, spec_shift, frontend_to_hashlife, FRONTEND_OFFSET, HASHLIFE_OFFSET};
use crate::hashlife::cache::{spec_count, lemma_count_bound};
use crate::grid::Grid;
use crate::hashlife::life::HashLife;

verus! {

broadcast use vstd::std_specs::hash::group_hash_axioms;

/// Cell `(x, y)` lies in the `vw` x `vh` viewport at `(vx, vy)`.
pub open spec fn in_view(x: int, y: int, vx: int, vy: int, vw: int, vh: int) -> bool {
    vx <= x < vx + vw && vy <= y < vy + vh
}

/// The bit of cell `(x, y)` in the viewport's bitmap of `scale` x `scale`
/// squares, `agg_w` squares to a row.
pub open spec fn agg_index(x: int, y: int, vx: int, vy: int, scale: int, agg_w: int) -> int {
    ((y - vy) / scale) * agg_w + (x - vx) / scale
}

/// The number of squares of side `scale` needed to cover `n` cells.
pub open spec fn ceil_div(n: int, scale: int) -> int {
    (n + scale - 1) / scale
}

/// Bit `p` of the bitmap shows a cell of `cells`.
pub open spec fn cell_bit(cells: Seq<u64>, vx: int, vy: int, vw: int, vh: int, scale: int, p: int) -> bool {
    exists|i: int|
        0 <= i < cells.len() && in_view(spec_key_x(#[trigger] cells[i]) as int, spec_key_y(cells[i]) as int, vx, vy, vw, vh)
            && agg_index(spec_key_x(cells[i]) as int, spec_key_y(cells[i]) as int, vx, vy, scale, ceil_div(vw, scale)) == p
}

/// Cell `(dx, dy)` of tile `t` is drawn: it lies in the viewport, and (when
/// `whole_only`) the tile's far edges stay inside the 32-bit plane.
pub open spec fn tile_cell_drawn(t: u64, dx: int, dy: int, vx: int, vy: int, vw: int, vh: int, whole_only: bool) -> bool {
    &&& 0 <= dx < 4
    &&& 0 <= dy < 4
    &&& (whole_only ==> spec_key_x(t) + 4 <= u32::MAX && spec_key_y(t) + 4 <= u32::MAX)
    &&& in_view(spec_key_x(t) + dx, spec_key_y(t) + dy, vx, vy, vw, vh)
}

/// Bit `p` of the overlay shows a cell of an active tile.
pub open spec fn tile_bit(tiles: Set<u64>, vx: int, vy: int, vw: int, vh: int, scale: int, whole_only: bool, p: int) -> bool {
    exists|t: u64, dx: int, dy: int|
        tiles.contains(t) && #[trigger] tile_cell_drawn(t, dx, dy, vx, vy, vw, vh, whole_only) && agg_index(
            spec_key_x(t) + dx,
            spec_key_y(t) + dy,
            vx,
            vy,
            scale,
            ceil_div(vw, scale),
        ) == p
}

/// A cell of the viewport has its bit inside the bitmap.
proof fn lemma_agg_index_bound(x: int, y: int, vx: int, vy: int, vw: int, vh: int, scale: int)
    requires
        in_view(x, y, vx, vy, vw, vh),
        scale >= 1,
    ensures
        0 <= agg_index(x, y, vx, vy, scale, ceil_div(vw, scale)) < ceil_div(vw, scale) * ceil_div(vh, scale),
        (x - vx) / scale < ceil_div(vw, scale),
        (y - vy) / scale < ceil_div(vh, scale),
{
    let rx = x - vx;
    let ry = y - vy;
    let aw = ceil_div(vw, scale);
    let ah = ceil_div(vh, scale);
    assert(rx / scale < aw) by (nonlinear_arith)
        requires
            0 <= rx < vw,
            scale >= 1,
            aw == (vw + scale - 1) / scale,
    {
        assert(rx / scale <= (vw - 1) / scale) by {
            vstd::arithmetic::div_mod::lemma_div_is_ordered(rx, vw - 1, scale);
        }
        assert((vw - 1) / scale < (vw + scale - 1) / scale) by {
            vstd::arithmetic::div_mod::lemma_div_plus_one(vw - 1, scale);
        }
    }
    assert(ry / scale < ah) by (nonlinear_arith)
        requires
            0 <= ry < vh,
            scale >= 1,
            ah == (vh + scale - 1) / scale,
    {
        assert(ry / scale <= (vh - 1) / scale) by {
            vstd::arithmetic::div_mod::lemma_div_is_ordered(ry, vh - 1, scale);
        }
        assert((vh - 1) / scale < (vh + scale - 1) / scale) by {
            vstd::arithmetic::div_mod::lemma_div_plus_one(vh - 1, scale);
        }
    }
    assert(0 <= rx / scale && 0 <= ry / scale) by (nonlinear_arith)
        requires
            0 <= rx,
            0 <= ry,
            scale >= 1,
    ;
    assert(0 <= (ry / scale) * aw + rx / scale < aw * ah) by (nonlinear_arith)
        requires
            0 <= rx / scale < aw,
            0 <= ry / scale < ah,
    ;
}

/// Sets bit `p` of `bits`.
pub fn set_bit(bits: &mut Vec<u8>, p: usize)
    requires
        p < 8 * old(bits)@.len(),
    ensures
        final(bits)@.len() == old(bits)@.len(),
        forall|q: int| 0 <= q < 8 * old(bits)@.len() ==> #[trigger] bit_at(final(bits)@, q) == (bit_at(old(bits)@, q) || q == p),
{
    let byte = p / 8;
    let k = (p % 8) as u8;
    let ghost before = bits@;
    let v = bits[byte];
    bits.set(byte, v | (1u8 << k));
    proof {
        assert forall|q: int| 0 <= q < 8 * before.len() implies #[trigger] bit_at(bits@, q) == (bit_at(before, q) || q == p) by {
            if q / 8 == byte as int {
                let kk = (q % 8) as u8;
                lemma_or_one(v, k, kk);
            } else {
                assert(bits@[q / 8] == before[q / 8]);
            }
        }
    }
}

/// Draws the cells of `cells` that lie in the viewport: the bit of each one's
/// `scale` x `scale` square is set.
pub fn draw_cells(cells: &Vec<u64>, vx: u64, vy: u64, vw: u32, vh: u32, scale: u32, bits: &mut Vec<u8>)
    requires
        scale >= 1,
        ceil_div(vw as int, scale as int) * ceil_div(vh as int, scale as int) <= 8 * old(bits)@.len(),
        8 * old(bits)@.len() <= usize::MAX,
    ensures
        final(bits)@.len() == old(bits)@.len(),
        forall|p: int| 0 <= p < 8 * old(bits)@.len() ==> #[trigger] bit_at(final(bits)@, p) == (bit_at(old(bits)@, p) || cell_bit(
            cells@,
            vx as int,
            vy as int,
            vw as int,
            vh as int,
            scale as int,
            p,
        )),
{
    let ghost b0 = bits@;
    let s = scale as u64;
    let agg_w = (vw as u64 + s - 1) / s;
    let mut i: usize = 0;
    while i < cells.len()
        invariant
            i <= cells@.len(),
            scale >= 1,
            s == scale,
            agg_w == ceil_div(vw as int, scale as int),
            bits@.len() == b0.len(),
            ceil_div(vw as int, scale as int) * ceil_div(vh as int, scale as int) <= 8 * b0.len(),
            8 * b0.len() <= usize::MAX,
            forall|p: int| 0 <= p < 8 * b0.len() ==> #[trigger] bit_at(bits@, p) == (bit_at(b0, p) || cell_bit(
                cells@.subrange(0, i as int),
                vx as int,
                vy as int,
                vw as int,
                vh as int,
                scale as int,
                p,
            )),
        decreases cells@.len() - i,
    {
        let k = cells[i];
        let (x, y) = Coord::unpack(k);
        let ghost before = bits@;
        let ghost pre = cells@.subrange(0, i as int);
        let ghost cur = cells@.subrange(0, i as int + 1);
        let xx = x as u64;
        let yy = y as u64;
        let inside = xx >= vx && yy >= vy && xx - vx < vw as u64 && yy - vy < vh as u64;
        if inside {
            let rx = xx - vx;
            let ry = yy - vy;
            proof {
                lemma_agg_index_bound(x as int, y as int, vx as int, vy as int, vw as int, vh as int, scale as int);
            }
            let ax = rx / s;
            let ay = ry / s;
            let aidx = (ay * agg_w + ax) as usize;
            set_bit(bits, aidx);
        }
        proof {
            assert forall|p: int| 0 <= p < 8 * b0.len() implies #[trigger] bit_at(bits@, p) == (bit_at(b0, p) || cell_bit(
                cur, vx as int, vy as int, vw as int, vh as int, scale as int, p)) by {
                if cell_bit(pre, vx as int, vy as int, vw as int, vh as int, scale as int, p) {
                    let j = choose|j: int| 0 <= j < pre.len() && in_view(spec_key_x(#[trigger] pre[j]) as int, spec_key_y(pre[j]) as int,
                        vx as int, vy as int, vw as int, vh as int) && agg_index(spec_key_x(pre[j]) as int, spec_key_y(pre[j]) as int,
                        vx as int, vy as int, scale as int, ceil_div(vw as int, scale as int)) == p;
                    assert(cur[j] == pre[j]);
                }
                if cell_bit(cur, vx as int, vy as int, vw as int, vh as int, scale as int, p) {
                    let j = choose|j: int| 0 <= j < cur.len() && in_view(spec_key_x(#[trigger] cur[j]) as int, spec_key_y(cur[j]) as int,
                        vx as int, vy as int, vw as int, vh as int) && agg_index(spec_key_x(cur[j]) as int, spec_key_y(cur[j]) as int,
                        vx as int, vy as int, scale as int, ceil_div(vw as int, scale as int)) == p;
                    if j < i {
                        assert(pre[j] == cur[j]);
                    } else {
                        assert(cur[j] == k);
                    }
                }
                if inside && p == agg_index(x as int, y as int, vx as int, vy as int, scale as int, ceil_div(vw as int, scale as int)) {
                    assert(cur[i as int] == k);
                }
            }
        }
        i = i + 1;
    }
    proof {
        assert(cells@.subrange(0, cells@.len() as int) =~= cells@);
    }
}

/// Draws the cells of tile `t` that lie in the viewport (none when
/// `whole_only` and a far edge of the tile leaves the 32-bit plane).
fn draw_tile(t: u64, vx: u64, vy: u64, vw: u32, vh: u32, scale: u32, whole_only: bool, bits: &mut Vec<u8>)
    requires
        scale >= 1,
        ceil_div(vw as int, scale as int) * ceil_div(vh as int, scale as int) <= 8 * old(bits)@.len(),
        8 * old(bits)@.len() <= usize::MAX,
    ensures
        final(bits)@.len() == old(bits)@.len(),
        forall|p: int| 0 <= p < 8 * old(bits)@.len() ==> #[trigger] bit_at(final(bits)@, p) == (bit_at(old(bits)@, p) || exists|dx: int, dy: int|
            #[trigger] tile_cell_drawn(t, dx, dy, vx as int, vy as int, vw as int, vh as int, whole_only) && agg_index(
                spec_key_x(t) + dx, spec_key_y(t) + dy, vx as int, vy as int, scale as int, ceil_div(vw as int, scale as int)) == p),
{
    let ghost b0 = bits@;
    let (tx, ty) = Coord::unpack(t);
    if whole_only && (tx > u32::MAX - 4 || ty > u32::MAX - 4) {
        proof {
            assert forall|p: int| 0 <= p < 8 * b0.len() implies #[trigger] bit_at(bits@, p) == (bit_at(b0, p) || exists|dx: int, dy: int|
                #[trigger] tile_cell_drawn(t, dx, dy, vx as int, vy as int, vw as int, vh as int, whole_only) && agg_index(
                    spec_key_x(t) + dx, spec_key_y(t) + dy, vx as int, vy as int, scale as int, ceil_div(vw as int, scale as int)) == p) by {}
        }
        return;
    }
    let s = scale as u64;
    let agg_w = (vw as u64 + s - 1) / s;
    let mut dy: u64 = 0;
    while dy < 4
        invariant
            dy <= 4,
            tx == spec_key_x(t),
            ty == spec_key_y(t),
            !(whole_only && (tx > u32::MAX - 4 || ty > u32::MAX - 4)),
            scale >= 1,
            s == scale,
            agg_w == ceil_div(vw as int, scale as int),
            bits@.len() == b0.len(),
            ceil_div(vw as int, scale as int) * ceil_div(vh as int, scale as int) <= 8 * b0.len(),
            8 * b0.len() <= usize::MAX,
            forall|p: int| 0 <= p < 8 * b0.len() ==> #[trigger] bit_at(bits@, p) == (bit_at(b0, p) || exists|ddx: int, ddy: int|
                ddy < dy && #[trigger] tile_cell_drawn(t, ddx, ddy, vx as int, vy as int, vw as int, vh as int, whole_only) && agg_index(
                    spec_key_x(t) + ddx, spec_key_y(t) + ddy, vx as int, vy as int, scale as int, ceil_div(vw as int, scale as int)) == p),
        decreases 4 - dy,
    {
        let mut dx: u64 = 0;
        while dx < 4
            invariant
                dx <= 4,
                dy < 4,
                tx == spec_key_x(t),
                ty == spec_key_y(t),
                !(whole_only && (tx > u32::MAX - 4 || ty > u32::MAX - 4)),
                scale >= 1,
                s == scale,
                agg_w == ceil_div(vw as int, scale as int),
                bits@.len() == b0.len(),
                ceil_div(vw as int, scale as int) * ceil_div(vh as int, scale as int) <= 8 * b0.len(),
                8 * b0.len() <= usize::MAX,
                forall|p: int| 0 <= p < 8 * b0.len() ==> #[trigger] bit_at(bits@, p) == (bit_at(b0, p) || exists|ddx: int, ddy: int|
                    (ddy < dy || (ddy == dy && ddx < dx)) && #[trigger] tile_cell_drawn(t, ddx, ddy, vx as int, vy as int, vw as int,
                    vh as int, whole_only) && agg_index(spec_key_x(t) + ddx, spec_key_y(t) + ddy, vx as int, vy as int, scale as int,
                    ceil_div(vw as int, scale as int)) == p),
            decreases 4 - dx,
        {
            let cx = tx as u64 + dx;
            let cy = ty as u64 + dy;
            let ghost before = bits@;
            let inside = cx >= vx && cy >= vy && cx - vx < vw as u64 && cy - vy < vh as u64;
            if inside {
                proof {
                    lemma_agg_index_bound(cx as int, cy as int, vx as int, vy as int, vw as int, vh as int, scale as int);
                }
                let ax = (cx - vx) / s;
                let ay = (cy - vy) / s;
                let aidx = (ay * agg_w + ax) as usize;
                set_bit(bits, aidx);
            }
            proof {
                assert(inside <==> tile_cell_drawn(t, dx as int, dy as int, vx as int, vy as int, vw as int, vh as int, whole_only));
                assert forall|p: int| 0 <= p < 8 * b0.len() implies #[trigger] bit_at(bits@, p) == (bit_at(b0, p) || exists|ddx: int, ddy: int|
                    (ddy < dy || (ddy == dy && ddx < dx + 1)) && #[trigger] tile_cell_drawn(t, ddx, ddy, vx as int, vy as int, vw as int,
                    vh as int, whole_only) && agg_index(spec_key_x(t) + ddx, spec_key_y(t) + ddy, vx as int, vy as int, scale as int,
                    ceil_div(vw as int, scale as int)) == p) by {
                    if inside && p == agg_index(cx as int, cy as int, vx as int, vy as int, scale as int, ceil_div(vw as int, scale as int)) {
                        assert(tile_cell_drawn(t, dx as int, dy as int, vx as int, vy as int, vw as int, vh as int, whole_only));
                    }
                }
            }
            dx = dx + 1;
        }
        dy = dy + 1;
    }
}

/// Draws every cell of every tile of `tiles` that lies in the viewport.
pub fn draw_tiles(tiles: &HashSet<u64>, vx: u64, vy: u64, vw: u32, vh: u32, scale: u32, whole_only: bool, bits: &mut Vec<u8>)
    requires
        scale >= 1,
        ceil_div(vw as int, scale as int) * ceil_div(vh as int, scale as int) <= 8 * old(bits)@.len(),
        8 * old(bits)@.len() <= usize::MAX,
    ensures
        final(bits)@.len() == old(bits)@.len(),
        forall|p: int| 0 <= p < 8 * old(bits)@.len() ==> #[trigger] bit_at(final(bits)@, p) == (bit_at(old(bits)@, p) || tile_bit(
            tiles@, vx as int, vy as int, vw as int, vh as int, scale as int, whole_only, p)),
{
    let ghost b0 = bits@;
    let ghost mut seen: Set<u64> = Set::empty();
    for tk in it: tiles.iter()
        invariant
            scale >= 1,
            bits@.len() == b0.len(),
            ceil_div(vw as int, scale as int) * ceil_div(vh as int, scale as int) <= 8 * b0.len(),
            8 * b0.len() <= usize::MAX,
            forall|t: u64| #[trigger] tiles@.contains(t) ==> seen.contains(t) || exists|j: int|
                it.index() <= j < it.seq().len() && *it.seq()[j] == t,
            forall|t: u64| #[trigger] seen.contains(t) ==> tiles@.contains(t),
            forall|p: int| 0 <= p < 8 * b0.len() ==> #[trigger] bit_at(bits@, p) == (bit_at(b0, p) || tile_bit(
                seen, vx as int, vy as int, vw as int, vh as int, scale as int, whole_only, p)),
    {
        let ghost before = bits@;
        let ghost seen0 = seen;
        draw_tile(*tk, vx, vy, vw, vh, scale, whole_only, bits);
        proof {
            let t0 = *tk;
            assert(t0 == *it.seq()[it.index()]);
            assert(tiles@.contains(t0)) by {
                assert(it.seq().unref().to_set() == tiles@);
                assert(it.seq().unref()[it.index()] == t0);
            }
            seen = seen.insert(t0);
            assert forall|t: u64| #[trigger] tiles@.contains(t) implies seen.contains(t) || exists|j: int|
                it.index() + 1 <= j < it.seq().len() && *it.seq()[j] == t by {
                if !seen.contains(t) {
                    let j = choose|j: int| it.index() <= j < it.seq().len() && *it.seq()[j] == t;
                    assert(j != it.index());
                }
            }
            assert forall|p: int| 0 <= p < 8 * b0.len() implies #[trigger] bit_at(bits@, p) == (bit_at(b0, p) || tile_bit(
                seen, vx as int, vy as int, vw as int, vh as int, scale as int, whole_only, p)) by {
                if tile_bit(seen, vx as int, vy as int, vw as int, vh as int, scale as int, whole_only, p) {
                    let (t, dx, dy) = choose|t: u64, dx: int, dy: int| seen.contains(t) && #[trigger] tile_cell_drawn(t, dx, dy,
                        vx as int, vy as int, vw as int, vh as int, whole_only) && agg_index(spec_key_x(t) + dx, spec_key_y(t) + dy,
                        vx as int, vy as int, scale as int, ceil_div(vw as int, scale as int)) == p;
                    if t != t0 {
                        assert(tile_bit(seen0, vx as int, vy as int, vw as int, vh as int, scale as int, whole_only, p));
                    }
                }
                if tile_bit(seen0, vx as int, vy as int, vw as int, vh as int, scale as int, whole_only, p) {
                    let (t, dx, dy) = choose|t: u64, dx: int, dy: int| seen0.contains(t) && #[trigger] tile_cell_drawn(t, dx, dy,
                        vx as int, vy as int, vw as int, vh as int, whole_only) && agg_index(spec_key_x(t) + dx, spec_key_y(t) + dy,
                        vx as int, vy as int, scale as int, ceil_div(vw as int, scale as int)) == p;
                    assert(seen.contains(t));
                }
            }
        }
    }
    proof {
        assert forall|p: int| 0 <= p < 8 * b0.len() implies #[trigger] bit_at(bits@, p) == (bit_at(b0, p) || tile_bit(
            tiles@, vx as int, vy as int, vw as int, vh as int, scale as int, whole_only, p)) by {
            if tile_bit(tiles@, vx as int, vy as int, vw as int, vh as int, scale as int, whole_only, p) {
                let (t, dx, dy) = choose|t: u64, dx: int, dy: int| tiles@.contains(t) && #[trigger] tile_cell_drawn(t, dx, dy,
                    vx as int, vy as int, vw as int, vh as int, whole_only) && agg_index(spec_key_x(t) + dx, spec_key_y(t) + dy,
                    vx as int, vy as int, scale as int, ceil_div(vw as int, scale as int)) == p;
                assert(seen.contains(t));
            }
            if tile_bit(seen, vx as int, vy as int, vw as int, vh as int, scale as int, whole_only, p) {
                let (t, dx, dy) = choose|t: u64, dx: int, dy: int| seen.contains(t) && #[trigger] tile_cell_drawn(t, dx, dy,
                    vx as int, vy as int, vw as int, vh as int, whole_only) && agg_index(spec_key_x(t) + dx, spec_key_y(t) + dy,
                    vx as int, vy as int, scale as int, ceil_div(vw as int, scale as int)) == p;
                assert(tiles@.contains(t));
            }
        }
    }
}

/// The four big-endian bytes of `v`.
pub open spec fn be32(v: u32) -> Seq<u8> {
    seq![(v / 0x100_0000) as u8, (v / 0x1_0000 % 0x100) as u8, (v / 0x100 % 0x100) as u8, (v % 0x100) as u8]
}

/// Appends the four big-endian bytes of `v`.
pub fn push_be32(out: &mut Vec<u8>, v: u32)
    ensures
        final(out)@ == old(out)@ + be32(v),
{
    let b0 = (v / 0x100_0000) as u8;
    let b1 = (v / 0x1_0000 % 0x100) as u8;
    let b2 = (v / 0x100 % 0x100) as u8;
    let b3 = (v % 0x100) as u8;
    out.push(b0);
    out.push(b1);
    out.push(b2);
    out.push(b3);
    proof {
        assert(out@ =~= old(out)@ + be32(v));
    }
}

/// `n` zero bytes.
pub open spec fn zeros(n: int) -> Seq<u8> {
    Seq::new(n as nat, |i: int| 0u8)
}

proof fn lemma_zero_bits(bits: Seq<u8>)
    requires
        forall|i: int| 0 <= i < bits.len() ==> bits[i] == 0,
    ensures
        forall|p: int| 0 <= p < 8 * bits.len() ==> !#[trigger] bit_at(bits, p),
{
    assert forall|p: int| 0 <= p < 8 * bits.len() implies !#[trigger] bit_at(bits, p) by {
        let k = (p % 8) as u8;
        assert(bits[p / 8] == 0);
        crate::hashlife::fill::lemma_full_byte(0u8, k);
    }
}

/// The bytes of the bitmap (and of the overlay) for a `vw` x `vh` viewport:
/// one bit per `scale` x `scale` square when `scale > 1`, else one per cell.
pub open spec fn map_len(vw: u32, vh: u32, scale: u32) -> int {
    if scale > 1 {
        (ceil_div(vw as int, scale as int) * ceil_div(vh as int, scale as int) + 7) / 8
    } else {
        (vw * vh + 7) / 8
    }
}

/// Pixel `p` of the bitmap of the `vw` x `vh` viewport at `(vx, vy)` drawn
/// at scale `s` (one pixel per `s` x `s` square) shows a live cell of `h`.
pub open spec fn agg_px_lit(h: HashLife, vx: int, vy: int, vw: int, vh: int, s: int, p: int) -> bool {
    exists|x: u64, y: u64|
        #[trigger] h.alive(x, y) && agg_shows(vx, vy, vw, vh, s, ceil_div(vw, s), ceil_div(vh, s), x as int, y as int)
            && agg_pixel(vx, vy, s, ceil_div(vw, s), x as int, y as int) == p
}

/// The scale the bitmaps are drawn at.
pub open spec fn eff_scale(scale: u32) -> int {
    if scale > 1 {
        scale as int
    } else {
        1
    }
}

/// The `i`-th header field of a snapshot.
pub open spec fn field(r: Seq<u8>, i: int) -> Seq<u8> {
    r.subrange(4 * i, 4 * i + 4)
}

impl Grid {
    /// What `snapshot` needs: the bitmap fits in memory, and in quadtree mode
    /// the quadtree is at most 2^31 wide, sits inside the 64-bit plane and its
    /// population fits in a machine word, and the viewport does not run off
    /// the plane.
    pub open spec fn snapshot_ready(&self, vx: u64, vy: u64, vw: u32, vh: u32) -> bool {
        &&& vw * vh + 7 <= usize::MAX
        &&& self.hashlife_mode && self.hashlife is Some ==> {
            let h = self.hashlife->0;
            let hvx = spec_shift(vx, FRONTEND_OFFSET, HASHLIFE_OFFSET);
            let hvy = spec_shift(vy, FRONTEND_OFFSET, HASHLIFE_OFFSET);
            &&& h.depth <= 31
            &&& h.origin_x() % two64() + h.side() <= u64::MAX
            &&& h.origin_y() % two64() + h.side() <= u64::MAX
            &&& spec_count(h.cache.nodes@, h.root, h.depth as nat) <= usize::MAX
            &&& hvx + vw <= u64::MAX
            &&& hvy + vh <= u64::MAX
        }
    }

    /// `bits` and `overlay` are the cell bitmap and the active-tile overlay
    /// of the `vw` x `vh` viewport at `(vx, vy)`: in the sparse engine, a bit
    /// is set exactly where a live cell (an active tile's cell) lies in its
    /// square; in quadtree mode the bitmap is the quadtree's drawing (at scale
    /// 1 one bit a cell; above it, a pixel is set exactly when its square shows
    /// a live cell) and the overlay is empty.
    pub open spec fn maps_ok(&self, vx: u64, vy: u64, vw: u32, vh: u32, scale: u32, bits: Seq<u8>, overlay: Seq<u8>) -> bool {
        let n = map_len(vw, vh, scale);
        let s = eff_scale(scale);
        let quad = self.hashlife_mode;
        &&& bits.len() == n
        &&& overlay.len() == n
        &&& !quad ==> forall|p: int| 0 <= p < 8 * n ==> #[trigger] bit_at(bits, p) == cell_bit(self.alive@,
            vx as int, vy as int, vw as int, vh as int, s, p)
        &&& !quad ==> forall|p: int| 0 <= p < 8 * n ==> #[trigger] bit_at(overlay, p) == tile_bit(
            self.active_tiles@, vx as int, vy as int, vw as int, vh as int, s, scale <= 1, p)
        &&& quad ==> overlay == zeros(n)
        &&& quad && self.hashlife is None ==> bits == zeros(n)
        &&& quad && self.hashlife is Some && scale <= 1 ==> {
            let h = self.hashlife->0;
            filled(h.cache.nodes@, h.root, h.depth as nat, h.origin_x() % two64(), h.origin_y() % two64(),
                spec_shift(vx, FRONTEND_OFFSET, HASHLIFE_OFFSET) as int,
                spec_shift(vy, FRONTEND_OFFSET, HASHLIFE_OFFSET) as int, vw as int, vh as int, zeros(n), bits)
        }
        &&& quad && self.hashlife is Some && scale > 1 ==> forall|p: int|
            0 <= p < 8 * n ==> #[trigger] bit_at(bits, p) == agg_px_lit(
                self.hashlife->0,
                spec_shift(vx, FRONTEND_OFFSET, HASHLIFE_OFFSET) as int,
                spec_shift(vy, FRONTEND_OFFSET, HASHLIFE_OFFSET) as int,
                vw as int,
                vh as int,
                s,
                p,
            )
    }

    /// The cell bitmap and the overlay of the `vw` x `vh` viewport at
    /// `(vx, vy)`, with the bitmap's width and height (in squares).
    pub fn render_maps(&self, vx: u64, vy: u64, vw: u32, vh: u32, scale: u32) -> (r: (Vec<u8>, Vec<u8>, u32, u32))
        requires
            self.wf(),
            self.snapshot_ready(vx, vy, vw, vh),
        ensures
            r.0@.len() == map_len(vw, vh, scale),
            r.1@.len() == map_len(vw, vh, scale),
            r.2 == (if scale > 1 { ceil_div(vw as int, eff_scale(scale)) } else { vw as int }),
            r.3 == (if scale > 1 { ceil_div(vh as int, eff_scale(scale)) } else { vh as int }),
            self.maps_ok(vx, vy, vw, vh, scale, r.0@, r.1@),
    {
        let quad = self.hashlife_mode;
        let (hvx, hvy) = frontend_to_hashlife(vx, vy);
        let ghost n: int = map_len(vw, vh, scale);
        if scale > 1 {
            let s = scale as u64;
            let agg_w = (vw as u64 + s - 1) / s;
            let agg_h = (vh as u64 + s - 1) / s;
            proof {
                assert(agg_w <= vw && agg_h <= vh) by (nonlinear_arith)
                    requires
                        agg_w as int == (vw + s - 1) / (s as int),
                        agg_h as int == (vh + s - 1) / (s as int),
                        s >= 1,
                ;
                assert(agg_w * agg_h <= vw * vh) by (nonlinear_arith)
                    requires
                        agg_w <= vw,
                        agg_h <= vh,
                ;
            }
            let agg_len = ((agg_w * agg_h + 7) / 8) as usize;
            let mut agg_bits = vec![0u8; agg_len];
            proof {
                assert(agg_bits@ =~= zeros(n));
                lemma_zero_bits(agg_bits@);
            }
            if quad {
                match &self.hashlife {
                    Some(hf) => {
                        let ghost a0 = agg_bits@;
                        hf.populate_aggregated_viewport(hvx, hvy, vw, vh, scale, &mut agg_bits);
                        proof {
                            let sc = scale as int;
                            assert(ceil_div(vw as int, sc) == (vw + scale - 1) / sc);
                            assert(ceil_div(vh as int, sc) == (vh + scale - 1) / sc);
                            assert forall|p: int| 0 <= p < 8 * n implies #[trigger] bit_at(agg_bits@, p) == agg_px_lit(
                                *hf,
                                hvx as int,
                                hvy as int,
                                vw as int,
                                vh as int,
                                sc,
                                p,
                            ) by {
                                assert(!bit_at(a0, p));
                                if agg_px_lit(*hf, hvx as int, hvy as int, vw as int, vh as int, sc, p) {
                                    let (x, y) = choose|x: u64, y: u64|
                                        #[trigger] hf.alive(x, y) && agg_shows(hvx as int, hvy as int, vw as int, vh as int, sc,
                                            ceil_div(vw as int, sc), ceil_div(vh as int, sc), x as int, y as int) && agg_pixel(
                                            hvx as int,
                                            hvy as int,
                                            sc,
                                            ceil_div(vw as int, sc),
                                            x as int,
                                            y as int,
                                        ) == p;
                                    assert(hf.alive(x, y));
                                }
                            }
                        }
                    },
                    None => {},
                }
            } else {
                draw_cells(&self.alive, vx, vy, vw, vh, scale, &mut agg_bits);
            }
            let mut agg_overlay = vec![0u8; agg_len];
            proof {
                assert(agg_overlay@ =~= zeros(n));
                lemma_zero_bits(agg_overlay@);
            }
            if !quad {
                draw_tiles(&self.active_tiles, vx, vy, vw, vh, scale, false, &mut agg_overlay);
            }
            (agg_bits, agg_overlay, agg_w as u32, agg_h as u32)
        } else {
            let bits_len = ((vw as u64 * vh as u64 + 7) / 8) as usize;
            let mut bits = vec![0u8; bits_len];
            proof {
                assert(bits@ =~= zeros(n));
                lemma_zero_bits(bits@);
            }
            if quad {
                match &self.hashlife {
                    Some(hf) => {
                        let _tf = hf.populate_viewport(hvx, hvy, vw, vh, &mut bits);
                    },
                    None => {},
                }
            } else {
                draw_cells(&self.alive, vx, vy, vw, vh, 1, &mut bits);
            }
            let mut overlay = vec![0u8; bits_len];
            proof {
                assert(overlay@ =~= zeros(n));
                lemma_zero_bits(overlay@);
            }
            if !quad {
                draw_tiles(&self.active_tiles, vx, vy, vw, vh, 1, true, &mut overlay);
            }
            (bits, overlay, vw, vh)
        }
    }
}

/// The twelve header fields, then `bits`, then `overlay`.
pub fn frame(fields: &Vec<u32>, bits: Vec<u8>, overlay: Vec<u8>) -> (r: Vec<u8>)
    requires
        fields@.len() == 12,
    ensures
        r@.len() == 48 + bits@.len() + overlay@.len(),
        forall|i: int| 0 <= i < 12 ==> #[trigger] field(r@, i) == be32(fields@[i]),
        r@.subrange(48, 48 + bits@.len() as int) == bits@,
        r@.subrange(48 + bits@.len() as int, 48 + bits@.len() + overlay@.len() as int) == overlay@,
{
    let mut data: Vec<u8> = Vec::new();
    let mut i: usize = 0;
    while i < 12
        invariant
            i <= 12,
            fields@.len() == 12,
            data@.len() == 4 * i,
            forall|j: int| 0 <= j < i ==> #[trigger] field(data@, j) == be32(fields@[j]),
        decreases 12 - i,
    {
        let ghost before = data@;
        push_be32(&mut data, fields[i]);
        proof {
            assert forall|j: int| 0 <= j < i + 1 implies #[trigger] field(data@, j) == be32(fields@[j]) by {
                if j < i {
                    assert(field(before, j) == be32(fields@[j]));
                    assert(data@.subrange(4 * j, 4 * j + 4) =~= before.subrange(4 * j, 4 * j + 4));
                } else {
                    assert(data@.subrange(4 * j, 4 * j + 4) =~= be32(fields@[j]));
                }
            }
        }
        i = i + 1;
    }
    let ghost head = data@;
    let ghost b = bits@;
    let ghost o = overlay@;
    let mut bits_mv = bits;
    let mut overlay_mv = overlay;
    data.append(&mut bits_mv);
    data.append(&mut overlay_mv);
    proof {
        assert(data@ == head + b + o);
        assert(data@.subrange(48, 48 + b.len() as int) =~= b);
        assert(data@.subrange(48 + b.len() as int, 48 + b.len() + o.len() as int) =~= o);
        assert forall|j: int| 0 <= j < 12 implies #[trigger] field(data@, j) == be32(fields@[j]) by {
            assert(field(head, j) == be32(fields@[j]));
            assert(data@.subrange(4 * j, 4 * j + 4) =~= head.subrange(4 * j, 4 * j + 4));
        }
    }
    data
}

impl Grid {
    /// The snapshot of the `vw` x `vh` viewport at `(vx, vy)` (quadtree mode
    /// reads the viewport in the viewer's coordinates): twelve big-endian
    /// fields (generation, bitmap width and height, population, active cells
    /// or quadtree nodes, overlay length, births, deaths, neighbour-count
    /// entries or cache size, active tiles or cache hit rate, scale, mode),
    /// then the cell bitmap and the active-tile overlay of `render_maps`.
    pub fn snapshot(&mut self, vx: u64, vy: u64, vw: u32, vh: u32, scale: u32) -> (r: Vec<u8>)
        requires
            old(self).wf(),
            old(self).snapshot_ready(vx, vy, vw, vh),
        ensures
            final(self).wf(),
            final(self).alive == old(self).alive,
            final(self).active_tiles == old(self).active_tiles,
            final(self).hashlife_mode == old(self).hashlife_mode,
            final(self).generation == old(self).generation,
            old(self).hashlife matches Some(h) ==> final(self).hashlife matches Some(h2) && h2.cells() == h.cells()
                && h2.root == h.root && h2.depth == h.depth && h2.center == h.center
                && h2.cache.nodes@ == h.cache.nodes@,
            old(self).hashlife is None ==> final(self).hashlife is None,
            ({
                let n = map_len(vw, vh, scale);
                let s = eff_scale(scale);
                let quad = old(self).hashlife_mode;
                &&& r@.len() == 48 + 2 * n
                &&& final(self).maps_ok(vx, vy, vw, vh, scale, r@.subrange(48, 48 + n), r@.subrange(48 + n, 48 + 2 * n))
                &&& field(r@, 0) == be32(old(self).generation)
                &&& field(r@, 1) == be32((if scale > 1 { ceil_div(vw as int, s) } else { vw as int }) as u32)
                &&& field(r@, 2) == be32((if scale > 1 { ceil_div(vh as int, s) } else { vh as int }) as u32)
                &&& field(r@, 3) == be32(
                    (if !quad { old(self).alive@.len() as int } else if old(self).hashlife is Some {
                        spec_count(old(self).hashlife->0.cache.nodes@, old(self).hashlife->0.root,
                            old(self).hashlife->0.depth as nat) as int
                    } else { 0 }) as u32)
                &&& field(r@, 4) == be32(
                    (if !quad { old(self).active_count as int } else if old(self).hashlife is Some {
                        old(self).hashlife->0.cache.nodes@.len() as int
                    } else { 0 }) as u32)
                &&& field(r@, 5) == be32(n as u32)
                &&& field(r@, 6) == be32(old(self).births)
                &&& field(r@, 7) == be32(old(self).deaths)
                &&& field(r@, 8) == be32(
                    if !quad { old(self).heap } else if old(self).hashlife is Some {
                        old(self).hashlife->0.last_cache_size
                    } else { 0 })
                &&& field(r@, 9) == be32(
                    if !quad { old(self).active_tiles@.len() as u32 } else if old(self).hashlife is Some {
                        old(self).hashlife->0.last_cache_hit_rate
                    } else { 0 })
                &&& field(r@, 10) == be32(scale)
                &&& field(r@, 11) == be32(if quad { 1 } else { 0 })
            }),
    {
        let quad = self.hashlife_mode;
        let pop: u32 = if quad {
            match &mut self.hashlife {
                Some(hf) => hf.alive_count() as u32,
                None => 0,
            }
        } else {
            self.alive.len() as u32
        };
        let (bits, overlay, out_w, out_h) = self.render_maps(vx, vy, vw, vh, scale);
        let f4: u32 = if quad {
            match &self.hashlife {
                Some(hf) => hf.cache.nodes.len() as u32,
                None => 0,
            }
        } else {
            self.active_count
        };
        let (f8, f9): (u32, u32) = if quad {
            match &self.hashlife {
                Some(hf) => (hf.last_cache_size, hf.last_cache_hit_rate),
                None => (0, 0),
            }
        } else {
            (self.heap, self.active_tiles.len() as u32)
        };
        let mut fields: Vec<u32> = Vec::new();
        fields.push(self.generation);
        fields.push(out_w);
        fields.push(out_h);
        fields.push(pop);
        fields.push(f4);
        fields.push(overlay.len() as u32);
        fields.push(self.births);
        fields.push(self.deaths);
        fields.push(f8);
        fields.push(f9);
        fields.push(scale);
        fields.push(if quad { 1 } else { 0 });
        frame(&fields, bits, overlay)
    }
}

impl Grid {
    /// What `can_snapshot` accepts: the conditions of `snapshot_ready`, with
    /// the node count bounded by asking for a quadtree of at most 15 levels
    /// on a machine whose words hold fewer than 63 bits.
    pub open spec fn snapshot_accepted(&self, vx: u64, vy: u64, vw: u32, vh: u32) -> bool {
        &&& vw * vh + 7 <= usize::MAX
        &&& self.hashlife_mode && self.hashlife is Some ==> {
            let h = self.hashlife->0;
            let hvx = spec_shift(vx, FRONTEND_OFFSET, HASHLIFE_OFFSET);
            let hvy = spec_shift(vy, FRONTEND_OFFSET, HASHLIFE_OFFSET);
            &&& h.depth <= 31
            &&& (h.depth <= 15 || usize::MAX >= 0x4000_0000_0000_0000)
            &&& h.origin_x() % two64() + h.side() <= u64::MAX
            &&& h.origin_y() % two64() + h.side() <= u64::MAX
            &&& hvx + vw <= u64::MAX
            &&& hvy + vh <= u64::MAX
        }
    }

    /// Tests the conditions of `snapshot_ready`; it refuses, besides, a
    /// quadtree deeper than 15 levels on a machine whose words hold fewer than
    /// 63 bits.
    pub fn can_snapshot(&self, vx: u64, vy: u64, vw: u32, vh: u32) -> (r: bool)
        requires
            self.wf(),
        ensures
            r == self.snapshot_accepted(vx, vy, vw, vh),
            r ==> self.snapshot_ready(vx, vy, vw, vh),
    {
        assert(vw * vh <= 0xFFFF_FFFF * 0xFFFF_FFFF) by (nonlinear_arith)
            requires
                vw <= 0xFFFF_FFFF,
                vh <= 0xFFFF_FFFF,
        ;
        let cells = vw as u64 * vh as u64;
        if cells + 7 > usize::MAX as u64 {
            return false;
        }
        if self.hashlife_mode {
            match &self.hashlife {
                Some(h) => {
                    if h.depth > 31 {
                        return false;
                    }
                    if h.depth > 15 && (usize::MAX as u64) < 0x4000_0000_0000_0000 {
                        return false;
                    }
                    let (ox, oy) = h.origin();
                    let side = h.side_u64();
                    if ox > u64::MAX - side || oy > u64::MAX - side {
                        return false;
                    }
                    let (hvx, hvy) = frontend_to_hashlife(vx, vy);
                    if hvx > u64::MAX - vw as u64 || hvy > u64::MAX - vh as u64 {
                        return false;
                    }
                    proof {
                        let d = h.depth as nat;
                        lemma_count_bound(h.cache.nodes@, h.root, d);
                        crate::arith::lemma_pow2_32_64();
                        crate::arith::lemma_pow2_add(30, 2);
                        crate::arith::lemma_pow2_add(62, 2);
                        crate::arith::lemma_pow2_small();
                        if d <= 15 {
                            crate::arith::lemma_pow2_mono(2 * d, 30);
                        } else {
                            crate::arith::lemma_pow2_mono(2 * d, 62);
                        }
                    }
                    true
                },
                None => true,
            }
        } else {
            true
        }
    }
}

} // verus!
