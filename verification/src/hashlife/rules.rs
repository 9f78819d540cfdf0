//! The B3/S23 rule on 4x4 blocks packed in 16 bits, and the bit shuffles that
//! cut an 8x8 block into overlapping 4x4 windows and reassemble the results.
//!
//! A 4x4 block is a `u16`; the cell in row `r`, column `c` (both 0..4, row 0 on
//! top) is bit `15 - (4r + c)`.

use vstd::prelude::*;

verus! {

/// The cell in row `r`, column `c` of a 4x4 block.
pub open spec fn cell4(p: u16, r: int, c: int) -> bool {
    (p >> ((15 - (4 * r + c)) as u16)) & 1 == 1
}

/// B3/S23: the next state of a cell from its state and its live-neighbour count.
pub open spec fn life_rule(alive: bool, neighbours: int) -> bool {
    if alive {
        neighbours == 2 || neighbours == 3
    } else {
        neighbours == 3
    }
}

pub open spec fn b2i(b: bool) -> int {
    if b {
        1
    } else {
        0
    }
}

/// Live neighbours of the inner cell `(r, c)` (both in 1..3) of a 4x4 block.
pub open spec fn neighbours4(p: u16, r: int, c: int) -> int {
    b2i(cell4(p, r - 1, c - 1)) + b2i(cell4(p, r - 1, c)) + b2i(cell4(p, r - 1, c + 1))
        + b2i(cell4(p, r, c - 1)) + b2i(cell4(p, r, c + 1))
        + b2i(cell4(p, r + 1, c - 1)) + b2i(cell4(p, r + 1, c)) + b2i(cell4(p, r + 1, c + 1))
}

/// Next state of the inner cell `(r, c)` of a 4x4 block.
pub open spec fn next4(p: u16, r: int, c: int) -> bool {
    life_rule(cell4(p, r, c), neighbours4(p, r, c))
}

/// A 2x2 result in "SE encoding": the four cells sit in the south-east quadrant
/// of a 4x4 word, i.e. bits 5, 4, 1, 0.
pub open spec fn se_encode(a: bool, b: bool, c: bool, d: bool) -> u16 {
    (32 * b2i(a) + 16 * b2i(b) + 2 * b2i(c) + b2i(d)) as u16
}

/// The rule-table entry of a 4x4 block: the next generation of its inner 2x2,
/// in SE encoding.
pub open spec fn spec_advance_4x4(p: u16) -> u16 {
    se_encode(next4(p, 1, 1), next4(p, 1, 2), next4(p, 2, 1), next4(p, 2, 2))
}

fn get_bit(p: u16, r: u16, c: u16) -> (b: u8)
    requires
        r < 4,
        c < 4,
    ensures
        b == b2i(cell4(p, r as int, c as int)),
{
    let i: u16 = 15 - (4 * r + c);
    let b = ((p >> i) & 1) as u8;
    assert(((p >> i) & 1) == 0 || ((p >> i) & 1) == 1) by (bit_vector);
    b
}

fn next_inner(p: u16, r: u16, c: u16) -> (b: bool)
    requires
        1 <= r <= 2,
        1 <= c <= 2,
    ensures
        b == next4(p, r as int, c as int),
{
    let n: u8 = get_bit(p, r - 1, c - 1) + get_bit(p, r - 1, c) + get_bit(p, r - 1, c + 1)
        + get_bit(p, r, c - 1) + get_bit(p, r, c + 1) + get_bit(p, r + 1, c - 1) + get_bit(
        p,
        r + 1,
        c,
    ) + get_bit(p, r + 1, c + 1);
    let center = get_bit(p, r, c);
    if center == 1 {
        n == 2 || n == 3
    } else {
        n == 3
    }
}

/// The next generation of the inner 2x2 of a 4x4 block, in SE encoding
/// (row 1 col 1 -> bit 5, row 1 col 2 -> bit 4, row 2 col 1 -> bit 1, row 2 col 2 -> bit 0).
pub fn advance_4x4(pattern: u16) -> (r: u16)
    ensures
        r == spec_advance_4x4(pattern),
{
    let a = next_inner(pattern, 1, 1);
    let b = next_inner(pattern, 1, 2);
    let c = next_inner(pattern, 2, 1);
    let d = next_inner(pattern, 2, 2);
    let mut result: u16 = 0;
    if a {
        result = result | 32;
    }
    if b {
        result = result | 16;
    }
    if c {
        result = result | 2;
    }
    if d {
        result = result | 1;
    }
    assert(result == se_encode(a, b, c, d)) by {
        let r0: u16 = 0;
        let r1: u16 = if a { r0 | 32 } else { r0 };
        let r2: u16 = if b { r1 | 16 } else { r1 };
        let r3: u16 = if c { r2 | 2 } else { r2 };
        let r4: u16 = if d { r3 | 1 } else { r3 };
        assert(r4 == (if a { 32u16 } else { 0u16 }) + (if b { 16u16 } else { 0u16 }) + (if c {
            2u16
        } else {
            0u16
        }) + (if d { 1u16 } else { 0u16 })) by (bit_vector)
            requires
                r0 == 0,
                r1 == if a { r0 | 32 } else { r0 },
                r2 == if b { r1 | 16 } else { r1 },
                r3 == if c { r2 | 2 } else { r2 },
                r4 == if d { r3 | 1 } else { r3 },
        ;
    }
    result
}

/// The full rule table: entry `p` is `advance_4x4(p)` for every 16-bit block `p`.
pub fn build_rule_table() -> (table: Vec<u16>)
    ensures
        table.len() == 65536,
        forall|p: u16| #[trigger] table[p as int] == spec_advance_4x4(p),
{
    let mut table: Vec<u16> = Vec::with_capacity(65536);
    let mut i: u32 = 0;
    while i < 65536
        invariant
            i <= 65536,
            table.len() == i,
            forall|p: u16| (p as u32) < i ==> #[trigger] table[p as int] == spec_advance_4x4(p),
        decreases 65536 - i,
    {
        let v = advance_4x4(i as u16);
        table.push(v);
        i = i + 1;
    }
    table
}

/// The cell `(r, c)` (both 0..8) of the 8x8 block made of four 4x4 quadrants.
pub open spec fn cell8(nw: u16, ne: u16, sw: u16, se: u16, r: int, c: int) -> bool {
    if r < 4 {
        if c < 4 {
            cell4(nw, r, c)
        } else {
            cell4(ne, r, c - 4)
        }
    } else {
        if c < 4 {
            cell4(sw, r - 4, c)
        } else {
            cell4(se, r - 4, c - 4)
        }
    }
}

/// `w` is the 4x4 window of the 8x8 block whose top-left cell is `(r0, c0)`.
pub open spec fn is_window(
    w: u16,
    nw: u16,
    ne: u16,
    sw: u16,
    se: u16,
    r0: int,
    c0: int,
) -> bool {
    forall|r: int, c: int|
        0 <= r < 4 && 0 <= c < 4 ==> #[trigger] cell4(w, r, c) == cell8(nw, ne, sw, se, r0 + r, c0 + c)
}

proof fn lemma_shl_window(a: u16, b: u16, w: u16, c: u16, i: u16, j: u16)
    by (bit_vector)
    requires
        w == ((((a as u32) << 2u32) & 0xCCCCu32) as u16) | ((((b as u32) >> 2u32) & 0x3333u32) as u16),
        i < 16,
        c == 3 - (i % 4),
        c < 2 ==> j == i - 2,
        c >= 2 ==> j == i + 2,
    ensures
        c < 2 ==> ((w >> i) & 1 == (a >> j) & 1),
        c >= 2 ==> ((w >> i) & 1 == (b >> j) & 1),
{
}

proof fn lemma_row_window(a: u16, b: u16, w: u16, r: u16, i: u16, j: u16)
    by (bit_vector)
    requires
        w == ((((a as u32) << 8u32) & 0xFF00u32) as u16) | ((((b as u32) >> 8u32) & 0x00FFu32) as u16),
        i < 16,
        r == 3 - (i / 4),
        r < 2 ==> j == i - 8,
        r >= 2 ==> j == i + 8,
    ensures
        r < 2 ==> ((w >> i) & 1 == (a >> j) & 1),
        r >= 2 ==> ((w >> i) & 1 == (b >> j) & 1),
{
}

/// The 4x4 window of the 8x8 block at rows 0..4, columns 2..6.
pub fn window_n(nw: u16, ne: u16) -> (w: u16)
    ensures
        forall|sw: u16, se: u16| is_window(w, nw, ne, sw, se, 0, 2),
{
    let w = (((nw as u32) << 2) & 0xCCCC) as u16 | (((ne as u32) >> 2) & 0x3333) as u16;
    assert forall|sw: u16, se: u16| is_window(w, nw, ne, sw, se, 0, 2) by {
        assert forall|r: int, c: int| 0 <= r < 4 && 0 <= c < 4 implies #[trigger] cell4(w, r, c)
            == cell8(nw, ne, sw, se, r, 2 + c) by {
            lemma_shl_window(nw, ne, w, c as u16, (15 - (4 * r + c)) as u16, (if c < 2 { 13 - (4 * r + c) } else { 17 - (4 * r + c) }) as u16);
        }
    }
    w
}

/// The 4x4 window of the 8x8 block at rows 4..8, columns 2..6.
pub fn window_s(sw: u16, se: u16) -> (w: u16)
    ensures
        forall|nw: u16, ne: u16| is_window(w, nw, ne, sw, se, 4, 2),
{
    let w = (((sw as u32) << 2) & 0xCCCC) as u16 | (((se as u32) >> 2) & 0x3333) as u16;
    assert forall|nw: u16, ne: u16| is_window(w, nw, ne, sw, se, 4, 2) by {
        assert forall|r: int, c: int| 0 <= r < 4 && 0 <= c < 4 implies #[trigger] cell4(w, r, c)
            == cell8(nw, ne, sw, se, 4 + r, 2 + c) by {
            lemma_shl_window(sw, se, w, c as u16, (15 - (4 * r + c)) as u16, (if c < 2 { 13 - (4 * r + c) } else { 17 - (4 * r + c) }) as u16);
        }
    }
    w
}

/// The 4x4 window of the 8x8 block at rows 2..6, columns 0..4.
pub fn window_w(nw: u16, sw: u16) -> (w: u16)
    ensures
        forall|ne: u16, se: u16| is_window(w, nw, ne, sw, se, 2, 0),
{
    let w = (((nw as u32) << 8) & 0xFF00) as u16 | (((sw as u32) >> 8) & 0x00FF) as u16;
    assert forall|ne: u16, se: u16| is_window(w, nw, ne, sw, se, 2, 0) by {
        assert forall|r: int, c: int| 0 <= r < 4 && 0 <= c < 4 implies #[trigger] cell4(w, r, c)
            == cell8(nw, ne, sw, se, 2 + r, c) by {
            lemma_row_window(nw, sw, w, r as u16, (15 - (4 * r + c)) as u16, (if r < 2 { 7 - (4 * r + c) } else { 23 - (4 * r + c) }) as u16);
        }
    }
    w
}

/// The 4x4 window of the 8x8 block at rows 2..6, columns 4..8.
pub fn window_e(ne: u16, se: u16) -> (w: u16)
    ensures
        forall|nw: u16, sw: u16| is_window(w, nw, ne, sw, se, 2, 4),
{
    let w = (((ne as u32) << 8) & 0xFF00) as u16 | (((se as u32) >> 8) & 0x00FF) as u16;
    assert forall|nw: u16, sw: u16| is_window(w, nw, ne, sw, se, 2, 4) by {
        assert forall|r: int, c: int| 0 <= r < 4 && 0 <= c < 4 implies #[trigger] cell4(w, r, c)
            == cell8(nw, ne, sw, se, 2 + r, 4 + c) by {
            lemma_row_window(ne, se, w, r as u16, (15 - (4 * r + c)) as u16, (if r < 2 { 7 - (4 * r + c) } else { 23 - (4 * r + c) }) as u16);
        }
    }
    w
}

proof fn lemma_center_window(nw: u16, ne: u16, sw: u16, se: u16, w: u16, r: u16, c: u16, i: u16, j: u16)
    by (bit_vector)
    requires
        w == ((((nw as u32) << 10u32) & 0xCC00u32) as u16) | ((((ne as u32) << 6u32) & 0x3300u32) as u16)
            | ((((sw as u32) >> 6u32) & 0x00CCu32) as u16) | ((((se as u32) >> 10u32) & 0x0033u32) as u16),
        i < 16,
        r == 3 - (i / 4),
        c == 3 - (i % 4),
        r < 2 && c < 2 ==> j == i - 10,
        r < 2 && c >= 2 ==> j == i - 6,
        r >= 2 && c < 2 ==> j == i + 6,
        r >= 2 && c >= 2 ==> j == i + 10,
    ensures
        r < 2 && c < 2 ==> ((w >> i) & 1 == (nw >> j) & 1),
        r < 2 && c >= 2 ==> ((w >> i) & 1 == (ne >> j) & 1),
        r >= 2 && c < 2 ==> ((w >> i) & 1 == (sw >> j) & 1),
        r >= 2 && c >= 2 ==> ((w >> i) & 1 == (se >> j) & 1),
{
}

/// The central 4x4 window of the 8x8 block (rows 2..6, columns 2..6).
pub fn window_center(nw: u16, ne: u16, sw: u16, se: u16) -> (w: u16)
    ensures
        is_window(w, nw, ne, sw, se, 2, 2),
{
    let w = (((nw as u32) << 10) & 0xCC00u32) as u16 | (((ne as u32) << 6) & 0x3300u32) as u16 | (((
    sw as u32) >> 6) & 0x00CCu32) as u16 | (((se as u32) >> 10) & 0x0033u32) as u16;
    assert forall|r: int, c: int| 0 <= r < 4 && 0 <= c < 4 implies #[trigger] cell4(w, r, c)
        == cell8(nw, ne, sw, se, 2 + r, 2 + c) by {
        lemma_center_window(nw, ne, sw, se, w, r as u16, c as u16, (15 - (4 * r + c)) as u16,
                (if r < 2 && c < 2 { 5 - (4 * r + c) } else if r < 2 { 9 - (4 * r + c) } else if c < 2 { 21 - (4 * r + c) } else { 25 - (4 * r + c) }) as u16);
    }
    w
}

/// Cell `(dr, dc)` (both 0..2) of a 2x2 result held in SE encoding.
pub open spec fn se_cell(v: u16, dr: int, dc: int) -> bool {
    cell4(v, 2 + dr, 2 + dc)
}

/// `v` holds a 2x2 result in SE encoding and nothing else.
pub open spec fn se_only(v: u16) -> bool {
    v & 0xFFCC == 0
}

/// The 4x4 word `w` is made of four 2x2 SE-encoded results, one per quadrant.
pub open spec fn is_quad_assembly(w: u16, a: u16, b: u16, c: u16, d: u16) -> bool {
    forall|r: int, col: int|
        0 <= r < 4 && 0 <= col < 4 ==> #[trigger] cell4(w, r, col) == se_cell(
            if r < 2 {
                if col < 2 {
                    a
                } else {
                    b
                }
            } else {
                if col < 2 {
                    c
                } else {
                    d
                }
            },
            r % 2,
            col % 2,
        )
}

pub proof fn lemma_se_encode_only(a: bool, b: bool, c: bool, d: bool)
    ensures
        se_only(se_encode(a, b, c, d)),
        se_cell(se_encode(a, b, c, d), 0, 0) == a,
        se_cell(se_encode(a, b, c, d), 0, 1) == b,
        se_cell(se_encode(a, b, c, d), 1, 0) == c,
        se_cell(se_encode(a, b, c, d), 1, 1) == d,
{
    let v = se_encode(a, b, c, d);
    let ai: u16 = if a { 1 } else { 0 };
    let bi: u16 = if b { 1 } else { 0 };
    let ci: u16 = if c { 1 } else { 0 };
    let di: u16 = if d { 1 } else { 0 };
    assert(v == 32 * ai + 16 * bi + 2 * ci + di);
    assert(v & 0xFFCC == 0 && ((v >> 5u16) & 1 == 1) == (ai == 1) && ((v >> 4u16) & 1 == 1) == (bi
        == 1) && ((v >> 1u16) & 1 == 1) == (ci == 1) && ((v >> 0u16) & 1 == 1) == (di == 1))
        by (bit_vector)
        requires
            ai <= 1,
            bi <= 1,
            ci <= 1,
            di <= 1,
            v == 32 * ai + 16 * bi + 2 * ci + di,
    ;
}

/// Four cells packed as a 2x2 block in SE encoding.
pub fn se_pack(a: bool, b: bool, c: bool, d: bool) -> (v: u16)
    ensures
        v == se_encode(a, b, c, d),
        se_only(v),
        se_cell(v, 0, 0) == a,
        se_cell(v, 0, 1) == b,
        se_cell(v, 1, 0) == c,
        se_cell(v, 1, 1) == d,
{
    proof {
        lemma_se_encode_only(a, b, c, d);
    }
    let ai: u16 = if a { 1 } else { 0 };
    let bi: u16 = if b { 1 } else { 0 };
    let ci: u16 = if c { 1 } else { 0 };
    let di: u16 = if d { 1 } else { 0 };
    32 * ai + 16 * bi + 2 * ci + di
}

/// Every rule-table entry is a pure SE-encoded 2x2 result.
pub proof fn lemma_advance_4x4_se_only(p: u16)
    ensures
        se_only(spec_advance_4x4(p)),
        se_cell(spec_advance_4x4(p), 0, 0) == next4(p, 1, 1),
        se_cell(spec_advance_4x4(p), 0, 1) == next4(p, 1, 2),
        se_cell(spec_advance_4x4(p), 1, 0) == next4(p, 2, 1),
        se_cell(spec_advance_4x4(p), 1, 1) == next4(p, 2, 2),
{
    lemma_se_encode_only(next4(p, 1, 1), next4(p, 1, 2), next4(p, 2, 1), next4(p, 2, 2));
}

proof fn lemma_quad_bits(a: u16, b: u16, c: u16, d: u16, w: u16, i: u16, j: u16)
    by (bit_vector)
    requires
        a & 0xFFCC == 0,
        b & 0xFFCC == 0,
        c & 0xFFCC == 0,
        d & 0xFFCC == 0,
        w == ((((a as u32) << 10u32) | ((b as u32) << 8u32) | ((c as u32) << 2u32) | (d as u32)) as u16),
        i < 16,
        3 - (i / 4) < 2 && 3 - (i % 4) < 2 ==> j == i - 10,
        3 - (i / 4) < 2 && 3 - (i % 4) >= 2 ==> j == i - 8,
        3 - (i / 4) >= 2 && 3 - (i % 4) < 2 ==> j == i - 2,
        3 - (i / 4) >= 2 && 3 - (i % 4) >= 2 ==> j == i,
    ensures
        3 - (i / 4) < 2 && 3 - (i % 4) < 2 ==> (w >> i) & 1 == (a >> j) & 1,
        3 - (i / 4) < 2 && 3 - (i % 4) >= 2 ==> (w >> i) & 1 == (b >> j) & 1,
        3 - (i / 4) >= 2 && 3 - (i % 4) < 2 ==> (w >> i) & 1 == (c >> j) & 1,
        3 - (i / 4) >= 2 && 3 - (i % 4) >= 2 ==> (w >> i) & 1 == (d >> j) & 1,
{
}

proof fn lemma_quad_assembly(a: u16, b: u16, c: u16, d: u16, w: u16)
    requires
        se_only(a),
        se_only(b),
        se_only(c),
        se_only(d),
        w == ((((a as u32) << 10u32) | ((b as u32) << 8u32) | ((c as u32) << 2u32) | (d as u32)) as u16),
    ensures
        is_quad_assembly(w, a, b, c, d),
{
    assert forall|r: int, col: int| 0 <= r < 4 && 0 <= col < 4 implies #[trigger] cell4(w, r, col)
        == se_cell(
        if r < 2 {
            if col < 2 {
                a
            } else {
                b
            }
        } else {
            if col < 2 {
                c
            } else {
                d
            }
        },
        r % 2,
        col % 2,
    ) by {
        let i = 15 - (4 * r + col);
        let j = 15 - (4 * (2 + r % 2) + 2 + col % 2);
        lemma_quad_bits(a, b, c, d, w, i as u16, j as u16);
    }
}

/// Four SE-encoded 2x2 results laid side by side as one 4x4 word
/// (`tl` top-left, `tr` top-right, `bl` bottom-left, `br` bottom-right).
pub fn combine_2x2(tl: u16, tr: u16, bl: u16, br: u16) -> (w: u16)
    requires
        se_only(tl),
        se_only(tr),
        se_only(bl),
        se_only(br),
    ensures
        is_quad_assembly(w, tl, tr, bl, br),
{
    let w = ((tl as u32) << 10 | (tr as u32) << 8 | (bl as u32) << 2 | br as u32) as u16;
    proof {
        lemma_quad_assembly(tl, tr, bl, br, w);
    }
    w
}

proof fn lemma_masked_quads(a: u16, b: u16, c: u16, d: u16, w: u16)
    by (bit_vector)
    requires
        a & 0xFFCC == 0,
        b & 0xFFCC == 0,
        c & 0xFFCC == 0,
        d & 0xFFCC == 0,
        w == (((a as u32) << 10u32) as u16 & 0xCC00u16) | (((b as u32) << 8u32) as u16 & 0x3300u16)
            | (((c as u32) << 2u32) as u16 & 0x00CCu16) | (d & 0x0033u16),
    ensures
        w == ((((a as u32) << 10u32) | ((b as u32) << 8u32) | ((c as u32) << 2u32) | (d as u32)) as u16),
{
}

/// Four SE-encoded 2x2 results (north-west, north-east, south-west, south-east)
/// assembled into one 4x4 word.
pub fn assemble_quadrants(r_nw: u16, r_ne: u16, r_sw: u16, r_se: u16) -> (w: u16)
    requires
        se_only(r_nw),
        se_only(r_ne),
        se_only(r_sw),
        se_only(r_se),
    ensures
        is_quad_assembly(w, r_nw, r_ne, r_sw, r_se),
{
    let w = ((r_nw as u32) << 10) as u16 & 0xCC00u16 | ((r_ne as u32) << 8) as u16 & 0x3300u16 | ((
    r_sw as u32) << 2) as u16 & 0x00CCu16 | r_se & 0x0033u16;
    proof {
        lemma_masked_quads(r_nw, r_ne, r_sw, r_se, w);
        lemma_quad_assembly(r_nw, r_ne, r_sw, r_se, w);
    }
    w
}

/// The nine SE-encoded results of the 3x3 overlapping windows of an 8x8 block
/// tile its central 6x6; this word is the central 4x4 of that 6x6: cell
/// `(r, c)` comes from window `((r + 1) / 2, (c + 1) / 2)`, cell
/// `((r + 1) % 2, (c + 1) % 2)`.
pub open spec fn is_centered_assembly(w: u16, rs: Seq<u16>) -> bool {
    forall|r: int, c: int|
        0 <= r < 4 && 0 <= c < 4 ==> #[trigger] cell4(w, r, c) == se_cell(
            rs[3 * ((r + 1) / 2) + (c + 1) / 2],
            (r + 1) % 2,
            (c + 1) % 2,
        )
}

proof fn lemma_centered_bits(
    a: u16,
    b: u16,
    c: u16,
    d: u16,
    e: u16,
    f: u16,
    g: u16,
    h: u16,
    k: u16,
    w: u16,
)
    by (bit_vector)
    requires
        a & 0xFFCC == 0,
        b & 0xFFCC == 0,
        c & 0xFFCC == 0,
        d & 0xFFCC == 0,
        e & 0xFFCC == 0,
        f & 0xFFCC == 0,
        g & 0xFFCC == 0,
        h & 0xFFCC == 0,
        k & 0xFFCC == 0,
        w == ((((a as u32) << 15u32) | ((b as u32) << 13u32) | (((c as u32) << 11u32) & 0x1000u32) | (((
        d as u32) << 7u32) & 0x0880u32) | ((e as u32) << 5u32) | (((f as u32) << 3u32) & 0x0110u32) | (((
        g as u32) >> 1u32) & 0x0008u32) | ((h as u32) >> 3u32) | ((k as u32) >> 5u32)) as u16),
    ensures
        (w >> 15u16) & 1 == (a >> 0u16) & 1,
        (w >> 14u16) & 1 == (b >> 1u16) & 1,
        (w >> 13u16) & 1 == (b >> 0u16) & 1,
        (w >> 12u16) & 1 == (c >> 1u16) & 1,
        (w >> 11u16) & 1 == (d >> 4u16) & 1,
        (w >> 10u16) & 1 == (e >> 5u16) & 1,
        (w >> 9u16) & 1 == (e >> 4u16) & 1,
        (w >> 8u16) & 1 == (f >> 5u16) & 1,
        (w >> 7u16) & 1 == (d >> 0u16) & 1,
        (w >> 6u16) & 1 == (e >> 1u16) & 1,
        (w >> 5u16) & 1 == (e >> 0u16) & 1,
        (w >> 4u16) & 1 == (f >> 1u16) & 1,
        (w >> 3u16) & 1 == (g >> 4u16) & 1,
        (w >> 2u16) & 1 == (h >> 5u16) & 1,
        (w >> 1u16) & 1 == (h >> 4u16) & 1,
        (w >> 0u16) & 1 == (k >> 5u16) & 1,
{
}

/// The central 4x4 of the 6x6 tiled by the nine SE-encoded window results
/// (in row-major order nw, n, ne, w, c, e, sw, s, se).
pub fn assemble_centered_6x6(
    r_nw: u16,
    r_n: u16,
    r_ne: u16,
    r_w: u16,
    r_c: u16,
    r_e: u16,
    r_sw: u16,
    r_s: u16,
    r_se: u16,
) -> (w: u16)
    requires
        se_only(r_nw),
        se_only(r_n),
        se_only(r_ne),
        se_only(r_w),
        se_only(r_c),
        se_only(r_e),
        se_only(r_sw),
        se_only(r_s),
        se_only(r_se),
    ensures
        is_centered_assembly(w, seq![r_nw, r_n, r_ne, r_w, r_c, r_e, r_sw, r_s, r_se]),
{
    let w = (((r_nw as u32) << 15) | ((r_n as u32) << 13) | ((r_ne as u32) << 11) & 0x1000 | ((
    r_w as u32) << 7) & 0x0880 | ((r_c as u32) << 5) | ((r_e as u32) << 3) & 0x0110 | ((r_sw as u32)
        >> 1) & 0x0008 | (r_s as u32) >> 3 | (r_se as u32) >> 5) as u16;
    proof {
        lemma_centered_bits(r_nw, r_n, r_ne, r_w, r_c, r_e, r_sw, r_s, r_se, w);
        let rs = seq![r_nw, r_n, r_ne, r_w, r_c, r_e, r_sw, r_s, r_se];
        assert forall|r: int, c: int| 0 <= r < 4 && 0 <= c < 4 implies #[trigger] cell4(w, r, c)
            == se_cell(rs[3 * ((r + 1) / 2) + (c + 1) / 2], (r + 1) % 2, (c + 1) % 2) by {
            assert(0 <= r < 4 && 0 <= c < 4);
            if r == 0 {
                if c == 0 {
                } else if c == 1 {
                } else if c == 2 {
                } else {
                }
            } else if r == 1 {
                if c == 0 {
                } else if c == 1 {
                } else if c == 2 {
                } else {
                }
            } else if r == 2 {
                if c == 0 {
                } else if c == 1 {
                } else if c == 2 {
                } else {
                }
            } else {
                if c == 0 {
                } else if c == 1 {
                } else if c == 2 {
                } else {
                }
            }
        }
    }
    w
}

/// An 8x8 block as its four 4x4 quadrants.
#[derive(Clone, Copy)]
pub struct LeafQuadrants {
    pub nw: u16,
    pub ne: u16,
    pub sw: u16,
    pub se: u16,
}

/// Cell `(r, c)` (both 0..8) of an 8x8 block.
pub open spec fn cell8q(q: LeafQuadrants, r: int, c: int) -> bool {
    cell8(q.nw, q.ne, q.sw, q.se, r, c)
}

/// The next generation of cell `(r, c)` (both 1..7) of an 8x8 block.
#[verifier::opaque]
pub open spec fn next8(q: LeafQuadrants, r: int, c: int) -> bool {
    life_rule(
        cell8q(q, r, c),
        b2i(cell8q(q, r - 1, c - 1)) + b2i(cell8q(q, r - 1, c)) + b2i(cell8q(q, r - 1, c + 1))
            + b2i(cell8q(q, r, c - 1)) + b2i(cell8q(q, r, c + 1)) + b2i(cell8q(q, r + 1, c - 1))
            + b2i(cell8q(q, r + 1, c)) + b2i(cell8q(q, r + 1, c + 1)),
    )
}

/// The generation after the next of cell `(r, c)` (both 2..6) of an 8x8 block.
#[verifier::opaque]
pub open spec fn next8_2(q: LeafQuadrants, r: int, c: int) -> bool {
    life_rule(
        next8(q, r, c),
        b2i(next8(q, r - 1, c - 1)) + b2i(next8(q, r - 1, c)) + b2i(next8(q, r - 1, c + 1))
            + b2i(next8(q, r, c - 1)) + b2i(next8(q, r, c + 1)) + b2i(next8(q, r + 1, c - 1))
            + b2i(next8(q, r + 1, c)) + b2i(next8(q, r + 1, c + 1)),
    )
}

/// The rule-table entry of the window at `(r0, c0)` of an 8x8 block holds the next
/// generation of the window's inner 2x2.
pub proof fn lemma_window_next(w: u16, q: LeafQuadrants, r0: int, c0: int)
    requires
        is_window(w, q.nw, q.ne, q.sw, q.se, r0, c0),
        0 <= r0 <= 4,
        0 <= c0 <= 4,
    ensures
        se_only(spec_advance_4x4(w)),
        forall|dr: int, dc: int|
            0 <= dr < 2 && 0 <= dc < 2 ==> #[trigger] se_cell(spec_advance_4x4(w), dr, dc) == next8(
                q,
                r0 + 1 + dr,
                c0 + 1 + dc,
            ),
{
    lemma_advance_4x4_se_only(w);
    assert forall|dr: int, dc: int| 0 <= dr < 2 && 0 <= dc < 2 implies #[trigger] se_cell(
        spec_advance_4x4(w),
        dr,
        dc,
    ) == next8(q, r0 + 1 + dr, c0 + 1 + dc) by {
        reveal(next8);
        let r = 1 + dr;
        let c = 1 + dc;
        assert(cell4(w, r, c) == cell8q(q, r0 + r, c0 + c));
        assert(cell4(w, r - 1, c - 1) == cell8q(q, r0 + r - 1, c0 + c - 1));
        assert(cell4(w, r - 1, c) == cell8q(q, r0 + r - 1, c0 + c));
        assert(cell4(w, r - 1, c + 1) == cell8q(q, r0 + r - 1, c0 + c + 1));
        assert(cell4(w, r, c - 1) == cell8q(q, r0 + r, c0 + c - 1));
        assert(cell4(w, r, c + 1) == cell8q(q, r0 + r, c0 + c + 1));
        assert(cell4(w, r + 1, c - 1) == cell8q(q, r0 + r + 1, c0 + c - 1));
        assert(cell4(w, r + 1, c) == cell8q(q, r0 + r + 1, c0 + c));
        assert(cell4(w, r + 1, c + 1) == cell8q(q, r0 + r + 1, c0 + c + 1));
        if dr == 0 && dc == 0 {
        } else if dr == 0 {
        } else if dc == 0 {
        } else {
        }
    }
}

/// The nine first-generation results of an 8x8 block's 3x3 overlapping windows.
#[derive(Clone, Copy)]
pub struct FirstGenResults {
    pub nw: u16,
    pub n: u16,
    pub ne: u16,
    pub w: u16,
    pub center: u16,
    pub e: u16,
    pub sw: u16,
    pub s: u16,
    pub se: u16,
}

/// The nine results in row-major window order.
pub open spec fn first_gen_seq(g: FirstGenResults) -> Seq<u16> {
    seq![g.nw, g.n, g.ne, g.w, g.center, g.e, g.sw, g.s, g.se]
}

/// Window `k` (row `k / 3`, column `k % 3`) sits at `(2 (k / 3), 2 (k % 3))` and its
/// result holds the next generation of the 8x8 cells `(2 (k / 3) + 1 + dr, 2 (k % 3) + 1 + dc)`.
pub open spec fn first_gen_correct(g: FirstGenResults, q: LeafQuadrants) -> bool {
    forall|k: int, dr: int, dc: int|
        0 <= k < 9 && 0 <= dr < 2 && 0 <= dc < 2 ==> se_only(#[trigger] first_gen_seq(g)[k])
            && #[trigger] se_cell(first_gen_seq(g)[k], dr, dc) == next8(
            q,
            2 * (k / 3) + 1 + dr,
            2 * (k % 3) + 1 + dc,
        )
}

/// The table holds `spec_advance_4x4` for every block.
pub open spec fn is_rule_table(table: Seq<u16>) -> bool {
    table.len() == 65536 && forall|p: u16| #[trigger] table[p as int] == spec_advance_4x4(p)
}

/// Looks up the nine overlapping 4x4 windows of an 8x8 block in the rule table.
pub fn compute_first_generation(table: &Vec<u16>, q: &LeafQuadrants) -> (g: FirstGenResults)
    requires
        is_rule_table(table@),
    ensures
        first_gen_correct(g, *q),
{
    let w_n = window_n(q.nw, q.ne);
    let w_w = window_w(q.nw, q.sw);
    let w_c = window_center(q.nw, q.ne, q.sw, q.se);
    let w_e = window_e(q.ne, q.se);
    let w_s = window_s(q.sw, q.se);
    let g = FirstGenResults {
        nw: table[q.nw as usize],
        n: table[w_n as usize],
        ne: table[q.ne as usize],
        w: table[w_w as usize],
        center: table[w_c as usize],
        e: table[w_e as usize],
        sw: table[q.sw as usize],
        s: table[w_s as usize],
        se: table[q.se as usize],
    };
    proof {
        assert(is_window(q.nw, q.nw, q.ne, q.sw, q.se, 0, 0));
        assert(is_window(q.ne, q.nw, q.ne, q.sw, q.se, 0, 4));
        assert(is_window(q.sw, q.nw, q.ne, q.sw, q.se, 4, 0));
        assert(is_window(q.se, q.nw, q.ne, q.sw, q.se, 4, 4));
        assert(is_window(w_n, q.nw, q.ne, q.sw, q.se, 0, 2));
        assert(is_window(w_w, q.nw, q.ne, q.sw, q.se, 2, 0));
        assert(is_window(w_e, q.nw, q.ne, q.sw, q.se, 2, 4));
        assert(is_window(w_s, q.nw, q.ne, q.sw, q.se, 4, 2));
        lemma_window_next(q.nw, *q, 0, 0);
        lemma_window_next(w_n, *q, 0, 2);
        lemma_window_next(q.ne, *q, 0, 4);
        lemma_window_next(w_w, *q, 2, 0);
        lemma_window_next(w_c, *q, 2, 2);
        lemma_window_next(w_e, *q, 2, 4);
        lemma_window_next(q.sw, *q, 4, 0);
        lemma_window_next(w_s, *q, 4, 2);
        lemma_window_next(q.se, *q, 4, 4);
        assert forall|k: int, dr: int, dc: int| 0 <= k < 9 && 0 <= dr < 2 && 0 <= dc < 2 implies se_only(
            #[trigger] first_gen_seq(g)[k],
        ) && #[trigger] se_cell(first_gen_seq(g)[k], dr, dc) == next8(
            *q,
            2 * (k / 3) + 1 + dr,
            2 * (k % 3) + 1 + dc,
        ) by {
            if k == 0 {
            } else if k == 1 {
            } else if k == 2 {
            } else if k == 3 {
            } else if k == 4 {
            } else if k == 5 {
            } else if k == 6 {
            } else if k == 7 {
            } else {
            }
        }
    }
    g
}

/// The centred assembly of the nine first-generation results is the next
/// generation of the central 4x4 of the 8x8 block.
pub proof fn lemma_one_gen_word(g: FirstGenResults, q: LeafQuadrants, res: u16)
    requires
        first_gen_correct(g, q),
        is_centered_assembly(res, first_gen_seq(g)),
    ensures
        forall|r: int, c: int| 0 <= r < 4 && 0 <= c < 4 ==> #[trigger] cell4(res, r, c) == next8(q, r + 2, c + 2),
{
    assert forall|r: int, c: int| 0 <= r < 4 && 0 <= c < 4 implies #[trigger] cell4(res, r, c) == next8(
        q,
        r + 2,
        c + 2,
    ) by {
        let k = 3 * ((r + 1) / 2) + (c + 1) / 2;
        let dr = (r + 1) % 2;
        let dc = (c + 1) % 2;
        assert(se_cell(first_gen_seq(g)[k], dr, dc) == next8(q, 2 * (k / 3) + 1 + dr, 2 * (k % 3) + 1 + dc));
        assert(k / 3 == (r + 1) / 2 && k % 3 == (c + 1) / 2);
    }
}

/// A 4x4 word is the window of the first generation at `(r0, c0)`.
pub open spec fn is_gen1_window(x: u16, q: LeafQuadrants, r0: int, c0: int) -> bool {
    forall|r: int, c: int| 0 <= r < 4 && 0 <= c < 4 ==> #[trigger] cell4(x, r, c) == next8(q, r0 + r, c0 + c)
}

/// Four adjacent first-generation results, assembled, form a window of the first generation.
pub proof fn lemma_gen1_window(g: FirstGenResults, q: LeafQuadrants, x: u16, k: int)
    requires
        first_gen_correct(g, q),
        k == 0 || k == 1 || k == 3 || k == 4,
        is_quad_assembly(x, first_gen_seq(g)[k], first_gen_seq(g)[k + 1], first_gen_seq(g)[k + 3], first_gen_seq(g)[k + 4]),
    ensures
        is_gen1_window(x, q, 2 * (k / 3) + 1, 2 * (k % 3) + 1),
{
    assert forall|r: int, c: int| 0 <= r < 4 && 0 <= c < 4 implies #[trigger] cell4(x, r, c) == next8(
        q,
        2 * (k / 3) + 1 + r,
        2 * (k % 3) + 1 + c,
    ) by {
        let kk = k + 3 * (r / 2) + c / 2;
        assert(se_cell(first_gen_seq(g)[kk], r % 2, c % 2) == next8(q, 2 * (kk / 3) + 1 + r % 2, 2 * (kk % 3) + 1 + c % 2));
        assert(kk / 3 == k / 3 + r / 2 && kk % 3 == k % 3 + c / 2);
    }
}

/// The rule-table entry of a first-generation window holds the second
/// generation of its inner 2x2.
pub proof fn lemma_gen2_window(x: u16, q: LeafQuadrants, r0: int, c0: int)
    requires
        is_gen1_window(x, q, r0, c0),
        1 <= r0 <= 3,
        1 <= c0 <= 3,
    ensures
        se_only(spec_advance_4x4(x)),
        forall|dr: int, dc: int|
            0 <= dr < 2 && 0 <= dc < 2 ==> #[trigger] se_cell(spec_advance_4x4(x), dr, dc) == next8_2(
                q,
                r0 + 1 + dr,
                c0 + 1 + dc,
            ),
{
    lemma_advance_4x4_se_only(x);
    assert forall|dr: int, dc: int| 0 <= dr < 2 && 0 <= dc < 2 implies #[trigger] se_cell(
        spec_advance_4x4(x),
        dr,
        dc,
    ) == next8_2(q, r0 + 1 + dr, c0 + 1 + dc) by {
        reveal(next8_2);
        let r = 1 + dr;
        let c = 1 + dc;
        assert(cell4(x, r, c) == next8(q, r0 + r, c0 + c));
        assert(cell4(x, r - 1, c - 1) == next8(q, r0 + r - 1, c0 + c - 1));
        assert(cell4(x, r - 1, c) == next8(q, r0 + r - 1, c0 + c));
        assert(cell4(x, r - 1, c + 1) == next8(q, r0 + r - 1, c0 + c + 1));
        assert(cell4(x, r, c - 1) == next8(q, r0 + r, c0 + c - 1));
        assert(cell4(x, r, c + 1) == next8(q, r0 + r, c0 + c + 1));
        assert(cell4(x, r + 1, c - 1) == next8(q, r0 + r + 1, c0 + c - 1));
        assert(cell4(x, r + 1, c) == next8(q, r0 + r + 1, c0 + c));
        assert(cell4(x, r + 1, c + 1) == next8(q, r0 + r + 1, c0 + c + 1));
        if dr == 0 && dc == 0 {
        } else if dr == 0 {
        } else if dc == 0 {
        } else {
        }
    }
}

/// Assembling the four second-generation results gives the second generation
/// of the central 4x4 of the 8x8 block.
pub proof fn lemma_two_gen_word(
    q: LeafQuadrants,
    x_nw: u16,
    x_ne: u16,
    x_sw: u16,
    x_se: u16,
    res: u16,
)
    requires
        is_gen1_window(x_nw, q, 1, 1),
        is_gen1_window(x_ne, q, 1, 3),
        is_gen1_window(x_sw, q, 3, 1),
        is_gen1_window(x_se, q, 3, 3),
        is_quad_assembly(
            res,
            spec_advance_4x4(x_nw),
            spec_advance_4x4(x_ne),
            spec_advance_4x4(x_sw),
            spec_advance_4x4(x_se),
        ),
    ensures
        forall|r: int, c: int| 0 <= r < 4 && 0 <= c < 4 ==> #[trigger] cell4(res, r, c) == next8_2(q, r + 2, c + 2),
{
    lemma_gen2_window(x_nw, q, 1, 1);
    lemma_gen2_window(x_ne, q, 1, 3);
    lemma_gen2_window(x_sw, q, 3, 1);
    lemma_gen2_window(x_se, q, 3, 3);
    assert forall|r: int, c: int| 0 <= r < 4 && 0 <= c < 4 implies #[trigger] cell4(res, r, c) == next8_2(
        q,
        r + 2,
        c + 2,
    ) by {
        if r < 2 {
            if c < 2 {
                assert(se_cell(spec_advance_4x4(x_nw), r % 2, c % 2) == next8_2(q, 2 + r % 2, 2 + c % 2));
            } else {
                assert(se_cell(spec_advance_4x4(x_ne), r % 2, c % 2) == next8_2(q, 2 + r % 2, 4 + c % 2));
            }
        } else {
            if c < 2 {
                assert(se_cell(spec_advance_4x4(x_sw), r % 2, c % 2) == next8_2(q, 4 + r % 2, 2 + c % 2));
            } else {
                assert(se_cell(spec_advance_4x4(x_se), r % 2, c % 2) == next8_2(q, 4 + r % 2, 4 + c % 2));
            }
        }
    }
}

} // verus!
