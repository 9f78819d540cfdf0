//! Rendering the quadtree into viewport bitmaps: one bit per cell, row by
//! row, least significant bit first within each byte.

use vstd::prelude::*;
use crate::arith::{pow2, lemma_shl_u32, lemma_pow2_mono, lemma_pow2_32_64};
use crate::hashlife::cache::{HashLifeCache, FALSE_NODE, TRUE_NODE, alive_at, child_of, quadrant};

verus! {

/// Bit `p` of a bitmap.
pub open spec fn bit_at(bits: Seq<u8>, p: int) -> bool {
    (bits[p / 8] >> ((p % 8) as u8)) & 1 == 1
}

/// Bit `k` of a byte.
pub open spec fn byte_bit(v: u8, k: int) -> bool {
    (v >> (k as u8)) & 1 == 1
}

pub proof fn lemma_or_one(v: u8, j: u8, k: u8)
    by (bit_vector)
    requires
        j < 8,
        k < 8,
    ensures
        ((v | (1u8 << j)) >> k) & 1 == 1 <==> ((v >> k) & 1 == 1 || k == j),
{
}

proof fn lemma_or_head(v: u8, j: u8, k: u8)
    by (bit_vector)
    requires
        j < 8,
        k < 8,
    ensures
        ((v | (0xFFu8 << j)) >> k) & 1 == 1 <==> ((v >> k) & 1 == 1 || k >= j),
        v == 0 ==> (((0xFFu8 << j) >> k) & 1 == 1 <==> k >= j),
        v == 0 ==> (v >> k) & 1 == 0,
{
}

proof fn lemma_or_tail(v: u8, t: u8, k: u8)
    by (bit_vector)
    requires
        1 <= t < 8,
        k < 8,
    ensures
        ((v | (((1u8 << t) - 1) as u8)) >> k) & 1 == 1 <==> ((v >> k) & 1 == 1 || k < t),
        v == 0 ==> (((((1u8 << t) - 1) as u8) >> k) & 1 == 1 <==> k < t),
        v == 0 ==> (v >> k) & 1 == 0,
{
}

pub proof fn lemma_full_byte(v: u8, k: u8)
    by (bit_vector)
    requires
        k < 8,
    ensures
        ((0xFFu8 >> k) & 1 == 1),
        ((v | 0xFFu8) >> k) & 1 == 1,
        v == 0 ==> (v >> k) & 1 == 0,
        (v >> k) & 1 == 0 || (v >> k) & 1 == 1,
{
}

proof fn lemma_zero_byte(v: u8)
    by (bit_vector)
    requires
        (v >> 0u8) & 1 == 0,
        (v >> 1u8) & 1 == 0,
        (v >> 2u8) & 1 == 0,
        (v >> 3u8) & 1 == 0,
        (v >> 4u8) & 1 == 0,
        (v >> 5u8) & 1 == 0,
        (v >> 6u8) & 1 == 0,
        (v >> 7u8) & 1 == 0,
    ensures
        v == 0,
{
}

/// `bits` changed to `new` by setting exactly the bits `[s, e)`.
pub open spec fn set_range(old_bits: Seq<u8>, new_bits: Seq<u8>, s: int, e: int) -> bool {
    &&& new_bits.len() == old_bits.len()
    &&& forall|p: int|
        0 <= p < 8 * old_bits.len() ==> #[trigger] bit_at(new_bits, p) == (bit_at(old_bits, p) || (s <= p < e))
}

/// Sets bits `[s, e)` of `bits`, which are clear: bit by bit inside one byte;
/// otherwise whole bytes in the middle and masks for the first and last byte.
pub fn set_bit_range(bits: &mut [u8], s: usize, e: usize)
    requires
        s < e,
        e <= 8 * old(bits)@.len(),
        forall|p: int| s <= p < e ==> !#[trigger] bit_at(old(bits)@, p),
    ensures
        set_range(old(bits)@, final(bits)@, s as int, e as int),
{
    let ghost b0 = bits@;
    let max_byte = bits.len();
    let start_byte = s >> 3;
    let last = e - 1;
    let end_byte = last >> 3;
    assert(start_byte == s / 8 && end_byte == last / 8) by (bit_vector)
        requires
            start_byte == s >> 3,
            end_byte == last >> 3,
    ;
    let sb = if start_byte < max_byte - 1 { start_byte } else { max_byte - 1 };
    let eb = if end_byte < max_byte - 1 { end_byte } else { max_byte - 1 };
    if sb == eb {
        let mut i = s;
        while i < e
            invariant
                s <= i <= e,
                e <= 8 * b0.len(),
                max_byte == b0.len(),
                bits@.len() == b0.len(),
                forall|p: int| 0 <= p < 8 * b0.len() ==> #[trigger] bit_at(bits@, p) == (bit_at(b0, p) || (s <= p < i)),
            decreases e - i,
        {
            let byte = i >> 3;
            let k = (i & 7) as u8;
            assert(byte == i / 8 && k == i % 8) by (bit_vector)
                requires
                    byte == i >> 3,
                    k == (i & 7) as u8,
            ;
            if byte < max_byte {
                let ghost before = bits@;
                let v = bits[byte];
                bits[byte] = v | (1u8 << k);
                proof {
                    assert forall|p: int| 0 <= p < 8 * b0.len() implies #[trigger] bit_at(bits@, p) == (bit_at(b0, p) || (s
                        <= p < i + 1)) by {
                        assert(bit_at(before, p) == (bit_at(b0, p) || (s <= p < i)));
                        if p / 8 == byte as int {
                            let kk = (p % 8) as u8;
                            assert(kk as int == p % 8);
                            lemma_or_one(v, k, kk);
                            assert(before[p / 8] == v);
                            assert((p == i) == (kk == k));
                        } else {
                            assert(bits@[p / 8] == before[p / 8]);
                        }
                    }
                }
            }
            i = i + 1;
        }
        return;
    }
    proof {
        assert(sb == start_byte && eb == end_byte);
        assert(sb < eb);
    }
    let mut b = sb + 1;
    while b < eb
        invariant
            sb < b <= eb,
            eb < b0.len(),
            sb == s / 8,
            eb == (e - 1) / 8,
            bits@.len() == b0.len(),
            forall|p: int| s <= p < e ==> !#[trigger] bit_at(b0, p),
            forall|p: int|
                0 <= p < 8 * b0.len() ==> #[trigger] bit_at(bits@, p) == (bit_at(b0, p) || (8 * (sb + 1) <= p < 8 * b)),
        decreases eb - b,
    {
        let ghost before = bits@;
        let v = bits[b];
        if v == 0 {
            bits[b] = 0xFF;
        }
        proof {
            if v != 0 {
                assert forall|k: u8| k < 8 implies (v >> k) & 1 == 0 by {
                    let p = 8 * (b as int) + (k as int);
                    assert(p / 8 == b as int && p % 8 == k as int);
                    assert(!bit_at(b0, p));
                    assert(bit_at(before, p) == bit_at(b0, p));
                    assert(((p % 8) as u8) == k);
                    assert(before[p / 8] == v);
                    assert((v >> k) & 1 == 0 || (v >> k) & 1 == 1) by (bit_vector);
                }
                lemma_zero_byte(v);
            }
            assert forall|p: int| 0 <= p < 8 * b0.len() implies #[trigger] bit_at(bits@, p) == (bit_at(b0, p) || (8 * (sb
                + 1) <= p < 8 * (b + 1))) by {
                assert(bit_at(before, p) == (bit_at(b0, p) || (8 * (sb + 1) <= p < 8 * b)));
                if p / 8 == b as int {
                    lemma_full_byte(v, (p % 8) as u8);
                } else {
                    assert(bits@[p / 8] == before[p / 8]);
                }
            }
        }
        b = b + 1;
    }
    let ghost mid = bits@;
    let head_bit = (s & 7) as u8;
    assert(head_bit == s % 8) by (bit_vector)
        requires
            head_bit == (s & 7) as u8,
    ;
    let head_mask: u8 = 0xFFu8 << head_bit;
    let hv = bits[sb];
    if hv == 0 {
        bits[sb] = head_mask;
    } else {
        bits[sb] = hv | head_mask;
    }
    proof {
        assert forall|p: int| 0 <= p < 8 * b0.len() implies #[trigger] bit_at(bits@, p) == (bit_at(b0, p) || (s <= p < 8
            * eb)) by {
            assert(bit_at(mid, p) == (bit_at(b0, p) || (8 * (sb + 1) <= p < 8 * eb)));
            if p / 8 == sb as int {
                let k = (p % 8) as u8;
                assert(k as int == p % 8);
                lemma_or_head(hv, head_bit, k);
                assert(mid[p / 8] == hv);
                assert(bit_at(mid, p) == ((hv >> k) & 1 == 1));
                assert(bit_at(bits@, p) == ((bits@[sb as int] >> k) & 1 == 1));
                assert((s <= p) == (k >= head_bit));
                assert(!(8 * (sb + 1) <= p < 8 * eb));
            } else {
                assert(bits@[p / 8] == mid[p / 8]);
            }
        }
    }
    let ghost mid2 = bits@;
    let tail_bit = (e & 7) as u8;
    assert(tail_bit == e % 8) by (bit_vector)
        requires
            tail_bit == (e & 7) as u8,
    ;
    assert(tail_bit >= 1 ==> (1u8 << tail_bit) >= 2) by (bit_vector)
        requires
            tail_bit < 8,
    ;
    let tail_mask: u8 = if tail_bit == 0 { 0xFF } else { (1u8 << tail_bit) - 1 };
    let tv = bits[eb];
    if tv == 0 {
        bits[eb] = tail_mask;
    } else {
        bits[eb] = tv | tail_mask;
    }
    proof {
        assert forall|p: int| 0 <= p < 8 * b0.len() implies #[trigger] bit_at(bits@, p) == (bit_at(b0, p) || (s <= p < e)) by {
            assert(bit_at(mid2, p) == (bit_at(b0, p) || (s <= p < 8 * eb)));
            if p / 8 == eb as int {
                let k = (p % 8) as u8;
                assert(k as int == p % 8);
                assert(mid2[p / 8] == tv);
                assert(bit_at(mid2, p) == ((tv >> k) & 1 == 1));
                assert(bit_at(bits@, p) == ((bits@[eb as int] >> k) & 1 == 1));
                assert(!(s <= p < 8 * eb));
                if tail_bit == 0 {
                    lemma_full_byte(tv, k);
                    assert(e == 8 * (eb + 1));
                } else {
                    lemma_or_tail(tv, tail_bit, k);
                    assert((p < e) == (k < tail_bit));
                }
            } else {
                assert(bits@[p / 8] == mid2[p / 8]);
            }
        }
    }
}


/// Bit `p` of a `vw` x `vh` viewport at `(vx, vy)` is a cell of the square of
/// side `size` at `(ox, oy)`.
pub open spec fn covers(p: int, vx: int, vy: int, vw: int, vh: int, ox: int, oy: int, size: int) -> bool {
    &&& 0 <= p < vw * vh
    &&& ox <= vx + p % vw < ox + size
    &&& oy <= vy + p / vw < oy + size
}

/// The bitmap `new` is `old` with the viewport bits of the square of side
/// `2^depth` at `(ox, oy)` showing node `idx`'s cells, the other bits unchanged.
pub open spec fn filled(
    nodes: Seq<crate::hashlife::cache::LifeNode>,
    idx: u32,
    depth: nat,
    ox: int,
    oy: int,
    vx: int,
    vy: int,
    vw: int,
    vh: int,
    old_bits: Seq<u8>,
    new_bits: Seq<u8>,
) -> bool {
    &&& new_bits.len() == old_bits.len()
    &&& forall|p: int|
        0 <= p < 8 * old_bits.len() ==> #[trigger] bit_at(new_bits, p) == if covers(p, vx, vy, vw, vh, ox, oy, pow2(depth) as int) {
            alive_at(nodes, idx, depth, vx + p % vw - ox, vy + p / vw - oy)
        } else {
            bit_at(old_bits, p)
        }
}

proof fn lemma_view_index(p: int, vw: int, row: int, col: int)
    requires
        vw > 0,
        0 <= col < vw,
        p == row * vw + col,
    ensures
        p / vw == row,
        p % vw == col,
{
    vstd::arithmetic::div_mod::lemma_fundamental_div_mod_converse(p, vw, row, col);
}

/// `x` capped at `u64::MAX`.
pub open spec fn sat64(x: int) -> int {
    if x > u64::MAX {
        u64::MAX as int
    } else {
        x
    }
}

/// The bytes of a bitmap `vw` bits wide that rows `r0 .. r1` span between
/// columns `a` (inclusive) and `b` (exclusive), counted row by row.
pub open spec fn span_bytes(vw: int, r0: int, r1: int, a: int, b: int) -> int
    decreases r1 - r0,
{
    if r1 <= r0 || b <= a {
        0
    } else {
        span_bytes(vw, r0, r1 - 1, a, b) + ((r1 - 1) * vw + b - 1) / 8 - ((r1 - 1) * vw + a) / 8 + 1
    }
}

/// The bytes written for the uniform live blocks when node `idx` (read at
/// `depth`, its block at `(ox, oy)`) is drawn into the `vw` x `vh` viewport
/// at `(vx, vy)`: every all-alive block of the tree that meets the viewport
/// adds the bytes that its rows span there.
pub open spec fn true_fill_bytes(
    nodes: Seq<crate::hashlife::cache::LifeNode>,
    idx: u32,
    depth: nat,
    ox: int,
    oy: int,
    vx: int,
    vy: int,
    vw: int,
    vh: int,
) -> int
    decreases depth,
{
    let sz = pow2(depth) as int;
    if idx == FALSE_NODE || ox >= vx + vw || ox + sz <= vx || oy >= vy + vh || oy + sz <= vy {
        0
    } else if idx == TRUE_NODE {
        let rx = if ox > vx { ox } else { vx };
        let ry = if oy > vy { oy } else { vy };
        let rx2 = if ox + sz < vx + vw { ox + sz } else { vx + vw };
        let ry2 = if oy + sz < vy + vh { oy + sz } else { vy + vh };
        span_bytes(vw, ry - vy, ry2 - vy, rx - vx, rx2 - vx)
    } else if depth == 0 {
        0
    } else {
        let h = pow2((depth - 1) as nat) as int;
        let d = (depth - 1) as nat;
        true_fill_bytes(nodes, child_of(nodes, idx, 0), d, ox, oy, vx, vy, vw, vh) + true_fill_bytes(
            nodes,
            child_of(nodes, idx, 1),
            d,
            ox + h,
            oy,
            vx,
            vy,
            vw,
            vh,
        ) + true_fill_bytes(nodes, child_of(nodes, idx, 2), d, ox, oy + h, vx, vy, vw, vh) + true_fill_bytes(
            nodes,
            child_of(nodes, idx, 3),
            d,
            ox + h,
            oy + h,
            vx,
            vy,
            vw,
            vh,
        )
    }
}

proof fn lemma_span_bytes_nonneg(vw: int, r0: int, r1: int, a: int, b: int)
    ensures
        span_bytes(vw, r0, r1, a, b) >= 0,
    decreases r1 - r0,
{
    if !(r1 <= r0 || b <= a) {
        lemma_span_bytes_nonneg(vw, r0, r1 - 1, a, b);
        vstd::arithmetic::div_mod::lemma_div_is_ordered((r1 - 1) * vw + a, (r1 - 1) * vw + b - 1, 8);
    }
}

proof fn lemma_true_fill_nonneg(
    nodes: Seq<crate::hashlife::cache::LifeNode>,
    idx: u32,
    depth: nat,
    ox: int,
    oy: int,
    vx: int,
    vy: int,
    vw: int,
    vh: int,
)
    ensures
        true_fill_bytes(nodes, idx, depth, ox, oy, vx, vy, vw, vh) >= 0,
    decreases depth,
{
    let sz = pow2(depth) as int;
    if idx == FALSE_NODE || ox >= vx + vw || ox + sz <= vx || oy >= vy + vh || oy + sz <= vy {
    } else if idx == TRUE_NODE {
        let rx = if ox > vx { ox } else { vx };
        let ry = if oy > vy { oy } else { vy };
        let rx2 = if ox + sz < vx + vw { ox + sz } else { vx + vw };
        let ry2 = if oy + sz < vy + vh { oy + sz } else { vy + vh };
        lemma_span_bytes_nonneg(vw, ry - vy, ry2 - vy, rx - vx, rx2 - vx);
    } else if depth > 0 {
        let h = pow2((depth - 1) as nat) as int;
        let d = (depth - 1) as nat;
        lemma_true_fill_nonneg(nodes, child_of(nodes, idx, 0), d, ox, oy, vx, vy, vw, vh);
        lemma_true_fill_nonneg(nodes, child_of(nodes, idx, 1), d, ox + h, oy, vx, vy, vw, vh);
        lemma_true_fill_nonneg(nodes, child_of(nodes, idx, 2), d, ox, oy + h, vx, vy, vw, vh);
        lemma_true_fill_nonneg(nodes, child_of(nodes, idx, 3), d, ox + h, oy + h, vx, vy, vw, vh);
    }
}

/// Draws node `node_idx` (read at `depth`, its block at `(ox, oy)`) into the
/// bitmap of the `vw` x `vh` viewport at `(vx, vy)`, whose bits under the
/// block are clear. Returns the number of bytes written by uniform live blocks
/// (see `true_fill_bytes`), capped at `u64::MAX`.
pub fn fill_viewport(
    cache: &HashLifeCache,
    node_idx: u32,
    depth: u32,
    ox: u64,
    oy: u64,
    vx: u64,
    vy: u64,
    vw: u32,
    vh: u32,
    bits: &mut [u8],
) -> (tf: u64)
    requires
        depth <= 31,
        ox + pow2(depth as nat) <= u64::MAX,
        oy + pow2(depth as nat) <= u64::MAX,
        vx + vw <= u64::MAX,
        vy + vh <= u64::MAX,
        vw * vh <= 8 * old(bits)@.len(),
        vw * vh <= usize::MAX,
        forall|p: int|
            covers(p, vx as int, vy as int, vw as int, vh as int, ox as int, oy as int, pow2(depth as nat) as int) ==> !#[trigger] bit_at(
                old(bits)@,
                p,
            ),
    ensures
        filled(cache.nodes@, node_idx, depth as nat, ox as int, oy as int, vx as int, vy as int, vw as int, vh as int,
            old(bits)@, final(bits)@),
        tf as int == sat64(
            true_fill_bytes(cache.nodes@, node_idx, depth as nat, ox as int, oy as int, vx as int, vy as int, vw as int, vh as int),
        ),
    decreases depth,
{
    let ghost b0 = bits@;
    let ghost sz = pow2(depth as nat) as int;
    if node_idx == FALSE_NODE {
        return 0;
    }
    let size = 1u32 << depth;
    proof {
        lemma_shl_u32(depth);
    }
    if ox >= vx + vw as u64 || ox + size as u64 <= vx || oy >= vy + vh as u64 || oy + size as u64 <= vy {
        proof {
            assert forall|p: int| !covers(p, vx as int, vy as int, vw as int, vh as int, ox as int, oy as int, sz) by {
                if 0 <= p < vw * vh {
                    assert(vw > 0);
                    vstd::arithmetic::div_mod::lemma_fundamental_div_mod(p, vw as int);
                    assert(p / (vw as int) < vh) by (nonlinear_arith)
                        requires
                            0 <= p < vw * vh,
                            vw > 0,
                    ;
                }
            }
        }
        return 0;
    }
    if node_idx == TRUE_NODE {
        let rx = if ox > vx { ox } else { vx };
        let ry = if oy > vy { oy } else { vy };
        let rx2 = if ox + (size as u64) < vx + vw as u64 { ox + size as u64 } else { vx + vw as u64 };
        let ry2 = if oy + (size as u64) < vy + vh as u64 { oy + size as u64 } else { vy + vh as u64 };
        let mut tf_bytes: u64 = 0;
        let mut y = ry;
        proof {
            assert forall|p: int| 0 <= p < 8 * b0.len() implies #[trigger] bit_at(bits@, p) == (bit_at(b0, p) || (covers(
                p,
                vx as int,
                vy as int,
                vw as int,
                vh as int,
                ox as int,
                oy as int,
                sz,
            ) && vy + p / (vw as int) < y)) by {
                if covers(p, vx as int, vy as int, vw as int, vh as int, ox as int, oy as int, sz) {
                    assert(vw > 0);
                    vstd::arithmetic::div_mod::lemma_div_pos_is_pos(p, vw as int);
                }
            }
        }
        while y < ry2
            invariant
                ry <= y <= ry2,
                rx <= rx2,
                rx == ox || rx == vx,
                rx2 == ox + sz || rx2 == vx + vw,
                vx <= rx,
                rx2 <= vx + vw,
                rx2 <= ox + sz,
                ox <= rx,
                vy <= ry,
                ry2 <= vy + vh,
                ry2 <= oy + sz,
                oy <= ry,
                sz == pow2(depth as nat),
                vw * vh <= 8 * b0.len(),
                vw * vh <= usize::MAX,
                node_idx == TRUE_NODE,
                bits@.len() == b0.len(),
                tf_bytes as int == sat64(span_bytes(vw as int, ry - vy, y - vy, rx - vx, rx2 - vx)),
                forall|p: int|
                    covers(p, vx as int, vy as int, vw as int, vh as int, ox as int, oy as int, sz) ==> !#[trigger] bit_at(b0, p),
                forall|p: int|
                    0 <= p < 8 * b0.len() ==> #[trigger] bit_at(bits@, p) == (bit_at(b0, p) || (covers(
                        p,
                        vx as int,
                        vy as int,
                        vw as int,
                        vh as int,
                        ox as int,
                        oy as int,
                        sz,
                    ) && vy + p / (vw as int) < y)),
            decreases ry2 - y,
        {
            proof {
                assert((y - vy) * vw + vw <= vh * vw) by (nonlinear_arith)
                    requires
                        y < vy + vh,
                        vy <= y,
                ;
                assert(vh * vw == vw * vh) by (nonlinear_arith);
            }
            let row_base = ((y - vy) * vw as u64) as usize;
            let start_idx = row_base + (rx - vx) as usize;
            let end_idx = row_base + (rx2 - vx) as usize;
            let ghost before = bits@;
            proof {
                assert forall|p: int| start_idx <= p < end_idx implies !#[trigger] bit_at(before, p) by {
                    lemma_view_index(p, vw as int, (y - vy) as int, p - row_base);
                    assert(covers(p, vx as int, vy as int, vw as int, vh as int, ox as int, oy as int, sz)) by {
                        assert(p < vw * vh);
                    }
                    assert(!bit_at(b0, p));
                }
            }
            if start_idx < end_idx {
                set_bit_range(bits, start_idx, end_idx);
                let last = end_idx - 1;
                assert((last >> 3) >= (start_idx >> 3) && (last >> 3) <= last) by (bit_vector)
                    requires
                        last >= start_idx,
                ;
                assert((last >> 3) == last / 8 && (start_idx >> 3) == start_idx / 8) by (bit_vector);
                tf_bytes = tf_bytes.saturating_add(((last >> 3) - (start_idx >> 3) + 1) as u64);
                proof {
                    assert(row_base as int == (y - vy) * vw);
                    lemma_span_bytes_nonneg(vw as int, ry - vy, y - vy, rx - vx, rx2 - vx);
                }
            }
            proof {
                assert(span_bytes(vw as int, ry - vy, y + 1 - vy, rx - vx, rx2 - vx) == span_bytes(
                    vw as int,
                    ry - vy,
                    y - vy,
                    rx - vx,
                    rx2 - vx,
                ) + if start_idx < end_idx {
                    ((y - vy) * vw + (rx2 - vx) - 1) / 8 - ((y - vy) * vw + (rx - vx)) / 8 + 1
                } else {
                    0
                });
            }
            proof {
                assert forall|p: int| 0 <= p < 8 * b0.len() implies #[trigger] bit_at(bits@, p) == (bit_at(b0, p) || (covers(
                    p,
                    vx as int,
                    vy as int,
                    vw as int,
                    vh as int,
                    ox as int,
                    oy as int,
                    sz,
                ) && vy + p / (vw as int) < y + 1)) by {
                    assert(bit_at(bits@, p) == (bit_at(before, p) || (start_idx <= p < end_idx)));
                    if start_idx <= p < end_idx {
                        assert(vw > 0);
                        lemma_view_index(p, vw as int, (y - vy) as int, p - row_base);
                        assert(p < vw * vh);
                    } else if covers(p, vx as int, vy as int, vw as int, vh as int, ox as int, oy as int, sz) && vy + p
                        / (vw as int) == y {
                        assert(vw > 0);
                        vstd::arithmetic::div_mod::lemma_fundamental_div_mod(p, vw as int);
                        let q = p / (vw as int);
                        assert(q == y - vy);
                        assert(p == (y - vy) * vw + p % (vw as int)) by (nonlinear_arith)
                            requires
                                p == vw * q + p % (vw as int),
                                q == y - vy,
                        ;
                        assert(row_base as int == (y - vy) * vw);
                        assert(rx - vx <= p % (vw as int) < rx2 - vx);
                        assert(start_idx <= p < end_idx);
                        assert(false);
                    }
                }
            }
            y = y + 1;
        }
        proof {
            assert forall|p: int| 0 <= p < 8 * b0.len() implies #[trigger] bit_at(bits@, p) == if covers(
                p,
                vx as int,
                vy as int,
                vw as int,
                vh as int,
                ox as int,
                oy as int,
                sz,
            ) {
                alive_at(cache.nodes@, node_idx, depth as nat, vx + p % (vw as int) - ox, vy + p / (vw as int) - oy)
            } else {
                bit_at(b0, p)
            } by {
                if covers(p, vx as int, vy as int, vw as int, vh as int, ox as int, oy as int, sz) {
                    assert(p / (vw as int) < vh) by (nonlinear_arith)
                        requires
                            0 <= p < vw * vh,
                            vw > 0,
                    ;
                    assert(!bit_at(b0, p));
                }
            }
        }
        return tf_bytes;
    }
    if depth == 0 {
        if ox >= vx && oy >= vy && ox < vx + vw as u64 && oy < vy + vh as u64 {
            proof {
                assert((oy - vy) * vw + (ox - vx) < vw * vh) by (nonlinear_arith)
                    requires
                        oy - vy < vh,
                        ox - vx < vw,
                        0 <= oy - vy,
                        0 <= ox - vx,
                ;
            }
            let idx = ((oy - vy) * vw as u64 + (ox - vx)) as usize;
            let byte = idx / 8;
            if byte < bits.len() {
                let k = (idx % 8) as u8;
                let v = bits[byte];
                bits[byte] = v | (1u8 << k);
                proof {
                    assert forall|p: int| 0 <= p < 8 * b0.len() implies #[trigger] bit_at(bits@, p) == if covers(
                        p,
                        vx as int,
                        vy as int,
                        vw as int,
                        vh as int,
                        ox as int,
                        oy as int,
                        sz,
                    ) {
                        alive_at(cache.nodes@, node_idx, depth as nat, vx + p % (vw as int) - ox, vy + p / (vw as int) - oy)
                    } else {
                        bit_at(b0, p)
                    } by {
                        crate::arith::lemma_pow2_small();
                        lemma_view_index(idx as int, vw as int, (oy - vy) as int, (ox - vx) as int);
                        if p / 8 == byte as int {
                            let kk = (p % 8) as u8;
                            assert(kk as int == p % 8);
                            lemma_or_one(v, k, kk);
                            assert(b0[p / 8] == v);
                            assert((p == idx) == (kk == k));
                        } else {
                            assert(bits@[p / 8] == b0[p / 8]);
                        }
                        if covers(p, vx as int, vy as int, vw as int, vh as int, ox as int, oy as int, sz) {
                            vstd::arithmetic::div_mod::lemma_fundamental_div_mod(p, vw as int);
                            let q = p / (vw as int);
                            let r = p % (vw as int);
                            assert(q == oy - vy && r == ox - vx);
                            assert(p == (oy - vy) * vw + (ox - vx)) by (nonlinear_arith)
                                requires
                                    p == vw * q + r,
                                    q == oy - vy,
                                    r == ox - vx,
                            ;
                            assert(p == idx);
                        }
                    }
                }
            }
        }
        proof {
            crate::arith::lemma_pow2_small();
        }
        return 0;
    }
    let node = cache.get_node(node_idx);
    let half = 1u32 << (depth - 1);
    proof {
        lemma_shl_u32((depth - 1) as u32);
        assert(pow2(depth as nat) == 2 * pow2((depth - 1) as nat));
    }
    let ghost h = half as int;
    let ghost d = (depth - 1) as nat;
    let ghost vxi = vx as int;
    let ghost vyi = vy as int;
    let ghost vwi = vw as int;
    let ghost vhi = vh as int;
    let ghost oxi = ox as int;
    let ghost oyi = oy as int;
    let t0 = fill_viewport(cache, node.north_west, depth - 1, ox, oy, vx, vy, vw, vh, bits);
    let ghost b1 = bits@;
    proof {
        assert forall|p: int| covers(p, vxi, vyi, vwi, vhi, oxi + h, oyi, h) implies !#[trigger] bit_at(b1, p) by {
            assert(covers(p, vxi, vyi, vwi, vhi, oxi, oyi, sz));
            assert(!bit_at(b0, p));
        }
    }
    let t1 = fill_viewport(cache, node.north_east, depth - 1, ox + half as u64, oy, vx, vy, vw, vh, bits);
    let ghost b2 = bits@;
    proof {
        assert forall|p: int| covers(p, vxi, vyi, vwi, vhi, oxi, oyi + h, h) implies !#[trigger] bit_at(b2, p) by {
            assert(covers(p, vxi, vyi, vwi, vhi, oxi, oyi, sz));
            assert(!bit_at(b0, p));
            assert(bit_at(b1, p) == bit_at(b0, p));
        }
    }
    let t2 = fill_viewport(cache, node.south_west, depth - 1, ox, oy + half as u64, vx, vy, vw, vh, bits);
    let ghost b3 = bits@;
    proof {
        assert forall|p: int| covers(p, vxi, vyi, vwi, vhi, oxi + h, oyi + h, h) implies !#[trigger] bit_at(b3, p) by {
            assert(covers(p, vxi, vyi, vwi, vhi, oxi, oyi, sz));
            assert(!bit_at(b0, p));
            assert(bit_at(b1, p) == bit_at(b0, p));
            assert(bit_at(b2, p) == bit_at(b1, p));
        }
    }
    let t3 = fill_viewport(cache, node.south_east, depth - 1, ox + half as u64, oy + half as u64, vx, vy, vw, vh, bits);
    proof {
        let nodes = cache.nodes@;
        assert forall|p: int| 0 <= p < 8 * b0.len() implies #[trigger] bit_at(bits@, p) == if covers(
            p,
            vxi,
            vyi,
            vwi,
            vhi,
            oxi,
            oyi,
            sz,
        ) {
            alive_at(nodes, node_idx, depth as nat, vxi + p % vwi - oxi, vyi + p / vwi - oyi)
        } else {
            bit_at(b0, p)
        } by {
            assert(bit_at(b1, p) == if covers(p, vxi, vyi, vwi, vhi, oxi, oyi, h) {
                alive_at(nodes, node.north_west, d, vxi + p % vwi - oxi, vyi + p / vwi - oyi)
            } else {
                bit_at(b0, p)
            });
            assert(bit_at(b2, p) == if covers(p, vxi, vyi, vwi, vhi, oxi + h, oyi, h) {
                alive_at(nodes, node.north_east, d, vxi + p % vwi - (oxi + h), vyi + p / vwi - oyi)
            } else {
                bit_at(b1, p)
            });
            assert(bit_at(b3, p) == if covers(p, vxi, vyi, vwi, vhi, oxi, oyi + h, h) {
                alive_at(nodes, node.south_west, d, vxi + p % vwi - oxi, vyi + p / vwi - (oyi + h))
            } else {
                bit_at(b2, p)
            });
            assert(bit_at(bits@, p) == if covers(p, vxi, vyi, vwi, vhi, oxi + h, oyi + h, h) {
                alive_at(nodes, node.south_east, d, vxi + p % vwi - (oxi + h), vyi + p / vwi - (oyi + h))
            } else {
                bit_at(b3, p)
            });
            assert(d + 1 == depth as nat);
        }
    }
    proof {
        let nodes = cache.nodes@;
        lemma_true_fill_nonneg(nodes, node.north_west, d, oxi, oyi, vxi, vyi, vwi, vhi);
        lemma_true_fill_nonneg(nodes, node.north_east, d, oxi + h, oyi, vxi, vyi, vwi, vhi);
        lemma_true_fill_nonneg(nodes, node.south_west, d, oxi, oyi + h, vxi, vyi, vwi, vhi);
        lemma_true_fill_nonneg(nodes, node.south_east, d, oxi + h, oyi + h, vxi, vyi, vwi, vhi);
        assert(child_of(nodes, node_idx, 0) == node.north_west);
        assert(child_of(nodes, node_idx, 1) == node.north_east);
        assert(child_of(nodes, node_idx, 2) == node.south_west);
        assert(child_of(nodes, node_idx, 3) == node.south_east);
    }
    t0.saturating_add(t1).saturating_add(t2).saturating_add(t3)
}


/// `new` is `old` with some bits set and none cleared, and only bits below `limit` touched.
pub open spec fn only_set_below(old_bits: Seq<u8>, new_bits: Seq<u8>, limit: int) -> bool {
    &&& new_bits.len() == old_bits.len()
    &&& forall|p: int|
        0 <= p < 8 * old_bits.len() ==> (bit_at(old_bits, p) ==> #[trigger] bit_at(new_bits, p)) && (p >= limit
            ==> bit_at(new_bits, p) == bit_at(old_bits, p))
}

proof fn lemma_or_keeps(v: u8, m: u8, k: u8)
    by (bit_vector)
    requires
        k < 8,
    ensures
        (v >> k) & 1 == 1 ==> ((v | m) >> k) & 1 == 1,
        v != 0 || ((m >> k) & 1 == 1) == (((v | m) >> k) & 1 == 1),
{
}

/// Marks bits `[s, e)` of `bits` as the aggregated fill does: bit by bit inside
/// one byte; otherwise whole bytes in the middle and masks for the first and
/// last byte. Every other bit is left as it was.
fn set_agg_range(bits: &mut [u8], s: usize, e: usize)
    requires
        s < e,
        e <= 8 * old(bits)@.len(),
    ensures
        set_range(old(bits)@, final(bits)@, s as int, e as int),
        only_set_below(old(bits)@, final(bits)@, e as int),
        forall|p: int| 0 <= p < s ==> #[trigger] bit_at(final(bits)@, p) == bit_at(old(bits)@, p),
{
    let ghost b0 = bits@;
    let max_byte = bits.len();
    let start_byte = s >> 3;
    let last = e - 1;
    let end_byte = last >> 3;
    assert(start_byte == s / 8 && end_byte == last / 8) by (bit_vector)
        requires
            start_byte == s >> 3,
            end_byte == last >> 3,
    ;
    let sb = if start_byte < max_byte - 1 { start_byte } else { max_byte - 1 };
    let eb = if end_byte < max_byte - 1 { end_byte } else { max_byte - 1 };
    proof {
        assert(sb == start_byte && eb == end_byte);
    }
    if sb == eb {
        let mut i = s;
        while i < e
            invariant
                s <= i <= e,
                e <= 8 * b0.len(),
                max_byte == b0.len(),
                bits@.len() == b0.len(),
                forall|p: int| 0 <= p < 8 * b0.len() ==> #[trigger] bit_at(bits@, p) == (bit_at(b0, p) || (s <= p < i)),
            decreases e - i,
        {
            let byte = i >> 3;
            let k = (i & 7) as u8;
            assert(byte == i / 8 && k == i % 8) by (bit_vector)
                requires
                    byte == i >> 3,
                    k == (i & 7) as u8,
            ;
            if byte < max_byte {
                let ghost before = bits@;
                let v = bits[byte];
                bits[byte] = v | (1u8 << k);
                proof {
                    assert forall|p: int| 0 <= p < 8 * b0.len() implies #[trigger] bit_at(bits@, p) == (bit_at(b0, p) || (s
                        <= p < i + 1)) by {
                        assert(bit_at(before, p) == (bit_at(b0, p) || (s <= p < i)));
                        if p / 8 == byte as int {
                            let kk = (p % 8) as u8;
                            assert(kk as int == p % 8);
                            lemma_or_one(v, k, kk);
                            assert(before[p / 8] == v);
                            assert((p == i) == (kk == k));
                        } else {
                            assert(bits@[p / 8] == before[p / 8]);
                        }
                    }
                }
            }
            i = i + 1;
        }
        return;
    }
    let mut b = sb + 1;
    while b < eb
        invariant
            sb < b <= eb,
            eb < b0.len(),
            sb == s / 8,
            eb == last / 8,
            last == e - 1,
            bits@.len() == b0.len(),
            forall|j: int| 0 <= j < b0.len() && (j <= sb || j >= b) ==> #[trigger] bits@[j] == b0[j],
            forall|p: int|
                0 <= p < 8 * b0.len() ==> #[trigger] bit_at(bits@, p) == (bit_at(b0, p) || (8 * (sb + 1) <= p < 8 * b)),
        decreases eb - b,
    {
        let ghost before = bits@;
        let v = bits[b];
        bits[b] = 0xFF;
        proof {
            assert forall|p: int| 0 <= p < 8 * b0.len() implies #[trigger] bit_at(bits@, p) == (bit_at(b0, p) || (8 * (sb
                + 1) <= p < 8 * (b + 1))) by {
                assert(bit_at(before, p) == (bit_at(b0, p) || (8 * (sb + 1) <= p < 8 * b)));
                if p / 8 == b as int {
                    lemma_full_byte(v, (p % 8) as u8);
                } else {
                    assert(bits@[p / 8] == before[p / 8]);
                }
            }
        }
        b = b + 1;
    }
    let ghost mid = bits@;
    let head_bit = (s & 7) as u8;
    assert(head_bit == s % 8) by (bit_vector)
        requires
            head_bit == (s & 7) as u8,
    ;
    let head_mask: u8 = 0xFFu8 << head_bit;
    let hv = bits[sb];
    if hv == 0 {
        bits[sb] = head_mask;
    } else {
        bits[sb] = hv | head_mask;
    }
    proof {
        assert(hv == b0[sb as int]);
        assert forall|p: int| 0 <= p < 8 * b0.len() implies #[trigger] bit_at(bits@, p) == (bit_at(b0, p) || (s <= p < 8
            * eb)) by {
            assert(bit_at(mid, p) == (bit_at(b0, p) || (8 * (sb + 1) <= p < 8 * eb)));
            if p / 8 == sb as int {
                let k = (p % 8) as u8;
                assert(k as int == p % 8);
                lemma_or_head(hv, head_bit, k);
                assert(mid[p / 8] == hv);
                assert(bit_at(mid, p) == ((hv >> k) & 1 == 1));
                assert(bit_at(bits@, p) == ((bits@[sb as int] >> k) & 1 == 1));
                assert((s <= p) == (k >= head_bit));
                assert(!(8 * (sb + 1) <= p < 8 * eb));
            } else {
                assert(bits@[p / 8] == mid[p / 8]);
            }
        }
    }
    let ghost mid2 = bits@;
    let tail_bit = (e & 7) as u8;
    assert(tail_bit == e % 8) by (bit_vector)
        requires
            tail_bit == (e & 7) as u8,
    ;
    assert(tail_bit >= 1 ==> (1u8 << tail_bit) >= 2) by (bit_vector)
        requires
            tail_bit < 8,
    ;
    let tail_mask: u8 = if tail_bit == 0 { 0xFF } else { (1u8 << tail_bit) - 1 };
    let tv = bits[eb];
    if tv == 0 {
        bits[eb] = tail_mask;
    } else {
        bits[eb] = tv | tail_mask;
    }
    proof {
        assert(tv == b0[eb as int]);
        assert forall|p: int| 0 <= p < 8 * b0.len() implies #[trigger] bit_at(bits@, p) == (bit_at(b0, p) || (s <= p < e)) by {
            assert(bit_at(mid2, p) == (bit_at(b0, p) || (s <= p < 8 * eb)));
            if p / 8 == eb as int {
                let k = (p % 8) as u8;
                assert(k as int == p % 8);
                assert(mid2[p / 8] == tv);
                assert(bit_at(mid2, p) == ((tv >> k) & 1 == 1));
                assert(bit_at(bits@, p) == ((bits@[eb as int] >> k) & 1 == 1));
                assert(!(s <= p < 8 * eb));
                lemma_or_keeps(tv, tail_mask, k);
                if tail_bit == 0 {
                    lemma_full_byte(tv, k);
                    assert(e == 8 * (eb + 1));
                } else {
                    lemma_or_tail(tv, tail_bit, k);
                    assert((p < e) == (k < tail_bit));
                }
            } else {
                assert(bits@[p / 8] == mid2[p / 8]);
            }
        }
    }
}


/// Cell `(x, y)` of the plane is a live cell of node `idx` (read at `depth`)
/// placed with its corner at `(ox, oy)`.
pub open spec fn node_cell(nodes: Seq<crate::hashlife::cache::LifeNode>, idx: u32, depth: nat, ox: int, oy: int, x: int, y: int) -> bool {
    &&& ox <= x < ox + pow2(depth)
    &&& oy <= y < oy + pow2(depth)
    &&& alive_at(nodes, idx, depth, x - ox, y - oy)
}

/// The aggregated pixel (row by row, `agg_w` to a row) of cell `(x, y)` of the
/// viewport at `(vx, vy)` drawn at `scale`.
pub open spec fn agg_pixel(vx: int, vy: int, scale: int, agg_w: int, x: int, y: int) -> int {
    ((y - vy) / scale) * agg_w + (x - vx) / scale
}

/// Cell `(x, y)` lies in the `vw` x `vh` viewport at `(vx, vy)` and its pixel
/// in the `agg_w` x `agg_h` bitmap.
pub open spec fn agg_shows(vx: int, vy: int, vw: int, vh: int, scale: int, agg_w: int, agg_h: int, x: int, y: int) -> bool {
    &&& vx <= x < vx + vw
    &&& vy <= y < vy + vh
    &&& (x - vx) / scale < agg_w
    &&& (y - vy) / scale < agg_h
}

/// Pixel `p` of the `agg_w` x `agg_h` bitmap shows some live cell of node
/// `idx` (read at `depth`, its corner at `(ox, oy)`) inside the viewport.
pub open spec fn agg_lit(
    nodes: Seq<crate::hashlife::cache::LifeNode>,
    idx: u32,
    depth: nat,
    ox: int,
    oy: int,
    vx: int,
    vy: int,
    vw: int,
    vh: int,
    scale: int,
    agg_w: int,
    agg_h: int,
    p: int,
) -> bool {
    exists|x: int, y: int|
        #![trigger node_cell(nodes, idx, depth, ox, oy, x, y)]
        node_cell(nodes, idx, depth, ox, oy, x, y) && agg_shows(vx, vy, vw, vh, scale, agg_w, agg_h, x, y) && agg_pixel(
            vx,
            vy,
            scale,
            agg_w,
            x,
            y,
        ) == p
}

/// A pixel between those of `r` (rounded down) and `r2` (rounded up) shows
/// the cell `max(r, v + px s)`, which lies between `r` and `r2`.
proof fn lemma_pixel_cell(v: int, r: int, r2: int, px: int, s: int)
    requires
        v <= r <= r2,
        r == r2 ==> r == v,
        s >= 1,
        (r - v) / s <= px < (r2 - v + s - 1) / s,
    ensures
        ({
            let x = if r > v + px * s { r } else { v + px * s };
            &&& r <= x < r2
            &&& (x - v) / s == px
        }),
{
    let x = if r > v + px * s { r } else { v + px * s };
    if r == r2 {
        vstd::arithmetic::div_mod::lemma_fundamental_div_mod_converse(s - 1, s, 0, s - 1);
        vstd::arithmetic::div_mod::lemma_fundamental_div_mod_converse(0, s, 0, 0);
    }
    let a = r2 - v + s - 1;
    vstd::arithmetic::div_mod::lemma_fundamental_div_mod(a, s);
    vstd::arithmetic::div_mod::lemma_mod_pos_bound(a, s);
    vstd::arithmetic::div_mod::lemma_fundamental_div_mod(r - v, s);
    vstd::arithmetic::div_mod::lemma_mod_pos_bound(r - v, s);
    vstd::arithmetic::div_mod::lemma_div_pos_is_pos(r - v, s);
    assert(px * s < r2 - v) by (nonlinear_arith)
        requires
            a == s * (a / s) + a % s,
            0 <= a % s < s,
            px < a / s,
            a == r2 - v + s - 1,
            s >= 1,
    ;
    assert(r - v < (px + 1) * s) by (nonlinear_arith)
        requires
            r - v == s * ((r - v) / s) + (r - v) % s,
            0 <= (r - v) % s < s,
            (r - v) / s <= px,
            s >= 1,
    ;
    assert((px + 1) * s == px * s + s) by (nonlinear_arith);
    assert(0 <= x - v - px * s < s);
    vstd::arithmetic::div_mod::lemma_fundamental_div_mod_converse(x - v, s, px, x - v - px * s);
}

/// A pixel of the bitmap lies below its size.
proof fn lemma_pixel_bound(px: int, py: int, agg_w: int, agg_h: int)
    requires
        0 <= px < agg_w,
        0 <= py < agg_h,
    ensures
        0 <= py * agg_w + px < agg_w * agg_h,
{
    assert(0 <= py * agg_w + px < agg_w * agg_h) by (nonlinear_arith)
        requires
            0 <= px < agg_w,
            0 <= py < agg_h,
    ;
}

/// A cell between `r` and `r2` (from `v` on) has its pixel between those of
/// `r` (rounded down) and `r2` (rounded up).
proof fn lemma_pixel_span(v: int, r: int, r2: int, x: int, s: int)
    requires
        v <= r <= x < r2,
        s >= 1,
    ensures
        (r - v) / s <= (x - v) / s < (r2 - v + s - 1) / s,
{
    vstd::arithmetic::div_mod::lemma_div_is_ordered(r - v, x - v, s);
    vstd::arithmetic::div_mod::lemma_div_is_ordered(x - v, r2 - v - 1, s);
    let a = r2 - v - 1;
    assert((a + s) / s == a / s + 1) by {
        vstd::arithmetic::div_mod::lemma_fundamental_div_mod(a, s);
        vstd::arithmetic::div_mod::lemma_mod_pos_bound(a, s);
        assert(a + s == s * (a / s + 1) + a % s) by (nonlinear_arith)
            requires
                a == s * (a / s) + a % s,
        ;
        vstd::arithmetic::div_mod::lemma_fundamental_div_mod_converse(a + s, s, a / s + 1, a % s);
    }
}

/// Draws node `node_idx` (read at `depth`, its block at `(ox, oy)`) into the
/// aggregated bitmap of the `vw` x `vh` viewport at `(vx, vy)`: cell `(x, y)`
/// lights pixel `((x - vx) / scale, (y - vy) / scale)` of the `agg_w` x `agg_h`
/// bitmap (row by row). Bits are only ever set, only below `agg_w agg_h`, and
/// exactly on the pixels that show a live cell.
pub fn fill_aggregated_viewport(
    cache: &HashLifeCache,
    node_idx: u32,
    depth: u32,
    ox: u64,
    oy: u64,
    vx: u64,
    vy: u64,
    vw: u32,
    vh: u32,
    scale: u32,
    agg_w: u32,
    agg_h: u32,
    agg: &mut [u8],
)
    requires
        depth <= 31,
        scale >= 1,
        ox + pow2(depth as nat) <= u64::MAX,
        oy + pow2(depth as nat) <= u64::MAX,
        vx + vw <= u64::MAX,
        vy + vh <= u64::MAX,
        agg_w * agg_h <= 8 * old(agg)@.len(),
        agg_w * agg_h <= usize::MAX,
    ensures
        only_set_below(old(agg)@, final(agg)@, agg_w * agg_h),
        forall|x: int, y: int|
            #![trigger node_cell(cache.nodes@, node_idx, depth as nat, ox as int, oy as int, x, y)]
            node_cell(cache.nodes@, node_idx, depth as nat, ox as int, oy as int, x, y) && agg_shows(vx as int, vy as int,
                vw as int, vh as int, scale as int, agg_w as int, agg_h as int, x, y) ==> bit_at(final(agg)@, agg_pixel(
                vx as int,
                vy as int,
                scale as int,
                agg_w as int,
                x,
                y,
            )),
        forall|p: int|
            0 <= p < 8 * old(agg)@.len() && #[trigger] bit_at(final(agg)@, p) && !bit_at(old(agg)@, p) ==> agg_lit(
                cache.nodes@,
                node_idx,
                depth as nat,
                ox as int,
                oy as int,
                vx as int,
                vy as int,
                vw as int,
                vh as int,
                scale as int,
                agg_w as int,
                agg_h as int,
                p,
            ),
    decreases depth,
{
    let ghost a0 = agg@;
    let ghost nodes = cache.nodes@;
    if node_idx == FALSE_NODE {
        return;
    }
    let size = 1u32 << depth;
    proof {
        lemma_shl_u32(depth);
    }
    if ox >= vx + vw as u64 || ox + size as u64 <= vx || oy >= vy + vh as u64 || oy + size as u64 <= vy {
        return;
    }
    let s = scale as u64;
    if node_idx == TRUE_NODE {
        let rx = if ox > vx { ox } else { vx };
        let ry = if oy > vy { oy } else { vy };
        let rx2 = if ox + (size as u64) < vx + vw as u64 { ox + size as u64 } else { vx + vw as u64 };
        let ry2 = if oy + (size as u64) < vy + vh as u64 { oy + size as u64 } else { vy + vh as u64 };
        let agg_rx = (rx - vx) / s;
        let agg_ry = (ry - vy) / s;
        let agg_rx2_c = (rx2 - vx + s - 1) / s;
        let agg_ry2_c = (ry2 - vy + s - 1) / s;
        let agg_rx2 = if agg_rx2_c < agg_w as u64 { agg_rx2_c } else { agg_w as u64 };
        let agg_ry2 = if agg_ry2_c < agg_h as u64 { agg_ry2_c } else { agg_h as u64 };
        let mut aggy = agg_ry;
        proof {
            crate::arith::lemma_pow2_pos(depth as nat);
            assert forall|x: int, y: int|
                #![trigger node_cell(nodes, node_idx, depth as nat, ox as int, oy as int, x, y)]
                node_cell(nodes, node_idx, depth as nat, ox as int, oy as int, x, y) && agg_shows(vx as int, vy as int, vw as int, vh as int, scale as int, agg_w as int, agg_h as int, x, y) implies (y - vy)
                    / (s as int) >= aggy by {
                lemma_pixel_span(vy as int, ry as int, ry2 as int, y, s as int);
            }
        }
        while aggy < agg_ry2
            invariant
                agg_ry2 <= agg_h,
                agg_rx2 <= agg_w,
                agg_w * agg_h <= 8 * a0.len(),
                agg_w * agg_h <= usize::MAX,
                only_set_below(a0, agg@, agg_w * agg_h),
                node_idx == TRUE_NODE,
                s == scale,
                s >= 1,
                size == pow2(depth as nat),
                rx == (if ox > vx { ox } else { vx }),
                ry == (if oy > vy { oy } else { vy }),
                rx2 == (if ox + size < vx + vw { ox + size } else { vx + vw }),
                ry2 == (if oy + size < vy + vh { oy + size } else { vy + vh }),
                agg_rx == (rx - vx) / (s as int),
                agg_rx2_c == (rx2 - vx + s - 1) / (s as int),
                agg_ry2_c == (ry2 - vy + s - 1) / (s as int),
                agg_rx2 == (if agg_rx2_c < agg_w { agg_rx2_c } else { agg_w as u64 }),
                agg_ry2 == (if agg_ry2_c < agg_h { agg_ry2_c } else { agg_h as u64 }),
                agg_ry == (ry - vy) / (s as int),
                agg_ry <= aggy,
                ox < vx + vw,
                ox + size > vx,
                oy < vy + vh,
                oy + size > vy,
                size >= 1,
                agg@.len() == a0.len(),
                forall|p: int| 0 <= p < 8 * a0.len() && #[trigger] bit_at(agg@, p) && !bit_at(a0, p) ==> agg_lit(nodes, node_idx, depth as nat, ox as int, oy as int, vx as int, vy as int, vw as int, vh as int, scale as int, agg_w as int, agg_h as int, p),
                forall|x: int, y: int|
                    #![trigger node_cell(nodes, node_idx, depth as nat, ox as int, oy as int, x, y)]
                    node_cell(nodes, node_idx, depth as nat, ox as int, oy as int, x, y) && agg_shows(vx as int, vy as int, vw as int, vh as int, scale as int, agg_w as int, agg_h as int, x, y) && (y - vy) / (
                    s as int) < aggy ==> bit_at(agg@, agg_pixel(vx as int, vy as int, scale as int, agg_w as int, x, y)),
            decreases agg_ry2 - aggy,
        {
            proof {
                assert(aggy * agg_w + agg_w <= agg_h * agg_w) by (nonlinear_arith)
                    requires
                        aggy < agg_h,
                ;
                assert(agg_h * agg_w == agg_w * agg_h) by (nonlinear_arith);
            }
            let row_base = (aggy * agg_w as u64) as usize;
            if agg_rx < agg_rx2 {
                let start_idx = row_base + agg_rx as usize;
                let end_idx = row_base + agg_rx2 as usize;
                let ghost before = agg@;
                set_agg_range(agg, start_idx, end_idx);
                proof {
                    assert forall|p: int| 0 <= p < 8 * a0.len() implies (bit_at(a0, p) ==> #[trigger] bit_at(agg@, p)) && (p
                        >= agg_w * agg_h ==> bit_at(agg@, p) == bit_at(a0, p)) by {
                        assert(bit_at(a0, p) ==> bit_at(before, p));
                        assert(p >= agg_w * agg_h ==> bit_at(before, p) == bit_at(a0, p));
                    }
                    assert forall|x: int, y: int|
                        #![trigger node_cell(nodes, node_idx, depth as nat, ox as int, oy as int, x, y)]
                        node_cell(nodes, node_idx, depth as nat, ox as int, oy as int, x, y) && agg_shows(vx as int, vy as int, vw as int, vh as int, scale as int, agg_w as int, agg_h as int, x, y) && (y - vy) / (
                        s as int) < aggy + 1 implies bit_at(agg@, agg_pixel(vx as int, vy as int, scale as int, agg_w as int, x, y)) by {
                        let px = (x - vx) / (s as int);
                        let py = (y - vy) / (s as int);
                        vstd::arithmetic::div_mod::lemma_div_pos_is_pos(x - vx, s as int);
                        vstd::arithmetic::div_mod::lemma_div_pos_is_pos(y - vy, s as int);
                        lemma_pixel_bound(px, py, agg_w as int, agg_h as int);
                        let p = agg_pixel(vx as int, vy as int, scale as int, agg_w as int, x, y);
                        if py < aggy {
                            assert(bit_at(before, p));
                        } else {
                            lemma_pixel_span(vx as int, rx as int, rx2 as int, x, s as int);
                            assert(start_idx <= p < end_idx);
                        }
                    }
                    assert forall|p: int| 0 <= p < 8 * a0.len() && #[trigger] bit_at(agg@, p) && !bit_at(a0, p) implies agg_lit(nodes, node_idx, depth as nat, ox as int, oy as int, vx as int, vy as int, vw as int, vh as int, scale as int, agg_w as int, agg_h as int, p) by {
                        if !bit_at(before, p) {
                            assert(start_idx <= p < end_idx);
                            let px = p - row_base;
                            assert(agg_rx <= px < agg_rx2);
                            lemma_pixel_cell(vx as int, rx as int, rx2 as int, px, s as int);
                            lemma_pixel_cell(vy as int, ry as int, ry2 as int, aggy as int, s as int);
                            let x = if rx > vx + px * s { rx as int } else { vx + px * s };
                            let y = if ry > vy + aggy * s { ry as int } else { vy + aggy * s };
                            assert(node_cell(nodes, node_idx, depth as nat, ox as int, oy as int, x, y));
                            assert(agg_pixel(vx as int, vy as int, scale as int, agg_w as int, x, y) == p);
                        }
                    }
                }
            } else {
                proof {
                    assert forall|x: int, y: int|
                        #![trigger node_cell(nodes, node_idx, depth as nat, ox as int, oy as int, x, y)]
                        node_cell(nodes, node_idx, depth as nat, ox as int, oy as int, x, y) && agg_shows(vx as int, vy as int, vw as int, vh as int, scale as int, agg_w as int, agg_h as int, x, y) && (y - vy) / (
                        s as int) < aggy + 1 implies bit_at(agg@, agg_pixel(vx as int, vy as int, scale as int, agg_w as int, x, y)) by {
                        if (y - vy) / (s as int) == aggy {
                            lemma_pixel_span(vx as int, rx as int, rx2 as int, x, s as int);
                        }
                    }
                }
            }
            aggy = aggy + 1;
        }
        proof {
            assert forall|x: int, y: int|
                #![trigger node_cell(nodes, node_idx, depth as nat, ox as int, oy as int, x, y)]
                node_cell(nodes, node_idx, depth as nat, ox as int, oy as int, x, y) && agg_shows(vx as int, vy as int, vw as int, vh as int, scale as int, agg_w as int, agg_h as int, x, y) implies bit_at(agg@, agg_pixel(vx as int, vy as int, scale as int, agg_w as int, x, y)) by {
                lemma_pixel_span(vy as int, ry as int, ry2 as int, y, s as int);
            }
        }
        return;
    }
    if depth == 0 {
        if ox >= vx && oy >= vy && ox < vx + vw as u64 && oy < vy + vh as u64 {
            let aggx = (ox - vx) / s;
            let aggy = (oy - vy) / s;
            if aggx < agg_w as u64 && aggy < agg_h as u64 {
                proof {
                    assert(aggy * agg_w + aggx < agg_w * agg_h) by (nonlinear_arith)
                        requires
                            aggy < agg_h,
                            aggx < agg_w,
                    ;
                }
                let aidx = (aggy * agg_w as u64 + aggx) as usize;
                let byte = aidx >> 3;
                let k = (aidx & 7) as u8;
                assert(byte == aidx / 8 && k == aidx % 8) by (bit_vector)
                    requires
                        byte == aidx >> 3,
                        k == (aidx & 7) as u8,
                ;
                if byte < agg.len() {
                    let v = agg[byte];
                    agg[byte] = v | (1u8 << k);
                    proof {
                        assert forall|p: int| 0 <= p < 8 * a0.len() implies (bit_at(a0, p) ==> #[trigger] bit_at(agg@, p)) && (p
                            >= agg_w * agg_h ==> bit_at(agg@, p) == bit_at(a0, p)) by {
                            if p / 8 == byte as int {
                                let kk = (p % 8) as u8;
                                assert(kk as int == p % 8);
                                lemma_or_one(v, k, kk);
                                assert(a0[p / 8] == v);
                                assert((p == aidx) == (kk == k));
                            } else {
                                assert(agg@[p / 8] == a0[p / 8]);
                            }
                        }
                        assert forall|x: int, y: int|
                            #![trigger node_cell(nodes, node_idx, depth as nat, ox as int, oy as int, x, y)]
                            node_cell(nodes, node_idx, depth as nat, ox as int, oy as int, x, y) && agg_shows(vx as int, vy as int, vw as int, vh as int, scale as int, agg_w as int, agg_h as int, x, y) implies bit_at(agg@, agg_pixel(vx as int, vy as int, scale as int, agg_w as int, x, y)) by {
                            crate::arith::lemma_pow2_small();
                            assert(x == ox && y == oy);
                            assert(agg_pixel(vx as int, vy as int, scale as int, agg_w as int, x, y) == aidx);
                            lemma_or_one(v, k, k);
                            assert(aidx / 8 == byte && aidx % 8 == k);
                        }
                        assert forall|p: int| 0 <= p < 8 * a0.len() && #[trigger] bit_at(agg@, p) && !bit_at(a0, p) implies agg_lit(nodes, node_idx, depth as nat, ox as int, oy as int, vx as int, vy as int, vw as int, vh as int, scale as int, agg_w as int, agg_h as int, p) by {
                            if p / 8 == byte as int {
                                let kk = (p % 8) as u8;
                                assert(kk as int == p % 8);
                                lemma_or_one(v, k, kk);
                                assert(a0[p / 8] == v);
                                assert(kk == k);
                                assert(p == aidx);
                            } else {
                                assert(agg@[p / 8] == a0[p / 8]);
                            }
                            crate::arith::lemma_pow2_small();
                            assert(node_cell(nodes, node_idx, depth as nat, ox as int, oy as int, ox as int, oy as int));
                            assert(agg_pixel(vx as int, vy as int, scale as int, agg_w as int, ox as int, oy as int) == p);
                        }
                    }
                } else {
                    proof {
                        assert(false);
                    }
                }
            } else {
                proof {
                    assert forall|x: int, y: int|
                        #![trigger node_cell(nodes, node_idx, depth as nat, ox as int, oy as int, x, y)]
                        node_cell(nodes, node_idx, depth as nat, ox as int, oy as int, x, y) && agg_shows(vx as int, vy as int, vw as int, vh as int, scale as int, agg_w as int, agg_h as int, x, y) implies bit_at(agg@, agg_pixel(vx as int, vy as int, scale as int, agg_w as int, x, y)) by {
                        crate::arith::lemma_pow2_small();
                        assert(x == ox && y == oy);
                    }
                }
            }
        } else {
            proof {
                assert forall|x: int, y: int|
                    #![trigger node_cell(nodes, node_idx, depth as nat, ox as int, oy as int, x, y)]
                    node_cell(nodes, node_idx, depth as nat, ox as int, oy as int, x, y) && agg_shows(vx as int, vy as int, vw as int, vh as int, scale as int, agg_w as int, agg_h as int, x, y) implies bit_at(agg@, agg_pixel(vx as int, vy as int, scale as int, agg_w as int, x, y)) by {
                    crate::arith::lemma_pow2_small();
                }
            }
        }
        return;
    }
    let node = cache.get_node(node_idx);
    let half = 1u32 << (depth - 1);
    proof {
        lemma_shl_u32((depth - 1) as u32);
        assert(pow2(depth as nat) == 2 * pow2((depth - 1) as nat));
    }
    fill_aggregated_viewport(cache, node.north_west, depth - 1, ox, oy, vx, vy, vw, vh, scale, agg_w, agg_h, agg);
    let ghost a1 = agg@;
    fill_aggregated_viewport(cache, node.north_east, depth - 1, ox + half as u64, oy, vx, vy, vw, vh, scale, agg_w, agg_h, agg);
    let ghost a2 = agg@;
    fill_aggregated_viewport(cache, node.south_west, depth - 1, ox, oy + half as u64, vx, vy, vw, vh, scale, agg_w, agg_h, agg);
    let ghost a3 = agg@;
    fill_aggregated_viewport(cache, node.south_east, depth - 1, ox + half as u64, oy + half as u64, vx, vy, vw, vh, scale,
        agg_w, agg_h, agg);
    proof {
        assert forall|p: int| 0 <= p < 8 * a0.len() implies (bit_at(a0, p) ==> #[trigger] bit_at(agg@, p)) && (p >= agg_w
            * agg_h ==> bit_at(agg@, p) == bit_at(a0, p)) by {
            assert(bit_at(a0, p) ==> bit_at(a1, p));
            assert(bit_at(a1, p) ==> bit_at(a2, p));
            assert(bit_at(a2, p) ==> bit_at(a3, p));
            assert(bit_at(a3, p) ==> bit_at(agg@, p));
            assert(p >= agg_w * agg_h ==> bit_at(a1, p) == bit_at(a0, p));
            assert(p >= agg_w * agg_h ==> bit_at(a2, p) == bit_at(a1, p));
            assert(p >= agg_w * agg_h ==> bit_at(a3, p) == bit_at(a2, p));
            assert(p >= agg_w * agg_h ==> bit_at(agg@, p) == bit_at(a3, p));
        }
        let h = pow2((depth - 1) as nat) as int;
        let d1 = (depth - 1) as nat;
        assert(only_set_below(a1, agg@, agg_w * agg_h)) by {
            assert forall|p: int| 0 <= p < 8 * a1.len() implies (bit_at(a1, p) ==> #[trigger] bit_at(agg@, p)) && (p >= agg_w
                * agg_h ==> bit_at(agg@, p) == bit_at(a1, p)) by {
                assert(bit_at(a1, p) ==> bit_at(a2, p));
                assert(bit_at(a2, p) ==> bit_at(a3, p));
                assert(bit_at(a3, p) ==> bit_at(agg@, p));
                assert(p >= agg_w * agg_h ==> bit_at(a2, p) == bit_at(a1, p));
                assert(p >= agg_w * agg_h ==> bit_at(a3, p) == bit_at(a2, p));
                assert(p >= agg_w * agg_h ==> bit_at(agg@, p) == bit_at(a3, p));
            }
        }
        assert(only_set_below(a2, agg@, agg_w * agg_h)) by {
            assert forall|p: int| 0 <= p < 8 * a2.len() implies (bit_at(a2, p) ==> #[trigger] bit_at(agg@, p)) && (p >= agg_w
                * agg_h ==> bit_at(agg@, p) == bit_at(a2, p)) by {
                assert(bit_at(a2, p) ==> bit_at(a3, p));
                assert(bit_at(a3, p) ==> bit_at(agg@, p));
                assert(p >= agg_w * agg_h ==> bit_at(a3, p) == bit_at(a2, p));
                assert(p >= agg_w * agg_h ==> bit_at(agg@, p) == bit_at(a3, p));
            }
        }
        assert forall|x: int, y: int|
            #![trigger node_cell(nodes, node_idx, depth as nat, ox as int, oy as int, x, y)]
            node_cell(nodes, node_idx, depth as nat, ox as int, oy as int, x, y) && agg_shows(vx as int, vy as int, vw as int, vh as int, scale as int, agg_w as int, agg_h as int, x, y) implies bit_at(agg@, agg_pixel(vx as int, vy as int, scale as int, agg_w as int, x, y)) by {
            let a = x - ox;
            let b = y - oy;
            let q = agg_pixel(vx as int, vy as int, scale as int, agg_w as int, x, y);
            vstd::arithmetic::div_mod::lemma_div_pos_is_pos(x - vx, scale as int);
            vstd::arithmetic::div_mod::lemma_div_pos_is_pos(y - vy, scale as int);
            lemma_pixel_bound((x - vx) / (scale as int), (y - vy) / (scale as int), agg_w as int, agg_h as int);
            assert(child_of(nodes, node_idx, 0) == node.north_west);
            assert(child_of(nodes, node_idx, 1) == node.north_east);
            assert(child_of(nodes, node_idx, 2) == node.south_west);
            assert(child_of(nodes, node_idx, 3) == node.south_east);
            if a < h && b < h {
                assert(node_cell(nodes, node.north_west, d1, ox as int, oy as int, x, y));
                assert(bit_at(a1, q));
            } else if b < h {
                assert(node_cell(nodes, node.north_east, d1, ox + h, oy as int, x, y));
                assert(bit_at(a2, q));
            } else if a < h {
                assert(node_cell(nodes, node.south_west, d1, ox as int, oy + h, x, y));
                assert(bit_at(a3, q));
            } else {
                assert(node_cell(nodes, node.south_east, d1, ox + h, oy + h, x, y));
            }
        }
        assert forall|p: int| 0 <= p < 8 * a0.len() && #[trigger] bit_at(agg@, p) && !bit_at(a0, p) implies agg_lit(nodes, node_idx, depth as nat, ox as int, oy as int, vx as int, vy as int, vw as int, vh as int, scale as int, agg_w as int, agg_h as int, p) by {
            let (cx, cy): (int, int) = if bit_at(a1, p) {
                choose|x: int, y: int| #![trigger node_cell(nodes, node.north_west, d1, ox as int, oy as int, x, y)]
                    node_cell(nodes, node.north_west, d1, ox as int, oy as int, x, y) && agg_shows(vx as int, vy as int, vw as int, vh as int, scale as int, agg_w as int, agg_h as int, x, y) && agg_pixel(vx as int, vy as int, scale as int, agg_w as int, x, y) == p
            } else if bit_at(a2, p) {
                choose|x: int, y: int| #![trigger node_cell(nodes, node.north_east, d1, ox + h, oy as int, x, y)]
                    node_cell(nodes, node.north_east, d1, ox + h, oy as int, x, y) && agg_shows(vx as int, vy as int, vw as int, vh as int, scale as int, agg_w as int, agg_h as int, x, y) && agg_pixel(vx as int, vy as int, scale as int, agg_w as int, x, y) == p
            } else if bit_at(a3, p) {
                choose|x: int, y: int| #![trigger node_cell(nodes, node.south_west, d1, ox as int, oy + h, x, y)]
                    node_cell(nodes, node.south_west, d1, ox as int, oy + h, x, y) && agg_shows(vx as int, vy as int, vw as int, vh as int, scale as int, agg_w as int, agg_h as int, x, y) && agg_pixel(vx as int, vy as int, scale as int, agg_w as int, x, y) == p
            } else {
                choose|x: int, y: int| #![trigger node_cell(nodes, node.south_east, d1, ox + h, oy + h, x, y)]
                    node_cell(nodes, node.south_east, d1, ox + h, oy + h, x, y) && agg_shows(vx as int, vy as int, vw as int, vh as int, scale as int, agg_w as int, agg_h as int, x, y) && agg_pixel(vx as int, vy as int, scale as int, agg_w as int, x, y) == p
            };
            assert(child_of(nodes, node_idx, 0) == node.north_west);
            assert(child_of(nodes, node_idx, 1) == node.north_east);
            assert(child_of(nodes, node_idx, 2) == node.south_west);
            assert(child_of(nodes, node_idx, 3) == node.south_east);
            assert(node_cell(nodes, node_idx, depth as nat, ox as int, oy as int, cx, cy));
        }
    }
}

} // verus!
