//! Advancing quadtree nodes in time: the 8x8 base cases through the rule
//! table, and the recursive jumps built on them.

use vstd::prelude::*;
use crate::arith::{pow2, lemma_pow2_small, lemma_pow2_mono};
use crate::hashlife::cache::{HashLifeCache, LifeNode, FALSE_NODE, TRUE_NODE, alive_at, child_of, node_is, quadrant,
    lemma_alive_frame};
use crate::hashlife::rules::{cell4, cell8q, next8, next8_2, life_rule, b2i, se_pack, se_cell, LeafQuadrants,
    assemble_quadrants, is_quad_assembly, compute_first_generation, first_gen_seq, assemble_centered_6x6,
    lemma_one_gen_word, combine_2x2, lemma_gen1_window, lemma_two_gen_word, lemma_advance_4x4_se_only,
    spec_advance_4x4};
use crate::hashlife::tree::{lemma_node_is_alive, lemma_node_is_frame, lemma_extended_trans};
use crate::hashlife::maps::{pair_map, slow_map, slow_key_node, pair_get, pair_insert, slow_get, slow_insert, slow_remove};
use crate::hashlife::evolve::{evolve, node_fn, jump_ok, window_of, lemma_false_jump, lemma_true_jump, lemma_window_final};
use crate::hashlife::window::{Win, fast_premise, fast_sound, windows_hold, lemma_sound_frame, lemma_node_fn_frame,
    lemma_step_quad, lemma_step_jump, lemma_sentinels, quad_of, jumped, slow_sound, lemma_slow_sound_frame,
    slow_key_spec, key_ok, slow_exp, slow_premise, lemma_slow_key_unique, node_exp, node_premise, jumped_by, lemma_step_jump_by};
use ahash::AHashMap;

verus! {

/// The live neighbours of cell `(x, y)` of node `idx` read at `level`.
pub open spec fn live_neighbours(nodes: Seq<LifeNode>, idx: u32, level: nat, x: int, y: int) -> int {
    b2i(alive_at(nodes, idx, level, x - 1, y - 1)) + b2i(alive_at(nodes, idx, level, x, y - 1)) + b2i(
        alive_at(nodes, idx, level, x + 1, y - 1),
    ) + b2i(alive_at(nodes, idx, level, x - 1, y)) + b2i(alive_at(nodes, idx, level, x + 1, y)) + b2i(
        alive_at(nodes, idx, level, x - 1, y + 1),
    ) + b2i(alive_at(nodes, idx, level, x, y + 1)) + b2i(alive_at(nodes, idx, level, x + 1, y + 1))
}

/// Cell `(x, y)` of node `idx` one generation later (for cells whose
/// neighbours all lie in the block).
pub open spec fn next_gen(nodes: Seq<LifeNode>, idx: u32, level: nat, x: int, y: int) -> bool {
    life_rule(alive_at(nodes, idx, level, x, y), live_neighbours(nodes, idx, level, x, y))
}

/// Cell `(x, y)` of node `idx` two generations later (for cells at distance
/// two or more from the border).
pub open spec fn next_gen2(nodes: Seq<LifeNode>, idx: u32, level: nat, x: int, y: int) -> bool {
    life_rule(
        next_gen(nodes, idx, level, x, y),
        b2i(next_gen(nodes, idx, level, x - 1, y - 1)) + b2i(next_gen(nodes, idx, level, x, y - 1)) + b2i(
            next_gen(nodes, idx, level, x + 1, y - 1),
        ) + b2i(next_gen(nodes, idx, level, x - 1, y)) + b2i(next_gen(nodes, idx, level, x + 1, y)) + b2i(
            next_gen(nodes, idx, level, x - 1, y + 1),
        ) + b2i(next_gen(nodes, idx, level, x, y + 1)) + b2i(next_gen(nodes, idx, level, x + 1, y + 1)),
    )
}

proof fn lemma_word_const(k: u16)
    by (bit_vector)
    requires
        k < 16,
    ensures
        (0u16 >> k) & 1 == 0,
        (0xFFFFu16 >> k) & 1 == 1,
{
}

/// A level-1 block: a cell is alive iff the child over it is not FALSE.
proof fn lemma_level1_cell(c: &HashLifeCache, n1: u32, x: int, y: int)
    requires
        c.wf(),
        0 <= x < 2,
        0 <= y < 2,
    ensures
        alive_at(c.nodes@, n1, 1, x, y) == (child_of(c.nodes@, n1, quadrant(x, y, 1)) != FALSE_NODE),
{
    lemma_pow2_small();
    assert(((1nat - 1) as nat) == 0);
    let nodes = c.nodes@;
    let q = quadrant(x, y, 1);
    let xx = if x >= 1 { x - 1 } else { x };
    let yy = if y >= 1 { y - 1 } else { y };
    if n1 == FALSE_NODE {
        assert(nodes[0] == crate::hashlife::cache::spec_empty_node());
        assert(child_of(nodes, n1, q) == 0);
    } else if n1 == TRUE_NODE {
        assert(child_of(nodes, n1, q) == 1);
    } else {
        assert(alive_at(nodes, n1, 1, x, y) == alive_at(nodes, child_of(nodes, n1, q), 0, xx, yy));
    }
}

/// Reads a level-2 block (4x4) as a word: row `r`, column `c` is cell `(c, r)`.
pub fn encode_level2_inline(cache: &HashLifeCache, node_idx: u32) -> (bits: u16)
    requires
        cache.wf(),
    ensures
        forall|r: int, c: int|
            0 <= r < 4 && 0 <= c < 4 ==> #[trigger] cell4(bits, r, c) == alive_at(cache.nodes@, node_idx, 2, c, r),
{
    proof {
        lemma_pow2_small();
    }
    if node_idx == FALSE_NODE {
        proof {
            assert forall|r: int, c: int| 0 <= r < 4 && 0 <= c < 4 implies #[trigger] cell4(0, r, c) == alive_at(
                cache.nodes@,
                node_idx,
                2,
                c,
                r,
            ) by {
                lemma_word_const((15 - (4 * r + c)) as u16);
            }
        }
        return 0;
    }
    if node_idx == TRUE_NODE {
        proof {
            assert forall|r: int, c: int| 0 <= r < 4 && 0 <= c < 4 implies #[trigger] cell4(0xFFFF, r, c) == alive_at(
                cache.nodes@,
                node_idx,
                2,
                c,
                r,
            ) by {
                lemma_word_const((15 - (4 * r + c)) as u16);
            }
        }
        return 0xFFFF;
    }
    let l2 = cache.get_node(node_idx);
    if l2.north_west == FALSE_NODE && l2.north_east == FALSE_NODE && l2.south_west == FALSE_NODE
        && l2.south_east == FALSE_NODE {
        proof {
            assert forall|r: int, c: int| 0 <= r < 4 && 0 <= c < 4 implies #[trigger] cell4(0, r, c) == alive_at(
                cache.nodes@,
                node_idx,
                2,
                c,
                r,
            ) by {
                lemma_word_const((15 - (4 * r + c)) as u16);
                assert(((2nat - 1) as nat) == 1);
                let q = quadrant(c, r, 2);
                assert(child_of(cache.nodes@, node_idx, q) == FALSE_NODE);
                let xx = if c >= 2 { c - 2 } else { c };
                let yy = if r >= 2 { r - 2 } else { r };
                assert(alive_at(cache.nodes@, node_idx, 2, c, r) == alive_at(cache.nodes@, FALSE_NODE, 1, xx, yy));
            }
        }
        return 0;
    }
    let nw1 = cache.get_node(l2.north_west);
    let ne1 = cache.get_node(l2.north_east);
    let sw1 = cache.get_node(l2.south_west);
    let se1 = cache.get_node(l2.south_east);
    let a = se_pack(nw1.north_west != FALSE_NODE, nw1.north_east != FALSE_NODE, nw1.south_west != FALSE_NODE,
        nw1.south_east != FALSE_NODE);
    let b = se_pack(ne1.north_west != FALSE_NODE, ne1.north_east != FALSE_NODE, ne1.south_west != FALSE_NODE,
        ne1.south_east != FALSE_NODE);
    let c = se_pack(sw1.north_west != FALSE_NODE, sw1.north_east != FALSE_NODE, sw1.south_west != FALSE_NODE,
        sw1.south_east != FALSE_NODE);
    let d = se_pack(se1.north_west != FALSE_NODE, se1.north_east != FALSE_NODE, se1.south_west != FALSE_NODE,
        se1.south_east != FALSE_NODE);
    let bits = assemble_quadrants(a, b, c, d);
    proof {
        let nodes = cache.nodes@;
        assert forall|r: int, col: int| 0 <= r < 4 && 0 <= col < 4 implies #[trigger] cell4(bits, r, col) == alive_at(
            nodes,
            node_idx,
            2,
            col,
            r,
        ) by {
            assert(((2nat - 1) as nat) == 1);
            let q = quadrant(col, r, 2);
            let xx = if col >= 2 { col - 2 } else { col };
            let yy = if r >= 2 { r - 2 } else { r };
            let n1 = child_of(nodes, node_idx, q);
            assert(alive_at(nodes, node_idx, 2, col, r) == alive_at(nodes, n1, 1, xx, yy));
            lemma_level1_cell(cache, n1, xx, yy);
            assert(xx == col % 2 && yy == r % 2);
        }
    }
    bits
}

/// The 8x8 block of a level-3 node as four 4x4 words.
pub fn encode_level3(cache: &HashLifeCache, node_idx: u32) -> (q: LeafQuadrants)
    requires
        cache.wf(),
    ensures
        forall|r: int, c: int|
            0 <= r < 8 && 0 <= c < 8 ==> #[trigger] cell8q(q, r, c) == alive_at(cache.nodes@, node_idx, 3, c, r),
{
    let node = cache.get_node(node_idx);
    let q = LeafQuadrants {
        nw: encode_level2_inline(cache, node.north_west),
        ne: encode_level2_inline(cache, node.north_east),
        sw: encode_level2_inline(cache, node.south_west),
        se: encode_level2_inline(cache, node.south_east),
    };
    proof {
        lemma_pow2_small();
        assert(((3nat - 1) as nat) == 2);
        assert forall|r: int, c: int| 0 <= r < 8 && 0 <= c < 8 implies #[trigger] cell8q(q, r, c) == alive_at(
            cache.nodes@,
            node_idx,
            3,
            c,
            r,
        ) by {
            if node_idx == FALSE_NODE || node_idx == TRUE_NODE {
                assert(child_of(cache.nodes@, node_idx, quadrant(c, r, 4)) == node_idx);
            }
        }
    }
    q
}

/// The sentinel for bit `pos` of `bits`: TRUE when set.
fn bit_to_cell(bits: u16, pos: u16) -> (r: u32)
    requires
        pos < 16,
    ensures
        r == (if (bits >> pos) & 1 == 1 { TRUE_NODE } else { FALSE_NODE }),
{
    assert((bits >> pos) & 1 == 0 || (bits >> pos) & 1 == 1) by (bit_vector);
    if ((bits >> pos) & 1) != 0 {
        TRUE_NODE
    } else {
        FALSE_NODE
    }
}

/// A level-1 node made of four sentinels is alive where its sentinel is TRUE.
proof fn lemma_leaf_quad(nodes: Seq<LifeNode>, idx: u32, a: u32, b: u32, c: u32, d: u32, x: int, y: int)
    requires
        node_is(nodes, idx, a, b, c, d),
        a <= 1 && b <= 1 && c <= 1 && d <= 1,
        0 <= x < 2,
        0 <= y < 2,
    ensures
        alive_at(nodes, idx, 1, x, y) == ((if y < 1 {
            if x < 1 { a } else { b }
        } else {
            if x < 1 { c } else { d }
        }) == TRUE_NODE),
{
    lemma_pow2_small();
    lemma_node_is_alive(nodes, idx, a, b, c, d, 0, x, y);
}

/// Builds the level-2 node whose 4x4 block is the word `bits`
/// (row `r`, column `c` is cell `(c, r)`).
pub fn decode_level2(cache: &mut HashLifeCache, bits: u16) -> (r: u32)
    requires
        old(cache).wf(),
    ensures
        final(cache).wf(),
        final(cache).valid(r),
        old(cache).extended_by(&*final(cache)),
        final(cache).fast_cache == old(cache).fast_cache,
        final(cache).exhausted || forall|x: int, y: int|
            0 <= x < 4 && 0 <= y < 4 ==> #[trigger] alive_at(final(cache).nodes@, r, 2, x, y) == cell4(bits, y, x),
{
    let b15 = bit_to_cell(bits, 15);
    let b14 = bit_to_cell(bits, 14);
    let b13 = bit_to_cell(bits, 13);
    let b12 = bit_to_cell(bits, 12);
    let b11 = bit_to_cell(bits, 11);
    let b10 = bit_to_cell(bits, 10);
    let b9 = bit_to_cell(bits, 9);
    let b8 = bit_to_cell(bits, 8);
    let b7 = bit_to_cell(bits, 7);
    let b6 = bit_to_cell(bits, 6);
    let b5 = bit_to_cell(bits, 5);
    let b4 = bit_to_cell(bits, 4);
    let b3 = bit_to_cell(bits, 3);
    let b2 = bit_to_cell(bits, 2);
    let b1 = bit_to_cell(bits, 1);
    let b0 = bit_to_cell(bits, 0);
    let ghost c0 = *cache;
    let q_nw = cache.find_or_create(b15, b14, b11, b10);
    let ghost c1 = *cache;
    let q_ne = cache.find_or_create(b13, b12, b9, b8);
    let ghost c2 = *cache;
    let q_sw = cache.find_or_create(b7, b6, b3, b2);
    let ghost c3 = *cache;
    let q_se = cache.find_or_create(b5, b4, b1, b0);
    let ghost c4 = *cache;
    let r = cache.find_or_create(q_nw, q_ne, q_sw, q_se);
    proof {
        let c5 = *cache;
        lemma_extended_trans(&c0, &c1, &c2);
        lemma_extended_trans(&c0, &c2, &c3);
        lemma_extended_trans(&c0, &c3, &c4);
        lemma_extended_trans(&c0, &c4, &c5);
        if !c5.exhausted {
            lemma_extended_trans(&c1, &c2, &c3);
            lemma_extended_trans(&c1, &c3, &c4);
            lemma_extended_trans(&c1, &c4, &c5);
            lemma_extended_trans(&c2, &c3, &c4);
            lemma_extended_trans(&c2, &c4, &c5);
            lemma_extended_trans(&c3, &c4, &c5);
            lemma_node_is_frame(&c1, &c5, q_nw, b15, b14, b11, b10);
            lemma_node_is_frame(&c2, &c5, q_ne, b13, b12, b9, b8);
            lemma_node_is_frame(&c3, &c5, q_sw, b7, b6, b3, b2);
            lemma_node_is_frame(&c4, &c5, q_se, b5, b4, b1, b0);
            lemma_pow2_small();
            let nodes = c5.nodes@;
            assert forall|x: int, y: int| 0 <= x < 4 && 0 <= y < 4 implies #[trigger] alive_at(nodes, r, 2, x, y)
                == cell4(bits, y, x) by {
                lemma_node_is_alive(nodes, r, q_nw, q_ne, q_sw, q_se, 1, x, y);
                let xx = if x >= 2 { x - 2 } else { x };
                let yy = if y >= 2 { y - 2 } else { y };
                if y < 2 {
                    if x < 2 {
                        lemma_leaf_quad(nodes, q_nw, b15, b14, b11, b10, xx, yy);
                    } else {
                        lemma_leaf_quad(nodes, q_ne, b13, b12, b9, b8, xx, yy);
                    }
                } else {
                    if x < 2 {
                        lemma_leaf_quad(nodes, q_sw, b7, b6, b3, b2, xx, yy);
                    } else {
                        lemma_leaf_quad(nodes, q_se, b5, b4, b1, b0, xx, yy);
                    }
                }
            }
        }
    }
    r
}

/// Builds the level-1 node holding the central 2x2 of the 4x4 word `bits`.
pub fn decode_level1(cache: &mut HashLifeCache, bits: u16) -> (r: u32)
    requires
        old(cache).wf(),
    ensures
        final(cache).wf(),
        final(cache).valid(r),
        old(cache).extended_by(&*final(cache)),
        final(cache).fast_cache == old(cache).fast_cache,
        final(cache).exhausted || forall|x: int, y: int|
            0 <= x < 2 && 0 <= y < 2 ==> #[trigger] alive_at(final(cache).nodes@, r, 1, x, y) == cell4(
                bits,
                y + 1,
                x + 1,
            ),
{
    let a = bit_to_cell(bits, 10);
    let b = bit_to_cell(bits, 9);
    let c = bit_to_cell(bits, 6);
    let d = bit_to_cell(bits, 5);
    let r = cache.find_or_create(a, b, c, d);
    proof {
        if !cache.exhausted {
            assert forall|x: int, y: int| 0 <= x < 2 && 0 <= y < 2 implies #[trigger] alive_at(cache.nodes@, r, 1, x, y)
                == cell4(bits, y + 1, x + 1) by {
                lemma_leaf_quad(cache.nodes@, r, a, b, c, d, x, y);
            }
        }
    }
    r
}

/// The 8x8 words of a node that match its block make the rule's one- and
/// two-generation steps match too.
proof fn lemma_block_next(q: LeafQuadrants, nodes: Seq<LifeNode>, idx: u32)
    requires
        forall|r: int, c: int| 0 <= r < 8 && 0 <= c < 8 ==> #[trigger] cell8q(q, r, c) == alive_at(nodes, idx, 3, c, r),
    ensures
        forall|r: int, c: int| 1 <= r < 7 && 1 <= c < 7 ==> #[trigger] next8(q, r, c) == next_gen(nodes, idx, 3, c, r),
        forall|r: int, c: int| 2 <= r < 6 && 2 <= c < 6 ==> #[trigger] next8_2(q, r, c) == next_gen2(nodes, idx, 3, c, r),
{
    assert forall|r: int, c: int| 1 <= r < 7 && 1 <= c < 7 implies #[trigger] next8(q, r, c) == next_gen(nodes, idx, 3, c, r) by {
        reveal(next8);
        assert(cell8q(q, r, c) == alive_at(nodes, idx, 3, c, r));
        assert(cell8q(q, r - 1, c - 1) == alive_at(nodes, idx, 3, c - 1, r - 1));
        assert(cell8q(q, r - 1, c) == alive_at(nodes, idx, 3, c, r - 1));
        assert(cell8q(q, r - 1, c + 1) == alive_at(nodes, idx, 3, c + 1, r - 1));
        assert(cell8q(q, r, c - 1) == alive_at(nodes, idx, 3, c - 1, r));
        assert(cell8q(q, r, c + 1) == alive_at(nodes, idx, 3, c + 1, r));
        assert(cell8q(q, r + 1, c - 1) == alive_at(nodes, idx, 3, c - 1, r + 1));
        assert(cell8q(q, r + 1, c) == alive_at(nodes, idx, 3, c, r + 1));
        assert(cell8q(q, r + 1, c + 1) == alive_at(nodes, idx, 3, c + 1, r + 1));
    }
    assert forall|r: int, c: int| 2 <= r < 6 && 2 <= c < 6 implies #[trigger] next8_2(q, r, c) == next_gen2(nodes, idx, 3, c, r) by {
        reveal(next8_2);
        assert(next8(q, r, c) == next_gen(nodes, idx, 3, c, r));
        assert(next8(q, r - 1, c - 1) == next_gen(nodes, idx, 3, c - 1, r - 1));
        assert(next8(q, r - 1, c) == next_gen(nodes, idx, 3, c, r - 1));
        assert(next8(q, r - 1, c + 1) == next_gen(nodes, idx, 3, c + 1, r - 1));
        assert(next8(q, r, c - 1) == next_gen(nodes, idx, 3, c - 1, r));
        assert(next8(q, r, c + 1) == next_gen(nodes, idx, 3, c + 1, r));
        assert(next8(q, r + 1, c - 1) == next_gen(nodes, idx, 3, c - 1, r + 1));
        assert(next8(q, r + 1, c) == next_gen(nodes, idx, 3, c, r + 1));
        assert(next8(q, r + 1, c + 1) == next_gen(nodes, idx, 3, c + 1, r + 1));
    }
}

/// One generation of a level-3 node: the level-2 node of its central 4x4
/// one generation later.
pub fn advance_base_one_gen(cache: &mut HashLifeCache, node_idx: u32) -> (r: u32)
    requires
        old(cache).wf(),
    ensures
        final(cache).wf(),
        final(cache).valid(r),
        old(cache).extended_by(&*final(cache)),
        final(cache).fast_cache == old(cache).fast_cache,
        final(cache).exhausted || forall|x: int, y: int|
            0 <= x < 4 && 0 <= y < 4 ==> #[trigger] alive_at(final(cache).nodes@, r, 2, x, y) == next_gen(
                old(cache).nodes@,
                node_idx,
                3,
                x + 2,
                y + 2,
            ),
{
    let q = encode_level3(cache, node_idx);
    let g = compute_first_generation(&cache.rules, &q);
    proof {
        assert(first_gen_seq(g)[0] == g.nw);
        assert(first_gen_seq(g)[1] == g.n);
        assert(first_gen_seq(g)[2] == g.ne);
        assert(first_gen_seq(g)[3] == g.w);
        assert(first_gen_seq(g)[4] == g.center);
        assert(first_gen_seq(g)[5] == g.e);
        assert(first_gen_seq(g)[6] == g.sw);
        assert(first_gen_seq(g)[7] == g.s);
        assert(first_gen_seq(g)[8] == g.se);
        assert(se_cell(first_gen_seq(g)[0], 0, 0) == next8(q, 1, 1));
        assert(se_cell(first_gen_seq(g)[1], 0, 0) == next8(q, 1, 3));
        assert(se_cell(first_gen_seq(g)[2], 0, 0) == next8(q, 1, 5));
        assert(se_cell(first_gen_seq(g)[3], 0, 0) == next8(q, 3, 1));
        assert(se_cell(first_gen_seq(g)[4], 0, 0) == next8(q, 3, 3));
        assert(se_cell(first_gen_seq(g)[5], 0, 0) == next8(q, 3, 5));
        assert(se_cell(first_gen_seq(g)[6], 0, 0) == next8(q, 5, 1));
        assert(se_cell(first_gen_seq(g)[7], 0, 0) == next8(q, 5, 3));
        assert(se_cell(first_gen_seq(g)[8], 0, 0) == next8(q, 5, 5));
    }
    let res = assemble_centered_6x6(g.nw, g.n, g.ne, g.w, g.center, g.e, g.sw, g.s, g.se);
    proof {
        assert(first_gen_seq(g) =~= seq![g.nw, g.n, g.ne, g.w, g.center, g.e, g.sw, g.s, g.se]);
        lemma_one_gen_word(g, q, res);
        lemma_block_next(q, cache.nodes@, node_idx);
    }
    let r = decode_level2(cache, res);
    r
}

/// Two generations of a level-3 node: the level-2 node of its central 4x4
/// two generations later.
pub fn advance_base_two_gen(cache: &mut HashLifeCache, node_idx: u32) -> (r: u32)
    requires
        old(cache).wf(),
    ensures
        final(cache).wf(),
        final(cache).valid(r),
        old(cache).extended_by(&*final(cache)),
        final(cache).fast_cache == old(cache).fast_cache,
        final(cache).exhausted || forall|x: int, y: int|
            0 <= x < 4 && 0 <= y < 4 ==> #[trigger] alive_at(final(cache).nodes@, r, 2, x, y) == next_gen2(
                old(cache).nodes@,
                node_idx,
                3,
                x + 2,
                y + 2,
            ),
{
    let q = encode_level3(cache, node_idx);
    let g = compute_first_generation(&cache.rules, &q);
    proof {
        assert(first_gen_seq(g)[0] == g.nw);
        assert(first_gen_seq(g)[1] == g.n);
        assert(first_gen_seq(g)[2] == g.ne);
        assert(first_gen_seq(g)[3] == g.w);
        assert(first_gen_seq(g)[4] == g.center);
        assert(first_gen_seq(g)[5] == g.e);
        assert(first_gen_seq(g)[6] == g.sw);
        assert(first_gen_seq(g)[7] == g.s);
        assert(first_gen_seq(g)[8] == g.se);
        assert(se_cell(first_gen_seq(g)[0], 0, 0) == next8(q, 1, 1));
        assert(se_cell(first_gen_seq(g)[1], 0, 0) == next8(q, 1, 3));
        assert(se_cell(first_gen_seq(g)[2], 0, 0) == next8(q, 1, 5));
        assert(se_cell(first_gen_seq(g)[3], 0, 0) == next8(q, 3, 1));
        assert(se_cell(first_gen_seq(g)[4], 0, 0) == next8(q, 3, 3));
        assert(se_cell(first_gen_seq(g)[5], 0, 0) == next8(q, 3, 5));
        assert(se_cell(first_gen_seq(g)[6], 0, 0) == next8(q, 5, 1));
        assert(se_cell(first_gen_seq(g)[7], 0, 0) == next8(q, 5, 3));
        assert(se_cell(first_gen_seq(g)[8], 0, 0) == next8(q, 5, 5));
    }
    let x_nw = combine_2x2(g.nw, g.n, g.w, g.center);
    let x_ne = combine_2x2(g.n, g.ne, g.center, g.e);
    let x_sw = combine_2x2(g.w, g.center, g.sw, g.s);
    let x_se = combine_2x2(g.center, g.e, g.s, g.se);
    proof {
        lemma_gen1_window(g, q, x_nw, 0);
        lemma_gen1_window(g, q, x_ne, 1);
        lemma_gen1_window(g, q, x_sw, 3);
        lemma_gen1_window(g, q, x_se, 4);
        lemma_advance_4x4_se_only(x_nw);
        lemma_advance_4x4_se_only(x_ne);
        lemma_advance_4x4_se_only(x_sw);
        lemma_advance_4x4_se_only(x_se);
    }
    let g_nw = cache.rules[x_nw as usize];
    let g_ne = cache.rules[x_ne as usize];
    let g_sw = cache.rules[x_sw as usize];
    let g_se = cache.rules[x_se as usize];
    let res = assemble_quadrants(g_nw, g_ne, g_sw, g_se);
    proof {
        lemma_two_gen_word(q, x_nw, x_ne, x_sw, x_se, res);
        lemma_block_next(q, cache.nodes@, node_idx);
    }
    let r = decode_level2(cache, res);
    r
}


/// One generation of an 8x8 block, read inside it, is Life on the plane.
proof fn lemma_base_one(nodes: Seq<LifeNode>, idx: u32, a: int, b: int)
    requires
        1 <= a < 7,
        1 <= b < 7,
    ensures
        next_gen(nodes, idx, 3, a, b) == evolve(node_fn(nodes, idx, 3), 1, a, b),
{
    lemma_pow2_small();
    let f = node_fn(nodes, idx, 3);
    assert(evolve(f, 0, a, b) == alive_at(nodes, idx, 3, a, b));
    assert(evolve(f, 0, a - 1, b - 1) == alive_at(nodes, idx, 3, a - 1, b - 1));
    assert(evolve(f, 0, a, b - 1) == alive_at(nodes, idx, 3, a, b - 1));
    assert(evolve(f, 0, a + 1, b - 1) == alive_at(nodes, idx, 3, a + 1, b - 1));
    assert(evolve(f, 0, a - 1, b) == alive_at(nodes, idx, 3, a - 1, b));
    assert(evolve(f, 0, a + 1, b) == alive_at(nodes, idx, 3, a + 1, b));
    assert(evolve(f, 0, a - 1, b + 1) == alive_at(nodes, idx, 3, a - 1, b + 1));
    assert(evolve(f, 0, a, b + 1) == alive_at(nodes, idx, 3, a, b + 1));
    assert(evolve(f, 0, a + 1, b + 1) == alive_at(nodes, idx, 3, a + 1, b + 1));
}

/// Two generations of an 8x8 block, read two cells inside it, are Life on the plane.
proof fn lemma_base_two(nodes: Seq<LifeNode>, idx: u32, x: int, y: int)
    requires
        2 <= x < 6,
        2 <= y < 6,
    ensures
        next_gen2(nodes, idx, 3, x, y) == evolve(node_fn(nodes, idx, 3), 2, x, y),
{
    let f = node_fn(nodes, idx, 3);
    assert(next_gen(nodes, idx, 3, x, y) == evolve(f, 1, x, y)) by { lemma_base_one(nodes, idx, x, y); }
    assert(next_gen(nodes, idx, 3, x - 1, y - 1) == evolve(f, 1, x - 1, y - 1)) by { lemma_base_one(nodes, idx, x - 1, y - 1); }
    assert(next_gen(nodes, idx, 3, x, y - 1) == evolve(f, 1, x, y - 1)) by { lemma_base_one(nodes, idx, x, y - 1); }
    assert(next_gen(nodes, idx, 3, x + 1, y - 1) == evolve(f, 1, x + 1, y - 1)) by { lemma_base_one(nodes, idx, x + 1, y - 1); }
    assert(next_gen(nodes, idx, 3, x - 1, y) == evolve(f, 1, x - 1, y)) by { lemma_base_one(nodes, idx, x - 1, y); }
    assert(next_gen(nodes, idx, 3, x + 1, y) == evolve(f, 1, x + 1, y)) by { lemma_base_one(nodes, idx, x + 1, y); }
    assert(next_gen(nodes, idx, 3, x - 1, y + 1) == evolve(f, 1, x - 1, y + 1)) by { lemma_base_one(nodes, idx, x - 1, y + 1); }
    assert(next_gen(nodes, idx, 3, x, y + 1) == evolve(f, 1, x, y + 1)) by { lemma_base_one(nodes, idx, x, y + 1); }
    assert(next_gen(nodes, idx, 3, x + 1, y + 1) == evolve(f, 1, x + 1, y + 1)) by { lemma_base_one(nodes, idx, x + 1, y + 1); }
}

/// The two-generation base case is the jump of a level-3 node.
proof fn lemma_base_jump(c1: &HashLifeCache, c2: &HashLifeCache, idx: u32, r: u32)
    requires
        c1.wf(),
        c1.extended_by(c2),
        c1.valid(idx),
        forall|x: int, y: int|
            0 <= x < 4 && 0 <= y < 4 ==> #[trigger] alive_at(c2.nodes@, r, 2, x, y) == next_gen2(
                c1.nodes@,
                idx,
                3,
                x + 2,
                y + 2,
            ),
    ensures
        jump_ok(c2.nodes@, idx, 3, 2, r),
{
    lemma_pow2_small();
    lemma_node_fn_frame(c1, c2, idx, 3);
    assert forall|x: int, y: int| 0 <= x < pow2(2) && 0 <= y < pow2(2) implies #[trigger] alive_at(c2.nodes@, r, 2, x, y)
        == evolve(node_fn(c2.nodes@, idx, 3), 2, x + pow2(1), y + pow2(1)) by {
        lemma_base_two(c1.nodes@, idx, x + 2, y + 2);
    }
    crate::hashlife::evolve::lemma_jump_intro(c2.nodes@, idx, 3, 2, r);
}

/// The seventeen windows of a node of level `>= 4` that the full jump starts
/// from: the node, its four children, and the twelve grandchildren that
/// border the centre.
proof fn fast_windows(c: &HashLifeCache, node_idx: u32, level: u32) -> (ws: Set<Win>)
    requires
        c.wf(),
        c.valid(node_idx),
        level >= 4,
    ensures
        ({
            let n = c.nodes@;
            let lv = level as nat;
            let l1 = (lv - 1) as nat;
            let l2 = (lv - 2) as nat;
            let h = pow2(l1) as int;
            let q = pow2(l2) as int;
            let nw = child_of(n, node_idx, 0);
            let ne = child_of(n, node_idx, 1);
            let sw = child_of(n, node_idx, 2);
            let se = child_of(n, node_idx, 3);
            ws == set![
                (node_idx, lv, 0nat, 0int, 0int),
                (nw, l1, 0nat, 0int, 0int),
                (ne, l1, 0nat, h, 0int),
                (sw, l1, 0nat, 0int, h),
                (se, l1, 0nat, h, h),
                (child_of(n, nw, 1), l2, 0nat, q, 0int),
                (child_of(n, nw, 2), l2, 0nat, 0int, q),
                (child_of(n, nw, 3), l2, 0nat, q, q),
                (child_of(n, ne, 0), l2, 0nat, h, 0int),
                (child_of(n, ne, 2), l2, 0nat, h, q),
                (child_of(n, ne, 3), l2, 0nat, h + q, q),
                (child_of(n, sw, 0), l2, 0nat, 0int, h),
                (child_of(n, sw, 1), l2, 0nat, q, h),
                (child_of(n, sw, 3), l2, 0nat, q, h + q),
                (child_of(n, se, 0), l2, 0nat, h, h),
                (child_of(n, se, 1), l2, 0nat, h + q, h),
                (child_of(n, se, 2), l2, 0nat, h, h + q)
            ]
        }),
        windows_hold(c, node_fn(c.nodes@, node_idx, level as nat), ws),
{
    let n = c.nodes@;
    let lv = level as nat;
    let l1 = (lv - 1) as nat;
    let l2 = (lv - 2) as nat;
    let h = pow2(l1) as int;
    let q = pow2(l2) as int;
    let f = node_fn(n, node_idx, lv);
    assert(l1 + 1 == lv);
    assert(l2 + 1 == l1);
    lemma_sentinels(c);
    lemma_children_valid(c, node_idx);
    let nw = child_of(n, node_idx, 0);
    let ne = child_of(n, node_idx, 1);
    let sw = child_of(n, node_idx, 2);
    let se = child_of(n, node_idx, 3);
    lemma_children_valid(c, nw);
    lemma_children_valid(c, ne);
    lemma_children_valid(c, sw);
    lemma_children_valid(c, se);
    crate::hashlife::evolve::lemma_window_top(n, node_idx, lv);
    crate::hashlife::evolve::lemma_window_child(n, node_idx, l1, f, 0, 0, 0, 0);
    crate::hashlife::evolve::lemma_window_child(n, node_idx, l1, f, 0, 0, 0, 1);
    crate::hashlife::evolve::lemma_window_child(n, node_idx, l1, f, 0, 0, 0, 2);
    crate::hashlife::evolve::lemma_window_child(n, node_idx, l1, f, 0, 0, 0, 3);
    crate::hashlife::evolve::lemma_window_child(n, nw, l2, f, 0, 0, 0, 1);
    crate::hashlife::evolve::lemma_window_child(n, nw, l2, f, 0, 0, 0, 2);
    crate::hashlife::evolve::lemma_window_child(n, nw, l2, f, 0, 0, 0, 3);
    crate::hashlife::evolve::lemma_window_child(n, ne, l2, f, 0, h, 0, 0);
    crate::hashlife::evolve::lemma_window_child(n, ne, l2, f, 0, h, 0, 2);
    crate::hashlife::evolve::lemma_window_child(n, ne, l2, f, 0, h, 0, 3);
    crate::hashlife::evolve::lemma_window_child(n, sw, l2, f, 0, 0, h, 0);
    crate::hashlife::evolve::lemma_window_child(n, sw, l2, f, 0, 0, h, 1);
    crate::hashlife::evolve::lemma_window_child(n, sw, l2, f, 0, 0, h, 3);
    crate::hashlife::evolve::lemma_window_child(n, se, l2, f, 0, h, h, 0);
    crate::hashlife::evolve::lemma_window_child(n, se, l2, f, 0, h, h, 1);
    crate::hashlife::evolve::lemma_window_child(n, se, l2, f, 0, h, h, 2);
    let ws = set![
        (node_idx, lv, 0nat, 0int, 0int),
        (nw, l1, 0nat, 0int, 0int),
        (ne, l1, 0nat, h, 0int),
        (sw, l1, 0nat, 0int, h),
        (se, l1, 0nat, h, h),
        (child_of(n, nw, 1), l2, 0nat, q, 0int),
        (child_of(n, nw, 2), l2, 0nat, 0int, q),
        (child_of(n, nw, 3), l2, 0nat, q, q),
        (child_of(n, ne, 0), l2, 0nat, h, 0int),
        (child_of(n, ne, 2), l2, 0nat, h, q),
        (child_of(n, ne, 3), l2, 0nat, h + q, q),
        (child_of(n, sw, 0), l2, 0nat, 0int, h),
        (child_of(n, sw, 1), l2, 0nat, q, h),
        (child_of(n, sw, 3), l2, 0nat, q, h + q),
        (child_of(n, se, 0), l2, 0nat, h, h),
        (child_of(n, se, 1), l2, 0nat, h + q, h),
        (child_of(n, se, 2), l2, 0nat, h, h + q)
    ];
    assert forall|w: Win| #[trigger] ws.contains(w) implies c.valid(w.0) && crate::hashlife::evolve::window_of(
        n,
        w.0,
        w.1,
        f,
        w.2,
        w.3,
        w.4,
    ) by {
        assert(0 + 0 * h == 0);
        assert(0 + 1 * h == h);
        assert(h + 1 * q == h + q);
    }
    crate::hashlife::window::lemma_windows_intro(c, f, ws);
    ws
}

/// Every result held in the multi-generation cache is an allocated node.
pub open spec fn fast_ok(c: &HashLifeCache) -> bool {
    forall|k: (u32, u32)|
        #[trigger] pair_map(c.fast_cache).dom().contains(k) ==> {
            &&& c.valid(pair_map(c.fast_cache)[k])
            &&& c.valid(k.0)
            &&& fast_sound(c.nodes@, c.exhausted, k.0, k.1, pair_map(c.fast_cache)[k])
        }
}

/// Storing a right jump keeps the multi-generation cache sound.
pub proof fn lemma_fast_insert(c1: &HashLifeCache, c2: &HashLifeCache, k: (u32, u32), v: u32)
    requires
        fast_ok(c1),
        c1.valid(k.0),
        c1.valid(v),
        fast_sound(c1.nodes@, c1.exhausted, k.0, k.1, v),
        c2.nodes == c1.nodes,
        c2.issued == c1.issued,
        c2.exhausted == c1.exhausted,
        pair_map(c2.fast_cache) == pair_map(c1.fast_cache).insert(k, v),
    ensures
        fast_ok(c2),
{
    assert forall|j: (u32, u32)| #[trigger] pair_map(c2.fast_cache).dom().contains(j) implies {
        &&& c2.valid(pair_map(c2.fast_cache)[j])
        &&& c2.valid(j.0)
        &&& fast_sound(c2.nodes@, c2.exhausted, j.0, j.1, pair_map(c2.fast_cache)[j])
    } by {
        if j != k {
            assert(pair_map(c1.fast_cache).dom().contains(j));
        }
    }
}

/// Every result held in slow cache `m` is an allocated node of `c`.
pub open spec fn slow_ok(c: &HashLifeCache, m: AHashMap<u64, u32>) -> bool {
    forall|k: u64|
        #[trigger] slow_map(m).dom().contains(k) ==> {
            &&& c.valid(slow_map(m)[k])
            &&& c.valid(slow_key_node(k))
            &&& slow_sound(c.nodes@, c.exhausted, k, slow_map(m)[k])
        }
}

/// Allocated nodes stay allocated when the cache is extended.
pub proof fn lemma_keep_valid(c1: &HashLifeCache, c2: &HashLifeCache)
    requires
        c1.extended_by(c2),
    ensures
        forall|i: u32| c1.valid(i) ==> #[trigger] c2.valid(i),
{
}

/// The caches' results stay allocated when the cache is extended.
pub proof fn lemma_caches_frame(c1: &HashLifeCache, c2: &HashLifeCache, m1: AHashMap<u64, u32>, m2: AHashMap<u64, u32>)
    requires
        c1.wf(),
        c1.extended_by(c2),
        c1.fast_cache == c2.fast_cache,
        fast_ok(c1),
        slow_ok(c1, m1),
        slow_ok(c1, m2),
    ensures
        fast_ok(c2),
        slow_ok(c2, m1),
        slow_ok(c2, m2),
{
    lemma_fast_frame(c1, c2);
    lemma_slow_frame(c1, c2, m1);
    lemma_slow_frame(c1, c2, m2);
}

/// The multi-generation cache stays sound when the arena grows and that
/// cache is left as it was.
pub proof fn lemma_fast_frame(c1: &HashLifeCache, c2: &HashLifeCache)
    requires
        c1.wf(),
        c1.extended_by(c2),
        c1.fast_cache == c2.fast_cache,
        fast_ok(c1),
    ensures
        fast_ok(c2),
{
    assert forall|k: (u32, u32)| #[trigger] pair_map(c2.fast_cache).dom().contains(k) implies {
        &&& c2.valid(pair_map(c2.fast_cache)[k])
        &&& c2.valid(k.0)
        &&& fast_sound(c2.nodes@, c2.exhausted, k.0, k.1, pair_map(c2.fast_cache)[k])
    } by {
        assert(pair_map(c1.fast_cache).dom().contains(k));
        lemma_sound_frame(c1, c2, k.0, k.1, pair_map(c1.fast_cache)[k]);
    }
}

/// A slow cache's results stay allocated when the cache is extended.
pub proof fn lemma_slow_frame(c1: &HashLifeCache, c2: &HashLifeCache, m: AHashMap<u64, u32>)
    requires
        c1.wf(),
        c1.extended_by(c2),
        slow_ok(c1, m),
    ensures
        slow_ok(c2, m),
{
    assert forall|k: u64| #[trigger] slow_map(m).dom().contains(k) implies {
        &&& c2.valid(slow_map(m)[k])
        &&& c2.valid(slow_key_node(k))
        &&& slow_sound(c2.nodes@, c2.exhausted, k, slow_map(m)[k])
    } by {
        lemma_slow_sound_frame(c1, c2, k, slow_map(m)[k]);
    }
}

/// The children of an allocated node are allocated.
pub proof fn lemma_children_valid(c: &HashLifeCache, i: u32)
    requires
        c.wf(),
        c.valid(i),
    ensures
        c.valid(child_of(c.nodes@, i, 0)),
        c.valid(child_of(c.nodes@, i, 1)),
        c.valid(child_of(c.nodes@, i, 2)),
        c.valid(child_of(c.nodes@, i, 3)),
{
    if i >= 2 {
        assert(c.issued[i as int] == 1);
    }
}

/// The node made of the east half of `west` and the west half of `east`.
pub fn centered_horizontal(cache: &mut HashLifeCache, west: &LifeNode, east: &LifeNode) -> (r: u32)
    requires
        old(cache).wf(),
        old(cache).valid(west.north_east),
        old(cache).valid(west.south_east),
        old(cache).valid(east.north_west),
        old(cache).valid(east.south_west),
    ensures
        final(cache).wf(),
        final(cache).valid(r),
        old(cache).extended_by(&*final(cache)),
        final(cache).fast_cache == old(cache).fast_cache,
        final(cache).exhausted || node_is(final(cache).nodes@, r, west.north_east, east.north_west, west.south_east, east.south_west),
{
    cache.find_or_create(west.north_east, east.north_west, west.south_east, east.south_west)
}

/// The node made of the south half of `north` and the north half of `south`.
pub fn centered_vertical(cache: &mut HashLifeCache, north: &LifeNode, south: &LifeNode) -> (r: u32)
    requires
        old(cache).wf(),
        old(cache).valid(north.south_west),
        old(cache).valid(north.south_east),
        old(cache).valid(south.north_west),
        old(cache).valid(south.north_east),
    ensures
        final(cache).wf(),
        final(cache).valid(r),
        old(cache).extended_by(&*final(cache)),
        final(cache).fast_cache == old(cache).fast_cache,
        final(cache).exhausted || node_is(final(cache).nodes@, r, north.south_west, north.south_east, south.north_west, south.north_east),
{
    cache.find_or_create(north.south_west, north.south_east, south.north_west, south.north_east)
}

/// The node made of the inner corners of four adjacent nodes.
pub fn centered_subnode(cache: &mut HashLifeCache, nw: &LifeNode, ne: &LifeNode, sw: &LifeNode, se: &LifeNode) -> (r: u32)
    requires
        old(cache).wf(),
        old(cache).valid(nw.south_east),
        old(cache).valid(ne.south_west),
        old(cache).valid(sw.north_east),
        old(cache).valid(se.north_west),
    ensures
        final(cache).wf(),
        final(cache).valid(r),
        old(cache).extended_by(&*final(cache)),
        final(cache).fast_cache == old(cache).fast_cache,
        final(cache).exhausted || node_is(final(cache).nodes@, r, nw.south_east, ne.south_west, sw.north_east, se.north_west),
{
    cache.find_or_create(nw.south_east, ne.south_west, sw.north_east, se.north_west)
}

/// The first half of a full jump: the nine overlapping subblocks, each
/// jumped by a quarter of the node's width.
#[verifier::rlimit(100)]
#[verifier::spinoff_prover]
fn fast_nine(
    cache: &mut HashLifeCache,
    level: u32,
    subs: (u32, u32, u32, u32, u32, u32, u32, u32, u32),
    Ghost(f): Ghost<spec_fn(int, int) -> bool>,
    Ghost(pc): Ghost<bool>,
    Ghost(ws): Ghost<Set<Win>>,
    Ghost(ins): Ghost<(Win, Win, Win, Win, Win, Win, Win, Win, Win)>,
) -> (ns: (u32, u32, u32, u32, u32, u32, u32, u32, u32))
    requires
        old(cache).wf(),
        fast_ok(&*old(cache)),
        4 <= level,
        old(cache).valid(subs.0) && old(cache).valid(subs.1) && old(cache).valid(subs.2),
        old(cache).valid(subs.3) && old(cache).valid(subs.4) && old(cache).valid(subs.5),
        old(cache).valid(subs.6) && old(cache).valid(subs.7) && old(cache).valid(subs.8),
        old(cache).exhausted || !pc || windows_hold(&*old(cache), f, ws),
        ({
            let l1 = (level - 1) as nat;
            let h = pow2(l1) as int;
            let q = pow2((level - 2) as nat) as int;
            &&& ins.0 == (subs.0, l1, 0nat, 0int, 0int)
            &&& ins.1 == (subs.1, l1, 0nat, q, 0int)
            &&& ins.2 == (subs.2, l1, 0nat, h, 0int)
            &&& ins.3 == (subs.3, l1, 0nat, 0int, q)
            &&& ins.4 == (subs.4, l1, 0nat, q, q)
            &&& ins.5 == (subs.5, l1, 0nat, h, q)
            &&& ins.6 == (subs.6, l1, 0nat, 0int, h)
            &&& ins.7 == (subs.7, l1, 0nat, q, h)
            &&& ins.8 == (subs.8, l1, 0nat, h, h)
        }),
        ws.contains(ins.0) && ws.contains(ins.1) && ws.contains(ins.2),
        ws.contains(ins.3) && ws.contains(ins.4) && ws.contains(ins.5),
        ws.contains(ins.6) && ws.contains(ins.7) && ws.contains(ins.8),
    ensures
        final(cache).wf(),
        fast_ok(&*final(cache)),
        final(cache).valid(ns.0) && final(cache).valid(ns.1) && final(cache).valid(ns.2),
        final(cache).valid(ns.3) && final(cache).valid(ns.4) && final(cache).valid(ns.5),
        final(cache).valid(ns.6) && final(cache).valid(ns.7) && final(cache).valid(ns.8),
        old(cache).extended_by(&*final(cache)),
        final(cache).exhausted || !pc || windows_hold(
            &*final(cache),
            f,
            set![
                jumped(ins.0, ns.0),
                jumped(ins.1, ns.1),
                jumped(ins.2, ns.2),
                jumped(ins.3, ns.3),
                jumped(ins.4, ns.4),
                jumped(ins.5, ns.5),
                jumped(ins.6, ns.6),
                jumped(ins.7, ns.7),
                jumped(ins.8, ns.8)
            ],
        ),
    decreases level, 0nat,
{
    let ghost lv: nat = level as nat;
    let ghost sd: int = pow2(lv) as int;
    let ghost gq: nat = pow2((lv - 2) as nat);
    let ghost mut ws = ws;
    let (nw_idx, ch_nw_ne, ne_idx, cv_nw_sw, cs_node, cv_ne_se, sw_idx, ch_sw_se, se_idx) = subs;
    let ghost (w_nw, w_01, w_ne, w_10, w_11, w_12, w_sw, w_21, w_se) = ins;
    proof {
        lemma_pow2_steps(lv);
        assert(((lv - 1) as nat) as u32 == level - 1);
    }
    let ghost t0 = *cache;
    let n00 = advance_fast(cache, nw_idx, level - 1);
    let ghost j00 = jumped(w_nw, n00);
    proof {
        lemma_keep_valid(&t0, cache);
        lemma_step_jump(&t0, cache, f, ws, pc, w_nw, n00, sd, gq);
        ws = ws.insert(j00);
    }
    let ghost t1 = *cache;
    let n01 = advance_fast(cache, ch_nw_ne, level - 1);
    let ghost j01 = jumped(w_01, n01);
    proof {
        lemma_keep_valid(&t1, cache);
        lemma_step_jump(&t1, cache, f, ws, pc, w_01, n01, sd, gq);
        ws = ws.insert(j01);
    }
    let ghost t2 = *cache;
    let n02 = advance_fast(cache, ne_idx, level - 1);
    let ghost j02 = jumped(w_ne, n02);
    proof {
        lemma_keep_valid(&t2, cache);
        lemma_step_jump(&t2, cache, f, ws, pc, w_ne, n02, sd, gq);
        ws = ws.insert(j02);
    }
    let ghost t3 = *cache;
    let n10 = advance_fast(cache, cv_nw_sw, level - 1);
    let ghost j10 = jumped(w_10, n10);
    proof {
        lemma_keep_valid(&t3, cache);
        lemma_step_jump(&t3, cache, f, ws, pc, w_10, n10, sd, gq);
        ws = ws.insert(j10);
    }
    let ghost t4 = *cache;
    let n11 = advance_fast(cache, cs_node, level - 1);
    let ghost j11 = jumped(w_11, n11);
    proof {
        lemma_keep_valid(&t4, cache);
        lemma_step_jump(&t4, cache, f, ws, pc, w_11, n11, sd, gq);
        ws = ws.insert(j11);
    }
    let ghost t5 = *cache;
    let n12 = advance_fast(cache, cv_ne_se, level - 1);
    let ghost j12 = jumped(w_12, n12);
    proof {
        lemma_keep_valid(&t5, cache);
        lemma_step_jump(&t5, cache, f, ws, pc, w_12, n12, sd, gq);
        ws = ws.insert(j12);
    }
    let ghost t6 = *cache;
    let n20 = advance_fast(cache, sw_idx, level - 1);
    let ghost j20 = jumped(w_sw, n20);
    proof {
        lemma_keep_valid(&t6, cache);
        lemma_step_jump(&t6, cache, f, ws, pc, w_sw, n20, sd, gq);
        ws = ws.insert(j20);
    }
    let ghost t7 = *cache;
    let n21 = advance_fast(cache, ch_sw_se, level - 1);
    let ghost j21 = jumped(w_21, n21);
    proof {
        lemma_keep_valid(&t7, cache);
        lemma_step_jump(&t7, cache, f, ws, pc, w_21, n21, sd, gq);
        ws = ws.insert(j21);
    }
    let ghost t8 = *cache;
    let n22 = advance_fast(cache, se_idx, level - 1);
    let ghost j22 = jumped(w_se, n22);
    proof {
        lemma_keep_valid(&t8, cache);
        lemma_step_jump(&t8, cache, f, ws, pc, w_se, n22, sd, gq);
        ws = ws.insert(j22);
        lemma_extended_trans(&*old(cache), &t0, &t1);
        lemma_extended_trans(&*old(cache), &t1, &t2);
        lemma_extended_trans(&*old(cache), &t2, &t3);
        lemma_extended_trans(&*old(cache), &t3, &t4);
        lemma_extended_trans(&*old(cache), &t4, &t5);
        lemma_extended_trans(&*old(cache), &t5, &t6);
        lemma_extended_trans(&*old(cache), &t6, &t7);
        lemma_extended_trans(&*old(cache), &t7, &t8);
        lemma_extended_trans(&*old(cache), &t8, &*cache);
    }
    proof {
        let out = set![j00, j01, j02, j10, j11, j12, j20, j21, j22];
        if !cache.exhausted && pc {
            assert forall|w: Win| #[trigger] out.contains(w) implies cache.valid(w.0) && crate::hashlife::evolve::window_of(
                cache.nodes@,
                w.0,
                w.1,
                f,
                w.2,
                w.3,
                w.4,
            ) by {
                crate::hashlife::window::lemma_windows_elim(cache, f, ws, w);
            }
            crate::hashlife::window::lemma_windows_intro(cache, f, out);
        }
    }
    (n00, n01, n02, n10, n11, n12, n20, n21, n22)
}

/// The second half of a full jump: the four windows made of the nine
/// half-jumped blocks, each jumped again, assembled into the result.
#[verifier::rlimit(100)]
#[verifier::spinoff_prover]
fn fast_finish(
    cache: &mut HashLifeCache,
    level: u32,
    ns: (u32, u32, u32, u32, u32, u32, u32, u32, u32),
    Ghost(f): Ghost<spec_fn(int, int) -> bool>,
    Ghost(pc): Ghost<bool>,
    Ghost(ws): Ghost<Set<Win>>,
    Ghost(js): Ghost<(Win, Win, Win, Win, Win, Win, Win, Win, Win)>,
) -> (result: u32)
    requires
        old(cache).wf(),
        fast_ok(&*old(cache)),
        4 <= level,
        old(cache).valid(ns.0) && old(cache).valid(ns.1) && old(cache).valid(ns.2),
        old(cache).valid(ns.3) && old(cache).valid(ns.4) && old(cache).valid(ns.5),
        old(cache).valid(ns.6) && old(cache).valid(ns.7) && old(cache).valid(ns.8),
        old(cache).exhausted || !pc || windows_hold(&*old(cache), f, ws),
        ({
            let l2 = (level - 2) as nat;
            let q = pow2(l2) as int;
            let e = pow2((level - 3) as nat);
            &&& js.0 == (ns.0, l2, e, e as int, e as int)
            &&& js.1 == (ns.1, l2, e, q + e, e as int)
            &&& js.2 == (ns.2, l2, e, 2 * q + e, e as int)
            &&& js.3 == (ns.3, l2, e, e as int, q + e)
            &&& js.4 == (ns.4, l2, e, q + e, q + e)
            &&& js.5 == (ns.5, l2, e, 2 * q + e, q + e)
            &&& js.6 == (ns.6, l2, e, e as int, 2 * q + e)
            &&& js.7 == (ns.7, l2, e, q + e, 2 * q + e)
            &&& js.8 == (ns.8, l2, e, 2 * q + e, 2 * q + e)
        }),
        ws.contains(js.0) && ws.contains(js.1) && ws.contains(js.2),
        ws.contains(js.3) && ws.contains(js.4) && ws.contains(js.5),
        ws.contains(js.6) && ws.contains(js.7) && ws.contains(js.8),
    ensures
        final(cache).wf(),
        fast_ok(&*final(cache)),
        final(cache).valid(result),
        old(cache).extended_by(&*final(cache)),
        final(cache).exhausted || !pc || crate::hashlife::evolve::window_of(
            final(cache).nodes@,
            result,
            (level - 1) as nat,
            f,
            pow2((level - 2) as nat),
            pow2((level - 2) as nat) as int,
            pow2((level - 2) as nat) as int,
        ),
    decreases level, 0nat,
{
    let ghost lv: nat = level as nat;
    let ghost sd: int = pow2(lv) as int;
    let ghost gq: nat = pow2((lv - 2) as nat);
    let ghost mut ws = ws;
    let (n00, n01, n02, n10, n11, n12, n20, n21, n22) = ns;
    let ghost (j00, j01, j02, j10, j11, j12, j20, j21, j22) = js;
    proof {
        lemma_pow2_steps(lv);
        assert(((lv - 1) as nat) as u32 == level - 1);
    }
    let ghost u0 = *cache;
    let tl = cache.find_or_create(n00, n01, n10, n11);
    let ghost w_tl = quad_of(j00, tl);
    proof {
        lemma_keep_valid(&u0, cache);
        lemma_fast_frame(&u0, cache);
        lemma_step_quad(&u0, cache, f, ws, pc, tl, j00, j01, j10, j11);
        ws = ws.insert(w_tl);
    }
    let ghost u1 = *cache;
    let tr = cache.find_or_create(n01, n02, n11, n12);
    let ghost w_tr = quad_of(j01, tr);
    proof {
        lemma_keep_valid(&u1, cache);
        lemma_fast_frame(&u1, cache);
        lemma_step_quad(&u1, cache, f, ws, pc, tr, j01, j02, j11, j12);
        ws = ws.insert(w_tr);
    }
    let ghost u2 = *cache;
    let bl = cache.find_or_create(n10, n11, n20, n21);
    let ghost w_bl = quad_of(j10, bl);
    proof {
        lemma_keep_valid(&u2, cache);
        lemma_fast_frame(&u2, cache);
        lemma_step_quad(&u2, cache, f, ws, pc, bl, j10, j11, j20, j21);
        ws = ws.insert(w_bl);
    }
    let ghost u3 = *cache;
    let br = cache.find_or_create(n11, n12, n21, n22);
    let ghost w_br = quad_of(j11, br);
    proof {
        lemma_keep_valid(&u3, cache);
        lemma_fast_frame(&u3, cache);
        lemma_step_quad(&u3, cache, f, ws, pc, br, j11, j12, j21, j22);
        ws = ws.insert(w_br);
        lemma_extended_trans(&*old(cache), &u0, &u1);
        lemma_extended_trans(&*old(cache), &u1, &u2);
        lemma_extended_trans(&*old(cache), &u2, &u3);
        lemma_extended_trans(&*old(cache), &u3, &*cache);
    }
    let ghost v0 = *cache;
    let top_left = advance_fast(cache, tl, level - 1);
    let ghost k00 = jumped(w_tl, top_left);
    proof {
        lemma_keep_valid(&v0, cache);
        lemma_step_jump(&v0, cache, f, ws, pc, w_tl, top_left, sd, gq);
        ws = ws.insert(k00);
    }
    let ghost v1 = *cache;
    let top_right = advance_fast(cache, tr, level - 1);
    let ghost k01 = jumped(w_tr, top_right);
    proof {
        lemma_keep_valid(&v1, cache);
        lemma_step_jump(&v1, cache, f, ws, pc, w_tr, top_right, sd, gq);
        ws = ws.insert(k01);
    }
    let ghost v2 = *cache;
    let bottom_left = advance_fast(cache, bl, level - 1);
    let ghost k10 = jumped(w_bl, bottom_left);
    proof {
        lemma_keep_valid(&v2, cache);
        lemma_step_jump(&v2, cache, f, ws, pc, w_bl, bottom_left, sd, gq);
        ws = ws.insert(k10);
    }
    let ghost v3 = *cache;
    let bottom_right = advance_fast(cache, br, level - 1);
    let ghost k11 = jumped(w_br, bottom_right);
    proof {
        lemma_keep_valid(&v3, cache);
        lemma_step_jump(&v3, cache, f, ws, pc, w_br, bottom_right, sd, gq);
        ws = ws.insert(k11);
        lemma_extended_trans(&*old(cache), &v0, &v1);
        lemma_extended_trans(&*old(cache), &v1, &v2);
        lemma_extended_trans(&*old(cache), &v2, &v3);
        lemma_extended_trans(&*old(cache), &v3, &*cache);
    }
    let ghost w0 = *cache;
    let result = cache.find_or_create(top_left, top_right, bottom_left, bottom_right);
    proof {
        lemma_extended_trans(&*old(cache), &w0, &*cache);
        lemma_fast_frame(&w0, cache);
        lemma_step_quad(&w0, cache, f, ws, pc, result, k00, k01, k10, k11);
        if !cache.exhausted && pc {
            let wr = quad_of(k00, result);
            crate::hashlife::window::lemma_windows_elim(cache, f, ws.insert(wr), wr);
            assert(wr == (result, (lv - 1) as nat, gq, gq as int, gq as int));
        }
    }
    result
}

/// `2^l` for the four levels a full jump of a level-`l` node touches.
proof fn lemma_pow2_steps(lv: nat)
    requires
        lv >= 4,
    ensures
        pow2(lv) == 2 * pow2((lv - 1) as nat),
        pow2((lv - 1) as nat) == 2 * pow2((lv - 2) as nat),
        pow2((lv - 2) as nat) == 2 * pow2((lv - 3) as nat),
        pow2((lv - 3) as nat) >= 2,
{
    assert(((lv - 1) as nat - 1) as nat == (lv - 2) as nat);
    assert(((lv - 2) as nat - 1) as nat == (lv - 3) as nat);
    lemma_pow2_small();
    lemma_pow2_mono(1, (lv - 3) as nat);
}

/// Advances node `node_idx` of level `level` by `2^(level - 2)` generations,
/// giving its centre one level down (memoized in the multi-generation cache).
/// Unless the arena ran out, the result is Life's: the central half of the
/// node's block `2^(level - 2)` generations on, whenever the level is at
/// least 3 (`fast_premise`).
#[verifier::rlimit(100)]
#[verifier::spinoff_prover]
pub fn advance_fast(cache: &mut HashLifeCache, node_idx: u32, level: u32) -> (r: u32)
    requires
        old(cache).wf(),
        fast_ok(&*old(cache)),
        old(cache).valid(node_idx),
    ensures
        final(cache).wf(),
        fast_ok(&*final(cache)),
        final(cache).valid(r),
        old(cache).extended_by(&*final(cache)),
        node_idx == FALSE_NODE ==> r == FALSE_NODE,
        node_idx == TRUE_NODE && level >= 3 ==> r == FALSE_NODE,
        level < 3 ==> r == node_idx,
        !final(cache).exhausted && fast_premise(old(cache).nodes@, node_idx, level) ==> jump_ok(
            final(cache).nodes@,
            node_idx,
            level as nat,
            pow2((level - 2) as nat),
            r,
        ),
        node_idx != FALSE_NODE && node_idx != TRUE_NODE && level >= 3 ==> pair_map(final(cache).fast_cache).contains_key(
            (node_idx, level),
        ) && pair_map(final(cache).fast_cache)[(node_idx, level)] == r,
        node_idx != FALSE_NODE && node_idx != TRUE_NODE && level >= 3 && pair_map(old(cache).fast_cache).contains_key(
            (node_idx, level),
        ) ==> r == pair_map(old(cache).fast_cache)[(node_idx, level)] && *final(cache) == *old(cache),
    decreases level, 1nat,
{
    if node_idx == FALSE_NODE {
        proof {
            if level >= 3 {
                lemma_false_jump(cache.nodes@, level as nat, pow2((level - 2) as nat));
            }
        }
        return FALSE_NODE;
    }
    if node_idx == TRUE_NODE && level >= 3 {
        proof {
            lemma_pow2_mono(0, (level - 2) as nat);
            lemma_pow2_mono((level - 2) as nat, (level - 2) as nat);
            lemma_true_jump(cache.nodes@, level as nat, pow2((level - 2) as nat));
        }
        return FALSE_NODE;
    }
    if level < 3 {
        return node_idx;
    }
    let fkey = (node_idx, level);
    match pair_get(&cache.fast_cache, fkey) {
        Some(cached) => {
            return cached;
        },
        None => {},
    }
    if level == 3 {
        let ghost s = *cache;
        let result = advance_base_two_gen(cache, node_idx);
        proof {
            lemma_keep_valid(&s, cache);
            lemma_fast_frame(&s, cache);
            lemma_pow2_small();
            if !cache.exhausted {
                lemma_base_jump(&s, cache, node_idx, result);
            }
            lemma_node_fn_frame(&s, cache, node_idx, 3);
        }
        let ghost c1 = *cache;
        pair_insert(&mut cache.fast_cache, fkey, result);
        proof {
            lemma_fast_insert(&c1, cache, fkey, result);
        }
        return result;
    }
    let node = cache.get_node(node_idx);
    let nw_idx = node.north_west;
    let ne_idx = node.north_east;
    let sw_idx = node.south_west;
    let se_idx = node.south_east;
    proof {
        lemma_children_valid(cache, node_idx);
        lemma_children_valid(cache, nw_idx);
        lemma_children_valid(cache, ne_idx);
        lemma_children_valid(cache, sw_idx);
        lemma_children_valid(cache, se_idx);
    }
    let nw_node = cache.get_node(nw_idx);
    let ne_node = cache.get_node(ne_idx);
    let sw_node = cache.get_node(sw_idx);
    let se_node = cache.get_node(se_idx);
    let ghost lv: nat = level as nat;
    let ghost l1: nat = (lv - 1) as nat;
    let ghost l2: nat = (lv - 2) as nat;
    let ghost h: int = pow2(l1) as int;
    let ghost q: int = pow2(l2) as int;
    let ghost f = node_fn(cache.nodes@, node_idx, lv);
    let ghost pc = fast_premise(cache.nodes@, node_idx, level);
    let ghost sd: int = pow2(lv) as int;
    let ghost gq: nat = pow2(l2);
    let ghost n = cache.nodes@;
    let ghost w_nw: Win = (nw_idx, l1, 0nat, 0int, 0int);
    let ghost w_ne: Win = (ne_idx, l1, 0nat, h, 0int);
    let ghost w_sw: Win = (sw_idx, l1, 0nat, 0int, h);
    let ghost w_se: Win = (se_idx, l1, 0nat, h, h);
    let ghost w_nw_ne: Win = (child_of(n, nw_idx, 1), l2, 0nat, q, 0int);
    let ghost w_nw_sw: Win = (child_of(n, nw_idx, 2), l2, 0nat, 0int, q);
    let ghost w_nw_se: Win = (child_of(n, nw_idx, 3), l2, 0nat, q, q);
    let ghost w_ne_nw: Win = (child_of(n, ne_idx, 0), l2, 0nat, h, 0int);
    let ghost w_ne_sw: Win = (child_of(n, ne_idx, 2), l2, 0nat, h, q);
    let ghost w_ne_se: Win = (child_of(n, ne_idx, 3), l2, 0nat, h + q, q);
    let ghost w_sw_nw: Win = (child_of(n, sw_idx, 0), l2, 0nat, 0int, h);
    let ghost w_sw_ne: Win = (child_of(n, sw_idx, 1), l2, 0nat, q, h);
    let ghost w_sw_se: Win = (child_of(n, sw_idx, 3), l2, 0nat, q, h + q);
    let ghost w_se_nw: Win = (child_of(n, se_idx, 0), l2, 0nat, h, h);
    let ghost w_se_ne: Win = (child_of(n, se_idx, 1), l2, 0nat, h + q, h);
    let ghost w_se_sw: Win = (child_of(n, se_idx, 2), l2, 0nat, h, h + q);
    let ghost mut ws: Set<Win> = Set::empty();
    proof {
        ws = fast_windows(cache, node_idx, level);
        lemma_pow2_steps(lv);
        assert(l1 as u32 == level - 1);
        assert(ws.contains(w_nw) && ws.contains(w_ne) && ws.contains(w_sw) && ws.contains(w_se));
        assert(ws.contains(w_nw_ne) && ws.contains(w_nw_sw) && ws.contains(w_nw_se));
        assert(ws.contains(w_ne_nw) && ws.contains(w_ne_sw) && ws.contains(w_ne_se));
        assert(ws.contains(w_sw_nw) && ws.contains(w_sw_ne) && ws.contains(w_sw_se));
        assert(ws.contains(w_se_nw) && ws.contains(w_se_ne) && ws.contains(w_se_sw));
    }
    let ghost s0 = *cache;
    let ch_nw_ne = centered_horizontal(cache, &nw_node, &ne_node);
    let ghost w_01 = quad_of(w_nw_ne, ch_nw_ne);
    proof {
        lemma_keep_valid(&s0, cache);
        lemma_fast_frame(&s0, cache);
        lemma_step_quad(&s0, cache, f, ws, pc, ch_nw_ne, w_nw_ne, w_ne_nw, w_nw_se, w_ne_sw);
        ws = ws.insert(w_01);
    }
    let ghost s1 = *cache;
    let cv_nw_sw = centered_vertical(cache, &nw_node, &sw_node);
    let ghost w_10 = quad_of(w_nw_sw, cv_nw_sw);
    proof {
        lemma_keep_valid(&s1, cache);
        lemma_fast_frame(&s1, cache);
        lemma_step_quad(&s1, cache, f, ws, pc, cv_nw_sw, w_nw_sw, w_nw_se, w_sw_nw, w_sw_ne);
        ws = ws.insert(w_10);
    }
    let ghost s2 = *cache;
    let cs_node = centered_subnode(cache, &nw_node, &ne_node, &sw_node, &se_node);
    let ghost w_11 = quad_of(w_nw_se, cs_node);
    proof {
        lemma_keep_valid(&s2, cache);
        lemma_fast_frame(&s2, cache);
        lemma_step_quad(&s2, cache, f, ws, pc, cs_node, w_nw_se, w_ne_sw, w_sw_ne, w_se_nw);
        ws = ws.insert(w_11);
    }
    let ghost s3 = *cache;
    let cv_ne_se = centered_vertical(cache, &ne_node, &se_node);
    let ghost w_12 = quad_of(w_ne_sw, cv_ne_se);
    proof {
        lemma_keep_valid(&s3, cache);
        lemma_fast_frame(&s3, cache);
        lemma_step_quad(&s3, cache, f, ws, pc, cv_ne_se, w_ne_sw, w_ne_se, w_se_nw, w_se_ne);
        ws = ws.insert(w_12);
    }
    let ghost s4 = *cache;
    let ch_sw_se = centered_horizontal(cache, &sw_node, &se_node);
    let ghost w_21 = quad_of(w_sw_ne, ch_sw_se);
    proof {
        lemma_keep_valid(&s4, cache);
        lemma_fast_frame(&s4, cache);
        lemma_step_quad(&s4, cache, f, ws, pc, ch_sw_se, w_sw_ne, w_se_nw, w_sw_se, w_se_sw);
        ws = ws.insert(w_21);
        lemma_extended_trans(&*old(cache), &s1, &s2);
        lemma_extended_trans(&*old(cache), &s2, &s3);
        lemma_extended_trans(&*old(cache), &s3, &s4);
        lemma_extended_trans(&*old(cache), &s4, &*cache);
    }
    let ns = fast_nine(
        cache,
        level,
        (nw_idx, ch_nw_ne, ne_idx, cv_nw_sw, cs_node, cv_ne_se, sw_idx, ch_sw_se, se_idx),
        Ghost(f),
        Ghost(pc),
        Ghost(ws),
        Ghost((w_nw, w_01, w_ne, w_10, w_11, w_12, w_sw, w_21, w_se)),
    );
    let ghost (j00, j01, j02, j10, j11, j12, j20, j21, j22) = (
        jumped(w_nw, ns.0),
        jumped(w_01, ns.1),
        jumped(w_ne, ns.2),
        jumped(w_10, ns.3),
        jumped(w_11, ns.4),
        jumped(w_12, ns.5),
        jumped(w_sw, ns.6),
        jumped(w_21, ns.7),
        jumped(w_se, ns.8),
    );
    proof {
        ws = set![j00, j01, j02, j10, j11, j12, j20, j21, j22];
        assert(((l1 - 2) as nat) == (lv - 3) as nat);
    }
    let result = fast_finish(
        cache,
        level,
        ns,
        Ghost(f),
        Ghost(pc),
        Ghost(ws),
        Ghost((j00, j01, j02, j10, j11, j12, j20, j21, j22)),
    );
    proof {
        lemma_node_fn_frame(&*old(cache), cache, node_idx, lv);
        if !cache.exhausted && pc {
            lemma_window_final(cache.nodes@, node_idx, lv, gq, result);
        }
    }
    let ghost c1 = *cache;
    pair_insert(&mut cache.fast_cache, fkey, result);
    proof {
        lemma_fast_insert(&c1, cache, fkey, result);
    }
    result
}


/// Every entry of a segment table is an allocated node.
pub open spec fn segments_ok(c: &HashLifeCache, seg: Seq<u32>) -> bool {
    seg.len() == 64 && forall|i: int| 0 <= i < 64 ==> c.valid(#[trigger] seg[i])
}

/// Entry `(r, c)` (row, column) of an 8x8 segment table.
pub open spec fn seg_at(seg: Seq<u32>, r: int, c: int) -> u32 {
    seg[r * 8 + c]
}

/// Entry `(r, c)` of the table is the block of `f` of side `2^base` at
/// `(ox + c * 2^base, oy + r * 2^base)`.
pub open spec fn seg_window(nodes: Seq<LifeNode>, seg: Seq<u32>, r: int, c: int, base: nat, f: spec_fn(int, int) -> bool, ox: int, oy: int) -> bool {
    window_of(nodes, seg_at(seg, r, c), base, f, 0, ox + c * pow2(base), oy + r * pow2(base))
}

/// A uniform block written over a `step`-wide square of the table holds, at
/// each entry, its own part.
proof fn lemma_uniform_cell(
    nodes: Seq<LifeNode>,
    v: u32,
    level: nat,
    base: nat,
    f: spec_fn(int, int) -> bool,
    ox: int,
    oy: int,
    row: int,
    col: int,
    step: int,
    r: int,
    c: int,
)
    requires
        v == FALSE_NODE || v == TRUE_NODE,
        window_of(nodes, v, base + level, f, 0, ox + col * pow2(base), oy + row * pow2(base)),
        step == pow2(level),
        row <= r < row + step,
        col <= c < col + step,
    ensures
        window_of(nodes, v, base, f, 0, ox + c * pow2(base), oy + r * pow2(base)),
{
    let e = pow2(base) as int;
    crate::arith::lemma_pow2_add(level, base);
    assert(level + base == base + level);
    let dx = (c - col) * e;
    let dy = (r - row) * e;
    assert(col * e + dx == c * e) by (nonlinear_arith)
        requires
            dx == (c - col) * e,
    ;
    assert(row * e + dy == r * e) by (nonlinear_arith)
        requires
            dy == (r - row) * e,
    ;
    assert(0 <= dx && dx + e <= step * e) by (nonlinear_arith)
        requires
            dx == (c - col) * e,
            col <= c < col + step,
            e >= 0,
    ;
    assert(0 <= dy && dy + e <= step * e) by (nonlinear_arith)
        requires
            dy == (r - row) * e,
            row <= r < row + step,
            e >= 0,
    ;
    crate::hashlife::evolve::lemma_window_uniform(nodes, v, base + level, base, f, 0, ox + col * e, oy + row * e, dx, dy);
    assert(ox + col * e + dx == ox + c * e);
    assert(oy + row * e + dy == oy + r * e);
}

/// Writes node `node_idx` of level `level` into the `step` x `step` square of
/// the 8x8 segment table at `(row, col)`, one entry per subnode of the level
/// three below the table's node (a uniform or leaf node repeats). Each entry
/// written is the block of `f` at its place in the grid of side `2^base`
/// blocks whose corner is `(ox, oy)`; the entries outside the square stay.
#[verifier::rlimit(40)]
fn fill_segments(
    cache: &HashLifeCache,
    node_idx: u32,
    level: u32,
    row: usize,
    col: usize,
    step: usize,
    seg: &mut Vec<u32>,
    Ghost(f): Ghost<spec_fn(int, int) -> bool>,
    Ghost(base): Ghost<nat>,
    Ghost(ox): Ghost<int>,
    Ghost(oy): Ghost<int>,
)
    requires
        cache.wf(),
        cache.valid(node_idx),
        segments_ok(cache, old(seg)@),
        row + step <= 8,
        col + step <= 8,
        step as nat == pow2(level as nat),
        level <= 3,
        window_of(cache.nodes@, node_idx, base + level as nat, f, 0, ox + col * pow2(base), oy + row * pow2(base)),
    ensures
        segments_ok(cache, final(seg)@),
        forall|r: int, c: int|
            row <= r < row + step && col <= c < col + step ==> #[trigger] seg_window(cache.nodes@, final(seg)@, r, c, base, f, ox, oy),
        forall|r: int, c: int|
            0 <= r < 8 && 0 <= c < 8 && !(row <= r < row + step && col <= c < col + step) ==> #[trigger] seg_at(final(seg)@, r, c)
                == seg_at(old(seg)@, r, c),
    decreases level,
{
    if level == 0 || node_idx == FALSE_NODE || node_idx == TRUE_NODE {
        let v = if node_idx == TRUE_NODE { TRUE_NODE } else { node_idx };
        let mut dy: usize = 0;
        while dy < step
            invariant
                segments_ok(cache, seg@),
                cache.wf(),
                cache.valid(v),
                v == node_idx,
                level == 0 || v == FALSE_NODE || v == TRUE_NODE,
                step as nat == pow2(level as nat),
                level == 0 ==> step == 1,
                window_of(cache.nodes@, node_idx, base + level as nat, f, 0, ox + col * pow2(base), oy + row * pow2(base)),
                row + step <= 8,
                col + step <= 8,
                dy <= step,
                forall|r: int, c: int|
                    row <= r < row + dy && col <= c < col + step ==> #[trigger] seg_window(cache.nodes@, seg@, r, c, base, f, ox, oy),
                forall|r: int, c: int|
                    0 <= r < 8 && 0 <= c < 8 && !(row <= r < row + dy && col <= c < col + step) ==> #[trigger] seg_at(seg@, r, c)
                        == seg_at(old(seg)@, r, c),
            decreases step - dy,
        {
            let mut dx: usize = 0;
            while dx < step
                invariant
                    segments_ok(cache, seg@),
                    cache.wf(),
                    cache.valid(v),
                    v == node_idx,
                    level == 0 || v == FALSE_NODE || v == TRUE_NODE,
                    step as nat == pow2(level as nat),
                    level == 0 ==> step == 1,
                    window_of(cache.nodes@, node_idx, base + level as nat, f, 0, ox + col * pow2(base), oy + row * pow2(base)),
                    row + step <= 8,
                    col + step <= 8,
                    dy < step,
                    dx <= step,
                    forall|r: int, c: int|
                        (row <= r < row + dy && col <= c < col + step) || (r == row + dy && col <= c < col + dx)
                            ==> #[trigger] seg_window(cache.nodes@, seg@, r, c, base, f, ox, oy),
                    forall|r: int, c: int|
                        0 <= r < 8 && 0 <= c < 8 && !((row <= r < row + dy && col <= c < col + step) || (r == row + dy && col
                            <= c < col + dx)) ==> #[trigger] seg_at(seg@, r, c) == seg_at(old(seg)@, r, c),
                decreases step - dx,
            {
                let ghost prev = seg@;
                let ghost tr = (row + dy) as int;
                let ghost tc = (col + dx) as int;
                seg.set((row + dy) * 8 + (col + dx), v);
                proof {
                    assert(seg_at(seg@, tr, tc) == v);
                    if level == 0 {
                        crate::arith::lemma_pow2_small();
                        assert(tr == row && tc == col);
                        assert(base + level == base);
                    } else {
                        crate::arith::lemma_pow2_small();
                        lemma_uniform_cell(cache.nodes@, v, level as nat, base, f, ox, oy, row as int, col as int, step as int, tr, tc);
                    }
                    assert(seg_window(cache.nodes@, seg@, tr, tc, base, f, ox, oy));
                    assert forall|r: int, c: int| 0 <= r < 8 && 0 <= c < 8 && !(r == tr && c == tc) implies #[trigger] seg_at(seg@, r, c)
                        == seg_at(prev, r, c) by {
                        assert(r * 8 + c != tr * 8 + tc);
                    }
                    assert forall|r: int, c: int|
                        (row <= r < row + dy && col <= c < col + step) || (r == row + dy && col <= c < col + dx + 1)
                            implies #[trigger] seg_window(cache.nodes@, seg@, r, c, base, f, ox, oy) by {
                        if !(r == tr && c == tc) {
                            assert(seg_at(seg@, r, c) == seg_at(prev, r, c));
                            assert(seg_window(cache.nodes@, prev, r, c, base, f, ox, oy));
                        }
                    }
                    assert forall|r: int, c: int|
                        0 <= r < 8 && 0 <= c < 8 && !((row <= r < row + dy && col <= c < col + step) || (r == row + dy && col
                            <= c < col + dx + 1)) implies #[trigger] seg_at(seg@, r, c) == seg_at(old(seg)@, r, c) by {
                        assert(seg_at(seg@, r, c) == seg_at(prev, r, c));
                    }
                }
                dx = dx + 1;
            }
            dy = dy + 1;
        }
        return;
    }
    let node = cache.get_node(node_idx);
    let ghost e = pow2(base) as int;
    let ghost lm = (level - 1) as nat;
    proof {
        lemma_children_valid(cache, node_idx);
        lemma_pow2_small();
        assert(pow2(level as nat) == 2 * pow2(lm));
        crate::arith::lemma_pow2_add(lm, base);
        assert(lm + base == base + lm);
        assert(base + lm + 1 == base + level);
        lemma_sentinels(cache);
        crate::hashlife::evolve::lemma_window_child(cache.nodes@, node_idx, base + lm, f, 0, ox + col * e, oy + row * e, 0);
        crate::hashlife::evolve::lemma_window_child(cache.nodes@, node_idx, base + lm, f, 0, ox + col * e, oy + row * e, 1);
        crate::hashlife::evolve::lemma_window_child(cache.nodes@, node_idx, base + lm, f, 0, ox + col * e, oy + row * e, 2);
        crate::hashlife::evolve::lemma_window_child(cache.nodes@, node_idx, base + lm, f, 0, ox + col * e, oy + row * e, 3);
    }
    let half = step / 2;
    proof {
        assert(half as nat == pow2(lm));
        assert((col + half) * e == col * e + half * e) by (nonlinear_arith);
        assert((row + half) * e == row * e + half * e) by (nonlinear_arith);
        assert(half * e == pow2(base + lm));
    }
    let ghost s0 = seg@;
    fill_segments(cache, node.north_west, level - 1, row, col, half, seg, Ghost(f), Ghost(base), Ghost(ox), Ghost(oy));
    let ghost s1 = seg@;
    fill_segments(cache, node.north_east, level - 1, row, col + half, half, seg, Ghost(f), Ghost(base), Ghost(ox), Ghost(oy));
    let ghost s2 = seg@;
    fill_segments(cache, node.south_west, level - 1, row + half, col, half, seg, Ghost(f), Ghost(base), Ghost(ox), Ghost(oy));
    let ghost s3 = seg@;
    fill_segments(cache, node.south_east, level - 1, row + half, col + half, half, seg, Ghost(f), Ghost(base), Ghost(ox), Ghost(oy));
    proof {
        let h = half as int;
        assert forall|r: int, c: int| row <= r < row + step && col <= c < col + step implies #[trigger] seg_window(
            cache.nodes@,
            seg@,
            r,
            c,
            base,
            f,
            ox,
            oy,
        ) by {
            if r < row + h && c < col + h {
                assert(seg_window(cache.nodes@, s1, r, c, base, f, ox, oy));
                assert(seg_at(s2, r, c) == seg_at(s1, r, c));
                assert(seg_at(s3, r, c) == seg_at(s2, r, c));
                assert(seg_at(seg@, r, c) == seg_at(s3, r, c));
            } else if r < row + h {
                assert(seg_window(cache.nodes@, s2, r, c, base, f, ox, oy));
                assert(seg_at(s3, r, c) == seg_at(s2, r, c));
                assert(seg_at(seg@, r, c) == seg_at(s3, r, c));
            } else if c < col + h {
                assert(seg_window(cache.nodes@, s3, r, c, base, f, ox, oy));
                assert(seg_at(seg@, r, c) == seg_at(s3, r, c));
            } else {
                assert(seg_window(cache.nodes@, seg@, r, c, base, f, ox, oy));
            }
        }
        assert forall|r: int, c: int|
            0 <= r < 8 && 0 <= c < 8 && !(row <= r < row + step && col <= c < col + step) implies #[trigger] seg_at(seg@, r, c)
                == seg_at(old(seg)@, r, c) by {
            assert(seg_at(s1, r, c) == seg_at(s0, r, c));
            assert(seg_at(s2, r, c) == seg_at(s1, r, c));
            assert(seg_at(s3, r, c) == seg_at(s2, r, c));
            assert(seg_at(seg@, r, c) == seg_at(s3, r, c));
        }
    }
}

/// The 8x8 table of the subnodes three levels below node `node_idx` (of
/// level `level >= 4`), row by row: entry `(r, c)` is the block of side
/// `2^(level - 3)` at `(c, r)` times that side.
pub fn fetch_segments(cache: &HashLifeCache, node_idx: u32, Ghost(level): Ghost<nat>) -> (seg: Vec<u32>)
    requires
        cache.wf(),
        cache.valid(node_idx),
        level >= 3,
    ensures
        segments_ok(cache, seg@),
        forall|r: int, c: int|
            0 <= r < 8 && 0 <= c < 8 ==> #[trigger] seg_window(
                cache.nodes@,
                seg@,
                r,
                c,
                (level - 3) as nat,
                node_fn(cache.nodes@, node_idx, level),
                0,
                0,
            ),
{
    let mut segments: Vec<u32> = vec![FALSE_NODE; 64];
    proof {
        lemma_pow2_small();
        crate::hashlife::evolve::lemma_window_top(cache.nodes@, node_idx, level);
        assert((level - 3) as nat + 3 == level);
    }
    fill_segments(
        cache,
        node_idx,
        3,
        0,
        0,
        8,
        &mut segments,
        Ghost(node_fn(cache.nodes@, node_idx, level)),
        Ghost((level - 3) as nat),
        Ghost(0),
        Ghost(0),
    );
    segments
}

/// The node made of the 2x2 segments at `(sx, sy)` .. `(sx + 1, sy + 1)`:
/// the block of side `2^(base + 1)` at `(sx, sy)` times `2^base`.
fn segment_square(
    cache: &mut HashLifeCache,
    seg: &Vec<u32>,
    sx: usize,
    sy: usize,
    Ghost(f): Ghost<spec_fn(int, int) -> bool>,
    Ghost(base): Ghost<nat>,
) -> (r: u32)
    requires
        old(cache).wf(),
        fast_ok(&*old(cache)),
        segments_ok(&*old(cache), seg@),
        sx < 7,
        sy < 7,
        forall|r: int, c: int| 0 <= r < 8 && 0 <= c < 8 ==> #[trigger] seg_window(old(cache).nodes@, seg@, r, c, base, f, 0, 0),
    ensures
        final(cache).wf(),
        fast_ok(&*final(cache)),
        final(cache).valid(r),
        old(cache).extended_by(&*final(cache)),
        final(cache).fast_cache == old(cache).fast_cache,
        segments_ok(&*final(cache), seg@),
        forall|r: int, c: int| 0 <= r < 8 && 0 <= c < 8 ==> #[trigger] seg_window(final(cache).nodes@, seg@, r, c, base, f, 0, 0),
        final(cache).exhausted || window_of(final(cache).nodes@, r, base + 1, f, 0, sx * pow2(base), sy * pow2(base)),
{
    let ghost c0 = *cache;
    let r = cache.find_or_create(seg[sy * 8 + sx], seg[sy * 8 + sx + 1], seg[(sy + 1) * 8 + sx], seg[(sy + 1) * 8 + sx + 1]);
    proof {
        lemma_fast_frame(&c0, cache);
        lemma_keep_valid(&c0, cache);
        let e = pow2(base) as int;
        assert forall|rr: int, cc: int| 0 <= rr < 8 && 0 <= cc < 8 implies #[trigger] seg_window(cache.nodes@, seg@, rr, cc, base, f, 0, 0) by {
            assert(seg_window(c0.nodes@, seg@, rr, cc, base, f, 0, 0));
            assert(c0.valid(seg_at(seg@, rr, cc)));
            crate::hashlife::window::lemma_window_frame(&c0, cache, seg_at(seg@, rr, cc), base, f, 0, 0 + cc * e, 0 + rr * e);
        }
        if !cache.exhausted {
            let x = sx as int;
            let y = sy as int;
            assert(seg_window(cache.nodes@, seg@, y, x, base, f, 0, 0));
            assert(seg_window(cache.nodes@, seg@, y, x + 1, base, f, 0, 0));
            assert(seg_window(cache.nodes@, seg@, y + 1, x, base, f, 0, 0));
            assert(seg_window(cache.nodes@, seg@, y + 1, x + 1, base, f, 0, 0));
            assert((x + 1) * e == x * e + e) by (nonlinear_arith);
            assert((y + 1) * e == y * e + e) by (nonlinear_arith);
            crate::hashlife::evolve::lemma_window_quad(
                cache.nodes@,
                r,
                seg_at(seg@, y, x),
                seg_at(seg@, y, x + 1),
                seg_at(seg@, y + 1, x),
                seg_at(seg@, y + 1, x + 1),
                base,
                f,
                0,
                x * e,
                y * e,
            );
        }
    }
    r
}

/// The slow-cache key of `(node, level, target_depth)`: the node in the high
/// 32 bits, `level << 8 | target_depth` in the low bits.
pub fn slow_key(node_idx: u32, level: u32, target_depth: u32) -> (k: u64)
    ensures
        k == slow_key_spec(node_idx, level, target_depth),
{
    ((node_idx as u64) << 32) | (((level as u64) << 8) | (target_depth as u64))
}

/// Dispatches a node of level `level` to the single-step recursion while
/// `level - 2` exceeds `target_depth`, and to `advance_fast` from there on.
/// Either way the result is the centre one level down, Life's
/// `2^node_exp(level, target_depth)` generations on, unless the arena ran out,
/// whenever the level is at least 3 (`node_premise`); the all-alive node's
/// centre dies at once.
pub fn advance_node(
    cache: &mut HashLifeCache,
    slow_cache_n: &mut AHashMap<u64, u32>,
    slow_cache_n1: &mut AHashMap<u64, u32>,
    node_idx: u32,
    level: u32,
    target_depth: u32,
    hits: &mut u64,
    misses: &mut u64,
) -> (r: u32)
    requires
        old(cache).wf(),
        fast_ok(&*old(cache)),
        slow_ok(&*old(cache), *old(slow_cache_n)),
        slow_ok(&*old(cache), *old(slow_cache_n1)),
        old(cache).valid(node_idx),
        key_ok(level, target_depth),
    ensures
        final(cache).wf(),
        fast_ok(&*final(cache)),
        slow_ok(&*final(cache), *final(slow_cache_n)),
        slow_ok(&*final(cache), *final(slow_cache_n1)),
        final(cache).valid(r),
        old(cache).extended_by(&*final(cache)),
        *final(hits) >= *old(hits),
        *final(misses) >= *old(misses),
        node_idx == FALSE_NODE ==> r == FALSE_NODE,
        node_idx == TRUE_NODE && level >= 3 ==> r == FALSE_NODE,
        level < 3 ==> r == node_idx,
        !final(cache).exhausted && node_premise(old(cache).nodes@, node_idx, level, target_depth) ==> jump_ok(
            final(cache).nodes@,
            node_idx,
            level as nat,
            pow2(node_exp(level, target_depth)),
            r,
        ),
    decreases level, 2nat,
{
    if node_idx == FALSE_NODE {
        proof {
            if level >= 3 {
                lemma_pow2_mono(node_exp(level, target_depth), (level - 2) as nat);
                lemma_false_jump(cache.nodes@, level as nat, pow2(node_exp(level, target_depth)));
            }
        }
        return FALSE_NODE;
    }
    if node_idx == TRUE_NODE && level >= 3 {
        proof {
            lemma_pow2_mono(0, node_exp(level, target_depth));
            lemma_pow2_mono(node_exp(level, target_depth), (level - 2) as nat);
            lemma_true_jump(cache.nodes@, level as nat, pow2(node_exp(level, target_depth)));
        }
        return FALSE_NODE;
    }
    if level < 3 {
        return node_idx;
    }
    if level - 2 > target_depth {
        proof {
            assert(slow_exp(level, target_depth) == node_exp(level, target_depth));
        }
        advance_slow(cache, slow_cache_n, slow_cache_n1, node_idx, level, target_depth, hits, misses)
    } else {
        let ghost s = *cache;
        let r = advance_fast(cache, node_idx, level);
        proof {
            lemma_slow_frame(&s, cache, *slow_cache_n);
            lemma_slow_frame(&s, cache, *slow_cache_n1);
            assert(node_exp(level, target_depth) == (level - 2) as nat);
        }
        r
    }
}

/// One generation of a level-3 node is its jump by one generation.
proof fn lemma_base_jump1(c1: &HashLifeCache, c2: &HashLifeCache, idx: u32, r: u32)
    requires
        c1.wf(),
        c1.extended_by(c2),
        c1.valid(idx),
        forall|x: int, y: int|
            0 <= x < 4 && 0 <= y < 4 ==> #[trigger] alive_at(c2.nodes@, r, 2, x, y) == next_gen(
                c1.nodes@,
                idx,
                3,
                x + 2,
                y + 2,
            ),
    ensures
        jump_ok(c2.nodes@, idx, 3, 1, r),
{
    lemma_pow2_small();
    lemma_node_fn_frame(c1, c2, idx, 3);
    assert forall|x: int, y: int| 0 <= x < pow2(2) && 0 <= y < pow2(2) implies #[trigger] alive_at(c2.nodes@, r, 2, x, y)
        == evolve(node_fn(c2.nodes@, idx, 3), 1, x + pow2(1), y + pow2(1)) by {
        lemma_base_one(c1.nodes@, idx, x + 2, y + 2);
    }
    crate::hashlife::evolve::lemma_jump_intro(c2.nodes@, idx, 3, 1, r);
}

/// Storing a right jump under its key keeps a slow-cache tier sound.
proof fn lemma_slow_insert(c: &HashLifeCache, m1: AHashMap<u64, u32>, m2: AHashMap<u64, u32>, idx: u32, level: u32, td: u32, v: u32)
    requires
        slow_ok(c, m1),
        c.valid(idx),
        c.valid(v),
        key_ok(level, td),
        !c.exhausted && slow_premise(c.nodes@, idx, level, td) ==> jump_ok(c.nodes@, idx, level as nat, pow2(slow_exp(level, td)), v),
        slow_map(m2) == slow_map(m1).insert(slow_key_spec(idx, level, td), v),
    ensures
        slow_ok(c, m2),
{
    let key = slow_key_spec(idx, level, td);
    lemma_slow_key_unique(idx, level, td, idx, level, td);
    assert forall|k: u64| #[trigger] slow_map(m2).dom().contains(k) implies {
        &&& c.valid(slow_map(m2)[k])
        &&& c.valid(slow_key_node(k))
        &&& slow_sound(c.nodes@, c.exhausted, k, slow_map(m2)[k])
    } by {
        if k == key {
            assert forall|a: u32, b: u32, t: u32|
                #[trigger] slow_key_spec(a, b, t) == k && key_ok(b, t) && !c.exhausted && slow_premise(c.nodes@, a, b, t)
                    implies jump_ok(c.nodes@, a, b as nat, pow2(slow_exp(b, t)), v) by {
                lemma_slow_key_unique(a, b, t, idx, level, td);
            }
        } else {
            assert(slow_map(m1).dom().contains(k));
        }
    }
}

/// A slow-cache tier with an entry dropped stays sound.
proof fn lemma_slow_remove(c: &HashLifeCache, m1: AHashMap<u64, u32>, m2: AHashMap<u64, u32>, key: u64)
    requires
        slow_ok(c, m1),
        slow_map(m2) == slow_map(m1).remove(key),
    ensures
        slow_ok(c, m2),
{
    assert forall|k: u64| #[trigger] slow_map(m2).dom().contains(k) implies {
        &&& c.valid(slow_map(m2)[k])
        &&& c.valid(slow_key_node(k))
        &&& slow_sound(c.nodes@, c.exhausted, k, slow_map(m2)[k])
    } by {
        assert(slow_map(m1).dom().contains(k));
    }
}

/// An entry moved from one slow-cache tier to the other stays sound.
proof fn lemma_slow_move(c: &HashLifeCache, m1: AHashMap<u64, u32>, m2: AHashMap<u64, u32>, src: AHashMap<u64, u32>, key: u64)
    requires
        slow_ok(c, m1),
        slow_ok(c, src),
        slow_map(src).dom().contains(key),
        slow_map(m2) == slow_map(m1).insert(key, slow_map(src)[key]),
    ensures
        slow_ok(c, m2),
{
    assert forall|k: u64| #[trigger] slow_map(m2).dom().contains(k) implies {
        &&& c.valid(slow_map(m2)[k])
        &&& c.valid(slow_key_node(k))
        &&& slow_sound(c.nodes@, c.exhausted, k, slow_map(m2)[k])
    } by {
        if k != key {
            assert(slow_map(m1).dom().contains(k));
        }
    }
}

/// The four windows of level `level - 1` the single-step recursion advances:
/// the blocks of side `2^(level - 1)` at `(1, 1)`, `(3, 1)`, `(1, 3)` and
/// `(3, 3)` times `2^(level - 3)`, made of the segment table.
#[verifier::rlimit(100)]
#[verifier::spinoff_prover]
fn slow_windows(cache: &mut HashLifeCache, node_idx: u32, level: u32) -> (w: (u32, u32, u32, u32))
    requires
        old(cache).wf(),
        fast_ok(&*old(cache)),
        old(cache).valid(node_idx),
        4 <= level < 0x100_0000,
    ensures
        final(cache).wf(),
        fast_ok(&*final(cache)),
        final(cache).valid(w.0) && final(cache).valid(w.1) && final(cache).valid(w.2) && final(cache).valid(w.3),
        old(cache).extended_by(&*final(cache)),
        final(cache).fast_cache == old(cache).fast_cache,
        final(cache).exhausted || windows_hold(
            &*final(cache),
            node_fn(old(cache).nodes@, node_idx, level as nat),
            set![
                (w.0, (level - 1) as nat, 0nat, pow2((level - 3) as nat) as int, pow2((level - 3) as nat) as int),
                (w.1, (level - 1) as nat, 0nat, 3 * pow2((level - 3) as nat) as int, pow2((level - 3) as nat) as int),
                (w.2, (level - 1) as nat, 0nat, pow2((level - 3) as nat) as int, 3 * pow2((level - 3) as nat) as int),
                (w.3, (level - 1) as nat, 0nat, 3 * pow2((level - 3) as nat) as int, 3 * pow2((level - 3) as nat) as int)
            ],
        ),
{
    let ghost lv: nat = level as nat;
    let ghost base: nat = (lv - 3) as nat;
    let ghost e: int = pow2(base) as int;
    let ghost f = node_fn(cache.nodes@, node_idx, lv);
    let segments = fetch_segments(cache, node_idx, Ghost(lv));
    proof {
        lemma_pow2_steps(lv);
        assert(base + 1 == (lv - 2) as nat);
        assert(base + 2 == (lv - 1) as nat);
    }
    let ghost mut ws: Set<Win> = Set::empty();
    proof {
        crate::hashlife::window::lemma_windows_intro(cache, f, ws);
    }
    let ghost s0 = *cache;
    let c_11 = segment_square(cache, &segments, 1, 1, Ghost(f), Ghost(base));
    let ghost w11: Win = (c_11, base + 1, 0nat, e, e);
    proof {
        crate::hashlife::window::lemma_windows_frame(&s0, cache, f, ws, true);
        if !cache.exhausted {
            crate::hashlife::window::lemma_windows_push(cache, f, ws, w11);
        }
        ws = ws.insert(w11);
    }
    let ghost s1 = *cache;
    let c_13 = segment_square(cache, &segments, 3, 1, Ghost(f), Ghost(base));
    let ghost w13: Win = (c_13, base + 1, 0nat, 3 * e, e);
    proof {
        crate::hashlife::window::lemma_windows_frame(&s1, cache, f, ws, true);
        if !cache.exhausted {
            crate::hashlife::window::lemma_windows_push(cache, f, ws, w13);
        }
        ws = ws.insert(w13);
    }
    let ghost s2 = *cache;
    let c_15 = segment_square(cache, &segments, 5, 1, Ghost(f), Ghost(base));
    let ghost w15: Win = (c_15, base + 1, 0nat, 5 * e, e);
    proof {
        crate::hashlife::window::lemma_windows_frame(&s2, cache, f, ws, true);
        if !cache.exhausted {
            crate::hashlife::window::lemma_windows_push(cache, f, ws, w15);
        }
        ws = ws.insert(w15);
    }
    let ghost s3 = *cache;
    let c_31 = segment_square(cache, &segments, 1, 3, Ghost(f), Ghost(base));
    let ghost w31: Win = (c_31, base + 1, 0nat, e, 3 * e);
    proof {
        crate::hashlife::window::lemma_windows_frame(&s3, cache, f, ws, true);
        if !cache.exhausted {
            crate::hashlife::window::lemma_windows_push(cache, f, ws, w31);
        }
        ws = ws.insert(w31);
    }
    let ghost s4 = *cache;
    let c_33 = segment_square(cache, &segments, 3, 3, Ghost(f), Ghost(base));
    let ghost w33: Win = (c_33, base + 1, 0nat, 3 * e, 3 * e);
    proof {
        crate::hashlife::window::lemma_windows_frame(&s4, cache, f, ws, true);
        if !cache.exhausted {
            crate::hashlife::window::lemma_windows_push(cache, f, ws, w33);
        }
        ws = ws.insert(w33);
    }
    let ghost s5 = *cache;
    let c_35 = segment_square(cache, &segments, 5, 3, Ghost(f), Ghost(base));
    let ghost w35: Win = (c_35, base + 1, 0nat, 5 * e, 3 * e);
    proof {
        crate::hashlife::window::lemma_windows_frame(&s5, cache, f, ws, true);
        if !cache.exhausted {
            crate::hashlife::window::lemma_windows_push(cache, f, ws, w35);
        }
        ws = ws.insert(w35);
    }
    let ghost s6 = *cache;
    let c_51 = segment_square(cache, &segments, 1, 5, Ghost(f), Ghost(base));
    let ghost w51: Win = (c_51, base + 1, 0nat, e, 5 * e);
    proof {
        crate::hashlife::window::lemma_windows_frame(&s6, cache, f, ws, true);
        if !cache.exhausted {
            crate::hashlife::window::lemma_windows_push(cache, f, ws, w51);
        }
        ws = ws.insert(w51);
    }
    let ghost s7 = *cache;
    let c_53 = segment_square(cache, &segments, 3, 5, Ghost(f), Ghost(base));
    let ghost w53: Win = (c_53, base + 1, 0nat, 3 * e, 5 * e);
    proof {
        crate::hashlife::window::lemma_windows_frame(&s7, cache, f, ws, true);
        if !cache.exhausted {
            crate::hashlife::window::lemma_windows_push(cache, f, ws, w53);
        }
        ws = ws.insert(w53);
    }
    let ghost s8 = *cache;
    let c_55 = segment_square(cache, &segments, 5, 5, Ghost(f), Ghost(base));
    let ghost w55: Win = (c_55, base + 1, 0nat, 5 * e, 5 * e);
    proof {
        crate::hashlife::window::lemma_windows_frame(&s8, cache, f, ws, true);
        if !cache.exhausted {
            crate::hashlife::window::lemma_windows_push(cache, f, ws, w55);
        }
        ws = ws.insert(w55);
        lemma_extended_trans(&*old(cache), &s1, &s2);
        lemma_extended_trans(&*old(cache), &s2, &s3);
        lemma_extended_trans(&*old(cache), &s3, &s4);
        lemma_extended_trans(&*old(cache), &s4, &s5);
        lemma_extended_trans(&*old(cache), &s5, &s6);
        lemma_extended_trans(&*old(cache), &s6, &s7);
        lemma_extended_trans(&*old(cache), &s7, &s8);
        lemma_extended_trans(&*old(cache), &s8, &*cache);
        assert(pow2(base + 1) == 2 * e);
    }
    let ghost u0 = *cache;
    let window00 = cache.find_or_create(c_11, c_13, c_31, c_33);
    proof {
        lemma_keep_valid(&u0, cache);
        lemma_fast_frame(&u0, cache);
        lemma_step_quad(&u0, cache, f, ws, true, window00, w11, w13, w31, w33);
        ws = ws.insert(quad_of(w11, window00));
    }
    let ghost u1 = *cache;
    let window01 = cache.find_or_create(c_13, c_15, c_33, c_35);
    proof {
        lemma_keep_valid(&u1, cache);
        lemma_fast_frame(&u1, cache);
        lemma_step_quad(&u1, cache, f, ws, true, window01, w13, w15, w33, w35);
        ws = ws.insert(quad_of(w13, window01));
    }
    let ghost u2 = *cache;
    let window10 = cache.find_or_create(c_31, c_33, c_51, c_53);
    proof {
        lemma_keep_valid(&u2, cache);
        lemma_fast_frame(&u2, cache);
        lemma_step_quad(&u2, cache, f, ws, true, window10, w31, w33, w51, w53);
        ws = ws.insert(quad_of(w31, window10));
    }
    let ghost u3 = *cache;
    let window11 = cache.find_or_create(c_33, c_35, c_53, c_55);
    proof {
        lemma_keep_valid(&u3, cache);
        lemma_fast_frame(&u3, cache);
        lemma_step_quad(&u3, cache, f, ws, true, window11, w33, w35, w53, w55);
        ws = ws.insert(quad_of(w33, window11));
        lemma_extended_trans(&*old(cache), &u0, &u1);
        lemma_extended_trans(&*old(cache), &u1, &u2);
        lemma_extended_trans(&*old(cache), &u2, &u3);
        lemma_extended_trans(&*old(cache), &u3, &*cache);
        let out = set![
            (window00, (lv - 1) as nat, 0nat, e, e),
            (window01, (lv - 1) as nat, 0nat, 3 * e, e),
            (window10, (lv - 1) as nat, 0nat, e, 3 * e),
            (window11, (lv - 1) as nat, 0nat, 3 * e, 3 * e)
        ];
        if !cache.exhausted {
            assert forall|w: Win| #[trigger] out.contains(w) implies cache.valid(w.0) && window_of(cache.nodes@, w.0, w.1, f, w.2, w.3, w.4) by {
                crate::hashlife::window::lemma_windows_elim(cache, f, ws, w);
            }
            crate::hashlife::window::lemma_windows_intro(cache, f, out);
        }
    }
    (window00, window01, window10, window11)
}

/// Advances node `node_idx` of level `level` one generation per level of the
/// recursion (or two at the base when `target_depth >= 1`), giving its centre
/// one level down; results are kept in the two-tier slow cache, whose old tier
/// promotes a hit into the current tier. Unless the arena ran out, the result
/// is Life's `2^slow_exp(level, target_depth)` generations on, whenever the
/// level is at least 3 (`slow_premise`).
#[verifier::rlimit(100)]
#[verifier::spinoff_prover]
pub fn advance_slow(
    cache: &mut HashLifeCache,
    slow_cache_n: &mut AHashMap<u64, u32>,
    slow_cache_n1: &mut AHashMap<u64, u32>,
    node_idx: u32,
    level: u32,
    target_depth: u32,
    hits: &mut u64,
    misses: &mut u64,
) -> (r: u32)
    requires
        old(cache).wf(),
        fast_ok(&*old(cache)),
        slow_ok(&*old(cache), *old(slow_cache_n)),
        slow_ok(&*old(cache), *old(slow_cache_n1)),
        old(cache).valid(node_idx),
        key_ok(level, target_depth),
    ensures
        final(cache).wf(),
        fast_ok(&*final(cache)),
        slow_ok(&*final(cache), *final(slow_cache_n)),
        slow_ok(&*final(cache), *final(slow_cache_n1)),
        final(cache).valid(r),
        old(cache).extended_by(&*final(cache)),
        *final(hits) >= *old(hits),
        *final(misses) >= *old(misses),
        node_idx == FALSE_NODE ==> r == FALSE_NODE,
        node_idx == TRUE_NODE && level >= 3 ==> r == FALSE_NODE,
        level < 3 ==> r == node_idx,
        !final(cache).exhausted && slow_premise(old(cache).nodes@, node_idx, level, target_depth) ==> jump_ok(
            final(cache).nodes@,
            node_idx,
            level as nat,
            pow2(slow_exp(level, target_depth)),
            r,
        ),
        node_idx != FALSE_NODE && node_idx != TRUE_NODE && level >= 3 ==> slow_map(*final(slow_cache_n1)).contains_key(
            slow_key_spec(node_idx, level, target_depth),
        ) && slow_map(*final(slow_cache_n1))[slow_key_spec(node_idx, level, target_depth)] == r,
    decreases level, 1nat,
{
    if node_idx == FALSE_NODE {
        proof {
            if level >= 3 {
                lemma_pow2_mono(slow_exp(level, target_depth), (level - 2) as nat);
                lemma_false_jump(cache.nodes@, level as nat, pow2(slow_exp(level, target_depth)));
            }
        }
        return FALSE_NODE;
    }
    if node_idx == TRUE_NODE && level >= 3 {
        proof {
            lemma_pow2_mono(0, slow_exp(level, target_depth));
            lemma_pow2_mono(slow_exp(level, target_depth), (level - 2) as nat);
            lemma_true_jump(cache.nodes@, level as nat, pow2(slow_exp(level, target_depth)));
        }
        return FALSE_NODE;
    }
    if level < 3 {
        return node_idx;
    }
    let key = slow_key(node_idx, level, target_depth);
    proof {
        lemma_slow_key_unique(node_idx, level, target_depth, node_idx, level, target_depth);
    }
    match slow_get(slow_cache_n1, key) {
        Some(cached) => {
            *hits = hits.saturating_add(1);
            return cached;
        },
        None => {},
    }
    match slow_get(slow_cache_n, key) {
        Some(cached) => {
            *hits = hits.saturating_add(1);
            let ghost m1 = *slow_cache_n1;
            slow_insert(slow_cache_n1, key, cached);
            proof {
                lemma_slow_move(cache, m1, *slow_cache_n1, *slow_cache_n, key);
            }
            let ghost m0 = *slow_cache_n;
            slow_remove(slow_cache_n, key);
            proof {
                lemma_slow_remove(cache, m0, *slow_cache_n, key);
            }
            return cached;
        },
        None => {},
    }
    *misses = misses.saturating_add(1);
    if level <= 3 {
        let ghost s = *cache;
        let result = if target_depth >= 1 {
            let r2 = advance_base_two_gen(cache, node_idx);
            proof {
                lemma_keep_valid(&s, cache);
                if !cache.exhausted {
                    lemma_base_jump(&s, cache, node_idx, r2);
                }
            }
            r2
        } else {
            let r1 = advance_base_one_gen(cache, node_idx);
            proof {
                lemma_keep_valid(&s, cache);
                if !cache.exhausted {
                    lemma_base_jump1(&s, cache, node_idx, r1);
                }
            }
            r1
        };
        proof {
            lemma_caches_frame(&s, cache, *slow_cache_n, *slow_cache_n1);
            lemma_node_fn_frame(&s, cache, node_idx, 3);
            lemma_pow2_small();
        }
        let ghost m1 = *slow_cache_n1;
        slow_insert(slow_cache_n1, key, result);
        proof {
            lemma_slow_insert(cache, m1, *slow_cache_n1, node_idx, level, target_depth, result);
        }
        return result;
    }
    let ghost lv: nat = level as nat;
    let ghost f = node_fn(cache.nodes@, node_idx, lv);
    let ghost g: nat = pow2(slow_exp(level, target_depth));
    let ghost pc = slow_premise(cache.nodes@, node_idx, level, target_depth);
    let ghost c0 = *cache;
    let ws4 = slow_windows(cache, node_idx, level);
    let (window00, window01, window10, window11) = ws4;
    proof {
        lemma_keep_valid(&c0, cache);
        lemma_caches_frame(&c0, cache, *slow_cache_n, *slow_cache_n1);
    }
    let result = slow_finish(
        cache,
        slow_cache_n,
        slow_cache_n1,
        level,
        target_depth,
        ws4,
        hits,
        misses,
        Ghost(f),
        Ghost(pc),
    );
    proof {
        lemma_node_fn_frame(&*old(cache), cache, node_idx, lv);
        if !cache.exhausted && pc {
            lemma_window_final(cache.nodes@, node_idx, lv, g, result);
        }
    }
    let ghost m1 = *slow_cache_n1;
    slow_insert(slow_cache_n1, key, result);
    proof {
        lemma_slow_insert(cache, m1, *slow_cache_n1, node_idx, level, target_depth, result);
    }
    result
}

/// The second half of a single-step jump: the four windows, each advanced
/// through the dispatcher, assembled into the centre.
#[verifier::rlimit(100)]
#[verifier::spinoff_prover]
fn slow_finish(
    cache: &mut HashLifeCache,
    slow_cache_n: &mut AHashMap<u64, u32>,
    slow_cache_n1: &mut AHashMap<u64, u32>,
    level: u32,
    target_depth: u32,
    ws4: (u32, u32, u32, u32),
    hits: &mut u64,
    misses: &mut u64,
    Ghost(f): Ghost<spec_fn(int, int) -> bool>,
    Ghost(pc): Ghost<bool>,
) -> (result: u32)
    requires
        old(cache).wf(),
        fast_ok(&*old(cache)),
        slow_ok(&*old(cache), *old(slow_cache_n)),
        slow_ok(&*old(cache), *old(slow_cache_n1)),
        4 <= level < 0x100_0000,
        key_ok(level, target_depth),
        old(cache).valid(ws4.0) && old(cache).valid(ws4.1) && old(cache).valid(ws4.2) && old(cache).valid(ws4.3),
        old(cache).exhausted || !pc || windows_hold(
            &*old(cache),
            f,
            set![
                (ws4.0, (level - 1) as nat, 0nat, pow2((level - 3) as nat) as int, pow2((level - 3) as nat) as int),
                (ws4.1, (level - 1) as nat, 0nat, 3 * pow2((level - 3) as nat) as int, pow2((level - 3) as nat) as int),
                (ws4.2, (level - 1) as nat, 0nat, pow2((level - 3) as nat) as int, 3 * pow2((level - 3) as nat) as int),
                (ws4.3, (level - 1) as nat, 0nat, 3 * pow2((level - 3) as nat) as int, 3 * pow2((level - 3) as nat) as int)
            ],
        ),
    ensures
        final(cache).wf(),
        fast_ok(&*final(cache)),
        slow_ok(&*final(cache), *final(slow_cache_n)),
        slow_ok(&*final(cache), *final(slow_cache_n1)),
        final(cache).valid(result),
        old(cache).extended_by(&*final(cache)),
        *final(hits) >= *old(hits),
        *final(misses) >= *old(misses),
        final(cache).exhausted || !pc || window_of(
            final(cache).nodes@,
            result,
            (level - 1) as nat,
            f,
            pow2(slow_exp(level, target_depth)),
            pow2((level - 2) as nat) as int,
            pow2((level - 2) as nat) as int,
        ),
    decreases level, 0nat,
{
    let ghost lv: nat = level as nat;
    let ghost e: int = pow2((lv - 3) as nat) as int;
    let ghost g: nat = pow2(slow_exp(level, target_depth));
    let ghost sd: int = pow2(lv) as int;
    let ghost l1: nat = (lv - 1) as nat;
    let (window00, window01, window10, window11) = ws4;
    let ghost a: Win = (window00, l1, 0nat, e, e);
    let ghost b: Win = (window01, l1, 0nat, 3 * e, e);
    let ghost c: Win = (window10, l1, 0nat, e, 3 * e);
    let ghost d: Win = (window11, l1, 0nat, 3 * e, 3 * e);
    let ghost mut ws: Set<Win> = set![a, b, c, d];
    proof {
        lemma_pow2_steps(lv);
        assert(((lv - 1) as nat) as u32 == level - 1);
        assert(node_exp((level - 1) as u32, target_depth) == slow_exp(level, target_depth));
        lemma_pow2_mono(slow_exp(level, target_depth), (l1 - 2) as nat);
        assert(((l1 - 2) as nat) == (lv - 3) as nat);
        assert(ws.contains(a) && ws.contains(b) && ws.contains(c) && ws.contains(d));
    }
    let ghost v0 = *cache;
    let r00 = advance_node(cache, slow_cache_n, slow_cache_n1, window00, level - 1, target_depth, hits, misses);
    proof {
        lemma_keep_valid(&v0, cache);
        lemma_step_jump_by(&v0, cache, f, ws, pc, a, r00, sd, g, g);
        ws = ws.insert(jumped_by(a, r00, g));
    }
    let ghost v1 = *cache;
    let r01 = advance_node(cache, slow_cache_n, slow_cache_n1, window01, level - 1, target_depth, hits, misses);
    proof {
        lemma_keep_valid(&v1, cache);
        lemma_step_jump_by(&v1, cache, f, ws, pc, b, r01, sd, g, g);
        ws = ws.insert(jumped_by(b, r01, g));
    }
    let ghost v2 = *cache;
    let r10 = advance_node(cache, slow_cache_n, slow_cache_n1, window10, level - 1, target_depth, hits, misses);
    proof {
        lemma_keep_valid(&v2, cache);
        lemma_step_jump_by(&v2, cache, f, ws, pc, c, r10, sd, g, g);
        ws = ws.insert(jumped_by(c, r10, g));
    }
    let ghost v3 = *cache;
    let r11 = advance_node(cache, slow_cache_n, slow_cache_n1, window11, level - 1, target_depth, hits, misses);
    proof {
        lemma_keep_valid(&v3, cache);
        lemma_step_jump_by(&v3, cache, f, ws, pc, d, r11, sd, g, g);
        ws = ws.insert(jumped_by(d, r11, g));
        lemma_extended_trans(&*old(cache), &v0, &v1);
        lemma_extended_trans(&*old(cache), &v1, &v2);
        lemma_extended_trans(&*old(cache), &v2, &v3);
        lemma_extended_trans(&*old(cache), &v3, &*cache);
    }
    let ghost w0 = *cache;
    let result = cache.find_or_create(r00, r01, r10, r11);
    proof {
        lemma_extended_trans(&*old(cache), &w0, &*cache);
        lemma_caches_frame(&w0, cache, *slow_cache_n, *slow_cache_n1);
        lemma_step_quad(&w0, cache, f, ws, pc, result, jumped_by(a, r00, g), jumped_by(b, r01, g), jumped_by(c, r10, g), jumped_by(d, r11, g));
        if !cache.exhausted && pc {
            let wr = quad_of(jumped_by(a, r00, g), result);
            crate::hashlife::window::lemma_windows_elim(cache, f, ws.insert(wr), wr);
            assert(wr == (result, l1, g, 2 * e, 2 * e));
        }
    }
    result
}


/// Some child of `c` other than child `inner` is not FALSE.
pub open spec fn outer_live(nodes: Seq<LifeNode>, c: u32, inner: int) -> bool {
    exists|j: int| 0 <= j < 4 && j != inner && #[trigger] child_of(nodes, c, j) != FALSE_NODE
}

/// The rim of node `idx`: in each quadrant, the three children away from the
/// centre, and the three grandchildren away from the centre inside the fourth
/// child, hold some node other than FALSE.
pub open spec fn rim_live(nodes: Seq<LifeNode>, idx: u32) -> bool {
    exists|q: int|
        0 <= q < 4 && {
            let c = #[trigger] child_of(nodes, idx, q);
            outer_live(nodes, c, 3 - q) || outer_live(nodes, child_of(nodes, c, 3 - q), 3 - q)
        }
}

/// With its rim clear, a node of level `>= 4` has its live cells in the
/// central quarter: between 3/8 and 5/8 of its width on both axes.
pub proof fn lemma_rim_clear(nodes: Seq<LifeNode>, idx: u32, level: nat, x: int, y: int)
    requires
        crate::hashlife::evolve::sentinels_ok(nodes),
        idx != FALSE_NODE,
        idx != TRUE_NODE,
        level >= 4,
        !rim_live(nodes, idx),
        0 <= x < pow2(level),
        0 <= y < pow2(level),
        alive_at(nodes, idx, level, x, y),
    ensures
        3 * pow2((level - 3) as nat) <= x < 5 * pow2((level - 3) as nat),
        3 * pow2((level - 3) as nat) <= y < 5 * pow2((level - 3) as nat),
{
    let l1 = (level - 1) as nat;
    let l2 = (level - 2) as nat;
    let l3 = (level - 3) as nat;
    let e = pow2(l3) as int;
    assert(pow2(level) == 2 * pow2(l1));
    assert(pow2(l1) == 2 * pow2(l2));
    assert(pow2(l2) == 2 * pow2(l3));
    let h = 4 * e;
    let q = quadrant(x, y, h);
    let c = child_of(nodes, idx, q);
    let x1 = if x >= h { x - h } else { x };
    let y1 = if y >= h { y - h } else { y };
    assert(alive_at(nodes, c, l1, x1, y1));
    assert(!(outer_live(nodes, c, 3 - q) || outer_live(nodes, child_of(nodes, c, 3 - q), 3 - q))) by {
        if outer_live(nodes, c, 3 - q) || outer_live(nodes, child_of(nodes, c, 3 - q), 3 - q) {
            assert(0 <= q < 4);
            assert(rim_live(nodes, idx));
        }
    }
    if c == TRUE_NODE {
        assert(child_of(nodes, c, 0) == TRUE_NODE && child_of(nodes, c, 3) == TRUE_NODE);
        if q == 3 {
            assert(outer_live(nodes, c, 3 - q)) by {
                assert(child_of(nodes, c, 1) != FALSE_NODE);
            }
        } else {
            assert(outer_live(nodes, c, 3 - q)) by {
                assert(child_of(nodes, c, 3) != FALSE_NODE);
            }
        }
    }
    assert(c != FALSE_NODE && c != TRUE_NODE);
    let h2 = 2 * e;
    let q2 = quadrant(x1, y1, h2);
    let g = child_of(nodes, c, q2);
    let x2 = if x1 >= h2 { x1 - h2 } else { x1 };
    let y2 = if y1 >= h2 { y1 - h2 } else { y1 };
    assert(alive_at(nodes, g, l2, x2, y2));
    assert(g != FALSE_NODE);
    if q2 != 3 - q {
        assert(outer_live(nodes, c, 3 - q)) by {
            assert(0 <= q2 < 4 && q2 != 3 - q && child_of(nodes, c, q2) != FALSE_NODE);
        }
    }
    assert(q2 == 3 - q);
    if g == TRUE_NODE {
        assert(child_of(nodes, g, 0) == TRUE_NODE && child_of(nodes, g, 3) == TRUE_NODE);
        if q == 0 {
            assert(outer_live(nodes, g, 3 - q)) by {
                assert(child_of(nodes, g, 0) != FALSE_NODE);
            }
        } else {
            assert(outer_live(nodes, g, 3 - q)) by {
                assert(child_of(nodes, g, 3) != FALSE_NODE);
            }
        }
    }
    assert(g != TRUE_NODE);
    let q3 = quadrant(x2, y2, e);
    let x3 = if x2 >= e { x2 - e } else { x2 };
    let y3 = if y2 >= e { y2 - e } else { y2 };
    assert(alive_at(nodes, child_of(nodes, g, q3), l3, x3, y3));
    if q3 != 3 - q {
        assert(outer_live(nodes, g, 3 - q)) by {
            assert(0 <= q3 < 4 && q3 != 3 - q && child_of(nodes, g, q3) != FALSE_NODE);
        }
    }
    assert(q3 == 3 - q);
}

/// Whether node `idx` is neither FALSE nor a node whose stored flag marks it empty.
fn not_empty(cache: &HashLifeCache, idx: u32) -> (r: bool)
    requires
        cache.wf(),
        cache.valid(idx),
    ensures
        r == (idx != FALSE_NODE),
{
    idx != FALSE_NODE && !cache.is_empty_check(idx)
}

/// Whether one of the three children of `c` other than child `inner` is not FALSE.
fn outer_not_empty(cache: &HashLifeCache, c: u32, inner: u32) -> (r: bool)
    requires
        cache.wf(),
        cache.valid(c),
        inner < 4,
    ensures
        r == outer_live(cache.nodes@, c, inner as int),
{
    let n = cache.get_node(c);
    proof {
        lemma_children_valid(cache, c);
    }
    let a = inner != 0 && not_empty(cache, n.north_west);
    let b = inner != 1 && not_empty(cache, n.north_east);
    let d = inner != 2 && not_empty(cache, n.south_west);
    let e = inner != 3 && not_empty(cache, n.south_east);
    proof {
        if a {
            assert(child_of(cache.nodes@, c, 0) != FALSE_NODE);
        }
        if b {
            assert(child_of(cache.nodes@, c, 1) != FALSE_NODE);
        }
        if d {
            assert(child_of(cache.nodes@, c, 2) != FALSE_NODE);
        }
        if e {
            assert(child_of(cache.nodes@, c, 3) != FALSE_NODE);
        }
    }
    a || b || d || e
}

/// Whether quadrant `q` of node `idx` has a live rim part.
fn quadrant_rim(cache: &HashLifeCache, idx: u32, q: u32) -> (r: bool)
    requires
        cache.wf(),
        cache.valid(idx),
        q < 4,
    ensures
        r == ({
            let c = child_of(cache.nodes@, idx, q as int);
            outer_live(cache.nodes@, c, 3 - q) || outer_live(cache.nodes@, child_of(cache.nodes@, c, 3 - q), 3 - q)
        }),
{
    let n = cache.get_node(idx);
    proof {
        lemma_children_valid(cache, idx);
    }
    let c = if q == 0 {
        n.north_west
    } else if q == 1 {
        n.north_east
    } else if q == 2 {
        n.south_west
    } else {
        n.south_east
    };
    let inner = 3 - q;
    if !not_empty(cache, c) {
        proof {
            assert(cache.nodes@[0] == crate::hashlife::cache::spec_empty_node());
            assert(forall|j: int| 0 <= j < 4 ==> child_of(cache.nodes@, c, j) == FALSE_NODE);
        }
        return false;
    }
    if outer_not_empty(cache, c, inner) {
        return true;
    }
    let cn = cache.get_node(c);
    proof {
        lemma_children_valid(cache, c);
    }
    let g = if inner == 0 {
        cn.north_west
    } else if inner == 1 {
        cn.north_east
    } else if inner == 2 {
        cn.south_west
    } else {
        cn.south_east
    };
    if !not_empty(cache, g) {
        proof {
            assert(cache.nodes@[0] == crate::hashlife::cache::spec_empty_node());
            assert(forall|j: int| 0 <= j < 4 ==> child_of(cache.nodes@, g, j) == FALSE_NODE);
        }
        return false;
    }
    outer_not_empty(cache, g, inner)
}

/// Whether node `node_idx` of level `level` must grow before it can be
/// advanced: the all-alive node, any live node up to level 3, or a live rim.
pub fn needs_expansion(cache: &HashLifeCache, node_idx: u32, level: u32) -> (r: bool)
    requires
        cache.wf(),
        cache.valid(node_idx),
    ensures
        r == (node_idx != FALSE_NODE && (node_idx == TRUE_NODE || level <= 3 || rim_live(cache.nodes@, node_idx))),
{
    if node_idx == FALSE_NODE {
        return false;
    }
    if node_idx == TRUE_NODE {
        return true;
    }
    if level <= 3 {
        return true;
    }
    let r0 = quadrant_rim(cache, node_idx, 0);
    let r1 = quadrant_rim(cache, node_idx, 1);
    let r2 = quadrant_rim(cache, node_idx, 2);
    let r3 = quadrant_rim(cache, node_idx, 3);
    proof {
        let nodes = cache.nodes@;
        if rim_live(nodes, node_idx) {
            let q = choose|q: int|
                0 <= q < 4 && {
                    let c = #[trigger] child_of(nodes, node_idx, q);
                    outer_live(nodes, c, 3 - q) || outer_live(nodes, child_of(nodes, c, 3 - q), 3 - q)
                };
            if q == 0 {
                assert(r0);
            } else if q == 1 {
                assert(r1);
            } else if q == 2 {
                assert(r2);
            } else {
                assert(r3);
            }
        }
        if r0 {
            assert(0 <= 0int < 4 && { let c = child_of(nodes, node_idx, 0); outer_live(nodes, c, 3 - 0) || outer_live(nodes, child_of(nodes, c, 3 - 0), 3 - 0) });
        }
        if r1 {
            assert(0 <= 1int < 4 && { let c = child_of(nodes, node_idx, 1); outer_live(nodes, c, 3 - 1) || outer_live(nodes, child_of(nodes, c, 3 - 1), 3 - 1) });
        }
        if r2 {
            assert(0 <= 2int < 4 && { let c = child_of(nodes, node_idx, 2); outer_live(nodes, c, 3 - 2) || outer_live(nodes, child_of(nodes, c, 3 - 2), 3 - 2) });
        }
        if r3 {
            assert(0 <= 3int < 4 && { let c = child_of(nodes, node_idx, 3); outer_live(nodes, c, 3 - 3) || outer_live(nodes, child_of(nodes, c, 3 - 3), 3 - 3) });
        }
    }
    r0 || r1 || r2 || r3
}

} // verus!
