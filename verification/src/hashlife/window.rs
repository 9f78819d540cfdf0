//! What the jumps of the quadtree compute, stated against Life on the plane,
//! and the bookkeeping that carries it through a growing node arena.

use vstd::prelude::*;
use crate::arith::{pow2, lemma_pow2_mono, lemma_pow2_small};
use crate::hashlife::cache::{HashLifeCache, LifeNode, alive_at, node_is, lemma_alive_frame};
use crate::hashlife::evolve::{evolve, node_fn, jump_ok, window_of, sentinels_ok, lemma_window_quad,
    lemma_window_jump, lemma_window_child, lemma_window_top, lemma_jump_ext, lemma_window_ext};
use crate::hashlife::rules::b2i;

verus! {

/// The key under which the two-tier cache stores the jump of node `idx` of
/// `level` aimed at `td`: the node in the high 32 bits, `level << 8 | td` below.
pub open spec fn slow_key_spec(idx: u32, level: u32, td: u32) -> u64 {
    ((idx as u64) << 32u64) | (((level as u64) << 8u64) | (td as u64))
}

/// Level and target fit their fields of the key.
pub open spec fn key_ok(level: u32, td: u32) -> bool {
    level < 0x100_0000 && td < 256
}

/// The jump a node of `level` gets from the single-step recursion aimed at
/// `td` spans `2^slow_exp(level, td)` generations.
pub open spec fn slow_exp(level: u32, td: u32) -> nat {
    if level <= 3 {
        if td >= 1 { 1nat } else { 0nat }
    } else if td <= level - 3 {
        td as nat
    } else {
        (level - 3) as nat
    }
}

/// The premise under which the jump of node `idx` aimed at `td` is claimed.
pub open spec fn slow_premise(nodes: Seq<LifeNode>, idx: u32, level: u32, td: u32) -> bool {
    &&& level >= 3
}

/// A memoized jump stored under `key` is right for every request that maps
/// to `key`, whenever it is claimed.
pub open spec fn slow_sound(nodes: Seq<LifeNode>, exhausted: bool, key: u64, r: u32) -> bool {
    forall|idx: u32, level: u32, td: u32|
        #[trigger] slow_key_spec(idx, level, td) == key && key_ok(level, td) && !exhausted && slow_premise(
            nodes,
            idx,
            level,
            td,
        ) ==> jump_ok(nodes, idx, level as nat, pow2(slow_exp(level, td)), r)
}

/// The key, read as a number.
pub proof fn lemma_slow_key_arith(idx: u32, level: u32, td: u32)
    requires
        key_ok(level, td),
    ensures
        slow_key_spec(idx, level, td) as int == idx as int * 0x1_0000_0000 + level as int * 256 + td as int,
{
    let i = idx as u64;
    let l = level as u64;
    let t = td as u64;
    assert((i << 32u64) | ((l << 8u64) | t) == i * 0x1_0000_0000u64 + l * 256u64 + t) by (bit_vector)
        requires
            i < 0x1_0000_0000u64,
            l < 0x100_0000u64,
            t < 256u64,
    ;
}

/// A key names one request, and its high half is the node.
pub proof fn lemma_slow_key_unique(a: u32, b: u32, c: u32, a2: u32, b2: u32, c2: u32)
    requires
        key_ok(b, c),
        key_ok(b2, c2),
        slow_key_spec(a, b, c) == slow_key_spec(a2, b2, c2),
    ensures
        a == a2,
        b == b2,
        c == c2,
        crate::hashlife::maps::slow_key_node(slow_key_spec(a, b, c)) == a,
{
    lemma_slow_key_arith(a, b, c);
    lemma_slow_key_arith(a2, b2, c2);
    let k = slow_key_spec(a, b, c) as int;
    let lo = b as int * 256 + c as int;
    let lo2 = b2 as int * 256 + c2 as int;
    vstd::arithmetic::div_mod::lemma_fundamental_div_mod_converse(k, 0x1_0000_0000, a as int, lo);
    vstd::arithmetic::div_mod::lemma_fundamental_div_mod_converse(k, 0x1_0000_0000, a2 as int, lo2);
    vstd::arithmetic::div_mod::lemma_fundamental_div_mod_converse(lo, 256, b as int, c as int);
    vstd::arithmetic::div_mod::lemma_fundamental_div_mod_converse(lo2, 256, b2 as int, c2 as int);
}

/// A window record: node, level, generation, corner.
pub type Win = (u32, nat, nat, int, int);

/// The premise under which a jump of node `idx` of `level` by `2^(level - 2)`
/// generations is claimed: the level has a rule-table base.
pub open spec fn fast_premise(nodes: Seq<LifeNode>, idx: u32, level: u32) -> bool {
    &&& level >= 3
}

/// A memoized full jump `(idx, level) -> r` is right whenever it is claimed.
pub open spec fn fast_sound(nodes: Seq<LifeNode>, exhausted: bool, idx: u32, level: u32, r: u32) -> bool {
    !exhausted && fast_premise(nodes, idx, level) ==> jump_ok(nodes, idx, level as nat, pow2((level - 2) as nat), r)
}

/// The window a node made of four windows (the first one given) covers.
pub open spec fn quad_of(w: Win, p: u32) -> Win {
    (p, w.1 + 1, w.2, w.3, w.4)
}

/// The window the full jump of window `w` gives, as node `r`.
pub open spec fn jumped(w: Win, r: u32) -> Win {
    let g = pow2((w.1 - 2) as nat);
    (r, (w.1 - 1) as nat, w.2 + g, w.3 + g, w.4 + g)
}

/// A slow-cache entry between allocated nodes stays sound as the arena grows.
pub proof fn lemma_slow_sound_frame(c1: &HashLifeCache, c2: &HashLifeCache, key: u64, r: u32)
    requires
        c1.wf(),
        c1.extended_by(c2),
        c1.valid(crate::hashlife::maps::slow_key_node(key)),
        c1.valid(r),
        slow_sound(c1.nodes@, c1.exhausted, key, r),
    ensures
        slow_sound(c2.nodes@, c2.exhausted, key, r),
{
    assert forall|idx: u32, level: u32, td: u32|
        #[trigger] slow_key_spec(idx, level, td) == key && key_ok(level, td) && !c2.exhausted && slow_premise(
            c2.nodes@,
            idx,
            level,
            td,
        ) implies jump_ok(c2.nodes@, idx, level as nat, pow2(slow_exp(level, td)), r) by {
        lemma_slow_key_unique(idx, level, td, idx, level, td);
        lemma_node_fn_frame(c1, c2, idx, level as nat);
        lemma_jump_frame(c1, c2, idx, level as nat, pow2(slow_exp(level, td)), r);
    }
}

/// The window a jump of `g` generations of window `w` gives, as node `r`.
pub open spec fn jumped_by(w: Win, r: u32, g: nat) -> Win {
    let c = pow2((w.1 - 2) as nat);
    (r, (w.1 - 1) as nat, w.2 + g, w.3 + c, w.4 + c)
}

/// The jump the dispatcher gives a node of `level` aimed at `td` spans
/// `2^node_exp(level, td)` generations.
pub open spec fn node_exp(level: u32, td: u32) -> nat {
    if td <= level - 2 {
        td as nat
    } else {
        (level - 2) as nat
    }
}

/// The premise under which the dispatcher's jump is claimed.
pub open spec fn node_premise(nodes: Seq<LifeNode>, idx: u32, level: u32, td: u32) -> bool {
    &&& level >= 3
}

/// Every window of `ws` is an allocated node of `c` holding that part of `f`.
pub closed spec fn windows_hold(c: &HashLifeCache, f: spec_fn(int, int) -> bool, ws: Set<Win>) -> bool {
    forall|w: Win| #[trigger] ws.contains(w) ==> c.valid(w.0) && window_of(c.nodes@, w.0, w.1, f, w.2, w.3, w.4)
}

/// Windows checked one by one hold.
pub proof fn lemma_windows_intro(c: &HashLifeCache, f: spec_fn(int, int) -> bool, ws: Set<Win>)
    requires
        forall|w: Win| #[trigger] ws.contains(w) ==> c.valid(w.0) && window_of(c.nodes@, w.0, w.1, f, w.2, w.3, w.4),
    ensures
        windows_hold(c, f, ws),
{
}

/// A held window, read back.
pub proof fn lemma_windows_elim(c: &HashLifeCache, f: spec_fn(int, int) -> bool, ws: Set<Win>, w: Win)
    requires
        windows_hold(c, f, ws),
        ws.contains(w),
    ensures
        c.valid(w.0),
        window_of(c.nodes@, w.0, w.1, f, w.2, w.3, w.4),
{
}

/// The wf arena's sentinel slots.
pub proof fn lemma_sentinels(c: &HashLifeCache)
    requires
        c.wf(),
    ensures
        sentinels_ok(c.nodes@),
{
}

/// An allocated node's block does not change as the arena grows.
pub proof fn lemma_node_fn_frame(c1: &HashLifeCache, c2: &HashLifeCache, idx: u32, level: nat)
    requires
        c1.wf(),
        c1.extended_by(c2),
        c1.valid(idx),
    ensures
        node_fn(c2.nodes@, idx, level) == node_fn(c1.nodes@, idx, level),
{
    assert forall|a: int, b: int| #[trigger] node_fn(c2.nodes@, idx, level)(a, b) == node_fn(c1.nodes@, idx, level)(a, b) by {
        lemma_alive_frame(c1, c2, idx, level, a, b);
    }
    assert(node_fn(c2.nodes@, idx, level) =~= node_fn(c1.nodes@, idx, level));
}

/// A jump between allocated nodes stays right as the arena grows.
pub proof fn lemma_jump_frame(c1: &HashLifeCache, c2: &HashLifeCache, idx: u32, level: nat, g: nat, r: u32)
    requires
        c1.wf(),
        c1.extended_by(c2),
        c1.valid(idx),
        c1.valid(r),
    ensures
        jump_ok(c2.nodes@, idx, level, g, r) == jump_ok(c1.nodes@, idx, level, g, r),
{
    lemma_node_fn_frame(c1, c2, idx, level);
    assert forall|x: int, y: int| #[trigger] alive_at(c1.nodes@, r, (level - 1) as nat, x, y) == alive_at(c2.nodes@, r, (level - 1) as nat, x, y) by {
        lemma_alive_frame(c1, c2, r, (level - 1) as nat, x, y);
    }
    lemma_jump_ext(c1.nodes@, c2.nodes@, idx, level, g, r);
}

/// A memoized jump's soundness survives the arena's growth.
pub proof fn lemma_sound_frame(c1: &HashLifeCache, c2: &HashLifeCache, idx: u32, level: u32, r: u32)
    requires
        c1.wf(),
        c1.extended_by(c2),
        c1.valid(idx),
        c1.valid(r),
        fast_sound(c1.nodes@, c1.exhausted, idx, level, r),
    ensures
        fast_sound(c2.nodes@, c2.exhausted, idx, level, r),
{
    lemma_node_fn_frame(c1, c2, idx, level as nat);
    lemma_jump_frame(c1, c2, idx, level as nat, pow2((level - 2) as nat), r);
}

/// A window of an allocated node survives the arena's growth.
pub proof fn lemma_window_frame(c1: &HashLifeCache, c2: &HashLifeCache, n: u32, level: nat, f: spec_fn(int, int) -> bool, s: nat, ox: int, oy: int)
    requires
        c1.wf(),
        c1.extended_by(c2),
        c1.valid(n),
        window_of(c1.nodes@, n, level, f, s, ox, oy),
    ensures
        window_of(c2.nodes@, n, level, f, s, ox, oy),
{
    lemma_node_fn_frame(c1, c2, n, level);
    lemma_window_ext(c1.nodes@, c2.nodes@, n, level, f, s, ox, oy);
}

/// All windows survive the arena's growth (or the arena ran out).
pub proof fn lemma_windows_frame(c1: &HashLifeCache, c2: &HashLifeCache, f: spec_fn(int, int) -> bool, ws: Set<Win>, pc: bool)
    requires
        c1.wf(),
        c1.extended_by(c2),
        c1.exhausted || !pc || windows_hold(c1, f, ws),
    ensures
        c2.exhausted || !pc || windows_hold(c2, f, ws),
{
    if !c2.exhausted && pc {
        assert forall|w: Win| #[trigger] ws.contains(w) implies c2.valid(w.0) && window_of(c2.nodes@, w.0, w.1, f, w.2, w.3, w.4) by {
            lemma_window_frame(c1, c2, w.0, w.1, f, w.2, w.3, w.4);
        }
    }
}

/// One more window.
pub proof fn lemma_windows_push(c: &HashLifeCache, f: spec_fn(int, int) -> bool, ws: Set<Win>, w: Win)
    requires
        windows_hold(c, f, ws),
        c.valid(w.0),
        window_of(c.nodes@, w.0, w.1, f, w.2, w.3, w.4),
    ensures
        windows_hold(c, f, ws.insert(w)),
{
}

/// After a node is made of four recorded windows, its own window is recorded.
pub proof fn lemma_step_quad(
    c1: &HashLifeCache,
    c2: &HashLifeCache,
    f: spec_fn(int, int) -> bool,
    ws: Set<Win>,
    pc: bool,
    p: u32,
    a: Win,
    b: Win,
    c: Win,
    d: Win,
)
    requires
        c1.wf(),
        c1.extended_by(c2),
        c1.exhausted || !pc || windows_hold(c1, f, ws),
        c2.valid(p),
        c2.exhausted || node_is(c2.nodes@, p, a.0, b.0, c.0, d.0),
        ws.contains(a),
        ws.contains(b),
        ws.contains(c),
        ws.contains(d),
        b.1 == a.1 && c.1 == a.1 && d.1 == a.1,
        b.2 == a.2 && c.2 == a.2 && d.2 == a.2,
        b.3 == a.3 + pow2(a.1) && b.4 == a.4,
        c.3 == a.3 && c.4 == a.4 + pow2(a.1),
        d.3 == a.3 + pow2(a.1) && d.4 == a.4 + pow2(a.1),
    ensures
        c2.exhausted || !pc || windows_hold(c2, f, ws.insert(quad_of(a, p))),
{
    lemma_windows_frame(c1, c2, f, ws, pc);
    if !c2.exhausted && pc {
        lemma_windows_elim(c2, f, ws, a);
        lemma_windows_elim(c2, f, ws, b);
        lemma_windows_elim(c2, f, ws, c);
        lemma_windows_elim(c2, f, ws, d);
        lemma_window_quad(c2.nodes@, p, a.0, b.0, c.0, d.0, a.1, f, a.2, a.3, a.4);
        lemma_windows_push(c2, f, ws, quad_of(a, p));
    }
}

/// After a recorded window of level `>= 3` is jumped by `advance_fast`, the
/// centre it gives is recorded, provided the window lies in `f`'s block with room for the jump.
pub proof fn lemma_step_jump(
    c1: &HashLifeCache,
    c2: &HashLifeCache,
    f: spec_fn(int, int) -> bool,
    ws: Set<Win>,
    pc: bool,
    w: Win,
    r: u32,
    side: int,
    gens: nat,
)
    requires
        c1.wf(),
        c1.extended_by(c2),
        c1.exhausted || !pc || windows_hold(c1, f, ws),
        ws.contains(w),
        3 <= w.1 <= u32::MAX,
        c2.valid(r),
        !c2.exhausted && fast_premise(c1.nodes@, w.0, w.1 as u32) ==> jump_ok(
            c2.nodes@,
            w.0,
            w.1,
            pow2((w.1 - 2) as nat),
            r,
        ),
        w.2 <= w.3,
        w.2 <= w.4,
        w.3 + pow2(w.1) + w.2 <= side,
        w.4 + pow2(w.1) + w.2 <= side,
        w.2 + pow2((w.1 - 2) as nat) <= gens,
    ensures
        c2.exhausted || !pc || windows_hold(c2, f, ws.insert(jumped(w, r))),
{
    lemma_windows_frame(c1, c2, f, ws, pc);
    if !c2.exhausted && pc {
        let g = pow2((w.1 - 2) as nat);
        if !c1.exhausted {
            lemma_windows_elim(c1, f, ws, w);
        }
        assert(w.1 as u32 as nat == w.1);
        assert(fast_premise(c1.nodes@, w.0, w.1 as u32));
        lemma_windows_elim(c2, f, ws, w);
        lemma_window_jump(c2.nodes@, w.0, w.1, g, r, f, w.2, w.3, w.4);
        lemma_windows_push(c2, f, ws, jumped(w, r));
    }
}

/// After a recorded window is jumped by `g` generations, the centre it gives
/// is recorded, provided the window lies in `f`'s block with room for the jump.
pub proof fn lemma_step_jump_by(
    c1: &HashLifeCache,
    c2: &HashLifeCache,
    f: spec_fn(int, int) -> bool,
    ws: Set<Win>,
    pc: bool,
    w: Win,
    r: u32,
    side: int,
    gens: nat,
    g: nat,
)
    requires
        c1.wf(),
        c1.extended_by(c2),
        c1.exhausted || !pc || windows_hold(c1, f, ws),
        ws.contains(w),
        2 <= w.1,
        c2.valid(r),
        g <= pow2((w.1 - 2) as nat),
        !c2.exhausted ==> jump_ok(c2.nodes@, w.0, w.1, g, r),
        w.2 <= w.3,
        w.2 <= w.4,
        w.3 + pow2(w.1) + w.2 <= side,
        w.4 + pow2(w.1) + w.2 <= side,
        w.2 + g <= gens,
    ensures
        c2.exhausted || !pc || windows_hold(c2, f, ws.insert(jumped_by(w, r, g))),
{
    lemma_windows_frame(c1, c2, f, ws, pc);
    if !c2.exhausted && pc {
        if !c1.exhausted {
            lemma_windows_elim(c1, f, ws, w);
        }
        lemma_windows_elim(c2, f, ws, w);
        lemma_window_jump(c2.nodes@, w.0, w.1, g, r, f, w.2, w.3, w.4);
        lemma_windows_push(c2, f, ws, jumped_by(w, r, g));
    }
}

} // verus!
