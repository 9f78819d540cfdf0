//! Life on the unbounded plane: a pattern is a predicate on integer cells,
//! and `evolve` gives it after any number of generations. The lemmas here are
//! the facts the quadtree's jumps rest on: a cell depends only on the cells
//! within `t` of it, the rule commutes with translation, and generations add.

use vstd::prelude::*;
use crate::arith::pow2;
use crate::hashlife::cache::{LifeNode, alive_at, child_of, quadrant, node_is, spec_empty_node, FALSE_NODE, TRUE_NODE};
use crate::hashlife::tree::{quad_alive, lemma_node_is_alive};
use crate::hashlife::rules::{life_rule, b2i};

verus! {

/// Cell `(x, y)` of pattern `f` after `t` generations of B3/S23.
pub open spec fn evolve(f: spec_fn(int, int) -> bool, t: nat, x: int, y: int) -> bool
    decreases t,
{
    if t == 0 {
        f(x, y)
    } else {
        let p = (t - 1) as nat;
        life_rule(
            evolve(f, p, x, y),
            b2i(evolve(f, p, x - 1, y - 1)) + b2i(evolve(f, p, x, y - 1)) + b2i(evolve(f, p, x + 1, y - 1))
                + b2i(evolve(f, p, x - 1, y)) + b2i(evolve(f, p, x + 1, y)) + b2i(evolve(f, p, x - 1, y + 1))
                + b2i(evolve(f, p, x, y + 1)) + b2i(evolve(f, p, x + 1, y + 1)),
        )
    }
}

/// Pattern `f` moved so that its cell `(ox, oy)` lands on the origin.
pub open spec fn shifted(f: spec_fn(int, int) -> bool, ox: int, oy: int) -> spec_fn(int, int) -> bool {
    |a: int, b: int| f(a + ox, b + oy)
}

/// Pattern `f` after `s` generations, as a pattern.
pub open spec fn later(f: spec_fn(int, int) -> bool, s: nat) -> spec_fn(int, int) -> bool {
    |a: int, b: int| evolve(f, s, a, b)
}

/// The block of node `idx` read at `level`, placed with its corner on the
/// origin, every cell outside it dead.
pub open spec fn node_fn(nodes: Seq<LifeNode>, idx: u32, level: nat) -> spec_fn(int, int) -> bool {
    |a: int, b: int| 0 <= a < pow2(level) && 0 <= b < pow2(level) && alive_at(nodes, idx, level, a, b)
}

/// Patterns `f` and `g` agree on the rectangle `[x0, x1) x [y0, y1)`.
pub open spec fn agree_on(f: spec_fn(int, int) -> bool, g: spec_fn(int, int) -> bool, x0: int, y0: int, x1: int, y1: int) -> bool {
    forall|a: int, b: int| x0 <= a < x1 && y0 <= b < y1 ==> #[trigger] f(a, b) == g(a, b)
}

/// A cell depends only on the cells within `t` of it: patterns that agree on a
/// rectangle agree, `t` generations later, on the rectangle shrunk by `t`.
pub proof fn lemma_evolve_local(
    f: spec_fn(int, int) -> bool,
    g: spec_fn(int, int) -> bool,
    t: nat,
    x0: int,
    y0: int,
    x1: int,
    y1: int,
    x: int,
    y: int,
)
    requires
        agree_on(f, g, x0, y0, x1, y1),
        x0 + t <= x < x1 - t,
        y0 + t <= y < y1 - t,
    ensures
        evolve(f, t, x, y) == evolve(g, t, x, y),
    decreases t,
{
    if t > 0 {
        let p = (t - 1) as nat;
        lemma_evolve_local(f, g, p, x0, y0, x1, y1, x, y);
        lemma_evolve_local(f, g, p, x0, y0, x1, y1, x - 1, y - 1);
        lemma_evolve_local(f, g, p, x0, y0, x1, y1, x, y - 1);
        lemma_evolve_local(f, g, p, x0, y0, x1, y1, x + 1, y - 1);
        lemma_evolve_local(f, g, p, x0, y0, x1, y1, x - 1, y);
        lemma_evolve_local(f, g, p, x0, y0, x1, y1, x + 1, y);
        lemma_evolve_local(f, g, p, x0, y0, x1, y1, x - 1, y + 1);
        lemma_evolve_local(f, g, p, x0, y0, x1, y1, x, y + 1);
        lemma_evolve_local(f, g, p, x0, y0, x1, y1, x + 1, y + 1);
    }
}

/// The rule commutes with translation.
pub proof fn lemma_evolve_shift(f: spec_fn(int, int) -> bool, ox: int, oy: int, t: nat, x: int, y: int)
    ensures
        evolve(shifted(f, ox, oy), t, x, y) == evolve(f, t, x + ox, y + oy),
    decreases t,
{
    if t > 0 {
        let p = (t - 1) as nat;
        lemma_evolve_shift(f, ox, oy, p, x, y);
        lemma_evolve_shift(f, ox, oy, p, x - 1, y - 1);
        lemma_evolve_shift(f, ox, oy, p, x, y - 1);
        lemma_evolve_shift(f, ox, oy, p, x + 1, y - 1);
        lemma_evolve_shift(f, ox, oy, p, x - 1, y);
        lemma_evolve_shift(f, ox, oy, p, x + 1, y);
        lemma_evolve_shift(f, ox, oy, p, x - 1, y + 1);
        lemma_evolve_shift(f, ox, oy, p, x, y + 1);
        lemma_evolve_shift(f, ox, oy, p, x + 1, y + 1);
        assert(x - 1 + ox == x + ox - 1);
        assert(x + 1 + ox == x + ox + 1);
        assert(y - 1 + oy == y + oy - 1);
        assert(y + 1 + oy == y + oy + 1);
    }
}

/// Generations add: `t` generations after `s` generations are `s + t`.
pub proof fn lemma_evolve_later(f: spec_fn(int, int) -> bool, s: nat, t: nat, x: int, y: int)
    ensures
        evolve(later(f, s), t, x, y) == evolve(f, s + t, x, y),
    decreases t,
{
    if t > 0 {
        let p = (t - 1) as nat;
        lemma_evolve_later(f, s, p, x, y);
        lemma_evolve_later(f, s, p, x - 1, y - 1);
        lemma_evolve_later(f, s, p, x, y - 1);
        lemma_evolve_later(f, s, p, x + 1, y - 1);
        lemma_evolve_later(f, s, p, x - 1, y);
        lemma_evolve_later(f, s, p, x + 1, y);
        lemma_evolve_later(f, s, p, x - 1, y + 1);
        lemma_evolve_later(f, s, p, x, y + 1);
        lemma_evolve_later(f, s, p, x + 1, y + 1);
        assert((s + t - 1) as nat == s + p);
    }
}

/// A region that is dead stays dead, shrinking by one cell a generation.
pub proof fn lemma_evolve_dead(f: spec_fn(int, int) -> bool, t: nat, x0: int, y0: int, x1: int, y1: int, x: int, y: int)
    requires
        forall|a: int, b: int| x0 <= a < x1 && y0 <= b < y1 ==> !#[trigger] f(a, b),
        x0 + t <= x < x1 - t,
        y0 + t <= y < y1 - t,
    ensures
        !evolve(f, t, x, y),
    decreases t,
{
    if t > 0 {
        let p = (t - 1) as nat;
        lemma_evolve_dead(f, p, x0, y0, x1, y1, x, y);
        lemma_evolve_dead(f, p, x0, y0, x1, y1, x - 1, y - 1);
        lemma_evolve_dead(f, p, x0, y0, x1, y1, x, y - 1);
        lemma_evolve_dead(f, p, x0, y0, x1, y1, x + 1, y - 1);
        lemma_evolve_dead(f, p, x0, y0, x1, y1, x - 1, y);
        lemma_evolve_dead(f, p, x0, y0, x1, y1, x + 1, y);
        lemma_evolve_dead(f, p, x0, y0, x1, y1, x - 1, y + 1);
        lemma_evolve_dead(f, p, x0, y0, x1, y1, x, y + 1);
        lemma_evolve_dead(f, p, x0, y0, x1, y1, x + 1, y + 1);
    }
}



/// Node `r` (one level down) is the central half of node `idx`'s block of
/// side `2^level` after `g` generations.
pub closed spec fn jump_ok(nodes: Seq<LifeNode>, idx: u32, level: nat, g: nat, r: u32) -> bool {
    let q = pow2((level - 2) as nat) as int;
    forall|x: int, y: int|
        0 <= x < pow2((level - 1) as nat) && 0 <= y < pow2((level - 1) as nat) ==> #[trigger] alive_at(
            nodes,
            r,
            (level - 1) as nat,
            x,
            y,
        ) == evolve(node_fn(nodes, idx, level), g, x + q, y + q)
}

/// Node `n` read at `level` is the block of pattern `f` at generation `s`
/// whose corner is `(ox, oy)`.
pub closed spec fn window_of(nodes: Seq<LifeNode>, n: u32, level: nat, f: spec_fn(int, int) -> bool, s: nat, ox: int, oy: int) -> bool {
    agree_on(node_fn(nodes, n, level), shifted(later(f, s), ox, oy), 0, 0, pow2(level) as int, pow2(level) as int)
}

/// The two sentinel slots hold the all-dead and the all-alive node.
pub open spec fn sentinels_ok(nodes: Seq<LifeNode>) -> bool {
    &&& nodes.len() >= 2
    &&& nodes[0] == spec_empty_node()
    &&& nodes[1] == (LifeNode { north_west: 1, north_east: 1, south_west: 1, south_east: 1, is_empty: false })
}

/// Any node's block is the block its four children make.
pub proof fn lemma_alive_children(nodes: Seq<LifeNode>, idx: u32, level: nat, x: int, y: int)
    requires
        sentinels_ok(nodes),
    ensures
        alive_at(nodes, idx, level + 1, x, y) == quad_alive(
            nodes,
            child_of(nodes, idx, 0),
            child_of(nodes, idx, 1),
            child_of(nodes, idx, 2),
            child_of(nodes, idx, 3),
            level,
            x,
            y,
        ),
{
    assert(((level + 1) - 1) as nat == level);
}

/// The whole block of a node is its own window at generation zero.
pub proof fn lemma_window_top(nodes: Seq<LifeNode>, n: u32, level: nat)
    ensures
        window_of(nodes, n, level, node_fn(nodes, n, level), 0, 0, 0),
{
    let f = node_fn(nodes, n, level);
    assert forall|a: int, b: int| 0 <= a < pow2(level) && 0 <= b < pow2(level) implies #[trigger] node_fn(nodes, n, level)(a, b)
        == shifted(later(f, 0), 0, 0)(a, b) by {
        assert(evolve(f, 0, a + 0, b + 0) == f(a, b));
    }
}

/// A child's window sits in its parent's window at the child's quadrant.
pub proof fn lemma_window_child(nodes: Seq<LifeNode>, p: u32, level: nat, f: spec_fn(int, int) -> bool, s: nat, ox: int, oy: int, q: int)
    requires
        sentinels_ok(nodes),
        window_of(nodes, p, level + 1, f, s, ox, oy),
        0 <= q < 4,
    ensures
        window_of(
            nodes,
            child_of(nodes, p, q),
            level,
            f,
            s,
            ox + (q % 2) * pow2(level),
            oy + (q / 2) * pow2(level),
        ),
{
    let w = pow2(level) as int;
    let dx: int = if q == 1 || q == 3 { w } else { 0 };
    let dy: int = if q >= 2 { w } else { 0 };
    assert((q % 2) * w == dx && (q / 2) * w == dy) by {
        if q == 0 {
            assert(q % 2 == 0 && q / 2 == 0);
        } else if q == 1 {
            assert(q % 2 == 1 && q / 2 == 0);
        } else if q == 2 {
            assert(q % 2 == 0 && q / 2 == 1);
        } else {
            assert(q % 2 == 1 && q / 2 == 1);
        }
    }
    let c = child_of(nodes, p, q);
    assert(pow2(level + 1) == 2 * pow2(level));
    assert forall|a: int, b: int| 0 <= a < w && 0 <= b < w implies #[trigger] node_fn(nodes, c, level)(a, b)
        == shifted(later(f, s), ox + dx, oy + dy)(a, b) by {
        lemma_alive_children(nodes, p, level, a + dx, b + dy);
        assert(quadrant(a + dx, b + dy, w) == q);
        assert(node_fn(nodes, p, level + 1)(a + dx, b + dy) == shifted(later(f, s), ox, oy)(a + dx, b + dy));
        assert(a + dx + ox == a + (ox + dx));
        assert(b + dy + oy == b + (oy + dy));
    }
}

/// Four windows side by side, under a node with those children, make the
/// node's window.
pub proof fn lemma_window_quad(
    nodes: Seq<LifeNode>,
    p: u32,
    a: u32,
    b: u32,
    c: u32,
    d: u32,
    level: nat,
    f: spec_fn(int, int) -> bool,
    s: nat,
    ox: int,
    oy: int,
)
    requires
        node_is(nodes, p, a, b, c, d),
        window_of(nodes, a, level, f, s, ox, oy),
        window_of(nodes, b, level, f, s, ox + pow2(level), oy),
        window_of(nodes, c, level, f, s, ox, oy + pow2(level)),
        window_of(nodes, d, level, f, s, ox + pow2(level), oy + pow2(level)),
    ensures
        window_of(nodes, p, level + 1, f, s, ox, oy),
{
    let w = pow2(level) as int;
    assert(pow2(level + 1) == 2 * pow2(level));
    assert forall|x: int, y: int| 0 <= x < 2 * w && 0 <= y < 2 * w implies #[trigger] node_fn(nodes, p, level + 1)(x, y)
        == shifted(later(f, s), ox, oy)(x, y) by {
        lemma_node_is_alive(nodes, p, a, b, c, d, level, x, y);
        let xx = if x >= w { x - w } else { x };
        let yy = if y >= w { y - w } else { y };
        if x >= w && y >= w {
            assert(node_fn(nodes, d, level)(xx, yy) == shifted(later(f, s), ox + w, oy + w)(xx, yy));
        } else if x >= w {
            assert(node_fn(nodes, b, level)(xx, yy) == shifted(later(f, s), ox + w, oy)(xx, yy));
        } else if y >= w {
            assert(node_fn(nodes, c, level)(xx, yy) == shifted(later(f, s), ox, oy + w)(xx, yy));
        } else {
            assert(node_fn(nodes, a, level)(xx, yy) == shifted(later(f, s), ox, oy)(xx, yy));
        }
    }
}

/// A jump of `g <= 2^(level - 2)` generations from a window gives the
/// window, `g` generations on, at the centre.
pub proof fn lemma_window_jump(nodes: Seq<LifeNode>, n: u32, level: nat, g: nat, r: u32, f: spec_fn(int, int) -> bool, s: nat, ox: int, oy: int)
    requires
        level >= 2,
        jump_ok(nodes, n, level, g, r),
        window_of(nodes, n, level, f, s, ox, oy),
        g <= pow2((level - 2) as nat),
    ensures
        window_of(nodes, r, (level - 1) as nat, f, s + g, ox + pow2((level - 2) as nat), oy + pow2((level - 2) as nat)),
{
    let q = pow2((level - 2) as nat) as int;
    let side = pow2(level) as int;
    assert(pow2(level) == 2 * pow2((level - 1) as nat));
    assert(pow2((level - 1) as nat) == 2 * pow2((level - 2) as nat));
    let src = node_fn(nodes, n, level);
    let tgt = shifted(later(f, s), ox, oy);
    assert forall|x: int, y: int| 0 <= x < 2 * q && 0 <= y < 2 * q implies #[trigger] node_fn(nodes, r, (level - 1) as nat)(x, y)
        == shifted(later(f, s + g), ox + q, oy + q)(x, y) by {
        assert(alive_at(nodes, r, (level - 1) as nat, x, y) == evolve(src, g, x + q, y + q));
        lemma_evolve_local(src, tgt, g, 0, 0, side, side, x + q, y + q);
        lemma_evolve_shift(later(f, s), ox, oy, g, x + q, y + q);
        lemma_evolve_later(f, s, g, x + q + ox, y + q + oy);
        assert(x + q + ox == x + (ox + q));
        assert(y + q + oy == y + (oy + q));
    }
}

/// Inside an all-alive square every cell is crowded out at once, and the
/// dead region then spreads inward one cell a generation: generation `t >= 1`
/// is dead at least `t` cells in from the square's edge.
pub proof fn lemma_full_dies(f: spec_fn(int, int) -> bool, side: int, t: nat, x: int, y: int)
    requires
        forall|a: int, b: int| #[trigger] f(a, b) == (0 <= a < side && 0 <= b < side),
        t >= 1,
        t <= x < side - t,
        t <= y < side - t,
    ensures
        !evolve(f, t, x, y),
    decreases t,
{
    if t > 1 {
        let p = (t - 1) as nat;
        lemma_full_dies(f, side, p, x, y);
        lemma_full_dies(f, side, p, x - 1, y - 1);
        lemma_full_dies(f, side, p, x, y - 1);
        lemma_full_dies(f, side, p, x + 1, y - 1);
        lemma_full_dies(f, side, p, x - 1, y);
        lemma_full_dies(f, side, p, x + 1, y);
        lemma_full_dies(f, side, p, x - 1, y + 1);
        lemma_full_dies(f, side, p, x, y + 1);
        lemma_full_dies(f, side, p, x + 1, y + 1);
    } else {
        assert(evolve(f, 0, x, y) && evolve(f, 0, x - 1, y - 1) && evolve(f, 0, x, y - 1) && evolve(f, 0, x + 1, y - 1)
            && evolve(f, 0, x - 1, y) && evolve(f, 0, x + 1, y) && evolve(f, 0, x - 1, y + 1) && evolve(f, 0, x, y + 1)
            && evolve(f, 0, x + 1, y + 1));
    }
}

/// The all-alive block's centre is dead after any jump of one generation or
/// more: FALSE is its jump.
pub proof fn lemma_true_jump(nodes: Seq<LifeNode>, level: nat, g: nat)
    requires
        level >= 2,
        1 <= g <= pow2((level - 2) as nat),
    ensures
        jump_ok(nodes, TRUE_NODE, level, g, FALSE_NODE),
{
    let f = node_fn(nodes, TRUE_NODE, level);
    let q = pow2((level - 2) as nat) as int;
    let side = pow2(level) as int;
    assert(pow2(level) == 2 * pow2((level - 1) as nat));
    assert(pow2((level - 1) as nat) == 2 * pow2((level - 2) as nat));
    assert forall|a: int, b: int| #[trigger] f(a, b) == (0 <= a < side && 0 <= b < side) by {
    }
    assert forall|x: int, y: int| 0 <= x < pow2((level - 1) as nat) && 0 <= y < pow2((level - 1) as nat) implies #[trigger] alive_at(
        nodes,
        FALSE_NODE,
        (level - 1) as nat,
        x,
        y,
    ) == evolve(f, g, x + q, y + q) by {
        lemma_full_dies(f, side, g, x + q, y + q);
    }
}

/// The all-dead block stays dead: FALSE is its own jump.
pub proof fn lemma_false_jump(nodes: Seq<LifeNode>, level: nat, g: nat)
    requires
        level >= 2,
        g <= pow2((level - 2) as nat),
    ensures
        jump_ok(nodes, FALSE_NODE, level, g, FALSE_NODE),
{
    let f = node_fn(nodes, FALSE_NODE, level);
    let q = pow2((level - 2) as nat) as int;
    assert(pow2(level) == 2 * pow2((level - 1) as nat));
    assert(pow2((level - 1) as nat) == 2 * pow2((level - 2) as nat));
    assert forall|x: int, y: int| 0 <= x < pow2((level - 1) as nat) && 0 <= y < pow2((level - 1) as nat) implies #[trigger] alive_at(
        nodes,
        FALSE_NODE,
        (level - 1) as nat,
        x,
        y,
    ) == evolve(f, g, x + q, y + q) by {
        lemma_evolve_dead(f, g, x + q - g - 1, y + q - g - 1, x + q + g + 1, y + q + g + 1, x + q, y + q);
    }
}

/// A window at the centre, `g` generations on, of the block of `idx` is the
/// jump of `idx` by `g`.
pub proof fn lemma_window_final(nodes: Seq<LifeNode>, idx: u32, level: nat, g: nat, r: u32)
    requires
        level >= 2,
        window_of(
            nodes,
            r,
            (level - 1) as nat,
            node_fn(nodes, idx, level),
            g,
            pow2((level - 2) as nat) as int,
            pow2((level - 2) as nat) as int,
        ),
    ensures
        jump_ok(nodes, idx, level, g, r),
{
    let q = pow2((level - 2) as nat) as int;
    let f = node_fn(nodes, idx, level);
    assert forall|x: int, y: int| 0 <= x < pow2((level - 1) as nat) && 0 <= y < pow2((level - 1) as nat) implies #[trigger] alive_at(
        nodes,
        r,
        (level - 1) as nat,
        x,
        y,
    ) == evolve(f, g, x + q, y + q) by {
        assert(node_fn(nodes, r, (level - 1) as nat)(x, y) == shifted(later(f, g), q, q)(x, y));
    }
}

/// A jump stated cell by cell.
pub proof fn lemma_jump_intro(nodes: Seq<LifeNode>, idx: u32, level: nat, g: nat, r: u32)
    requires
        forall|x: int, y: int|
            0 <= x < pow2((level - 1) as nat) && 0 <= y < pow2((level - 1) as nat) ==> #[trigger] alive_at(
                nodes,
                r,
                (level - 1) as nat,
                x,
                y,
            ) == evolve(node_fn(nodes, idx, level), g, x + pow2((level - 2) as nat), y + pow2((level - 2) as nat)),
    ensures
        jump_ok(nodes, idx, level, g, r),
{
}

/// A jump depends on the two blocks only.
pub proof fn lemma_jump_ext(n1: Seq<LifeNode>, n2: Seq<LifeNode>, idx: u32, level: nat, g: nat, r: u32)
    requires
        node_fn(n1, idx, level) == node_fn(n2, idx, level),
        forall|x: int, y: int| #[trigger] alive_at(n1, r, (level - 1) as nat, x, y) == alive_at(n2, r, (level - 1) as nat, x, y),
    ensures
        jump_ok(n1, idx, level, g, r) == jump_ok(n2, idx, level, g, r),
{
    let f = node_fn(n1, idx, level);
    let q = pow2((level - 2) as nat) as int;
    let l1 = (level - 1) as nat;
    if jump_ok(n1, idx, level, g, r) {
        assert forall|x: int, y: int| 0 <= x < pow2(l1) && 0 <= y < pow2(l1) implies #[trigger] alive_at(n2, r, l1, x, y)
            == evolve(f, g, x + q, y + q) by {
            assert(alive_at(n1, r, l1, x, y) == evolve(f, g, x + q, y + q));
        }
    }
    if jump_ok(n2, idx, level, g, r) {
        assert forall|x: int, y: int| 0 <= x < pow2(l1) && 0 <= y < pow2(l1) implies #[trigger] alive_at(n1, r, l1, x, y)
            == evolve(f, g, x + q, y + q) by {
            assert(alive_at(n2, r, l1, x, y) == evolve(f, g, x + q, y + q));
        }
    }
}

/// A window depends on its node's block only.
pub proof fn lemma_window_ext(n1: Seq<LifeNode>, n2: Seq<LifeNode>, n: u32, level: nat, f: spec_fn(int, int) -> bool, s: nat, ox: int, oy: int)
    requires
        node_fn(n1, n, level) == node_fn(n2, n, level),
        window_of(n1, n, level, f, s, ox, oy),
    ensures
        window_of(n2, n, level, f, s, ox, oy),
{
}

/// A part of a uniform block is the same uniform block.
pub proof fn lemma_window_uniform(
    nodes: Seq<LifeNode>,
    u: u32,
    big: nat,
    small: nat,
    f: spec_fn(int, int) -> bool,
    s: nat,
    ox: int,
    oy: int,
    dx: int,
    dy: int,
)
    requires
        u == FALSE_NODE || u == TRUE_NODE,
        window_of(nodes, u, big, f, s, ox, oy),
        0 <= dx,
        dx + pow2(small) <= pow2(big),
        0 <= dy,
        dy + pow2(small) <= pow2(big),
    ensures
        window_of(nodes, u, small, f, s, ox + dx, oy + dy),
{
    assert forall|a: int, b: int| 0 <= a < pow2(small) && 0 <= b < pow2(small) implies #[trigger] node_fn(nodes, u, small)(a, b)
        == shifted(later(f, s), ox + dx, oy + dy)(a, b) by {
        assert(node_fn(nodes, u, big)(a + dx, b + dy) == shifted(later(f, s), ox, oy)(a + dx, b + dy));
        assert(a + dx + ox == a + (ox + dx));
        assert(b + dy + oy == b + (oy + dy));
    }
}




/// A jump read cell by cell.
pub proof fn lemma_jump_elim(nodes: Seq<LifeNode>, idx: u32, level: nat, g: nat, r: u32, x: int, y: int)
    requires
        jump_ok(nodes, idx, level, g, r),
        0 <= x < pow2((level - 1) as nat),
        0 <= y < pow2((level - 1) as nat),
    ensures
        alive_at(nodes, r, (level - 1) as nat, x, y) == evolve(
            node_fn(nodes, idx, level),
            g,
            x + pow2((level - 2) as nat),
            y + pow2((level - 2) as nat),
        ),
{
}
} // verus!
