//! Reading and editing the quadtree: cells, expansion, population, listing.

use vstd::prelude::*;
use crate::arith::{pow2, lemma_pow2_mono, lemma_pow2_add, lemma_shl_u32, lemma_shl_usize, lemma_pow2_fits_usize};
use crate::hashlife::{coord_pack, spec_coord_pack, two64};
use crate::hashlife::cache::{HashLifeCache, LifeNode, FALSE_NODE, TRUE_NODE, alive_at, spec_count,
    child_of, node_at, node_is, quadrant, lemma_alive_frame, lemma_count_frame};

verus! {

/// The block of side `2^(level + 1)` made of four blocks of side `2^level`.
pub open spec fn quad_alive(nodes: Seq<LifeNode>, a: u32, b: u32, c: u32, d: u32, level: nat, x: int, y: int) -> bool {
    let h = pow2(level) as int;
    let q = quadrant(x, y, h);
    alive_at(
        nodes,
        if q == 0 { a } else if q == 1 { b } else if q == 2 { c } else { d },
        level,
        if x >= h { x - h } else { x },
        if y >= h { y - h } else { y },
    )
}

/// A node with children `(a, b, c, d)` is the block they make.
pub proof fn lemma_node_is_alive(nodes: Seq<LifeNode>, idx: u32, a: u32, b: u32, c: u32, d: u32, level: nat, x: int, y: int)
    requires
        node_is(nodes, idx, a, b, c, d),
    ensures
        alive_at(nodes, idx, level + 1, x, y) == quad_alive(nodes, a, b, c, d, level, x, y),
{
    assert(((level + 1) - 1) as nat == level);
}

/// Node shapes survive an extension of the cache.
pub proof fn lemma_node_is_frame(c1: &HashLifeCache, c2: &HashLifeCache, idx: u32, a: u32, b: u32, c: u32, d: u32)
    requires
        c1.extended_by(c2),
        c1.valid(idx),
        node_is(c1.nodes@, idx, a, b, c, d),
    ensures
        node_is(c2.nodes@, idx, a, b, c, d),
{
    if idx >= 2 {
        assert(c2.nodes@[idx as int] == c1.nodes@[idx as int]);
    }
}

/// Extension is transitive.
pub proof fn lemma_extended_trans(c1: &HashLifeCache, c2: &HashLifeCache, c3: &HashLifeCache)
    requires
        c1.extended_by(c2),
        c2.extended_by(c3),
    ensures
        c1.extended_by(c3),
{
}

/// The all-dead block of any level: always FALSE_NODE.
pub fn empty_tree(cache: &mut HashLifeCache, level: u32) -> (r: u32)
    requires
        old(cache).wf(),
    ensures
        r == FALSE_NODE,
        *final(cache) == *old(cache),
    decreases level,
{
    if level == 0 {
        return FALSE_NODE;
    }
    let child = empty_tree(cache, level - 1);
    cache.find_or_create(child, child, child, child)
}

/// What `expand_node` makes of node `idx` of level `level`: the block is centred in
/// a block twice as wide (a single cell, of level 0, goes to the south-east).
pub open spec fn expanded_alive(nodes: Seq<LifeNode>, idx: u32, level: nat, x: int, y: int) -> bool {
    if idx == FALSE_NODE {
        false
    } else {
        let q = if level == 0 { 1int } else { pow2((level - 1) as nat) as int };
        &&& q <= x < q + pow2(level)
        &&& q <= y < q + pow2(level)
        &&& alive_at(nodes, idx, level, x - q, y - q)
    }
}

/// One level up: the node placed in the middle of a block twice as wide, each
/// child moved to the inner corner of its quadrant.
#[verifier::rlimit(100)]
#[verifier::spinoff_prover]
pub fn expand_node(cache: &mut HashLifeCache, node_idx: u32, level: u32) -> (r: u32)
    requires
        old(cache).wf(),
        old(cache).valid(node_idx),
        level >= 1 || node_idx <= 1,
        level < 64,
    ensures
        final(cache).wf(),
        final(cache).valid(r),
        old(cache).extended_by(&*final(cache)),
        final(cache).fast_cache == old(cache).fast_cache,
        final(cache).exhausted || forall|x: int, y: int|
            0 <= x < pow2(level as nat + 1) && 0 <= y < pow2(level as nat + 1) ==> #[trigger] alive_at(
                final(cache).nodes@,
                r,
                level as nat + 1,
                x,
                y,
            ) == expanded_alive(old(cache).nodes@, node_idx, level as nat, x, y),
        r != TRUE_NODE,
        node_idx == FALSE_NODE ==> r == FALSE_NODE,
{
    if node_idx == FALSE_NODE {
        return empty_tree(cache, level + 1);
    }
    if node_idx == TRUE_NODE && level == 0 {
        let r = cache.find_or_create(FALSE_NODE, FALSE_NODE, FALSE_NODE, TRUE_NODE);
        proof {
            if !cache.exhausted {
                assert forall|x: int, y: int|
                    0 <= x < pow2(level as nat + 1) && 0 <= y < pow2(level as nat + 1) implies #[trigger] alive_at(
                    cache.nodes@,
                    r,
                    level as nat + 1,
                    x,
                    y,
                ) == expanded_alive(old(cache).nodes@, node_idx, level as nat, x, y) by {
                    lemma_node_is_alive(cache.nodes@, r, 0, 0, 0, 1, level as nat, x, y);
                }
            }
        }
        return r;
    }
    let empty = if level > 0 { empty_tree(cache, level - 1) } else { FALSE_NODE };
    let ghost c0 = *cache;
    let node = cache.get_node(node_idx);
    let e_nw = cache.find_or_create(empty, empty, empty, node.north_west);
    let ghost c1 = *cache;
    let e_ne = cache.find_or_create(empty, empty, node.north_east, empty);
    let ghost c2 = *cache;
    let e_sw = cache.find_or_create(empty, node.south_west, empty, empty);
    let ghost c3 = *cache;
    let e_se = cache.find_or_create(node.south_east, empty, empty, empty);
    let ghost c4 = *cache;
    let r = cache.find_or_create(e_nw, e_ne, e_sw, e_se);
    proof {
        let c5 = *cache;
        if !c5.exhausted {
            lemma_extended_trans(&c1, &c2, &c3);
            lemma_extended_trans(&c1, &c3, &c4);
            lemma_extended_trans(&c1, &c4, &c5);
            lemma_extended_trans(&c2, &c3, &c4);
            lemma_extended_trans(&c2, &c4, &c5);
            lemma_extended_trans(&c3, &c4, &c5);
            lemma_node_is_frame(&c1, &c5, e_nw, 0, 0, 0, node.north_west);
            lemma_node_is_frame(&c2, &c5, e_ne, 0, 0, node.north_east, 0);
            lemma_node_is_frame(&c3, &c5, e_sw, 0, node.south_west, 0, 0);
            lemma_node_is_frame(&c4, &c5, e_se, node.south_east, 0, 0, 0);
            lemma_extended_trans(&c0, &c1, &c2);
            lemma_extended_trans(&c0, &c2, &c3);
            lemma_extended_trans(&c0, &c3, &c4);
            lemma_extended_trans(&c0, &c4, &c5);
            let l = level as nat;
            let q = pow2((l - 1) as nat) as int;
            assert(pow2(l) == 2 * q);
            assert forall|x: int, y: int| 0 <= x < pow2(l + 1) && 0 <= y < pow2(l + 1) implies #[trigger] alive_at(
                c5.nodes@,
                r,
                l + 1,
                x,
                y,
            ) == expanded_alive(old(cache).nodes@, node_idx, l, x, y) by {
                let h = pow2(l) as int;
                lemma_node_is_alive(c5.nodes@, r, e_nw, e_ne, e_sw, e_se, l, x, y);
                let qd = quadrant(x, y, h);
                let xx = if x >= h { x - h } else { x };
                let yy = if y >= h { y - h } else { y };
                assert((l - 1) as nat + 1 == l);
                if qd == 0 {
                    lemma_node_is_alive(c5.nodes@, e_nw, 0, 0, 0, node.north_west, (l - 1) as nat, xx, yy);
                } else if qd == 1 {
                    lemma_node_is_alive(c5.nodes@, e_ne, 0, 0, node.north_east, 0, (l - 1) as nat, xx, yy);
                } else if qd == 2 {
                    lemma_node_is_alive(c5.nodes@, e_sw, 0, node.south_west, 0, 0, (l - 1) as nat, xx, yy);
                } else {
                    lemma_node_is_alive(c5.nodes@, e_se, node.south_east, 0, 0, 0, (l - 1) as nat, xx, yy);
                }
                let ch = child_of(old(cache).nodes@, node_idx, quadrant(x - q, y - q, q));
                if q <= x < q + h && q <= y < q + h {
                    lemma_alive_frame(&c0, &c5, ch, (l - 1) as nat, if x - q >= q { x - q - q } else { x - q }, if y - q >= q { y - q - q } else { y - q });
                }
            }
        }
    }
    r
}

/// Whether cell `(x, y)` of node `node_idx` read at `depth` is alive.
pub fn get_cell_at(cache: &HashLifeCache, node_idx: u32, depth: u32, x: u32, y: u32) -> (r: bool)
    requires
        depth <= 32,
    ensures
        r == alive_at(cache.nodes@, node_idx, depth as nat, x as int, y as int),
    decreases depth,
{
    if node_idx == FALSE_NODE {
        return false;
    }
    if node_idx == TRUE_NODE {
        return true;
    }
    if depth == 0 {
        return true;
    }
    let node = cache.get_node(node_idx);
    let half = 1u32 << (depth - 1);
    proof {
        lemma_shl_u32((depth - 1) as u32);
    }
    if x < half {
        if y < half {
            get_cell_at(cache, node.north_west, depth - 1, x, y)
        } else {
            get_cell_at(cache, node.south_west, depth - 1, x, y - half)
        }
    } else {
        if y < half {
            get_cell_at(cache, node.north_east, depth - 1, x - half, y)
        } else {
            get_cell_at(cache, node.south_east, depth - 1, x - half, y - half)
        }
    }
}

/// Node `node_idx` at `depth` with cell `(x, y)` set to `alive`.
pub fn set_cell_at(cache: &mut HashLifeCache, node_idx: u32, depth: u32, x: u32, y: u32, alive: bool) -> (r: u32)
    requires
        old(cache).wf(),
        old(cache).valid(node_idx),
        depth <= 32,
        (x as int) < pow2(depth as nat),
        (y as int) < pow2(depth as nat),
    ensures
        final(cache).wf(),
        final(cache).valid(r),
        old(cache).extended_by(&*final(cache)),
        final(cache).fast_cache == old(cache).fast_cache,
        final(cache).exhausted || forall|xx: int, yy: int|
            0 <= xx < pow2(depth as nat) && 0 <= yy < pow2(depth as nat) ==> #[trigger] alive_at(
                final(cache).nodes@,
                r,
                depth as nat,
                xx,
                yy,
            ) == if xx == x && yy == y {
                alive
            } else {
                alive_at(old(cache).nodes@, node_idx, depth as nat, xx, yy)
            },
    decreases depth,
{
    if depth == 0 {
        return if alive { TRUE_NODE } else { FALSE_NODE };
    }
    if node_idx == FALSE_NODE && !alive {
        return FALSE_NODE;
    }
    if node_idx == TRUE_NODE && alive {
        return TRUE_NODE;
    }
    let ghost c0 = *cache;
    let node = cache.get_node(node_idx);
    let half = 1u32 << (depth - 1);
    proof {
        lemma_shl_u32((depth - 1) as u32);
        assert(pow2(depth as nat) == 2 * pow2((depth - 1) as nat));
    }
    let nw;
    let ne;
    let sw;
    let se;
    if x < half {
        if y < half {
            nw = set_cell_at(cache, node.north_west, depth - 1, x, y, alive);
            ne = node.north_east;
            sw = node.south_west;
            se = node.south_east;
        } else {
            nw = node.north_west;
            ne = node.north_east;
            sw = set_cell_at(cache, node.south_west, depth - 1, x, y - half, alive);
            se = node.south_east;
        }
    } else {
        if y < half {
            nw = node.north_west;
            ne = set_cell_at(cache, node.north_east, depth - 1, x - half, y, alive);
            sw = node.south_west;
            se = node.south_east;
        } else {
            nw = node.north_west;
            ne = node.north_east;
            sw = node.south_west;
            se = set_cell_at(cache, node.south_east, depth - 1, x - half, y - half, alive);
        }
    }
    let ghost c1 = *cache;
    let r = cache.find_or_create(nw, ne, sw, se);
    proof {
        let c2 = *cache;
        lemma_extended_trans(&c0, &c1, &c2);
        if !c2.exhausted {
            let l = (depth - 1) as nat;
            let h = pow2(l) as int;
            assert forall|xx: int, yy: int| 0 <= xx < pow2(depth as nat) && 0 <= yy < pow2(depth as nat) implies #[trigger] alive_at(
                c2.nodes@,
                r,
                depth as nat,
                xx,
                yy,
            ) == if xx == x && yy == y {
                alive
            } else {
                alive_at(c0.nodes@, node_idx, depth as nat, xx, yy)
            } by {
                assert(l + 1 == depth as nat);
                lemma_node_is_alive(c2.nodes@, r, nw, ne, sw, se, l, xx, yy);
                let q = quadrant(xx, yy, h);
                let x2 = if xx >= h { xx - h } else { xx };
                let y2 = if yy >= h { yy - h } else { yy };
                let ch = child_of(c0.nodes@, node_idx, q);
                assert(c0.valid(ch));
                let mq = quadrant(x as int, y as int, h);
                let pick = if q == 0 { nw } else if q == 1 { ne } else if q == 2 { sw } else { se };
                if q != mq {
                    assert(pick == ch);
                    lemma_alive_frame(&c0, &c2, ch, l, x2, y2);
                    assert(!(xx == x && yy == y));
                } else {
                    lemma_alive_frame(&c1, &c2, pick, l, x2, y2);
                    let x1 = if x as int >= h { x - h } else { x as int };
                    let y1 = if y as int >= h { y - h } else { y as int };
                    assert((xx == x && yy == y) <==> (x2 == x1 && y2 == y1));
                }
            }
        }
    }
    r
}

/// The population of node `node_idx` read at `depth` (memoized in the count cache).
pub fn count_cells(cache: &mut HashLifeCache, node_idx: u32, depth: u32) -> (r: usize)
    requires
        old(cache).wf(),
        old(cache).valid(node_idx),
        spec_count(old(cache).nodes@, node_idx, depth as nat) <= usize::MAX,
    ensures
        final(cache).wf(),
        r == spec_count(old(cache).nodes@, node_idx, depth as nat),
        final(cache).nodes@ == old(cache).nodes@,
        old(cache).extended_by(&*final(cache)),
        final(cache).fast_cache == old(cache).fast_cache,
        final(cache).arena == old(cache).arena,
    decreases depth,
{
    if node_idx == FALSE_NODE {
        return 0;
    }
    if node_idx == TRUE_NODE {
        proof {
            lemma_pow2_fits_usize(2 * depth as nat);
            lemma_shl_usize((2 * depth) as usize);
        }
        return 1usize << (2 * depth as usize);
    }
    if depth == 0 {
        return 1;
    }
    match crate::hashlife::maps::count_get(&cache.count_cache, (node_idx, depth)) {
        Some(c) => {
            return c;
        },
        None => {},
    }
    let node = cache.get_node(node_idx);
    let ghost n0 = cache.nodes@;
    let a = count_cells(cache, node.north_west, depth - 1);
    let b = count_cells(cache, node.north_east, depth - 1);
    let c = count_cells(cache, node.south_west, depth - 1);
    let d = count_cells(cache, node.south_east, depth - 1);
    let count = a + b + c + d;
    crate::hashlife::maps::count_insert(&mut cache.count_cache, (node_idx, depth), count);
    count
}

/// The packed cell `(x, y)`, each coordinate taken modulo 2^64 (the plane
/// wraps around).
pub open spec fn cell_key(x: int, y: int) -> u128 {
    (x % two64() + (y % two64()) * two64()) as u128
}

/// `v` reduced modulo 2^64, for `v` in `[0, 2^65)`.
proof fn lemma_wrap_once(v: int)
    requires
        0 <= v < 2 * two64(),
    ensures
        v % two64() == if v >= two64() { v - two64() } else { v },
{
    if v >= two64() {
        vstd::arithmetic::div_mod::lemma_fundamental_div_mod_converse(v, two64(), 1, v - two64());
    } else {
        vstd::arithmetic::div_mod::lemma_fundamental_div_mod_converse(v, two64(), 0, v);
    }
}

/// The wrapped sum of `a` and `k` depends on `a` only modulo 2^64.
proof fn lemma_add_mod(a: int, b: int, k: int)
    requires
        a % two64() == b % two64(),
    ensures
        (a + k) % two64() == (b + k) % two64(),
{
    vstd::arithmetic::div_mod::lemma_add_mod_noop(a, k, two64());
    vstd::arithmetic::div_mod::lemma_add_mod_noop(b, k, two64());
}

/// `u64::wrapping_add` is the sum modulo 2^64.
proof fn lemma_wrapping_add(a: u64, b: u64)
    ensures
        vstd::wrapping::u64_specs::wrapping_add(a, b) as int == (a + b) % two64(),
{
    lemma_wrap_once(a + b);
}

/// The listing of a block depends on its position only modulo 2^64.
pub proof fn lemma_cells_seq_shift(nodes: Seq<LifeNode>, idx: u32, depth: nat, ox: int, oy: int, ox2: int, oy2: int)
    requires
        ox % two64() == ox2 % two64(),
        oy % two64() == oy2 % two64(),
    ensures
        cells_seq(nodes, idx, depth, ox, oy) == cells_seq(nodes, idx, depth, ox2, oy2),
    decreases depth,
{
    if idx == FALSE_NODE {
    } else if idx == TRUE_NODE {
        let size = pow2(depth) as int;
        let s1 = fill_seq(ox, oy, size);
        let s2 = fill_seq(ox2, oy2, size);
        assert forall|i: int| 0 <= i < s1.len() implies #[trigger] s1[i] == s2[i] by {
            lemma_add_mod(ox, ox2, i % size);
            lemma_add_mod(oy, oy2, i / size);
        }
        assert(s1 =~= s2);
    } else if depth == 0 {
    } else {
        let h = pow2((depth - 1) as nat) as int;
        let d = (depth - 1) as nat;
        lemma_add_mod(ox, ox2, h);
        lemma_add_mod(oy, oy2, h);
        lemma_cells_seq_shift(nodes, child_of(nodes, idx, 0), d, ox, oy, ox2, oy2);
        lemma_cells_seq_shift(nodes, child_of(nodes, idx, 1), d, ox + h, oy, ox2 + h, oy2);
        lemma_cells_seq_shift(nodes, child_of(nodes, idx, 2), d, ox, oy + h, ox2, oy2 + h);
        lemma_cells_seq_shift(nodes, child_of(nodes, idx, 3), d, ox + h, oy + h, ox2 + h, oy2 + h);
    }
}

/// The cells of a full `size` x `size` block at `(ox, oy)`, row by row.
pub open spec fn fill_seq(ox: int, oy: int, size: int) -> Seq<u128> {
    Seq::new((size * size) as nat, |i: int| cell_key(ox + i % size, oy + i / size))
}

/// The live cells of node `idx` at `depth` placed at `(ox, oy)`, quadrant by
/// quadrant (NW, NE, SW, SE), a full block row by row.
pub open spec fn cells_seq(nodes: Seq<LifeNode>, idx: u32, depth: nat, ox: int, oy: int) -> Seq<u128>
    decreases depth,
{
    if idx == FALSE_NODE {
        Seq::empty()
    } else if idx == TRUE_NODE {
        fill_seq(ox, oy, pow2(depth) as int)
    } else if depth == 0 {
        seq![cell_key(ox, oy)]
    } else {
        let h = pow2((depth - 1) as nat) as int;
        let d = (depth - 1) as nat;
        cells_seq(nodes, child_of(nodes, idx, 0), d, ox, oy) + cells_seq(nodes, child_of(nodes, idx, 1), d, ox + h, oy)
            + cells_seq(nodes, child_of(nodes, idx, 2), d, ox, oy + h) + cells_seq(
            nodes,
            child_of(nodes, idx, 3),
            d,
            ox + h,
            oy + h,
        )
    }
}

/// Appends the cells of the full `size` x `size` block at `(ox, oy)`, row by row.
fn push_block(ox: u64, oy: u64, size: u32, result: &mut Vec<u128>)
    ensures
        final(result)@ == old(result)@ + fill_seq(ox as int, oy as int, size as int),
{
        let ghost sz = size as int;
        let ghost target = fill_seq(ox as int, oy as int, sz);
        let mut y: u32 = 0;
        while y < size
            invariant
                sz == size as int,
                target == fill_seq(ox as int, oy as int, sz),
                y <= size,
                result@ == old(result)@ + target.take(y * sz),
            decreases size - y,
        {
            let mut x: u32 = 0;
            while x < size
                invariant
                        sz == size as int,
                    target == fill_seq(ox as int, oy as int, sz),
                    y < size,
                    x <= size,
                    result@ == old(result)@ + target.take(y * sz + x),
                decreases size - x,
            {
                let c = coord_pack(ox.wrapping_add(x as u64), oy.wrapping_add(y as u64));
                proof {
                    lemma_wrapping_add(ox, x as u64);
                    lemma_wrapping_add(oy, y as u64);
                    let i = y * sz + x;
                    assert(0 <= i < sz * sz) by (nonlinear_arith)
                        requires
                            i == y * sz + x,
                            0 <= x < sz,
                            0 <= y < sz,
                    ;
                    assert(i % sz == x && i / sz == y) by (nonlinear_arith)
                        requires
                            i == y * sz + x,
                            0 <= x < sz,
                            0 <= y,
                    ;
                    assert(target[i] == c);
                    assert(target.take(i + 1) =~= target.take(i).push(c));
                }
                result.push(c);
                x = x + 1;
            }
            proof {
                assert(y * sz + sz == (y + 1) * sz) by (nonlinear_arith);
            }
            y = y + 1;
        }
        proof {
            assert(target.len() == sz * sz);
            assert(target.take(sz * sz) =~= target);
        }
}

/// Appends the live cells of node `node_idx` (read at `depth`, placed at
/// `(ox, oy)`) to `result`.
pub fn collect_alive(cache: &HashLifeCache, node_idx: u32, depth: u32, ox: u64, oy: u64, result: &mut Vec<u128>)
    requires
        depth <= 31,
    ensures
        final(result)@ == old(result)@ + cells_seq(cache.nodes@, node_idx, depth as nat, ox as int, oy as int),
    decreases depth,
{
    if node_idx == FALSE_NODE {
        proof {
            assert(final(result)@ =~= old(result)@ + Seq::<u128>::empty());
        }
        return;
    }
    if node_idx == TRUE_NODE {
        let size = 1u32 << depth;
        proof {
            lemma_shl_u32(depth);
        }
        push_block(ox, oy, size, result);
        return;
    }
    if depth == 0 {
        result.push(coord_pack(ox, oy));
        return;
    }
    let node = cache.get_node(node_idx);
    let half = 1u32 << (depth - 1);
    proof {
        lemma_shl_u32((depth - 1) as u32);
        assert(pow2(depth as nat) == 2 * pow2((depth - 1) as nat));
    }
    let ghost r0 = result@;
    collect_alive(cache, node.north_west, depth - 1, ox, oy, result);
    let ghost r1 = result@;
    collect_alive(cache, node.north_east, depth - 1, ox.wrapping_add(half as u64), oy, result);
    let ghost r2 = result@;
    collect_alive(cache, node.south_west, depth - 1, ox, oy.wrapping_add(half as u64), result);
    let ghost r3 = result@;
    collect_alive(cache, node.south_east, depth - 1, ox.wrapping_add(half as u64), oy.wrapping_add(half as u64), result);
    proof {
        let d = (depth - 1) as nat;
        let h = half as int;
        let nodes = cache.nodes@;
        lemma_wrapping_add(ox, half as u64);
        lemma_wrapping_add(oy, half as u64);
        vstd::arithmetic::div_mod::lemma_mod_twice(ox + h, two64());
        vstd::arithmetic::div_mod::lemma_mod_twice(oy + h, two64());
        vstd::arithmetic::div_mod::lemma_small_mod(ox as nat, two64() as nat);
        vstd::arithmetic::div_mod::lemma_small_mod(oy as nat, two64() as nat);
        lemma_cells_seq_shift(nodes, child_of(nodes, node_idx, 1), d, ox.wrapping_add(half as u64) as int, oy as int, ox + h, oy as int);
        lemma_cells_seq_shift(nodes, child_of(nodes, node_idx, 2), d, ox as int, oy.wrapping_add(half as u64) as int, ox as int, oy + h);
        lemma_cells_seq_shift(nodes, child_of(nodes, node_idx, 3), d, ox.wrapping_add(half as u64) as int, oy.wrapping_add(half as u64) as int, ox + h, oy + h);
        assert(result@ =~= r0 + (cells_seq(nodes, child_of(nodes, node_idx, 0), d, ox as int, oy as int) + cells_seq(
            nodes,
            child_of(nodes, node_idx, 1),
            d,
            ox + h,
            oy as int,
        ) + cells_seq(nodes, child_of(nodes, node_idx, 2), d, ox as int, oy + h) + cells_seq(
            nodes,
            child_of(nodes, node_idx, 3),
            d,
            ox + h,
            oy + h,
        )));
    }
}

/// Cell `c` is the packed form of a live cell of node `idx` at `depth` placed at `(ox, oy)`.
pub open spec fn is_block_cell(nodes: Seq<LifeNode>, idx: u32, depth: nat, ox: int, oy: int, c: u128) -> bool {
    exists|x: int, y: int|
        0 <= x < pow2(depth) && 0 <= y < pow2(depth) && #[trigger] alive_at(nodes, idx, depth, x, y) && c == cell_key(
            ox + x,
            oy + y,
        )
}

/// The listing holds exactly the live cells of the block.
#[verifier::rlimit(60)]
#[verifier::spinoff_prover]
pub proof fn lemma_cells_seq_contains(nodes: Seq<LifeNode>, idx: u32, depth: nat, ox: int, oy: int, c: u128)
    ensures
        cells_seq(nodes, idx, depth, ox, oy).contains(c) <==> is_block_cell(nodes, idx, depth, ox, oy, c),
    decreases depth,
{
    let s = cells_seq(nodes, idx, depth, ox, oy);
    if idx == FALSE_NODE {
    } else if idx == TRUE_NODE {
        let size = pow2(depth) as int;
        lemma_pow2_mono(0, depth);
        if s.contains(c) {
            let i = choose|i: int| 0 <= i < s.len() && s[i] == c;
            let x = i % size;
            let y = i / size;
            assert(0 <= x < size);
            assert(0 <= y < size) by (nonlinear_arith)
                requires
                    0 <= i < size * size,
                    y == i / size,
                    size > 0,
            ;
            assert(alive_at(nodes, idx, depth, x, y));
            assert(c == cell_key(ox + x, oy + y));
            assert(is_block_cell(nodes, idx, depth, ox, oy, c));
        }
        if is_block_cell(nodes, idx, depth, ox, oy, c) {
            let (x, y) = choose|x: int, y: int|
                0 <= x < pow2(depth) && 0 <= y < pow2(depth) && #[trigger] alive_at(nodes, idx, depth, x, y) && c
                    == cell_key(ox + x, oy + y);
            let i = y * size + x;
            assert(0 <= i < size * size) by (nonlinear_arith)
                requires
                    i == y * size + x,
                    0 <= x < size,
                    0 <= y < size,
            ;
            assert(i % size == x && i / size == y) by (nonlinear_arith)
                requires
                    i == y * size + x,
                    0 <= x < size,
                    0 <= y,
            ;
            assert(s[i] == c);
        }
    } else if depth == 0 {
        if s.contains(c) {
            assert(alive_at(nodes, idx, depth, 0, 0));
            assert(c == cell_key(ox + 0, oy + 0));
            assert(is_block_cell(nodes, idx, depth, ox, oy, c));
        }
        if is_block_cell(nodes, idx, depth, ox, oy, c) {
            assert(s[0] == c);
        }
    } else {
        let d = (depth - 1) as nat;
        let h = pow2(d) as int;
        assert(pow2(depth) == 2 * h);
        let s0 = cells_seq(nodes, child_of(nodes, idx, 0), d, ox, oy);
        let s1 = cells_seq(nodes, child_of(nodes, idx, 1), d, ox + h, oy);
        let s2 = cells_seq(nodes, child_of(nodes, idx, 2), d, ox, oy + h);
        let s3 = cells_seq(nodes, child_of(nodes, idx, 3), d, ox + h, oy + h);
        assert(s == s0 + s1 + s2 + s3);
        lemma_cells_seq_contains(nodes, child_of(nodes, idx, 0), d, ox, oy, c);
        lemma_cells_seq_contains(nodes, child_of(nodes, idx, 1), d, ox + h, oy, c);
        lemma_cells_seq_contains(nodes, child_of(nodes, idx, 2), d, ox, oy + h, c);
        lemma_cells_seq_contains(nodes, child_of(nodes, idx, 3), d, ox + h, oy + h, c);
        if s.contains(c) {
            let i = choose|i: int| 0 <= i < s.len() && s[i] == c;
            let (sx, sy, q) = if i < s0.len() {
                assert(s0.contains(c));
                (0int, 0int, 0int)
            } else if i < s0.len() + s1.len() {
                assert(s1[i - s0.len()] == c);
                assert(s1.contains(c));
                (h, 0int, 1int)
            } else if i < s0.len() + s1.len() + s2.len() {
                assert(s2[i - s0.len() - s1.len()] == c);
                assert(s2.contains(c));
                (0int, h, 2int)
            } else {
                assert(s3[i - s0.len() - s1.len() - s2.len()] == c);
                assert(s3.contains(c));
                (h, h, 3int)
            };
            let ch = child_of(nodes, idx, q);
            assert(is_block_cell(nodes, ch, d, ox + sx, oy + sy, c));
            let (x, y) = choose|x: int, y: int|
                0 <= x < pow2(d) && 0 <= y < pow2(d) && #[trigger] alive_at(nodes, ch, d, x, y) && c == cell_key(
                    ox + sx + x,
                    oy + sy + y,
                );
            assert(quadrant(sx + x, sy + y, h) == q);
            assert(alive_at(nodes, idx, depth, sx + x, sy + y));
            assert(c == cell_key(ox + (sx + x), oy + (sy + y)));
            assert(0 <= sx + x < pow2(depth) && 0 <= sy + y < pow2(depth));
            assert(is_block_cell(nodes, idx, depth, ox, oy, c));
        }
        if is_block_cell(nodes, idx, depth, ox, oy, c) {
            let (x, y) = choose|x: int, y: int|
                0 <= x < pow2(depth) && 0 <= y < pow2(depth) && #[trigger] alive_at(nodes, idx, depth, x, y) && c
                    == cell_key(ox + x, oy + y);
            let q = quadrant(x, y, h);
            let xx = if x >= h { x - h } else { x };
            let yy = if y >= h { y - h } else { y };
            let ch = child_of(nodes, idx, q);
            assert(alive_at(nodes, ch, d, xx, yy));
            if q == 0 {
                assert(is_block_cell(nodes, ch, d, ox, oy, c));
                let j = choose|j: int| 0 <= j < s0.len() && s0[j] == c;
                assert(s[j] == c);
            } else if q == 1 {
                assert(c == cell_key(ox + h + xx, oy + yy));
                assert(is_block_cell(nodes, ch, d, ox + h, oy, c));
                let j = choose|j: int| 0 <= j < s1.len() && s1[j] == c;
                assert(s[s0.len() + j] == c);
            } else if q == 2 {
                assert(c == cell_key(ox + xx, oy + h + yy));
                assert(is_block_cell(nodes, ch, d, ox, oy + h, c));
                let j = choose|j: int| 0 <= j < s2.len() && s2[j] == c;
                assert(s[s0.len() + s1.len() + j] == c);
            } else {
                assert(c == cell_key(ox + h + xx, oy + h + yy));
                assert(is_block_cell(nodes, ch, d, ox + h, oy + h, c));
                let j = choose|j: int| 0 <= j < s3.len() && s3[j] == c;
                assert(s[s0.len() + s1.len() + s2.len() + j] == c);
            }
            assert(s.contains(c));
        }
    }
}

/// The listing has one entry per live cell.
pub proof fn lemma_cells_seq_len(nodes: Seq<LifeNode>, idx: u32, depth: nat, ox: int, oy: int)
    ensures
        cells_seq(nodes, idx, depth, ox, oy).len() == spec_count(nodes, idx, depth),
    decreases depth,
{
    if idx == TRUE_NODE {
        lemma_pow2_add(depth, depth);
        assert(depth + depth == 2 * depth);
        lemma_pow2_mono(0, depth);
    } else if idx != FALSE_NODE && depth > 0 {
        let d = (depth - 1) as nat;
        let h = pow2(d) as int;
        lemma_cells_seq_len(nodes, child_of(nodes, idx, 0), d, ox, oy);
        lemma_cells_seq_len(nodes, child_of(nodes, idx, 1), d, ox + h, oy);
        lemma_cells_seq_len(nodes, child_of(nodes, idx, 2), d, ox, oy + h);
        lemma_cells_seq_len(nodes, child_of(nodes, idx, 3), d, ox + h, oy + h);
    }
}

/// Whether packed cell `v` is listed in `cells`.
fn slice_contains(cells: &[u128], v: u128) -> (r: bool)
    ensures
        r == cells@.contains(v),
{
    let mut i: usize = 0;
    while i < cells.len()
        invariant
            i <= cells@.len(),
            forall|j: int| 0 <= j < i ==> cells@[j] != v,
        decreases cells@.len() - i,
    {
        if cells[i] == v {
            return true;
        }
        i = i + 1;
    }
    false
}

proof fn lemma_push_contains(s: Seq<u128>, v: u128)
    ensures
        forall|c: u128| #[trigger] s.push(v).contains(c) <==> (s.contains(c) || c == v),
{
    assert forall|c: u128| #[trigger] s.push(v).contains(c) <==> (s.contains(c) || c == v) by {
        if s.contains(c) {
            let j = choose|j: int| 0 <= j < s.len() && s[j] == c;
            assert(s.push(v)[j] == c);
        }
        if c == v {
            assert(s.push(v)[s.len() as int] == c);
        }
        if s.push(v).contains(c) {
            let j = choose|j: int| 0 <= j < s.len() + 1 && s.push(v)[j] == c;
            if j < s.len() {
                assert(s[j] == c);
            }
        }
    }
}

/// `(x, y)` of a packed cell.
pub open spec fn key_x(c: u128) -> int {
    c as int % 0x1_0000_0000_0000_0000
}

pub open spec fn key_y(c: u128) -> int {
    c as int / 0x1_0000_0000_0000_0000
}

proof fn lemma_cell_key_xy(x: int, y: int)
    requires
        0 <= x < 0x1_0000_0000_0000_0000,
        0 <= y < 0x1_0000_0000_0000_0000,
    ensures
        key_x(cell_key(x, y)) == x,
        key_y(cell_key(x, y)) == y,
{
    let c = cell_key(x, y);
    vstd::arithmetic::div_mod::lemma_small_mod(x as nat, two64() as nat);
    vstd::arithmetic::div_mod::lemma_small_mod(y as nat, two64() as nat);
    assert(c as int == x + y * 0x1_0000_0000_0000_0000);
    vstd::arithmetic::div_mod::lemma_fundamental_div_mod_converse(c as int, 0x1_0000_0000_0000_0000, y, x);
}

/// Every listed cell lies in the square `[ox, ox + size) x [oy, oy + size)`.
pub open spec fn cells_within(cells: Seq<u128>, ox: int, oy: int, size: int) -> bool {
    forall|i: int| 0 <= i < cells.len() ==> ox <= key_x(#[trigger] cells[i]) < ox + size && oy <= key_y(cells[i]) < oy + size
}

/// Builds the node of side `size = 2^depth` at `(ox, oy)` whose live cells are the
/// listed ones, splitting the list by quadrant.
pub fn build_quadtree_from_cells(cache: &mut HashLifeCache, cells: &[u128], ox: u64, oy: u64, size: u32, depth: u32) -> (r: u32)
    requires
        old(cache).wf(),
        size as nat == pow2(depth as nat),
        depth <= 31,
        ox + size <= 0x1_0000_0000_0000_0000,
        oy + size <= 0x1_0000_0000_0000_0000,
        cells_within(cells@, ox as int, oy as int, size as int),
    ensures
        final(cache).wf(),
        final(cache).valid(r),
        old(cache).extended_by(&*final(cache)),
        final(cache).fast_cache == old(cache).fast_cache,
        final(cache).exhausted || forall|x: int, y: int|
            0 <= x < size && 0 <= y < size ==> #[trigger] alive_at(final(cache).nodes@, r, depth as nat, x, y)
                == cells@.contains(cell_key(ox + x, oy + y)),
    decreases depth,
{
    if cells.len() == 0 {
        return FALSE_NODE;
    }
    if size == 1 {
        let packed = coord_pack(ox, oy);
        let found = slice_contains(cells, packed);
        proof {
            assert(depth == 0) by {
                if depth > 0 {
                    crate::arith::lemma_pow2_mono(1, depth as nat);
                    crate::arith::lemma_pow2_small();
                }
            }
        }
        return if found { TRUE_NODE } else { FALSE_NODE };
    }
    proof {
        if depth == 0 {
            assert(pow2(0) == 1);
        }
        assert(pow2(depth as nat) == 2 * pow2((depth - 1) as nat));
    }
    let half = size / 2;
    let mut nw_cells: Vec<u128> = Vec::with_capacity(cells.len() / 4);
    let mut ne_cells: Vec<u128> = Vec::with_capacity(cells.len() / 4);
    let mut sw_cells: Vec<u128> = Vec::with_capacity(cells.len() / 4);
    let mut se_cells: Vec<u128> = Vec::with_capacity(cells.len() / 4);
    let mx: u64 = ox + half as u64;
    let my: u64 = oy + half as u64;
    let mut i: usize = 0;
    while i < cells.len()
        invariant
            i <= cells@.len(),
            mx == ox + half,
            my == oy + half,
            ox + size <= 0x1_0000_0000_0000_0000,
            oy + size <= 0x1_0000_0000_0000_0000,
            cells_within(cells@, ox as int, oy as int, size as int),
            forall|c: u128| nw_cells@.contains(c) <==> (cells@.take(i as int).contains(c) && key_x(c) < mx && key_y(c) < my),
            forall|c: u128| ne_cells@.contains(c) <==> (cells@.take(i as int).contains(c) && key_x(c) >= mx && key_y(c) < my),
            forall|c: u128| sw_cells@.contains(c) <==> (cells@.take(i as int).contains(c) && key_x(c) < mx && key_y(c) >= my),
            forall|c: u128| se_cells@.contains(c) <==> (cells@.take(i as int).contains(c) && key_x(c) >= mx && key_y(c) >= my),
        decreases cells@.len() - i,
    {
        let cell = cells[i];
        let (x, y) = crate::hashlife::coord_unpack(cell);
        proof {
            assert(cells@.take(i as int + 1) =~= cells@.take(i as int).push(cell));
            lemma_push_contains(cells@.take(i as int), cell);
            lemma_push_contains(nw_cells@, cell);
            lemma_push_contains(ne_cells@, cell);
            lemma_push_contains(sw_cells@, cell);
            lemma_push_contains(se_cells@, cell);
        }
        if x >= mx {
            if y >= my {
                se_cells.push(cell);
            } else {
                ne_cells.push(cell);
            }
        } else {
            if y >= my {
                sw_cells.push(cell);
            } else {
                nw_cells.push(cell);
            }
        }
        i = i + 1;
    }
    proof {
        assert(cells@.take(cells@.len() as int) =~= cells@);
        assert forall|j: int| 0 <= j < nw_cells@.len() implies ox <= key_x(#[trigger] nw_cells@[j]) < ox + half
            && oy <= key_y(nw_cells@[j]) < oy + half by {
            assert(nw_cells@.contains(nw_cells@[j]));
            let k = choose|k: int| 0 <= k < cells@.len() && cells@[k] == nw_cells@[j];
        }
        assert forall|j: int| 0 <= j < ne_cells@.len() implies ox + half <= key_x(#[trigger] ne_cells@[j]) < ox + half + half
            && oy <= key_y(ne_cells@[j]) < oy + half by {
            assert(ne_cells@.contains(ne_cells@[j]));
            let k = choose|k: int| 0 <= k < cells@.len() && cells@[k] == ne_cells@[j];
        }
        assert forall|j: int| 0 <= j < sw_cells@.len() implies ox <= key_x(#[trigger] sw_cells@[j]) < ox + half
            && oy + half <= key_y(sw_cells@[j]) < oy + half + half by {
            assert(sw_cells@.contains(sw_cells@[j]));
            let k = choose|k: int| 0 <= k < cells@.len() && cells@[k] == sw_cells@[j];
        }
        assert forall|j: int| 0 <= j < se_cells@.len() implies ox + half <= key_x(#[trigger] se_cells@[j]) < ox + half + half
            && oy + half <= key_y(se_cells@[j]) < oy + half + half by {
            assert(se_cells@.contains(se_cells@[j]));
            let k = choose|k: int| 0 <= k < cells@.len() && cells@[k] == se_cells@[j];
        }
    }
    let ghost c0 = *cache;
    let nw = build_quadtree_from_cells(cache, nw_cells.as_slice(), ox, oy, half, depth - 1);
    let ghost c1 = *cache;
    let ne = build_quadtree_from_cells(cache, ne_cells.as_slice(), ox + half as u64, oy, half, depth - 1);
    let ghost c2 = *cache;
    let sw = build_quadtree_from_cells(cache, sw_cells.as_slice(), ox, oy + half as u64, half, depth - 1);
    let ghost c3 = *cache;
    let se = build_quadtree_from_cells(cache, se_cells.as_slice(), ox + half as u64, oy + half as u64, half, depth - 1);
    let ghost c4 = *cache;
    let r = cache.find_or_create(nw, ne, sw, se);
    proof {
        let c5 = *cache;
        lemma_extended_trans(&c0, &c1, &c2);
        lemma_extended_trans(&c0, &c2, &c3);
        lemma_extended_trans(&c0, &c3, &c4);
        lemma_extended_trans(&c0, &c4, &c5);
        if !c5.exhausted {
            lemma_extended_trans(&c1, &c2, &c3);
            lemma_extended_trans(&c1, &c3, &c4);
            lemma_extended_trans(&c1, &c4, &c5);
            lemma_extended_trans(&c2, &c3, &c4);
            lemma_extended_trans(&c2, &c4, &c5);
            lemma_extended_trans(&c3, &c4, &c5);
            let d = (depth - 1) as nat;
            let h = half as int;
            assert forall|x: int, y: int| 0 <= x < size && 0 <= y < size implies #[trigger] alive_at(c5.nodes@, r, depth as nat, x, y)
                == cells@.contains(cell_key(ox + x, oy + y)) by {
                assert(d + 1 == depth as nat);
                lemma_node_is_alive(c5.nodes@, r, nw, ne, sw, se, d, x, y);
                let q = quadrant(x, y, h);
                let xx = if x >= h { x - h } else { x };
                let yy = if y >= h { y - h } else { y };
                let c = cell_key(ox + x, oy + y);
                lemma_cell_key_xy(ox + x, oy + y);
                if q == 0 {
                    lemma_alive_frame(&c1, &c5, nw, d, xx, yy);
                    assert(nw_cells@.contains(c) <==> cells@.contains(c));
                } else if q == 1 {
                    lemma_alive_frame(&c2, &c5, ne, d, xx, yy);
                    assert(cell_key(ox + h + xx, oy + yy) == c);
                    assert(ne_cells@.contains(c) <==> cells@.contains(c));
                } else if q == 2 {
                    lemma_alive_frame(&c3, &c5, sw, d, xx, yy);
                    assert(cell_key(ox + xx, oy + h + yy) == c);
                    assert(sw_cells@.contains(c) <==> cells@.contains(c));
                } else {
                    lemma_alive_frame(&c4, &c5, se, d, xx, yy);
                    assert(cell_key(ox + h + xx, oy + h + yy) == c);
                    assert(se_cells@.contains(c) <==> cells@.contains(c));
                }
            }
        }
    }
    r
}


/// A node read at level 1 as itself: sentinels and level-1 nodes are left as
/// they are (the uniform 2x2 blocks are the sentinels themselves).
pub fn ensure_level1(cache: &mut HashLifeCache, idx: u32) -> (r: u32)
    requires
        old(cache).wf(),
        old(cache).valid(idx),
    ensures
        r == idx,
        *final(cache) == *old(cache),
{
    if idx == FALSE_NODE {
        cache.find_or_create(FALSE_NODE, FALSE_NODE, FALSE_NODE, FALSE_NODE)
    } else if idx == TRUE_NODE {
        cache.find_or_create(TRUE_NODE, TRUE_NODE, TRUE_NODE, TRUE_NODE)
    } else {
        idx
    }
}

/// Rebuilds node `idx` as a level-2 node over its (level-1) children; the 4x4
/// block it denotes is unchanged.
pub fn ensure_level2(cache: &mut HashLifeCache, idx: u32) -> (r: u32)
    requires
        old(cache).wf(),
        old(cache).valid(idx),
    ensures
        final(cache).wf(),
        final(cache).valid(r),
        old(cache).extended_by(&*final(cache)),
        final(cache).fast_cache == old(cache).fast_cache,
        idx <= 1 ==> r == idx,
        final(cache).exhausted || forall|x: int, y: int|
            0 <= x < 4 && 0 <= y < 4 ==> #[trigger] alive_at(final(cache).nodes@, r, 2, x, y) == alive_at(
                old(cache).nodes@,
                idx,
                2,
                x,
                y,
            ),
{
    if idx == FALSE_NODE {
        let l1 = cache.find_or_create(FALSE_NODE, FALSE_NODE, FALSE_NODE, FALSE_NODE);
        cache.find_or_create(l1, l1, l1, l1)
    } else if idx == TRUE_NODE {
        let l1 = cache.find_or_create(TRUE_NODE, TRUE_NODE, TRUE_NODE, TRUE_NODE);
        cache.find_or_create(l1, l1, l1, l1)
    } else {
        let c = cache.get_node(idx);
        proof {
            assert(cache.issued[idx as int] == 1);
        }
        let nw = ensure_level1(cache, c.north_west);
        let ne = ensure_level1(cache, c.north_east);
        let sw = ensure_level1(cache, c.south_west);
        let se = ensure_level1(cache, c.south_east);
        let r = cache.find_or_create(nw, ne, sw, se);
        proof {
            if !cache.exhausted {
                crate::arith::lemma_pow2_small();
                assert forall|x: int, y: int| 0 <= x < 4 && 0 <= y < 4 implies #[trigger] alive_at(
                    cache.nodes@,
                    r,
                    2,
                    x,
                    y,
                ) == alive_at(old(cache).nodes@, idx, 2, x, y) by {
                    lemma_node_is_alive(cache.nodes@, r, nw, ne, sw, se, 1, x, y);
                    assert(((2nat - 1) as nat) == 1);
                    let q = quadrant(x, y, 2);
                    let ch = child_of(old(cache).nodes@, idx, q);
                    lemma_alive_frame(&*old(cache), &*cache, ch, 1, if x >= 2 { x - 2 } else { x }, if y >= 2 { y - 2 } else { y });
                }
            }
        }
        r
    }
}

/// Rebuilds node `idx` as a level-3 node over level-2 children; the 8x8 block
/// it denotes is unchanged.
pub fn ensure_level3(cache: &mut HashLifeCache, node_idx: u32) -> (r: u32)
    requires
        old(cache).wf(),
        old(cache).valid(node_idx),
    ensures
        final(cache).wf(),
        final(cache).valid(r),
        old(cache).extended_by(&*final(cache)),
        final(cache).fast_cache == old(cache).fast_cache,
        node_idx <= 1 ==> r == node_idx,
        final(cache).exhausted || forall|x: int, y: int|
            0 <= x < 8 && 0 <= y < 8 ==> #[trigger] alive_at(final(cache).nodes@, r, 3, x, y) == alive_at(
                old(cache).nodes@,
                node_idx,
                3,
                x,
                y,
            ),
{
    if node_idx == FALSE_NODE {
        let l1 = cache.find_or_create(FALSE_NODE, FALSE_NODE, FALSE_NODE, FALSE_NODE);
        let l2 = cache.find_or_create(l1, l1, l1, l1);
        return cache.find_or_create(l2, l2, l2, l2);
    }
    if node_idx == TRUE_NODE {
        let l1 = cache.find_or_create(TRUE_NODE, TRUE_NODE, TRUE_NODE, TRUE_NODE);
        let l2 = cache.find_or_create(l1, l1, l1, l1);
        return cache.find_or_create(l2, l2, l2, l2);
    }
    let node = cache.get_node(node_idx);
    proof {
        assert(cache.issued[node_idx as int] == 1);
    }
    let ghost c0 = *cache;
    let nw = ensure_level2(cache, node.north_west);
    let ghost c1 = *cache;
    let ne = ensure_level2(cache, node.north_east);
    let ghost c2 = *cache;
    let sw = ensure_level2(cache, node.south_west);
    let ghost c3 = *cache;
    let se = ensure_level2(cache, node.south_east);
    let ghost c4 = *cache;
    let r = cache.find_or_create(nw, ne, sw, se);
    proof {
        let c5 = *cache;
        lemma_extended_trans(&c0, &c1, &c2);
        lemma_extended_trans(&c0, &c2, &c3);
        lemma_extended_trans(&c0, &c3, &c4);
        lemma_extended_trans(&c0, &c4, &c5);
        if !c5.exhausted {
            lemma_extended_trans(&c1, &c2, &c3);
            lemma_extended_trans(&c1, &c3, &c4);
            lemma_extended_trans(&c1, &c4, &c5);
            lemma_extended_trans(&c2, &c3, &c4);
            lemma_extended_trans(&c2, &c4, &c5);
            lemma_extended_trans(&c3, &c4, &c5);
            crate::arith::lemma_pow2_small();
            assert forall|x: int, y: int| 0 <= x < 8 && 0 <= y < 8 implies #[trigger] alive_at(c5.nodes@, r, 3, x, y)
                == alive_at(c0.nodes@, node_idx, 3, x, y) by {
                lemma_node_is_alive(c5.nodes@, r, nw, ne, sw, se, 2, x, y);
                assert(((3nat - 1) as nat) == 2);
                let q = quadrant(x, y, 4);
                let xx = if x >= 4 { x - 4 } else { x };
                let yy = if y >= 4 { y - 4 } else { y };
                crate::hashlife::advance::lemma_children_valid(&c0, node_idx);
                if q == 0 {
                    lemma_alive_frame(&c1, &c5, nw, 2, xx, yy);
                } else if q == 1 {
                    lemma_alive_frame(&c2, &c5, ne, 2, xx, yy);
                    lemma_alive_frame(&c0, &c1, node.north_east, 2, xx, yy);
                } else if q == 2 {
                    lemma_alive_frame(&c3, &c5, sw, 2, xx, yy);
                    lemma_alive_frame(&c0, &c2, node.south_west, 2, xx, yy);
                } else {
                    lemma_alive_frame(&c4, &c5, se, 2, xx, yy);
                    lemma_alive_frame(&c0, &c3, node.south_east, 2, xx, yy);
                }
            }
        }
    }
    r
}

/// Every row of `grid` from `y0` to `y0 + h` reaches column `x0 + w`.
pub open spec fn grid_covers(grid: Seq<Vec<u8>>, x0: int, y0: int, w: int, h: int) -> bool {
    &&& 0 <= y0 && y0 + h <= grid.len()
    &&& forall|y: int| y0 <= y < y0 + h ==> x0 + w <= (#[trigger] grid[y])@.len()
}

/// Builds the node of the `w` x `h` window of a 0/1 grid at `(x0, y0)` (row `y`,
/// column `x`), halving it down to single cells. For a square window of side
/// `2^d` the node read at level `d` is the window.
#[verifier::rlimit(60)]
#[verifier::spinoff_prover]
pub fn build_quadtree(cache: &mut HashLifeCache, grid: &[Vec<u8>], x0: usize, y0: usize, w: usize, h: usize) -> (r: u32)
    requires
        old(cache).wf(),
        grid_covers(grid@, x0 as int, y0 as int, w as int, h as int),
        x0 + w <= usize::MAX,
        y0 + h <= usize::MAX,
    ensures
        final(cache).wf(),
        final(cache).valid(r),
        old(cache).extended_by(&*final(cache)),
        final(cache).fast_cache == old(cache).fast_cache,
        w == 1 && h == 1 ==> r <= 1,
        final(cache).exhausted || forall|d: nat, x: int, y: int|
            w == pow2(d) && h == pow2(d) && 0 <= x < w && 0 <= y < h ==> #[trigger] alive_at(final(cache).nodes@, r, d, x, y)
                == (grid@[y0 + y]@[x0 + x] == 1),
    decreases w + h,
{
    if w == 0 || h == 0 {
        return FALSE_NODE;
    }
    if w == 1 && h == 1 {
        proof {
            assert forall|d: nat| pow2(d) == 1 implies d == 0 by {
                if d > 0 {
                    lemma_pow2_mono(1, d);
                    crate::arith::lemma_pow2_small();
                }
            }
        }
        if grid[y0][x0] == 1 {
            return TRUE_NODE;
        } else {
            return FALSE_NODE;
        }
    }
    let hw = w / 2;
    let hh = h / 2;
    let ghost c0 = *cache;
    let nw = build_quadtree(cache, grid, x0, y0, hw, hh);
    let ghost c1 = *cache;
    let ne = build_quadtree(cache, grid, x0 + hw, y0, w - hw, hh);
    let ghost c2 = *cache;
    let sw = build_quadtree(cache, grid, x0, y0 + hh, hw, h - hh);
    let ghost c3 = *cache;
    let se = build_quadtree(cache, grid, x0 + hw, y0 + hh, w - hw, h - hh);
    let ghost c4 = *cache;
    let r = cache.find_or_create(nw, ne, sw, se);
    proof {
        let c5 = *cache;
        lemma_extended_trans(&c0, &c1, &c2);
        lemma_extended_trans(&c0, &c2, &c3);
        lemma_extended_trans(&c0, &c3, &c4);
        lemma_extended_trans(&c0, &c4, &c5);
        if !c5.exhausted {
            lemma_extended_trans(&c1, &c2, &c3);
            lemma_extended_trans(&c1, &c3, &c4);
            lemma_extended_trans(&c1, &c4, &c5);
            lemma_extended_trans(&c2, &c3, &c4);
            lemma_extended_trans(&c2, &c4, &c5);
            lemma_extended_trans(&c3, &c4, &c5);
            assert forall|d: nat, x: int, y: int|
                w == pow2(d) && h == pow2(d) && 0 <= x < w && 0 <= y < h implies #[trigger] alive_at(c5.nodes@, r, d, x, y)
                == (grid@[y0 + y]@[x0 + x] == 1) by {
                if d == 0 {
                    crate::arith::lemma_pow2_small();
                }
                let e = (d - 1) as nat;
                assert(pow2(d) == 2 * pow2(e));
                assert(hw == pow2(e) && w - hw == pow2(e) && hh == pow2(e) && h - hh == pow2(e));
                assert(e + 1 == d);
                lemma_node_is_alive(c5.nodes@, r, nw, ne, sw, se, e, x, y);
                let hf = pow2(e) as int;
                let xx = if x >= hf { x - hf } else { x };
                let yy = if y >= hf { y - hf } else { y };
                let q = quadrant(x, y, hf);
                if q == 0 {
                    lemma_alive_frame(&c1, &c5, nw, e, xx, yy);
                } else if q == 1 {
                    lemma_alive_frame(&c2, &c5, ne, e, xx, yy);
                } else if q == 2 {
                    lemma_alive_frame(&c3, &c5, sw, e, xx, yy);
                } else {
                    lemma_alive_frame(&c4, &c5, se, e, xx, yy);
                }
            }
        }
    }
    r
}

} // verus!
