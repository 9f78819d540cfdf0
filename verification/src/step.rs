//! One generation of the sparse tiled engine: neighbour counts from the live
//! cells near active tiles, then births and deaths applied to the live set.

use vstd::prelude::*;
use std::collections::HashMap;
use std::collections::HashSet;
use crate::coord::{Coord, spec_pack, spec_key_x, spec_key_y};
use crate::grid::{Grid, tile_at, mark_safe, neighbor_offset, neighbor_offsets, wrap32, marked_tiles, spec_mark_tiles};
use crate::bloom::BloomFilter;
use crate::hashlife::{two64, spec_coord_pack, spec_shift, coord_pack, coord_unpack, grid_to_hashlife, hashlife_to_grid,
    GRID_OFFSET, HASHLIFE_OFFSET};
use crate::hashlife::life::{HashLife, MAX_DEPTH};
use crate::hashlife::span::{spread_ok, holds_gen};
use crate::hashlife::cache::FALSE_NODE;
use crate::hashlife::tree::{key_x, key_y};
use crate::tiles::{tile_nbr_info, tile_nbr_info_correct, group_cell, is_outside_neighbor, TileNbrInfo};
use crate::neighbourhood::{stepped, life_gen, stable_outside, edge_quiet};

verus! {

broadcast use vstd::std_specs::hash::group_hash_axioms;

/// The key of the tile holding cell `k`: both coordinates rounded down to a
/// multiple of 4.
pub open spec fn spec_tile_key(k: u64) -> u64 {
    spec_pack((spec_key_x(k) - spec_key_x(k) % 4) as u32, (spec_key_y(k) - spec_key_y(k) % 4) as u32)
}

/// The tile key of cell `k`.
pub fn tile_key(k: u64) -> (r: u64)
    ensures
        r == spec_tile_key(k),
{
    let (x, y) = Coord::unpack(k);
    Coord::pack(x - x % 4, y - y % 4)
}


/// Cell `n` is one of the cells of `chunk` or one of their eight neighbours.
pub open spec fn near(chunk: Seq<u64>, n: u64) -> bool {
    exists|j: int, dx: int, dy: int|
        0 <= j < chunk.len() && -1 <= dx <= 1 && -1 <= dy <= 1 && n == #[trigger] tile_at(
            spec_key_x(chunk[j]) + dx,
            spec_key_y(chunk[j]) + dy,
        )
}

/// The number of cells of `s` whose tile is in `active`.
pub open spec fn count_active(s: Seq<u64>, active: Set<u64>) -> nat
    decreases s.len(),
{
    if s.len() == 0 {
        0
    } else {
        count_active(s.drop_last(), active) + if active.contains(spec_tile_key(s.last())) { 1nat } else { 0nat }
    }
}

proof fn lemma_count_active_le(s: Seq<u64>, active: Set<u64>)
    ensures
        count_active(s, active) <= s.len(),
    decreases s.len(),
{
    if s.len() > 0 {
        lemma_count_active_le(s.drop_last(), active);
    }
}

/// Cells `k` and `n` are distinct 8-neighbours.
pub open spec fn adjacent(k: u64, n: u64) -> bool {
    let dx = spec_key_x(n) - spec_key_x(k);
    let dy = spec_key_y(n) - spec_key_y(k);
    &&& -1 <= dx <= 1
    &&& -1 <= dy <= 1
    &&& !(dx == 0 && dy == 0)
}

/// What live cell `k` adds to the count of cell `n`: a cell of an active
/// tile adds 10 to itself and 1 to each neighbour; a cell of a static tile
/// adds 1 to each neighbour lying in an active tile.
pub open spec fn cell_share(k: u64, n: u64, active: Set<u64>) -> nat {
    if active.contains(spec_tile_key(k)) {
        (if n == k { 10nat } else { 0nat }) + (if adjacent(k, n) { 1nat } else { 0nat })
    } else if adjacent(k, n) && active.contains(spec_tile_key(n)) {
        1nat
    } else {
        0nat
    }
}

/// The count of cell `n` made by the live cells `s`.
pub open spec fn count_in(s: Seq<u64>, n: u64, active: Set<u64>) -> nat
    decreases s.len(),
{
    if s.len() == 0 {
        0
    } else {
        count_in(s.drop_last(), n, active) + cell_share(s.last(), n, active)
    }
}

/// The counts map holds exactly the cells with a positive total, each with
/// its total modulo 256.
pub open spec fn counts_are(m: Map<u64, u8>, tot: spec_fn(u64) -> nat) -> bool {
    forall|n: u64| #![trigger m.contains_key(n)] #![trigger m[n]] (m.contains_key(n) <==> tot(n) > 0) && (m.contains_key(n) ==> m[n] as nat == tot(n) % 256)
}

/// Bumping one cell by `d` adds `d` to its total.
proof fn lemma_bump(m1: Map<u64, u8>, m2: Map<u64, u8>, tot: spec_fn(u64) -> nat, k: u64, d: u8)
    requires
        counts_are(m1, tot),
        d > 0,
        m2 == m1.insert(k, (if m1.contains_key(k) { m1[k] } else { 0u8 }).wrapping_add(d)),
    ensures
        counts_are(m2, |n: u64| tot(n) + if n == k { d as nat } else { 0nat }),
{
    let t2 = |n: u64| tot(n) + if n == k { d as nat } else { 0nat };
    let a: u8 = if m1.contains_key(k) { m1[k] } else { 0u8 };
    assert(a as nat == tot(k) % 256);
    let w = a.wrapping_add(d);
    assert(w as nat == (a as nat + d as nat) % 256);
    assert((a as nat + d as nat) % 256 == (tot(k) + d as nat) % 256) by {
        vstd::arithmetic::div_mod::lemma_add_mod_noop(tot(k) as int, d as int, 256);
        vstd::arithmetic::div_mod::lemma_small_mod(d as nat, 256);
    }
    assert forall|n: u64| #![trigger m2.contains_key(n)] #![trigger m2[n]] (m2.contains_key(n) <==> t2(n) > 0) && (m2.contains_key(n)
        ==> m2[n] as nat == t2(n) % 256) by {
        if n != k {
            assert(m1.contains_key(n) == m2.contains_key(n));
        }
    }
}

/// The hits of cell `n` among the first `q` neighbours of `(x, y)`.
pub open spec fn nb_hits(x: int, y: int, n: u64, q: int) -> nat
    decreases q,
{
    if q <= 0 {
        0
    } else {
        nb_hits(x, y, n, q - 1) + if n == tile_at(x + neighbor_offset(q - 1).0, y + neighbor_offset(q - 1).1) {
            1nat
        } else {
            0nat
        }
    }
}

/// An interior cell's key is its coordinates packed.
proof fn lemma_tile_at_key(a: int, b: int, n: u64)
    requires
        0 <= a <= u32::MAX,
        0 <= b <= u32::MAX,
    ensures
        (n == tile_at(a, b)) == (spec_key_x(n) == a && spec_key_y(n) == b),
{
    crate::coord::lemma_pack_unpack(a as u32, b as u32, n);
}

/// The eight neighbours of an interior cell are hit once each.
proof fn lemma_nb_hits_all(k: u64, n: u64)
    requires
        mark_safe(k),
    ensures
        nb_hits(spec_key_x(k) as int, spec_key_y(k) as int, n, 8) == if adjacent(k, n) { 1nat } else { 0nat },
{
    let x = spec_key_x(k) as int;
    let y = spec_key_y(k) as int;
    reveal_with_fuel(nb_hits, 9);
    lemma_tile_at_key(x - 1, y - 1, n);
    lemma_tile_at_key(x - 1, y, n);
    lemma_tile_at_key(x - 1, y + 1, n);
    lemma_tile_at_key(x, y - 1, n);
    lemma_tile_at_key(x, y + 1, n);
    lemma_tile_at_key(x + 1, y - 1, n);
    lemma_tile_at_key(x + 1, y, n);
    lemma_tile_at_key(x + 1, y + 1, n);
}

/// Cell `c` of group `g` of the table, placed at tile origin `(ctx, cty)`, is `n`.
pub open spec fn group_hit(info: TileNbrInfo, g: int, c: int, ctx: int, cty: int, n: u64) -> bool {
    n == tile_at(ctx + group_cell(info, g, c).0, cty + group_cell(info, g, c).1)
}

/// The hits of cell `n` among the first `ci` cells of group `g`.
pub open spec fn cell_hits(info: TileNbrInfo, g: int, ci: int, ctx: int, cty: int, n: u64) -> nat
    decreases ci,
{
    if ci <= 0 {
        0
    } else {
        cell_hits(info, g, ci - 1, ctx, cty, n) + if group_hit(info, g, ci - 1, ctx, cty, n) { 1nat } else { 0nat }
    }
}

/// The hits of cell `n` among the groups before `gi` whose tile is active.
pub open spec fn group_hits(info: TileNbrInfo, gi: int, ctx: int, cty: int, n: u64, active: Set<u64>) -> nat
    decreases gi,
{
    if gi <= 0 {
        0
    } else {
        group_hits(info, gi - 1, ctx, cty, n, active) + if active.contains(
            tile_at(ctx + info.groups[gi - 1].tdx, cty + info.groups[gi - 1].tdy),
        ) {
            cell_hits(info, gi - 1, info.groups[gi - 1].count as int, ctx, cty, n)
        } else {
            0nat
        }
    }
}

proof fn lemma_cell_hits_count(info: TileNbrInfo, g: int, ci: int, ctx: int, cty: int, n: u64, c0: int)
    requires
        forall|c: int| 0 <= c < ci && c != c0 ==> !#[trigger] group_hit(info, g, c, ctx, cty, n),
    ensures
        cell_hits(info, g, ci, ctx, cty, n) == if 0 <= c0 < ci && group_hit(info, g, c0, ctx, cty, n) { 1nat } else { 0nat },
    decreases ci,
{
    if ci > 0 {
        lemma_cell_hits_count(info, g, ci - 1, ctx, cty, n, c0);
    }
}

proof fn lemma_group_hits_count(info: TileNbrInfo, gi: int, ctx: int, cty: int, n: u64, active: Set<u64>, g0: int, c0: int)
    requires
        gi <= 3,
        forall|g: int, c: int|
            0 <= g < gi && 0 <= c < info.groups[g].count && #[trigger] group_hit(info, g, c, ctx, cty, n) ==> g == g0 && c == c0,
    ensures
        group_hits(info, gi, ctx, cty, n, active) == if 0 <= g0 < gi && 0 <= c0 < info.groups[g0].count && group_hit(
            info,
            g0,
            c0,
            ctx,
            cty,
            n,
        ) && active.contains(tile_at(ctx + info.groups[g0].tdx, cty + info.groups[g0].tdy)) {
            1nat
        } else {
            0nat
        },
    decreases gi,
{
    if gi > 0 {
        lemma_group_hits_count(info, gi - 1, ctx, cty, n, active, g0, c0);
        let g = gi - 1;
        let cnt = info.groups[g].count as int;
        if g == g0 {
            lemma_cell_hits_count(info, g, cnt, ctx, cty, n, c0);
        } else {
            lemma_cell_hits_count(info, g, cnt, ctx, cty, n, -1);
        }
    }
}

/// For a cell of a static tile, the table's hits in active tiles are its
/// contribution.
#[verifier::rlimit(80)]
#[verifier::spinoff_prover]
proof fn lemma_group_hits_all(info: TileNbrInfo, k: u64, n: u64, active: Set<u64>)
    requires
        mark_safe(k),
        tile_nbr_info_correct(info, (spec_key_x(k) % 4) as int, (spec_key_y(k) % 4) as int),
        !active.contains(spec_tile_key(k)),
    ensures
        group_hits(
            info,
            info.num_groups as int,
            spec_key_x(k) - spec_key_x(k) % 4,
            spec_key_y(k) - spec_key_y(k) % 4,
            n,
            active,
        ) == cell_share(k, n, active),
{
    let x = spec_key_x(k) as int;
    let y = spec_key_y(k) as int;
    let mx = x % 4;
    let my = y % 4;
    let ctx = x - mx;
    let cty = y - my;
    let px = spec_key_x(n) - ctx;
    let py = spec_key_y(n) - cty;
    let ng = info.num_groups as int;
    // a group cell is `n` exactly when it sits at `n`'s offset
    assert forall|g: int, c: int| 0 <= g < ng && 0 <= c < info.groups[g].count implies (#[trigger] group_hit(info, g, c, ctx, cty, n)
        == (group_cell(info, g, c) == (px, py))) by {
        assert(is_outside_neighbor(mx, my, group_cell(info, g, c).0, group_cell(info, g, c).1));
        lemma_tile_at_key(ctx + group_cell(info, g, c).0, cty + group_cell(info, g, c).1, n);
    }
    if is_outside_neighbor(mx, my, px, py) {
        let (g0, c0) = choose|g: int, c: int|
            0 <= g < ng && 0 <= c < info.groups[g].count && #[trigger] group_cell(info, g, c) == (px, py);
        assert forall|g: int, c: int|
            0 <= g < ng && 0 <= c < info.groups[g].count && #[trigger] group_hit(info, g, c, ctx, cty, n) implies g == g0 && c
                == c0 by {
            assert(group_cell(info, g, c) == group_cell(info, g0, c0));
        }
        lemma_group_hits_count(info, ng, ctx, cty, n, active, g0, c0);
        assert(group_hit(info, g0, c0, ctx, cty, n));
        // the tile of `n` is the group's tile
        let tdx = info.groups[g0].tdx as int;
        let tdy = info.groups[g0].tdy as int;
        let cx = info.groups[g0].cells[c0].0 as int;
        let cy = info.groups[g0].cells[c0].1 as int;
        assert(spec_key_x(n) == ctx + tdx + cx);
        assert(spec_key_y(n) == cty + tdy + cy);
        assert(ctx % 4 == 0 && cty % 4 == 0);
        assert(spec_key_x(n) % 4 == cx) by {
            vstd::arithmetic::div_mod::lemma_fundamental_div_mod_converse(spec_key_x(n) as int, 4, (ctx + tdx) / 4, cx);
        }
        assert(spec_key_y(n) % 4 == cy) by {
            vstd::arithmetic::div_mod::lemma_fundamental_div_mod_converse(spec_key_y(n) as int, 4, (cty + tdy) / 4, cy);
        }
        assert(spec_tile_key(n) == tile_at(ctx + tdx, cty + tdy));
        assert(adjacent(k, n));
    } else {
        assert forall|g: int, c: int|
            0 <= g < ng && 0 <= c < info.groups[g].count && #[trigger] group_hit(info, g, c, ctx, cty, n) implies g == -1 && c
                == -1 by {
            assert(is_outside_neighbor(mx, my, group_cell(info, g, c).0, group_cell(info, g, c).1));
        }
        lemma_group_hits_count(info, ng, ctx, cty, n, active, -1, -1);
        if adjacent(k, n) {
            // a neighbour inside the tile shares the tile, which is static
            assert(0 <= px < 4 && 0 <= py < 4);
            assert(spec_key_x(n) % 4 == px) by {
                vstd::arithmetic::div_mod::lemma_fundamental_div_mod_converse(spec_key_x(n) as int, 4, ctx / 4, px);
            }
            assert(spec_key_y(n) % 4 == py) by {
                vstd::arithmetic::div_mod::lemma_fundamental_div_mod_converse(spec_key_y(n) as int, 4, cty / 4, py);
            }
            assert(spec_tile_key(n) == spec_tile_key(k));
        }
    }
}

/// A value is in a sequence with one more element when it is that element or
/// was already there.
proof fn lemma_push_contains(s: Seq<u64>, x: u64, v: u64)
    ensures
        s.push(x).contains(v) == (s.contains(v) || v == x),
{
    if s.contains(v) {
        let j = choose|j: int| 0 <= j < s.len() && s[j] == v;
        assert(s.push(x)[j] == v);
    }
    if v == x {
        assert(s.push(x)[s.len() as int] == x);
    }
    if s.push(x).contains(v) {
        let j = choose|j: int| 0 <= j < s.push(x).len() && s.push(x)[j] == v;
        if j < s.len() {
            assert(s[j] == v);
        }
    }
}

/// Adds `d` (wrapping) to the count of `k`, starting from 0.
fn bump(nc: &mut HashMap<u64, u8>, k: u64, d: u8)
    ensures
        final(nc)@ == old(nc)@.insert(k, (if old(nc)@.contains_key(k) { old(nc)@[k] } else { 0u8 }).wrapping_add(d)),
{
    let c: u8 = match nc.get(&k) {
        Some(v) => *v,
        None => 0,
    };
    nc.insert(k, c.wrapping_add(d));
}

/// Totals that agree everywhere give the same counts.
proof fn lemma_counts_ext(m: Map<u64, u8>, t1: spec_fn(u64) -> nat, t2: spec_fn(u64) -> nat)
    requires
        counts_are(m, t1),
        forall|n: u64| #[trigger] t1(n) == t2(n),
    ensures
        counts_are(m, t2),
{
    assert forall|n: u64| #![trigger m.contains_key(n)] #![trigger m[n]] (m.contains_key(n) <==> t2(n) > 0) && (m.contains_key(n)
        ==> m[n] as nat == t2(n) % 256) by {
        assert(t1(n) == t2(n));
    }
}

/// The neighbour counts of one slice of live cells: a cell of an active tile
/// adds 10 to itself and 1 to each of its eight neighbours; a cell of a static
/// tile adds 1 only to its neighbours that lie in active neighbouring tiles
/// (found by the tile table). Counts are kept modulo 256. Also returns how
/// many cells were active.
#[verifier::rlimit(60)]
#[verifier::spinoff_prover]
pub fn neighbor_count_worker(chunk: &[u64], active_tiles: &HashSet<u64>, hint: usize) -> (r: (HashMap<u64, u8>, u32))
    requires
        chunk@.len() <= u32::MAX,
        forall|j: int| 0 <= j < chunk@.len() ==> mark_safe(#[trigger] chunk@[j]),
    ensures
        r.1 == count_active(chunk@, active_tiles@),
        forall|n: u64| #[trigger] r.0@.contains_key(n) ==> near(chunk@, n),
        counts_are(r.0@, |n: u64| count_in(chunk@, n, active_tiles@)),
{
    let mut local_nc: HashMap<u64, u8> = HashMap::with_capacity(hint);
    let mut work: u32 = 0;
    let offsets = neighbor_offsets();
    let ghost act = active_tiles@;
    let mut i: usize = 0;
    proof {
        assert(chunk@.take(0) =~= Seq::<u64>::empty());
        assert forall|n: u64| #![trigger local_nc@.contains_key(n)] #![trigger local_nc@[n]] (local_nc@.contains_key(n) <==> (|n: u64| count_in(chunk@.take(0), n, act))(n) > 0)
            && (local_nc@.contains_key(n) ==> local_nc@[n] as nat == (|n: u64| count_in(chunk@.take(0), n, act))(n) % 256) by {
        }
    }
    while i < chunk.len()
        invariant
            i <= chunk@.len(),
            chunk@.len() <= u32::MAX,
            act == active_tiles@,
            forall|j: int| 0 <= j < chunk@.len() ==> mark_safe(#[trigger] chunk@[j]),
            forall|q: int| 0 <= q < 8 ==> (offsets[q].0 as int, offsets[q].1 as int) == #[trigger] neighbor_offset(q),
            work == count_active(chunk@.take(i as int), active_tiles@),
            forall|n: u64| #[trigger] local_nc@.contains_key(n) ==> near(chunk@, n),
            counts_are(local_nc@, |n: u64| count_in(chunk@.take(i as int), n, act)),
        decreases chunk@.len() - i,
    {
        let k = chunk[i];
        let (x, y) = Coord::unpack(k);
        let ghost base = |n: u64| count_in(chunk@.take(i as int), n, act);
        proof {
            assert(chunk@.take(i as int + 1).drop_last() =~= chunk@.take(i as int));
            lemma_count_active_le(chunk@.take(i as int), active_tiles@);
            assert(mark_safe(chunk@[i as int]));
        }
        let tk = tile_key(k);
        if !active_tiles.contains(&tk) {
            let (mx, my) = Grid::mod_tile(k);
            let info = tile_nbr_info(mx, my);
            let ct_x = x - mx;
            let ct_y = y - my;
            let mut gi: usize = 0;
            proof {
                lemma_counts_ext(local_nc@, base, |n: u64| base(n) + group_hits(info, 0, ct_x as int, ct_y as int, n, act));
            }
            while gi < info.num_groups as usize
                invariant
                    tile_nbr_info_correct(info, mx as int, my as int),
                    mx == x % 4,
                    my == y % 4,
                    ct_x == x - mx,
                    ct_y == y - my,
                    x == spec_key_x(chunk@[i as int]),
                    y == spec_key_y(chunk@[i as int]),
                    i < chunk@.len(),
                    mark_safe(chunk@[i as int]),
                    act == active_tiles@,
                    gi <= info.num_groups,
                    forall|n: u64| #[trigger] local_nc@.contains_key(n) ==> near(chunk@, n),
                    counts_are(local_nc@, |n: u64| base(n) + group_hits(info, gi as int, ct_x as int, ct_y as int, n, act)),
                decreases info.num_groups - gi,
            {
                let g = info.groups[gi];
                proof {
                    assert(1 <= g.count <= 3);
                    assert(g.cells[0].0 < 4 && g.cells[0].1 < 4);
                    assert(is_outside_neighbor(mx as int, my as int, group_cell(info, gi as int, 0).0,
                        group_cell(info, gi as int, 0).1));
                    assert(0 <= ct_x + g.tdx <= u32::MAX);
                    assert(0 <= ct_y + g.tdy <= u32::MAX);
                }
                let ntx = (ct_x as i64 + g.tdx as i64) as u32;
                let nty = (ct_y as i64 + g.tdy as i64) as u32;
                let ghost before = |n: u64| base(n) + group_hits(info, gi as int, ct_x as int, ct_y as int, n, act);
                if active_tiles.contains(&Coord::pack(ntx, nty)) {
                    let mut ci: usize = 0;
                    proof {
                        lemma_counts_ext(local_nc@, before, |n: u64| before(n) + cell_hits(info, gi as int, 0, ct_x as int, ct_y as int, n));
                    }
                    while ci < g.count as usize
                        invariant
                            tile_nbr_info_correct(info, mx as int, my as int),
                            gi < info.num_groups,
                            g == info.groups[gi as int],
                            mx == x % 4,
                            my == y % 4,
                            ntx == ct_x + g.tdx,
                            nty == ct_y + g.tdy,
                            ct_x == x - mx,
                            ct_y == y - my,
                            x == spec_key_x(chunk@[i as int]),
                            y == spec_key_y(chunk@[i as int]),
                            i < chunk@.len(),
                            mark_safe(chunk@[i as int]),
                            ci <= g.count,
                            forall|n: u64| #[trigger] local_nc@.contains_key(n) ==> near(chunk@, n),
                            counts_are(local_nc@, |n: u64| before(n) + cell_hits(info, gi as int, ci as int, ct_x as int, ct_y as int, n)),
                        decreases g.count - ci,
                    {
                        let (cpx, cpy) = g.cells[ci];
                        proof {
                            assert(is_outside_neighbor(mx as int, my as int, group_cell(info, gi as int, ci as int).0,
                                group_cell(info, gi as int, ci as int).1));
                        }
                        let nx = ntx + cpx as u32;
                        let ny = nty + cpy as u32;
                        let n = Coord::pack(nx, ny);
                        proof {
                            let dx = nx - x;
                            let dy = ny - y;
                            assert(-1 <= dx <= 1 && -1 <= dy <= 1);
                            assert(n == tile_at(spec_key_x(chunk@[i as int]) + dx, spec_key_y(chunk@[i as int]) + dy));
                        }
                        let ghost m0 = local_nc@;
                        let ghost cur = |m: u64| before(m) + cell_hits(info, gi as int, ci as int, ct_x as int, ct_y as int, m);
                        bump(&mut local_nc, n, 1);
                        proof {
                            lemma_bump(m0, local_nc@, cur, n, 1);
                            let t1 = |m: u64| cur(m) + if m == n { 1u8 as nat } else { 0nat };
                            let t2 = |m: u64| before(m) + cell_hits(info, gi as int, ci + 1, ct_x as int, ct_y as int, m);
                            assert forall|m: u64| #[trigger] t1(m) == t2(m) by {
                                assert(group_hit(info, gi as int, ci as int, ct_x as int, ct_y as int, m) == (m == n));
                            }
                            lemma_counts_ext(local_nc@, t1, t2);
                        }
                        ci = ci + 1;
                    }
                    proof {
                        assert(active_tiles@.contains(tile_at(ct_x + g.tdx, ct_y + g.tdy)));
                        lemma_counts_ext(local_nc@, |n: u64| before(n) + cell_hits(info, gi as int, g.count as int, ct_x as int, ct_y as int, n),
                            |n: u64| base(n) + group_hits(info, gi + 1, ct_x as int, ct_y as int, n, act));
                    }
                } else {
                    proof {
                        assert(!active_tiles@.contains(tile_at(ct_x + g.tdx, ct_y + g.tdy)));
                        lemma_counts_ext(local_nc@, before, |n: u64| base(n) + group_hits(info, gi + 1, ct_x as int, ct_y as int, n, act));
                    }
                }
                gi = gi + 1;
            }
            proof {
                let t1 = |n: u64| base(n) + group_hits(info, info.num_groups as int, ct_x as int, ct_y as int, n, act);
                let t2 = |n: u64| count_in(chunk@.take(i + 1), n, act);
                assert forall|n: u64| #[trigger] t1(n) == t2(n) by {
                    lemma_group_hits_all(info, k, n, act);
                }
                lemma_counts_ext(local_nc@, t1, t2);
            }
        } else {
            let ghost m0 = local_nc@;
            bump(&mut local_nc, k, 10);
            proof {
                assert(k == tile_at(spec_key_x(chunk@[i as int]) + 0, spec_key_y(chunk@[i as int]) + 0));
                lemma_bump(m0, local_nc@, base, k, 10);
                lemma_counts_ext(local_nc@, |n: u64| base(n) + if n == k { 10u8 as nat } else { 0nat },
                    |n: u64| base(n) + (if n == k { 10nat } else { 0nat }) + nb_hits(x as int, y as int, n, 0));
            }
            let mut q: usize = 0;
            while q < 8
                invariant
                    forall|qq: int| 0 <= qq < 8 ==> (offsets[qq].0 as int, offsets[qq].1 as int) == #[trigger] neighbor_offset(qq),
                    x == spec_key_x(chunk@[i as int]),
                    y == spec_key_y(chunk@[i as int]),
                    k == chunk@[i as int],
                    i < chunk@.len(),
                    mark_safe(chunk@[i as int]),
                    q <= 8,
                    forall|n: u64| #[trigger] local_nc@.contains_key(n) ==> near(chunk@, n),
                    counts_are(local_nc@, |n: u64| base(n) + (if n == k { 10nat } else { 0nat }) + nb_hits(x as int, y as int, n, q as int)),
                decreases 8 - q,
            {
                let (dx, dy) = offsets[q];
                proof {
                    assert((offsets[q as int].0 as int, offsets[q as int].1 as int) == neighbor_offset(q as int));
                    assert(-1 <= dx <= 1 && -1 <= dy <= 1);
                }
                let nx = (x as i64 + dx as i64) as u32;
                let ny = (y as i64 + dy as i64) as u32;
                let n = Coord::pack(nx, ny);
                proof {
                    assert(n == tile_at(spec_key_x(chunk@[i as int]) + dx, spec_key_y(chunk@[i as int]) + dy));
                }
                let ghost m1 = local_nc@;
                let ghost cur = |m: u64| base(m) + (if m == k { 10nat } else { 0nat }) + nb_hits(x as int, y as int, m, q as int);
                bump(&mut local_nc, n, 1);
                proof {
                    lemma_bump(m1, local_nc@, cur, n, 1);
                    lemma_counts_ext(local_nc@, |m: u64| cur(m) + if m == n { 1u8 as nat } else { 0nat },
                        |m: u64| base(m) + (if m == k { 10nat } else { 0nat }) + nb_hits(x as int, y as int, m, q + 1));
                }
                q = q + 1;
            }
            proof {
                let t1 = |n: u64| base(n) + (if n == k { 10nat } else { 0nat }) + nb_hits(x as int, y as int, n, 8);
                let t2 = |n: u64| count_in(chunk@.take(i + 1), n, act);
                assert forall|n: u64| #[trigger] t1(n) == t2(n) by {
                    lemma_nb_hits_all(k, n);
                }
                lemma_counts_ext(local_nc@, t1, t2);
            }
            work = work + 1;
        }
        i = i + 1;
    }
    proof {
        assert(chunk@.take(chunk@.len() as int) =~= chunk@);
    }
    (local_nc, work)
}


impl Grid {
    /// Puts `b` (not live) in the slot of the live cell `d`.
    pub fn replace_alive(&mut self, d: u64, b: u64)
        requires
            old(self).wf(),
            old(self).cells().contains(d),
            !old(self).cells().contains(b),
        ensures
            final(self).wf(),
            final(self).cells() == old(self).cells().remove(d).insert(b),
            final(self).alive@.len() == old(self).alive@.len(),
            final(self).same_but_alive(*old(self)),
    {
        let ghost a0 = self.alive@;
        let idx = match self.alive_index.remove(&d) {
            Some(i) => i,
            None => {
                proof {
                    assert(false);
                }
                0
            },
        };
        self.alive.set(idx, b);
        self.alive_index.insert(b, idx);
        proof {
            assert(idx < a0.len() && a0[idx as int] == d);
            assert(self.alive@ == a0.update(idx as int, b));
            assert forall|i: int, j: int| 0 <= i < j < self.alive@.len() implies self.alive@[i] != self.alive@[j] by {
                if i != idx && j != idx {
                    assert(a0[i] != a0[j]);
                } else if i == idx {
                    assert(a0.contains(a0[j]));
                } else {
                    assert(a0.contains(a0[i]));
                }
            }
            assert forall|k: u64| #[trigger] self.alive_index@.contains_key(k) <==> self.alive@.contains(k) by {
                if self.alive@.contains(k) && k != b {
                    let i = choose|i: int| 0 <= i < self.alive@.len() && self.alive@[i] == k;
                    assert(i != idx);
                    assert(a0[i] == k);
                    assert(k != d) by {
                        if k == d {
                            assert(a0[i] == a0[idx as int]);
                        }
                    }
                }
                if k != b && k != d && a0.contains(k) {
                    let i = choose|i: int| 0 <= i < a0.len() && a0[i] == k;
                    assert(self.alive@[i] == k);
                }
                assert(self.alive@[idx as int] == b);
            }
            assert forall|k: u64| #[trigger] self.alive_index@.contains_key(k) implies self.alive_index@[k] < self.alive@.len()
                && self.alive@[self.alive_index@[k] as int] == k by {
                if k != b {
                    let i = old(self).alive_index@[k] as int;
                    assert(a0[i] == k);
                    assert(i != idx);
                }
            }
            assert(self.alive@.to_set() =~= a0.to_set().remove(d).insert(b)) by {
                assert forall|k: u64| self.alive@.to_set().contains(k) <==> a0.to_set().remove(d).insert(b).contains(k) by {
                    assert(self.alive_index@.contains_key(k) <==> self.alive@.contains(k));
                    assert(old(self).alive_index@.contains_key(k) <==> a0.contains(k));
                }
            }
        }
    }
}

/// Tile `q` (0..9) of the block of nine tiles centred on tile `tk`: the tile
/// itself, then its four diagonal neighbours, then its four side neighbours.
pub open spec fn tile_ring(tk: u64, q: int) -> u64 {
    let tx = spec_key_x(tk) as int;
    let ty = spec_key_y(tk) as int;
    if q == 0 {
        tk
    } else if q == 1 {
        tile_at(tx - 4, ty - 4)
    } else if q == 2 {
        tile_at(tx + 4, ty - 4)
    } else if q == 3 {
        tile_at(tx - 4, ty + 4)
    } else if q == 4 {
        tile_at(tx + 4, ty + 4)
    } else if q == 5 {
        tile_at(tx, ty - 4)
    } else if q == 6 {
        tile_at(tx - 4, ty)
    } else if q == 7 {
        tile_at(tx, ty + 4)
    } else {
        tile_at(tx + 4, ty)
    }
}

/// Inserts tile `tk` and its eight neighbouring tiles into `bloom`.
fn fill_active_bloom(bloom: &mut BloomFilter, tk: u64)
    requires
        old(bloom).wf(),
    ensures
        final(bloom).wf(),
        final(bloom).bits.len() == old(bloom).bits.len(),
        final(bloom).spec_mask() == old(bloom).spec_mask(),
        forall|j: u64| old(bloom).spec_contains(j) ==> final(bloom).spec_contains(j),
        final(bloom).bits.len() > 0 ==> forall|q: int| 0 <= q < 9 ==> final(bloom).spec_contains(#[trigger] tile_ring(tk, q)),
{
    let (tx, ty) = Coord::unpack(tk);
    let ss = crate::grid::STATIC_SIZE;
    let keys = [
        tk,
        Coord::pack(tx.wrapping_sub(ss), ty.wrapping_sub(ss)),
        Coord::pack(tx.wrapping_add(ss), ty.wrapping_sub(ss)),
        Coord::pack(tx.wrapping_sub(ss), ty.wrapping_add(ss)),
        Coord::pack(tx.wrapping_add(ss), ty.wrapping_add(ss)),
        Coord::pack(tx, ty.wrapping_sub(ss)),
        Coord::pack(tx.wrapping_sub(ss), ty),
        Coord::pack(tx, ty.wrapping_add(ss)),
        Coord::pack(tx.wrapping_add(ss), ty),
    ];
    proof {
        crate::coord::lemma_pack_unpack(tx, ty, tk);
        assert forall|q: int| 0 <= q < 9 implies keys[q] == #[trigger] tile_ring(tk, q) by {}
    }
    let ghost b0 = *bloom;
    let mut q: usize = 0;
    while q < 9
        invariant
            q <= 9,
            bloom.wf(),
            bloom.bits.len() == b0.bits.len(),
            bloom.spec_mask() == b0.spec_mask(),
            forall|j: u64| b0.spec_contains(j) ==> bloom.spec_contains(j),
            forall|r: int| 0 <= r < 9 ==> keys[r] == #[trigger] tile_ring(tk, r),
            bloom.bits.len() > 0 ==> forall|r: int| 0 <= r < q ==> bloom.spec_contains(#[trigger] tile_ring(tk, r)),
        decreases 9 - q,
    {
        bloom.insert(keys[q]);
        q = q + 1;
    }
}

/// Key `k` of the counts is born: count 3 in an active tile.
pub open spec fn is_birth(nc: Map<u64, u8>, active: Set<u64>, k: u64) -> bool {
    nc.contains_key(k) && nc[k] == 3 && active.contains(spec_tile_key(k))
}

/// Key `k` of the counts dies: count 10 or more (it is live), but not 12 or 13
/// (two or three live neighbours).
pub open spec fn is_death(nc: Map<u64, u8>, k: u64) -> bool {
    nc.contains_key(k) && nc[k] >= 10 && (nc[k] < 12 || nc[k] > 13)
}

/// The cells born under the counts `nc`.
pub open spec fn births_of(nc: Map<u64, u8>, active: Set<u64>) -> Set<u64> {
    Set::new(|k: u64| is_birth(nc, active, k))
}

/// The cells that die under the counts `nc`.
pub open spec fn deaths_of(nc: Map<u64, u8>) -> Set<u64> {
    Set::new(|k: u64| is_death(nc, k))
}

/// The tiles marked by the cells that are born or die.
pub open spec fn changed_tiles(nc: Map<u64, u8>, active: Set<u64>) -> Set<u64> {
    Set::new(
        |t: u64|
            exists|k: u64| (is_birth(nc, active, k) || is_death(nc, k)) && #[trigger] spec_mark_tiles(k).contains(t),
    )
}

/// Whether every cell that the counts `nc` make born or dead lies off the
/// plane's edges, so that its tiles can be marked.
fn changes_safe(nc: &HashMap<u64, u8>, active: &HashSet<u64>) -> (r: bool)
    ensures
        r == forall|n: u64| #[trigger] nc@.contains_key(n) && (is_birth(nc@, active@, n) || is_death(nc@, n)) ==> mark_safe(n),
{
    let ghost dom = nc@;
    let ghost act = active@;
    let ghost mut ks: Seq<u64> = Seq::empty();
    let mut ok = true;
    for kc in it: nc.iter()
        invariant
            nc@ == dom,
            active@ == act,
            it.seq().len() == dom.len(),
            forall|j: int| 0 <= j < it.seq().len() ==> #[trigger] dom.contains_key(*it.seq()[j].0)
                && dom[*it.seq()[j].0] == *it.seq()[j].1,
            forall|k: u64| #[trigger] dom.contains_key(k) ==> ks.contains(k) || exists|j: int|
                it.index() <= j < it.seq().len() && *it.seq()[j].0 == k,
            ks.len() == it.index(),
            forall|j: int| 0 <= j < ks.len() ==> ks[j] == *it.seq()[j].0,
            forall|j: int| 0 <= j < ks.len() ==> dom.contains_key(#[trigger] ks[j]),
            ok == forall|j: int| 0 <= j < ks.len() && (is_birth(dom, act, #[trigger] ks[j]) || is_death(dom, ks[j]))
                ==> mark_safe(ks[j]),
    {
        let k = *kc.0;
        let c = *kc.1;
        proof {
            assert(dom.contains_key(k) && dom[k] == c);
        }
        let changes = (c == 3 && active.contains(&tile_key(k))) || (c >= 10 && (c < 12 || c > 13));
        if changes && !crate::actions::is_mark_safe(k) {
            ok = false;
        }
        proof {
            let ks0 = ks;
            ks = ks.push(k);
            assert(ks[ks0.len() as int] == k);
            assert(changes == (is_birth(dom, act, k) || is_death(dom, k)));
            assert forall|kk: u64| #[trigger] dom.contains_key(kk) implies ks.contains(kk) || exists|j: int|
                it.index() + 1 <= j < it.seq().len() && *it.seq()[j].0 == kk by {
                if !ks0.contains(kk) {
                    let j = choose|j: int| it.index() <= j < it.seq().len() && *it.seq()[j].0 == kk;
                    if j == it.index() {
                        assert(ks[ks0.len() as int] == kk);
                    }
                }
                if ks0.contains(kk) {
                    let j = choose|j: int| 0 <= j < ks0.len() && ks0[j] == kk;
                    assert(ks[j] == kk);
                }
            }
            assert(ok == forall|j: int| 0 <= j < ks.len() && (is_birth(dom, act, #[trigger] ks[j]) || is_death(dom, ks[j]))
                ==> mark_safe(ks[j])) by {
                if !ok {
                    if !(changes && !mark_safe(k)) {
                        let j = choose|j: int| 0 <= j < ks0.len() && (is_birth(dom, act, #[trigger] ks0[j]) || is_death(
                            dom,
                            ks0[j],
                        )) && !mark_safe(ks0[j]);
                        assert(ks[j] == ks0[j]);
                    }
                } else {
                    assert forall|j: int| 0 <= j < ks.len() && (is_birth(dom, act, #[trigger] ks[j]) || is_death(dom, ks[j]))
                        implies mark_safe(ks[j]) by {
                        if j < ks0.len() {
                            assert(ks[j] == ks0[j]);
                        }
                    }
                }
            }
        }
    }
    proof {
        assert forall|k: u64| dom.contains_key(k) implies ks.contains(k) by {}
        if ok {
            assert forall|n: u64| #[trigger] dom.contains_key(n) && (is_birth(dom, act, n) || is_death(dom, n)) implies mark_safe(
                n,
            ) by {
                let j = choose|j: int| 0 <= j < ks.len() && ks[j] == n;
            }
        } else {
            let j = choose|j: int| 0 <= j < ks.len() && (is_birth(dom, act, #[trigger] ks[j]) || is_death(dom, ks[j]))
                && !mark_safe(ks[j]);
            assert(dom.contains_key(ks[j]));
        }
    }
    ok
}

/// Scans the counts once: the cells born go to `births`, those that die to
/// `deaths`, and the tiles they mark to `tiles`.
fn collect_changes(
    nc: &HashMap<u64, u8>,
    active: &HashSet<u64>,
    births: &mut Vec<u64>,
    deaths: &mut Vec<u64>,
    tiles: &mut HashSet<u64>,
)
    requires
        old(births)@.len() == 0,
        old(deaths)@.len() == 0,
        old(tiles)@.is_empty(),
        forall|n: u64| #[trigger] nc@.contains_key(n) && (is_birth(nc@, active@, n) || is_death(nc@, n)) ==> mark_safe(n),
    ensures
        final(births)@.no_duplicates(),
        final(deaths)@.no_duplicates(),
        final(births)@.to_set() == births_of(nc@, active@),
        final(deaths)@.to_set() == deaths_of(nc@),
        final(births)@.len() + final(deaths)@.len() <= nc@.len(),
        final(tiles)@ == changed_tiles(nc@, active@),
        final(tiles)@.finite(),
        final(tiles)@.len() <= 9 * nc@.len(),
{
    let ghost dom = nc@;
    let ghost act = active@;
    let ghost mut ks: Seq<u64> = Seq::empty();
    for kc in it: nc.iter()
        invariant
            nc@ == dom,
            active@ == act,
            forall|n: u64| #[trigger] dom.contains_key(n) && (is_birth(dom, act, n) || is_death(dom, n)) ==> mark_safe(n),
            it.seq().len() == dom.len(),
            forall|j: int| 0 <= j < it.seq().len() ==> #[trigger] dom.contains_key(*it.seq()[j].0)
                && dom[*it.seq()[j].0] == *it.seq()[j].1,
            forall|k: u64| #[trigger] dom.contains_key(k) ==> ks.contains(k) || exists|j: int|
                it.index() <= j < it.seq().len() && *it.seq()[j].0 == k,
            it.seq().no_duplicates(),
            ks.len() == it.index(),
            forall|j: int| 0 <= j < ks.len() ==> ks[j] == *it.seq()[j].0,
            births@.no_duplicates(),
            deaths@.no_duplicates(),
            forall|j: int| 0 <= j < births@.len() ==> is_birth(dom, act, #[trigger] births@[j]) && ks.contains(births@[j]),
            forall|j: int| 0 <= j < deaths@.len() ==> is_death(dom, #[trigger] deaths@[j]) && ks.contains(deaths@[j]),
            forall|j: int| 0 <= j < ks.len() && is_birth(dom, act, #[trigger] ks[j]) ==> births@.contains(ks[j]),
            forall|j: int| 0 <= j < ks.len() && is_death(dom, #[trigger] ks[j]) ==> deaths@.contains(ks[j]),
            births@.len() + deaths@.len() <= ks.len(),
            forall|t: u64| #[trigger] tiles@.contains(t) ==> exists|j: int| 0 <= j < ks.len()
                && (is_birth(dom, act, ks[j]) || is_death(dom, ks[j])) && #[trigger] spec_mark_tiles(ks[j]).contains(t),
            forall|j: int| 0 <= j < ks.len() && (is_birth(dom, act, ks[j]) || is_death(dom, ks[j])) ==>
                #[trigger] spec_mark_tiles(ks[j]).subset_of(tiles@),
            tiles@.finite(),
            tiles@.len() <= 9 * ks.len(),
    {
        let k = *kc.0;
        let c = *kc.1;
        proof {
            assert(dom.contains_key(k) && dom[k] == c);
            assert(!ks.contains(k)) by {
                if ks.contains(k) {
                    let j = choose|j: int| 0 <= j < ks.len() && ks[j] == k;
                    let i = ks.len() as int;
                    assert(*it.seq()[j].0 == *it.seq()[i].0);
                    assert(*it.seq()[j].1 == *it.seq()[i].1);
                    assert(it.seq()[j] == it.seq()[i]);
                }
            }
            crate::grid::lemma_mark_tiles_len(k);
        }
        let ghost before = tiles@;
        let ghost b0 = births@;
        let ghost d0 = deaths@;
        if c < 10 {
            if c == 3 && active.contains(&tile_key(k)) {
                births.push(k);
                Grid::mark_active(k, tiles);
            }
        } else if c < 12 || c > 13 {
            deaths.push(k);
            Grid::mark_active(k, tiles);
        }
        proof {
            vstd::set_lib::lemma_len_union(before, spec_mark_tiles(k));
            let ks0 = ks;
            ks = ks.push(k);
            assert(ks[ks0.len() as int] == k);
            assert(births@ == b0 || births@ == b0.push(k));
            assert(deaths@ == d0 || deaths@ == d0.push(k));
            assert(births@ == b0.push(k) <==> is_birth(dom, act, k));
            assert(deaths@ == d0.push(k) <==> is_death(dom, k));
            assert forall|j: int| 0 <= j < births@.len() implies is_birth(dom, act, #[trigger] births@[j]) && ks.contains(births@[j]) by {
                if j < b0.len() {
                    assert(births@[j] == b0[j]);
                    assert(ks0.contains(b0[j]));
                    let i = choose|i: int| 0 <= i < ks0.len() && ks0[i] == b0[j];
                    assert(ks[i] == ks0[i]);
                } else {
                    assert(births@ == b0.push(k));
                    assert(births@[j] == k);
                    assert(ks[ks0.len() as int] == k);
                }
            }
            assert forall|j: int| 0 <= j < deaths@.len() implies is_death(dom, #[trigger] deaths@[j]) && ks.contains(deaths@[j]) by {
                if j < d0.len() {
                    assert(deaths@[j] == d0[j]);
                    assert(ks0.contains(d0[j]));
                    let i = choose|i: int| 0 <= i < ks0.len() && ks0[i] == d0[j];
                    assert(ks[i] == ks0[i]);
                } else {
                    assert(deaths@ == d0.push(k));
                    assert(deaths@[j] == k);
                    assert(ks[ks0.len() as int] == k);
                }
            }
            assert forall|j: int| 0 <= j < ks.len() && is_birth(dom, act, #[trigger] ks[j]) implies births@.contains(ks[j]) by {
                if j < ks0.len() {
                    assert(ks[j] == ks0[j]);
                    assert(b0.contains(ks0[j]));
                    let i = choose|i: int| 0 <= i < b0.len() && b0[i] == ks0[j];
                    assert(births@[i] == b0[i]);
                } else {
                    assert(births@[b0.len() as int] == k);
                }
            }
            assert forall|j: int| 0 <= j < ks.len() && is_death(dom, #[trigger] ks[j]) implies deaths@.contains(ks[j]) by {
                if j < ks0.len() {
                    assert(ks[j] == ks0[j]);
                    assert(d0.contains(ks0[j]));
                    let i = choose|i: int| 0 <= i < d0.len() && d0[i] == ks0[j];
                    assert(deaths@[i] == d0[i]);
                } else {
                    assert(deaths@[d0.len() as int] == k);
                }
            }
            assert(births@.no_duplicates()) by {
                if births@ == b0.push(k) {
                    assert(!b0.contains(k)) by {
                        if b0.contains(k) {
                            let i = choose|i: int| 0 <= i < b0.len() && b0[i] == k;
                            assert(ks0.contains(b0[i]));
                        }
                    }
                }
            }
            assert(deaths@.no_duplicates()) by {
                if deaths@ == d0.push(k) {
                    assert(!d0.contains(k)) by {
                        if d0.contains(k) {
                            let i = choose|i: int| 0 <= i < d0.len() && d0[i] == k;
                            assert(ks0.contains(d0[i]));
                        }
                    }
                }
            }
            assert forall|t: u64| #[trigger] tiles@.contains(t) implies exists|j: int| 0 <= j < ks.len()
                && (is_birth(dom, act, ks[j]) || is_death(dom, ks[j])) && #[trigger] spec_mark_tiles(ks[j]).contains(t) by {
                if !before.contains(t) {
                    assert(ks[ks0.len() as int] == k);
                    assert(spec_mark_tiles(ks[ks0.len() as int]).contains(t));
                } else {
                    let j = choose|j: int| 0 <= j < ks0.len()
                        && (is_birth(dom, act, ks0[j]) || is_death(dom, ks0[j])) && #[trigger] spec_mark_tiles(ks0[j]).contains(t);
                    assert(ks[j] == ks0[j]);
                }
            }
            assert forall|j: int| 0 <= j < ks.len() && (is_birth(dom, act, ks[j]) || is_death(dom, ks[j])) implies
                #[trigger] spec_mark_tiles(ks[j]).subset_of(tiles@) by {
                if j < ks0.len() {
                    assert(ks[j] == ks0[j]);
                    assert(spec_mark_tiles(ks0[j]).subset_of(before));
                }
            }
            assert forall|kk: u64| #[trigger] dom.contains_key(kk) implies ks.contains(kk) || exists|j: int|
                it.index() + 1 <= j < it.seq().len() && *it.seq()[j].0 == kk by {
                if !ks0.contains(kk) {
                    let j = choose|j: int| it.index() <= j < it.seq().len() && *it.seq()[j].0 == kk;
                    if j == it.index() {
                        assert(ks[ks0.len() as int] == kk);
                    }
                }
                if ks0.contains(kk) {
                    let j = choose|j: int| 0 <= j < ks0.len() && ks0[j] == kk;
                    assert(ks[j] == kk);
                }
            }
        }
    }
    proof {
        assert forall|k: u64| dom.contains_key(k) implies ks.contains(k) by {}
        assert(births@.to_set() =~= births_of(dom, act)) by {
            assert forall|k: u64| births@.to_set().contains(k) <==> births_of(dom, act).contains(k) by {
                if is_birth(dom, act, k) {
                    let j = choose|j: int| 0 <= j < ks.len() && ks[j] == k;
                    assert(is_birth(dom, act, ks[j]));
                }
                if births@.contains(k) {
                    let j = choose|j: int| 0 <= j < births@.len() && births@[j] == k;
                    assert(is_birth(dom, act, births@[j]));
                }
            }
        }
        assert(deaths@.to_set() =~= deaths_of(dom)) by {
            assert forall|k: u64| deaths@.to_set().contains(k) <==> deaths_of(dom).contains(k) by {
                if is_death(dom, k) {
                    let j = choose|j: int| 0 <= j < ks.len() && ks[j] == k;
                    assert(is_death(dom, ks[j]));
                }
                if deaths@.contains(k) {
                    let j = choose|j: int| 0 <= j < deaths@.len() && deaths@[j] == k;
                    assert(is_death(dom, deaths@[j]));
                }
            }
        }
        assert(tiles@ =~= changed_tiles(dom, act)) by {
            assert forall|t: u64| tiles@.contains(t) <==> changed_tiles(dom, act).contains(t) by {
                if changed_tiles(dom, act).contains(t) {
                    let k = choose|k: u64| (is_birth(dom, act, k) || is_death(dom, k)) && #[trigger] spec_mark_tiles(k).contains(t);
                    let j = choose|j: int| 0 <= j < ks.len() && ks[j] == k;
                    assert(spec_mark_tiles(ks[j]).subset_of(tiles@));
                }
                if tiles@.contains(t) {
                    let j = choose|j: int| 0 <= j < ks.len()
                        && (is_birth(dom, act, ks[j]) || is_death(dom, ks[j])) && #[trigger] spec_mark_tiles(ks[j]).contains(t);
                    assert(spec_mark_tiles(ks[j]).contains(t));
                }
            }
        }
    }
}

/// The set of the first `p + 1` items of `s` is that of the first `p` plus `s[p]`.
proof fn lemma_prefix_set(s: Seq<u64>, p: int)
    requires
        0 <= p < s.len(),
    ensures
        s.subrange(0, p + 1).to_set() == s.subrange(0, p).to_set().insert(s[p]),
{
    let a = s.subrange(0, p + 1);
    let b = s.subrange(0, p);
    assert forall|k: u64| #[trigger] a.to_set().contains(k) <==> b.to_set().insert(s[p]).contains(k) by {
        if a.contains(k) {
            let i = choose|i: int| 0 <= i < a.len() && a[i] == k;
            if i < p {
                assert(b[i] == k);
            }
        }
        if b.contains(k) {
            let i = choose|i: int| 0 <= i < b.len() && b[i] == k;
            assert(a[i] == k);
        }
        if k == s[p] {
            assert(a[p] == k);
        }
    }
    assert(a.to_set() =~= b.to_set().insert(s[p]));
}

/// Fills `bloom` with every tile of `tiles` and the eight tiles around it.
fn fill_tile_ring_bloom(bloom: &mut BloomFilter, tiles: &HashSet<u64>)
    requires
        old(bloom).wf(),
    ensures
        final(bloom).wf(),
        final(bloom).bits.len() == old(bloom).bits.len(),
        final(bloom).spec_mask() == old(bloom).spec_mask(),
        final(bloom).bits.len() > 0 ==> forall|t: u64, q: int|
            #[trigger] tiles@.contains(t) && 0 <= q < 9 ==> final(bloom).spec_contains(#[trigger] tile_ring(t, q)),
{
    let ghost b0 = *bloom;
    let ghost mut seen: Set<u64> = Set::empty();
    for tk in it: tiles.iter()
        invariant
            bloom.wf(),
            bloom.bits.len() == b0.bits.len(),
            bloom.spec_mask() == b0.spec_mask(),
            forall|t: u64| #[trigger] tiles@.contains(t) ==> seen.contains(t) || exists|j: int|
                it.index() <= j < it.seq().len() && *it.seq()[j] == t,
            bloom.bits.len() > 0 ==> forall|t: u64, q: int|
                #[trigger] seen.contains(t) && 0 <= q < 9 ==> bloom.spec_contains(#[trigger] tile_ring(t, q)),
    {
        let ghost before = *bloom;
        fill_active_bloom(bloom, *tk);
        proof {
            let t0 = *tk;
            assert(t0 == *it.seq()[it.index()]);
            seen = seen.insert(t0);
            assert forall|t: u64| #[trigger] tiles@.contains(t) implies seen.contains(t) || exists|j: int|
                it.index() + 1 <= j < it.seq().len() && *it.seq()[j] == t by {
                if !seen.contains(t) {
                    let j = choose|j: int| it.index() <= j < it.seq().len() && *it.seq()[j] == t;
                    assert(j != it.index());
                }
            }
            assert forall|t: u64, q: int| bloom.bits.len() > 0 && #[trigger] seen.contains(t) && 0 <= q < 9 implies
                bloom.spec_contains(#[trigger] tile_ring(t, q)) by {
                if t != t0 {
                    assert(before.spec_contains(tile_ring(t, q)));
                }
            }
        }
    }
    proof {
        assert forall|t: u64| #[trigger] tiles@.contains(t) implies seen.contains(t) by {}
    }
}

/// Applies the neighbour counts: a cell of an active tile with count 3 is
/// born; a counted live cell (count 10 or more) dies unless its count is 12 or
/// 13. The tiles touched by a birth or death become the active tiles, the
/// counters are updated, births take the slots of deaths first, and the
/// active-tile filter is rebuilt for the new active tiles and their neighbours.
pub fn apply_rules(grid: &mut Grid, nc_dict: &HashMap<u64, u8>, work: u32)
    requires
        old(grid).wf(),
        forall|n: u64|
            #[trigger] nc_dict@.contains_key(n) && (is_birth(nc_dict@, old(grid).active_tiles@, n) || is_death(nc_dict@, n))
                ==> mark_safe(n),
        nc_dict@.len() <= usize::MAX / 1728,
        nc_dict@.len() <= u32::MAX,
        old(grid).alive@.len() <= usize::MAX / 2,
    ensures
        final(grid).wf(),
        final(grid).cells() == old(grid).cells().difference(deaths_of(nc_dict@)).union(
            births_of(nc_dict@, old(grid).active_tiles@),
        ),
        final(grid).active_tiles@ == changed_tiles(nc_dict@, old(grid).active_tiles@),
        final(grid).births == births_of(nc_dict@, old(grid).active_tiles@).len(),
        final(grid).deaths == deaths_of(nc_dict@).len(),
        final(grid).heap == nc_dict@.len(),
        final(grid).generation == old(grid).generation.wrapping_add(1),
        final(grid).active_count == work,
        final(grid).alive@.len() <= old(grid).alive@.len() + nc_dict@.len(),
        final(grid).expanded_bloom == old(grid).expanded_bloom,
        final(grid).hashlife_mode == old(grid).hashlife_mode,
        final(grid).hashlife == old(grid).hashlife,
        final(grid).active_bloom.bits.len() > 0 ==> forall|t: u64, q: int|
            #[trigger] final(grid).active_tiles@.contains(t) && 0 <= q < 9
                ==> final(grid).active_bloom.spec_contains(#[trigger] tile_ring(t, q)),
{
    let ghost dom = nc_dict@;
    let ghost act0 = grid.active_tiles@;
    let ghost cells0 = grid.cells();
    grid.apply_new_active.clear();
    grid.births_buf.clear();
    grid.deaths_buf.clear();
    collect_changes(nc_dict, &grid.active_tiles, &mut grid.births_buf, &mut grid.deaths_buf, &mut grid.apply_new_active);
    proof {
        grid.births_buf@.unique_seq_to_set();
        grid.deaths_buf@.unique_seq_to_set();
    }
    grid.births = grid.births_buf.len() as u32;
    grid.deaths = grid.deaths_buf.len() as u32;
    std::mem::swap(&mut grid.active_tiles, &mut grid.apply_new_active);
    grid.active_count = work;
    grid.generation = grid.generation.wrapping_add(1);
    grid.heap = nc_dict.len() as u32;
    let mut births: Vec<u64> = Vec::new();
    std::mem::swap(&mut births, &mut grid.births_buf);
    let mut deaths: Vec<u64> = Vec::new();
    std::mem::swap(&mut deaths, &mut grid.deaths_buf);
    let ghost bset = births@.to_set();
    let ghost dset = deaths@.to_set();
    let ghost g1 = *grid;
    assert(grid.cells() == cells0);
    // The live cells among the deaths.
    let mut death_list: Vec<u64> = Vec::new();
    let mut i: usize = 0;
    while i < deaths.len()
        invariant
            *grid == g1,
            grid.wf(),
            deaths@.to_set() == dset,
            deaths@.no_duplicates(),
            i <= deaths@.len(),
            death_list@.len() <= i,
            death_list@.no_duplicates(),
            forall|j: int| 0 <= j < death_list@.len() ==> dset.contains(#[trigger] death_list@[j]) && cells0.contains(death_list@[j])
                && exists|m: int| 0 <= m < i && deaths@[m] == death_list@[j],
            forall|j: int| 0 <= j < i && cells0.contains(#[trigger] deaths@[j]) ==> death_list@.contains(deaths@[j]),
            grid.cells() == cells0,
        decreases deaths@.len() - i,
    {
        let d = deaths[i];
        let ghost dl0 = death_list@;
        if grid.contains_alive(d) {
            death_list.push(d);
            proof {
                assert(!dl0.contains(d)) by {
                    if dl0.contains(d) {
                        let j = choose|j: int| 0 <= j < dl0.len() && dl0[j] == d;
                        let m = choose|m: int| 0 <= m < i && deaths@[m] == dl0[j];
                        assert(deaths@[m] == deaths@[i as int]);
                    }
                }
                assert(death_list@[dl0.len() as int] == d);
            }
        }
        proof {
            assert forall|j: int| 0 <= j < death_list@.len() implies dset.contains(#[trigger] death_list@[j]) && cells0.contains(death_list@[j])
                && exists|m: int| 0 <= m < i + 1 && deaths@[m] == death_list@[j] by {
                if j < dl0.len() {
                    assert(death_list@[j] == dl0[j]);
                    let m = choose|m: int| 0 <= m < i && deaths@[m] == dl0[j];
                    assert(deaths@[m] == death_list@[j]);
                } else {
                    assert(deaths@[i as int] == death_list@[j]);
                    assert(deaths@.contains(d));
                }
            }
            assert forall|j: int| 0 <= j < i + 1 && cells0.contains(#[trigger] deaths@[j]) implies death_list@.contains(deaths@[j]) by {
                if j < i {
                    let m = choose|m: int| 0 <= m < dl0.len() && dl0[m] == deaths@[j];
                    assert(death_list@[m] == dl0[m]);
                } else {
                    assert(death_list@[dl0.len() as int] == d);
                }
            }
        }
        i = i + 1;
    }
    let ghost lset = death_list@.to_set();
    assert(cells0.difference(lset) =~= cells0.difference(dset)) by {
        assert forall|k: u64| cells0.contains(k) && dset.contains(k) implies lset.contains(k) by {
            let m = choose|m: int| 0 <= m < deaths@.len() && deaths@[m] == k;
            assert(cells0.contains(deaths@[m]));
        }
    }
    assert forall|k: u64| bset.contains(k) implies !lset.contains(k) by {
        if lset.contains(k) {
            let j = choose|j: int| 0 <= j < death_list@.len() && death_list@[j] == k;
            assert(dset.contains(death_list@[j]));
        }
    }
    let nb = births.len();
    let nd = death_list.len();
    let paired = if nb < nd { nb } else { nd };
    let mut p: usize = 0;
    while p < paired
        invariant
            grid.wf(),
            grid.same_but_alive(g1),
            p <= paired,
            paired <= nb,
            paired <= nd,
            nb == births@.len(),
            nd == death_list@.len(),
            births@.to_set() == bset,
            death_list@.to_set() == lset,
            forall|k: u64| bset.contains(k) ==> !lset.contains(k),
            grid.alive@.len() <= old(grid).alive@.len() + p,
            old(grid).alive@.len() <= usize::MAX / 2,
            nb <= usize::MAX / 1728,
            grid.cells() == cells0.difference(death_list@.subrange(0, p as int).to_set()).union(
                births@.subrange(0, p as int).to_set(),
            ),
        decreases paired - p,
    {
        let d = death_list[p];
        let b = births[p];
        let ghost c0 = grid.cells();
        let dl = grid.contains_alive(d);
        let bl = grid.contains_alive(b);
        assert(death_list@.contains(d) && births@.contains(b));
        assert(lset.contains(d) && bset.contains(b));
        if dl && !bl {
            grid.replace_alive(d, b);
        } else if dl {
            grid.remove_alive(d);
            assert(grid.cells() =~= c0.remove(d).insert(b));
        } else if !bl {
            grid.insert_alive(b);
            assert(grid.cells() =~= c0.remove(d).insert(b));
        } else {
            assert(grid.cells() =~= c0.remove(d).insert(b));
        }
        proof {
            assert(grid.cells() =~= c0.remove(d).insert(b));
            lemma_prefix_set(death_list@, p as int);
            lemma_prefix_set(births@, p as int);
            assert(lset.contains(d));
            assert(bset.contains(b));
            assert(!births@.subrange(0, p as int).to_set().contains(d)) by {
                if births@.subrange(0, p as int).to_set().contains(d) {
                    let m = choose|m: int| 0 <= m < p && births@.subrange(0, p as int)[m] == d;
                    assert(bset.contains(births@[m]));
                }
            }
            assert(grid.cells() =~= cells0.difference(death_list@.subrange(0, p + 1).to_set()).union(
                births@.subrange(0, p + 1).to_set()));
        }
        p = p + 1;
    }
    let mut q: usize = paired;
    while q < nd
        invariant
            grid.wf(),
            grid.same_but_alive(g1),
            paired <= q <= nd,
            paired <= nb,
            nb == births@.len(),
            nd == death_list@.len(),
            births@.to_set() == bset,
            death_list@.to_set() == lset,
            forall|k: u64| bset.contains(k) ==> !lset.contains(k),
            grid.alive@.len() <= old(grid).alive@.len() + paired,
            old(grid).alive@.len() <= usize::MAX / 2,
            nb <= usize::MAX / 1728,
            grid.cells() == cells0.difference(death_list@.subrange(0, q as int).to_set()).union(
                births@.subrange(0, paired as int).to_set(),
            ),
        decreases nd - q,
    {
        let d = death_list[q];
        let ghost c0 = grid.cells();
        if grid.contains_alive(d) {
            grid.remove_alive(d);
        }
        proof {
            assert(grid.cells() =~= c0.remove(d));
            lemma_prefix_set(death_list@, q as int);
            assert(lset.contains(d));
            assert(!births@.subrange(0, paired as int).to_set().contains(d)) by {
                if births@.subrange(0, paired as int).to_set().contains(d) {
                    let m = choose|m: int| 0 <= m < paired && births@.subrange(0, paired as int)[m] == d;
                    assert(bset.contains(births@[m]));
                }
            }
            assert(grid.cells() =~= cells0.difference(death_list@.subrange(0, q + 1).to_set()).union(
                births@.subrange(0, paired as int).to_set()));
        }
        q = q + 1;
    }
    proof {
        assert(death_list@.subrange(0, nd as int) =~= death_list@);
    }
    let mut r: usize = paired;
    while r < nb
        invariant
            grid.wf(),
            grid.same_but_alive(g1),
            paired <= r <= nb,
            nb == births@.len(),
            grid.alive@.len() <= old(grid).alive@.len() + r,
            old(grid).alive@.len() <= usize::MAX / 2,
            nb <= usize::MAX / 1728,
            grid.cells() == cells0.difference(lset).union(births@.subrange(0, r as int).to_set()),
        decreases nb - r,
    {
        let b = births[r];
        let ghost c0 = grid.cells();
        if !grid.contains_alive(b) {
            grid.insert_alive(b);
        }
        proof {
            assert(grid.cells() =~= c0.insert(b));
            lemma_prefix_set(births@, r as int);
        }
        r = r + 1;
    }
    proof {
        assert(births@.subrange(0, nb as int) =~= births@);
    }
    std::mem::swap(&mut births, &mut grid.births_buf);
    std::mem::swap(&mut deaths, &mut grid.deaths_buf);
    let n_tiles = grid.active_tiles.len();
    assert(n_tiles <= 9 * dom.len());
    grid.active_bloom.resize(n_tiles * 12);
    fill_tile_ring_bloom(&mut grid.active_bloom, &grid.active_tiles);
}

/// The nine cells of the 3x3 block centred on cell `k`.
pub open spec fn nine(k: u64) -> Set<u64> {
    let x = spec_key_x(k) as int;
    let y = spec_key_y(k) as int;
    set![
        tile_at(x - 1, y - 1), tile_at(x - 1, y), tile_at(x - 1, y + 1),
        tile_at(x, y - 1), tile_at(x, y), tile_at(x, y + 1),
        tile_at(x + 1, y - 1), tile_at(x + 1, y), tile_at(x + 1, y + 1)
    ]
}

/// The 3x3 blocks of all cells of `s`.
pub open spec fn nine_union(s: Seq<u64>) -> Set<u64>
    decreases s.len(),
{
    if s.len() == 0 {
        Set::empty()
    } else {
        nine_union(s.drop_last()).union(nine(s.last()))
    }
}

proof fn lemma_nine_len(k: u64)
    ensures
        nine(k).finite(),
        nine(k).len() <= 9,
{
    let x = spec_key_x(k) as int;
    let y = spec_key_y(k) as int;
    let s0 = Set::<u64>::empty().insert(tile_at(x - 1, y - 1));
    let s1 = s0.insert(tile_at(x - 1, y));
    let s2 = s1.insert(tile_at(x - 1, y + 1));
    let s3 = s2.insert(tile_at(x, y - 1));
    let s4 = s3.insert(tile_at(x, y));
    let s5 = s4.insert(tile_at(x, y + 1));
    let s6 = s5.insert(tile_at(x + 1, y - 1));
    let s7 = s6.insert(tile_at(x + 1, y));
    let s8 = s7.insert(tile_at(x + 1, y + 1));
    assert(s8 =~= nine(k));
    assert(s0.len() <= 1);
    assert(s1.len() <= 2);
    assert(s2.len() <= 3);
    assert(s3.len() <= 4);
    assert(s4.len() <= 5);
    assert(s5.len() <= 6);
    assert(s6.len() <= 7);
    assert(s7.len() <= 8);
}

/// The cells near `s` number at most nine per cell of `s`.
#[verifier::rlimit(40)]
#[verifier::spinoff_prover]
pub proof fn lemma_near_bound(s: Seq<u64>)
    ensures
        forall|n: u64| near(s, n) ==> #[trigger] nine_union(s).contains(n),
        nine_union(s).finite(),
        nine_union(s).len() <= 9 * s.len(),
    decreases s.len(),
{
    if s.len() > 0 {
        let p = s.drop_last();
        lemma_near_bound(p);
        lemma_nine_len(s.last());
        vstd::set_lib::lemma_len_union(nine_union(p), nine(s.last()));
        assert forall|n: u64| near(s, n) implies #[trigger] nine_union(s).contains(n) by {
            let (j, dx, dy) = choose|j: int, dx: int, dy: int|
                0 <= j < s.len() && -1 <= dx <= 1 && -1 <= dy <= 1 && n == #[trigger] tile_at(
                    spec_key_x(s[j]) + dx,
                    spec_key_y(s[j]) + dy,
                );
            if j < p.len() {
                assert(p[j] == s[j]);
                assert(near(p, n));
            } else {
                assert(s[j] == s.last());
                assert(nine(s.last()).contains(n));
            }
        }
    }
}

/// The cells near a part of `s` are near `s`.
proof fn lemma_near_sub(a: Seq<u64>, s: Seq<u64>, n: u64)
    requires
        forall|j: int| 0 <= j < a.len() ==> s.contains(#[trigger] a[j]),
        near(a, n),
    ensures
        near(s, n),
{
    let (j, dx, dy) = choose|j: int, dx: int, dy: int|
        0 <= j < a.len() && -1 <= dx <= 1 && -1 <= dy <= 1 && n == #[trigger] tile_at(
            spec_key_x(a[j]) + dx,
            spec_key_y(a[j]) + dy,
        );
    assert(s.contains(a[j]));
    let i = choose|i: int| 0 <= i < s.len() && s[i] == a[j];
    assert(n == tile_at(spec_key_x(s[i]) + dx, spec_key_y(s[i]) + dy));
}


impl Grid {
    /// Whether `step` can run on this grid: no live cell lies on an edge of
    /// the 32-bit plane, and the live cells are few enough for the neighbour
    /// counts to fit the counters.
    pub open spec fn step_ready(&self) -> bool {
        &&& forall|i: int| 0 <= i < self.alive@.len() ==> mark_safe(#[trigger] self.alive@[i])
        &&& 16000 * self.alive@.len() <= usize::MAX
        &&& 9 * self.alive@.len() <= u32::MAX
    }

    /// Tests `step_ready`.
    pub fn can_step(&self) -> (r: bool)
        ensures
            r == self.step_ready(),
    {
        let n = self.alive.len();
        if n > usize::MAX / 16000 || n > 0x1C71_C71C {
            return false;
        }
        let mut i: usize = 0;
        while i < n
            invariant
                n == self.alive@.len(),
                i <= n,
                forall|j: int| 0 <= j < i ==> mark_safe(#[trigger] self.alive@[j]),
            decreases n - i,
        {
            let (x, y) = Coord::unpack(self.alive[i]);
            if x < 1 || x > u32::MAX - 1 || y < 1 || y > u32::MAX - 1 {
                assert(!mark_safe(self.alive@[i as int]));
                return false;
            }
            i = i + 1;
        }
        true
    }

    /// A state from which `step` is a generation of B3/S23: the filter is yet
    /// to be built, or the active tiles are those the live cells mark and the
    /// filters cover them, or the filter covers the tiles around the active
    /// ones and every cell of an inactive tile is one the rule leaves as it is.
    #[verifier::opaque]
    pub open spec fn follows_life(&self) -> bool {
        ||| self.active_bloom.bits.len() == 0
        ||| (self.active_tiles@ == marked_tiles(self.alive@) && self.blooms_cover())
        ||| (self.rings_covered() && stable_outside(self.cells(), self.active_tiles@))
    }

    /// The active filter answers yes for every tile of the block of nine
    /// around each active tile.
    pub open spec fn rings_covered(&self) -> bool {
        forall|t: u64, q: int|
            #[trigger] self.active_tiles@.contains(t) && 0 <= q < 9 ==> self.active_bloom.spec_contains(#[trigger] tile_ring(t, q))
    }

    /// Advances one generation: the live cells whose tile (or a neighbouring
    /// tile) may be active are counted, then the rule is applied to the counts.
    /// With the filter in place (it has storage and covers the tiles around
    /// the active ones), the cells of the active tiles follow B3/S23 and the
    /// others stay; the next filter covers the next active tiles. From a state
    /// that `follows_life` (as `new`, `clear`, `toggle`, `load_pattern` and
    /// `reset_to` leave it) the step is a generation of B3/S23 on the whole
    /// plane, and the state after it follows Life again. A step that would
    /// bring a cell to life on an edge of the 32-bit plane (whose tiles cannot
    /// be marked) is not taken: the cells and the generation stay as they are.
    #[verifier::rlimit(100)]
    #[verifier::spinoff_prover]
    pub fn step(&mut self)
        requires
            old(self).wf(),
            old(self).step_ready(),
        ensures
            final(self).wf(),
            final(self).hashlife_mode == old(self).hashlife_mode,
            final(self).hashlife == old(self).hashlife,
            final(self).generation == old(self).generation.wrapping_add(1) || final(self).generation == old(self).generation,
            final(self).generation == old(self).generation ==> final(self).alive@ == old(self).alive@,
            final(self).generation != old(self).generation ==> final(self).active_count <= old(self).alive@.len(),
            forall|c: u64| #[trigger] final(self).cells().contains(c) ==> near(old(self).alive@, c),
            final(self).generation != old(self).generation && old(self).active_bloom.bits.len() > 0 && old(
                self,
            ).rings_covered() ==> final(self).cells() == stepped(old(self).cells(), old(self).active_tiles@),
            final(self).generation != old(self).generation && final(self).active_bloom.bits.len() > 0
                ==> final(self).rings_covered(),
            old(self).follows_life() && edge_quiet(old(self).cells()) ==> final(self).generation
                == old(self).generation.wrapping_add(1) && final(self).cells() == life_gen(old(self).cells()),
            old(self).follows_life() && !edge_quiet(old(self).cells()) ==> final(self).generation == old(self).generation,
            old(self).follows_life() ==> final(self).follows_life(),
    {
        if self.active_bloom.bits.len() == 0 {
            self.init_active();
        }
        let ghost alive0 = self.alive@;
        let ghost g0 = *self;
        self.alive_vec.clear();
        let mut i: usize = 0;
        while i < self.alive.len()
            invariant
                self.wf(),
                self.alive@ == alive0,
                self.step_ready(),
                self.generation == old(self).generation,
                self.active_tiles == g0.active_tiles,
                self.active_bloom == g0.active_bloom,
                self.expanded_bloom == g0.expanded_bloom,
                self.hashlife_mode == old(self).hashlife_mode,
                self.hashlife == old(self).hashlife,
                i <= self.alive@.len(),
                self.alive_vec@.len() <= i,
                forall|j: int| 0 <= j < self.alive_vec@.len() ==> alive0.contains(#[trigger] self.alive_vec@[j]),
                self.alive_vec@.no_duplicates(),
                forall|v: u64| #[trigger] self.alive_vec@.contains(v) <==> alive0.take(i as int).contains(v)
                    && g0.active_bloom.spec_contains(spec_tile_key(v)),
            decreases self.alive@.len() - i,
        {
            let k = self.alive[i];
            let ghost before = self.alive_vec@;
            proof {
                assert(alive0.take(i as int + 1) =~= alive0.take(i as int).push(k));
                assert(!alive0.take(i as int).contains(k)) by {
                    if alive0.take(i as int).contains(k) {
                        let j = choose|j: int| 0 <= j < i && alive0.take(i as int)[j] == k;
                        assert(alive0[j] == alive0[i as int]);
                    }
                }
            }
            if self.active_bloom.contains(tile_key(k)) {
                self.alive_vec.push(k);
                proof {
                    assert(!before.contains(k));
                    assert forall|a: int, b: int| 0 <= a < b < self.alive_vec@.len() implies self.alive_vec@[a] != self.alive_vec@[b] by {
                        if b == before.len() {
                            assert(before.contains(before[a]));
                        }
                    }
                    assert forall|v: u64| #[trigger] self.alive_vec@.contains(v) <==> alive0.take(i as int + 1).contains(v)
                        && g0.active_bloom.spec_contains(spec_tile_key(v)) by {
                        lemma_push_contains(before, k, v);
                        lemma_push_contains(alive0.take(i as int), k, v);
                    }
                }
            } else {
                proof {
                    assert forall|v: u64| #[trigger] self.alive_vec@.contains(v) <==> alive0.take(i as int + 1).contains(v)
                        && g0.active_bloom.spec_contains(spec_tile_key(v)) by {
                        lemma_push_contains(alive0.take(i as int), k, v);
                    }
                }
            }
            i = i + 1;
        }
        let n_vec = self.alive_vec.len();
        let hint = if n_vec <= usize::MAX / 11 { n_vec * 11 } else { usize::MAX };
        proof {
            assert forall|j: int| 0 <= j < self.alive_vec@.len() implies mark_safe(#[trigger] self.alive_vec@[j]) by {
                let m = choose|m: int| 0 <= m < alive0.len() && alive0[m] == self.alive_vec@[j];
                assert(mark_safe(alive0[m]));
            }
        }
        let (nc, work) = neighbor_count_worker(self.alive_vec.as_slice(), &self.active_tiles, hint);
        let ghost chunk = self.alive_vec@;
        let ghost out = old(self).cells().difference(deaths_of(nc@)).union(births_of(nc@, g0.active_tiles@));
        proof {
            lemma_near_bound(chunk);
            assert(nc@.dom().subset_of(nine_union(chunk)));
            vstd::set_lib::lemma_len_subset(nc@.dom(), nine_union(chunk));
            lemma_count_active_le(chunk, self.active_tiles@);
            assert(alive0.take(alive0.len() as int) =~= alive0);
            assert(g0.cells() == old(self).cells());
            assert forall|v: u64| #[trigger] old(self).cells().contains(v) implies mark_safe(v) by {
                let m = choose|m: int| 0 <= m < alive0.len() && alive0[m] == v;
                assert(mark_safe(alive0[m]));
            }
            assert((old(self).active_bloom.bits.len() > 0 && old(self).rings_covered() ==> out == stepped(
                old(self).cells(),
                old(self).active_tiles@,
            )) && (old(self).follows_life() ==> out == life_gen(old(self).cells()) && deaths_of(nc@).subset_of(
                old(self).cells(),
            ))) by {
                reveal(Grid::follows_life);
                if old(self).active_bloom.bits.len() > 0 && old(self).rings_covered() {
                    assert(g0 == *old(self));
                    crate::neighbourhood::lemma_counts_step(old(self).cells(), chunk, g0.active_tiles@, nc@, g0.active_bloom);
                    if marked_tiles(old(self).alive@).subset_of(old(self).active_tiles@) {
                        crate::neighbourhood::lemma_marked_step(alive0, g0.active_tiles@);
                    }
                    if stable_outside(old(self).cells(), old(self).active_tiles@) {
                        crate::neighbourhood::lemma_stable_step(old(self).cells(), old(self).active_tiles@);
                    }
                }
                if old(self).active_bloom.bits.len() == 0 || (old(self).active_tiles@ == marked_tiles(old(self).alive@)
                    && old(self).blooms_cover()) {
                    assert(g0.active_tiles@ == marked_tiles(alive0));
                    assert forall|v: u64| #[trigger] old(self).cells().contains(v) implies g0.active_tiles@.contains(spec_tile_key(v)) by {
                        let m = choose|m: int| 0 <= m < alive0.len() && alive0[m] == v;
                        crate::grid::lemma_own_tile_marked(alive0, m);
                    }
                    if g0.active_bloom.bits.len() == 0 {
                        assert(g0.active_tiles@.len() == 0);
                        assert(old(self).cells() =~= Set::<u64>::empty()) by {
                            if alive0.len() > 0 {
                                crate::grid::lemma_own_tile_marked(alive0, 0);
                                assert(g0.active_tiles@.contains(spec_tile_key(alive0[0])));
                                vstd::set_lib::lemma_set_empty_equivalency_len(g0.active_tiles@);
                            }
                        }
                    }
                    crate::neighbourhood::lemma_counts_step(old(self).cells(), chunk, g0.active_tiles@, nc@, g0.active_bloom);
                    crate::neighbourhood::lemma_marked_step(alive0, g0.active_tiles@);
                }
            }
        }
        if !changes_safe(&nc, &self.active_tiles) {
            proof {
                assert(!(old(self).follows_life() && edge_quiet(old(self).cells()))) by {
                    reveal(edge_quiet);
                    if old(self).follows_life() && edge_quiet(old(self).cells()) {
                        assert forall|n: u64| #[trigger] nc@.contains_key(n) && (is_birth(nc@, self.active_tiles@, n)
                            || is_death(nc@, n)) implies mark_safe(n) by {
                            if is_death(nc@, n) {
                                assert(deaths_of(nc@).contains(n));
                            } else {
                                assert(births_of(nc@, g0.active_tiles@).contains(n));
                                assert(!deaths_of(nc@).contains(n));
                                assert(out.contains(n));
                                assert(life_gen(old(self).cells()).contains(n));
                            }
                        }
                    }
                }
                assert(self.alive@ == old(self).alive@);
                assert(old(self).follows_life() ==> self.follows_life()) by {
                    reveal(Grid::follows_life);
                    assert(self.active_tiles == g0.active_tiles);
                    assert(self.active_bloom == g0.active_bloom);
                    assert(self.expanded_bloom == g0.expanded_bloom);
                    assert(self.cells() == g0.cells());
                    if old(self).active_bloom.bits.len() > 0 {
                        assert(g0 == *old(self));
                    } else {
                        assert(g0.active_tiles@ == marked_tiles(g0.alive@) && g0.blooms_cover());
                    }
                }
                assert(forall|c: u64| #[trigger] self.cells().contains(c) ==> near(alive0, c)) by {
                    assert forall|c: u64| #[trigger] self.cells().contains(c) implies near(alive0, c) by {
                        let m = choose|m: int| 0 <= m < alive0.len() && alive0[m] == c;
                        crate::coord::lemma_pack_unpack(spec_key_x(c), spec_key_y(c), c);
                        assert(c == tile_at(spec_key_x(alive0[m]) + 0, spec_key_y(alive0[m]) + 0));
                    }
                }
            }
            return;
        }
        proof {
            assert(forall|c: u64| #[trigger] out.contains(c) ==> near(alive0, c)) by {
                assert forall|c: u64| #[trigger] out.contains(c) implies near(alive0, c) by {
                    if alive0.contains(c) {
                        let m = choose|m: int| 0 <= m < alive0.len() && alive0[m] == c;
                        crate::coord::lemma_pack_unpack(spec_key_x(c), spec_key_y(c), c);
                        assert(c == tile_at(spec_key_x(alive0[m]) + 0, spec_key_y(alive0[m]) + 0));
                    } else {
                        assert(nc@.contains_key(c));
                        lemma_near_sub(chunk, alive0, c);
                    }
                }
            }
        }
        self.commit_counts(&nc, work, Ghost(*old(self)));
    }

    /// The second half of `step`: applies the counts `nc` (born and dying
    /// cells all off the plane's edges) to a grid whose cells are still those
    /// of `g` and whose active tiles the counts were made for.
    fn commit_counts(&mut self, nc: &HashMap<u64, u8>, work: u32, Ghost(g): Ghost<Grid>)
        requires
            old(self).wf(),
            forall|n: u64|
                #[trigger] nc@.contains_key(n) && (is_birth(nc@, old(self).active_tiles@, n) || is_death(nc@, n))
                    ==> mark_safe(n),
            nc@.len() <= usize::MAX / 1728,
            nc@.len() <= u32::MAX,
            old(self).alive@.len() <= usize::MAX / 2,
            old(self).alive@ == g.alive@,
            g.step_ready(),
            old(self).generation == g.generation,
            old(self).hashlife_mode == g.hashlife_mode,
            old(self).hashlife == g.hashlife,
            work <= g.alive@.len(),
            forall|c: u64|
                #[trigger] g.cells().difference(deaths_of(nc@)).union(births_of(nc@, old(self).active_tiles@)).contains(c)
                    ==> near(g.alive@, c),
            g.active_bloom.bits.len() > 0 && g.rings_covered() ==> g.cells().difference(deaths_of(nc@)).union(
                births_of(nc@, old(self).active_tiles@),
            ) == stepped(g.cells(), g.active_tiles@),
            g.follows_life() ==> g.cells().difference(deaths_of(nc@)).union(births_of(nc@, old(self).active_tiles@))
                == life_gen(g.cells()),
        ensures
            final(self).wf(),
            final(self).hashlife_mode == g.hashlife_mode,
            final(self).hashlife == g.hashlife,
            final(self).generation == g.generation.wrapping_add(1),
            final(self).active_count <= g.alive@.len(),
            forall|c: u64| #[trigger] final(self).cells().contains(c) ==> near(g.alive@, c),
            g.active_bloom.bits.len() > 0 && g.rings_covered() ==> final(self).cells() == stepped(g.cells(), g.active_tiles@),
            final(self).active_bloom.bits.len() > 0 ==> final(self).rings_covered(),
            g.follows_life() ==> final(self).cells() == life_gen(g.cells()) && final(self).follows_life() && edge_quiet(
                g.cells(),
            ),
    {
        let ghost pre = *self;
        let ghost out = g.cells().difference(deaths_of(nc@)).union(births_of(nc@, old(self).active_tiles@));
        apply_rules(self, nc, work);
        proof {
            assert(pre.cells() == g.cells());
            assert(self.cells() == out);
            crate::neighbourhood::lemma_changes_marked(pre.cells(), nc@, pre.active_tiles@);
            reveal(Grid::follows_life);
            if g.follows_life() {
                crate::neighbourhood::lemma_stable_next(g.cells(), self.cells(), self.active_tiles@);
                assert(forall|v: u64| #[trigger] g.cells().contains(v) ==> mark_safe(v)) by {
                    assert forall|v: u64| #[trigger] g.cells().contains(v) implies mark_safe(v) by {
                        assert(pre.cells().contains(v));
                    }
                }
                assert(edge_quiet(g.cells())) by {
                    reveal(edge_quiet);
                    assert forall|n: u64| !mark_safe(n) implies !#[trigger] life_gen(g.cells()).contains(n) by {
                        if life_gen(g.cells()).contains(n) {
                            assert(out.contains(n));
                            assert(births_of(nc@, pre.active_tiles@).contains(n));
                        }
                    }
                }
            }
        }
    }
}

/// The live cells of `s` span less than 2^31 in each direction.
pub open spec fn span_ok(s: Seq<u64>) -> bool {
    forall|i: int, j: int|
        0 <= i < s.len() && 0 <= j < s.len() ==> spec_key_x(#[trigger] s[i]) - spec_key_x(#[trigger] s[j])
            < 0x8000_0000 && spec_key_y(s[i]) - spec_key_y(s[j]) < 0x8000_0000
}

/// The quadtree cell of sparse-engine cell `k`.
pub open spec fn grid_cell_to_flat(k: u64) -> u128 {
    spec_coord_pack(
        spec_shift(spec_key_x(k) as u64, GRID_OFFSET, HASHLIFE_OFFSET),
        spec_shift(spec_key_y(k) as u64, GRID_OFFSET, HASHLIFE_OFFSET),
    )
}

/// The sparse-engine cell of quadtree cell `c` (coordinates taken modulo 2^32).
pub open spec fn flat_cell_to_grid(c: u128) -> u64 {
    spec_pack(
        spec_shift(key_x(c) as u64, HASHLIFE_OFFSET, GRID_OFFSET) as u32,
        spec_shift(key_y(c) as u64, HASHLIFE_OFFSET, GRID_OFFSET) as u32,
    )
}

proof fn lemma_grid_cell_to_flat(k: u64)
    ensures
        key_x(grid_cell_to_flat(k)) == spec_key_x(k) as int - GRID_OFFSET as int + HASHLIFE_OFFSET as int,
        key_y(grid_cell_to_flat(k)) == spec_key_y(k) as int - GRID_OFFSET as int + HASHLIFE_OFFSET as int,
{
    let x = spec_key_x(k) as int;
    let y = spec_key_y(k) as int;
    let hx = x - GRID_OFFSET as int + HASHLIFE_OFFSET as int;
    let hy = y - GRID_OFFSET as int + HASHLIFE_OFFSET as int;
    vstd::arithmetic::div_mod::lemma_small_mod(hx as nat, two64() as nat);
    vstd::arithmetic::div_mod::lemma_small_mod(hy as nat, two64() as nat);
    let c = spec_coord_pack(hx as u64, hy as u64);
    assert(c as int == hx + hy * two64());
    vstd::arithmetic::div_mod::lemma_fundamental_div_mod_converse(c as int, two64(), hy, hx);
}

/// A live cell taken to the quadtree's plane and back is the same cell, so
/// switching from the sparse engine to the quadtree and back keeps the pattern.
pub proof fn law_engine_switch_keeps_cell(k: u64)
    ensures
        flat_cell_to_grid(grid_cell_to_flat(k)) == k,
{
    lemma_grid_cell_to_flat(k);
    let x = spec_key_x(k) as u64;
    let y = spec_key_y(k) as u64;
    let c = grid_cell_to_flat(k);
    vstd::arithmetic::div_mod::lemma_small_mod(
        (x as int - GRID_OFFSET as int + HASHLIFE_OFFSET as int) as nat,
        two64() as nat,
    );
    vstd::arithmetic::div_mod::lemma_small_mod(
        (y as int - GRID_OFFSET as int + HASHLIFE_OFFSET as int) as nat,
        two64() as nat,
    );
    assert(key_x(c) as u64 == spec_shift(x, GRID_OFFSET, HASHLIFE_OFFSET));
    assert(key_y(c) as u64 == spec_shift(y, GRID_OFFSET, HASHLIFE_OFFSET));
    crate::hashlife::lemma_shift_round_trip(x, GRID_OFFSET, HASHLIFE_OFFSET);
    crate::hashlife::lemma_shift_round_trip(y, GRID_OFFSET, HASHLIFE_OFFSET);
    crate::coord::lemma_pack_unpack(spec_key_x(k), spec_key_y(k), k);
}

/// The live cells carried to a quadtree built from them (as the switch to the
/// quadtree leaves it) and brought back (as the switch back reads them off)
/// are the same cells.
pub proof fn law_engine_switch_round_trip(alive: Seq<u64>, h: HashLife)
    requires
        h.depth <= 62,
        forall|x: u64, y: u64| #[trigger] h.alive(x, y) == alive.map_values(|k: u64| grid_cell_to_flat(k)).contains(
            spec_coord_pack(x, y),
        ),
    ensures
        Set::new(|k: u64| exists|i: int| 0 <= i < h.cells().len() && k == flat_cell_to_grid(#[trigger] h.cells()[i]))
            == alive.to_set(),
{
    let data = alive.map_values(|k: u64| grid_cell_to_flat(k));
    crate::hashlife::laws::law_flat_round_trip(h, data);
    let back = Set::new(|k: u64| exists|i: int| 0 <= i < h.cells().len() && k == flat_cell_to_grid(#[trigger] h.cells()[i]));
    assert forall|k: u64| back.contains(k) <==> alive.to_set().contains(k) by {
        if back.contains(k) {
            let i = choose|i: int| 0 <= i < h.cells().len() && k == flat_cell_to_grid(#[trigger] h.cells()[i]);
            assert(h.cells().to_set().contains(h.cells()[i]));
            assert(data.to_set().contains(h.cells()[i]));
            let j = choose|j: int| 0 <= j < data.len() && data[j] == h.cells()[i];
            law_engine_switch_keeps_cell(alive[j]);
            assert(alive.contains(alive[j]));
        }
        if alive.to_set().contains(k) {
            let j = choose|j: int| 0 <= j < alive.len() && alive[j] == k;
            law_engine_switch_keeps_cell(k);
            assert(data[j] == grid_cell_to_flat(k));
            assert(data.to_set().contains(data[j]));
            assert(h.cells().to_set().contains(data[j]));
            let i = choose|i: int| 0 <= i < h.cells().len() && h.cells()[i] == data[j];
            assert(k == flat_cell_to_grid(h.cells()[i]));
        }
    }
    assert(back =~= alive.to_set());
}

/// The live cells as quadtree cells.
fn grid_cells_to_flat(alive: &Vec<u64>) -> (r: Vec<u128>)
    ensures
        r@.len() == alive@.len(),
        forall|i: int| 0 <= i < alive@.len() ==> r@[i] == grid_cell_to_flat(#[trigger] alive@[i]),
{
    let mut data: Vec<u128> = Vec::new();
    let mut i: usize = 0;
    while i < alive.len()
        invariant
            i <= alive@.len(),
            data@.len() == i,
            forall|j: int| 0 <= j < i ==> data@[j] == grid_cell_to_flat(#[trigger] alive@[j]),
        decreases alive@.len() - i,
    {
        let (x, y) = Coord::unpack(alive[i]);
        let (hx, hy) = grid_to_hashlife(x as u64, y as u64);
        data.push(coord_pack(hx, hy));
        i = i + 1;
    }
    data
}

impl Grid {
    /// Whether the live cells span less than 2^31 in each direction (what a
    /// quadtree can be built over).
    pub fn hashlife_span_ok(&self) -> (r: bool)
        ensures
            r == span_ok(self.alive@),
    {
        let n = self.alive.len();
        if n == 0 {
            return true;
        }
        let mut min_x: u32 = u32::MAX;
        let mut max_x: u32 = 0;
        let mut min_y: u32 = u32::MAX;
        let mut max_y: u32 = 0;
        let mut i: usize = 0;
        while i < n
            invariant
                n == self.alive@.len(),
                0 < n,
                i <= n,
                forall|j: int| 0 <= j < i ==> min_x <= spec_key_x(#[trigger] self.alive@[j]) <= max_x
                    && min_y <= spec_key_y(self.alive@[j]) <= max_y,
                i > 0 ==> exists|j: int| 0 <= j < i && spec_key_x(#[trigger] self.alive@[j]) == min_x,
                i > 0 ==> exists|j: int| 0 <= j < i && spec_key_x(#[trigger] self.alive@[j]) == max_x,
                i > 0 ==> exists|j: int| 0 <= j < i && spec_key_y(#[trigger] self.alive@[j]) == min_y,
                i > 0 ==> exists|j: int| 0 <= j < i && spec_key_y(#[trigger] self.alive@[j]) == max_y,
                i == 0 ==> min_x == u32::MAX && max_x == 0 && min_y == u32::MAX && max_y == 0,
            decreases n - i,
        {
            let (x, y) = Coord::unpack(self.alive[i]);
            proof {
                assert(spec_key_x(self.alive@[i as int]) == x);
            }
            if x < min_x {
                min_x = x;
            }
            if x > max_x {
                max_x = x;
            }
            if y < min_y {
                min_y = y;
            }
            if y > max_y {
                max_y = y;
            }
            i = i + 1;
        }
        let r = max_x - min_x < 0x8000_0000 && max_y - min_y < 0x8000_0000;
        proof {
            if r {
                assert(span_ok(self.alive@));
            } else {
                let a = choose|j: int| 0 <= j < n && spec_key_x(#[trigger] self.alive@[j]) == min_x;
                let b = choose|j: int| 0 <= j < n && spec_key_x(#[trigger] self.alive@[j]) == max_x;
                let c = choose|j: int| 0 <= j < n && spec_key_y(#[trigger] self.alive@[j]) == min_y;
                let d = choose|j: int| 0 <= j < n && spec_key_y(#[trigger] self.alive@[j]) == max_y;
                if max_x - min_x >= 0x8000_0000 {
                    assert(spec_key_x(self.alive@[b]) - spec_key_x(self.alive@[a]) >= 0x8000_0000);
                } else {
                    assert(spec_key_y(self.alive@[d]) - spec_key_y(self.alive@[c]) >= 0x8000_0000);
                    assert(spec_key_x(self.alive@[d]) - spec_key_x(self.alive@[c]) < 0x8000_0000);
                }
            }
        }
        r
    }

    /// Builds the quadtree from the live cells, unless a non-empty one is
    /// already there.
    pub fn init_hashlife(&mut self)
        requires
            old(self).wf(),
            span_ok(old(self).alive@),
        ensures
            final(self).wf(),
            final(self).same_but_hashlife(*old(self)),
            final(self).hashlife is Some,
            (old(self).hashlife matches Some(h) && h.root != FALSE_NODE) ==> final(self).hashlife == old(self).hashlife,
            !(old(self).hashlife matches Some(h) && h.root != FALSE_NODE) && old(self).alive@.len() == 0
                ==> final(self).hashlife->0.root == FALSE_NODE,
            !(old(self).hashlife matches Some(h) && h.root != FALSE_NODE) && !final(self).hashlife->0.cache.exhausted
                ==> forall|x: u64, y: u64| #[trigger] final(self).hashlife->0.alive(x, y) == old(self).alive@.map_values(
                |k: u64| grid_cell_to_flat(k),
            ).contains(spec_coord_pack(x, y)),
    {
        let needs = match &self.hashlife {
            Some(h) => h.is_empty(),
            None => true,
        };
        if needs {
            let data = grid_cells_to_flat(&self.alive);
            proof {
                assert forall|i: int| 0 <= i < data@.len() implies key_x(#[trigger] data@[i]) < 0xFFFF_FFFF_8000_0000
                    && key_y(data@[i]) < 0xFFFF_FFFF_8000_0000 by {
                    lemma_grid_cell_to_flat(self.alive@[i]);
                }
                assert forall|i: int, j: int| 0 <= i < data@.len() && 0 <= j < data@.len() implies key_x(#[trigger] data@[i])
                    - key_x(#[trigger] data@[j]) < 0x8000_0000 && key_y(data@[i]) - key_y(data@[j]) < 0x8000_0000 by {
                    lemma_grid_cell_to_flat(self.alive@[i]);
                    lemma_grid_cell_to_flat(self.alive@[j]);
                    assert(spec_key_x(self.alive@[i]) - spec_key_x(self.alive@[j]) < 0x8000_0000);
                }
            }
            proof {
                assert(data@ =~= self.alive@.map_values(|k: u64| grid_cell_to_flat(k)));
            }
            let h = HashLife::from_flat(&data);
            self.hashlife = Some(h);
        }
    }

    /// Drops the quadtree.
    pub fn invalidate_hashlife(&mut self)
        ensures
            final(self).hashlife is None,
            final(self).same_but_hashlife(*old(self)),
            old(self).wf() ==> final(self).wf(),
    {
        self.hashlife = None;
    }

    /// Every field but the quadtree is the same in `self` and `other`.
    pub open spec fn same_but_hashlife(&self, other: Grid) -> bool {
        &&& self.alive == other.alive
        &&& self.alive_index == other.alive_index
        &&& self.generation == other.generation
        &&& self.births == other.births
        &&& self.deaths == other.deaths
        &&& self.heap == other.heap
        &&& self.active_tiles == other.active_tiles
        &&& self.active_count == other.active_count
        &&& self.apply_new_active == other.apply_new_active
        &&& self.alive_vec == other.alive_vec
        &&& self.births_buf == other.births_buf
        &&& self.deaths_buf == other.deaths_buf
        &&& self.expanded_bloom == other.expanded_bloom
        &&& self.active_bloom == other.active_bloom
        &&& self.hashlife_mode == other.hashlife_mode
    }

    /// Replaces the live cells by those of the quadtree (each moved back to the
    /// sparse engine's coordinates, modulo 2^32), drops the quadtree, and clears
    /// the active tiles and their filters so that the next step rebuilds them.
    pub fn sync_alive_from_hashlife(&mut self)
        requires
            old(self).wf(),
            old(self).hashlife matches Some(h) ==> h.depth <= 31,
        ensures
            final(self).wf(),
            final(self).hashlife is None,
            final(self).active_tiles@.is_empty(),
            final(self).active_bloom.bits.len() == 0,
            final(self).expanded_bloom.bits.len() == 0,
            final(self).generation == old(self).generation,
            final(self).hashlife_mode == old(self).hashlife_mode,
            old(self).hashlife matches Some(h) ==> final(self).cells() == Set::new(
                |k: u64| exists|i: int| 0 <= i < h.cells().len() && k == flat_cell_to_grid(#[trigger] h.cells()[i]),
            ),
            old(self).hashlife is None ==> final(self).cells() == old(self).cells(),
    {
        let mut h: Option<HashLife> = None;
        std::mem::swap(&mut h, &mut self.hashlife);
        match h {
            Some(hf) => {
                let flat = hf.to_flat();
                self.alive.clear();
                self.alive_index.clear();
                proof {
                    assert(self.alive@.to_set() =~= Set::empty());
                }
                let mut i: usize = 0;
                while i < flat.len()
                    invariant
                        self.wf(),
                        self.hashlife is None,
                        self.generation == old(self).generation,
                        self.hashlife_mode == old(self).hashlife_mode,
                        i <= flat@.len(),
                        self.alive@.len() <= i,
                        self.cells() == Set::new(
                            |k: u64| exists|j: int| 0 <= j < i && k == flat_cell_to_grid(#[trigger] flat@[j]),
                        ),
                    decreases flat@.len() - i,
                {
                    let (hx, hy) = coord_unpack(flat[i]);
                    let (gx, gy) = hashlife_to_grid(hx, hy);
                    let k = Grid::k(gx as u32, gy as u32);
                    let ghost c0 = self.cells();
                    if !self.contains_alive(k) {
                        self.insert_alive(k);
                    }
                    proof {
                        assert(k == flat_cell_to_grid(flat@[i as int]));
                        assert(self.cells() =~= Set::new(
                            |kk: u64| exists|j: int| 0 <= j < i + 1 && kk == flat_cell_to_grid(#[trigger] flat@[j]),
                        )) by {
                            assert forall|kk: u64| self.cells().contains(kk) implies exists|j: int| 0 <= j < i + 1
                                && kk == flat_cell_to_grid(#[trigger] flat@[j]) by {
                                if kk != k {
                                    assert(c0.contains(kk));
                                }
                            }
                            assert forall|kk: u64| (exists|j: int| 0 <= j < i + 1 && kk == flat_cell_to_grid(#[trigger] flat@[j]))
                                implies self.cells().contains(kk) by {
                                let j = choose|j: int| 0 <= j < i + 1 && kk == flat_cell_to_grid(#[trigger] flat@[j]);
                                if j < i {
                                    assert(c0.contains(kk));
                                }
                            }
                        }
                    }
                    i = i + 1;
                }
                self.active_tiles.clear();
                self.active_bloom.resize(0);
                self.expanded_bloom.resize(0);
            },
            None => {
                self.active_tiles.clear();
                self.active_bloom.resize(0);
                self.expanded_bloom.resize(0);
            },
        }
    }

    /// Advances the quadtree one generation (nothing when there is none or it
    /// is empty); the sparse engine's change counters are zeroed.
    pub fn step_hashlife(&mut self)
        requires
            old(self).wf(),
        ensures
            final(self).wf(),
            final(self).hashlife_mode == old(self).hashlife_mode,
            (old(self).hashlife matches Some(h) && h.root != FALSE_NODE) ==> {
                &&& final(self).generation == old(self).generation.wrapping_add(1)
                &&& final(self).births == 0 && final(self).deaths == 0 && final(self).active_count == 0
                &&& final(self).hashlife is Some
                &&& final(self).hashlife->0.center == old(self).hashlife->0.center
                &&& final(self).alive == old(self).alive
                &&& (!final(self).hashlife->0.cache.exhausted && final(self).hashlife->0.depth + 1 < MAX_DEPTH
                    ==> forall|x: u64, y: u64| #[trigger] final(self).hashlife->0.alive(x, y)
                    == old(self).hashlife->0.life_next(x, y))
            },
            !(old(self).hashlife matches Some(h) && h.root != FALSE_NODE) ==> *final(self) == *old(self),
    {
        let empty = match &self.hashlife {
            Some(h) => h.is_empty(),
            None => true,
        };
        if empty {
            return;
        }
        match &mut self.hashlife {
            Some(hf) => {
                hf.step();
            },
            None => {},
        }
        self.generation = self.generation.wrapping_add(1);
        self.births = 0;
        self.deaths = 0;
        self.active_count = 0;
    }

    /// Advances the quadtree `n` generations (nothing when there is none, it is
    /// empty, or `n` is 0); the sparse engine's change counters are zeroed.
    pub fn step_hashlife_n(&mut self, n: u32)
        requires
            old(self).wf(),
        ensures
            final(self).wf(),
            final(self).hashlife_mode == old(self).hashlife_mode,
            (old(self).hashlife matches Some(h) && h.root != FALSE_NODE && n > 0) ==> {
                &&& final(self).generation == old(self).generation.wrapping_add(n)
                &&& final(self).births == 0 && final(self).deaths == 0 && final(self).active_count == 0
                &&& final(self).hashlife is Some
                &&& final(self).hashlife->0.center == old(self).hashlife->0.center
                &&& final(self).alive == old(self).alive
                &&& (old(self).hashlife->0.depth <= 60 && spread_ok(old(self).hashlife->0.block(), n as nat)
                    && !final(self).hashlife->0.cache.exhausted && (n % 2 == 1 ==> final(self).hashlife->0.depth + 1
                    < MAX_DEPTH) ==> holds_gen(
                    final(self).hashlife->0,
                    old(self).hashlife->0.block(),
                    n as nat,
                    old(self).hashlife->0.origin_x(),
                    old(self).hashlife->0.origin_y(),
                ))
            },
            !(old(self).hashlife matches Some(h) && h.root != FALSE_NODE && n > 0) ==> *final(self) == *old(self),
    {
        let empty = match &self.hashlife {
            Some(h) => h.is_empty(),
            None => true,
        };
        if empty || n == 0 {
            return;
        }
        match &mut self.hashlife {
            Some(hf) => {
                hf.step_n(n);
            },
            None => {},
        }
        self.generation = self.generation.wrapping_add(n);
        self.births = 0;
        self.deaths = 0;
        self.active_count = 0;
    }
}

} // verus!
