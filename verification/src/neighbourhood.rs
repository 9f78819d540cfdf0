//! Counting a cell's neighbourhood: the counts the sparse engine builds,
//! reread as "ten for the cell itself, one for each live neighbour".

use vstd::prelude::*;
use crate::coord::{spec_pack, spec_key_x, spec_key_y};
use crate::grid::{tile_at, neighbor_offset, wrap32, spec_mark_tiles, marked_tiles, mark_safe};
use crate::step::{spec_tile_key, adjacent, cell_share, count_in, nb_hits, tile_ring, counts_are, is_birth, is_death,
    births_of, deaths_of};
use crate::bloom::BloomFilter;
use crate::hashlife::rules::life_rule;

verus! {

/// How often `v` occurs in `s`.
pub open spec fn occ(s: Seq<u64>, v: u64) -> nat
    decreases s.len(),
{
    if s.len() == 0 {
        0
    } else {
        occ(s.drop_last(), v) + if s.last() == v { 1nat } else { 0nat }
    }
}

/// The neighbour `q` (0..8) of cell `(x, y)`, coordinates wrapping at 2^32.
pub open spec fn nb(x: int, y: int, q: int) -> u64 {
    tile_at(x + neighbor_offset(q).0, y + neighbor_offset(q).1)
}

/// How often the first `q` neighbours of `(x, y)` occur in `s`.
pub open spec fn nb_occ(s: Seq<u64>, x: int, y: int, q: int) -> nat
    decreases q,
{
    if q <= 0 {
        0
    } else {
        nb_occ(s, x, y, q - 1) + occ(s, nb(x, y, q - 1))
    }
}

/// How many of the first `q` neighbours of `(x, y)` are in `cells`.
pub open spec fn nbr_in(cells: Set<u64>, x: int, y: int, q: int) -> nat
    decreases q,
{
    if q <= 0 {
        0
    } else {
        nbr_in(cells, x, y, q - 1) + if cells.contains(nb(x, y, q - 1)) { 1nat } else { 0nat }
    }
}

/// A sequence without repeats holds each value at most once.
pub proof fn lemma_occ_no_dup(s: Seq<u64>, v: u64)
    requires
        s.no_duplicates(),
    ensures
        occ(s, v) == if s.contains(v) { 1nat } else { 0nat },
    decreases s.len(),
{
    if s.len() > 0 {
        let p = s.drop_last();
        assert(p.no_duplicates());
        lemma_occ_no_dup(p, v);
        if s.last() == v {
            assert(!p.contains(v)) by {
                if p.contains(v) {
                    let j = choose|j: int| 0 <= j < p.len() && p[j] == v;
                    assert(s[j] == s[s.len() - 1]);
                }
            }
            assert(s.contains(v)) by {
                assert(s[s.len() - 1] == v);
            }
        } else {
            if s.contains(v) {
                let j = choose|j: int| 0 <= j < s.len() && s[j] == v;
                assert(p[j] == v);
            }
            if p.contains(v) {
                let j = choose|j: int| 0 <= j < p.len() && p[j] == v;
                assert(s[j] == v);
            }
        }
    }
}

/// One more element adds its neighbour hits.
proof fn lemma_nb_occ_push(s: Seq<u64>, k: u64, x: int, y: int, q: int)
    requires
        s.len() > 0,
        s.last() == k,
    ensures
        nb_occ(s, x, y, q) == nb_occ(s.drop_last(), x, y, q) + nb_hits(x, y, k, q),
    decreases q,
{
    if q > 0 {
        lemma_nb_occ_push(s, k, x, y, q - 1);
    }
}

/// A key given by wrapping coordinates matches an interior cell exactly when
/// the coordinates are the cell's.
proof fn lemma_tile_at_interior(a: int, b: int, k: u64)
    requires
        -1 <= a <= u32::MAX + 1,
        -1 <= b <= u32::MAX + 1,
        mark_safe(k),
    ensures
        (k == tile_at(a, b)) == (spec_key_x(k) == a && spec_key_y(k) == b),
{
    crate::coord::lemma_pack_unpack(wrap32(a), wrap32(b), k);
}

/// Around any cell, an interior cell is hit once when it is a neighbour.
pub proof fn lemma_nb_hits_sym(x: u32, y: u32, k: u64)
    requires
        mark_safe(k),
    ensures
        nb_hits(x as int, y as int, k, 8) == if adjacent(spec_pack(x, y), k) { 1nat } else { 0nat },
{
    reveal_with_fuel(nb_hits, 9);
    crate::coord::lemma_pack_unpack(x, y, k);
    let xi = x as int;
    let yi = y as int;
    assert(nb_hits(xi, yi, k, 8) == (if k == tile_at(xi - 1, yi - 1) { 1nat } else { 0nat }) + (if k == tile_at(xi - 1, yi) { 1nat } else { 0nat })
        + (if k == tile_at(xi - 1, yi + 1) { 1nat } else { 0nat }) + (if k == tile_at(xi, yi - 1) { 1nat } else { 0nat }) + (if k == tile_at(
        xi,
        yi + 1,
    ) { 1nat } else { 0nat }) + (if k == tile_at(xi + 1, yi - 1) { 1nat } else { 0nat }) + (if k == tile_at(xi + 1, yi) { 1nat } else { 0nat })
        + (if k == tile_at(xi + 1, yi + 1) { 1nat } else { 0nat }));
    let kx = spec_key_x(k) as int;
    let ky = spec_key_y(k) as int;
    assert(spec_key_x(spec_pack(x, y)) == x && spec_key_y(spec_pack(x, y)) == y);
    assert(adjacent(spec_pack(x, y), k) == (-1 <= kx - xi <= 1 && -1 <= ky - yi <= 1 && !(kx == xi && ky == yi)));
    lemma_tile_at_interior(x - 1, y - 1, k);
    lemma_tile_at_interior(x - 1, y as int, k);
    lemma_tile_at_interior(x - 1, y + 1, k);
    lemma_tile_at_interior(x as int, y - 1, k);
    lemma_tile_at_interior(x as int, y + 1, k);
    lemma_tile_at_interior(x + 1, y - 1, k);
    lemma_tile_at_interior(x + 1, y as int, k);
    lemma_tile_at_interior(x + 1, y + 1, k);
}

/// The empty sequence holds no neighbour.
proof fn lemma_nb_occ_empty(s: Seq<u64>, x: int, y: int, q: int)
    requires
        s.len() == 0,
    ensures
        nb_occ(s, x, y, q) == 0,
    decreases q,
{
    if q > 0 {
        lemma_nb_occ_empty(s, x, y, q - 1);
    }
}

/// In an active tile a cell's count is ten for each copy of it and one for
/// each copy of each neighbour.
pub proof fn lemma_count_split(s: Seq<u64>, c: u64, active: Set<u64>)
    requires
        forall|j: int| 0 <= j < s.len() ==> mark_safe(#[trigger] s[j]),
        active.contains(spec_tile_key(c)),
    ensures
        count_in(s, c, active) == 10 * occ(s, c) + nb_occ(s, spec_key_x(c) as int, spec_key_y(c) as int, 8),
    decreases s.len(),
{
    if s.len() == 0 {
        lemma_nb_occ_empty(s, spec_key_x(c) as int, spec_key_y(c) as int, 8);
    } else {
        let p = s.drop_last();
        let k = s.last();
        assert forall|j: int| 0 <= j < p.len() implies mark_safe(#[trigger] p[j]) by {
            assert(p[j] == s[j]);
        }
        lemma_count_split(p, c, active);
        lemma_nb_occ_push(s, k, spec_key_x(c) as int, spec_key_y(c) as int, 8);
        assert(mark_safe(s[s.len() - 1]));
        lemma_nb_hits_sym(spec_key_x(c), spec_key_y(c), k);
        crate::coord::lemma_pack_unpack(spec_key_x(c), spec_key_y(c), c);
        if k == c {
            assert(!adjacent(c, k));
        }
        assert(adjacent(k, c) == adjacent(c, k));
        let cx = spec_key_x(c) as int;
        let cy = spec_key_y(c) as int;
        assert(nb_hits(cx, cy, k, 8) == if adjacent(c, k) { 1nat } else { 0nat });
        assert(cell_share(k, c, active) == (if k == c { 10nat } else { 0nat }) + nb_hits(cx, cy, k, 8));
        assert(count_in(s, c, active) == count_in(p, c, active) + cell_share(k, c, active));
        assert(occ(s, c) == occ(p, c) + if k == c { 1nat } else { 0nat });
        assert(nb_occ(s, cx, cy, 8) == nb_occ(p, cx, cy, 8) + nb_hits(cx, cy, k, 8));
    }
}

/// Outside the active tiles a cell's count is at most one for each copy of
/// each neighbour.
pub proof fn lemma_count_static(s: Seq<u64>, c: u64, active: Set<u64>)
    requires
        forall|j: int| 0 <= j < s.len() ==> mark_safe(#[trigger] s[j]),
        !active.contains(spec_tile_key(c)),
    ensures
        count_in(s, c, active) <= nb_occ(s, spec_key_x(c) as int, spec_key_y(c) as int, 8),
    decreases s.len(),
{
    if s.len() == 0 {
        lemma_nb_occ_empty(s, spec_key_x(c) as int, spec_key_y(c) as int, 8);
    } else {
        let p = s.drop_last();
        let k = s.last();
        assert forall|j: int| 0 <= j < p.len() implies mark_safe(#[trigger] p[j]) by {
            assert(p[j] == s[j]);
        }
        lemma_count_static(p, c, active);
        lemma_nb_occ_push(s, k, spec_key_x(c) as int, spec_key_y(c) as int, 8);
        assert(mark_safe(s[s.len() - 1]));
        lemma_nb_hits_sym(spec_key_x(c), spec_key_y(c), k);
        crate::coord::lemma_pack_unpack(spec_key_x(c), spec_key_y(c), c);
        assert(adjacent(k, c) == adjacent(c, k));
    }
}

/// Without repeats, the neighbour occurrences are the neighbours present in
/// any set that agrees with the sequence on them.
pub proof fn lemma_nb_occ_set(s: Seq<u64>, cells: Set<u64>, x: int, y: int, q: int)
    requires
        s.no_duplicates(),
        0 <= q <= 8,
        forall|j: int| 0 <= j < q ==> s.contains(#[trigger] nb(x, y, j)) == cells.contains(nb(x, y, j)),
    ensures
        nb_occ(s, x, y, q) == nbr_in(cells, x, y, q),
        nb_occ(s, x, y, q) <= q,
    decreases q,
{
    if q > 0 {
        lemma_nb_occ_set(s, cells, x, y, q - 1);
        lemma_occ_no_dup(s, nb(x, y, q - 1));
        assert(s.contains(nb(x, y, q - 1)) == cells.contains(nb(x, y, q - 1)));
    }
}

/// Without repeats, at most one copy of each of the eight neighbours.
pub proof fn lemma_nb_occ_le(s: Seq<u64>, x: int, y: int, q: int)
    requires
        s.no_duplicates(),
        0 <= q <= 8,
    ensures
        nb_occ(s, x, y, q) <= q,
    decreases q,
{
    if q > 0 {
        lemma_nb_occ_le(s, x, y, q - 1);
        lemma_occ_no_dup(s, nb(x, y, q - 1));
    }
}

/// The tile of an interior neighbour of `c` is one of the nine tiles around
/// `c`'s tile.
#[verifier::rlimit(50)]
pub proof fn lemma_neighbour_tile(c: u64, v: u64, q: int) -> (r: int)
    requires
        mark_safe(v),
        0 <= q < 8,
        v == nb(spec_key_x(c) as int, spec_key_y(c) as int, q),
    ensures
        0 <= r < 9,
        spec_tile_key(v) == tile_ring(spec_tile_key(c), r),
{
    let cx = spec_key_x(c) as int;
    let cy = spec_key_y(c) as int;
    let dx = neighbor_offset(q).0;
    let dy = neighbor_offset(q).1;
    assert(-1 <= dx <= 1 && -1 <= dy <= 1);
    lemma_tile_at_interior(cx + dx, cy + dy, v);
    let vx = spec_key_x(v) as int;
    let vy = spec_key_y(v) as int;
    assert(vx == cx + dx && vy == cy + dy);
    let tcx = cx - cx % 4;
    let tcy = cy - cy % 4;
    let tvx = vx - vx % 4;
    let tvy = vy - vy % 4;
    assert(tvx == tcx - 4 || tvx == tcx || tvx == tcx + 4) by {
        vstd::arithmetic::div_mod::lemma_fundamental_div_mod(cx, 4);
        vstd::arithmetic::div_mod::lemma_fundamental_div_mod(vx, 4);
    }
    assert(tvy == tcy - 4 || tvy == tcy || tvy == tcy + 4) by {
        vstd::arithmetic::div_mod::lemma_fundamental_div_mod(cy, 4);
        vstd::arithmetic::div_mod::lemma_fundamental_div_mod(vy, 4);
    }
    crate::coord::lemma_pack_unpack(tcx as u32, tcy as u32, c);
    let tk = spec_tile_key(c);
    assert(spec_key_x(tk) == tcx && spec_key_y(tk) == tcy);
    assert(tvx == tcx - 4 || tvx == tcx || tvx == tcx + 4);
    assert(tvy == tcy - 4 || tvy == tcy || tvy == tcy + 4);
    assert(spec_tile_key(v) == tile_at(tvx, tvy));
    if tvx == tcx && tvy == tcy {
        assert(tile_at(tvx, tvy) == tk);
        0
    } else if tvx == tcx - 4 && tvy == tcy - 4 {
        1
    } else if tvx == tcx + 4 && tvy == tcy - 4 {
        2
    } else if tvx == tcx - 4 && tvy == tcy + 4 {
        3
    } else if tvx == tcx + 4 && tvy == tcy + 4 {
        4
    } else if tvx == tcx && tvy == tcy - 4 {
        5
    } else if tvx == tcx - 4 && tvy == tcy {
        6
    } else if tvx == tcx && tvy == tcy + 4 {
        7
    } else {
        8
    }
}


/// One generation of the sparse engine on the live set `cells` with active
/// tiles `active`: a cell of an active tile follows B3/S23 (its eight
/// neighbours counted on the plane); every other cell stays as it is.
pub open spec fn stepped(cells: Set<u64>, active: Set<u64>) -> Set<u64> {
    Set::new(
        |c: u64|
            if active.contains(spec_tile_key(c)) {
                life_rule(cells.contains(c), nbr_in(cells, spec_key_x(c) as int, spec_key_y(c) as int, 8) as int)
            } else {
                cells.contains(c)
            },
    )
}

/// The counts of the cells that pass the filter, applied by the rule, give
/// `stepped`, provided the filter passes every live cell of an active tile or
/// of a tile around one.
#[verifier::rlimit(60)]
pub proof fn lemma_counts_step(cells: Set<u64>, chunk: Seq<u64>, active: Set<u64>, nc: Map<u64, u8>, bloom: BloomFilter)
    requires
        forall|j: int| 0 <= j < chunk.len() ==> mark_safe(#[trigger] chunk[j]),
        chunk.no_duplicates(),
        forall|v: u64| #[trigger] chunk.contains(v) <==> cells.contains(v) && bloom.spec_contains(spec_tile_key(v)),
        forall|v: u64| #[trigger] cells.contains(v) ==> mark_safe(v),
        forall|v: u64, t: u64, q: int|
            #[trigger] cells.contains(v) && #[trigger] active.contains(t) && 0 <= q < 9 && spec_tile_key(v) == #[trigger] tile_ring(t, q)
                ==> bloom.spec_contains(spec_tile_key(v)),
        counts_are(nc, |n: u64| count_in(chunk, n, active)),
    ensures
        cells.difference(deaths_of(nc)).union(births_of(nc, active)) == stepped(cells, active),
        deaths_of(nc).subset_of(cells),
{
    let out = cells.difference(deaths_of(nc)).union(births_of(nc, active));
    assert forall|c: u64| #[trigger] out.contains(c) == stepped(cells, active).contains(c) && (deaths_of(nc).contains(c)
        ==> cells.contains(c)) by {
        let cx = spec_key_x(c) as int;
        let cy = spec_key_y(c) as int;
        let count = count_in(chunk, c, active);
        assert(nc.contains_key(c) <==> count > 0);
        lemma_nb_occ_le(chunk, cx, cy, 8);
        if active.contains(spec_tile_key(c)) {
            lemma_count_split(chunk, c, active);
            lemma_occ_no_dup(chunk, c);
            if cells.contains(c) {
                assert(spec_tile_key(c) == tile_ring(spec_tile_key(c), 0));
            }
            assert(chunk.contains(c) == cells.contains(c));
            assert forall|j: int| 0 <= j < 8 implies chunk.contains(#[trigger] nb(cx, cy, j)) == cells.contains(nb(cx, cy, j)) by {
                if cells.contains(nb(cx, cy, j)) {
                    let r = lemma_neighbour_tile(c, nb(cx, cy, j), j);
                    assert(spec_tile_key(nb(cx, cy, j)) == tile_ring(spec_tile_key(c), r));
                }
            }
            lemma_nb_occ_set(chunk, cells, cx, cy, 8);
            let nbrs = nbr_in(cells, cx, cy, 8);
            assert(count == 10 * (if cells.contains(c) { 1nat } else { 0nat }) + nbrs);
            assert(count < 256);
            if nc.contains_key(c) {
                vstd::arithmetic::div_mod::lemma_small_mod(count, 256);
                assert(nc[c] == count);
            }
            assert(is_birth(nc, active, c) == (!cells.contains(c) && nbrs == 3));
            assert(is_death(nc, c) == (cells.contains(c) && !(nbrs == 2 || nbrs == 3)));
            assert(births_of(nc, active).contains(c) == is_birth(nc, active, c));
            assert(deaths_of(nc).contains(c) == is_death(nc, c));
        } else {
            lemma_count_static(chunk, c, active);
            if nc.contains_key(c) {
                vstd::arithmetic::div_mod::lemma_small_mod(count, 256);
                assert(nc[c] == count);
            }
            assert(!is_death(nc, c));
            assert(!is_birth(nc, active, c));
            assert(births_of(nc, active).contains(c) == is_birth(nc, active, c));
            assert(deaths_of(nc).contains(c) == is_death(nc, c));
        }
    }
    assert(out =~= stepped(cells, active));
    assert forall|c: u64| deaths_of(nc).contains(c) implies cells.contains(c) by {
        assert(out.contains(c) == stepped(cells, active).contains(c));
    }
}
/// One generation of B3/S23 on the live set `cells`: a cell is live next
/// when it is live with two or three live neighbours, or dead with three.
pub open spec fn life_gen(cells: Set<u64>) -> Set<u64> {
    Set::new(|c: u64| life_rule(cells.contains(c), nbr_in(cells, spec_key_x(c) as int, spec_key_y(c) as int, 8) as int))
}

/// A live cell marks the tile of each of its neighbours.
pub proof fn lemma_mark_covers(c: u64, v: u64, q: int)
    requires
        mark_safe(v),
        0 <= q < 8,
        v == nb(spec_key_x(c) as int, spec_key_y(c) as int, q),
    ensures
        spec_mark_tiles(v).contains(spec_tile_key(c)),
{
    let cx = spec_key_x(c) as int;
    let cy = spec_key_y(c) as int;
    let dx = neighbor_offset(q).0;
    let dy = neighbor_offset(q).1;
    assert(-1 <= dx <= 1 && -1 <= dy <= 1);
    lemma_tile_at_interior(cx + dx, cy + dy, v);
    let vx = spec_key_x(v) as int;
    let vy = spec_key_y(v) as int;
    assert(vx == cx + dx && vy == cy + dy);
    vstd::arithmetic::div_mod::lemma_fundamental_div_mod(cx, 4);
    vstd::arithmetic::div_mod::lemma_fundamental_div_mod(vx, 4);
    vstd::arithmetic::div_mod::lemma_fundamental_div_mod(cy, 4);
    vstd::arithmetic::div_mod::lemma_fundamental_div_mod(vy, 4);
    vstd::arithmetic::div_mod::lemma_mod_pos_bound(cx, 4);
    vstd::arithmetic::div_mod::lemma_mod_pos_bound(vx, 4);
    vstd::arithmetic::div_mod::lemma_mod_pos_bound(cy, 4);
    vstd::arithmetic::div_mod::lemma_mod_pos_bound(vy, 4);
    let tcx = cx - cx % 4;
    let tcy = cy - cy % 4;
    let tvx = vx - vx % 4;
    let tvy = vy - vy % 4;
    assert(tcx == tvx || (tcx == tvx - 4 && vx % 4 == 0) || (tcx == tvx + 4 && vx % 4 == 3));
    assert(tcy == tvy || (tcy == tvy - 4 && vy % 4 == 0) || (tcy == tvy + 4 && vy % 4 == 3));
    crate::coord::lemma_pack_unpack(tcx as u32, tcy as u32, c);
    assert(spec_tile_key(c) == tile_at(tcx, tcy));
}

/// Nine or fewer absent neighbours count nothing.
proof fn lemma_nbr_none(cells: Set<u64>, x: int, y: int, q: int)
    requires
        0 <= q <= 8,
        forall|j: int| 0 <= j < q ==> !cells.contains(#[trigger] nb(x, y, j)),
    ensures
        nbr_in(cells, x, y, q) == 0,
    decreases q,
{
    if q > 0 {
        lemma_nbr_none(cells, x, y, q - 1);
    }
}

/// When the active tiles take in every tile the live cells mark, the sparse
/// engine's generation is B3/S23 on the whole plane: a cell of an inactive
/// tile is dead with no live neighbour, and stays dead.
pub proof fn lemma_marked_step(alive: Seq<u64>, active: Set<u64>)
    requires
        forall|j: int| 0 <= j < alive.len() ==> mark_safe(#[trigger] alive[j]),
        marked_tiles(alive).subset_of(active),
    ensures
        stepped(alive.to_set(), active) == life_gen(alive.to_set()),
{
    let cells = alive.to_set();
    assert forall|c: u64| #[trigger] stepped(cells, active).contains(c) == life_gen(cells).contains(c) by {
        let cx = spec_key_x(c) as int;
        let cy = spec_key_y(c) as int;
        if !active.contains(spec_tile_key(c)) {
            if cells.contains(c) {
                let m = choose|m: int| 0 <= m < alive.len() && alive[m] == c;
                crate::grid::lemma_own_tile_marked(alive, m);
            }
            assert forall|j: int| 0 <= j < 8 implies !cells.contains(#[trigger] nb(cx, cy, j)) by {
                if cells.contains(nb(cx, cy, j)) {
                    let m = choose|m: int| 0 <= m < alive.len() && alive[m] == nb(cx, cy, j);
                    lemma_mark_covers(c, alive[m], j);
                    assert(marked_tiles(alive).contains(spec_tile_key(c)));
                }
            }
            lemma_nbr_none(cells, cx, cy, 8);
        }
    }
    assert(stepped(cells, active) =~= life_gen(cells));
}

/// No cell on an edge of the 32-bit plane comes alive in the next
/// generation of `cells`.
#[verifier::opaque]
pub open spec fn edge_quiet(cells: Set<u64>) -> bool {
    forall|n: u64| !mark_safe(n) ==> !#[trigger] life_gen(cells).contains(n)
}

/// Life on `cells`, `n` generations on.
pub open spec fn life_iter(cells: Set<u64>, n: nat) -> Set<u64>
    decreases n,
{
    if n == 0 {
        cells
    } else {
        life_gen(life_iter(cells, (n - 1) as nat))
    }
}

/// Every cell of a tile outside `active` is one that B3/S23 leaves as it is.
pub open spec fn stable_outside(cells: Set<u64>, active: Set<u64>) -> bool {
    forall|c: u64| !active.contains(#[trigger] spec_tile_key(c)) ==> life_gen(cells).contains(c) == cells.contains(c)
}

/// Around every cell of a tile outside `active` (the cell and its eight
/// neighbours) `before` and `after` agree.
pub open spec fn unchanged_outside(before: Set<u64>, after: Set<u64>, active: Set<u64>) -> bool {
    &&& forall|c: u64| !active.contains(#[trigger] spec_tile_key(c)) ==> after.contains(c) == before.contains(c)
    &&& forall|c: u64, q: int|
        !active.contains(spec_tile_key(c)) && 0 <= q < 8 ==> after.contains(
            #[trigger] nb(spec_key_x(c) as int, spec_key_y(c) as int, q),
        ) == before.contains(nb(spec_key_x(c) as int, spec_key_y(c) as int, q))
}

/// Two sets that agree on the first `q` neighbours count them alike.
proof fn lemma_nbr_same(a: Set<u64>, b: Set<u64>, x: int, y: int, q: int)
    requires
        0 <= q <= 8,
        forall|j: int| 0 <= j < q ==> a.contains(#[trigger] nb(x, y, j)) == b.contains(nb(x, y, j)),
    ensures
        nbr_in(a, x, y, q) == nbr_in(b, x, y, q),
    decreases q,
{
    if q > 0 {
        lemma_nbr_same(a, b, x, y, q - 1);
    }
}

/// Where the cells outside the active tiles are stable, applying the rule to
/// the active tiles alone is a whole generation of B3/S23.
pub proof fn lemma_stable_step(cells: Set<u64>, active: Set<u64>)
    requires
        stable_outside(cells, active),
    ensures
        stepped(cells, active) == life_gen(cells),
{
    assert forall|c: u64| #[trigger] stepped(cells, active).contains(c) == life_gen(cells).contains(c) by {
        if !active.contains(spec_tile_key(c)) {
            assert(life_gen(cells).contains(c) == cells.contains(c));
        }
    }
    assert(stepped(cells, active) =~= life_gen(cells));
}

/// After a generation of B3/S23, the cells of the tiles around which nothing
/// changed stay stable: they and their neighbours are as before, and before
/// they did not change.
pub proof fn lemma_stable_next(before: Set<u64>, after: Set<u64>, active: Set<u64>)
    requires
        after == life_gen(before),
        unchanged_outside(before, after, active),
    ensures
        stable_outside(after, active),
{
    assert forall|c: u64| !active.contains(#[trigger] spec_tile_key(c)) implies life_gen(after).contains(c)
        == after.contains(c) by {
        let cx = spec_key_x(c) as int;
        let cy = spec_key_y(c) as int;
        assert forall|j: int| 0 <= j < 8 implies after.contains(#[trigger] nb(cx, cy, j)) == before.contains(
            nb(cx, cy, j),
        ) by {
            assert(!active.contains(spec_tile_key(c)) && 0 <= j < 8);
        }
        lemma_nbr_same(after, before, cx, cy, 8);
        assert(after.contains(c) == before.contains(c));
    }
}

/// The tiles that the births and deaths mark hold every cell around which
/// something changed.
pub proof fn lemma_changes_marked(before: Set<u64>, nc: Map<u64, u8>, act: Set<u64>)
    requires
        forall|n: u64| #[trigger] nc.contains_key(n) && (is_birth(nc, act, n) || is_death(nc, n)) ==> mark_safe(n),
    ensures
        unchanged_outside(
            before,
            before.difference(crate::step::deaths_of(nc)).union(crate::step::births_of(nc, act)),
            crate::step::changed_tiles(nc, act),
        ),
{
    let after = before.difference(crate::step::deaths_of(nc)).union(crate::step::births_of(nc, act));
    let ch = crate::step::changed_tiles(nc, act);
    assert forall|c: u64| !ch.contains(#[trigger] spec_tile_key(c)) implies after.contains(c) == before.contains(c) by {
        if is_birth(nc, act, c) || is_death(nc, c) {
            let x = spec_key_x(c) as int;
            let y = spec_key_y(c) as int;
            assert(spec_tile_key(c) == tile_at(x - x % 4, y - y % 4));
            assert(spec_mark_tiles(c).contains(tile_at(x - x % 4, y - y % 4)));
            assert(ch.contains(spec_tile_key(c)));
        }
    }
    assert forall|c: u64, q: int| !ch.contains(spec_tile_key(c)) && 0 <= q < 8 implies after.contains(
        #[trigger] nb(spec_key_x(c) as int, spec_key_y(c) as int, q),
    ) == before.contains(nb(spec_key_x(c) as int, spec_key_y(c) as int, q)) by {
        let v = nb(spec_key_x(c) as int, spec_key_y(c) as int, q);
        if is_birth(nc, act, v) || is_death(nc, v) {
            lemma_mark_covers(c, v, q);
            assert(ch.contains(spec_tile_key(c)));
        }
    }
}

} // verus!
