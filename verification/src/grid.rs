//! The sparse tiled engine: the set of live cells as a vector plus an index,
//! and the 4x4 tiles where something may change next generation.

use vstd::prelude::*;
use std::collections::HashMap;
use std::collections::HashSet;
use crate::bloom::{BloomFilter, bit_set, probe1, probe2, lemma_bloom_no_false_negative};
use crate::coord::{Coord, spec_pack, spec_key_x, spec_key_y};
use crate::hashlife::life::HashLife;
pub use crate::tiles::{TileNbrGroup, TileNbrInfo, tile_nbr_info, tile_nbr_info_correct, group_cell, is_outside_neighbor};

verus! {

broadcast use vstd::std_specs::hash::group_hash_axioms;

/// Side of a tile, in cells.
pub const STATIC_SIZE: u32 = 4;

/// The eight neighbour offsets `(dx, dy)`.
pub open spec fn neighbor_offset(i: int) -> (int, int) {
    if i == 0 {
        (-1, -1)
    } else if i == 1 {
        (-1, 0)
    } else if i == 2 {
        (-1, 1)
    } else if i == 3 {
        (0, -1)
    } else if i == 4 {
        (0, 1)
    } else if i == 5 {
        (1, -1)
    } else if i == 6 {
        (1, 0)
    } else {
        (1, 1)
    }
}

/// The eight neighbour offsets, in the order the sweep visits them.
pub fn neighbor_offsets() -> (r: [(i32, i32); 8])
    ensures
        forall|i: int| 0 <= i < 8 ==> (r[i].0 as int, r[i].1 as int) == #[trigger] neighbor_offset(i),
{
    [(-1, -1), (-1, 0), (-1, 1), (0, -1), (0, 1), (1, -1), (1, 0), (1, 1)]
}

/// The multiplicative cell hash: `((x*x mod 2^32) >> 19) ^ (((y*y mod 2^32) >> 19) << 13)`
/// over the two halves of a packed key.
pub open spec fn life_hash(buf: u64) -> u64 {
    let x = spec_key_x(buf);
    let y = spec_key_y(buf);
    let hx = (((x as int * x as int) % 0x1_0000_0000) as u32) >> 19u32;
    let hy = (((y as int * y as int) % 0x1_0000_0000) as u32) >> 19u32;
    (hx as u64) ^ ((hy as u64) << 13u64)
}

/// A hasher for integer cell keys: it keeps the last integer written and
/// finishes with `life_hash`.
#[derive(Clone)]
pub struct LifeHasher {
    pub buf: u64,
}

impl LifeHasher {
    /// Bytes are not used with integer keys: the state is unchanged.
    pub fn write(&mut self, _bytes: &[u8])
        ensures
            final(self).buf == old(self).buf,
    {
    }

    /// Keeps `n` as the state.
    pub fn write_u32(&mut self, n: u32)
        ensures
            final(self).buf == n as u64,
    {
        self.buf = n as u64;
    }

    /// Keeps `n` as the state.
    pub fn write_u64(&mut self, n: u64)
        ensures
            final(self).buf == n,
    {
        self.buf = n;
    }

    /// The hash of the kept key.
    pub fn finish(&self) -> (h: u64)
        ensures
            h == life_hash(self.buf),
    {
        let (x, y) = Coord::unpack(self.buf);
        ((x.wrapping_mul(x) >> 19) as u64) ^ (((y.wrapping_mul(y) >> 19) as u64) << 13)
    }
}

/// Builds fresh `LifeHasher`s.
#[derive(Clone, Default)]
pub struct LifeBuildHasher;

impl LifeBuildHasher {
    /// A hasher with an empty state.
    pub fn build_hasher(&self) -> (h: LifeHasher)
        ensures
            h.buf == 0,
    {
        LifeHasher { buf: 0 }
    }
}

/// `v` modulo 2^32, for `v` within one period of the `u32` range.
pub open spec fn wrap32(v: int) -> u32 {
    if v < 0 {
        (v + 0x1_0000_0000) as u32
    } else if v > u32::MAX {
        (v - 0x1_0000_0000) as u32
    } else {
        v as u32
    }
}

/// The key of cell (or tile origin) `(tx, ty)`, coordinates taken modulo 2^32.
pub open spec fn tile_at(tx: int, ty: int) -> u64 {
    spec_pack(wrap32(tx), wrap32(ty))
}

/// The tiles that may change when cell `k` changes: its own tile, plus each
/// neighbouring tile that touches the cell (for cells on a tile's edge).
pub open spec fn spec_mark_tiles(k: u64) -> Set<u64> {
    let x = spec_key_x(k) as int;
    let y = spec_key_y(k) as int;
    let ox = x % 4;
    let oy = y % 4;
    let tx = x - ox;
    let ty = y - oy;
    let s0 = Set::empty().insert(tile_at(tx, ty));
    let s1 = if ox == 3 { s0.insert(tile_at(tx + 4, ty)) } else { s0 };
    let s2 = if ox == 3 && oy == 3 { s1.insert(tile_at(tx + 4, ty + 4)) } else { s1 };
    let s3 = if oy == 3 { s2.insert(tile_at(tx, ty + 4)) } else { s2 };
    let s4 = if ox == 0 && oy == 3 { s3.insert(tile_at(tx - 4, ty + 4)) } else { s3 };
    let s5 = if ox == 0 { s4.insert(tile_at(tx - 4, ty)) } else { s4 };
    let s6 = if ox == 0 && oy == 0 { s5.insert(tile_at(tx - 4, ty - 4)) } else { s5 };
    let s7 = if oy == 0 { s6.insert(tile_at(tx, ty - 4)) } else { s6 };
    if ox == 3 && oy == 0 { s7.insert(tile_at(tx + 4, ty - 4)) } else { s7 }
}

/// A cell marks its own tile.
pub proof fn lemma_own_tile_marked(cells: Seq<u64>, m: int)
    requires
        0 <= m < cells.len(),
    ensures
        marked_tiles(cells).contains(crate::step::spec_tile_key(cells[m])),
{
    let k = cells[m];
    let x = spec_key_x(k) as int;
    let y = spec_key_y(k) as int;
    assert(crate::step::spec_tile_key(k) == tile_at(x - x % 4, y - y % 4));
    assert(spec_mark_tiles(k).contains(tile_at(x - x % 4, y - y % 4)));
}

/// Marking the tiles of cell `k` stays inside the 32-bit coordinate range.
pub open spec fn mark_safe(k: u64) -> bool {
    &&& spec_key_x(k) != 0
    &&& spec_key_x(k) != u32::MAX
    &&& spec_key_y(k) != 0
    &&& spec_key_y(k) != u32::MAX
}

/// The tiles marked by the cells of `cells`.
pub open spec fn marked_tiles(cells: Seq<u64>) -> Set<u64> {
    Set::new(|t: u64| exists|i: int| 0 <= i < cells.len() && #[trigger] spec_mark_tiles(cells[i]).contains(t))
}

/// Cell `j` (0..20) of the one-cell border ring around tile `tk`:
/// the row above, the row below (each from `tx - 1` to `tx + 4`), then the
/// column left and the column right (each from `ty` to `ty + 3`).
pub open spec fn border_cell(tk: u64, j: int) -> u64 {
    let tx = spec_key_x(tk) as int;
    let ty = spec_key_y(tk) as int;
    if j < 6 {
        tile_at(tx - 1 + if j == 5 { 5 } else { j }, ty - 1)
    } else if j < 12 {
        tile_at(tx - 1 + if j == 11 { 5 } else { j - 6 }, ty + 4)
    } else if j < 16 {
        tile_at(tx - 1, ty + (j - 12))
    } else {
        tile_at(tx + 4, ty + (j - 16))
    }
}

pub proof fn lemma_mark_tiles_len(k: u64)
    ensures
        spec_mark_tiles(k).finite(),
        spec_mark_tiles(k).len() <= 9,
{
    let x = spec_key_x(k) as int;
    let y = spec_key_y(k) as int;
    let ox = x % 4;
    let oy = y % 4;
    let tx = x - ox;
    let ty = y - oy;
    let s0 = Set::<u64>::empty().insert(tile_at(tx, ty));
    let s1 = if ox == 3 { s0.insert(tile_at(tx + 4, ty)) } else { s0 };
    let s2 = if ox == 3 && oy == 3 { s1.insert(tile_at(tx + 4, ty + 4)) } else { s1 };
    let s3 = if oy == 3 { s2.insert(tile_at(tx, ty + 4)) } else { s2 };
    let s4 = if ox == 0 && oy == 3 { s3.insert(tile_at(tx - 4, ty + 4)) } else { s3 };
    let s5 = if ox == 0 { s4.insert(tile_at(tx - 4, ty)) } else { s4 };
    let s6 = if ox == 0 && oy == 0 { s5.insert(tile_at(tx - 4, ty - 4)) } else { s5 };
    let s7 = if oy == 0 { s6.insert(tile_at(tx, ty - 4)) } else { s6 };
    let s8 = if ox == 3 && oy == 0 { s7.insert(tile_at(tx + 4, ty - 4)) } else { s7 };
    assert(s8 == spec_mark_tiles(k));
    assert(s0.len() <= 1);
    assert(s1.len() <= 2);
    assert(s2.len() <= 3);
    assert(s3.len() <= 4);
    assert(s4.len() <= 5);
    assert(s5.len() <= 6);
    assert(s6.len() <= 7);
    assert(s7.len() <= 8);
}

/// The keys of the pattern cells placed at anchor `(ax, ay)`, in order.
pub open spec fn pattern_keys(cells: Seq<(i64, i64)>, ax: i64, ay: i64) -> Seq<u64> {
    Seq::new(cells.len(), |i: int| pattern_key(cells[i], ax, ay))
}

/// `s` without its entry at `i`: the last entry takes that slot.
pub open spec fn swap_removed(s: Seq<u64>, i: int) -> Seq<u64> {
    if i < s.len() - 1 {
        s.update(i, s.last()).drop_last()
    } else {
        s.drop_last()
    }
}

/// The key of pattern cell `c` placed at anchor `(ax, ay)`, coordinates taken modulo 2^32.
pub open spec fn pattern_key(c: (i64, i64), ax: i64, ay: i64) -> u64 {
    spec_pack((c.0 + ax) as u32, (c.1 + ay) as u32)
}

/// The sparse engine's state.
pub struct Grid {
    /// Live cells, in no particular order (each once).
    pub alive: Vec<u64>,
    /// Position of each live cell in `alive`.
    pub alive_index: HashMap<u64, usize>,
    pub generation: u32,
    pub births: u32,
    pub deaths: u32,
    pub heap: u32,
    /// Tiles where a cell may change in the next generation.
    pub active_tiles: HashSet<u64>,
    pub active_count: u32,
    pub apply_new_active: HashSet<u64>,
    pub alive_vec: Vec<u64>,
    pub births_buf: Vec<u64>,
    pub deaths_buf: Vec<u64>,
    pub expanded_bloom: BloomFilter,
    pub active_bloom: BloomFilter,
    /// Whether the quadtree engine runs the pattern instead of the live-cell set.
    pub hashlife_mode: bool,
    /// The quadtree universe, when one has been built.
    pub hashlife: Option<HashLife>,
}

impl Grid {
    /// The set of live cells.
    pub open spec fn cells(&self) -> Set<u64> {
        self.alive@.to_set()
    }

    /// `alive` holds each live cell once and `alive_index` knows where.
    pub open spec fn wf(&self) -> bool {
        &&& self.alive@.no_duplicates()
        &&& forall|k: u64| #[trigger] self.alive_index@.contains_key(k) <==> self.alive@.contains(k)
        &&& forall|k: u64|
            #[trigger] self.alive_index@.contains_key(k) ==> self.alive_index@[k] < self.alive@.len()
                && self.alive@[self.alive_index@[k] as int] == k
        &&& self.active_bloom.wf()
        &&& self.expanded_bloom.wf()
        &&& (self.hashlife matches Some(h) ==> h.wf())
    }

    /// Every field but the live cells and their index is the same in `self` and `other`.
    pub open spec fn same_but_alive(&self, other: Grid) -> bool {
        &&& self.generation == other.generation
        &&& self.births == other.births
        &&& self.deaths == other.deaths
        &&& self.heap == other.heap
        &&& self.active_tiles == other.active_tiles
        &&& self.active_count == other.active_count
        &&& self.apply_new_active == other.apply_new_active
        &&& self.alive_vec == other.alive_vec
        &&& self.births_buf == other.births_buf
        &&& self.deaths_buf == other.deaths_buf
        &&& self.expanded_bloom == other.expanded_bloom
        &&& self.active_bloom == other.active_bloom
        &&& self.hashlife_mode == other.hashlife_mode
        &&& self.hashlife == other.hashlife
    }

    /// An empty grid at generation 0.
    pub fn new() -> (g: Self)
        ensures
            g.wf(),
            g.alive@.len() == 0,
            g.active_tiles@.is_empty(),
            g.generation == 0 && g.births == 0 && g.deaths == 0 && g.heap == 0 && g.active_count == 0,
            g.active_bloom.bits.len() == 0,
            g.expanded_bloom.bits.len() == 0,
            !g.hashlife_mode,
            g.hashlife is None,
    {
        Grid {
            alive: Vec::with_capacity(256),
            alive_index: HashMap::with_capacity(256),
            generation: 0,
            births: 0,
            deaths: 0,
            heap: 0,
            active_tiles: HashSet::new(),
            active_count: 0,
            apply_new_active: HashSet::with_capacity(256),
            alive_vec: Vec::new(),
            births_buf: Vec::with_capacity(256),
            deaths_buf: Vec::with_capacity(256),
            expanded_bloom: BloomFilter::empty(),
            active_bloom: BloomFilter::empty(),
            hashlife_mode: false,
            hashlife: None,
        }
    }

    /// The key of cell `(x, y)`.
    pub fn k(x: u32, y: u32) -> (r: u64)
        ensures
            r == spec_pack(x, y),
    {
        Coord::pack(x, y)
    }

    /// The cell of key `k`.
    pub fn unpack(k: u64) -> (r: (u32, u32))
        ensures
            r == (spec_key_x(k), spec_key_y(k)),
    {
        Coord::unpack(k)
    }

    /// The position of cell `k` inside its 4x4 tile.
    pub fn mod_tile(k: u64) -> (r: (u32, u32))
        ensures
            r == (spec_key_x(k) % 4, spec_key_y(k) % 4),
    {
        let (x, y) = Coord::unpack(k);
        (x % STATIC_SIZE, y % STATIC_SIZE)
    }

    /// Adds the live cell `k` (which must not be live yet).
    pub fn insert_alive(&mut self, k: u64)
        requires
            old(self).wf(),
            !old(self).cells().contains(k),
            old(self).alive@.len() < usize::MAX,
        ensures
            final(self).wf(),
            final(self).alive@ == old(self).alive@.push(k),
            final(self).cells() == old(self).cells().insert(k),
            final(self).same_but_alive(*old(self)),
    {
        self.alive.push(k);
        self.alive_index.insert(k, self.alive.len() - 1);
        proof {
            let old_alive = old(self).alive@;
            assert(self.alive@ == old_alive.push(k));
            assert forall|j: u64| #[trigger] self.alive_index@.contains_key(j) <==> self.alive@.contains(j) by {
                if self.alive@.contains(j) && j != k {
                    let i = choose|i: int| 0 <= i < self.alive@.len() && self.alive@[i] == j;
                    assert(old_alive[i] == j);
                }
                if old_alive.contains(j) {
                    let i = choose|i: int| 0 <= i < old_alive.len() && old_alive[i] == j;
                    assert(self.alive@[i] == j);
                }
                assert(self.alive@[old_alive.len() as int] == k);
            }
            assert(self.alive@.to_set() =~= old_alive.to_set().insert(k)) by {
                assert forall|j: u64| self.alive@.to_set().contains(j) <==> old_alive.to_set().insert(k).contains(j) by {
                    if self.alive@.contains(j) && j != k {
                        let i = choose|i: int| 0 <= i < self.alive@.len() && self.alive@[i] == j;
                        assert(old_alive[i] == j);
                    }
                    if old_alive.contains(j) {
                        let i = choose|i: int| 0 <= i < old_alive.len() && old_alive[i] == j;
                        assert(self.alive@[i] == j);
                    }
                    assert(self.alive@[old_alive.len() as int] == k);
                }
            }
        }
    }

    /// Removes the live cell `k` (which must be live): the last cell takes its slot.
    pub fn remove_alive(&mut self, k: u64)
        requires
            old(self).wf(),
            old(self).cells().contains(k),
        ensures
            final(self).wf(),
            final(self).cells() == old(self).cells().remove(k),
            final(self).alive@ == swap_removed(old(self).alive@, old(self).alive_index@[k] as int),
            final(self).alive@.len() == old(self).alive@.len() - 1,
            final(self).same_but_alive(*old(self)),
    {
        let ghost old_alive = self.alive@;
        let idx = match self.alive_index.remove(&k) {
            Some(i) => i,
            None => {
                proof {
                    assert(false);
                }
                0
            },
        };
        let last = self.alive.len() - 1;
        if idx != last {
            let swapped = self.alive[last];
            self.alive.set(idx, swapped);
            self.alive_index.insert(swapped, idx);
        }
        self.alive.pop();
        proof {
            let n = old_alive.len();
            assert(idx < n && old_alive[idx as int] == k);
            assert(idx as int == old(self).alive_index@[k] as int) by {
                let i = old(self).alive_index@[k] as int;
                assert(old_alive[i] == k);
                if idx as int != i {
                    assert(old_alive[idx as int] != old_alive[i]);
                }
            }
            assert(self.alive@ =~= (if idx != last { old_alive.update(idx as int, old_alive[last as int]) } else {
                old_alive
            }).drop_last());
            assert forall|i: int, j: int| 0 <= i < j < self.alive@.len() implies self.alive@[i] != self.alive@[j] by {
                assert(old_alive[i] != old_alive[j]);
                if i == idx as int {
                    assert(old_alive[last as int] != old_alive[j]);
                }
                if j == idx as int {
                    assert(old_alive[last as int] != old_alive[i]);
                }
            }
            assert forall|j: u64| #[trigger] self.alive_index@.contains_key(j) <==> self.alive@.contains(j) by {
                if self.alive@.contains(j) {
                    let i = choose|i: int| 0 <= i < self.alive@.len() && self.alive@[i] == j;
                    if i == idx as int && idx != last {
                        assert(j == old_alive[last as int]);
                        assert(j != k);
                    } else {
                        assert(old_alive[i] == j);
                        assert(j != k);
                    }
                    assert(old_alive.contains(j));
                }
                if self.alive_index@.contains_key(j) {
                    assert(j != k);
                    assert(old_alive.contains(j));
                    let i = old(self).alive_index@[j] as int;
                    if j == old_alive[last as int] && idx != last {
                        assert(self.alive@[idx as int] == j);
                    } else {
                        assert(i != last as int) by {
                            if i == last as int {
                                assert(old_alive[i] == j);
                            }
                        }
                        assert(i != idx as int);
                        assert(self.alive@[i] == j);
                    }
                }
            }
            assert forall|j: u64| #[trigger] self.alive_index@.contains_key(j) implies self.alive_index@[j]
                < self.alive@.len() && self.alive@[self.alive_index@[j] as int] == j by {
                if !(j == old_alive[last as int] && idx != last) {
                    let i = old(self).alive_index@[j] as int;
                    assert(old_alive[i] == j);
                    assert(i != last as int || (idx == last)) by {
                        if i == last as int && idx != last {
                            assert(j == old_alive[last as int]);
                        }
                    }
                    assert(i != idx as int) by {
                        if i == idx as int {
                            assert(j == k);
                        }
                    }
                }
            }
            assert(self.alive@.to_set() =~= old_alive.to_set().remove(k)) by {
                assert forall|j: u64| self.alive@.to_set().contains(j) <==> old_alive.to_set().remove(k).contains(j) by {
                    assert(self.alive_index@.contains_key(j) <==> self.alive@.contains(j));
                    assert(old(self).alive_index@.contains_key(j) <==> old_alive.contains(j));
                }
            }
        }
    }

    /// Whether cell `k` is live.
    pub fn contains_alive(&self, k: u64) -> (r: bool)
        requires
            self.wf(),
        ensures
            r == self.cells().contains(k),
    {
        self.alive_index.contains_key(&k)
    }

    /// Adds to `tiles` the tiles that cell `k` marks (see `spec_mark_tiles`).
    pub fn mark_active(k: u64, tiles: &mut HashSet<u64>)
        requires
            mark_safe(k),
        ensures
            final(tiles)@ == old(tiles)@.union(spec_mark_tiles(k)),
    {
        let (x, y) = Self::unpack(k);
        let (ox, oy) = Self::mod_tile(k);
        let tx = x - ox;
        let ty = y - oy;
        let ss = STATIC_SIZE;
        let m1 = ss - 1;
        tiles.insert(Coord::pack(tx, ty));
        if ox == m1 {
            tiles.insert(Coord::pack(tx + ss, ty));
        }
        if ox == m1 && oy == m1 {
            tiles.insert(Coord::pack(tx + ss, ty + ss));
        }
        if oy == m1 {
            tiles.insert(Coord::pack(tx, ty + ss));
        }
        if ox == 0 && oy == m1 {
            tiles.insert(Coord::pack(tx - ss, ty + ss));
        }
        if ox == 0 {
            tiles.insert(Coord::pack(tx - ss, ty));
        }
        if ox == 0 && oy == 0 {
            tiles.insert(Coord::pack(tx - ss, ty - ss));
        }
        if oy == 0 {
            tiles.insert(Coord::pack(tx, ty - ss));
        }
        if ox == m1 && oy == 0 {
            tiles.insert(Coord::pack(tx + ss, ty - ss));
        }
        proof {
            assert(tiles@ =~= old(tiles)@.union(spec_mark_tiles(k)));
        }
    }

    /// The bloom filters answer yes for every active tile (`active_bloom`) and
    /// for every cell of the border ring of every active tile (`expanded_bloom`),
    /// whenever they have storage.
    pub open spec fn blooms_cover(&self) -> bool {
        &&& forall|t: u64|
            #[trigger] self.active_tiles@.contains(t) && self.active_bloom.bits.len() > 0
                ==> self.active_bloom.spec_contains(t)
        &&& forall|t: u64, j: int|
            #[trigger] self.active_tiles@.contains(t) && 0 <= j < 20 && self.expanded_bloom.bits.len() > 0
                ==> self.expanded_bloom.spec_contains(#[trigger] border_cell(t, j))
    }

    /// Rebuilds the active tiles from the live cells and refills both bloom
    /// filters: `active_bloom` sized for the tiles, `expanded_bloom` for 15 keys a tile.
    pub fn init_active(&mut self)
        requires
            old(self).wf(),
            forall|i: int| 0 <= i < old(self).alive@.len() ==> mark_safe(#[trigger] old(self).alive@[i]),
            old(self).alive@.len() <= usize::MAX / 2400,
        ensures
            final(self).wf(),
            final(self).alive@ == old(self).alive@,
            final(self).alive_index@ == old(self).alive_index@,
            final(self).active_tiles@ == marked_tiles(old(self).alive@),
            final(self).blooms_cover(),
            final(self).active_bloom.bits.len() > 0 <==> final(self).active_tiles@.len() > 0,
            final(self).active_tiles@.finite(),
            final(self).generation == old(self).generation,
            final(self).births == old(self).births,
            final(self).deaths == old(self).deaths,
            final(self).heap == old(self).heap,
            final(self).active_count == old(self).active_count,
            final(self).hashlife_mode == old(self).hashlife_mode,
            final(self).hashlife == old(self).hashlife,
    {
        self.active_tiles.clear();
        let mut i: usize = 0;
        while i < self.alive.len()
            invariant
                self.wf(),
                self.alive@ == old(self).alive@,
                self.alive_index@ == old(self).alive_index@,
                i <= self.alive@.len(),
                forall|j: int| 0 <= j < self.alive@.len() ==> mark_safe(#[trigger] self.alive@[j]),
                self.active_tiles@ == marked_tiles(self.alive@.subrange(0, i as int)),
                self.active_tiles@.finite(),
                self.active_tiles@.len() <= 9 * i,
                self.generation == old(self).generation,
                self.births == old(self).births,
                self.deaths == old(self).deaths,
                self.heap == old(self).heap,
                self.active_count == old(self).active_count,
                self.hashlife_mode == old(self).hashlife_mode,
                self.hashlife == old(self).hashlife,
            decreases self.alive@.len() - i,
        {
            let k = self.alive[i];
            let ghost before = self.active_tiles@;
            Self::mark_active(k, &mut self.active_tiles);
            proof {
                lemma_mark_tiles_len(k);
                vstd::set_lib::lemma_len_union(before, spec_mark_tiles(k));
                let cells = self.alive@.subrange(0, i as int + 1);
                let prev = self.alive@.subrange(0, i as int);
                assert(self.active_tiles@ =~= marked_tiles(cells)) by {
                    assert forall|t: u64| self.active_tiles@.contains(t) <==> marked_tiles(cells).contains(t) by {
                        if marked_tiles(cells).contains(t) {
                            let j = choose|j: int| 0 <= j < cells.len() && #[trigger] spec_mark_tiles(cells[j]).contains(t);
                            if j < i {
                                assert(prev[j] == cells[j]);
                                assert(marked_tiles(prev).contains(t));
                            }
                        }
                        if before.contains(t) {
                            let j = choose|j: int| 0 <= j < prev.len() && #[trigger] spec_mark_tiles(prev[j]).contains(t);
                            assert(cells[j] == prev[j]);
                        }
                        if spec_mark_tiles(k).contains(t) {
                            assert(cells[i as int] == k);
                        }
                    }
                }
            }
            i = i + 1;
        }
        proof {
            assert(self.alive@.subrange(0, self.alive@.len() as int) =~= self.alive@);
        }
        let n_tiles = self.active_tiles.len();
        self.active_bloom.resize(n_tiles);
        self.expanded_bloom.resize(n_tiles * 15);
        let ss = STATIC_SIZE;
        let ghost tiles = self.active_tiles@;
        let ghost alive0 = self.alive@;
        let ghost index0 = self.alive_index@;
        for tk in iter: self.active_tiles.iter()
            invariant
                self.active_tiles@ == tiles,
                tiles == marked_tiles(old(self).alive@),
                self.alive@ == old(self).alive@,
                self.alive_index@ == old(self).alive_index@,
                self.wf(),
                self.generation == old(self).generation,
                self.births == old(self).births,
                self.deaths == old(self).deaths,
                self.heap == old(self).heap,
                self.active_count == old(self).active_count,
                self.hashlife_mode == old(self).hashlife_mode,
                self.hashlife == old(self).hashlife,
                iter.seq().unref().to_set() == tiles,
                self.active_bloom.bits.len() > 0 <==> tiles.len() > 0,
                iter.index() == iter.seq().len() ==> self.blooms_cover(),
                forall|j: int|
                    0 <= j < iter.index@ && self.active_bloom.bits.len() > 0 ==> self.active_bloom.spec_contains(
                        *#[trigger] iter.seq()[j],
                    ),
                forall|j: int, b: int|
                    0 <= j < iter.index@ && 0 <= b < 20 && self.expanded_bloom.bits.len() > 0
                        ==> self.expanded_bloom.spec_contains(#[trigger] border_cell(*#[trigger] iter.seq()[j], b)),
        {
            let ghost a_before = self.active_bloom;
            let ghost e_before = self.expanded_bloom;
            fill_tile_blooms(&mut self.active_bloom, &mut self.expanded_bloom, *tk);
            assert forall|t: u64| iter.index() == iter.seq().len() && #[trigger] self.active_tiles@.contains(t)
                && self.active_bloom.bits.len() > 0 implies self.active_bloom.spec_contains(t) by {
                assert(iter.seq().unref().to_set().contains(t));
                assert(iter.seq().unref().contains(t));
                let j = choose|j: int| 0 <= j < iter.seq().unref().len() && iter.seq().unref()[j] == t;
                assert(self.active_bloom.spec_contains(*iter.seq()[j]));
            }
            assert forall|t: u64, j: int| iter.index() == iter.seq().len() && #[trigger] self.active_tiles@.contains(t)
                && 0 <= j < 20 && self.expanded_bloom.bits.len() > 0
                implies self.expanded_bloom.spec_contains(#[trigger] border_cell(t, j)) by {
                assert(iter.seq().unref().to_set().contains(t));
                assert(iter.seq().unref().contains(t));
                let i = choose|i: int| 0 <= i < iter.seq().unref().len() && iter.seq().unref()[i] == t;
                assert(self.expanded_bloom.spec_contains(border_cell(*iter.seq()[i], j)));
            }
        }
    }

    /// Removes every cell and resets the counters and filters.
    pub fn clear(&mut self)
        requires
            old(self).wf(),
        ensures
            final(self).wf(),
            final(self).alive@.len() == 0,
            final(self).cells().is_empty(),
            final(self).active_tiles@.is_empty(),
            final(self).active_bloom.bits.len() == 0 && final(self).active_bloom.size_bits == 0,
            final(self).expanded_bloom.bits.len() == 0 && final(self).expanded_bloom.size_bits == 0,
            final(self).generation == 0 && final(self).births == 0 && final(self).deaths == 0,
            final(self).heap == 0 && final(self).active_count == 0,
            final(self).hashlife_mode == old(self).hashlife_mode,
            final(self).hashlife == old(self).hashlife,
    {
        self.alive.clear();
        self.alive_index.clear();
        self.active_tiles.clear();
        self.expanded_bloom.resize(0);
        self.active_bloom.resize(0);
        self.active_count = 0;
        self.generation = 0;
        self.births = 0;
        self.deaths = 0;
        self.heap = 0;
        proof {
            assert(self.alive@.to_set() =~= Set::empty());
        }
    }

    /// Flips cell `(x mod 2^32, y mod 2^32)` and rebuilds the active tiles.
    pub fn toggle(&mut self, x: i64, y: i64)
        requires
            old(self).wf(),
            forall|i: int| 0 <= i < old(self).alive@.len() ==> mark_safe(#[trigger] old(self).alive@[i]),
            mark_safe(spec_pack(x as u32, y as u32)),
            old(self).alive@.len() < usize::MAX / 2400,
        ensures
            final(self).wf(),
            final(self).cells() == if old(self).cells().contains(spec_pack(x as u32, y as u32)) {
                old(self).cells().remove(spec_pack(x as u32, y as u32))
            } else {
                old(self).cells().insert(spec_pack(x as u32, y as u32))
            },
            final(self).alive@ == if old(self).cells().contains(spec_pack(x as u32, y as u32)) {
                swap_removed(old(self).alive@, old(self).alive_index@[spec_pack(x as u32, y as u32)] as int)
            } else {
                old(self).alive@.push(spec_pack(x as u32, y as u32))
            },
            final(self).active_tiles@ == marked_tiles(final(self).alive@),
            final(self).blooms_cover(),
            final(self).generation == old(self).generation,
            final(self).births == old(self).births && final(self).deaths == old(self).deaths,
            final(self).heap == old(self).heap && final(self).active_count == old(self).active_count,
            final(self).hashlife_mode == old(self).hashlife_mode,
            final(self).hashlife == old(self).hashlife,
    {
        let k = Self::k(x as u32, y as u32);
        if self.contains_alive(k) {
            self.remove_alive(k);
        } else {
            self.insert_alive(k);
        }
        proof {
            assert forall|i: int| 0 <= i < self.alive@.len() implies mark_safe(#[trigger] self.alive@[i]) by {
                assert(self.alive@.contains(self.alive@[i]));
                assert(self.cells().contains(self.alive@[i]));
                if self.alive@[i] != k {
                    assert(old(self).cells().contains(self.alive@[i]));
                    let j = choose|j: int| 0 <= j < old(self).alive@.len() && old(self).alive@[j] == self.alive@[i];
                }
            }
        }
        self.init_active();
    }

    /// Adds the cells `(cx + anchor_x, cy + anchor_y)` (each taken modulo 2^32)
    /// and rebuilds the active tiles.
    pub fn load_pattern(&mut self, cells: &[(i64, i64)], anchor_x: i64, anchor_y: i64)
        requires
            old(self).wf(),
            forall|i: int| 0 <= i < old(self).alive@.len() ==> mark_safe(#[trigger] old(self).alive@[i]),
            forall|i: int| 0 <= i < cells@.len() ==> {
                &&& i64::MIN <= #[trigger] cells@[i].0 + anchor_x <= i64::MAX
                &&& i64::MIN <= cells@[i].1 + anchor_y <= i64::MAX
                &&& mark_safe(pattern_key(cells@[i], anchor_x, anchor_y))
                &&& !old(self).cells().contains(pattern_key(cells@[i], anchor_x, anchor_y))
            },
            forall|i: int, j: int| 0 <= i < j < cells@.len() ==> pattern_key(#[trigger] cells@[i], anchor_x, anchor_y)
                != pattern_key(#[trigger] cells@[j], anchor_x, anchor_y),
            old(self).alive@.len() + cells@.len() < usize::MAX / 2400,
        ensures
            final(self).wf(),
            final(self).cells() == old(self).cells().union(
                Set::new(|k: u64| exists|i: int| 0 <= i < cells@.len() && k == pattern_key(#[trigger] cells@[i], anchor_x, anchor_y)),
            ),
            final(self).alive@ == old(self).alive@ + pattern_keys(cells@, anchor_x, anchor_y),
            final(self).active_tiles@ == marked_tiles(final(self).alive@),
            final(self).blooms_cover(),
            final(self).generation == old(self).generation,
            final(self).births == old(self).births && final(self).deaths == old(self).deaths,
            final(self).heap == old(self).heap && final(self).active_count == old(self).active_count,
            final(self).hashlife_mode == old(self).hashlife_mode,
            final(self).hashlife == old(self).hashlife,
    {
        let mut i: usize = 0;
        while i < cells.len()
            invariant
                self.wf(),
                i <= cells@.len(),
                forall|j: int| 0 <= j < self.alive@.len() ==> mark_safe(#[trigger] self.alive@[j]),
                forall|j: int| 0 <= j < cells@.len() ==> {
                    &&& i64::MIN <= #[trigger] cells@[j].0 + anchor_x <= i64::MAX
                    &&& i64::MIN <= cells@[j].1 + anchor_y <= i64::MAX
                    &&& mark_safe(pattern_key(cells@[j], anchor_x, anchor_y))
                    &&& !old(self).cells().contains(pattern_key(cells@[j], anchor_x, anchor_y))
                },
                forall|a: int, b: int| 0 <= a < b < cells@.len() ==> pattern_key(#[trigger] cells@[a], anchor_x, anchor_y)
                    != pattern_key(#[trigger] cells@[b], anchor_x, anchor_y),
                self.alive@ == old(self).alive@ + pattern_keys(cells@, anchor_x, anchor_y).subrange(0, i as int),
                old(self).alive@.len() + cells@.len() < usize::MAX / 2400,
                self.cells() == old(self).cells().union(
                    Set::new(|k: u64| exists|j: int| 0 <= j < i && k == pattern_key(#[trigger] cells@[j], anchor_x, anchor_y)),
                ),
                self.generation == old(self).generation,
                self.births == old(self).births && self.deaths == old(self).deaths,
                self.heap == old(self).heap && self.active_count == old(self).active_count,
                self.hashlife_mode == old(self).hashlife_mode,
                self.hashlife == old(self).hashlife,
            decreases cells@.len() - i,
        {
            let (cx, cy) = cells[i];
            let x = (cx + anchor_x) as u32;
            let y = (cy + anchor_y) as u32;
            let k = Self::k(x, y);
            let ghost before = self.cells();
            proof {
                assert(k == pattern_key(cells@[i as int], anchor_x, anchor_y));
                assert(!before.contains(k)) by {
                    if before.contains(k) && !old(self).cells().contains(k) {
                        let j = choose|j: int| 0 <= j < i && k == pattern_key(#[trigger] cells@[j], anchor_x, anchor_y);
                        assert(pattern_key(cells@[j], anchor_x, anchor_y) != pattern_key(cells@[i as int], anchor_x, anchor_y));
                    }
                }
            }
            self.insert_alive(k);
            proof {
                assert(self.alive@ =~= old(self).alive@ + pattern_keys(cells@, anchor_x, anchor_y).subrange(0, i + 1));
                assert(self.cells() =~= old(self).cells().union(
                    Set::new(|kk: u64| exists|j: int| 0 <= j < i + 1 && kk == pattern_key(#[trigger] cells@[j], anchor_x, anchor_y)),
                )) by {
                    assert forall|kk: u64| #[trigger] self.cells().contains(kk) <==> old(self).cells().union(
                        Set::new(|kk2: u64| exists|j: int| 0 <= j < i + 1 && kk2 == pattern_key(#[trigger] cells@[j], anchor_x, anchor_y)),
                    ).contains(kk) by {
                        if kk == k {
                            assert(exists|j: int| 0 <= j < i + 1 && k == pattern_key(#[trigger] cells@[j], anchor_x, anchor_y)) by {
                                assert(k == pattern_key(cells@[i as int], anchor_x, anchor_y));
                            }
                        }
                        if exists|j: int| 0 <= j < i + 1 && kk == pattern_key(#[trigger] cells@[j], anchor_x, anchor_y) {
                            let j = choose|j: int| 0 <= j < i + 1 && kk == pattern_key(#[trigger] cells@[j], anchor_x, anchor_y);
                            if j < i {
                                assert(exists|j2: int| 0 <= j2 < i && kk == pattern_key(#[trigger] cells@[j2], anchor_x, anchor_y));
                            }
                        }
                    }
                }
            }
            i = i + 1;
        }
        proof {
            assert(pattern_keys(cells@, anchor_x, anchor_y).subrange(0, cells@.len() as int) =~= pattern_keys(
                cells@,
                anchor_x,
                anchor_y,
            ));
        }
        self.init_active();
    }

    /// Replaces the live cells by `keys` (distinct), restarts the generation
    /// count and rebuilds the active tiles: what remains of a random fill once
    /// its cells are drawn.
    pub fn reset_to(&mut self, keys: &[u64])
        requires
            old(self).wf(),
            keys@.no_duplicates(),
            forall|i: int| 0 <= i < keys@.len() ==> mark_safe(#[trigger] keys@[i]),
            keys@.len() < usize::MAX / 2400,
        ensures
            final(self).wf(),
            final(self).alive@ == keys@,
            final(self).cells() == keys@.to_set(),
            final(self).generation == 0,
            final(self).active_tiles@ == marked_tiles(keys@),
            final(self).blooms_cover(),
            final(self).hashlife_mode == old(self).hashlife_mode,
            final(self).hashlife == old(self).hashlife,
    {
        self.alive.clear();
        self.alive_index.clear();
        self.active_tiles.clear();
        self.expanded_bloom.resize(0);
        self.active_bloom.resize(0);
        let mut i: usize = 0;
        while i < keys.len()
            invariant
                self.wf(),
                i <= keys@.len(),
                self.alive@ == keys@.subrange(0, i as int),
                keys@.no_duplicates(),
                forall|j: int| 0 <= j < keys@.len() ==> mark_safe(#[trigger] keys@[j]),
                keys@.len() < usize::MAX / 2400,
                self.hashlife_mode == old(self).hashlife_mode,
                self.hashlife == old(self).hashlife,
            decreases keys@.len() - i,
        {
            proof {
                assert(!self.alive@.contains(keys@[i as int])) by {
                    if self.alive@.contains(keys@[i as int]) {
                        let j = choose|j: int| 0 <= j < self.alive@.len() && self.alive@[j] == keys@[i as int];
                        assert(keys@[j] == keys@[i as int]);
                    }
                }
            }
            self.insert_alive(keys[i]);
            proof {
                assert(self.alive@ =~= keys@.subrange(0, i as int + 1));
            }
            i = i + 1;
        }
        proof {
            assert(self.alive@ =~= keys@);
        }
        self.generation = 0;
        self.init_active();
    }
}


/// Inserts tile `tk` into `active` and the 20 cells of its border ring into
/// `expanded`; whatever either filter answered yes before, it still does.
#[verifier::rlimit(60)]
#[verifier::spinoff_prover]
fn fill_tile_blooms(active: &mut BloomFilter, expanded: &mut BloomFilter, tk: u64)
    requires
        old(active).wf(),
        old(expanded).wf(),
    ensures
        final(active).wf(),
        final(expanded).wf(),
        final(active).bits.len() == old(active).bits.len(),
        final(active).spec_mask() == old(active).spec_mask(),
        final(expanded).bits.len() == old(expanded).bits.len(),
        final(expanded).spec_mask() == old(expanded).spec_mask(),
        forall|j: u64| old(active).spec_contains(j) ==> final(active).spec_contains(j),
        forall|j: u64| old(expanded).spec_contains(j) ==> final(expanded).spec_contains(j),
        final(active).bits.len() > 0 ==> final(active).spec_contains(tk),
        forall|b: int| 0 <= b < 20 && final(expanded).bits.len() > 0 ==> final(expanded).spec_contains(#[trigger] border_cell(tk, b)),
{
    let (tx, ty) = Coord::unpack(tk);
    let ss = STATIC_SIZE;
    active.insert(tk);
    let ghost e0 = *expanded;
    let k0 = Coord::pack(tx.wrapping_sub(1), ty.wrapping_sub(1));
    assert(k0 == border_cell(tk, 0));
    let k1 = Coord::pack(tx, ty.wrapping_sub(1));
    assert(k1 == border_cell(tk, 1));
    let k2 = Coord::pack(tx.wrapping_add(1), ty.wrapping_sub(1));
    assert(k2 == border_cell(tk, 2));
    let k3 = Coord::pack(tx.wrapping_add(2), ty.wrapping_sub(1));
    assert(k3 == border_cell(tk, 3));
    let k4 = Coord::pack(tx.wrapping_add(3), ty.wrapping_sub(1));
    assert(k4 == border_cell(tk, 4));
    let k5 = Coord::pack(tx.wrapping_add(ss), ty.wrapping_sub(1));
    assert(k5 == border_cell(tk, 5));
    let k6 = Coord::pack(tx.wrapping_sub(1), ty.wrapping_add(ss));
    assert(k6 == border_cell(tk, 6));
    let k7 = Coord::pack(tx, ty.wrapping_add(ss));
    assert(k7 == border_cell(tk, 7));
    let k8 = Coord::pack(tx.wrapping_add(1), ty.wrapping_add(ss));
    assert(k8 == border_cell(tk, 8));
    let k9 = Coord::pack(tx.wrapping_add(2), ty.wrapping_add(ss));
    assert(k9 == border_cell(tk, 9));
    let k10 = Coord::pack(tx.wrapping_add(3), ty.wrapping_add(ss));
    assert(k10 == border_cell(tk, 10));
    let k11 = Coord::pack(tx.wrapping_add(ss), ty.wrapping_add(ss));
    assert(k11 == border_cell(tk, 11));
    let k12 = Coord::pack(tx.wrapping_sub(1), ty);
    assert(k12 == border_cell(tk, 12));
    let k13 = Coord::pack(tx.wrapping_sub(1), ty.wrapping_add(1));
    assert(k13 == border_cell(tk, 13));
    let k14 = Coord::pack(tx.wrapping_sub(1), ty.wrapping_add(2));
    assert(k14 == border_cell(tk, 14));
    let k15 = Coord::pack(tx.wrapping_sub(1), ty.wrapping_add(3));
    assert(k15 == border_cell(tk, 15));
    let k16 = Coord::pack(tx.wrapping_add(ss), ty);
    assert(k16 == border_cell(tk, 16));
    let k17 = Coord::pack(tx.wrapping_add(ss), ty.wrapping_add(1));
    assert(k17 == border_cell(tk, 17));
    let k18 = Coord::pack(tx.wrapping_add(ss), ty.wrapping_add(2));
    assert(k18 == border_cell(tk, 18));
    let k19 = Coord::pack(tx.wrapping_add(ss), ty.wrapping_add(3));
    assert(k19 == border_cell(tk, 19));
    let keys = [k0, k1, k2, k3, k4, k5, k6, k7, k8, k9, k10, k11, k12, k13, k14, k15, k16, k17, k18, k19];
    let mut b: usize = 0;
    while b < 20
        invariant
            expanded.wf(),
            forall|c: int| 0 <= c < 20 ==> keys[c] == #[trigger] border_cell(tk, c),
            expanded.bits.len() == e0.bits.len(),
            expanded.spec_mask() == e0.spec_mask(),
            forall|j: u64| e0.spec_contains(j) ==> expanded.spec_contains(j),
            forall|c: int| 0 <= c < b && expanded.bits.len() > 0 ==> expanded.spec_contains(#[trigger] keys[c]),
        decreases 20 - b,
    {
        expanded.insert(keys[b]);
        b = b + 1;
    }
    assert forall|c: int| 0 <= c < 20 && expanded.bits.len() > 0 implies expanded.spec_contains(#[trigger] border_cell(tk, c)) by {
        assert(keys[c] == border_cell(tk, c));
    }
}

} // verus!
