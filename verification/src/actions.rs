//! What the viewer's requests do to the engines: stepping, switching between
//! the sparse engine and the quadtree, clearing, flipping a cell, loading a
//! pattern and filling a random pattern once its cells are drawn.

use vstd::prelude::*;
use std::collections::HashSet;
use crate::coord::{Coord, spec_pack, spec_key_x, spec_key_y};
use crate::export::{export_rle, rle_text};
use crate::hashlife::macrocell::mc_text;
use crate::grid::{Grid, mark_safe, pattern_key};
use crate::hashlife::{spec_shift, frontend_to_hashlife, hashlife_to_frontend, coord_pack, coord_unpack, spec_coord_pack, FRONTEND_OFFSET, HASHLIFE_OFFSET};
use crate::hashlife::cache::FALSE_NODE;
use crate::hashlife::life::{HashLife, flat_in_range};
use crate::hashlife::tree::{key_x, key_y};
use crate::step::{span_ok, grid_cell_to_flat, flat_cell_to_grid};
use crate::neighbourhood::{life_gen, life_iter, edge_quiet};
use crate::hashlife::life::MAX_DEPTH;
use crate::hashlife::span::{spread_ok, holds_gen};

verus! {

broadcast use vstd::std_specs::hash::group_hash_axioms;

/// A request that changes the engines.
pub enum Action {
    /// One generation.
    Step,
    /// Several generations.
    BatchStep(u64),
    /// Switch between the sparse engine and the quadtree.
    ToggleHashlife,
    /// Remove every cell.
    Clear,
}

impl Grid {
    /// One generation of the running engine. The sparse engine is left as it
    /// is when `step` cannot run on it (a live cell on the plane's edge, or
    /// too many cells) or when a cell on the plane's edge would be born.
    pub fn step_once(&mut self)
        requires
            old(self).wf(),
        ensures
            final(self).wf(),
            final(self).hashlife_mode == old(self).hashlife_mode,
            !old(self).hashlife_mode ==> final(self).generation == old(self).generation.wrapping_add(1)
                || final(self).generation == old(self).generation,
            !old(self).hashlife_mode && final(self).generation == old(self).generation ==> final(self).cells()
                == old(self).cells(),
            !old(self).hashlife_mode && !old(self).step_ready() ==> *final(self) == *old(self),
            old(self).hashlife_mode && (old(self).hashlife matches Some(h) && h.root != FALSE_NODE) ==> final(self).generation
                == old(self).generation.wrapping_add(1),
            old(self).hashlife_mode && !(old(self).hashlife matches Some(h) && h.root != FALSE_NODE) ==> *final(self)
                == *old(self),
            !old(self).hashlife_mode && old(self).step_ready() && old(self).follows_life() && edge_quiet(old(self).cells())
                ==> final(self).generation == old(self).generation.wrapping_add(1) && final(self).cells() == life_gen(
                old(self).cells(),
            ),
            !old(self).hashlife_mode && old(self).step_ready() && old(self).follows_life() && !edge_quiet(
                old(self).cells(),
            ) ==> final(self).generation == old(self).generation,
            !old(self).hashlife_mode && old(self).follows_life() ==> final(self).follows_life(),
            old(self).hashlife_mode && (old(self).hashlife matches Some(h) && h.root != FALSE_NODE)
                && !final(self).hashlife->0.cache.exhausted && final(self).hashlife->0.depth + 1 < MAX_DEPTH
                ==> forall|x: u64, y: u64| #[trigger] final(self).hashlife->0.alive(x, y)
                == old(self).hashlife->0.life_next(x, y),
    {
        if self.hashlife_mode {
            self.step_hashlife();
        } else if self.can_step() {
            self.step();
        }
    }

    /// Carries out `action`: a step; `n` steps (the quadtree jumps `n mod 2^32`
    /// generations at once; the sparse engine stops early where `step` cannot
    /// run or does not take a step, see `step_once`); a switch of engine (the quadtree is built from the live cells if
    /// there is none or it is empty, and the live cells are rebuilt from it on
    /// the way back); or a clear.
    pub fn apply_action(&mut self, action: Action)
        requires
            old(self).wf(),
        ensures
            final(self).wf(),
            action is Step ==> final(self).hashlife_mode == old(self).hashlife_mode,
            action is Step && !old(self).hashlife_mode && old(self).step_ready() && old(self).follows_life() && edge_quiet(
                old(self).cells(),
            ) ==> final(self).generation == old(self).generation.wrapping_add(1) && final(self).cells() == life_gen(
                old(self).cells(),
            ) && final(self).follows_life(),
            action is Step && !old(self).hashlife_mode && final(self).generation == old(self).generation
                ==> final(self).cells() == old(self).cells(),
            action is Step && !old(self).hashlife_mode ==> final(self).generation == old(self).generation.wrapping_add(1)
                || final(self).generation == old(self).generation,
            action is Step && !old(self).hashlife_mode && !old(self).step_ready() ==> *final(self) == *old(self),
            action is Step && old(self).hashlife_mode && (old(self).hashlife matches Some(h) && h.root != FALSE_NODE)
                ==> final(self).generation == old(self).generation.wrapping_add(1),
            action is Step && old(self).hashlife_mode && !(old(self).hashlife matches Some(h) && h.root != FALSE_NODE)
                ==> *final(self) == *old(self),
            action is Step && old(self).hashlife_mode && (old(self).hashlife matches Some(h) && h.root != FALSE_NODE)
                && !final(self).hashlife->0.cache.exhausted && final(self).hashlife->0.depth + 1 < MAX_DEPTH
                ==> forall|x: u64, y: u64| #[trigger] final(self).hashlife->0.alive(x, y)
                == old(self).hashlife->0.life_next(x, y),
            action is BatchStep ==> final(self).hashlife_mode == old(self).hashlife_mode,
            action is BatchStep && !old(self).hashlife_mode ==> exists|m: nat|
                m <= action->0 && final(self).generation == #[trigger] gen_after(old(self).generation, m) && (
                old(self).follows_life() ==> life_iter(old(self).cells(), m) == final(self).cells() && final(self).follows_life()
                    && (m < action->0 ==> !final(self).step_ready() || !edge_quiet(final(self).cells()))),
            action is BatchStep && old(self).hashlife_mode && (old(self).hashlife matches Some(h) && h.root != FALSE_NODE)
                && action->0 as u32 > 0 && old(self).hashlife->0.depth <= 60 && spread_ok(
                old(self).hashlife->0.block(),
                action->0 as u32 as nat,
            ) && !final(self).hashlife->0.cache.exhausted && (action->0 as u32 % 2 == 1
                ==> final(self).hashlife->0.depth + 1 < MAX_DEPTH) ==> holds_gen(
                final(self).hashlife->0,
                old(self).hashlife->0.block(),
                action->0 as u32 as nat,
                old(self).hashlife->0.origin_x(),
                old(self).hashlife->0.origin_y(),
            ),
            action is BatchStep && old(self).hashlife_mode && (old(self).hashlife matches Some(h) && h.root != FALSE_NODE)
                && action->0 as u32 > 0 ==> final(self).generation == old(self).generation.wrapping_add(action->0 as u32),
            action is ToggleHashlife ==> final(self).hashlife_mode == !old(self).hashlife_mode,
            action is ToggleHashlife && old(self).hashlife_mode && (old(self).hashlife matches Some(h) && h.depth <= 31)
                ==> final(self).hashlife is None,
            action is ToggleHashlife && !old(self).hashlife_mode && span_ok(old(self).alive@) ==> final(self).hashlife is Some,
            action is ToggleHashlife && !old(self).hashlife_mode && span_ok(old(self).alive@) && !(old(self).hashlife matches Some(
                h,
            ) && h.root != FALSE_NODE) && !final(self).hashlife->0.cache.exhausted ==> forall|x: u64, y: u64|
                #[trigger] final(self).hashlife->0.alive(x, y) == old(self).alive@.map_values(
                    |k: u64| grid_cell_to_flat(k),
                ).contains(spec_coord_pack(x, y)),
            action is ToggleHashlife && old(self).hashlife_mode && (old(self).hashlife matches Some(h) && h.depth <= 31)
                ==> final(self).cells() == Set::new(
                |k: u64|
                    exists|i: int|
                        0 <= i < old(self).hashlife->0.cells().len() && k == flat_cell_to_grid(
                            #[trigger] old(self).hashlife->0.cells()[i],
                        ),
            ),
            action is ToggleHashlife && old(self).hashlife_mode && old(self).hashlife is None ==> final(self).cells()
                == old(self).cells(),
            action is Clear ==> final(self).cells().is_empty() && final(self).generation == 0
                && final(self).hashlife_mode == old(self).hashlife_mode,
            action is Clear && old(self).hashlife_mode && old(self).hashlife is Some ==> (final(self).hashlife matches Some(h)
                && h.root == FALSE_NODE),
            action is Clear && !old(self).hashlife_mode ==> final(self).hashlife is None,
    {
        match action {
            Action::Step => {
                self.step_once();
            },
            Action::BatchStep(count) => {
                if self.hashlife_mode {
                    self.step_hashlife_n(count as u32);
                } else {
                    let mut i: u64 = 0;
                    while i < count
                        invariant_except_break
                            i <= count,
                        invariant
                            self.wf(),
                            !self.hashlife_mode,
                            self.hashlife_mode == old(self).hashlife_mode,
                            self.generation == gen_after(old(self).generation, i as nat),
                            old(self).follows_life() ==> self.follows_life() && self.cells() == life_iter(
                                old(self).cells(),
                                i as nat,
                            ),
                        ensures
                            i <= count,
                            self.generation == gen_after(old(self).generation, i as nat),
                            old(self).follows_life() ==> self.follows_life() && self.cells() == life_iter(
                                old(self).cells(),
                                i as nat,
                            ),
                            old(self).follows_life() && i < count ==> !self.step_ready() || !edge_quiet(self.cells()),
                        decreases count - i,
                    {
                        if !self.can_step() {
                            break;
                        }
                        let g = self.generation;
                        self.step();
                        if self.generation == g {
                            break;
                        }
                        proof {
                            lemma_gen_after_next(old(self).generation, i as nat);
                        }
                        i = i + 1;
                    }
                    proof {
                        let m = i as nat;
                        assert(m <= count && self.generation == gen_after(old(self).generation, m) && (old(self).follows_life()
                            ==> life_iter(old(self).cells(), m) == self.cells() && self.follows_life() && (m < count
                            ==> !self.step_ready() || !edge_quiet(self.cells()))));
                    }
                }
            },
            Action::ToggleHashlife => {
                self.hashlife_mode = !self.hashlife_mode;
                if self.hashlife_mode {
                    let needs = match &self.hashlife {
                        Some(h) => h.is_empty(),
                        None => true,
                    };
                    if needs && self.hashlife_span_ok() {
                        self.init_hashlife();
                    }
                } else {
                    let deep = match &self.hashlife {
                        Some(h) => h.depth > 31,
                        None => false,
                    };
                    if !deep {
                        self.sync_alive_from_hashlife();
                    }
                }
            },
            Action::Clear => {
                self.clear();
                if self.hashlife_mode {
                    match &mut self.hashlife {
                        Some(hf) => {
                            *hf = HashLife::new();
                        },
                        None => {},
                    }
                } else {
                    self.invalidate_hashlife();
                }
            },
        }
    }
}

/// Coordinate `a` moved by the signed offset `d`, modulo 2^64 (the offset
/// read in two's complement).
pub open spec fn quad_coord(a: u64, d: i64) -> u64 {
    vstd::wrapping::u64_specs::wrapping_add(a, d as u64)
}

/// The cells `(hax + cx, hay + cy)` of a pattern placed in the quadtree's
/// plane, packed, in order.
pub open spec fn quad_pattern(cells: Seq<(i64, i64)>, hax: u64, hay: u64) -> Seq<u128> {
    Seq::new(cells.len(), |i: int| spec_coord_pack(quad_coord(hax, cells[i].0), quad_coord(hay, cells[i].1)))
}

/// Generation `g` advanced `m` times, counted modulo 2^32.
pub open spec fn gen_after(g: u32, m: nat) -> u32 {
    ((g + m) % 0x1_0000_0000) as u32
}

proof fn lemma_gen_after_next(g: u32, m: nat)
    ensures
        gen_after(g, m).wrapping_add(1) == gen_after(g, m + 1),
{
    let a = (g + m) as int;
    let r = a % 0x1_0000_0000;
    vstd::arithmetic::div_mod::lemma_mod_bound(a, 0x1_0000_0000);
    vstd::arithmetic::div_mod::lemma_add_mod_noop(a, 1, 0x1_0000_0000);
    vstd::arithmetic::div_mod::lemma_mod_twice(1, 0x1_0000_0000);
    if r + 1 < 0x1_0000_0000 {
        vstd::arithmetic::div_mod::lemma_small_mod((r + 1) as nat, 0x1_0000_0000);
    } else {
        vstd::arithmetic::div_mod::lemma_mod_self_0(0x1_0000_0000);
    }
}

/// Whether cell `k`'s tiles can be marked (see `mark_safe`).
pub fn is_mark_safe(k: u64) -> (r: bool)
    ensures
        r == mark_safe(k),
{
    let (x, y) = Coord::unpack(k);
    x != 0 && x != u32::MAX && y != 0 && y != u32::MAX
}

/// Whether every cell of `data` lies below `2^64 - 2^31` in both coordinates
/// and the cells span less than 2^31 in each direction (see `flat_in_range`).
pub fn flat_ok(data: &Vec<u128>) -> (r: bool)
    ensures
        r == flat_in_range(data@),
{
    let n = data.len();
    if n == 0 {
        return true;
    }
    let mut min_x: u64 = u64::MAX;
    let mut max_x: u64 = 0;
    let mut min_y: u64 = u64::MAX;
    let mut max_y: u64 = 0;
    let mut i: usize = 0;
    while i < n
        invariant
            n == data@.len(),
            0 < n,
            i <= n,
            forall|j: int| 0 <= j < i ==> min_x <= key_x(#[trigger] data@[j]) <= max_x && min_y <= key_y(data@[j]) <= max_y,
            i > 0 ==> exists|j: int| 0 <= j < i && key_x(#[trigger] data@[j]) == min_x,
            i > 0 ==> exists|j: int| 0 <= j < i && key_x(#[trigger] data@[j]) == max_x,
            i > 0 ==> exists|j: int| 0 <= j < i && key_y(#[trigger] data@[j]) == min_y,
            i > 0 ==> exists|j: int| 0 <= j < i && key_y(#[trigger] data@[j]) == max_y,
            i == 0 ==> min_x == u64::MAX && max_x == 0 && min_y == u64::MAX && max_y == 0,
        decreases n - i,
    {
        let (x, y) = coord_unpack(data[i]);
        if x < min_x {
            min_x = x;
        }
        if x > max_x {
            max_x = x;
        }
        if y < min_y {
            min_y = y;
        }
        if y > max_y {
            max_y = y;
        }
        i = i + 1;
    }
    let r = max_x < 0xFFFF_FFFF_8000_0000 && max_y < 0xFFFF_FFFF_8000_0000 && max_x - min_x < 0x8000_0000 && max_y
        - min_y < 0x8000_0000;
    proof {
        let a = choose|j: int| 0 <= j < n && key_x(#[trigger] data@[j]) == min_x;
        let b = choose|j: int| 0 <= j < n && key_x(#[trigger] data@[j]) == max_x;
        let c = choose|j: int| 0 <= j < n && key_y(#[trigger] data@[j]) == min_y;
        let d = choose|j: int| 0 <= j < n && key_y(#[trigger] data@[j]) == max_y;
        if !r {
            if max_x >= 0xFFFF_FFFF_8000_0000 {
                assert(key_x(data@[b]) >= 0xFFFF_FFFF_8000_0000);
            } else if max_y >= 0xFFFF_FFFF_8000_0000 {
                assert(key_y(data@[d]) >= 0xFFFF_FFFF_8000_0000);
                assert(key_x(data@[d]) < 0xFFFF_FFFF_8000_0000);
            } else if max_x - min_x >= 0x8000_0000 {
                assert(key_x(data@[b]) - key_x(data@[a]) >= 0x8000_0000);
            } else {
                assert(key_y(data@[d]) - key_y(data@[c]) >= 0x8000_0000);
                assert(key_x(data@[d]) - key_x(data@[c]) < 0x8000_0000);
            }
        }
    }
    r
}

impl Grid {
    /// Whether every live cell's tiles can be marked.
    pub fn cells_mark_safe(&self) -> (r: bool)
        ensures
            r == forall|i: int| 0 <= i < self.alive@.len() ==> mark_safe(#[trigger] self.alive@[i]),
    {
        let mut i: usize = 0;
        while i < self.alive.len()
            invariant
                i <= self.alive@.len(),
                forall|j: int| 0 <= j < i ==> mark_safe(#[trigger] self.alive@[j]),
            decreases self.alive@.len() - i,
        {
            if !is_mark_safe(self.alive[i]) {
                return false;
            }
            i = i + 1;
        }
        true
    }

    /// Sets cell `(x, y)` of the quadtree, unless the quadtree is empty and
    /// the cell lies in the top `2^31` of either coordinate (a square around it
    /// would wrap) or the
    /// quadtree is deeper than 32 levels.
    fn quad_set(hf: &mut HashLife, x: u64, y: u64, alive: bool)
        requires
            old(hf).wf(),
        ensures
            final(hf).wf(),
            old(hf).root == FALSE_NODE && !alive ==> *final(hf) == *old(hf),
            old(hf).root != FALSE_NODE ==> final(hf).center == old(hf).center,
            old(hf).root != FALSE_NODE && old(hf).depth <= 32 ==> final(hf).cache.exhausted || final(hf).depth == 32
                || final(hf).alive(x, y) == alive,
            old(hf).root != FALSE_NODE && old(hf).depth <= 32 ==> final(hf).cache.exhausted || final(hf).alive(x, y) == alive
                || (final(hf).depth == 32 && !final(hf).in_block(x, y)),
            old(hf).root == FALSE_NODE && alive && x < 0xFFFF_FFFF_8000_0000 && y < 0xFFFF_FFFF_8000_0000
                && !final(hf).cache.exhausted ==> final(hf).alive(x, y),
            !final(hf).cache.exhausted ==> forall|a: u64, b: u64|
                (a != x || b != y) ==> #[trigger] final(hf).alive(a, b) == old(hf).alive(a, b),
            old(hf).root != FALSE_NODE && old(hf).cache.exhausted ==> final(hf).cache.exhausted,
            old(hf).root != FALSE_NODE && old(hf).depth > 32 ==> *final(hf) == *old(hf),
            old(hf).alive(x, y) && old(hf).depth <= 32 && !final(hf).cache.exhausted ==> final(hf).alive(x, y) == alive,
            old(hf).root != FALSE_NODE ==> final(hf).depth >= old(hf).depth,
    {
        if hf.is_empty() && alive && (x >= 0xFFFF_FFFF_8000_0000 || y >= 0xFFFF_FFFF_8000_0000) {
            return;
        }
        hf.set_cell(x, y, alive);
    }

    /// Flips the cell at `(x, y)`: in the quadtree (viewer coordinates; when
    /// it is at most 32 levels deep and the cell can be set, see `quad_set`),
    /// or in the sparse engine when every tile involved can be marked.
    pub fn toggle_cell(&mut self, x: i64, y: i64)
        requires
            old(self).wf(),
        ensures
            final(self).wf(),
            final(self).hashlife_mode == old(self).hashlife_mode,
            final(self).generation == old(self).generation,
            !old(self).hashlife_mode && (forall|i: int| 0 <= i < old(self).alive@.len() ==> mark_safe(
                #[trigger] old(self).alive@[i])) && mark_safe(spec_pack(x as u32, y as u32)) && old(self).alive@.len()
                < usize::MAX / 2400 ==> final(self).cells() == if old(self).cells().contains(spec_pack(x as u32, y as u32)) {
                old(self).cells().remove(spec_pack(x as u32, y as u32))
            } else {
                old(self).cells().insert(spec_pack(x as u32, y as u32))
            },
            old(self).hashlife_mode ==> final(self).alive == old(self).alive,
            old(self).hashlife_mode ==> (final(self).hashlife is Some <==> old(self).hashlife is Some),
            old(self).hashlife_mode && (old(self).hashlife matches Some(h) && h.depth <= 32)
                && !final(self).hashlife->0.cache.exhausted ==> forall|a: u64, b: u64|
                (a != spec_shift(x as u64, FRONTEND_OFFSET, HASHLIFE_OFFSET) || b != spec_shift(
                    y as u64,
                    FRONTEND_OFFSET,
                    HASHLIFE_OFFSET,
                )) ==> #[trigger] final(self).hashlife->0.alive(a, b) == old(self).hashlife->0.alive(a, b),
            old(self).hashlife_mode && (old(self).hashlife matches Some(h) && h.depth <= 32)
                && !final(self).hashlife->0.cache.exhausted && old(self).hashlife->0.alive(
                spec_shift(x as u64, FRONTEND_OFFSET, HASHLIFE_OFFSET),
                spec_shift(y as u64, FRONTEND_OFFSET, HASHLIFE_OFFSET),
            ) ==> !final(self).hashlife->0.alive(
                spec_shift(x as u64, FRONTEND_OFFSET, HASHLIFE_OFFSET),
                spec_shift(y as u64, FRONTEND_OFFSET, HASHLIFE_OFFSET),
            ),
            old(self).hashlife_mode && (old(self).hashlife matches Some(h) && h.depth <= 32)
                && !final(self).hashlife->0.cache.exhausted && !old(self).hashlife->0.alive(
                spec_shift(x as u64, FRONTEND_OFFSET, HASHLIFE_OFFSET),
                spec_shift(y as u64, FRONTEND_OFFSET, HASHLIFE_OFFSET),
            ) && (old(self).hashlife->0.root != FALSE_NODE || (spec_shift(x as u64, FRONTEND_OFFSET, HASHLIFE_OFFSET)
                < 0xFFFF_FFFF_8000_0000 && spec_shift(y as u64, FRONTEND_OFFSET, HASHLIFE_OFFSET) < 0xFFFF_FFFF_8000_0000))
                ==> final(self).hashlife->0.alive(
                spec_shift(x as u64, FRONTEND_OFFSET, HASHLIFE_OFFSET),
                spec_shift(y as u64, FRONTEND_OFFSET, HASHLIFE_OFFSET),
            ) || (final(self).hashlife->0.depth == 32 && !final(self).hashlife->0.in_block(
                spec_shift(x as u64, FRONTEND_OFFSET, HASHLIFE_OFFSET),
                spec_shift(y as u64, FRONTEND_OFFSET, HASHLIFE_OFFSET),
            )),
    {
        if self.hashlife_mode {
            match &mut self.hashlife {
                Some(hf) => {
                    let (hx, hy) = frontend_to_hashlife(x as u64, y as u64);
                    if hf.depth <= 32 {
                        let was = hf.get_cell(hx, hy);
                        Self::quad_set(hf, hx, hy, !was);
                    }
                },
                None => {},
            }
        } else {
            let k = Grid::k(x as u32, y as u32);
            if self.cells_mark_safe() && is_mark_safe(k) && self.alive.len() < usize::MAX / 2400 {
                self.toggle(x, y);
            }
        }
    }

    /// Fills the quadtree with the drawn cells of a random pattern (quadtree
    /// coordinates), dropping the sparse engine's cells and active tiles.
    pub fn randomize_hashlife(&mut self, cells: &[(u64, u64)])
        requires
            old(self).wf(),
        ensures
            final(self).wf(),
            final(self).hashlife is Some,
            !final(self).hashlife->0.cache.exhausted ==> forall|a: u64, b: u64|
                #[trigger] final(self).hashlife->0.alive(a, b) ==> exists|i: int|
                    0 <= i < cells@.len() && #[trigger] cells@[i] == (a, b),
            !final(self).hashlife->0.cache.exhausted && final(self).hashlife->0.depth < 32 && below_wrap_band(cells@)
                ==> forall|i: int| 0 <= i < cells@.len() ==> #[trigger] final(self).hashlife->0.alive(
                cells@[i].0,
                cells@[i].1,
            ),
            final(self).cells().is_empty(),
            final(self).active_tiles@.is_empty(),
            final(self).hashlife_mode == old(self).hashlife_mode,
    {
        let mut hf = HashLife::new();
        let mut i: usize = 0;
        while i < cells.len() && !hf.cache.exhausted
            invariant
                hf.wf(),
                i <= cells@.len(),
                i == 0 ==> hf.root == FALSE_NODE,
                !hf.cache.exhausted ==> forall|a: u64, b: u64|
                    #[trigger] hf.alive(a, b) ==> exists|j: int| 0 <= j < i && #[trigger] cells@[j] == (a, b),
                !hf.cache.exhausted && below_wrap_band(cells@) && i > 0 ==> hf.alive(cells@[0].0, cells@[0].1),
                !hf.cache.exhausted && below_wrap_band(cells@) && hf.depth < 32 ==> forall|j: int|
                    0 <= j < i ==> #[trigger] hf.alive(cells@[j].0, cells@[j].1),
            decreases cells@.len() - i,
        {
            let (x, y) = cells[i];
            let ghost before = hf;
            Self::quad_set(&mut hf, x, y, true);
            proof {
                if !hf.cache.exhausted && below_wrap_band(cells@) {
                    assert(x < 0xFFFF_FFFF_8000_0000 && y < 0xFFFF_FFFF_8000_0000) by {
                        assert(cells@[i as int] == (x, y));
                    }
                    if i > 0 {
                        assert(before.alive(cells@[0].0, cells@[0].1));
                        assert(before.root != FALSE_NODE);
                        if cells@[0].0 == x && cells@[0].1 == y {
                            if before.depth <= 32 {
                                assert(hf.alive(x, y));
                            } else {
                                assert(hf == before);
                            }
                        } else {
                            assert(hf.alive(cells@[0].0, cells@[0].1));
                        }
                    } else {
                        assert(hf.alive(x, y));
                        assert(cells@[0] == (x, y));
                    }
                    if hf.depth < 32 {
                        if before.root == FALSE_NODE {
                            assert(i == 0);
                        } else {
                            assert(before.depth <= hf.depth);
                            assert(hf.alive(x, y));
                        }
                        assert forall|j: int| 0 <= j < i + 1 implies #[trigger] hf.alive(cells@[j].0, cells@[j].1) by {
                            if j < i {
                                assert(before.alive(cells@[j].0, cells@[j].1));
                                if cells@[j].0 != x || cells@[j].1 != y {
                                    assert(hf.alive(cells@[j].0, cells@[j].1) == before.alive(cells@[j].0, cells@[j].1));
                                }
                            } else {
                                assert(cells@[j] == (x, y));
                            }
                        }
                    }
                }
                if !hf.cache.exhausted {
                    assert forall|a: u64, b: u64| #[trigger] hf.alive(a, b) implies exists|j: int|
                        0 <= j < i + 1 && #[trigger] cells@[j] == (a, b) by {
                        if a == x && b == y {
                            assert(cells@[i as int] == (a, b));
                        } else {
                            assert(before.alive(a, b));
                            assert(before.root != FALSE_NODE);
                            assert(!before.cache.exhausted);
                            let j = choose|j: int| 0 <= j < i && #[trigger] cells@[j] == (a, b);
                            assert(cells@[j] == (a, b));
                        }
                    }
                }
            }
            i = i + 1;
        }
        self.hashlife = Some(hf);
        self.alive.clear();
        self.alive_index.clear();
        self.active_tiles.clear();
        proof {
            assert(self.alive@.to_set() =~= Set::empty());
        }
    }
}

/// Every cell of `cells` lies below the top `2^31` of both coordinates, where
/// a cell set into an empty quadtree would wrap around the plane.
pub open spec fn below_wrap_band(cells: Seq<(u64, u64)>) -> bool {
    forall|i: int| 0 <= i < cells.len() ==> #[trigger] cells[i].0 < 0xFFFF_FFFF_8000_0000 && cells[i].1 < 0xFFFF_FFFF_8000_0000
}

/// The entries of `s`, each at its first occurrence.
pub open spec fn first_occurrences(s: Seq<u64>) -> Seq<u64>
    decreases s.len(),
{
    if s.len() == 0 {
        Seq::empty()
    } else {
        let d = first_occurrences(s.drop_last());
        if d.contains(s.last()) {
            d
        } else {
            d.push(s.last())
        }
    }
}

/// Whether offset `c` can be placed at `(cx, cy)` (see `placeable`).
fn can_place(c: (i64, i64), cx: i64, cy: i64) -> (r: bool)
    ensures
        r == placeable(c, cx, cy),
{
    let (dx, dy) = c;
    let x = match cx.checked_add(dx) {
        Some(v) => v,
        None => {
            return false;
        },
    };
    let y = match cy.checked_add(dy) {
        Some(v) => v,
        None => {
            return false;
        },
    };
    is_mark_safe(Grid::k(x as u32, y as u32))
}

impl Grid {
    /// Replaces the live cells by those of a random fill, once its offsets are
    /// drawn: the cells `(cx + dx, cy + dy)` (coordinates taken modulo 2^32),
    /// each once, in the order drawn, from generation 0. Refused, leaving the
    /// grid as it is, when a cell would lie on the plane's edge or a sum leaves
    /// the 64-bit range.
    pub fn randomize(&mut self, cx: i64, cy: i64, picks: &[(i64, i64)]) -> (r: bool)
        requires
            old(self).wf(),
        ensures
            final(self).wf(),
            r == (picks@.len() < usize::MAX / 2400 && forall|i: int| 0 <= i < picks@.len() ==> placeable(#[trigger] picks@[i], cx, cy)),
            r ==> final(self).alive@ == first_occurrences(crate::grid::pattern_keys(picks@, cx, cy)),
            r ==> final(self).generation == 0,
            r ==> final(self).active_tiles@ == crate::grid::marked_tiles(final(self).alive@) && final(self).blooms_cover(),
            r ==> final(self).hashlife == old(self).hashlife,
            !r ==> *final(self) == *old(self),
            final(self).hashlife_mode == old(self).hashlife_mode,
    {
        if picks.len() >= usize::MAX / 2400 {
            return false;
        }
        let mut j: usize = 0;
        while j < picks.len()
            invariant
                j <= picks@.len(),
                *self == *old(self),
                self.wf(),
                forall|t: int| 0 <= t < j ==> placeable(#[trigger] picks@[t], cx, cy),
            decreases picks@.len() - j,
        {
            if !can_place(picks[j], cx, cy) {
                return false;
            }
            j = j + 1;
        }
        let ghost all = crate::grid::pattern_keys(picks@, cx, cy);
        let mut keys: Vec<u64> = Vec::new();
        let mut seen: HashSet<u64> = HashSet::new();
        let mut i: usize = 0;
        while i < picks.len()
            invariant
                i <= picks@.len(),
                picks@.len() < usize::MAX / 2400,
                all == crate::grid::pattern_keys(picks@, cx, cy),
                forall|t: int| 0 <= t < picks@.len() ==> placeable(#[trigger] picks@[t], cx, cy),
                keys@ == first_occurrences(all.take(i as int)),
                seen@ == keys@.to_set(),
                keys@.no_duplicates(),
                keys@.len() <= i,
                forall|t: int| 0 <= t < keys@.len() ==> mark_safe(#[trigger] keys@[t]),
            decreases picks@.len() - i,
        {
            let (dx, dy) = picks[i];
            proof {
                assert(placeable(picks@[i as int], cx, cy));
            }
            let k = Grid::k((cx + dx) as u32, (cy + dy) as u32);
            let ghost before = keys@;
            proof {
                assert(k == all[i as int]);
                assert(all.take(i as int + 1).drop_last() =~= all.take(i as int));
                assert(all.take(i as int + 1).last() == k);
            }
            if !seen.contains(&k) {
                seen.insert(k);
                keys.push(k);
                proof {
                    assert(!before.contains(k));
                    assert(keys@ == before.push(k));
                    assert forall|x: u64| keys@.to_set().contains(x) <==> before.to_set().insert(k).contains(x) by {
                        assert(keys@[before.len() as int] == k);
                        if keys@.contains(x) {
                            let a = choose|a: int| 0 <= a < keys@.len() && keys@[a] == x;
                            if a < before.len() {
                                assert(before[a] == x);
                            }
                        }
                        if before.contains(x) {
                            let a = choose|a: int| 0 <= a < before.len() && before[a] == x;
                            assert(keys@[a] == x);
                        }
                    }
                    assert(keys@.to_set() =~= before.to_set().insert(k));
                    assert forall|a: int, b: int| 0 <= a < b < keys@.len() implies keys@[a] != keys@[b] by {
                        if b == before.len() {
                            assert(before.contains(before[a]));
                        }
                    }
                }
            } else {
                proof {
                    assert(before.to_set().contains(k));
                    assert(before.contains(k));
                }
            }
            i = i + 1;
        }
        proof {
            assert(all.take(picks@.len() as int) =~= all);
        }
        self.reset_to(&keys);
        true
    }
}

/// Pattern cell `c` can be placed at the anchor: the sums stay in range and
/// the cell's tiles can be marked.
pub open spec fn placeable(c: (i64, i64), ax: i64, ay: i64) -> bool {
    &&& i64::MIN <= c.0 + ax <= i64::MAX
    &&& i64::MIN <= c.1 + ay <= i64::MAX
    &&& mark_safe(pattern_key(c, ax, ay))
}

/// The cells a pattern adds at the anchor.
pub open spec fn placed_cells(cells: Seq<(i64, i64)>, ax: i64, ay: i64) -> Set<u64> {
    Set::new(|k: u64| exists|j: int| 0 <= j < cells.len() && placeable(cells[j], ax, ay) && k == pattern_key(#[trigger] cells[j], ax, ay))
}

impl Grid {
    /// The pattern cells that `load_pattern` can add: placeable, not live,
    /// each cell once.
    fn admissible_cells(&self, cells: &[(i64, i64)], ax: i64, ay: i64) -> (r: Vec<(i64, i64)>)
        requires
            self.wf(),
        ensures
            r@.len() <= cells@.len(),
            forall|i: int| 0 <= i < r@.len() ==> placeable(#[trigger] r@[i], ax, ay) && !self.cells().contains(
                pattern_key(r@[i], ax, ay)),
            forall|i: int, j: int| 0 <= i < j < r@.len() ==> pattern_key(#[trigger] r@[i], ax, ay) != pattern_key(
                #[trigger] r@[j], ax, ay),
            self.cells().union(Set::new(|k: u64| exists|i: int| 0 <= i < r@.len() && k == pattern_key(#[trigger] r@[i], ax, ay)))
                == self.cells().union(placed_cells(cells@, ax, ay)),
    {
        let mut out: Vec<(i64, i64)> = Vec::new();
        let mut seen: HashSet<u64> = HashSet::new();
        let mut j: usize = 0;
        while j < cells.len()
            invariant
                self.wf(),
                j <= cells@.len(),
                out@.len() <= j,
                forall|i: int| 0 <= i < out@.len() ==> placeable(#[trigger] out@[i], ax, ay) && !self.cells().contains(
                    pattern_key(out@[i], ax, ay)),
                forall|i: int, m: int| 0 <= i < m < out@.len() ==> pattern_key(#[trigger] out@[i], ax, ay) != pattern_key(
                    #[trigger] out@[m], ax, ay),
                forall|k: u64| #[trigger] seen@.contains(k) <==> exists|i: int| 0 <= i < out@.len() && k == pattern_key(
                    #[trigger] out@[i], ax, ay),
                self.cells().union(seen@) == self.cells().union(placed_cells(cells@.take(j as int), ax, ay)),
            decreases cells@.len() - j,
        {
            let (cx, cy) = cells[j];
            let ghost pre = cells@.take(j as int);
            let ghost cur = cells@.take(j as int + 1);
            let ghost seen0 = seen@;
            let ghost out0 = out@;
            let sx = cx.checked_add(ax);
            let sy = cy.checked_add(ay);
            match (sx, sy) {
                (Some(x), Some(y)) => {
                    let k = Grid::k(x as u32, y as u32);
                    if is_mark_safe(k) && !self.contains_alive(k) && !seen.contains(&k) {
                        out.push((cx, cy));
                        seen.insert(k);
                        proof {
                            assert(out@[out0.len() as int] == (cx, cy));
                            assert forall|i: int, m: int| 0 <= i < m < out@.len() implies pattern_key(#[trigger] out@[i], ax, ay)
                                != pattern_key(#[trigger] out@[m], ax, ay) by {
                                if m == out0.len() {
                                    assert(seen0.contains(pattern_key(out0[i], ax, ay)));
                                } else {
                                    assert(out@[i] == out0[i] && out@[m] == out0[m]);
                                }
                            }
                            assert forall|kk: u64| #[trigger] seen@.contains(kk) <==> exists|i: int| 0 <= i < out@.len() && kk
                                == pattern_key(#[trigger] out@[i], ax, ay) by {
                                if seen0.contains(kk) {
                                    let i = choose|i: int| 0 <= i < out0.len() && kk == pattern_key(#[trigger] out0[i], ax, ay);
                                    assert(out@[i] == out0[i]);
                                }
                                if exists|i: int| 0 <= i < out@.len() && kk == pattern_key(#[trigger] out@[i], ax, ay) {
                                    let i = choose|i: int| 0 <= i < out@.len() && kk == pattern_key(#[trigger] out@[i], ax, ay);
                                    if i < out0.len() {
                                        assert(out@[i] == out0[i]);
                                    }
                                }
                            }
                        }
                    }
                    proof {
                        assert(k == pattern_key((cx, cy), ax, ay));
                        assert(placeable((cx, cy), ax, ay) ==> self.cells().contains(k) || seen@.contains(k));
                    }
                },
                _ => {
                    proof {
                        assert(!placeable((cx, cy), ax, ay));
                    }
                },
            }
            proof {
                assert(cur[j as int] == (cx, cy));
                assert(placeable((cx, cy), ax, ay) ==> self.cells().union(seen@).contains(pattern_key((cx, cy), ax, ay)));
                assert(seen0.subset_of(seen@));
                assert(forall|kk: u64| seen@.contains(kk) ==> seen0.contains(kk) || kk == pattern_key((cx, cy), ax, ay));
                assert forall|kk: u64| self.cells().union(seen@).contains(kk) <==> #[trigger] self.cells().union(placed_cells(cur, ax,
                    ay)).contains(kk) by {
                    assert(self.cells().union(seen0).contains(kk) == self.cells().union(placed_cells(pre, ax, ay)).contains(kk));
                    if seen@.contains(kk) && !seen0.contains(kk) {
                        assert(kk == pattern_key(cur[j as int], ax, ay));
                        assert(placeable(cur[j as int], ax, ay));
                        assert(placed_cells(cur, ax, ay).contains(kk));
                    }
                    if placed_cells(cur, ax, ay).contains(kk) {
                        let m = choose|m: int| 0 <= m < cur.len() && placeable(cur[m], ax, ay) && kk == pattern_key(#[trigger] cur[m], ax,
                            ay);
                        if m < j {
                            assert(pre[m] == cur[m]);
                            assert(placed_cells(pre, ax, ay).contains(kk));
                        }
                    }
                    if placed_cells(pre, ax, ay).contains(kk) {
                        let m = choose|m: int| 0 <= m < pre.len() && placeable(pre[m], ax, ay) && kk == pattern_key(#[trigger] pre[m], ax,
                            ay);
                        assert(cur[m] == pre[m]);
                    }
                    if seen@.contains(kk) && !seen0.contains(kk) {
                        assert(kk == pattern_key(cur[j as int], ax, ay));
                    }
                }
                assert(self.cells().union(seen@) =~= self.cells().union(placed_cells(cur, ax, ay)));
            }
            j = j + 1;
        }
        proof {
            assert(cells@.take(cells@.len() as int) =~= cells@);
            assert(seen@ =~= Set::new(|k: u64| exists|i: int| 0 <= i < out@.len() && k == pattern_key(#[trigger] out@[i], ax, ay)));
        }
        out
    }

    /// Loads pattern `cells` at the anchor `(ax, ay)` (viewer coordinates).
    /// Quadtree mode: an empty quadtree is rebuilt from the cells (when they
    /// lie below `2^64 - 2^31` and span less than 2^31), otherwise each cell is set.
    /// Sparse engine: every placeable cell is added, when every live cell's
    /// tiles can be marked and the cells are few enough.
    pub fn load_cells(&mut self, cells: &[(i64, i64)], ax: i64, ay: i64)
        requires
            old(self).wf(),
        ensures
            final(self).wf(),
            final(self).hashlife_mode == old(self).hashlife_mode,
            final(self).generation == old(self).generation,
            !old(self).hashlife_mode && (forall|i: int| 0 <= i < old(self).alive@.len() ==> mark_safe(
                #[trigger] old(self).alive@[i])) && old(self).alive@.len() + cells@.len() < usize::MAX / 2400
                ==> final(self).cells() == old(self).cells().union(placed_cells(cells@, ax, ay)),
            old(self).hashlife_mode ==> final(self).alive == old(self).alive,
            old(self).hashlife_mode ==> (final(self).hashlife is Some <==> old(self).hashlife is Some),
            old(self).hashlife_mode && (old(self).hashlife matches Some(h) && h.root == FALSE_NODE) && flat_in_range(
                quad_pattern(cells@, spec_shift(ax as u64, FRONTEND_OFFSET, HASHLIFE_OFFSET), spec_shift(
                    ay as u64,
                    FRONTEND_OFFSET,
                    HASHLIFE_OFFSET,
                )),
            ) && !final(self).hashlife->0.cache.exhausted ==> forall|a: u64, b: u64|
                #[trigger] final(self).hashlife->0.alive(a, b) <==> exists|i: int|
                    0 <= i < cells@.len() && a == quad_coord(spec_shift(ax as u64, FRONTEND_OFFSET, HASHLIFE_OFFSET),
                        #[trigger] cells@[i].0) && b == quad_coord(spec_shift(ay as u64, FRONTEND_OFFSET, HASHLIFE_OFFSET),
                        cells@[i].1),
            old(self).hashlife_mode && (old(self).hashlife matches Some(h) && h.root == FALSE_NODE) && !flat_in_range(
                quad_pattern(cells@, spec_shift(ax as u64, FRONTEND_OFFSET, HASHLIFE_OFFSET), spec_shift(
                    ay as u64,
                    FRONTEND_OFFSET,
                    HASHLIFE_OFFSET,
                )),
            ) ==> final(self).hashlife == old(self).hashlife,
            old(self).hashlife_mode && (old(self).hashlife matches Some(h) && h.root != FALSE_NODE)
                && !final(self).hashlife->0.cache.exhausted ==> forall|a: u64, b: u64|
                (old(self).hashlife->0.alive(a, b) ==> #[trigger] final(self).hashlife->0.alive(a, b))
                    && (final(self).hashlife->0.alive(a, b) ==> old(self).hashlife->0.alive(a, b) || exists|i: int|
                    0 <= i < cells@.len() && a == quad_coord(spec_shift(ax as u64, FRONTEND_OFFSET, HASHLIFE_OFFSET),
                        #[trigger] cells@[i].0) && b == quad_coord(spec_shift(ay as u64, FRONTEND_OFFSET, HASHLIFE_OFFSET),
                        cells@[i].1)),
            old(self).hashlife_mode && (old(self).hashlife matches Some(h) && exists|a: u64, b: u64| #[trigger] h.alive(a, b))
                && !final(self).hashlife->0.cache.exhausted && final(self).hashlife->0.depth < 32 ==> forall|i: int|
                0 <= i < cells@.len() ==> #[trigger] final(self).hashlife->0.alive(
                    quad_coord(spec_shift(ax as u64, FRONTEND_OFFSET, HASHLIFE_OFFSET), cells@[i].0),
                    quad_coord(spec_shift(ay as u64, FRONTEND_OFFSET, HASHLIFE_OFFSET), cells@[i].1),
                ),
    {
        if self.hashlife_mode {
            match &mut self.hashlife {
                Some(hf) => {
                    let (hax, hay) = frontend_to_hashlife(ax as u64, ay as u64);
                    let ghost h0 = *hf;
                    if hf.is_empty() {
                        let mut flat: Vec<u128> = Vec::new();
                        let mut i: usize = 0;
                        while i < cells.len()
                            invariant
                                i <= cells@.len(),
                                flat@ == quad_pattern(cells@, hax, hay).take(i as int),
                            decreases cells@.len() - i,
                        {
                            let (cx, cy) = cells[i];
                            flat.push(coord_pack(hax.wrapping_add(cx as u64), hay.wrapping_add(cy as u64)));
                            proof {
                                assert(flat@ =~= quad_pattern(cells@, hax, hay).take(i + 1));
                            }
                            i = i + 1;
                        }
                        proof {
                            assert(flat@ =~= quad_pattern(cells@, hax, hay));
                        }
                        if flat_ok(&flat) {
                            *hf = HashLife::from_flat(&flat);
                            proof {
                                if !hf.cache.exhausted {
                                    assert forall|a: u64, b: u64| #[trigger] hf.alive(a, b) <==> exists|i: int|
                                        0 <= i < cells@.len() && a == quad_coord(hax, #[trigger] cells@[i].0) && b == quad_coord(
                                            hay,
                                            cells@[i].1,
                                        ) by {
                                        if hf.alive(a, b) {
                                            assert(flat@.contains(spec_coord_pack(a, b)));
                                            let i = choose|i: int| 0 <= i < flat@.len() && flat@[i] == spec_coord_pack(a, b);
                                            crate::hashlife::life::lemma_coord_pack_inj(a, b, quad_coord(hax, cells@[i].0),
                                                quad_coord(hay, cells@[i].1));
                                        }
                                        if exists|i: int|
                                            0 <= i < cells@.len() && a == quad_coord(hax, #[trigger] cells@[i].0) && b
                                                == quad_coord(hay, cells@[i].1) {
                                            let i = choose|i: int|
                                                0 <= i < cells@.len() && a == quad_coord(hax, #[trigger] cells@[i].0) && b
                                                    == quad_coord(hay, cells@[i].1);
                                            assert(flat@[i] == spec_coord_pack(a, b));
                                        }
                                    }
                                }
                            }
                        }
                    } else {
                        let mut i: usize = 0;
                        while i < cells.len() && !hf.cache.exhausted
                            invariant
                                hf.wf(),
                                i <= cells@.len(),
                                h0.root != FALSE_NODE,
                                !hf.cache.exhausted ==> forall|a: u64, b: u64|
                                    (h0.alive(a, b) ==> #[trigger] hf.alive(a, b)) && (hf.alive(a, b) ==> h0.alive(a, b)
                                        || exists|j: int|
                                        0 <= j < i && a == quad_coord(hax, #[trigger] cells@[j].0) && b == quad_coord(
                                            hay,
                                            cells@[j].1,
                                        )),
                                !hf.cache.exhausted && (exists|a: u64, b: u64| #[trigger] h0.alive(a, b)) && hf.depth < 32
                                    ==> forall|j: int| 0 <= j < i ==> #[trigger] hf.alive(
                                    quad_coord(hax, cells@[j].0),
                                    quad_coord(hay, cells@[j].1),
                                ),
                            decreases cells@.len() - i,
                        {
                            let (cx, cy) = cells[i];
                            let ghost before = *hf;
                            Self::quad_set(hf, hax.wrapping_add(cx as u64), hay.wrapping_add(cy as u64), true);
                            proof {
                                let px = quad_coord(hax, cells@[i as int].0);
                                let py = quad_coord(hay, cells@[i as int].1);
                                if !hf.cache.exhausted && (exists|a: u64, b: u64| #[trigger] h0.alive(a, b)) && hf.depth < 32 {
                                    assert forall|j: int| 0 <= j < i + 1 implies #[trigger] hf.alive(
                                        quad_coord(hax, cells@[j].0),
                                        quad_coord(hay, cells@[j].1),
                                    ) by {
                                        assert(px == hax.wrapping_add(cx as u64) && py == hay.wrapping_add(cy as u64));
                                        let (a0, b0) = choose|a: u64, b: u64| #[trigger] h0.alive(a, b);
                                        assert(before.alive(a0, b0));
                                        assert(before.root != FALSE_NODE);
                                        assert(before.depth <= hf.depth);
                                        assert(hf.alive(px, py));
                                        if j < i {
                                            let qx = quad_coord(hax, cells@[j].0);
                                            let qy = quad_coord(hay, cells@[j].1);
                                            assert(before.alive(qx, qy));
                                            if qx != px || qy != py {
                                                assert(hf.alive(qx, qy) == before.alive(qx, qy));
                                            }
                                        }
                                    }
                                }
                                if !hf.cache.exhausted {
                                    assert forall|a: u64, b: u64|
                                        (h0.alive(a, b) ==> #[trigger] hf.alive(a, b)) && (hf.alive(a, b) ==> h0.alive(a, b)
                                            || exists|j: int|
                                            0 <= j < i + 1 && a == quad_coord(hax, #[trigger] cells@[j].0) && b
                                                == quad_coord(hay, cells@[j].1)) by {
                                        if a == px && b == py {
                                            assert(cells@[i as int].0 == cx);
                                            assert(px == hax.wrapping_add(cx as u64) && py == hay.wrapping_add(cy as u64));
                                            if h0.alive(a, b) {
                                                assert(before.alive(a, b));
                                                assert(before.root != FALSE_NODE);
                                                if before.depth <= 32 {
                                                    assert(hf.alive(a, b));
                                                } else {
                                                    assert(*hf == before);
                                                }
                                            }
                                        } else {
                                            assert(hf.alive(a, b) == before.alive(a, b));
                                            if hf.alive(a, b) && !h0.alive(a, b) {
                                                let j = choose|j: int|
                                                    0 <= j < i && a == quad_coord(hax, #[trigger] cells@[j].0) && b
                                                        == quad_coord(hay, cells@[j].1);
                                                assert(cells@[j].0 == cells@[j].0);
                                            }
                                        }
                                    }
                                }
                            }
                            i = i + 1;
                        }
                    }
                },
                None => {},
            }
        } else {
            let keep = self.admissible_cells(cells, ax, ay);
            if self.cells_mark_safe() && keep.len() < usize::MAX / 2400 && self.alive.len() < usize::MAX / 2400 - keep.len() {
                self.load_pattern(keep.as_slice(), ax, ay);
            }
        }
    }
}

/// The live cells of the sparse engine as coordinate pairs.
pub open spec fn grid_pairs(s: Seq<u64>) -> Seq<(u64, u64)> {
    s.map(|i: int, k: u64| (spec_key_x(k) as u64, spec_key_y(k) as u64))
}

/// Quadtree cells as coordinate pairs in the viewer's coordinates.
pub open spec fn frontend_pairs(c: Seq<u128>) -> Seq<(u64, u64)> {
    c.map(|i: int, p: u128| (spec_shift(key_x(p) as u64, HASHLIFE_OFFSET, FRONTEND_OFFSET),
        spec_shift(key_y(p) as u64, HASHLIFE_OFFSET, FRONTEND_OFFSET)))
}

/// No cell lies on the last row or column of the 64-bit plane.
pub open spec fn off_last_line(c: Seq<(u64, u64)>) -> bool {
    forall|i: int| 0 <= i < c.len() ==> #[trigger] c[i].0 < u64::MAX && c[i].1 < u64::MAX
}

impl Grid {
    /// The running engine's pattern as text: macrocell text for a quadtree of
    /// more than 5000 cells, RLE otherwise (quadtree cells in the viewer's
    /// coordinates). None when the quadtree is deeper than 31 levels or a cell
    /// lies on the last row or column of the plane.
    pub fn export_pattern(&self) -> (r: Option<String>)
        requires
            self.wf(),
        ensures
            !self.hashlife_mode ==> (r matches Some(t) && t@ == rle_text(grid_pairs(self.alive@))),
            self.hashlife_mode && self.hashlife is None ==> (r matches Some(t) && t@ == rle_text(Seq::empty())),
            self.hashlife_mode && self.hashlife is Some ==> {
                let h = self.hashlife->0;
                &&& (r is Some <==> h.depth <= 31 && off_last_line(frontend_pairs(h.cells())))
                &&& r matches Some(t) ==> t@ == if h.cells().len() > 5000 {
                    mc_text(h)
                } else {
                    rle_text(frontend_pairs(h.cells()))
                }
            },
    {
        if self.hashlife_mode {
            match &self.hashlife {
                Some(hf) => {
                    if hf.depth > 31 {
                        return None;
                    }
                    let flat = hf.to_flat();
                    let mut cells: Vec<(u64, u64)> = Vec::new();
                    let mut i: usize = 0;
                    while i < flat.len()
                        invariant
                            i <= flat@.len(),
                            cells@ == frontend_pairs(flat@).take(i as int),
                            off_last_line(cells@),
                            self.hashlife_mode,
                            self.hashlife is Some,
                            self.hashlife->0 == *hf,
                            flat@ == hf.cells(),
                            hf.depth <= 31,
                        decreases flat@.len() - i,
                    {
                        let (hx, hy) = coord_unpack(flat[i]);
                        let p = hashlife_to_frontend(hx, hy);
                        if p.0 == u64::MAX || p.1 == u64::MAX {
                            proof {
                                assert(frontend_pairs(flat@)[i as int] == p);
                                assert(!off_last_line(frontend_pairs(flat@)));
                            }
                            return None;
                        }
                        cells.push(p);
                        proof {
                            assert(cells@ =~= frontend_pairs(flat@).take(i as int + 1));
                        }
                        i = i + 1;
                    }
                    proof {
                        assert(cells@ =~= frontend_pairs(flat@));
                    }
                    if cells.len() > 5000 {
                        Some(hf.export_mc())
                    } else {
                        Some(export_rle(cells.as_slice()))
                    }
                },
                None => {
                    let cells: Vec<(u64, u64)> = Vec::new();
                    Some(export_rle(cells.as_slice()))
                },
            }
        } else {
            let mut cells: Vec<(u64, u64)> = Vec::new();
            let mut i: usize = 0;
            while i < self.alive.len()
                invariant
                    i <= self.alive@.len(),
                    cells@ == grid_pairs(self.alive@).take(i as int),
                decreases self.alive@.len() - i,
            {
                let (x, y) = Coord::unpack(self.alive[i]);
                cells.push((x as u64, y as u64));
                proof {
                    assert(cells@ =~= grid_pairs(self.alive@).take(i as int + 1));
                }
                i = i + 1;
            }
            proof {
                assert(cells@ =~= grid_pairs(self.alive@));
            }
            Some(export_rle(cells.as_slice()))
        }
    }
}

} // verus!
